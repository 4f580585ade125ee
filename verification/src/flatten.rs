//! The flattening engine: turning an ordered sequence of dotted `key=value`
//! override entries into one settings object, skipping entries that do not
//! parse or conflict, and reporting each skipped entry.

use vstd::prelude::*;

use crate::insert::Conflict;
use crate::insert::ConflictError;
use crate::insert::InsertSpec;
use crate::insert::all_succeed;
use crate::insert::apply_inserts;
use crate::insert::insert_value;
use crate::insert::is_prefix;
use crate::insert::lemma_unique_paths_all_succeed;
use crate::insert::lemma_unique_paths_lookup;
use crate::insert::lookup_path;
use crate::insert::spec_insert;
use crate::parse::dot_split;
use crate::parse::lemma_dot_split_nonempty;
use crate::parse::parse_toml_value;
use crate::parse::split_dots;
use crate::parse::split_eq;
use crate::parse::split_once_eq;
use crate::parse::toml_scalar_of;
use crate::value::SettingsValue;
use crate::value::Val;
use crate::value::entry_views;

verus! {

broadcast use vstd::std_specs::vec::group_vec_axioms, vstd::seq::group_seq_axioms;

/// Why one entry was skipped.
#[derive(Debug, PartialEq, Eq)]
pub enum SkipReason {
    /// The value text is not valid structured text, or holds a scalar the
    /// settings model cannot represent.
    UnparsableValue,
    /// The entry conflicted with the tree built so far.
    Conflict(ConflictError),
}

/// The mathematical shape of a [`SkipReason`].
#[verifier::ext_equal]
pub enum SkipView {
    UnparsableValue,
    Conflict(Conflict),
}

impl View for SkipReason {
    type V = SkipView;

    open spec fn view(&self) -> SkipView {
        match self {
            SkipReason::UnparsableValue => SkipView::UnparsableValue,
            SkipReason::Conflict(c) => SkipView::Conflict(c@),
        }
    }
}

/// One skipped entry: its raw text and the reason it did not apply.
#[derive(Debug, PartialEq, Eq)]
pub struct SkippedEntry {
    pub entry: String,
    pub reason: SkipReason,
}

impl View for SkippedEntry {
    type V = (Seq<char>, SkipView);

    open spec fn view(&self) -> (Seq<char>, SkipView) {
        (self.entry@, self.reason@)
    }
}

/// An entry with no `=` in it: the one malformation the whole call refuses
/// rather than skips.
#[derive(Debug, PartialEq, Eq)]
pub struct MalformedEntry {
    pub entry: String,
}

/// How one raw entry decomposes: the intermediate path segments, the leaf
/// key, and the raw value text after the first `=`.
pub open spec fn entry_parts(s: Seq<char>) -> Option<(Seq<Seq<char>>, Seq<char>, Seq<char>)> {
    match split_eq(s) {
        Option::None => None,
        Option::Some(halves) => {
            let parts = dot_split(halves.0);
            Some((parts.drop_last(), parts.last(), halves.1))
        },
    }
}

/// What one entry does to the tree built so far: the new tree, and the skip
/// reason when the entry did not apply cleanly.
pub open spec fn flatten_step(t: Seq<(Seq<char>, Val)>, s: Seq<char>) -> (
    Seq<(Seq<char>, Val)>,
    Option<SkipView>,
) {
    match entry_parts(s) {
        Option::None => (t, Some(SkipView::UnparsableValue)),
        Option::Some(parts) => match toml_scalar_of(parts.2) {
            Option::None => (t, Some(SkipView::UnparsableValue)),
            Option::Some(value) => {
                let r = spec_insert(t, parts.0, parts.1, value);
                match r.1 {
                    Option::None => (r.0, None),
                    Option::Some(c) => (r.0, Some(SkipView::Conflict(c))),
                }
            },
        },
    }
}

/// The tree and the skipped-entry report after processing the entries from
/// index `i` on, starting from tree `t` and report `sk`.
pub open spec fn spec_flatten(
    t: Seq<(Seq<char>, Val)>,
    sk: Seq<(Seq<char>, SkipView)>,
    entries: Seq<Seq<char>>,
    i: int,
) -> (Seq<(Seq<char>, Val)>, Seq<(Seq<char>, SkipView)>)
    decreases entries.len() - i,
{
    if i < 0 || i >= entries.len() {
        (t, sk)
    } else {
        let step = flatten_step(t, entries[i]);
        match step.1 {
            Option::None => spec_flatten(step.0, sk, entries, i + 1),
            Option::Some(reason) => spec_flatten(
                step.0,
                sk.push((entries[i], reason)),
                entries,
                i + 1,
            ),
        }
    }
}

/// Index of the first entry with no `=` in it, or `-1` when every entry has
/// one.
pub open spec fn first_malformed(entries: Seq<Seq<char>>) -> int
    decreases entries.len(),
{
    if entries.len() == 0 {
        -1
    } else if split_eq(entries[0]) is None {
        0
    } else {
        let r = first_malformed(entries.drop_first());
        if r < 0 {
            -1
        } else {
            r + 1
        }
    }
}

/// `first_malformed` finds the first entry without `=`: a negative result
/// means every entry has one.
pub proof fn lemma_first_malformed(entries: Seq<Seq<char>>)
    ensures
        first_malformed(entries) < 0 ==> forall|j: int|
            0 <= j < entries.len() ==> split_eq(#[trigger] entries[j]) is Some,
        first_malformed(entries) >= 0 ==> {
            &&& first_malformed(entries) < entries.len()
            &&& split_eq(entries[first_malformed(entries)]) is None
            &&& forall|j: int|
                0 <= j < first_malformed(entries) ==> split_eq(#[trigger] entries[j]) is Some
        },
    decreases entries.len(),
{
    if entries.len() != 0 && !(split_eq(entries[0]) is None) {
        lemma_first_malformed(entries.drop_first());
        assert forall|j: int| 1 <= j < entries.len() implies entries.drop_first()[j - 1]
            == entries[j] by {}
    }
}

/// Explodes flattened entries like `a.b=1` into one object tree, in input
/// order. An entry whose value does not parse, or which conflicts with the
/// tree built so far, is skipped and reported; an entry with no `=` at all
/// makes the whole call fail with that entry.
#[verifier::loop_isolation(false)]
pub fn explode_str_to_str_map(entries: &Vec<String>) -> (r: Result<
    (Vec<(String, SettingsValue)>, Vec<SkippedEntry>),
    MalformedEntry,
>)
    ensures
        ({
            let evs = entries@.map_values(|e: String| e@);
            match r {
                Ok(out) => {
                    &&& first_malformed(evs) < 0
                    &&& (
                    entry_views(out.0@),
                    out.1@.map_values(|e: SkippedEntry| e@),
                    ) == spec_flatten(Seq::empty(), Seq::empty(), evs, 0)
                },
                Err(m) => {
                    &&& first_malformed(evs) >= 0
                    &&& m.entry@ == evs[first_malformed(evs)]
                },
            }
        }),
{
    let ghost evs = entries@.map_values(|e: String| e@);
    let mut tree: Vec<(String, SettingsValue)> = Vec::new();
    let mut skipped: Vec<SkippedEntry> = Vec::new();
    let mut i: usize = 0;
    proof {
        assert(entry_views(tree@) =~= Seq::<(Seq<char>, Val)>::empty());
        assert(skipped@.map_values(|e: SkippedEntry| e@) =~= Seq::<(Seq<char>, SkipView)>::empty());
    }
    while i < entries.len()
        invariant
            i <= entries@.len(),
            forall|j: int| 0 <= j < i ==> split_eq(#[trigger] evs[j]) is Some,
            spec_flatten(
                entry_views(tree@),
                skipped@.map_values(|e: SkippedEntry| e@),
                evs,
                i as int,
            ) == spec_flatten(Seq::empty(), Seq::empty(), evs, 0),
        decreases entries@.len() - i,
    {
        let ghost tree0 = entry_views(tree@);
        let ghost sk0 = skipped@.map_values(|e: SkippedEntry| e@);
        let entry = &entries[i];
        match split_once_eq(entry.as_str()) {
            None => {
                proof {
                    lemma_first_malformed(evs);
                    if first_malformed(evs) < i as int {
                        assert(split_eq(evs[first_malformed(evs)]) is Some);
                    }
                    if first_malformed(evs) > i as int || first_malformed(evs) < 0 {
                        assert(split_eq(evs[i as int]) is Some);
                    }
                }
                return Err(MalformedEntry { entry: entry.clone() });
            },
            Some(halves) => {
                let (key, vtext) = halves;
                let mut parts = split_dots(key.as_str());
                proof {
                    lemma_dot_split_nonempty(key@);
                    assert(parts@.map_values(|p: String| p@).len() == dot_split(key@).len());
                }
                let leaf = match parts.pop() {
                    Some(l) => l,
                    None => {
                        proof {
                            assert(false);
                        }
                        return Err(MalformedEntry { entry: entry.clone() });
                    },
                };
                proof {
                    assert(leaf@ == dot_split(key@).last());
                    assert(parts@.map_values(|p: String| p@) =~= dot_split(key@).drop_last());
                }
                match parse_toml_value(vtext.as_str()) {
                    None => {
                        let e = SkippedEntry {
                            entry: entry.clone(),
                            reason: SkipReason::UnparsableValue,
                        };
                        skipped.push(e);
                        proof {
                            assert(skipped@.map_values(|e: SkippedEntry| e@) =~= sk0.push(
                                (evs[i as int], SkipView::UnparsableValue),
                            ));
                            assert(flatten_step(tree0, evs[i as int]) == (
                                tree0,
                                Some(SkipView::UnparsableValue),
                            ));
                        }
                    },
                    Some(value) => {
                        let ghost spec_parts = entry_parts(evs[i as int])->Some_0;
                        proof {
                            assert(spec_parts.0 == parts@.map_values(|p: String| p@));
                            assert(parts@.map_values(|s: String| s@).skip(0) =~= parts@.map_values(
                                |p: String| p@,
                            ));
                        }
                        let out = insert_value(tree, &parts, 0, leaf, value);
                        tree = out.0;
                        match out.1 {
                            Ok(_) => {
                                proof {
                                    assert(flatten_step(tree0, evs[i as int]) == (
                                        entry_views(tree@),
                                        Option::<SkipView>::None,
                                    ));
                                }
                            },
                            Err(c) => {
                                let e = SkippedEntry {
                                    entry: entry.clone(),
                                    reason: SkipReason::Conflict(c),
                                };
                                skipped.push(e);
                                proof {
                                    assert(skipped@.map_values(|e: SkippedEntry| e@) =~= sk0.push(
                                        (evs[i as int], SkipView::Conflict(c@)),
                                    ));
                                }
                            },
                        }
                    },
                }
            },
        }
        i = i + 1;
    }
    proof {
        lemma_first_malformed(evs);
        if first_malformed(evs) >= 0 {
            assert(split_eq(evs[first_malformed(evs)]) is Some);
        }
    }
    Ok((tree, skipped))
}

/// Index of the first token equal to `x`, or `-1` when no token is.
pub open spec fn seq_find(toks: Seq<Seq<char>>, x: Seq<char>) -> int
    decreases toks.len(),
{
    if toks.len() == 0 {
        -1
    } else if toks[0] == x {
        0
    } else {
        let r = seq_find(toks.drop_first(), x);
        if r < 0 {
            -1
        } else {
            r + 1
        }
    }
}

/// `seq_find` finds the first occurrence: a negative result means the token
/// is absent.
pub proof fn lemma_seq_find(toks: Seq<Seq<char>>, x: Seq<char>)
    ensures
        seq_find(toks, x) < 0 ==> forall|j: int| 0 <= j < toks.len() ==> toks[j] != x,
        seq_find(toks, x) >= 0 ==> {
            &&& seq_find(toks, x) < toks.len()
            &&& toks[seq_find(toks, x)] == x
            &&& forall|j: int| 0 <= j < seq_find(toks, x) ==> toks[j] != x
        },
    decreases toks.len(),
{
    if toks.len() != 0 && toks[0] != x {
        lemma_seq_find(toks.drop_first(), x);
        assert forall|j: int| 1 <= j < toks.len() implies toks.drop_first()[j - 1] == toks[j] by {}
    }
}

/// The tokens before the first `map-end` sentinel, or all of them when no
/// sentinel occurs.
pub open spec fn before_sentinel(toks: Seq<Seq<char>>) -> Seq<Seq<char>> {
    let i = seq_find(toks, "map-end"@);
    if i < 0 {
        toks
    } else {
        toks.subrange(0, i)
    }
}

/// Position of the first `map-end` token, or the token count when none
/// occurs.
#[verifier::loop_isolation(false)]
fn find_sentinel(tokens: &Vec<String>) -> (n: usize)
    ensures
        ({
            let toks = tokens@.map_values(|t: String| t@);
            &&& n <= toks.len()
            &&& n as int == before_sentinel(toks).len()
            &&& before_sentinel(toks) == toks.subrange(0, n as int)
        }),
{
    let ghost toks = tokens@.map_values(|t: String| t@);
    let sentinel: String = "map-end".to_owned();
    let mut i: usize = 0;
    while i < tokens.len()
        invariant
            i <= toks.len(),
            forall|j: int| 0 <= j < i ==> toks[j] != "map-end"@,
        decreases toks.len() - i,
    {
        if tokens[i] == sentinel {
            proof {
                lemma_seq_find(toks, "map-end"@);
                let f = seq_find(toks, "map-end"@);
                assert(toks[i as int] == "map-end"@);
                if f < 0 {
                    assert(toks[i as int] != "map-end"@);
                }
                if f < i as int {
                    assert(toks[f] != "map-end"@);
                } else if f > i as int {
                    assert(toks[i as int] != "map-end"@);
                }
            }
            return i;
        }
        i = i + 1;
    }
    proof {
        lemma_seq_find(toks, "map-end"@);
        let f = seq_find(toks, "map-end"@);
        if f >= 0 {
            assert(toks[f] != "map-end"@);
        }
        assert(before_sentinel(toks) =~= toks.subrange(0, toks.len() as int));
    }
    tokens.len()
}

/// The legacy per-server override: the tokens before the `map-end` sentinel
/// are flattened entries. An empty entry sequence means no override at all;
/// a non-empty one yields an object, even when every entry was skipped.
#[verifier::loop_isolation(false)]
pub fn request_legacy_initialization_options_from_kakoune(tokens: &Vec<String>) -> (r: Result<
    (Option<SettingsValue>, Vec<SkippedEntry>),
    MalformedEntry,
>)
    ensures
        ({
            let entries = before_sentinel(tokens@.map_values(|t: String| t@));
            match r {
                Ok(out) => {
                    &&& (out.0 is None <==> entries.len() == 0)
                    &&& entries.len() == 0 ==> out.1@.len() == 0
                    &&& entries.len() != 0 ==> {
                        &&& first_malformed(entries) < 0
                        &&& out.0 matches Some(v) && v@ == Val::Obj(
                            spec_flatten(Seq::empty(), Seq::empty(), entries, 0).0,
                        )
                        &&& out.1@.map_values(|e: SkippedEntry| e@) == spec_flatten(
                            Seq::empty(),
                            Seq::empty(),
                            entries,
                            0,
                        ).1
                    }
                },
                Err(m) => {
                    &&& first_malformed(entries) >= 0
                    &&& m.entry@ == entries[first_malformed(entries)]
                },
            }
        }),
{
    let ghost toks = tokens@.map_values(|t: String| t@);
    let n = find_sentinel(tokens);
    let mut entries: Vec<String> = Vec::new();
    let mut i: usize = 0;
    while i < n
        invariant
            i <= n,
            entries@.len() == i,
            forall|j: int| 0 <= j < i ==> entries@[j]@ == toks[j],
        decreases n - i,
    {
        entries.push(tokens[i].clone());
        i = i + 1;
    }
    proof {
        assert(entries@.map_values(|e: String| e@) =~= before_sentinel(toks));
    }
    if entries.len() == 0 {
        Ok((None, Vec::new()))
    } else {
        match explode_str_to_str_map(&entries) {
            Ok(out) => Ok((Some(SettingsValue::Object(out.0)), out.1)),
            Err(m) => Err(m),
        }
    }
}

/// An entry that decomposes and whose value text parses to a representable
/// value.
pub open spec fn entry_is_insertable(s: Seq<char>) -> bool {
    &&& entry_parts(s) is Some
    &&& toml_scalar_of(entry_parts(s)->Some_0.2) is Some
}

/// The insertion an insertable entry stands for.
pub open spec fn insert_spec_of(s: Seq<char>) -> InsertSpec
    recommends
        entry_is_insertable(s),
{
    InsertSpec {
        path: entry_parts(s)->Some_0.0,
        leaf: entry_parts(s)->Some_0.1,
        value: toml_scalar_of(entry_parts(s)->Some_0.2)->Some_0,
    }
}

/// The insertions a sequence of insertable entries stands for, in order.
pub open spec fn insert_specs_of(entries: Seq<Seq<char>>) -> Seq<InsertSpec> {
    Seq::new(entries.len(), |j: int| insert_spec_of(entries[j]))
}

/// On insertable entries, the flattened tree is the tree of the
/// corresponding insertions applied in order.
pub proof fn lemma_flatten_applies(
    t: Seq<(Seq<char>, Val)>,
    sk: Seq<(Seq<char>, SkipView)>,
    entries: Seq<Seq<char>>,
    i: int,
)
    requires
        0 <= i <= entries.len(),
        forall|j: int| i <= j < entries.len() ==> entry_is_insertable(#[trigger] entries[j]),
    ensures
        spec_flatten(t, sk, entries, i).0 == apply_inserts(t, insert_specs_of(entries).skip(i)),
    decreases entries.len() - i,
{
    if i < entries.len() {
        let step = flatten_step(t, entries[i]);
        assert(insert_specs_of(entries).skip(i)[0] == insert_spec_of(entries[i]));
        assert(insert_specs_of(entries).skip(i).drop_first() =~= insert_specs_of(entries).skip(
            i + 1,
        ));
        match step.1 {
            Option::None => lemma_flatten_applies(step.0, sk, entries, i + 1),
            Option::Some(reason) => lemma_flatten_applies(
                step.0,
                sk.push((entries[i], reason)),
                entries,
                i + 1,
            ),
        }
    } else {
        assert(insert_specs_of(entries).skip(i) =~= Seq::<InsertSpec>::empty());
    }
}

/// Law: flattening entries that all decompose and parse, with no full key
/// path a prefix of another, applies every entry without conflict and
/// yields a tree in which each entry's full key path resolves to exactly
/// that entry's parsed value.
pub proof fn lemma_flatten_unique_paths(entries: Seq<Seq<char>>, i: int)
    requires
        forall|j: int| 0 <= j < entries.len() ==> entry_is_insertable(#[trigger] entries[j]),
        forall|j: int, k: int|
            0 <= j < entries.len() && 0 <= k < entries.len() && j != k ==> !is_prefix(
                insert_spec_of(#[trigger] entries[j]).full_path(),
                insert_spec_of(#[trigger] entries[k]).full_path(),
            ),
        0 <= i < entries.len(),
    ensures
        all_succeed(Seq::empty(), insert_specs_of(entries)),
        lookup_path(
            spec_flatten(Seq::empty(), Seq::empty(), entries, 0).0,
            insert_spec_of(entries[i]).full_path(),
        ) == Some(insert_spec_of(entries[i]).value),
{
    lemma_flatten_applies(Seq::empty(), Seq::empty(), entries, 0);
    assert(insert_specs_of(entries).skip(0) =~= insert_specs_of(entries));
    let items = insert_specs_of(entries);
    assert forall|j: int, k: int|
        0 <= j < items.len() && 0 <= k < items.len() && j != k implies !is_prefix(
        #[trigger] items[j].full_path(),
        #[trigger] items[k].full_path(),
    ) by {
        assert(items[j] == insert_spec_of(entries[j]));
        assert(items[k] == insert_spec_of(entries[k]));
    }
    lemma_unique_paths_all_succeed(items);
    lemma_unique_paths_lookup(Seq::empty(), items, i);
}

} // verus!
