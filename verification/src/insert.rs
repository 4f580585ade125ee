//! The tree inserter: placing one leaf value at a dotted path inside an
//! object tree, creating intermediate objects on demand and reporting
//! structural conflicts.

use vstd::prelude::*;

use crate::value::SettingsValue;
use crate::value::Val;
use crate::value::assoc_get;
use crate::value::assoc_index;
use crate::value::assoc_set;
use crate::value::entry_views;
use crate::value::lemma_assoc_get_push;
use crate::value::lemma_assoc_get_set;
use crate::value::lemma_assoc_index;
use crate::value::lemma_assoc_set_index;
use crate::value::lemma_entry_views;
use crate::value::lemma_entry_views_push;
use crate::value::lemma_entry_views_update;

verus! {

broadcast use vstd::std_specs::vec::group_vec_axioms, vstd::seq::group_seq_axioms;

/// Why one entry could not be inserted into the tree.
#[derive(Debug, PartialEq, Eq)]
pub enum ConflictError {
    /// A path segment named an existing node that is not an object; the
    /// segment is reported.
    NotAnObject(String),
    /// The leaf key already held a value; a copy of the value that stays in
    /// place is reported.
    DuplicateLeaf(SettingsValue),
}

/// The mathematical shape of a [`ConflictError`].
#[verifier::ext_equal]
pub enum Conflict {
    NotAnObject(Seq<char>),
    DuplicateLeaf(Val),
}

impl View for ConflictError {
    type V = Conflict;

    open spec fn view(&self) -> Conflict {
        match self {
            ConflictError::NotAnObject(s) => Conflict::NotAnObject(s@),
            ConflictError::DuplicateLeaf(v) => Conflict::DuplicateLeaf(v@),
        }
    }
}

/// The value reached by walking a non-empty sequence of keys through nested
/// objects; an empty path reaches nothing.
pub open spec fn lookup_path(entries: Seq<(Seq<char>, Val)>, path: Seq<Seq<char>>) -> Option<Val>
    decreases path.len(),
{
    if path.len() == 0 {
        None
    } else {
        match assoc_get(entries, path[0]) {
            Option::None => None,
            Option::Some(v) => if path.len() == 1 {
                Some(v)
            } else if v is Obj {
                lookup_path(v->Obj_0, path.drop_first())
            } else {
                None
            },
        }
    }
}

/// What inserting `value` under `path` and the final key `leaf` does to an
/// object tree: the new tree, and the conflict when the entry does not apply.
/// Intermediate objects created while walking `path` stay even when the entry
/// itself is then refused.
pub open spec fn spec_insert(
    entries: Seq<(Seq<char>, Val)>,
    path: Seq<Seq<char>>,
    leaf: Seq<char>,
    value: Val,
) -> (Seq<(Seq<char>, Val)>, Option<Conflict>)
    decreases path.len(),
{
    if path.len() == 0 {
        match assoc_get(entries, leaf) {
            Option::Some(old) => (entries, Some(Conflict::DuplicateLeaf(old))),
            Option::None => (entries.push((leaf, value)), None),
        }
    } else {
        let seg = path[0];
        match assoc_get(entries, seg) {
            Option::None => {
                let r = spec_insert(Seq::empty(), path.drop_first(), leaf, value);
                (entries.push((seg, Val::Obj(r.0))), r.1)
            },
            Option::Some(v) => if v is Obj {
                let r = spec_insert(v->Obj_0, path.drop_first(), leaf, value);
                (assoc_set(entries, seg, Val::Obj(r.0)), r.1)
            } else {
                (entries, Some(Conflict::NotAnObject(seg)))
            },
        }
    }
}

/// `a` is a (not necessarily strict) prefix of `b`.
pub open spec fn is_prefix(a: Seq<Seq<char>>, b: Seq<Seq<char>>) -> bool {
    a.len() <= b.len() && a == b.subrange(0, a.len() as int)
}

/// Two path sequences sharing their first segment are prefix-related exactly
/// when their tails are.
pub proof fn lemma_prefix_drop(a: Seq<Seq<char>>, b: Seq<Seq<char>>)
    requires
        a.len() >= 1,
        b.len() >= 1,
        a[0] == b[0],
    ensures
        is_prefix(a, b) <==> is_prefix(a.drop_first(), b.drop_first()),
{
    if is_prefix(a, b) {
        assert forall|i: int| 0 <= i < a.len() - 1 implies a.drop_first()[i] == b.drop_first()
            .subrange(0, a.len() - 1)[i] by {
            assert(a[i + 1] == b.subrange(0, a.len() as int)[i + 1]);
        }
        assert(a.drop_first() =~= b.drop_first().subrange(0, a.len() - 1));
    }
    if is_prefix(a.drop_first(), b.drop_first()) {
        assert forall|i: int| 0 <= i < a.len() implies a[i] == b.subrange(0, a.len() as int)[i] by {
            if i > 0 {
                assert(a.drop_first()[i - 1] == b.drop_first().subrange(0, a.len() - 1)[i - 1]);
            }
        }
        assert(a =~= b.subrange(0, a.len() as int));
    }
}

/// Being a prefix is transitive.
pub proof fn lemma_prefix_trans(a: Seq<Seq<char>>, b: Seq<Seq<char>>, c: Seq<Seq<char>>)
    requires
        is_prefix(a, b),
        is_prefix(b, c),
    ensures
        is_prefix(a, c),
{
    assert forall|i: int| 0 <= i < a.len() implies a[i] == c.subrange(0, a.len() as int)[i] by {
        assert(a[i] == b.subrange(0, a.len() as int)[i]);
        assert(b[i] == c.subrange(0, b.len() as int)[i]);
    }
    assert(a =~= c.subrange(0, a.len() as int));
}

/// Inserting into an empty tree never conflicts.
pub proof fn lemma_insert_into_empty(path: Seq<Seq<char>>, leaf: Seq<char>, value: Val)
    ensures
        spec_insert(Seq::empty(), path, leaf, value).1 is None,
    decreases path.len(),
{
    if path.len() != 0 {
        lemma_insert_into_empty(path.drop_first(), leaf, value);
    }
}

/// A conflicting insertion pins down what already stood in the tree: a
/// duplicate leaf means the full path already resolved, and a non-object
/// segment means some non-empty prefix of the walked path resolved to a
/// non-object.
pub proof fn lemma_conflict_source(
    t: Seq<(Seq<char>, Val)>,
    path: Seq<Seq<char>>,
    leaf: Seq<char>,
    value: Val,
)
    requires
        spec_insert(t, path, leaf, value).1 is Some,
    ensures
        ({
            let c = spec_insert(t, path, leaf, value).1->Some_0;
            match c {
                Conflict::DuplicateLeaf(_) => lookup_path(t, path.push(leaf)) is Some,
                Conflict::NotAnObject(_) => exists|d: int|
                    1 <= d <= path.len() && ((#[trigger] lookup_path(t, path.take(d))) matches Some(
                        w,
                    ) && !(w is Obj)),
            }
        }),
    decreases path.len(),
{
    let full = path.push(leaf);
    if path.len() == 0 {
        assert(full[0] == leaf);
    } else {
        let seg = path[0];
        assert(full[0] == seg);
        match assoc_get(t, seg) {
            Option::None => {
                lemma_insert_into_empty(path.drop_first(), leaf, value);
            },
            Option::Some(v) => {
                if v is Obj {
                    let sub = v->Obj_0;
                    lemma_conflict_source(sub, path.drop_first(), leaf, value);
                    let c = spec_insert(t, path, leaf, value).1->Some_0;
                    match c {
                        Conflict::DuplicateLeaf(_) => {
                            assert(full.drop_first() =~= path.drop_first().push(leaf));
                        },
                        Conflict::NotAnObject(_) => {
                            let d0 = choose|d: int|
                                1 <= d <= path.drop_first().len() && ((#[trigger] lookup_path(
                                    sub,
                                    path.drop_first().take(d),
                                )) matches Some(w) && !(w is Obj));
                            let q = path.take(d0 + 1);
                            assert(q[0] == seg);
                            assert(q.drop_first() =~= path.drop_first().take(d0));
                            assert(lookup_path(t, path.take(d0 + 1)) == lookup_path(
                                sub,
                                path.drop_first().take(d0),
                            ));
                        },
                    }
                } else {
                    let q = path.take(1);
                    assert(q[0] == seg);
                    assert(lookup_path(t, path.take(1)) == Some(v));
                }
            },
        }
    }
}

/// A successful insertion makes its own full path resolve to the inserted
/// value.
pub proof fn lemma_insert_lookup(
    entries: Seq<(Seq<char>, Val)>,
    path: Seq<Seq<char>>,
    leaf: Seq<char>,
    value: Val,
)
    requires
        spec_insert(entries, path, leaf, value).1 is None,
    ensures
        lookup_path(spec_insert(entries, path, leaf, value).0, path.push(leaf)) == Some(value),
    decreases path.len(),
{
    let full = path.push(leaf);
    if path.len() == 0 {
        lemma_assoc_get_push(entries, leaf, value, leaf);
    } else {
        let seg = path[0];
        assert(full[0] == seg);
        assert(full.drop_first() =~= path.drop_first().push(leaf));
        match assoc_get(entries, seg) {
            Option::None => {
                let sub = spec_insert(Seq::empty(), path.drop_first(), leaf, value);
                lemma_assoc_get_push(entries, seg, Val::Obj(sub.0), seg);
                lemma_insert_lookup(Seq::empty(), path.drop_first(), leaf, value);
            },
            Option::Some(v) => {
                let sub = spec_insert(v->Obj_0, path.drop_first(), leaf, value);
                lemma_assoc_get_set(entries, seg, Val::Obj(sub.0), seg);
                lemma_insert_lookup(v->Obj_0, path.drop_first(), leaf, value);
            },
        }
    }
}

/// A successful insertion preserves the value at every resolvable path that
/// is not a prefix of the inserted full path.
pub proof fn lemma_insert_frame(
    entries: Seq<(Seq<char>, Val)>,
    path: Seq<Seq<char>>,
    leaf: Seq<char>,
    value: Val,
    q: Seq<Seq<char>>,
)
    requires
        spec_insert(entries, path, leaf, value).1 is None,
        !is_prefix(q, path.push(leaf)),
        lookup_path(entries, q) is Some,
    ensures
        lookup_path(spec_insert(entries, path, leaf, value).0, q) == lookup_path(entries, q),
    decreases path.len(),
{
    let full = path.push(leaf);
    if path.len() == 0 {
        if q[0] == leaf {
            assert(is_prefix(q, full) == (q.len() <= 1));
            assert(assoc_get(entries, q[0]) is None);
        } else {
            lemma_assoc_get_push(entries, leaf, value, q[0]);
        }
    } else {
        let seg = path[0];
        match assoc_get(entries, seg) {
            Option::None => {
                if q[0] == seg {
                    assert(assoc_get(entries, q[0]) is None);
                } else {
                    lemma_assoc_get_push(
                        entries,
                        seg,
                        Val::Obj(spec_insert(Seq::empty(), path.drop_first(), leaf, value).0),
                        q[0],
                    );
                }
            },
            Option::Some(v) => {
                let sub = spec_insert(v->Obj_0, path.drop_first(), leaf, value);
                lemma_assoc_get_set(entries, seg, Val::Obj(sub.0), q[0]);
                if q[0] == seg {
                    if q.len() == 1 {
                        assert(q =~= full.subrange(0, 1));
                        assert(is_prefix(q, full));
                    } else {
                        assert(!is_prefix(q.drop_first(), path.drop_first().push(leaf))) by {
                            if is_prefix(q.drop_first(), path.drop_first().push(leaf)) {
                                assert(full.drop_first() =~= path.drop_first().push(leaf));
                                assert(q =~= full.subrange(0, q.len() as int)) by {
                                    assert(q.drop_first() == full.drop_first().subrange(
                                        0,
                                        q.len() - 1,
                                    ));
                                    assert forall|j: int| 0 <= j < q.len() implies q[j] == full
                                        .subrange(0, q.len() as int)[j] by {
                                        if j > 0 {
                                            assert(q.drop_first()[j - 1] == full.drop_first()
                                                .subrange(0, q.len() - 1)[j - 1]);
                                        }
                                    }
                                }
                            }
                        }
                        lemma_insert_frame(
                            v->Obj_0,
                            path.drop_first(),
                            leaf,
                            value,
                            q.drop_first(),
                        );
                    }
                }
            },
        }
    }
}

/// A successful insertion leaves every path not prefix-related to its full
/// path resolving exactly as before.
pub proof fn lemma_insert_outside(
    t: Seq<(Seq<char>, Val)>,
    path: Seq<Seq<char>>,
    leaf: Seq<char>,
    value: Val,
    q: Seq<Seq<char>>,
)
    requires
        spec_insert(t, path, leaf, value).1 is None,
        q.len() >= 1,
        !is_prefix(q, path.push(leaf)),
        !is_prefix(path.push(leaf), q),
    ensures
        lookup_path(spec_insert(t, path, leaf, value).0, q) == lookup_path(t, q),
    decreases path.len(),
{
    let full = path.push(leaf);
    if path.len() == 0 {
        assert(full[0] == leaf);
        if q[0] == leaf {
            assert(full =~= q.subrange(0, 1));
            assert(is_prefix(full, q));
        } else {
            lemma_assoc_get_push(t, leaf, value, q[0]);
        }
    } else {
        let seg = path[0];
        assert(full[0] == seg);
        if q[0] != seg {
            match assoc_get(t, seg) {
                Option::None => {
                    lemma_assoc_get_push(
                        t,
                        seg,
                        Val::Obj(spec_insert(Seq::empty(), path.drop_first(), leaf, value).0),
                        q[0],
                    );
                },
                Option::Some(v) => {
                    lemma_assoc_get_set(
                        t,
                        seg,
                        Val::Obj(spec_insert(v->Obj_0, path.drop_first(), leaf, value).0),
                        q[0],
                    );
                },
            }
        } else if q.len() == 1 {
            assert(q =~= full.subrange(0, 1));
            assert(is_prefix(q, full));
        } else {
            lemma_prefix_drop(q, full);
            lemma_prefix_drop(full, q);
            assert(full.drop_first() =~= path.drop_first().push(leaf));
            match assoc_get(t, seg) {
                Option::None => {
                    let sub = spec_insert(Seq::empty(), path.drop_first(), leaf, value).0;
                    lemma_assoc_get_push(t, seg, Val::Obj(sub), seg);
                    lemma_insert_outside(
                        Seq::empty(),
                        path.drop_first(),
                        leaf,
                        value,
                        q.drop_first(),
                    );
                },
                Option::Some(v) => {
                    let sub2 = spec_insert(v->Obj_0, path.drop_first(), leaf, value).0;
                    lemma_assoc_get_set(t, seg, Val::Obj(sub2), seg);
                    lemma_insert_outside(v->Obj_0, path.drop_first(), leaf, value, q.drop_first());
                },
            }
        }
    }
}

/// After a successful insertion, every non-empty prefix of the walked path
/// resolves to an object.
pub proof fn lemma_route_objects(
    t: Seq<(Seq<char>, Val)>,
    path: Seq<Seq<char>>,
    leaf: Seq<char>,
    value: Val,
    d: int,
)
    requires
        spec_insert(t, path, leaf, value).1 is None,
        1 <= d <= path.len(),
    ensures
        lookup_path(spec_insert(t, path, leaf, value).0, path.take(d)) matches Some(w) && w
            is Obj,
    decreases path.len(),
{
    let seg = path[0];
    assert(path.take(d)[0] == seg);
    match assoc_get(t, seg) {
        Option::None => {
            let sub = spec_insert(Seq::empty(), path.drop_first(), leaf, value).0;
            lemma_assoc_get_push(t, seg, Val::Obj(sub), seg);
            if d > 1 {
                lemma_route_objects(Seq::empty(), path.drop_first(), leaf, value, d - 1);
                assert(path.take(d).drop_first() =~= path.drop_first().take(d - 1));
            }
        },
        Option::Some(v) => {
            let sub2 = spec_insert(v->Obj_0, path.drop_first(), leaf, value).0;
            lemma_assoc_get_set(t, seg, Val::Obj(sub2), seg);
            if d > 1 {
                lemma_route_objects(v->Obj_0, path.drop_first(), leaf, value, d - 1);
                assert(path.take(d).drop_first() =~= path.drop_first().take(d - 1));
            }
        },
    }
}

/// One insertion instruction: the path of intermediate segments, the leaf
/// key, and the value.
pub struct InsertSpec {
    pub path: Seq<Seq<char>>,
    pub leaf: Seq<char>,
    pub value: Val,
}

impl InsertSpec {
    /// The whole dotted key, intermediate segments plus leaf.
    pub open spec fn full_path(self) -> Seq<Seq<char>> {
        self.path.push(self.leaf)
    }
}

/// The tree after applying a sequence of insertions in order, keeping
/// whatever each conflicting entry left behind.
pub open spec fn apply_inserts(
    entries: Seq<(Seq<char>, Val)>,
    items: Seq<InsertSpec>,
) -> Seq<(Seq<char>, Val)>
    decreases items.len(),
{
    if items.len() == 0 {
        entries
    } else {
        apply_inserts(
            spec_insert(entries, items[0].path, items[0].leaf, items[0].value).0,
            items.drop_first(),
        )
    }
}

/// Every insertion of the sequence applies without conflict.
pub open spec fn all_succeed(entries: Seq<(Seq<char>, Val)>, items: Seq<InsertSpec>) -> bool
    decreases items.len(),
{
    items.len() == 0 || {
        &&& spec_insert(entries, items[0].path, items[0].leaf, items[0].value).1 is None
        &&& all_succeed(
            spec_insert(entries, items[0].path, items[0].leaf, items[0].value).0,
            items.drop_first(),
        )
    }
}

/// Some already placed full path is prefix-related to `q`.
spec fn traces_to(done: Seq<Seq<Seq<char>>>, q: Seq<Seq<char>>) -> bool {
    exists|p: int|
        0 <= p < done.len() && (is_prefix(q, #[trigger] done[p]) || is_prefix(done[p], q))
}

/// Some already placed full path is a prefix of `q`.
spec fn extends_done(done: Seq<Seq<Seq<char>>>, q: Seq<Seq<char>>) -> bool {
    exists|p: int| 0 <= p < done.len() && is_prefix(#[trigger] done[p], q)
}

/// Starting from a tree whose resolvable paths all trace back to already
/// placed full paths, and whose non-object nodes all sit at or below them,
/// insertions at pairwise prefix-free full paths all succeed.
proof fn lemma_prefix_free_succeed_rec(
    t: Seq<(Seq<char>, Val)>,
    items: Seq<InsertSpec>,
    done: Seq<Seq<Seq<char>>>,
)
    requires
        forall|q: Seq<Seq<char>>| (#[trigger] lookup_path(t, q)) is Some ==> traces_to(done, q),
        forall|q: Seq<Seq<char>>|
            ((#[trigger] lookup_path(t, q)) matches Some(w) && !(w is Obj)) ==> extends_done(
                done,
                q,
            ),
        forall|p: int, j: int|
            0 <= p < done.len() && 0 <= j < items.len() ==> !is_prefix(
                #[trigger] done[p],
                #[trigger] items[j].full_path(),
            ) && !is_prefix(items[j].full_path(), done[p]),
        forall|j: int, k: int|
            0 <= j < items.len() && 0 <= k < items.len() && j != k ==> !is_prefix(
                #[trigger] items[j].full_path(),
                #[trigger] items[k].full_path(),
            ),
    ensures
        all_succeed(t, items),
    decreases items.len(),
{
    if items.len() != 0 {
        let it = items[0];
        let full = it.full_path();
        let r = spec_insert(t, it.path, it.leaf, it.value);
        if r.1 is Some {
            lemma_conflict_source(t, it.path, it.leaf, it.value);
            match r.1->Some_0 {
                Conflict::DuplicateLeaf(_) => {
                    assert(traces_to(done, full));
                    let p = choose|p: int|
                        0 <= p < done.len() && (is_prefix(full, #[trigger] done[p]) || is_prefix(
                            done[p],
                            full,
                        ));
                    assert(!is_prefix(done[p], items[0].full_path()));
                    assert(false);
                },
                Conflict::NotAnObject(_) => {
                    let d = choose|d: int|
                        1 <= d <= it.path.len() && ((#[trigger] lookup_path(
                            t,
                            it.path.take(d),
                        )) matches Some(w) && !(w is Obj));
                    assert(extends_done(done, it.path.take(d)));
                    let p = choose|p: int|
                        0 <= p < done.len() && is_prefix(#[trigger] done[p], it.path.take(d));
                    assert(it.path.take(d) =~= full.subrange(0, d));
                    assert(is_prefix(it.path.take(d), full));
                    lemma_prefix_trans(done[p], it.path.take(d), full);
                    assert(!is_prefix(done[p], items[0].full_path()));
                    assert(false);
                },
            }
        }
        let done2 = done.push(full);
        assert forall|q: Seq<Seq<char>>| (#[trigger] lookup_path(r.0, q)) is Some implies
            traces_to(done2, q) by {
            if is_prefix(q, full) || is_prefix(full, q) {
                assert(done2[done.len() as int] == full);
            } else {
                assert(q.len() >= 1);
                lemma_insert_outside(t, it.path, it.leaf, it.value, q);
                assert(traces_to(done, q));
                let p = choose|p: int|
                    0 <= p < done.len() && (is_prefix(q, #[trigger] done[p]) || is_prefix(
                        done[p],
                        q,
                    ));
                assert(done2[p] == done[p]);
            }
        }
        assert forall|q: Seq<Seq<char>>|
            ((#[trigger] lookup_path(r.0, q)) matches Some(w) && !(w is Obj)) implies
            extends_done(done2, q) by {
            if is_prefix(full, q) {
                assert(done2[done.len() as int] == full);
            } else if is_prefix(q, full) {
                if q.len() == full.len() {
                    assert(q =~= full.subrange(0, q.len() as int));
                    assert(full.subrange(0, q.len() as int) =~= full);
                    assert(q.subrange(0, full.len() as int) =~= q);
                    assert(is_prefix(full, q));
                }
                assert(q.len() >= 1);
                assert(q =~= it.path.take(q.len() as int)) by {
                    assert forall|i: int| 0 <= i < q.len() implies q[i] == it.path.take(
                        q.len() as int,
                    )[i] by {
                        assert(q[i] == full.subrange(0, q.len() as int)[i]);
                    }
                }
                lemma_route_objects(t, it.path, it.leaf, it.value, q.len() as int);
                assert(false);
            } else {
                assert(q.len() >= 1);
                lemma_insert_outside(t, it.path, it.leaf, it.value, q);
                assert(extends_done(done, q));
                let p = choose|p: int|
                    0 <= p < done.len() && is_prefix(#[trigger] done[p], q);
                assert(done2[p] == done[p]);
            }
        }
        assert forall|p: int, j: int|
            0 <= p < done2.len() && 0 <= j < items.drop_first().len() implies !is_prefix(
            #[trigger] done2[p],
            #[trigger] items.drop_first()[j].full_path(),
        ) && !is_prefix(items.drop_first()[j].full_path(), done2[p]) by {
            assert(items.drop_first()[j] == items[j + 1]);
            if p < done.len() {
                assert(done2[p] == done[p]);
            } else {
                assert(done2[p] == full);
            }
        }
        assert forall|j: int, k: int|
            0 <= j < items.drop_first().len() && 0 <= k < items.drop_first().len() && j
                != k implies !is_prefix(
            #[trigger] items.drop_first()[j].full_path(),
            #[trigger] items.drop_first()[k].full_path(),
        ) by {
            assert(items.drop_first()[j] == items[j + 1]);
            assert(items.drop_first()[k] == items[k + 1]);
        }
        lemma_prefix_free_succeed_rec(r.0, items.drop_first(), done2);
    }
}

/// Law: insertions at pairwise prefix-free full paths, starting from an
/// empty tree, never conflict.
pub proof fn lemma_unique_paths_all_succeed(items: Seq<InsertSpec>)
    requires
        forall|j: int, k: int|
            0 <= j < items.len() && 0 <= k < items.len() && j != k ==> !is_prefix(
                #[trigger] items[j].full_path(),
                #[trigger] items[k].full_path(),
            ),
    ensures
        all_succeed(Seq::empty(), items),
{
    let empty_tree = Seq::<(Seq<char>, Val)>::empty();
    assert forall|q: Seq<Seq<char>>| (#[trigger] lookup_path(empty_tree, q)) is Some implies
        traces_to(Seq::empty(), q) by {
        assert(lookup_path(empty_tree, q) is None);
    }
    assert forall|q: Seq<Seq<char>>|
        ((#[trigger] lookup_path(empty_tree, q)) matches Some(w) && !(w is Obj)) implies
        extends_done(Seq::empty(), q) by {
        assert(lookup_path(empty_tree, q) is None);
    }
    lemma_prefix_free_succeed_rec(empty_tree, items, Seq::empty());
}

/// A resolvable path that no insertion's full path extends or equals keeps
/// its value across the whole sequence of insertions.
pub proof fn lemma_inserts_preserve(
    entries: Seq<(Seq<char>, Val)>,
    items: Seq<InsertSpec>,
    q: Seq<Seq<char>>,
)
    requires
        all_succeed(entries, items),
        lookup_path(entries, q) is Some,
        forall|j: int| 0 <= j < items.len() ==> !is_prefix(q, #[trigger] items[j].full_path()),
    ensures
        lookup_path(apply_inserts(entries, items), q) == lookup_path(entries, q),
    decreases items.len(),
{
    if items.len() != 0 {
        assert(!is_prefix(q, items[0].full_path()));
        lemma_insert_frame(entries, items[0].path, items[0].leaf, items[0].value, q);
        let next = spec_insert(entries, items[0].path, items[0].leaf, items[0].value).0;
        assert forall|j: int| 0 <= j < items.drop_first().len() implies !is_prefix(
            q,
            #[trigger] items.drop_first()[j].full_path(),
        ) by {
            assert(items.drop_first()[j] == items[j + 1]);
        }
        lemma_inserts_preserve(next, items.drop_first(), q);
    }
}

/// Law: when every insertion of a sequence succeeds and no full key path is a
/// prefix of another, looking any insertion's full path up in the final tree
/// yields exactly that insertion's value.
pub proof fn lemma_unique_paths_lookup(
    entries: Seq<(Seq<char>, Val)>,
    items: Seq<InsertSpec>,
    i: int,
)
    requires
        all_succeed(entries, items),
        0 <= i < items.len(),
        forall|j: int, k: int|
            0 <= j < items.len() && 0 <= k < items.len() && j != k ==> !is_prefix(
                items[j].full_path(),
                items[k].full_path(),
            ),
    ensures
        lookup_path(apply_inserts(entries, items), items[i].full_path()) == Some(items[i].value),
    decreases items.len(),
{
    let next = spec_insert(entries, items[0].path, items[0].leaf, items[0].value).0;
    if i == 0 {
        lemma_insert_lookup(entries, items[0].path, items[0].leaf, items[0].value);
        assert forall|j: int| 0 <= j < items.drop_first().len() implies !is_prefix(
            items[0].full_path(),
            #[trigger] items.drop_first()[j].full_path(),
        ) by {
            assert(items.drop_first()[j] == items[j + 1]);
        }
        lemma_inserts_preserve(next, items.drop_first(), items[0].full_path());
    } else {
        assert forall|j: int, k: int|
            0 <= j < items.drop_first().len() && 0 <= k < items.drop_first().len() && j
                != k implies !is_prefix(
            items.drop_first()[j].full_path(),
            items.drop_first()[k].full_path(),
        ) by {
            assert(items.drop_first()[j] == items[j + 1]);
            assert(items.drop_first()[k] == items[k + 1]);
        }
        assert(items.drop_first()[i - 1] == items[i]);
        lemma_unique_paths_lookup(next, items.drop_first(), i - 1);
    }
}

/// Finds the first entry whose key equals `key`.
#[verifier::loop_isolation(false)]
pub(crate) fn find_key(entries: &Vec<(String, SettingsValue)>, key: &String) -> (r: Option<usize>)
    ensures
        match r {
            Some(i) => i == assoc_index(entry_views(entries@), key@),
            None => assoc_index(entry_views(entries@), key@) < 0,
        },
{
    proof {
        lemma_entry_views(entries@);
        lemma_assoc_index(entry_views(entries@), key@);
    }
    let mut i: usize = 0;
    while i < entries.len()
        invariant
            i <= entries@.len(),
            forall|j: int| 0 <= j < i ==> entries@[j].0@ != key@,
            entry_views(entries@).len() == entries@.len(),
            forall|j: int| 0 <= j < entries@.len() ==> #[trigger] entry_views(entries@)[j] == (
                entries@[j].0@,
                entries@[j].1@,
            ),
        decreases entries@.len() - i,
    {
        if entries[i].0 == *key {
            proof {
                let evs = entry_views(entries@);
                let idx = assoc_index(evs, key@);
                assert(evs[i as int].0 == key@);
                if idx < 0 {
                    assert(evs[i as int].0 != key@);
                }
                if idx < i as int {
                    assert(evs[idx].0 != key@);
                } else if idx > i as int {
                    assert(evs[i as int].0 != key@);
                }
            }
            return Some(i);
        }
        i = i + 1;
    }
    proof {
        let evs = entry_views(entries@);
        let idx = assoc_index(evs, key@);
        if idx >= 0 {
            assert(evs[idx].0 == key@);
            assert(entries@[idx].0@ != key@);
        }
    }
    None
}

/// Inserts `value` at `path[depth..]` plus the final key `local_key` into the
/// object `target`, creating intermediate objects on demand. The entry is
/// refused when a walked segment holds a non-object, or when the leaf key is
/// already taken; the value already in place then stays.
pub fn insert_value(
    target: Vec<(String, SettingsValue)>,
    path: &Vec<String>,
    depth: usize,
    local_key: String,
    value: SettingsValue,
) -> (res: (Vec<(String, SettingsValue)>, Result<(), ConflictError>))
    requires
        depth <= path@.len(),
    ensures
        ({
            let r = spec_insert(
                entry_views(target@),
                path@.map_values(|s: String| s@).skip(depth as int),
                local_key@,
                value@,
            );
            &&& entry_views(res.0@) == r.0
            &&& match res.1 {
                Ok(_) => r.1 is None,
                Err(e) => r.1 == Some(e@),
            }
        }),
    decreases path@.len() - depth,
{
    let ghost spec_path = path@.map_values(|s: String| s@).skip(depth as int);
    let ghost ev = entry_views(target@);
    let mut target = target;
    if depth == path.len() {
        match find_key(&target, &local_key) {
            Some(i) => {
                proof {
                    lemma_assoc_index(ev, local_key@);
                    lemma_entry_views(target@);
                }
                let old_copy = target[i].1.deep_copy();
                (target, Err(ConflictError::DuplicateLeaf(old_copy)))
            },
            None => {
                proof {
                    lemma_assoc_index(ev, local_key@);
                }
                let ghost old_entries = target@;
                target.push((local_key, value));
                proof {
                    lemma_entry_views_push(old_entries, local_key, value);
                }
                (target, Ok(()))
            },
        }
    } else {
        let seg = &path[depth];
        proof {
            assert(spec_path[0] == path@.map_values(|s: String| s@)[depth as int]);
            assert(spec_path.drop_first() =~= path@.map_values(|s: String| s@).skip(
                depth as int + 1,
            ));
        }
        match find_key(&target, seg) {
            None => {
                proof {
                    lemma_assoc_index(ev, seg@);
                }
                let sub = insert_value(Vec::new(), path, depth + 1, local_key.clone(), value);
                let ghost old_entries = target@;
                let pushed_key = seg.clone();
                target.push((pushed_key, SettingsValue::Object(sub.0)));
                proof {
                    lemma_entry_views_push(
                        old_entries,
                        pushed_key,
                        SettingsValue::Object(sub.0),
                    );
                    assert(entry_views(Seq::<(String, SettingsValue)>::empty())
                        =~= Seq::<(Seq<char>, Val)>::empty());
                }
                (target, sub.1)
            },
            Some(i) => {
                proof {
                    lemma_assoc_index(ev, seg@);
                    lemma_entry_views(target@);
                }
                let node_is_object = match &target[i].1 {
                    SettingsValue::Object(_) => true,
                    _ => false,
                };
                if !node_is_object {
                    let conflict_seg = seg.clone();
                    (target, Err(ConflictError::NotAnObject(conflict_seg)))
                } else {
                    let ghost orig = target@;
                    let entry = target.remove(i);
                    match entry.1 {
                        SettingsValue::Object(inner) => {
                            proof {
                                assert(ev[i as int].1 == Val::Obj(entry_views(inner@)));
                            }
                            let sub = insert_value(inner, path, depth + 1, local_key, value);
                            let new_node = SettingsValue::Object(sub.0);
                            let entry_key = entry.0;
                            target.insert(i, (entry_key, new_node));
                            proof {
                                assert(target@ =~= orig.update(i as int, (entry_key, new_node)));
                                lemma_entry_views_update(orig, i as int, entry_key, new_node);
                                lemma_assoc_set_index(
                                    ev,
                                    seg@,
                                    Val::Obj(entry_views(sub.0@)),
                                );
                                assert(entry_views(target@) =~= assoc_set(
                                    ev,
                                    seg@,
                                    Val::Obj(entry_views(sub.0@)),
                                ));
                            }
                            (target, sub.1)
                        },
                        other => {
                            proof {
                                assert(false);
                            }
                            let entry_key = entry.0;
                            target.insert(i, (entry_key, other));
                            (target, Ok(()))
                        },
                    }
                }
            },
        }
    }
}

} // verus!
