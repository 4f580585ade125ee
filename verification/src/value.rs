//! The settings value model: a recursive tree of null/bool/integer/string
//! scalars, arrays, and ordered string-keyed objects, together with its
//! mathematical view and the basic object-lookup operations.

use vstd::prelude::*;

verus! {

broadcast use vstd::std_specs::vec::group_vec_axioms, vstd::seq::group_seq_axioms;

/// One configuration fragment: a scalar, an array, or an object whose entries
/// keep their insertion order.
#[derive(Debug, PartialEq, Eq)]
pub enum SettingsValue {
    Null,
    Bool(bool),
    Int(i64),
    Text(String),
    Array(Vec<SettingsValue>),
    Object(Vec<(String, SettingsValue)>),
}

/// The mathematical shape of a [`SettingsValue`]: strings become character
/// sequences, vectors become sequences.
#[verifier::ext_equal]
pub enum Val {
    Null,
    Bool(bool),
    Int(int),
    Text(Seq<char>),
    Arr(Seq<Val>),
    Obj(Seq<(Seq<char>, Val)>),
}

/// The mathematical value of a settings tree.
pub open spec fn val_of(v: SettingsValue) -> Val
    decreases v,
    via val_of_dec
{
    if v is Null {
        Val::Null
    } else if v is Bool {
        Val::Bool(v->Bool_0)
    } else if v is Int {
        Val::Int(v->Int_0 as int)
    } else if v is Text {
        Val::Text(v->Text_0@)
    } else if v is Array {
        Val::Arr(item_views(v->Array_0@))
    } else {
        Val::Obj(entry_views(v->Object_0@))
    }
}

/// The views of an array's items, in order.
pub open spec fn item_views(s: Seq<SettingsValue>) -> Seq<Val>
    decreases s,
    via item_views_dec
{
    if s.len() == 0 {
        Seq::empty()
    } else {
        seq![val_of(s[0])] + item_views(s.drop_first())
    }
}

/// The views of an object's entries, in order, as they appear inside `Val::Obj`.
pub open spec fn entry_views(s: Seq<(String, SettingsValue)>) -> Seq<(Seq<char>, Val)>
    decreases s,
    via entry_views_dec
{
    if s.len() == 0 {
        Seq::empty()
    } else {
        seq![(s[0].0@, val_of(s[0].1))] + entry_views(s.drop_first())
    }
}

#[via_fn]
proof fn val_of_dec(v: SettingsValue) {
    if v is Array {
        assert(decreases_to!(v => v->Array_0));
        assert(decreases_to!(v->Array_0 => v->Array_0@));
    }
    if !(v is Null) && !(v is Bool) && !(v is Int) && !(v is Text) && !(v is Array) {
        assert(decreases_to!(v => v->Object_0));
        assert(decreases_to!(v->Object_0 => v->Object_0@));
    }
}

#[via_fn]
proof fn item_views_dec(s: Seq<SettingsValue>) {
    if s.len() != 0 {
        assert(decreases_to!(s => s[0]));
    }
}

#[via_fn]
proof fn entry_views_dec(s: Seq<(String, SettingsValue)>) {
    if s.len() != 0 {
        assert(decreases_to!(s => s[0]));
        assert(decreases_to!(s[0] => s[0].1));
    }
}

impl View for SettingsValue {
    type V = Val;

    open spec fn view(&self) -> Val {
        val_of(*self)
    }
}

/// `item_views` maps the element views over the sequence.
pub proof fn lemma_item_views(s: Seq<SettingsValue>)
    ensures
        item_views(s).len() == s.len(),
        forall|i: int| 0 <= i < s.len() ==> item_views(s)[i] == s[i]@,
    decreases s.len(),
{
    if s.len() != 0 {
        lemma_item_views(s.drop_first());
        assert forall|i: int| 0 <= i < s.len() implies item_views(s)[i] == s[i]@ by {
            if i > 0 {
                assert(s.drop_first()[i - 1] == s[i]);
            }
        }
    }
}

/// `entry_views` maps the key and value views over the entries.
pub proof fn lemma_entry_views(s: Seq<(String, SettingsValue)>)
    ensures
        entry_views(s).len() == s.len(),
        forall|i: int| 0 <= i < s.len() ==> entry_views(s)[i] == (s[i].0@, s[i].1@),
    decreases s.len(),
{
    if s.len() != 0 {
        lemma_entry_views(s.drop_first());
        assert forall|i: int| 0 <= i < s.len() implies entry_views(s)[i] == (s[i].0@, s[i].1@) by {
            if i > 0 {
                assert(s.drop_first()[i - 1] == s[i]);
            }
        }
    }
}

/// Appending an entry appends its view.
pub proof fn lemma_entry_views_push(s: Seq<(String, SettingsValue)>, k: String, v: SettingsValue)
    ensures
        entry_views(s.push((k, v))) == entry_views(s).push((k@, v@)),
{
    lemma_entry_views(s.push((k, v)));
    lemma_entry_views(s);
    assert(entry_views(s.push((k, v))) =~= entry_views(s).push((k@, v@)));
}

/// Updating an entry updates its view.
pub proof fn lemma_entry_views_update(
    s: Seq<(String, SettingsValue)>,
    i: int,
    k: String,
    v: SettingsValue,
)
    requires
        0 <= i < s.len(),
    ensures
        entry_views(s.update(i, (k, v))) == entry_views(s).update(i, (k@, v@)),
{
    lemma_entry_views(s.update(i, (k, v)));
    lemma_entry_views(s);
    assert(entry_views(s.update(i, (k, v))) =~= entry_views(s).update(i, (k@, v@)));
}

/// First-match lookup in an association sequence with character-sequence keys.
pub open spec fn assoc_get<V>(entries: Seq<(Seq<char>, V)>, key: Seq<char>) -> Option<V>
    decreases entries.len(),
{
    if entries.len() == 0 {
        None
    } else if entries[0].0 == key {
        Some(entries[0].1)
    } else {
        assoc_get(entries.drop_first(), key)
    }
}

/// Index of the first entry holding `key`, or `-1` when no entry does.
pub open spec fn assoc_index<V>(entries: Seq<(Seq<char>, V)>, key: Seq<char>) -> int
    decreases entries.len(),
{
    if entries.len() == 0 {
        -1
    } else if entries[0].0 == key {
        0
    } else {
        let r = assoc_index(entries.drop_first(), key);
        if r < 0 {
            -1
        } else {
            r + 1
        }
    }
}

/// Replacement of the value at the first entry holding `key`; the sequence is
/// unchanged when the key is absent.
pub open spec fn assoc_set<V>(
    entries: Seq<(Seq<char>, V)>,
    key: Seq<char>,
    value: V,
) -> Seq<(Seq<char>, V)>
    decreases entries.len(),
{
    if entries.len() == 0 {
        entries
    } else if entries[0].0 == key {
        entries.update(0, (key, value))
    } else {
        seq![entries[0]] + assoc_set(entries.drop_first(), key, value)
    }
}

/// When the key is present, `assoc_set` is an update at the key's first index.
pub proof fn lemma_assoc_set_index<V>(entries: Seq<(Seq<char>, V)>, key: Seq<char>, value: V)
    requires
        assoc_index(entries, key) >= 0,
    ensures
        assoc_set(entries, key, value) == entries.update(
            assoc_index(entries, key),
            (key, value),
        ),
    decreases entries.len(),
{
    lemma_assoc_index(entries, key);
    if entries.len() != 0 && entries[0].0 != key {
        lemma_assoc_set_index(entries.drop_first(), key, value);
        assert(seq![entries[0]] + entries.drop_first().update(
            assoc_index(entries, key) - 1,
            (key, value),
        ) =~= entries.update(assoc_index(entries, key), (key, value)));
    }
}

/// Looking a key up after `assoc_set` yields the new value at the written key
/// (when it was present) and leaves every other key unchanged.
pub proof fn lemma_assoc_get_set<V>(
    entries: Seq<(Seq<char>, V)>,
    key: Seq<char>,
    value: V,
    k2: Seq<char>,
)
    requires
        assoc_get(entries, key) is Some,
    ensures
        assoc_get(assoc_set(entries, key, value), k2) == if k2 == key {
            Some(value)
        } else {
            assoc_get(entries, k2)
        },
    decreases entries.len(),
{
    if entries.len() != 0 {
        let set = assoc_set(entries, key, value);
        if entries[0].0 == key {
            assert(set.drop_first() =~= entries.drop_first());
        } else {
            assert(set[0] == entries[0]);
            assert(set.drop_first() =~= assoc_set(entries.drop_first(), key, value));
            lemma_assoc_get_set(entries.drop_first(), key, value, k2);
        }
    }
}

/// Appending a fresh key makes it found, and leaves every other key unchanged.
pub proof fn lemma_assoc_get_push<V>(
    entries: Seq<(Seq<char>, V)>,
    key: Seq<char>,
    value: V,
    k2: Seq<char>,
)
    requires
        assoc_get(entries, key) is None,
    ensures
        assoc_get(entries.push((key, value)), k2) == if k2 == key {
            Some(value)
        } else {
            assoc_get(entries, k2)
        },
    decreases entries.len(),
{
    let pushed = entries.push((key, value));
    if entries.len() == 0 {
        assert(pushed[0] == (key, value));
        assert(pushed.drop_first() =~= Seq::<(Seq<char>, V)>::empty());
    } else {
        assert(pushed[0] == entries[0]);
        assert(pushed.drop_first() =~= entries.drop_first().push((key, value)));
        lemma_assoc_get_push(entries.drop_first(), key, value, k2);
    }
}

/// `assoc_index` describes `assoc_get` exactly: a negative index means the key
/// is absent, a non-negative one points at the first entry with that key.
pub proof fn lemma_assoc_index<V>(entries: Seq<(Seq<char>, V)>, key: Seq<char>)
    ensures
        assoc_index(entries, key) < 0 ==> {
            &&& assoc_get(entries, key) is None
            &&& forall|j: int| 0 <= j < entries.len() ==> entries[j].0 != key
        },
        assoc_index(entries, key) >= 0 ==> {
            &&& assoc_index(entries, key) < entries.len()
            &&& entries[assoc_index(entries, key)].0 == key
            &&& assoc_get(entries, key) == Some(entries[assoc_index(entries, key)].1)
            &&& forall|j: int| 0 <= j < assoc_index(entries, key) ==> entries[j].0 != key
        },
    decreases entries.len(),
{
    if entries.len() != 0 && entries[0].0 != key {
        lemma_assoc_index(entries.drop_first(), key);
        assert forall|j: int| 1 <= j < entries.len() implies entries.drop_first()[j - 1]
            == entries[j] by {}
    }
}

impl SettingsValue {
    /// Deep copies preserve the mathematical value.
    #[verifier::loop_isolation(false)]
    pub fn deep_copy(&self) -> (r: SettingsValue)
        ensures
            r@ == self@,
        decreases *self,
    {
        match self {
            SettingsValue::Null => SettingsValue::Null,
            SettingsValue::Bool(b) => SettingsValue::Bool(*b),
            SettingsValue::Int(i) => SettingsValue::Int(*i),
            SettingsValue::Text(s) => SettingsValue::Text(s.clone()),
            SettingsValue::Array(items) => {
                let mut out: Vec<SettingsValue> = Vec::new();
                let mut i: usize = 0;
                while i < items.len()
                    invariant
                        i <= items@.len(),
                        out@.len() == i,
                        forall|j: int| 0 <= j < i ==> out@[j]@ == items@[j]@,
                    decreases items@.len() - i,
                {
                    proof {
                        assert(decreases_to!(*self => self->Array_0));
                        assert(decreases_to!(self->Array_0 => self->Array_0@));
                        assert(decreases_to!(self->Array_0@ => self->Array_0@[i as int]));
                    }
                    let c = items[i].deep_copy();
                    out.push(c);
                    i = i + 1;
                }
                let r = SettingsValue::Array(out);
                proof {
                    lemma_item_views(out@);
                    lemma_item_views(items@);
                    assert(item_views(out@) =~= item_views(items@));
                    assert(r@ =~= self@);
                }
                r
            },
            SettingsValue::Object(entries) => {
                let mut out: Vec<(String, SettingsValue)> = Vec::new();
                let mut i: usize = 0;
                while i < entries.len()
                    invariant
                        i <= entries@.len(),
                        out@.len() == i,
                        forall|j: int| 0 <= j < i ==> out@[j].0@ == entries@[j].0@
                            && out@[j].1@ == entries@[j].1@,
                    decreases entries@.len() - i,
                {
                    proof {
                        assert(decreases_to!(*self => self->Object_0));
                        assert(decreases_to!(self->Object_0 => self->Object_0@));
                        assert(decreases_to!(self->Object_0@ => self->Object_0@[i as int]));
                        assert(decreases_to!(self->Object_0@[i as int] => self->Object_0@[i as int].1));
                    }
                    let k = entries[i].0.clone();
                    let c = entries[i].1.deep_copy();
                    out.push((k, c));
                    i = i + 1;
                }
                let r = SettingsValue::Object(out);
                proof {
                    lemma_entry_views(out@);
                    lemma_entry_views(entries@);
                    assert(entry_views(out@) =~= entry_views(entries@));
                    assert(r@ =~= self@);
                }
                r
            },
        }
    }
}

} // verus!
