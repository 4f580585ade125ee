//! The trusted edge around structured-text parsing and key splitting: names
//! for what the `toml` crate returns, and thin wrappers around the outside
//! calls the flattening engine and the configuration recorder rely on.

use vstd::prelude::*;

use crate::value::SettingsValue;
use crate::value::Val;

verus! {

broadcast use vstd::std_specs::vec::group_vec_axioms, vstd::seq::group_seq_axioms;

/// Index of the first occurrence of `c` in `s`, or `-1` when `c` does not
/// occur.
pub open spec fn char_index(s: Seq<char>, c: char) -> int
    decreases s.len(),
{
    if s.len() == 0 {
        -1
    } else if s[0] == c {
        0
    } else {
        let r = char_index(s.drop_first(), c);
        if r < 0 {
            -1
        } else {
            r + 1
        }
    }
}

/// `char_index` finds the first occurrence: a negative result means the
/// character is absent, a non-negative one points at its first position.
pub proof fn lemma_char_index(s: Seq<char>, c: char)
    ensures
        char_index(s, c) < 0 ==> forall|j: int| 0 <= j < s.len() ==> s[j] != c,
        char_index(s, c) >= 0 ==> {
            &&& char_index(s, c) < s.len()
            &&& s[char_index(s, c)] == c
            &&& forall|j: int| 0 <= j < char_index(s, c) ==> s[j] != c
        },
    decreases s.len(),
{
    if s.len() != 0 && s[0] != c {
        lemma_char_index(s.drop_first(), c);
        assert forall|j: int| 1 <= j < s.len() implies s.drop_first()[j - 1] == s[j] by {}
    }
}

/// The two halves around the first `=`, when there is one.
pub open spec fn split_eq(s: Seq<char>) -> Option<(Seq<char>, Seq<char>)> {
    let i = char_index(s, '=');
    if i < 0 {
        None
    } else {
        Some((s.subrange(0, i), s.subrange(i + 1, s.len() as int)))
    }
}

/// The pieces of `s` between occurrences of `.`, in order; a string without
/// dots is one piece, and every string has at least one piece.
pub open spec fn dot_split(s: Seq<char>) -> Seq<Seq<char>>
    decreases s.len(),
    via dot_split_dec
{
    let i = char_index(s, '.');
    if i < 0 {
        seq![s]
    } else {
        seq![s.subrange(0, i)] + dot_split(s.subrange(i + 1, s.len() as int))
    }
}

#[via_fn]
proof fn dot_split_dec(s: Seq<char>) {
    lemma_char_index(s, '.');
}

/// A split always yields at least one piece.
pub proof fn lemma_dot_split_nonempty(s: Seq<char>)
    ensures
        dot_split(s).len() >= 1,
    decreases s.len(),
{
    lemma_char_index(s, '.');
    if char_index(s, '.') >= 0 {
        lemma_dot_split_nonempty(s.subrange(char_index(s, '.') + 1, s.len() as int));
    }
}

/// What the `toml` crate yields for one piece of value text: the value when
/// the text is valid TOML value syntax and every scalar in it is
/// representable in the settings model, absence otherwise.
pub uninterp spec fn toml_scalar_of(s: Seq<char>) -> Option<Val>;

/// What the `toml` crate yields for a whole configuration document: the
/// top-level table as an object when the text is a valid TOML document and
/// every scalar in it is representable in the settings model, absence
/// otherwise.
pub uninterp spec fn toml_document_of(s: Seq<char>) -> Option<Val>;

/// Relies on `str::split_once`: it splits around the first occurrence of the
/// pattern and returns no halves when the pattern is absent.
#[verifier::external_body]
pub fn split_once_eq(s: &str) -> (r: Option<(String, String)>)
    ensures
        match r {
            Some(halves) => split_eq(s@) == Some((halves.0@, halves.1@)),
            None => split_eq(s@) is None,
        },
{
    s.split_once('=').map(|(k, v)| (k.to_string(), v.to_string()))
}

/// Relies on `str::split`: it yields the pieces between occurrences of the
/// pattern, in order, keeping empty pieces, one piece at minimum.
#[verifier::external_body]
pub fn split_dots(s: &str) -> (parts: Vec<String>)
    ensures
        parts@.map_values(|p: String| p@) == dot_split(s@),
{
    s.split('.').map(|p| p.to_string()).collect()
}

#[verifier::external_type_specification]
#[verifier::external_body]
pub struct ExTomlValue(toml::Value);

/// Relies on the shape of `toml::Value`: each variant is mapped to the
/// matching settings variant, arrays and tables element by element in their
/// stored order, datetimes to their text form; a value containing a float
/// has no representation in the settings model and yields nothing.
#[verifier::external_body]
fn toml_to_settings(v: toml::Value) -> (r: Option<SettingsValue>) {
    match v {
        toml::Value::String(s) => Some(SettingsValue::Text(s)),
        toml::Value::Integer(i) => Some(SettingsValue::Int(i)),
        toml::Value::Float(_) => None,
        toml::Value::Boolean(b) => Some(SettingsValue::Bool(b)),
        toml::Value::Datetime(d) => Some(SettingsValue::Text(d.to_string())),
        toml::Value::Array(items) => toml_items_to_settings(items),
        toml::Value::Table(t) => toml_pairs_to_settings(t.into_iter().collect()),
    }
}

/// Relies on the shape of `toml::Value`: converts the items of a TOML array
/// one by one, in order.
#[verifier::external_body]
fn toml_items_to_settings(items: Vec<toml::Value>) -> (r: Option<SettingsValue>) {
    items
        .into_iter()
        .map(toml_to_settings)
        .collect::<Option<Vec<SettingsValue>>>()
        .map(SettingsValue::Array)
}

/// Relies on the shape of `toml::Value`: converts the entries of a TOML
/// table one by one, in their stored order.
#[verifier::external_body]
fn toml_pairs_to_settings(pairs: Vec<(String, toml::Value)>) -> (r: Option<SettingsValue>) {
    pairs
        .into_iter()
        .map(|(k, item)| toml_to_settings(item).map(|sv| (k, sv)))
        .collect::<Option<Vec<(String, SettingsValue)>>>()
        .map(SettingsValue::Object)
}

/// Relies on `toml::Value::from_str` (through `str::parse`): it parses one
/// piece of TOML value syntax, deterministically in the text alone.
#[verifier::external_body]
pub fn parse_toml_value(raw: &str) -> (r: Option<SettingsValue>)
    ensures
        match r {
            Some(v) => toml_scalar_of(raw@) == Some(v@),
            None => toml_scalar_of(raw@) is None,
        },
{
    match raw.parse::<toml::Value>() {
        Ok(v) => toml_to_settings(v),
        Err(_) => None,
    }
}

/// Relies on `toml::Table::from_str` (through `str::parse`): it parses a
/// whole TOML document into its top-level table, deterministically in the
/// text alone; the error carries the parser's rendering of what went wrong.
#[verifier::external_body]
pub fn parse_toml_document(text: &str) -> (r: Result<SettingsValue, String>)
    ensures
        match r {
            Ok(v) => toml_document_of(text@) == Some(v@),
            Err(_) => toml_document_of(text@) is None,
        },
{
    match text.parse::<toml::Table>() {
        Ok(table) => match toml_to_settings(toml::Value::Table(table)) {
            Some(v) => Ok(v),
            None => Err("configuration holds a value outside the settings model".to_string()),
        },
        Err(e) => Err(e.to_string()),
    }
}

} // verus!
