//! The frontmatter block, as yaml_serde reads and writes it.
//!
//! Frontmatter is YAML, and YAML is yaml_serde's to read and write. The
//! library holds the parsed block as a `yaml_serde::Mapping` and reasons about
//! it through what it holds: every entry, the keys whose values read as text,
//! the keys whose values read as a whole number, how many entries it has, and
//! the text it writes.

use vstd::prelude::*;

use yaml_serde::{Error as YamlError, Mapping, Value};

verus! {

#[verifier::external_type_specification]
#[verifier::external_body]
pub struct ExMapping(yaml_serde::Mapping);

#[verifier::external_type_specification]
#[verifier::external_body]
pub struct ExYamlError(YamlError);

/// The keys of a mapping whose values read as a string, with those strings.
pub uninterp spec fn front_text(m: yaml_serde::Mapping) -> Map<Seq<char>, Seq<char>>;

/// The keys of a mapping whose values read as a `u32`, with those numbers.
pub uninterp spec fn front_count(m: yaml_serde::Mapping) -> Map<Seq<char>, nat>;

/// Every entry of a mapping: a string key as `(true, its text)`, any other
/// key as `(false, the YAML text yaml_serde writes for it)`, each to the YAML
/// text of its value.
pub uninterp spec fn front_entries(m: yaml_serde::Mapping) -> Map<(bool, Seq<char>), Seq<char>>;

/// The entries of a mapping outside the string keys in `keys`.
pub open spec fn front_others(m: yaml_serde::Mapping, keys: Set<Seq<char>>) -> Map<(bool, Seq<char>), Seq<char>> {
    front_entries(m).remove_keys(Set::new(|e: (bool, Seq<char>)| e.0 && keys.contains(e.1)))
}

/// Two mappings that differ at most in the string key `key` agree outside
/// any set of string keys that holds `key`.
pub proof fn lemma_others_agree(a: yaml_serde::Mapping, b: yaml_serde::Mapping, key: Seq<char>, keys: Set<Seq<char>>)
    requires
        front_entries(b).remove((true, key)) == front_entries(a).remove((true, key)),
        keys.contains(key),
    ensures
        front_others(b, keys) == front_others(a, keys),
{
    let gone = Set::new(|e: (bool, Seq<char>)| e.0 && keys.contains(e.1));
    assert forall|e: (bool, Seq<char>)| !gone.contains(e) implies (front_entries(b).contains_key(e) == front_entries(
        a,
    ).contains_key(e) && (front_entries(b).contains_key(e) ==> front_entries(b)[e] == front_entries(a)[e])) by {
        assert(e != (true, key));
        assert(front_entries(b).remove((true, key)).contains_key(e) == front_entries(b).contains_key(e));
        assert(front_entries(a).remove((true, key)).contains_key(e) == front_entries(a).contains_key(e));
        if front_entries(b).contains_key(e) {
            assert(front_entries(b).remove((true, key))[e] == front_entries(b)[e]);
            assert(front_entries(a).remove((true, key))[e] == front_entries(a)[e]);
        }
    }
    assert(front_others(b, keys) =~= front_others(a, keys));
}

/// How many entries a mapping has.
pub uninterp spec fn front_size(m: yaml_serde::Mapping) -> nat;

/// The YAML text yaml_serde writes for a mapping.
pub uninterp spec fn front_yaml(m: yaml_serde::Mapping) -> Seq<char>;

/// What a YAML text reads as when it is a mapping: its string-valued and
/// number-valued keys and its size, or `None` when it is not a mapping.
pub uninterp spec fn parsed_front(text: Seq<char>) -> Option<(Map<Seq<char>, Seq<char>>, Map<Seq<char>, nat>, nat)>;

/// An empty mapping (`Mapping::new`).
#[verifier::external_body]
pub(crate) fn empty_front() -> (fresh: yaml_serde::Mapping)
    ensures
        front_text(fresh).is_empty(),
        front_count(fresh).is_empty(),
        front_entries(fresh).is_empty(),
        front_size(fresh) == 0,
{
    Mapping::new()
}

/// Reads a YAML text as a mapping (`yaml_serde::from_str::<Mapping>`).
///
/// Claims that the outcome depends on the text alone: it fails exactly when
/// `parsed_front` has nothing for the text, and otherwise holds what
/// `parsed_front` names. Which texts yaml_serde accepts is left to it.
#[verifier::external_body]
pub(crate) fn read_front(text: &str) -> (result: Result<yaml_serde::Mapping, YamlError>)
    ensures
        result is Err <==> parsed_front(text@) is None,
        result matches Ok(m) ==> parsed_front(text@) == Some((front_text(m), front_count(m), front_size(m))),
{
    yaml_serde::from_str::<Mapping>(text)
}

/// Writes a mapping as YAML (`yaml_serde::to_string`), or nothing if that
/// fails; the text is named, not described.
#[verifier::external_body]
pub(crate) fn write_front(m: &yaml_serde::Mapping) -> (text: String)
    ensures
        text@ == front_yaml(*m),
{
    yaml_serde::to_string(m).unwrap_or_default()
}

/// The message yaml_serde gives for an error (`Display`).
#[verifier::external_body]
pub(crate) fn yaml_error_message(error: &YamlError) -> (message: String)
{
    error.to_string()
}

/// Whether a mapping has no entries (`Mapping::is_empty`).
#[verifier::external_body]
pub(crate) fn front_is_empty(m: &yaml_serde::Mapping) -> (empty: bool)
    ensures
        empty == (front_size(*m) == 0),
{
    m.is_empty()
}

/// A copy of a mapping (`Clone`), holding the same.
#[verifier::external_body]
pub(crate) fn copy_front(m: &yaml_serde::Mapping) -> (copy: yaml_serde::Mapping)
    ensures
        front_text(copy) == front_text(*m),
        front_count(copy) == front_count(*m),
        front_size(copy) == front_size(*m),
        front_yaml(copy) == front_yaml(*m),
        front_entries(copy) == front_entries(*m),
{
    m.clone()
}

/// The string under `key`, if the value there reads as one
/// (`Mapping::get` then `from_value::<String>`).
#[verifier::external_body]
pub(crate) fn get_text(m: &yaml_serde::Mapping, key: &str) -> (value: Option<String>)
    ensures
        value is Some <==> front_text(*m).contains_key(key@),
        value matches Some(v) ==> front_text(*m)[key@] == v@,
{
    m.get(Value::from(key)).and_then(|value| yaml_serde::from_value::<String>(value.clone()).ok())
}

/// The number under `key`, if the value there reads as a `u32`
/// (`Mapping::get` then `from_value::<u32>`).
#[verifier::external_body]
pub(crate) fn get_count(m: &yaml_serde::Mapping, key: &str) -> (value: Option<u32>)
    ensures
        value is Some <==> front_count(*m).contains_key(key@),
        value matches Some(v) ==> front_count(*m)[key@] == v,
{
    m.get(Value::from(key)).and_then(|value| yaml_serde::from_value::<u32>(value.clone()).ok())
}

/// Sets `key` to a string value (`Mapping::insert`), leaving every other key
/// and its value alone. A string key equals no key of another kind, so
/// entries under non-string keys are untouched too.
#[verifier::external_body]
pub(crate) fn set_text(m: &mut yaml_serde::Mapping, key: &str, value: &str)
    ensures
        front_text(*final(m)) == front_text(*old(m)).insert(key@, value@),
        front_count(*final(m)) == front_count(*old(m)).remove(key@),
        front_entries(*final(m)).remove((true, key@)) == front_entries(*old(m)).remove((true, key@)),
        front_entries(*final(m)).contains_key((true, key@)),
        front_size(*final(m)) > 0,
{
    m.insert(Value::from(key), Value::from(value));
}

/// Sets `key` to a number value (`Mapping::insert`), leaving every other key
/// and its value alone.
#[verifier::external_body]
pub(crate) fn set_count(m: &mut yaml_serde::Mapping, key: &str, value: u32)
    ensures
        front_count(*final(m)) == front_count(*old(m)).insert(key@, value as nat),
        front_text(*final(m)) == front_text(*old(m)).remove(key@),
        front_entries(*final(m)).remove((true, key@)) == front_entries(*old(m)).remove((true, key@)),
        front_entries(*final(m)).contains_key((true, key@)),
        front_size(*final(m)) > 0,
{
    m.insert(Value::from(key), Value::from(value));
}

/// Removes `key` (`Mapping::remove`, a swap-remove), leaving every other
/// key and its value alone; where the entries then stand is not claimed.
#[verifier::external_body]
pub(crate) fn remove_key(m: &mut yaml_serde::Mapping, key: &str)
    ensures
        front_text(*final(m)) == front_text(*old(m)).remove(key@),
        front_count(*final(m)) == front_count(*old(m)).remove(key@),
        front_entries(*final(m)) == front_entries(*old(m)).remove((true, key@)),
{
    m.remove(Value::from(key));
}

} // verus!
