//! The JSON messages that the gateway carries, handled through serde_json.
use vstd::prelude::*;

verus! {

#[verifier::external_type_specification]
#[verifier::external_body]
pub struct ExValue(serde_json::Value);

/// What `serde_json::from_slice` makes of a line: `Some` of the value when the
/// bytes hold one JSON document, `None` when they do not.
pub uninterp spec fn parsed_json(line: Seq<u8>) -> Option<serde_json::Value>;

/// Relies on serde_json::from_slice: parsing depends on the bytes alone.
#[verifier::external_body]
pub(crate) fn parse_line(line: &[u8]) -> (r: Option<serde_json::Value>)
    ensures
        r == parsed_json(line@),
{
    serde_json::from_slice::<serde_json::Value>(line).ok()
}

/// The string at `v[key]["channel"]`, if there is one there.
pub uninterp spec fn channel_of(v: serde_json::Value, key: Seq<char>) -> Option<Seq<char>>;

/// Relies on serde_json's `Index<&str>` for `Value` and `Value::as_str`:
/// `v[key]["channel"]` read as a string, or `None` where it is not one.
#[verifier::external_body]
pub(crate) fn channel_field(v: &serde_json::Value, key: &str) -> (r: Option<Vec<char>>)
    ensures
        match r {
            Some(c) => channel_of(*v, key@) == Some(c@),
            None => channel_of(*v, key@) is None,
        },
{
    v[key]["channel"].as_str().map(|s| s.chars().collect())
}

/// `v` with the string at `v[key]["channel"]` replaced by `name`.
pub uninterp spec fn with_channel(v: serde_json::Value, key: Seq<char>, name: Seq<char>) -> serde_json::Value;

/// Relies on `Clone` for `Value` and serde_json's `IndexMut<&str>`: a copy
/// of `v` in which assigning through `v[key]["channel"]` stores the new
/// string. It panics only where `v` or `v[key]` is neither an object nor null,
/// which a string found at that place rules out.
#[verifier::external_body]
pub(crate) fn replaced_channel(v: &serde_json::Value, key: &str, name: &Vec<char>) -> (r: serde_json::Value)
    requires
        channel_of(*v, key@) is Some,
    ensures
        r == with_channel(*v, key@, name@),
        channel_of(r, key@) == Some(name@),
{
    let mut w = v.clone();
    w[key]["channel"] = serde_json::Value::String(name.iter().collect());
    w
}

/// The compact JSON text of a value.
pub uninterp spec fn json_text(v: serde_json::Value) -> Seq<char>;

/// Relies on serde_json::to_string: the compact text of the value. A `Value`
/// has string keys only, so its serialization does not fail.
#[verifier::external_body]
pub(crate) fn to_json_text(v: &serde_json::Value) -> (r: Vec<char>)
    ensures
        r@ == json_text(*v),
{
    serde_json::to_string(v).unwrap_or_default().chars().collect()
}

} // verus!
