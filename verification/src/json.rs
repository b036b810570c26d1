//! Small helpers on JSON values of flows files.

use vstd::prelude::*;

use crate::text::str_eq;

verus! {

#[verifier::external_type_specification]
#[verifier::external_body]
pub struct ExJsonValue(serde_json::Value);

/// The text of a JSON value that is a string; `None` for any other value
/// (what `serde_json::Value::as_str` returns).
pub uninterp spec fn json_string_of(v: serde_json::Value) -> Option<Seq<char>>;

/// `serde_json::Value::as_str`: the text of a JSON string, `None` for any other
/// value. The contract names the result (`json_string_of`) and ties the
/// borrowed text to it.
#[verifier::external_body]
fn json_as_str(jv: &serde_json::Value) -> (r: Option<&str>)
    ensures
        match json_string_of(*jv) {
            Some(s) => r matches Some(t) && t@ == s,
            None => r is None,
        },
{
    jv.as_str()
}

/// Whether the JSON value is the string `target_string`.
pub fn value_equals_str(jv: &serde_json::Value, target_string: &str) -> (r: bool)
    ensures
        r == (json_string_of(*jv) == Some(target_string@)),
{
    match json_as_str(jv) {
        Some(s) => str_eq(s, target_string),
        None => false,
    }
}

/// Whether there is a JSON value and it is the string `target_string`.
pub fn option_value_equals_str(jv: &Option<&serde_json::Value>, target_string: &str) -> (r: bool)
    ensures
        r == (match *jv {
            Some(v) => json_string_of(*v) == Some(target_string@),
            None => false,
        }),
{
    match jv {
        Some(s) => value_equals_str(s, target_string),
        None => false,
    }
}

} // verus!
