//! JSON values, as the `serde_json` crate holds them.
//!
//! A value is opaque here. What contracts say of it goes through its compact text.

use serde_json::Value;
use vstd::prelude::*;

verus! {

/// `serde_json::Value`, carried through unopened.
#[verifier::external_type_specification]
#[verifier::external_body]
pub struct ExValue(serde_json::Value);

/// What a value holds, as the compact text that `Value::to_string` prints. Different values
/// have different texts.
pub uninterp spec fn json_text(value: serde_json::Value) -> Seq<char>;

/// The value that bytes hold, as its compact text; `None` when they are not JSON.
pub uninterp spec fn parsed_json(bytes: Seq<u8>) -> Option<Seq<char>>;

/// The value at a JSON Pointer within a value; `None` when nothing is there.
pub uninterp spec fn json_at(value: Seq<char>, pointer: Seq<char>) -> Option<Seq<char>>;

/// Whether two values are equal.
pub uninterp spec fn json_equal(a: Seq<char>, b: Seq<char>) -> bool;

/// Parse bytes as JSON: `serde_json::from_slice` into a `Value`. The result is named
/// by `parsed_json`.
#[verifier::external_body]
pub(crate) fn parse(bytes: &[u8]) -> (r: Option<Value>)
    ensures
        match r {
            Some(value) => parsed_json(bytes@) == Some(json_text(value)),
            None => parsed_json(bytes@) is None,
        },
{
    serde_json::from_slice(bytes).ok()
}

/// Look a value up by an RFC 6901 pointer: `Value::pointer`. The result is named by
/// `json_at`; the empty pointer addresses the whole value.
#[verifier::external_body]
pub(crate) fn lookup<'a>(value: &'a Value, pointer: &str) -> (r: Option<&'a Value>)
    ensures
        match r {
            Some(found) => json_at(json_text(*value), pointer@) == Some(json_text(*found)),
            None => json_at(json_text(*value), pointer@) is None,
        },
        pointer@.len() == 0 ==> r == Some(value),
{
    value.pointer(pointer)
}

/// Compare two values: `==` of `serde_json::Value`. The result is named by
/// `json_equal`; a value equals itself.
#[verifier::external_body]
pub(crate) fn equal(a: &Value, b: &Value) -> (r: bool)
    ensures
        r == json_equal(json_text(*a), json_text(*b)),
        json_text(*a) == json_text(*b) ==> r,
{
    a == b
}

} // verus!
