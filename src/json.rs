//! JSON documents as plain values, and the calls into serde_json that read
//! and write them.

use vstd::prelude::*;

verus! {

/// A JSON value. A number keeps the text serde_json gives it; an object keeps
/// its members in document order.
pub enum JsonValue {
    Null,
    Bool(bool),
    Number(String),
    Str(String),
    Array(Vec<JsonValue>),
    Object(Vec<(String, JsonValue)>),
}

#[verifier::external_type_specification]
#[verifier::external_body]
pub struct ExJsonValue(serde_json::Value);

/// What serde_json makes of a document's text: `None` where it is not JSON.
pub uninterp spec fn parsed_json(text: Seq<char>) -> Option<JsonValue>;

/// The JSON text of a string: quoted, with serde_json's escapes.
pub uninterp spec fn json_string_text(s: Seq<char>) -> Seq<char>;

/// Relies on serde_json::Value's six variants: each one is moved into the
/// variant of the same name, members in the order the map keeps them.
#[verifier::external_body]
fn from_serde(v: serde_json::Value) -> JsonValue {
    match v {
        serde_json::Value::Null => JsonValue::Null,
        serde_json::Value::Bool(b) => JsonValue::Bool(b),
        serde_json::Value::Number(n) => JsonValue::Number(n.to_string()),
        serde_json::Value::String(s) => JsonValue::Str(s),
        serde_json::Value::Array(a) => JsonValue::Array(a.into_iter().map(from_serde).collect()),
        serde_json::Value::Object(o) => JsonValue::Object(o.into_iter().map(|(k, v)| (k, from_serde(v))).collect()),
    }
}

/// Relies on serde_json::from_str: the text is parsed as one JSON document,
/// and the outcome depends on the text alone.
#[verifier::external_body]
pub(crate) fn parse_json(text: &str) -> (r: Option<JsonValue>)
    ensures
        r == parsed_json(text@),
{
    match serde_json::from_str::<serde_json::Value>(text) {
        Ok(v) => Some(from_serde(v)),
        Err(_) => None,
    }
}

/// Relies on serde_json's Display for Value::String: the JSON text of `s`.
#[verifier::external_body]
pub(crate) fn string_json_text(s: &str) -> (r: String)
    ensures
        r@ == json_string_text(s@),
{
    serde_json::Value::String(s.to_string()).to_string()
}

} // verus!
