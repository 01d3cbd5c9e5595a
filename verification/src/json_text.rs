//! Reading and writing JSON text, which `serde_json` does.
use vstd::prelude::*;
use crate::json::{JsonValue, JsonView, json_sorted};

verus! {

/// Makes `serde_json::Value` known to Verus, as an opaque type: it appears only in
/// the conversions below.
#[verifier::external_type_specification]
#[verifier::external_body]
pub struct ExSerdeJsonValue(serde_json::Value);

/// What `serde_json::from_str::<serde_json::Value>` makes of `text`: the value it
/// reads, or the `Display` text of the error it reports.
pub uninterp spec fn json_decode(text: Seq<char>) -> Result<JsonView, Seq<char>>;

/// What `serde_json` writes for a value with `Display` (compact JSON text).
pub uninterp spec fn json_display(v: JsonView) -> Seq<char>;

/// A decoding result, as mathematical values.
pub open spec fn decoded_view(r: Result<JsonValue, String>) -> Result<JsonView, Seq<char>> {
    match r {
        Ok(v) => Ok(v@),
        Err(e) => Err(e@),
    }
}

/// Converts a `serde_json::Value` to a `JsonValue`, node for node; object members
/// keep the order in which `serde_json::Map` hands them out. Only `decode_json`
/// calls it.
#[verifier::external_body]
fn json_from_serde(value: serde_json::Value) -> JsonValue {
    match value {
        serde_json::Value::Null => JsonValue::Null,
        serde_json::Value::Bool(b) => JsonValue::Bool(b),
        serde_json::Value::Number(n) => JsonValue::Number(n),
        serde_json::Value::String(s) => JsonValue::String(s),
        serde_json::Value::Array(items) => JsonValue::Array(items.into_iter().map(json_from_serde).collect()),
        serde_json::Value::Object(map) => JsonValue::Object(
            map.into_iter().map(|(k, v)| (k, json_from_serde(v))).collect(),
        ),
    }
}

/// Converts a `JsonValue` to a `serde_json::Value`, node for node. Only
/// `display_json` calls it.
#[verifier::external_body]
fn json_to_serde(value: &JsonValue) -> serde_json::Value {
    match value {
        JsonValue::Null => serde_json::Value::Null,
        JsonValue::Bool(b) => serde_json::Value::Bool(*b),
        JsonValue::Number(n) => serde_json::Value::Number(n.clone()),
        JsonValue::String(s) => serde_json::Value::String(s.clone()),
        JsonValue::Array(items) => serde_json::Value::Array(items.iter().map(json_to_serde).collect()),
        JsonValue::Object(members) => serde_json::Value::Object(
            members.iter().map(|(k, v)| (k.clone(), json_to_serde(v))).collect(),
        ),
    }
}

/// `serde_json::from_str::<serde_json::Value>(text)`, with the value converted to
/// a `JsonValue` and the error to its `Display` text. Both depend on `text` alone;
/// the contract names the outcome `json_decode(text)`, and states one fact of the
/// value: its objects are in strictly increasing key order, as `serde_json::Map`
/// (a `BTreeMap` without the `preserve_order` feature) hands out its entries.
#[verifier::external_body]
pub(crate) fn decode_json(text: &str) -> (r: Result<JsonValue, String>)
    ensures
        decoded_view(r) == json_decode(text@),
        r matches Ok(v) ==> json_sorted(v@),
{
    match serde_json::from_str::<serde_json::Value>(text) {
        Ok(value) => Ok(json_from_serde(value)),
        Err(error) => Err(error.to_string()),
    }
}

/// The `Display` text of `value` as `serde_json::Value` writes it (compact JSON).
/// It depends on the value alone; the contract names it `json_display(value@)`
/// and claims nothing more.
#[verifier::external_body]
pub(crate) fn display_json(value: &JsonValue) -> (r: String)
    ensures
        r@ == json_display(value@),
{
    json_to_serde(value).to_string()
}

} // verus!
