//! The input boundary to the external JSON-text parser: parsing is
//! delegated to serde_json behind trusted declarations, and everything that
//! follows the parse — the flattening — is verified. A parse failure is
//! surfaced unchanged, with the parser's own message and location.

use vstd::prelude::*;

use crate::flatten::{flatten_value, rows_model};
use crate::rows::FlatJson;
use crate::tree::JsonValue;

verus! {

/// serde_json's error type, carried through unchanged when parsing fails.
#[verifier::external_type_specification]
#[verifier::external_body]
pub struct ExError(serde_json::Error);

/// serde_json's parsed value tree, opaque here: it is converted to the
/// library's own value tree at the boundary.
#[verifier::external_type_specification]
#[verifier::external_body]
pub struct ExValue(serde_json::Value);

/// Whether serde_json accepts `s` as a well-formed top-level JSON text: a
/// function of the text alone.
pub uninterp spec fn json_text_ok(s: Seq<char>) -> bool;

/// The value tree that serde_json parses out of an accepted text `s`: a
/// function of the text alone.
pub uninterp spec fn parse_of(s: Seq<char>) -> JsonValue;

/// Relies on serde_json::from_str::<serde_json::Value>: parses an RFC 8259
/// JSON text into a value tree, deterministically in the text alone, and
/// reports malformed text with its own error.
#[verifier::external_body]
fn parse_value(s: &str) -> (r: Result<JsonValue, serde_json::Error>)
    ensures
        r is Ok <==> json_text_ok(s@),
        r matches Ok(v) ==> v == parse_of(s@),
{
    serde_json::from_str::<serde_json::Value>(s).map(convert_value)
}

/// Relies on serde_json::Value's six variants and on Number's Display,
/// which under the arbitrary_precision feature hands back the literal's own
/// token: carries the parsed tree over, one variant to one variant, keeping
/// object members in source order.
#[verifier::external_body]
fn convert_value(v: serde_json::Value) -> JsonValue {
    match v {
        serde_json::Value::Null => JsonValue::Null,
        serde_json::Value::Bool(b) => JsonValue::Boolean(b),
        serde_json::Value::Number(n) => JsonValue::Number(n.to_string()),
        serde_json::Value::String(s) => JsonValue::String(s),
        serde_json::Value::Array(vs) => JsonValue::Array(
            vs.into_iter().map(convert_value).collect(),
        ),
        serde_json::Value::Object(m) => JsonValue::Object(
            m.into_iter().map(|(k, w)| (k, convert_value(w))).collect(),
        ),
    }
}

/// Parses a complete JSON document and flattens it. On well-formed text the
/// result is exactly the flattening of the parsed value tree, with the whole
/// document at depth 0 and no parent; on malformed text the parser's error
/// is surfaced unchanged and nothing is produced.
pub fn parse_top_level_json(json: String) -> (r: Result<FlatJson, serde_json::Error>)
    ensures
        r is Ok <==> json_text_ok(json@),
        r matches Ok(fj) ==> fj@ == rows_model(parse_of(json@), None, 0, 0),
{
    let parsed = parse_value(json.as_str());
    match parsed {
        Ok(v) => Ok(flatten_value(&v)),
        Err(e) => Err(e),
    }
}

} // verus!
