//! What the library takes from `serde_json`: reading bytes as a JSON value
//! and writing a JSON value as text. Nothing here is proved; the contracts
//! say what the library relies on.
use vstd::prelude::*;

verus! {

/// A JSON value. The library carries such values and never looks inside.
#[verifier::external_type_specification]
#[verifier::external_body]
pub struct ExJsonValue(serde_json::Value);

/// The reason why bytes are no JSON value.
#[verifier::external_type_specification]
#[verifier::external_body]
pub struct ExJsonError(serde_json::Error);

/// The JSON value that `serde_json` reads `bytes` as, from the first to
/// the last; none where they are no one JSON value.
pub uninterp spec fn json_of(bytes: Seq<u8>) -> Option<serde_json::Value>;

/// Whether `serde_json` reads `bytes`, from the first to the last, as one
/// JSON value.
pub open spec fn is_json(bytes: Seq<u8>) -> bool {
    json_of(bytes) is Some
}

/// `serde_json::from_slice` at the type `serde_json::Value`: reads the
/// whole of `data` as one JSON value. Whether it succeeds, and with which
/// value, depends on the bytes alone.
#[verifier::external_body]
pub(crate) fn value_from_slice(data: &[u8]) -> (r: Result<serde_json::Value, serde_json::Error>)
    ensures
        match r {
            Ok(value) => json_of(data@) == Some(value),
            Err(_) => json_of(data@) is None,
        },
{
    serde_json::from_slice(data)
}

/// The compact JSON text that `serde_json` writes for `value`.
pub uninterp spec fn text_of(value: serde_json::Value) -> Seq<char>;

/// `Value::to_string`: the compact JSON text of `value`. The text depends
/// on the value alone; nothing more is claimed of it.
#[verifier::external_body]
pub(crate) fn value_to_text(value: &serde_json::Value) -> (text: String)
    ensures
        text@ == text_of(*value),
{
    value.to_string()
}

} // verus!
