//! Trusted boundary to the JSON library.
//!
//! Payload bytes are handed to `serde_json` here, and what the protocol's
//! rules need to know of the parsed document — its shape — comes back behind
//! contracts stated over named results of the parse.

use vstd::prelude::*;

verus! {

#[verifier::external_type_specification]
#[verifier::external_body]
pub struct ExJsonValue(serde_json::Value);

/// The key of a two-element JSON array `[string, value]` parsed from the
/// given bytes; nothing when the bytes do not parse to exactly that shape.
pub uninterp spec fn json_pair_key(bytes: Seq<u8>) -> Option<Seq<char>>;

/// Relies on `serde_json::from_slice` and the `serde_json::Value` variants:
/// parses `bytes` and, when the document is a two-element array whose first
/// element is a string, hands out that string and the second element.
#[verifier::external_body]
pub(crate) fn parse_keyed_entry(bytes: &[u8]) -> (r: Option<(String, serde_json::Value)>)
    ensures
        (r is Some) == (json_pair_key(bytes@) is Some),
        r matches Some(p) ==> json_pair_key(bytes@) == Some(p.0@),
{
    match serde_json::from_slice::<serde_json::Value>(bytes) {
        Ok(serde_json::Value::Array(items)) => {
            let mut it = items.into_iter();
            match (it.next(), it.next(), it.next()) {
                (Some(serde_json::Value::String(key)), Some(value), None) => Some((key, value)),
                _ => None,
            }
        },
        _ => None,
    }
}

/// Shape of a parsed JSON document as the function-creation replies read it:
/// a string, an unsigned integer, or anything else (a parse failure too).
pub enum JsonScalarShape {
    Text(Seq<char>),
    Uint(u64),
    Other,
}

/// The [`JsonScalarShape`] of the document parsed from the given bytes.
pub uninterp spec fn json_scalar_shape(bytes: Seq<u8>) -> JsonScalarShape;

/// A parsed scalar reply, as handed out by [`parse_scalar`].
pub enum JsonScalar {
    Text(String),
    Uint(u64),
    Other,
}

/// Relies on `serde_json::from_slice` and `serde_json::Number::as_u64`:
/// parses `bytes` and classifies the document as a string, a number with a
/// `u64` value, or anything else.
#[verifier::external_body]
pub(crate) fn parse_scalar(bytes: &[u8]) -> (r: JsonScalar)
    ensures
        (match r {
            JsonScalar::Text(s) => json_scalar_shape(bytes@) == JsonScalarShape::Text(s@),
            JsonScalar::Uint(n) => json_scalar_shape(bytes@) == JsonScalarShape::Uint(n),
            JsonScalar::Other => json_scalar_shape(bytes@) == JsonScalarShape::Other,
        }),
{
    match serde_json::from_slice::<serde_json::Value>(bytes) {
        Ok(serde_json::Value::String(s)) => JsonScalar::Text(s),
        Ok(serde_json::Value::Number(n)) => match n.as_u64() {
            Some(u) => JsonScalar::Uint(u),
            None => JsonScalar::Other,
        },
        _ => JsonScalar::Other,
    }
}

/// Kind of a parsed JSON document as the pre-call reply reads it: a string,
/// some other valid document, or not valid JSON at all.
pub enum JsonDocKind {
    Text(Seq<char>),
    NonText,
    Invalid,
}

/// The [`JsonDocKind`] of the document parsed from the given bytes.
pub uninterp spec fn json_doc_kind(bytes: Seq<u8>) -> JsonDocKind;

/// A parsed document, as handed out by [`parse_document`].
pub enum ParsedJson {
    Text(String),
    Value(serde_json::Value),
    Invalid,
}

/// Relies on `serde_json::from_slice` and the `serde_json::Value` variants:
/// parses `bytes` into a string, any other valid document, or a parse error.
#[verifier::external_body]
pub(crate) fn parse_document(bytes: &[u8]) -> (r: ParsedJson)
    ensures
        (match r {
            ParsedJson::Text(s) => json_doc_kind(bytes@) == JsonDocKind::Text(s@),
            ParsedJson::Value(_) => json_doc_kind(bytes@) == JsonDocKind::NonText,
            ParsedJson::Invalid => json_doc_kind(bytes@) == JsonDocKind::Invalid,
        }),
{
    match serde_json::from_slice::<serde_json::Value>(bytes) {
        Ok(serde_json::Value::String(s)) => ParsedJson::Text(s),
        Ok(v) => ParsedJson::Value(v),
        Err(_) => ParsedJson::Invalid,
    }
}

/// Relies on `serde_json::to_vec`: serializes a JSON value. Serialization
/// fails only on a non-string map key, which `serde_json::Value` cannot
/// hold, so it always succeeds here; nothing is promised of the bytes.
#[verifier::external_body]
pub(crate) fn value_to_bytes(value: &serde_json::Value) -> (r: Option<Vec<u8>>)
    ensures
        r is Some,
{
    serde_json::to_vec(value).ok()
}

} // verus!
