//! The JSON documents that Windows' CIM queries print, read with `serde_json`.

use vstd::prelude::*;

verus! {

/// A JSON document as `serde_json` holds it; opaque here.
#[verifier::external_type_specification]
#[verifier::external_body]
pub struct ExJsonValue(serde_json::Value);

/// The error `serde_json` gives for text it does not accept.
#[verifier::external_type_specification]
#[verifier::external_body]
pub struct ExJsonError(serde_json::Error);

/// The members of a document's top-level object whose values are JSON
/// strings, by key, with those strings; empty when the document is not an object.
pub uninterp spec fn json_text_members(doc: serde_json::Value) -> Map<Seq<char>, Seq<char>>;

/// How `serde_json::from_str` reads `text` as a document: `None` where it
/// rejects the text, else the text members (as `json_text_members` gives them)
/// of the document it builds.
pub uninterp spec fn json_document_text_members(text: Seq<char>) -> Option<Map<Seq<char>, Seq<char>>>;

/// Calls `serde_json::from_str::<serde_json::Value>`. Claimed: it succeeds
/// exactly where `json_document_text_members` is `Some`, and the document it
/// builds then has those text members. The rest of the document is carried
/// through opaque.
#[verifier::external_body]
pub(crate) fn json_from_str(text: &str) -> (r: Result<serde_json::Value, serde_json::Error>)
    ensures
        r is Ok <==> json_document_text_members(text@) is Some,
        r matches Ok(doc) ==> json_document_text_members(text@) == Some(json_text_members(doc)),
{
    serde_json::from_str::<serde_json::Value>(text)
}

/// Calls `serde_json::Value::get` with a key and keeps the member only when it
/// is a JSON string. Claimed: the result is the text member of that key, as
/// `json_text_members` gives it, or `None` when there is none.
#[verifier::external_body]
pub(crate) fn json_text_member<'a>(doc: &'a serde_json::Value, key: &str) -> (r: Option<&'a str>)
    ensures
        r is Some <==> json_text_members(*doc).contains_key(key@),
        r matches Some(t) ==> t@ == json_text_members(*doc)[key@],
{
    match doc.get(key) {
        Some(serde_json::Value::String(t)) => Some(t.as_str()),
        _ => None,
    }
}

} // verus!
