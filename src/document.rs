//! Documents: stored payloads are JSON text, parsed on the way out.
use vstd::prelude::*;
use crate::DbError;

verus! {

/// serde_json's document type, carried through opaque.
#[verifier::external_type_specification]
#[verifier::external_body]
pub struct ExJsonValue(serde_json::Value);

/// serde_json's parse error, carried through opaque.
#[verifier::external_type_specification]
#[verifier::external_body]
pub struct ExJsonError(serde_json::Error);

/// The document that serde_json parses the bytes to, or `None` where it
/// rejects them (text that is not one well-formed JSON value, or one nested
/// deeper than its recursion limit).
pub uninterp spec fn json_of(b: Seq<u8>) -> Option<serde_json::Value>;

/// Relies on serde_json::from_slice: parses the bytes as one JSON value
/// (surrounding whitespace allowed) and fails otherwise; the outcome depends
/// on the bytes alone.
#[verifier::external_body]
fn parse_json(b: &[u8]) -> (r: Result<serde_json::Value, serde_json::Error>)
    ensures
        match r {
            Ok(v) => json_of(b@) == Some(v),
            Err(_) => json_of(b@) is None,
        },
{
    serde_json::from_slice(b)
}

/// The document a stored payload holds; a payload that is not JSON text is a
/// decode error.
pub fn decode_document(b: &[u8]) -> (r: Result<serde_json::Value, DbError>)
    ensures
        r == match json_of(b@) {
            Some(v) => Ok::<serde_json::Value, DbError>(v),
            None => Err(DbError::Decode),
        },
{
    match parse_json(b) {
        Ok(v) => Ok(v),
        Err(_) => Err(DbError::Decode),
    }
}

/// The documents of a run of payloads, in order, or a decode error where one
/// of them is not JSON text.
pub fn decode_all(raw: &Vec<(u64, Vec<u8>)>) -> (r: Result<Vec<serde_json::Value>, DbError>)
    ensures
        match r {
            Ok(docs) => docs@.len() == raw@.len() && forall|i: int|
                0 <= i < raw@.len() ==> json_of(#[trigger] raw@[i].1@) == Some(docs@[i]),
            Err(e) => e == DbError::Decode && exists|i: int|
                0 <= i < raw@.len() && json_of(#[trigger] raw@[i].1@) is None,
        },
{
    let mut docs: Vec<serde_json::Value> = Vec::new();
    let mut i: usize = 0;
    while i < raw.len()
        invariant
            i <= raw@.len(),
            docs@.len() == i,
            forall|j: int| 0 <= j < i ==> json_of(#[trigger] raw@[j].1@) == Some(docs@[j]),
        decreases raw@.len() - i,
    {
        match decode_document(raw[i].1.as_slice()) {
            Ok(v) => docs.push(v),
            Err(e) => {
                assert(json_of(raw@[i as int].1@) is None);
                return Err(e);
            },
        }
        i = i + 1;
    }
    Ok(docs)
}

} // verus!
