//! What the gateway reads of a request body. The body itself goes upstream
//! as it came.

use vstd::prelude::*;

verus! {

/// A JSON document. Nothing of its inside is visible here; what the gateway
/// reads of it has a name below.
#[verifier::external_type_specification]
#[verifier::external_body]
pub struct ExValue(serde_json::Value);

/// What a JSON document holds under a name: the member of that name where
/// the document is an object that has one, `None` otherwise.
pub uninterp spec fn member(document: serde_json::Value, name: Seq<char>) -> Option<serde_json::Value>;

/// The truth value that a JSON document is, where it is one of the two.
pub uninterp spec fn boolean(document: serde_json::Value) -> Option<bool>;

/// Looks a name up in a JSON document.
///
/// Calls `serde_json::Value::get` with a string index, which looks the name
/// up where the document is an object and finds nothing in any other
/// document. The contract gives the result its name, [`member`].
#[verifier::external_body]
fn get<'a>(document: &'a serde_json::Value, name: &str) -> (found: Option<&'a serde_json::Value>)
    ensures
        match found {
            Some(value) => member(*document, name@) == Some(*value),
            None => member(*document, name@) is None,
        },
{
    document.get(name)
}

/// Reads a JSON document as a truth value.
///
/// Calls `serde_json::Value::as_bool`, which yields the value of a JSON
/// `true` or `false` and nothing for any other document. The contract gives
/// the result its name, [`boolean`].
#[verifier::external_body]
fn as_bool(document: &serde_json::Value) -> (flag: Option<bool>)
    ensures
        flag == boolean(*document),
{
    document.as_bool()
}

/// What a body says under `stream`, where it says `true` or `false` there.
pub open spec fn stream_member(body: serde_json::Value) -> Option<bool> {
    match member(body, "stream"@) {
        Some(value) => boolean(value),
        None => None,
    }
}

/// Whether a client that sent this under `stream` wants its answer as a
/// stream: only one that said `true`.
pub fn stream_choice(said: Option<bool>) -> (streaming: bool)
    ensures
        streaming == (said == Some(true)),
{
    match said {
        Some(flag) => flag,
        None => false,
    }
}

/// Whether the client that sent this body wants its answer as a stream.
pub fn wants_stream(body: &serde_json::Value) -> (streaming: bool)
    ensures
        streaming == (stream_member(*body) == Some(true)),
{
    let said = match get(body, "stream") {
        Some(value) => as_bool(value),
        None => None,
    };
    stream_choice(said)
}

} // verus!
