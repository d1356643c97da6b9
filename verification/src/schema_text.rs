//! From what the language server prints to what the editor reads.
//!
//! Asked for its settings schema, the language server prints the flat schema
//! as JSON text on its standard output. The editor wants the nested schema,
//! again as JSON text. Running the server is the caller's business; this
//! module takes what the run left behind, the exit status and the bytes of
//! the output, and gives the text for the editor or nothing at all.

use crate::json::{json_of, Json};
use crate::tree::{convert_to_zed_schema, zed_schema};
use vstd::prelude::*;

verus! {

/// `serde_json::Error`, opaque to the verifier.
#[verifier::external_type_specification]
#[verifier::external_body]
pub struct ExError(serde_json::Error);

/// The text that `String::from_utf8_lossy` makes of a sequence of bytes.
pub uninterp spec fn lossy_text(bytes: Seq<u8>) -> Seq<char>;

/// The JSON value that `serde_json::from_str` reads from a text, or `None`
/// where it rejects the text.
pub uninterp spec fn parsed_json(text: Seq<char>) -> Option<Json>;

/// The compact JSON text that `serde_json` writes for a value.
pub uninterp spec fn json_text(value: Json) -> Seq<char>;

/// Assumed of `String::from_utf8_lossy`, taken as an owned string: the text
/// depends on the bytes alone. It is the bytes decoded as UTF-8, with a
/// replacement character wherever they are not.
#[verifier::external_body]
pub(crate) fn decode_lossy(bytes: &[u8]) -> (text: String)
    ensures
        text@ == lossy_text(bytes@),
{
    String::from_utf8_lossy(bytes).into_owned()
}

/// Assumed of `serde_json::from_str` for a `Value`: whether it reads a value,
/// and which, depends on the text alone.
#[verifier::external_body]
pub(crate) fn parse_json(text: &str) -> (parsed: Result<serde_json::Value, serde_json::Error>)
    ensures
        match parsed {
            Ok(value) => parsed_json(text@) == Some(json_of(value)),
            Err(_) => parsed_json(text@) is None,
        },
{
    serde_json::from_str(text)
}

/// Assumed of `Value`'s `Display`, through `to_string`: the text depends on
/// the value alone. It is the value as compact JSON.
#[verifier::external_body]
pub(crate) fn write_json(value: &serde_json::Value) -> (text: String)
    ensures
        text@ == json_text(json_of(*value)),
{
    value.to_string()
}

/// The schema text for the editor that a run of the language server yields,
/// as a function of the exit status and the output of the run: the nested
/// schema, written as JSON, if the server exited with status 0 and printed one
/// JSON value; nothing otherwise.
pub open spec fn schema_text_of(status: Option<i32>, stdout: Seq<u8>) -> Option<Seq<char>> {
    if status == Some(0i32) {
        match parsed_json(lossy_text(stdout)) {
            Some(raw) => Some(json_text(zed_schema(raw))),
            None => None,
        }
    } else {
        None
    }
}

/// The settings schema for the editor, from the exit status and the standard
/// output of a run of the language server that was asked for its schema.
pub fn language_server_initialization_options_schema(
    status: Option<i32>,
    stdout: &[u8],
) -> (schema: Option<String>)
    ensures
        match schema {
            Some(text) => schema_text_of(status, stdout@) == Some(text@),
            None => schema_text_of(status, stdout@) is None,
        },
{
    match status {
        Some(0) => {},
        _ => {
            return None;
        },
    }
    let data = decode_lossy(stdout);
    // The schema the server emits is not the one the editor uses.
    match parse_json(data.as_str()) {
        Ok(value) => Some(write_json(&convert_to_zed_schema(&value))),
        Err(_) => None,
    }
}

} // verus!
