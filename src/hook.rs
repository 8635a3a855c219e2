//! The command that a pre-execution hook event carries.

use vstd::prelude::*;

verus! {

#[verifier::external_type_specification]
#[verifier::external_body]
pub struct ExJsonError(serde_json::Error);

/// Whether serde_json accepts `text` as one JSON document.
pub uninterp spec fn json_parses(text: Seq<char>) -> bool;

/// The JSON string that the JSON pointer `pointer` leads to in the document
/// `text`; `None` when the pointer leads nowhere or to a value that is not a
/// string.
pub uninterp spec fn json_string_at(text: Seq<char>, pointer: Seq<char>) -> Option<Seq<char>>;

pub open spec fn opt_string_view(o: Option<String>) -> Option<Seq<char>> {
    match o {
        Some(s) => Some(s@),
        None => None,
    }
}

/// Relies on `serde_json::from_str::<Value>`, `Value::pointer` and the
/// `Value::String` variant: the document is parsed, the pointer followed, and
/// the text of a string found there handed back. Whether parsing succeeds and
/// what the lookup gives depend on the text and the pointer alone.
#[verifier::external_body]
fn string_at(text: &str, pointer: &str) -> (r: Result<Option<String>, serde_json::Error>)
    ensures
        r is Ok <==> json_parses(text@),
        r matches Ok(o) ==> opt_string_view(o) == json_string_at(text@, pointer@),
{
    let doc: serde_json::Value = serde_json::from_str(text)?;
    match doc.pointer(pointer) {
        Some(serde_json::Value::String(s)) => Ok(Some(s.clone())),
        _ => Ok(None),
    }
}

/// Why a hook event could not be read.
#[derive(Debug, PartialEq, Eq, Structural)]
pub enum HookInputError {
    /// The event is not a JSON document.
    Malformed,
}

/// The command that a hook event carries: the string at
/// `tool_input.command`, `None` when that field is absent, not a string or
/// empty.
pub open spec fn command_of(input: Seq<char>) -> Option<Seq<char>> {
    match json_string_at(input, "/tool_input/command"@) {
        Some(c) => if c.len() > 0 {
            Some(c)
        } else {
            None
        },
        None => None,
    }
}

/// The command of a hook event. `Ok(None)` when the field is absent, not a
/// string, or empty: then the hook has nothing to do.
pub fn hook_command(input: &str) -> (r: Result<Option<String>, HookInputError>)
    ensures
        r is Err <==> !json_parses(input@),
        r matches Ok(o) ==> opt_string_view(o) == command_of(input@),
{
    match string_at(input, "/tool_input/command") {
        Err(_) => Err(HookInputError::Malformed),
        Ok(Some(c)) => {
            if c.as_str().is_empty() {
                Ok(None)
            } else {
                proof {
                    assert(c@.len() > 0);
                }
                Ok(Some(c))
            }
        },
        Ok(None) => Ok(None),
    }
}

} // verus!
