//! Values as JSON: the reading of a value from a JSON text, which is
//! serde_json's work.

use crate::codec::{Value, ValueView};
use crate::error::StoreError;
use vstd::prelude::*;

verus! {

/// The value that a JSON text stands for: a null, a boolean, a number that
/// is a signed 64-bit integer, a text, or an array or an object, which is
/// held as serde_json writes it, the members of each object sorted by
/// name. A text that is no JSON, or that holds another number, stands for
/// none.
pub uninterp spec fn json_value(text: Seq<char>) -> Option<ValueView>;

/// `serde_json::from_str` into a `serde_json::Value`, turned into a value of
/// this library variant by variant: a number through `Number::as_i64`, an
/// array or an object through `serde_json::to_string`. The result depends on
/// the text alone; nothing more is claimed of it.
#[verifier::external_body]
pub(crate) fn read_json(text: &str) -> (r: Option<Value>)
    ensures
        r matches Some(v) ==> json_value(text@) == Some(v@),
        r is None ==> json_value(text@) is None,
{
    match serde_json::from_str::<serde_json::Value>(text).ok()? {
        serde_json::Value::Null => Some(Value::Null),
        serde_json::Value::Bool(b) => Some(Value::Bool(b)),
        serde_json::Value::Number(n) => n.as_i64().map(Value::Number),
        serde_json::Value::String(s) => Some(Value::Text(s)),
        v => serde_json::to_string(&v).ok().map(Value::Structured),
    }
}

/// The value that the word `word` stands for as JSON. A word that stands
/// for none is a validation error.
pub fn parse_value(word: &str) -> (r: Result<Value, StoreError>)
    ensures
        r matches Ok(v) ==> json_value(word@) == Some(v@),
        r matches Err(e) ==> e == StoreError::Validation && json_value(word@) is None,
{
    match read_json(word) {
        Some(v) => Ok(v),
        None => Err(StoreError::Validation),
    }
}

} // verus!
