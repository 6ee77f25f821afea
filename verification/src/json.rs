//! Free-form object properties: JSON values, which the library parses,
//! carries and copies but never looks into.

use crate::error::Error;
use vstd::prelude::*;

verus! {

/// A JSON value of `serde_json`. Nothing of its contents is known here.
#[verifier::external_type_specification]
#[verifier::external_body]
pub struct ExValue(serde_json::Value);

/// What `serde_json::from_str` makes of a text when asked for a `Value`: the
/// value, or the text that its error is displayed as.
pub uninterp spec fn json_parsed(text: Seq<char>) -> Result<serde_json::Value, Seq<char>>;

/// A parse result with its complaint as plain text.
pub open spec fn outcome(r: Result<serde_json::Value, String>) -> Result<serde_json::Value, Seq<char>> {
    match r {
        Ok(v) => Ok(v),
        Err(m) => Err(m@),
    }
}

/// The value is the null value: what the text `null` is parsed as.
pub open spec fn is_null(value: serde_json::Value) -> bool {
    json_parsed("null"@) == Ok::<serde_json::Value, Seq<char>>(value)
}

/// Calls `serde_json::from_str` for a `Value` and, where it fails, writes the
/// error out through its `Display`. The parser reads the text and nothing
/// else, so the same text gives the same value or the same complaint.
#[verifier::external_body]
pub(crate) fn parse_json(text: &str) -> (r: Result<serde_json::Value, String>)
    ensures
        outcome(r) == json_parsed(text@),
{
    match serde_json::from_str(text) {
        Ok(value) => Ok(value),
        Err(error) => Err(format!("{}", error)),
    }
}

/// The constant `serde_json::Value::Null`, which is what `serde_json::from_str`
/// makes of the text `null`.
#[verifier::external_body]
pub(crate) fn null_value() -> (v: serde_json::Value)
    ensures
        is_null(v),
{
    serde_json::Value::Null
}

/// Calls `serde_json::Value::clone`, which `derive` wrote: the copy equals
/// the value it was made from.
#[verifier::external_body]
pub(crate) fn clone_value(value: &serde_json::Value) -> (r: serde_json::Value)
    ensures
        r == *value,
{
    value.clone()
}

/// What the properties of an imported node come to, given what parsing its
/// extra data gave: the value; the parser's complaint as an error that has
/// the parser's error as its cause; the null value where there is no extra
/// data.
pub open spec fn is_properties_of(
    parsed: Option<Result<serde_json::Value, Seq<char>>>,
    r: Result<serde_json::Value, Error>,
) -> bool {
    match parsed {
        None => r matches Ok(v) && is_null(v),
        Some(Ok(v)) => r == Ok::<serde_json::Value, Error>(v),
        Some(Err(complaint)) => r matches Err(e) && e.wraps_outside(complaint),
    }
}

/// The properties that a text of extra data stands for.
pub fn parse_properties(extras: Option<&str>) -> (r: Result<serde_json::Value, Error>)
    ensures
        is_properties_of(
            match extras {
                Some(text) => Some(json_parsed(text@)),
                None => None,
            },
            r,
        ),
{
    match extras {
        None => properties_from(None),
        Some(text) => properties_from(Some(parse_json(text))),
    }
}

/// The properties that the parser's answer stands for.
pub fn properties_from(parsed: Option<Result<serde_json::Value, String>>) -> (r: Result<
    serde_json::Value,
    Error,
>)
    ensures
        is_properties_of(
            match parsed {
                Some(p) => Some(outcome(p)),
                None => None,
            },
            r,
        ),
{
    match parsed {
        None => Ok(null_value()),
        Some(Ok(v)) => Ok(v),
        Some(Err(complaint)) => Err(Error::from_outside(complaint)),
    }
}

/// A copy of properties.
pub fn clone_properties(properties: &serde_json::Value) -> (r: serde_json::Value)
    ensures
        r == *properties,
{
    clone_value(properties)
}

} // verus!
