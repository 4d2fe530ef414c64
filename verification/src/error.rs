//! Why a text was rejected.

use crate::text::{describe_float_error, describe_int_error, float_error_text, int_error_text};
use vstd::prelude::*;

verus! {

/// The first problem met while parsing.
#[derive(Debug, Clone, PartialEq)]
pub enum ParseError {
    /// A string literal reaches the end of the input.
    UnclosedString,
    /// The input ends inside a list.
    ExpectedClosingParan,
    /// A `)` closes nothing.
    NoMatchingOpenParan,
    /// A run of digits does not fit a signed 64-bit integer. Inside is what
    /// the conversion of the digits said.
    ParseIntError(std::num::ParseIntError),
    /// A decimal literal was refused by the conversion to floating point.
    ParseFloatError(std::num::ParseFloatError),
}

/// What an error says of itself. A conversion error ends with what the
/// failed conversion says.
pub open spec fn message(e: ParseError) -> Seq<char> {
    match e {
        ParseError::UnclosedString => "unclosed string"@,
        ParseError::ExpectedClosingParan => "expected closing ')'"@,
        ParseError::NoMatchingOpenParan => "')' has no matching '('"@,
        ParseError::ParseIntError(detail) => "error while parsing int, "@ + int_error_text(detail),
        ParseError::ParseFloatError(detail) => "error while parsing float, "@ + float_error_text(
            detail,
        ),
    }
}

/// The message of a failed integer conversion that describes itself as
/// `detail`.
pub fn int_error_message(detail: &str) -> (text: String)
    ensures
        text@ == "error while parsing int, "@ + detail@,
{
    let mut text = "error while parsing int, ".to_owned();
    text.append(detail);
    text
}

/// The message of a failed floating-point conversion that describes itself
/// as `detail`.
pub fn float_error_message(detail: &str) -> (text: String)
    ensures
        text@ == "error while parsing float, "@ + detail@,
{
    let mut text = "error while parsing float, ".to_owned();
    text.append(detail);
    text
}

impl ParseError {
    /// The message of this error.
    pub fn to_string(&self) -> (text: String)
        ensures
            text@ == message(*self),
    {
        match self {
            ParseError::UnclosedString => "unclosed string".to_owned(),
            ParseError::ExpectedClosingParan => "expected closing ')'".to_owned(),
            ParseError::NoMatchingOpenParan => "')' has no matching '('".to_owned(),
            ParseError::ParseIntError(detail) => int_error_message(
                describe_int_error(detail).as_str(),
            ),
            ParseError::ParseFloatError(detail) => float_error_message(
                describe_float_error(detail).as_str(),
            ),
        }
    }
}

} // verus!
