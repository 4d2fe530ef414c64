//! What this library takes from `std` on trust: the operations on strings
//! and numbers that it calls and that come without a verified contract.

use crate::grammar::{all_digits, decimal_value};
use vstd::prelude::*;

verus! {

/// `std::num::ParseIntError`, carried through as an opaque value.
#[verifier::external_type_specification]
#[verifier::external_body]
pub struct ExParseIntError(std::num::ParseIntError);

/// `std::num::ParseFloatError`, carried through as an opaque value.
#[verifier::external_type_specification]
#[verifier::external_body]
pub struct ExParseFloatError(std::num::ParseFloatError);

/// Cloning a `ParseIntError` yields an equal error.
pub assume_specification[ <std::num::ParseIntError as Clone>::clone ](
    e: &std::num::ParseIntError,
) -> (copy: std::num::ParseIntError)
    ensures
        copy == *e,
;

/// Cloning a `ParseFloatError` yields an equal error.
pub assume_specification[ <std::num::ParseFloatError as Clone>::clone ](
    e: &std::num::ParseFloatError,
) -> (copy: std::num::ParseFloatError)
    ensures
        copy == *e,
;

/// `String::push` appends one character and changes nothing else.
pub assume_specification[ std::string::String::push ](text: &mut std::string::String, c: char)
    ensures
        final(text)@ == old(text)@.push(c),
;

/// The error that `str::parse` at `i64` returns for `digits`, where it
/// returns one.
pub uninterp spec fn digits_error(digits: Seq<char>) -> std::num::ParseIntError;

/// `str::parse` at `i64`, on a run of digits: the number that the digits
/// denote in base ten where it fits, an error where it is too large. The
/// error depends on nothing but the digits.
///
/// Nothing is claimed of a text that is empty or holds anything but digits.
#[verifier::external_body]
pub(crate) fn parse_digits(text: &str) -> (parsed: Result<i64, std::num::ParseIntError>)
    ensures
        text@.len() > 0 && all_digits(text@) ==> match parsed {
            Ok(n) => n == decimal_value(text@),
            Err(e) => decimal_value(text@) > i64::MAX && e == digits_error(text@),
        },
{
    text.parse::<i64>()
}

/// The text that `{:?}` writes for a string: the string between double
/// quotes, with the characters that `str`'s `Debug` escapes written as
/// escapes.
pub uninterp spec fn debug_quoted(text: Seq<char>) -> Seq<char>;

/// `format!("{:?}", text)`: the quoted, escaped form of `text`, which
/// depends on nothing but its characters.
#[verifier::external_body]
pub(crate) fn quote(text: &str) -> (quoted: String)
    ensures
        quoted@ == debug_quoted(text@),
{
    format!("{:?}", text)
}

/// What a `ParseIntError` says of itself when displayed.
pub uninterp spec fn int_error_text(e: std::num::ParseIntError) -> Seq<char>;

/// `ParseIntError`'s `Display`, as a string.
#[verifier::external_body]
pub(crate) fn describe_int_error(e: &std::num::ParseIntError) -> (text: String)
    ensures
        text@ == int_error_text(*e),
{
    format!("{}", e)
}

/// What a `ParseFloatError` says of itself when displayed.
pub uninterp spec fn float_error_text(e: std::num::ParseFloatError) -> Seq<char>;

/// `ParseFloatError`'s `Display`, as a string.
#[verifier::external_body]
pub(crate) fn describe_float_error(e: &std::num::ParseFloatError) -> (text: String)
    ensures
        text@ == float_error_text(*e),
{
    format!("{}", e)
}

} // verus!
