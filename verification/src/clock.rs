//! The two things this library takes from `chrono`: what a timestamp text
//! means, and what time it is. Neither is proved here; both are stated as
//! narrowly as the logic needs.

use vstd::prelude::*;

verus! {

/// `chrono`'s error for a text that it cannot read as a date and time.
#[verifier::external_type_specification]
#[verifier::external_body]
pub struct ExParseError(chrono::ParseError);

/// The instant that `chrono::DateTime::parse_from_str` reads out of `text`
/// under the format `format`, in microseconds since the Unix epoch, or `None`
/// where it rejects the text. Nothing more is known of it here than that it
/// depends on the two strings alone.
pub uninterp spec fn parsed_micros(text: Seq<char>, format: Seq<char>) -> Option<int>;

/// Calls `chrono::DateTime::parse_from_str`, and on success
/// `DateTime::timestamp_micros` on what it returned. The contract only names
/// the outcome: it is `parsed_micros` of the two strings, and an error
/// exactly where that is `None`.
#[verifier::external_body]
pub(crate) fn parse_micros(text: &str, format: &str) -> (r: Result<i64, chrono::ParseError>)
    ensures
        r matches Ok(micros) ==> parsed_micros(text@, format@) == Some(micros as int),
        r is Err ==> parsed_micros(text@, format@) is None,
{
    match chrono::DateTime::parse_from_str(text, format) {
        Ok(instant) => Ok(instant.timestamp_micros()),
        Err(error) => Err(error),
    }
}

/// Calls `chrono::Utc::now`, and `DateTime::timestamp_micros` on what it
/// returned. Nothing is promised of the value: it is whatever the system
/// clock says. `chrono` panics here if that clock stands before 1970.
#[verifier::external_body]
pub(crate) fn clock_micros() -> i64 {
    chrono::Utc::now().timestamp_micros()
}

} // verus!
