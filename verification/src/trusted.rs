//! The few outside calls this library leans on, each behind a contract:
//! the clock, Unicode lowercasing, and the fuzzy matcher.

use vstd::prelude::*;

use crate::time::DateTime;

use chrono::Datelike;
use chrono::Timelike;

verus! {

/// Relies on `chrono::Utc::now` and its `Datelike`/`Timelike` accessors:
/// chrono documents month as 1-12, day as the real day of that month, hour
/// as 0-23 and minute as 0-59.  Assumes the system clock reads a date in
/// years 1 through 9999, the range this library's text format carries.
#[verifier::external_body]
pub fn now_datetime() -> (r: DateTime)
    ensures
        r.well_formed(),
        r.year >= 1,
{
    let now = chrono::Utc::now();
    DateTime {
        year: now.year() as u32,
        month: now.month(),
        day: now.day(),
        hour: now.hour(),
        minute: now.minute(),
    }
}

/// The Unicode lowercase form of a string: a function of its characters
/// alone.
pub uninterp spec fn lower_of(s: Seq<char>) -> Seq<char>;

/// Relies on `str::to_lowercase` from std: the result depends on the
/// characters alone, and an empty string stays empty.
#[verifier::external_body]
pub fn lowercase(s: &str) -> (r: String)
    ensures
        r@ == lower_of(s@),
        s@.len() == 0 ==> r@.len() == 0,
{
    s.to_lowercase()
}

/// The skim fuzzy-match score of a candidate against a query: a function of
/// the two strings alone, higher meaning a better match, `None` meaning no
/// match.
pub uninterp spec fn fuzzy_score_of(choice: Seq<char>, pattern: Seq<char>) -> Option<i64>;

/// Relies on `SkimMatcherV2::fuzzy_match` of the fuzzy-matcher crate, with
/// the default configuration: a deterministic dynamic-programming score of
/// `pattern` against `choice`.
#[verifier::external_body]
pub fn fuzzy_score(choice: &str, pattern: &str) -> (r: Option<i64>)
    ensures
        r == fuzzy_score_of(choice@, pattern@),
{
    let matcher = fuzzy_matcher::skim::SkimMatcherV2::default();
    fuzzy_matcher::FuzzyMatcher::fuzzy_match(&matcher, choice, pattern)
}

} // verus!
