//! Timestamps are kept as seconds since the Unix epoch; the calendar year
//! of a timestamp comes from the chrono crate through a trusted wrapper.

use vstd::prelude::*;

verus! {

/// The last second of year 9999; every stored timestamp stays below it.
pub const MAX_TS: i64 = 253402300799;

/// The calendar year (UTC) of a timestamp, as chrono computes it; a function
/// of the timestamp alone.
pub uninterp spec fn year_of(secs: int) -> int;

/// Relies on `chrono::DateTime::from_timestamp` and `chrono::Datelike::year`:
/// the UTC calendar year of the given epoch second, a pure function of it.
#[verifier::external_body]
pub fn timestamp_year(secs: i64) -> (y: i32)
    requires
        0 <= secs <= MAX_TS,
    ensures
        y as int == year_of(secs as int),
{
    match chrono::DateTime::from_timestamp(secs, 0) {
        Some(d) => chrono::Datelike::year(&d),
        None => 0,
    }
}

} // verus!
