//! Calendar access.
//!
//! The store keeps dates as day numbers of the proleptic Gregorian
//! calendar.  The one thing only the outside world can supply is the
//! current date; every rule that needs it also exists as a verified
//! function taking the day number as an argument.

use vstd::prelude::*;
use chrono::Datelike;
use crate::model::day_in_range;

verus! {

/// Relies on chrono's local clock: `Local::now().date_naive()` is the
/// current local calendar date, and `Datelike::num_days_from_ce` turns
/// it into a day count from the calendar's epoch.  chrono documents
/// its dates as bounded to about ±262,000 years, which keeps the count
/// well within range.
#[verifier::external_body]
pub(crate) fn today_day_number() -> (d: i64)
    ensures
        day_in_range(d as int),
{
    chrono::Local::now().date_naive().num_days_from_ce() as i64
}

} // verus!
