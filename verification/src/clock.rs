//! Calendar arithmetic from `chrono`: UTC dates of epoch seconds and epoch
//! seconds of UTC midnights.

use vstd::prelude::*;
use crate::model::opt_text;

verus! {

/// `%Y-%m-%d` text of the UTC date of `epoch` seconds, or `None` when
/// `chrono` cannot represent that instant.
pub uninterp spec fn utc_ymd(epoch: i64) -> Option<Seq<char>>;

/// Epoch seconds of 00:00:00 UTC on the given day, or `None` when the date
/// does not exist.
pub uninterp spec fn utc_midnight(year: i32, month: u32, day: u32) -> Option<i64>;

/// Calls `chrono::DateTime::from_timestamp(epoch, 0)` and, on `Some`,
/// `format("%Y-%m-%d")`. The contract claims only that the outcome is a
/// function of `epoch`, named `utc_ymd`.
#[verifier::external_body]
pub(crate) fn utc_date_text(epoch: i64) -> (r: Option<String>)
    ensures
        opt_text(r) == utc_ymd(epoch),
{
    match chrono::DateTime::from_timestamp(epoch, 0) {
        Some(dt) => Some(dt.format("%Y-%m-%d").to_string()),
        None => None,
    }
}

/// Calls `chrono::NaiveDate::from_ymd_opt(year, month, day)` and, on
/// `Some`, `and_hms_opt(0, 0, 0)`, `and_utc()` and `timestamp()`. The
/// contract claims that the outcome is a function of the date, named
/// `utc_midnight`, and that it lies within ±10^13 seconds: `chrono` keeps
/// years within -262143..=262142 (`MIN_YEAR`, `MAX_YEAR` in its
/// `naive/date`), about 8.3 * 10^12 seconds either side of 1970.
#[verifier::external_body]
pub(crate) fn midnight_epoch(year: i32, month: u32, day: u32) -> (r: Option<i64>)
    ensures
        r == utc_midnight(year, month, day),
        r matches Some(t) ==> -10_000_000_000_000 <= t <= 10_000_000_000_000,
{
    match chrono::NaiveDate::from_ymd_opt(year, month, day) {
        Some(date) => match date.and_hms_opt(0, 0, 0) {
            Some(dt) => Some(dt.and_utc().timestamp()),
            None => None,
        },
        None => None,
    }
}

} // verus!
