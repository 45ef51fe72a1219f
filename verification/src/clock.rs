//! The call-time anchor date: aggregation windows are anchored to "now".

use vstd::prelude::*;
use crate::date::Date;
use chrono::Datelike;

verus! {

/// Relies on chrono's `Utc::now`, `DateTime::date_naive` and the `Datelike`
/// accessors `year`, `month` and `day`: the month number is between 1
/// and 12 and the day of month between 1 and 31.
#[verifier::external_body]
fn current_ymd() -> (r: (i64, u64, u64))
    ensures
        1 <= r.1 <= 12,
        1 <= r.2 <= 31,
{
    let d = chrono::Utc::now().date_naive();
    (d.year() as i64, d.month() as u64, d.day() as u64)
}

/// The current calendar date, read from the system clock once per call;
/// `None` when the clock reads outside the supported year range or names a
/// day the month does not have.
pub fn today() -> (r: Option<Date>)
    ensures
        r is Some ==> r->0.valid(),
{
    let (y, m, d) = current_ymd();
    if 1 <= y && y <= 9999 {
        Date::from_ymd(y as u64, m, d)
    } else {
        None
    }
}

} // verus!
