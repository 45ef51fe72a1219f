//! Calendar dates in the proleptic Gregorian calendar: validity, parsing of
//! `YYYY-MM-DD` text, and conversion to a linear day number used for
//! date-window arithmetic.

use vstd::prelude::*;
use crate::digits::{
    all_digits, check_digits, digits_val, lemma_digits_val_bound, parse_digits, pow10,
};

verus! {

/// A calendar date, day-resolution only: no time of day, no time zone.
#[derive(Clone, Copy, PartialEq, Eq, Structural, Debug)]
pub struct Date {
    pub year: u64,
    pub month: u64,
    pub day: u64,
}

pub open spec fn is_leap_year(y: int) -> bool {
    y % 4 == 0 && (y % 100 != 0 || y % 400 == 0)
}

/// The number of days in month `m` of year `y`.
pub open spec fn days_in_month(y: int, m: int) -> int {
    if m == 2 {
        if is_leap_year(y) {
            29
        } else {
            28
        }
    } else if m == 4 || m == 6 || m == 9 || m == 11 {
        30
    } else {
        31
    }
}

/// The number of days in year `y` that precede the first of month `m`.
pub open spec fn days_before_month(y: int, m: int) -> int {
    let base: int = if m == 1 {
        0
    } else if m == 2 {
        31
    } else if m == 3 {
        59
    } else if m == 4 {
        90
    } else if m == 5 {
        120
    } else if m == 6 {
        151
    } else if m == 7 {
        181
    } else if m == 8 {
        212
    } else if m == 9 {
        243
    } else if m == 10 {
        273
    } else if m == 11 {
        304
    } else {
        334
    };
    base + if m > 2 && is_leap_year(y) {
        1int
    } else {
        0int
    }
}

/// The number of days in the years `1..y`.
pub open spec fn days_before_year(y: int) -> int {
    365 * (y - 1) + (y - 1) / 4 - (y - 1) / 100 + (y - 1) / 400
}

impl Date {
    /// A valid calendar date of the years 1 through 9999.
    pub open spec fn valid(self) -> bool {
        &&& 1 <= self.year <= 9999
        &&& 1 <= self.month <= 12
        &&& 1 <= self.day <= days_in_month(self.year as int, self.month as int)
    }

    /// The number of days from the first of year 1 to this date.
    pub open spec fn spec_day_number(self) -> int {
        days_before_year(self.year as int) + days_before_month(
            self.year as int,
            self.month as int,
        ) + self.day - 1
    }

    /// Builds a date, rejecting any year/month/day triple that is not a
    /// valid calendar date of the years 1 through 9999.
    pub fn from_ymd(year: u64, month: u64, day: u64) -> (r: Option<Date>)
        ensures
            r is Some <==> (Date { year, month, day }).valid(),
            r is Some ==> r->0 == (Date { year, month, day }),
    {
        if 1 <= year && year <= 9999 && 1 <= month && month <= 12 && 1 <= day && day
            <= days_in_month_count(year, month) {
            Some(Date { year, month, day })
        } else {
            None
        }
    }

    /// The date's day number; two dates compare as their day numbers do.
    pub fn day_number(&self) -> (r: u64)
        requires
            self.valid(),
        ensures
            r as int == self.spec_day_number(),
    {
        let py: u64 = self.year - 1;
        proof {
            vstd::arithmetic::div_mod::lemma_div_is_ordered_by_denominator(py as int, 4, 100);
        }
        let leaps: u64 = py / 4 - py / 100 + py / 400;
        let before_year: u64 = 365 * py + leaps;
        let before_month: u64 = month_offset(self.year, self.month);
        before_year + before_month + (self.day - 1)
    }
}

/// The number of days in month `m` of year `y`.
pub(crate) fn days_in_month_count(y: u64, m: u64) -> (r: u64)
    ensures
        r as int == days_in_month(y as int, m as int),
{
    if m == 2 {
        if (y % 4 == 0 && y % 100 != 0) || y % 400 == 0 {
            29
        } else {
            28
        }
    } else if m == 4 || m == 6 || m == 9 || m == 11 {
        30
    } else {
        31
    }
}

/// The number of days in year `y` before the first of month `m`.
fn month_offset(y: u64, m: u64) -> (r: u64)
    requires
        1 <= m <= 12,
    ensures
        r as int == days_before_month(y as int, m as int),
{
    let base: u64 = if m == 1 {
        0
    } else if m == 2 {
        31
    } else if m == 3 {
        59
    } else if m == 4 {
        90
    } else if m == 5 {
        120
    } else if m == 6 {
        151
    } else if m == 7 {
        181
    } else if m == 8 {
        212
    } else if m == 9 {
        243
    } else if m == 10 {
        273
    } else if m == 11 {
        304
    } else {
        334
    };
    let leap_extra: u64 = if m > 2 && ((y % 4 == 0 && y % 100 != 0) || y % 400 == 0) {
        1
    } else {
        0
    };
    base + leap_extra
}

/// `a` comes strictly before `b` in calendar order.
pub open spec fn calendar_before(a: Date, b: Date) -> bool {
    ||| a.year < b.year
    ||| (a.year == b.year && a.month < b.month)
    ||| (a.year == b.year && a.month == b.month && a.day < b.day)
}

proof fn lemma_year_length(y: int)
    requires
        1 <= y,
    ensures
        days_before_year(y + 1) - days_before_year(y) == 365 + if is_leap_year(y) {
            1int
        } else {
            0int
        },
{
    assert(y / 4 - (y - 1) / 4 == if y % 4 == 0 {
        1int
    } else {
        0int
    }) by (nonlinear_arith)
        requires
            1 <= y,
    ;
    assert(y / 100 - (y - 1) / 100 == if y % 100 == 0 {
        1int
    } else {
        0int
    }) by (nonlinear_arith)
        requires
            1 <= y,
    ;
    assert(y / 400 - (y - 1) / 400 == if y % 400 == 0 {
        1int
    } else {
        0int
    }) by (nonlinear_arith)
        requires
            1 <= y,
    ;
    assert(y % 400 == 0 ==> y % 100 == 0 && y % 4 == 0) by (nonlinear_arith);
    assert(y % 100 == 0 ==> y % 4 == 0) by (nonlinear_arith);
}

proof fn lemma_days_before_year_mono(y1: int, y2: int)
    requires
        1 <= y1 <= y2,
    ensures
        days_before_year(y1) <= days_before_year(y2),
        y1 < y2 ==> days_before_year(y1) + 365 <= days_before_year(y2),
    decreases y2 - y1,
{
    if y1 < y2 {
        lemma_year_length(y2 - 1);
        lemma_days_before_year_mono(y1, y2 - 1);
    }
}

proof fn lemma_day_number_within_year(d: Date)
    requires
        d.valid(),
    ensures
        days_before_year(d.year as int) <= d.spec_day_number(),
        d.spec_day_number() < days_before_year(d.year as int + 1),
{
    lemma_year_length(d.year as int);
}

/// Day numbers order valid dates exactly as the calendar does.
pub proof fn lemma_day_number_orders_dates(d1: Date, d2: Date)
    requires
        d1.valid(),
        d2.valid(),
    ensures
        d1.spec_day_number() < d2.spec_day_number() <==> calendar_before(d1, d2),
{
    if calendar_before(d1, d2) {
        lemma_day_number_strictly_monotone(d1, d2);
    } else if calendar_before(d2, d1) {
        lemma_day_number_strictly_monotone(d2, d1);
    }
}

/// Two valid dates with the same day number are the same date.
pub proof fn lemma_day_number_injective(d1: Date, d2: Date)
    requires
        d1.valid(),
        d2.valid(),
        d1.spec_day_number() == d2.spec_day_number(),
    ensures
        d1 == d2,
{
    lemma_day_number_orders_dates(d1, d2);
    lemma_day_number_orders_dates(d2, d1);
}

proof fn lemma_day_number_strictly_monotone(d1: Date, d2: Date)
    requires
        d1.valid(),
        d2.valid(),
        calendar_before(d1, d2),
    ensures
        d1.spec_day_number() < d2.spec_day_number(),
{
    if d1.year < d2.year {
        lemma_day_number_within_year(d1);
        lemma_day_number_within_year(d2);
        lemma_days_before_year_mono(d1.year as int + 1, d2.year as int);
    }
}

/// Whether `s` has the shape `YYYY-MM-DD`: ten characters, digits in the
/// year, month and day positions, `-` between them.
pub open spec fn date_format_ok(s: Seq<char>) -> bool {
    &&& s.len() == 10
    &&& s[4] == '-'
    &&& s[7] == '-'
    &&& all_digits(s.subrange(0, 4))
    &&& all_digits(s.subrange(5, 7))
    &&& all_digits(s.subrange(8, 10))
}

/// The date written in a `YYYY-MM-DD` string (meaningful only when
/// `date_format_ok` holds).
pub open spec fn date_of_text(s: Seq<char>) -> Date {
    Date {
        year: digits_val(s.subrange(0, 4)) as u64,
        month: digits_val(s.subrange(5, 7)) as u64,
        day: digits_val(s.subrange(8, 10)) as u64,
    }
}

/// Parses a `YYYY-MM-DD` string into a date, rejecting text of any other
/// shape and any triple that is not a valid calendar date.
pub fn parse_date(s: &str) -> (r: Option<Date>)
    ensures
        r is Some <==> (date_format_ok(s@) && date_of_text(s@).valid()),
        r is Some ==> r->0 == date_of_text(s@),
{
    if s.unicode_len() != 10 {
        return None;
    }
    let dash1 = s.get_char(4);
    let dash2 = s.get_char(7);
    if dash1 != '-' || dash2 != '-' {
        return None;
    }
    if !(check_digits(s, 0, 4) && check_digits(s, 5, 7) && check_digits(s, 8, 10)) {
        return None;
    }
    proof {
        lemma_digits_val_bound(s@.subrange(0, 4));
        lemma_digits_val_bound(s@.subrange(5, 7));
        lemma_digits_val_bound(s@.subrange(8, 10));
        reveal_with_fuel(pow10, 5);
    }
    let year = parse_digits(s, 0, 4);
    let month = parse_digits(s, 5, 7);
    let day = parse_digits(s, 8, 10);
    Date::from_ymd(year, month, day)
}

} // verus!
