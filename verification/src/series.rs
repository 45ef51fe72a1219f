//! The daily time series and its date-window aggregation.

use vstd::prelude::*;
use crate::ApiError;
use crate::TimePeriod;
use crate::date::{date_format_ok, date_of_text, parse_date, Date};
use crate::decimal::{dec_val, decimal_parseable, parse_decimal};

verus! {

/// One trading day's data: every quantity is a decimal scaled by `10^8`
/// (see `crate::decimal`).
#[derive(Clone, Copy, PartialEq, Eq, Structural, Debug)]
pub struct DailyRecord {
    pub open: u64,
    pub high: u64,
    pub low: u64,
    pub close: u64,
    pub adjusted_close: u64,
    pub volume: u64,
    pub dividend_amount: u64,
    pub split_coefficient: u64,
}

/// One dated entry of a time series.
#[derive(Clone, Copy, PartialEq, Eq, Structural, Debug)]
pub struct Entry {
    pub date: Date,
    pub rec: DailyRecord,
}

/// A daily time series: one record per trading date. Dates with no entry
/// mean the market was closed or data is unavailable; absence is no error.
pub struct TimeSeries {
    pub entries: Vec<Entry>,
}

impl View for TimeSeries {
    type V = Seq<Entry>;

    open spec fn view(&self) -> Seq<Entry> {
        self.entries@
    }
}

/// Every entry carries a valid calendar date.
pub open spec fn valid_dates(s: Seq<Entry>) -> bool {
    forall|i: int| 0 <= i < s.len() ==> (#[trigger] s[i]).date.valid()
}

/// No two entries share a trading date.
pub open spec fn distinct_days(s: Seq<Entry>) -> bool {
    forall|i: int, j: int| #![trigger s[i], s[j]]
        0 <= i < j < s.len() ==> s[i].date.spec_day_number() != s[j].date.spec_day_number()
}

impl TimeSeries {
    /// Valid dates, one record per date.
    pub open spec fn wf(self) -> bool {
        valid_dates(self@) && distinct_days(self@)
    }
}

/// The entry at `i` is dated no earlier than every other entry.
pub open spec fn is_latest_of(s: Seq<Entry>, i: int) -> bool {
    &&& 0 <= i < s.len()
    &&& forall|j: int|
        0 <= j < s.len() ==> (#[trigger] s[j]).date.spec_day_number()
            <= s[i].date.spec_day_number()
}

/// The inclusive day window a period selects, `None` meaning no filter.
pub open spec fn window_days(p: TimePeriod) -> Option<int> {
    match p {
        TimePeriod::Month => Some(30int),
        TimePeriod::Year => Some(365int),
        TimePeriod::AllTime => None,
    }
}

/// Whether the date-window filter keeps `e`: `date + window >= today`,
/// inclusive of the boundary day.
pub open spec fn retained(e: Entry, p: TimePeriod, today: Date) -> bool {
    match window_days(p) {
        Some(w) => e.date.spec_day_number() + w >= today.spec_day_number(),
        None => true,
    }
}

/// The filter keeps the entry of `s` at index `i`.
pub open spec fn retained_at(s: Seq<Entry>, p: TimePeriod, today: Date, i: int) -> bool {
    0 <= i < s.len() && retained(s[i], p, today)
}

/// The filter keeps at least one entry of `s`.
pub open spec fn any_retained(s: Seq<Entry>, p: TimePeriod, today: Date) -> bool {
    exists|i: int| retained_at(s, p, today, i)
}

/// The entry at `i` is kept and dated no earlier than every kept entry.
pub open spec fn latest_retained_at(s: Seq<Entry>, p: TimePeriod, today: Date, i: int) -> bool {
    &&& retained_at(s, p, today, i)
    &&& forall|j: int|
        #[trigger] retained_at(s, p, today, j) ==> s[j].date.spec_day_number()
            <= s[i].date.spec_day_number()
}

/// The entry at `i` is kept and dated no later than every kept entry.
pub open spec fn earliest_retained_at(s: Seq<Entry>, p: TimePeriod, today: Date, i: int) -> bool {
    &&& retained_at(s, p, today, i)
    &&& forall|j: int|
        #[trigger] retained_at(s, p, today, j) ==> s[j].date.spec_day_number()
            >= s[i].date.spec_day_number()
}

/// Derived, immutable result of aggregation over the kept entries; every
/// quantity is a decimal scaled by `10^8`.
#[derive(Clone, Copy, PartialEq, Eq, Structural, Debug)]
pub struct EquitySummary {
    pub latest_price: u64,
    pub earliest_price: u64,
    pub max_price: u64,
    pub min_price: u64,
}

/// What a summary of the entries of `s` kept by the filter must hold:
/// the closes of the latest and earliest kept entries, the greatest `high`
/// and the least `low` over the kept entries.
pub open spec fn summary_matches(
    s: Seq<Entry>,
    p: TimePeriod,
    today: Date,
    r: EquitySummary,
) -> bool {
    &&& exists|i: int| #[trigger] latest_retained_at(s, p, today, i) && r.latest_price == s[i].rec.close
    &&& exists|i: int| #[trigger] earliest_retained_at(s, p, today, i) && r.earliest_price == s[i].rec.close
    &&& exists|i: int| #[trigger] retained_at(s, p, today, i) && r.max_price == s[i].rec.high
    &&& forall|i: int| #[trigger] retained_at(s, p, today, i) ==> s[i].rec.high <= r.max_price
    &&& exists|i: int| #[trigger] retained_at(s, p, today, i) && r.min_price == s[i].rec.low
    &&& forall|i: int| #[trigger] retained_at(s, p, today, i) ==> s[i].rec.low >= r.min_price
}

/// A valid date's day number is small: it fits easily in `u64` arithmetic.
pub proof fn lemma_day_number_bound(d: Date)
    requires
        d.valid(),
    ensures
        0 <= d.spec_day_number() < 3700000,
{
}

/// The window length of a period, `None` meaning no filter.
fn window_days_count(p: TimePeriod) -> (r: Option<u64>)
    ensures
        r is Some <==> window_days(p) is Some,
        r is Some ==> r->0 as int == window_days(p)->0,
{
    match p {
        TimePeriod::Month => Some(30),
        TimePeriod::Year => Some(365),
        TimePeriod::AllTime => None,
    }
}

impl TimeSeries {
    /// The close price of the entry with the maximum date; an empty series
    /// is an `EmptyResult` error, never a default value.
    pub fn latest_close(&self) -> (r: Result<u64, ApiError>)
        requires
            valid_dates(self@),
        ensures
            r is Ok <==> self@.len() > 0,
            r is Err ==> r->Err_0 is EmptyResult,
            r is Ok ==> exists|i: int|
                #[trigger] is_latest_of(self@, i) && r->Ok_0 == self@[i].rec.close,
    {
        if self.entries.len() == 0 {
            return Err(ApiError::EmptyResult);
        }
        let mut best: usize = 0;
        let mut best_day: u64 = self.entries[0].date.day_number();
        let mut k: usize = 1;
        while k < self.entries.len()
            invariant
                1 <= k <= self@.len(),
                best < k,
                valid_dates(self@),
                best_day as int == self@[best as int].date.spec_day_number(),
                forall|j: int|
                    0 <= j < k ==> (#[trigger] self@[j]).date.spec_day_number() <= best_day,
            decreases self@.len() - k,
        {
            let d = self.entries[k].date.day_number();
            if d > best_day {
                best = k;
                best_day = d;
            }
            k = k + 1;
        }
        proof {
            assert(is_latest_of(self@, best as int));
        }
        Ok(self.entries[best].rec.close)
    }

    /// Filters by the period's window anchored at `today`, then reduces the
    /// kept entries to the four summary statistics. A filter that keeps
    /// nothing is an `EmptyResult` error, never a zero-valued summary.
    #[verifier::rlimit(100)]
    pub fn summarize(&self, period: TimePeriod, today: Date) -> (r: Result<
        EquitySummary,
        ApiError,
    >)
        requires
            self.wf(),
            today.valid(),
        ensures
            r is Ok <==> any_retained(self@, period, today),
            r is Err ==> r->Err_0 is EmptyResult,
            r is Ok ==> summary_matches(self@, period, today, r->Ok_0),
    {
        let today_day = today.day_number();
        let wopt = window_days_count(period);
        let mut found = false;
        let mut i_latest: usize = 0;
        let mut i_earliest: usize = 0;
        let mut latest_day: u64 = 0;
        let mut earliest_day: u64 = 0;
        let mut max_high: u64 = 0;
        let mut min_low: u64 = 0;
        let mut k: usize = 0;
        while k < self.entries.len()
            invariant
                k <= self@.len(),
                self.wf(),
                today.valid(),
                today_day as int == today.spec_day_number(),
                wopt is Some <==> window_days(period) is Some,
                wopt is Some ==> wopt->0 as int == window_days(period)->0,
                found <==> exists|j: int|
                    0 <= j < k && #[trigger] retained(self@[j], period, today),
                found ==> i_latest < k && retained(self@[i_latest as int], period, today)
                    && latest_day as int == self@[i_latest as int].date.spec_day_number(),
                found ==> forall|j: int|
                    0 <= j < k && #[trigger] retained(self@[j], period, today)
                        ==> self@[j].date.spec_day_number() <= latest_day,
                found ==> i_earliest < k && retained(self@[i_earliest as int], period, today)
                    && earliest_day as int == self@[i_earliest as int].date.spec_day_number(),
                found ==> forall|j: int|
                    0 <= j < k && #[trigger] retained(self@[j], period, today)
                        ==> self@[j].date.spec_day_number() >= earliest_day,
                found ==> exists|j: int|
                    0 <= j < k && #[trigger] retained(self@[j], period, today)
                        && max_high == self@[j].rec.high,
                found ==> forall|j: int|
                    0 <= j < k && #[trigger] retained(self@[j], period, today)
                        ==> self@[j].rec.high <= max_high,
                found ==> exists|j: int|
                    0 <= j < k && #[trigger] retained(self@[j], period, today)
                        && min_low == self@[j].rec.low,
                found ==> forall|j: int|
                    0 <= j < k && #[trigger] retained(self@[j], period, today)
                        ==> self@[j].rec.low >= min_low,
            decreases self@.len() - k,
        {
            let e = self.entries[k];
            proof {
                assert(self@[k as int].date.valid());
                lemma_day_number_bound(self@[k as int].date);
            }
            let e_day = e.date.day_number();
            let keep = match wopt {
                Some(w) => e_day + w >= today_day,
                None => true,
            };
            proof {
                assert(keep == retained(self@[k as int], period, today));
            }
            if keep {
                if !found {
                    found = true;
                    i_latest = k;
                    i_earliest = k;
                    latest_day = e_day;
                    earliest_day = e_day;
                    max_high = e.rec.high;
                    min_low = e.rec.low;
                } else {
                    if e_day > latest_day {
                        i_latest = k;
                        latest_day = e_day;
                    }
                    if e_day < earliest_day {
                        i_earliest = k;
                        earliest_day = e_day;
                    }
                    if e.rec.high > max_high {
                        max_high = e.rec.high;
                    }
                    if e.rec.low < min_low {
                        min_low = e.rec.low;
                    }
                }
            }
            k = k + 1;
        }
        if !found {
            return Err(ApiError::EmptyResult);
        }
        let result = EquitySummary {
            latest_price: self.entries[i_latest].rec.close,
            earliest_price: self.entries[i_earliest].rec.close,
            max_price: max_high,
            min_price: min_low,
        };
        proof {
            let s = self@;
            assert forall|j: int| #[trigger] retained_at(s, period, today, j)
                implies s[j].date.spec_day_number()
                <= s[i_latest as int].date.spec_day_number() by {
                assert(retained(s[j], period, today));
            }
            assert(latest_retained_at(s, period, today, i_latest as int));
            assert forall|j: int| #[trigger] retained_at(s, period, today, j)
                implies s[j].date.spec_day_number()
                >= s[i_earliest as int].date.spec_day_number() by {
                assert(retained(s[j], period, today));
            }
            assert(earliest_retained_at(s, period, today, i_earliest as int));
            let jm = choose|j: int|
                0 <= j < s.len() && #[trigger] retained(s[j], period, today) && max_high
                    == s[j].rec.high;
            assert(retained_at(s, period, today, jm));
            assert forall|j: int| #[trigger] retained_at(s, period, today, j)
                implies s[j].rec.high <= max_high by {
                assert(retained(s[j], period, today));
            }
            let jn = choose|j: int|
                0 <= j < s.len() && #[trigger] retained(s[j], period, today) && min_low
                    == s[j].rec.low;
            assert(retained_at(s, period, today, jn));
            assert forall|j: int| #[trigger] retained_at(s, period, today, j)
                implies s[j].rec.low >= min_low by {
                assert(retained(s[j], period, today));
            }
        }
        Ok(result)
    }
}

impl TimeSeries {
    /// Keeps exactly the entries the period's window retains, in their
    /// original order: every kept entry satisfies the window condition and
    /// comes from the series, and every entry of the series satisfying the
    /// window condition is kept.
    pub fn filter_by_period(&self, period: TimePeriod, today: Date) -> (r: TimeSeries)
        requires
            self.wf(),
            today.valid(),
        ensures
            r.wf(),
            forall|i: int|
                0 <= i < r@.len() ==> retained(#[trigger] r@[i], period, today) && self@.contains(
                    r@[i],
                ),
            forall|j: int|
                0 <= j < self@.len() && retained(#[trigger] self@[j], period, today)
                    ==> r@.contains(self@[j]),
    {
        let today_day = today.day_number();
        let wopt = window_days_count(period);
        let mut out: Vec<Entry> = Vec::new();
        let mut k: usize = 0;
        while k < self.entries.len()
            invariant
                k <= self@.len(),
                self.wf(),
                today.valid(),
                today_day as int == today.spec_day_number(),
                wopt is Some <==> window_days(period) is Some,
                wopt is Some ==> wopt->0 as int == window_days(period)->0,
                valid_dates(out@),
                distinct_days(out@),
                forall|i: int| 0 <= i < out@.len() ==> retained(#[trigger] out@[i], period, today),
                forall|i: int| #![trigger out@[i]]
                    0 <= i < out@.len() ==> exists|j: int|
                        0 <= j < k && out@[i] == #[trigger] self@[j],
                forall|j: int|
                    0 <= j < k && retained(#[trigger] self@[j], period, today) ==> out@.contains(
                        self@[j],
                    ),
            decreases self@.len() - k,
        {
            let e = self.entries[k];
            proof {
                assert(self@[k as int].date.valid());
                lemma_day_number_bound(self@[k as int].date);
            }
            let e_day = e.date.day_number();
            let keep = match wopt {
                Some(w) => e_day + w >= today_day,
                None => true,
            };
            proof {
                assert(keep == retained(self@[k as int], period, today));
            }
            if keep {
                let ghost pre = out@;
                out.push(e);
                proof {
                    let s = self@;
                    let cur = out@;
                    assert(cur == pre.push(e));
                    assert(cur[cur.len() - 1] == s[k as int]);
                    assert forall|i: int| #![trigger cur[i]] 0 <= i < cur.len() implies exists|j: int|
                        0 <= j < k + 1 && cur[i] == #[trigger] s[j] by {
                        if i < pre.len() {
                            let j0 = choose|j: int| 0 <= j < k && pre[i] == #[trigger] s[j];
                            assert(cur[i] == s[j0]);
                        } else {
                            assert(cur[i] == s[k as int]);
                        }
                    }
                    assert forall|i: int, j: int| #![trigger cur[i], cur[j]]
                        0 <= i < j < cur.len() implies cur[i].date.spec_day_number()
                        != cur[j].date.spec_day_number() by {
                        if j < pre.len() {
                            assert(cur[i] == pre[i] && cur[j] == pre[j]);
                        } else {
                            let j0 = choose|jj: int| 0 <= jj < k && pre[i] == #[trigger] s[jj];
                            assert(s[j0].date.spec_day_number()
                                != s[k as int].date.spec_day_number());
                            assert(cur[i] == s[j0]);
                        }
                    }
                    assert(distinct_days(cur));
                    assert forall|j: int|
                        0 <= j < k + 1 && retained(#[trigger] s[j], period, today)
                        implies cur.contains(s[j]) by {
                        if j < k {
                            let ii = choose|i: int| 0 <= i < pre.len() && pre[i] == s[j];
                            assert(cur[ii] == s[j]);
                        } else {
                            assert(cur[cur.len() - 1] == s[j]);
                        }
                    }
                }
            } else {
                proof {
                    assert forall|j: int|
                        0 <= j < k + 1 && retained(#[trigger] self@[j], period, today)
                        implies out@.contains(self@[j]) by {
                        assert(j != k);
                    }
                }
            }
            k = k + 1;
        }
        TimeSeries { entries: out }
    }
}

/// One row of the upstream response as text: a `YYYY-MM-DD` date and the
/// eight numeric fields still in their string encoding.
pub struct RawDaily {
    pub date: String,
    pub open: String,
    pub high: String,
    pub low: String,
    pub close: String,
    pub adjusted_close: String,
    pub volume: String,
    pub dividend_amount: String,
    pub split_coefficient: String,
}

/// Whether every field of the row parses: the date as a valid calendar
/// date, each numeric field as a decimal numeral.
pub open spec fn raw_ok(r: RawDaily) -> bool {
    &&& date_format_ok(r.date@)
    &&& date_of_text(r.date@).valid()
    &&& decimal_parseable(r.open@)
    &&& decimal_parseable(r.high@)
    &&& decimal_parseable(r.low@)
    &&& decimal_parseable(r.close@)
    &&& decimal_parseable(r.adjusted_close@)
    &&& decimal_parseable(r.volume@)
    &&& decimal_parseable(r.dividend_amount@)
    &&& decimal_parseable(r.split_coefficient@)
}

/// The entry a row denotes (meaningful only when `raw_ok` holds).
pub open spec fn raw_entry(r: RawDaily) -> Entry {
    Entry {
        date: date_of_text(r.date@),
        rec: DailyRecord {
            open: dec_val(r.open@) as u64,
            high: dec_val(r.high@) as u64,
            low: dec_val(r.low@) as u64,
            close: dec_val(r.close@) as u64,
            adjusted_close: dec_val(r.adjusted_close@) as u64,
            volume: dec_val(r.volume@) as u64,
            dividend_amount: dec_val(r.dividend_amount@) as u64,
            split_coefficient: dec_val(r.split_coefficient@) as u64,
        },
    }
}

/// Whether every row parses and no two rows share a date.
pub open spec fn raws_ok(rs: Seq<RawDaily>) -> bool {
    &&& forall|i: int| 0 <= i < rs.len() ==> raw_ok(#[trigger] rs[i])
    &&& forall|i: int, j: int| #![trigger rs[i], rs[j]]
        0 <= i < j < rs.len() ==> raw_entry(rs[i]).date.spec_day_number() != raw_entry(
            rs[j],
        ).date.spec_day_number()
}

impl TimeSeries {
    /// Builds a series from the upstream's textual rows, in their order.
    /// The whole conversion fails as a parse error if any single field of
    /// any row does not parse, or if two rows carry the same date.
    pub fn from_raw(rows: &Vec<RawDaily>) -> (r: Result<TimeSeries, ApiError>)
        ensures
            r is Ok <==> raws_ok(rows@),
            r is Err ==> r->Err_0 is Parse,
            r is Ok ==> r->Ok_0.wf(),
            r is Ok ==> r->Ok_0@.len() == rows@.len(),
            r is Ok ==> forall|i: int|
                0 <= i < rows@.len() ==> r->Ok_0@[i] == raw_entry(#[trigger] rows@[i]),
    {
        let mut out: Vec<Entry> = Vec::new();
        let mut k: usize = 0;
        while k < rows.len()
            invariant
                k <= rows@.len(),
                out@.len() == k,
                forall|i: int| 0 <= i < k ==> raw_ok(#[trigger] rows@[i]),
                forall|i: int| 0 <= i < k ==> out@[i] == raw_entry(#[trigger] rows@[i]),
                valid_dates(out@),
                distinct_days(out@),
            decreases rows@.len() - k,
        {
            let row = &rows[k];
            let date = match parse_date(row.date.as_str()) {
                Some(d) => d,
                None => {
                    return Err(ApiError::Parse);
                },
            };
            let open = match parse_decimal(row.open.as_str()) {
                Some(v) => v,
                None => {
                    return Err(ApiError::Parse);
                },
            };
            let high = match parse_decimal(row.high.as_str()) {
                Some(v) => v,
                None => {
                    return Err(ApiError::Parse);
                },
            };
            let low = match parse_decimal(row.low.as_str()) {
                Some(v) => v,
                None => {
                    return Err(ApiError::Parse);
                },
            };
            let close = match parse_decimal(row.close.as_str()) {
                Some(v) => v,
                None => {
                    return Err(ApiError::Parse);
                },
            };
            let adjusted_close = match parse_decimal(row.adjusted_close.as_str()) {
                Some(v) => v,
                None => {
                    return Err(ApiError::Parse);
                },
            };
            let volume = match parse_decimal(row.volume.as_str()) {
                Some(v) => v,
                None => {
                    return Err(ApiError::Parse);
                },
            };
            let dividend_amount = match parse_decimal(row.dividend_amount.as_str()) {
                Some(v) => v,
                None => {
                    return Err(ApiError::Parse);
                },
            };
            let split_coefficient = match parse_decimal(row.split_coefficient.as_str()) {
                Some(v) => v,
                None => {
                    return Err(ApiError::Parse);
                },
            };
            let entry = Entry {
                date,
                rec: DailyRecord {
                    open,
                    high,
                    low,
                    close,
                    adjusted_close,
                    volume,
                    dividend_amount,
                    split_coefficient,
                },
            };
            proof {
                assert(raw_ok(rows@[k as int]));
                assert(entry == raw_entry(rows@[k as int]));
            }
            let d_new = date.day_number();
            let mut t: usize = 0;
            while t < out.len()
                invariant
                    t <= out@.len(),
                    out@.len() == k <= rows@.len(),
                    k < rows@.len(),
                    valid_dates(out@),
                    entry == raw_entry(rows@[k as int]),
                    d_new as int == entry.date.spec_day_number(),
                    forall|i: int| 0 <= i < k ==> out@[i] == raw_entry(#[trigger] rows@[i]),
                    forall|i: int|
                        0 <= i < t ==> (#[trigger] out@[i]).date.spec_day_number() != d_new,
                decreases out@.len() - t,
            {
                proof {
                    assert(out@[t as int].date.valid());
                }
                let existing_day = out[t].date.day_number();
                if existing_day == d_new {
                    proof {
                        if raws_ok(rows@) {
                            assert(raw_ok(rows@[t as int]));
                            assert(raw_entry(rows@[t as int]).date.spec_day_number()
                                != raw_entry(rows@[k as int]).date.spec_day_number());
                        }
                    }
                    return Err(ApiError::Parse);
                }
                t = t + 1;
            }
            let ghost pre = out@;
            out.push(entry);
            proof {
                let cur = out@;
                assert(cur == pre.push(entry));
                assert forall|i: int, j: int| #![trigger cur[i], cur[j]]
                    0 <= i < j < cur.len() implies cur[i].date.spec_day_number()
                    != cur[j].date.spec_day_number() by {
                    if j < pre.len() {
                        assert(cur[i] == pre[i] && cur[j] == pre[j]);
                    } else {
                        assert(cur[i] == pre[i]);
                    }
                }
            }
            k = k + 1;
        }
        proof {
            assert forall|i: int, j: int| #![trigger rows@[i], rows@[j]]
                0 <= i < j < rows@.len() implies raw_entry(rows@[i]).date.spec_day_number()
                != raw_entry(rows@[j]).date.spec_day_number() by {
                assert(out@[i] == raw_entry(rows@[i]));
                assert(out@[j] == raw_entry(rows@[j]));
            }
        }
        Ok(TimeSeries { entries: out })
    }
}

/// Aggregation is a pure function of its inputs: over a series with one
/// record per date, any two summaries of the same series, period and anchor
/// date are equal.
pub proof fn lemma_summarize_deterministic(
    s: Seq<Entry>,
    p: TimePeriod,
    today: Date,
    r1: EquitySummary,
    r2: EquitySummary,
)
    requires
        distinct_days(s),
        summary_matches(s, p, today, r1),
        summary_matches(s, p, today, r2),
    ensures
        r1 == r2,
{
    let i1 = choose|i: int|
        #[trigger] latest_retained_at(s, p, today, i) && r1.latest_price == s[i].rec.close;
    let i2 = choose|i: int|
        #[trigger] latest_retained_at(s, p, today, i) && r2.latest_price == s[i].rec.close;
    assert(retained_at(s, p, today, i1));
    assert(retained_at(s, p, today, i2));
    assert(s[i1].date.spec_day_number() == s[i2].date.spec_day_number());
    assert(i1 == i2);
    let e1 = choose|i: int|
        #[trigger] earliest_retained_at(s, p, today, i) && r1.earliest_price == s[i].rec.close;
    let e2 = choose|i: int|
        #[trigger] earliest_retained_at(s, p, today, i) && r2.earliest_price == s[i].rec.close;
    assert(retained_at(s, p, today, e1));
    assert(retained_at(s, p, today, e2));
    assert(s[e1].date.spec_day_number() == s[e2].date.spec_day_number());
    assert(e1 == e2);
    let m1 = choose|i: int| #[trigger] retained_at(s, p, today, i) && r1.max_price == s[i].rec.high;
    let m2 = choose|i: int| #[trigger] retained_at(s, p, today, i) && r2.max_price == s[i].rec.high;
    assert(s[m1].rec.high <= r2.max_price);
    assert(s[m2].rec.high <= r1.max_price);
    let n1 = choose|i: int| #[trigger] retained_at(s, p, today, i) && r1.min_price == s[i].rec.low;
    let n2 = choose|i: int| #[trigger] retained_at(s, p, today, i) && r2.min_price == s[i].rec.low;
    assert(s[n1].rec.low >= r2.min_price);
    assert(s[n2].rec.low >= r1.min_price);
}

/// The latest entry by day number is the latest in calendar order: no
/// other entry's date is greater.
pub proof fn lemma_latest_is_calendar_max(s: Seq<Entry>, i: int)
    requires
        valid_dates(s),
        is_latest_of(s, i),
    ensures
        forall|j: int|
            0 <= j < s.len() ==> !crate::date::calendar_before(
                s[i].date,
                (#[trigger] s[j]).date,
            ),
{
    assert forall|j: int| 0 <= j < s.len() implies !crate::date::calendar_before(
        s[i].date,
        (#[trigger] s[j]).date,
    ) by {
        crate::date::lemma_day_number_orders_dates(s[i].date, s[j].date);
    }
}

/// An entry dated exactly thirty days before the anchor date is kept by the
/// Month window: the boundary day is inclusive.
pub proof fn lemma_month_boundary_included(e: Entry, today: Date)
    requires
        e.date.spec_day_number() + 30 == today.spec_day_number(),
    ensures
        retained(e, TimePeriod::Month, today),
{
}

/// An entry dated thirty-one days before the anchor date is discarded by
/// the Month window.
pub proof fn lemma_month_boundary_excluded(e: Entry, today: Date)
    requires
        e.date.spec_day_number() + 31 == today.spec_day_number(),
    ensures
        !retained(e, TimePeriod::Month, today),
{
}

} // verus!
