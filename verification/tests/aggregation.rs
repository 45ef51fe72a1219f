use portfolio::date::Date;
use portfolio::decimal::PRICE_SCALE;
use portfolio::series::{DailyRecord, Entry, EquitySummary, TimeSeries};
use portfolio::{ApiError, TimePeriod};

fn record(close: u64, high: u64, low: u64) -> DailyRecord {
    DailyRecord {
        open: close,
        high: high * PRICE_SCALE,
        low: low * PRICE_SCALE,
        close: close * PRICE_SCALE,
        adjusted_close: close * PRICE_SCALE,
        volume: 1000 * PRICE_SCALE,
        dividend_amount: 0,
        split_coefficient: PRICE_SCALE,
    }
}

fn entry(year: u64, month: u64, day: u64, close: u64, high: u64, low: u64) -> Entry {
    Entry {
        date: Date::from_ymd(year, month, day).unwrap(),
        rec: record(close, high, low),
    }
}

#[test]
fn latest_close_picks_maximum_date() {
    let series = TimeSeries {
        entries: vec![
            entry(2024, 1, 10, 120, 125, 95),
            entry(2024, 1, 1, 100, 110, 90),
            entry(2023, 12, 29, 80, 85, 75),
        ],
    };
    assert_eq!(series.latest_close().unwrap(), 120 * PRICE_SCALE);
}

#[test]
fn latest_close_on_empty_series_is_empty_result() {
    let series = TimeSeries { entries: vec![] };
    assert!(matches!(series.latest_close(), Err(ApiError::EmptyResult)));
}

#[test]
fn all_time_summary_scenario() {
    let series = TimeSeries {
        entries: vec![
            entry(2024, 1, 1, 100, 110, 90),
            entry(2024, 1, 10, 120, 125, 95),
        ],
    };
    let today = Date::from_ymd(2024, 2, 1).unwrap();
    let summary = series.summarize(TimePeriod::AllTime, today).unwrap();
    assert_eq!(
        summary,
        EquitySummary {
            latest_price: 120 * PRICE_SCALE,
            earliest_price: 100 * PRICE_SCALE,
            max_price: 125 * PRICE_SCALE,
            min_price: 90 * PRICE_SCALE,
        }
    );
}

#[test]
fn month_window_includes_day_thirty_and_excludes_day_thirty_one() {
    let today = Date::from_ymd(2024, 12, 31).unwrap();
    let on_boundary = entry(2024, 12, 1, 50, 55, 45);
    let past_boundary = entry(2024, 11, 30, 500, 550, 5);
    assert_eq!(today.day_number() - on_boundary.date.day_number(), 30);
    assert_eq!(today.day_number() - past_boundary.date.day_number(), 31);
    let series = TimeSeries { entries: vec![past_boundary, on_boundary] };
    let summary = series.summarize(TimePeriod::Month, today).unwrap();
    assert_eq!(
        summary,
        EquitySummary {
            latest_price: 50 * PRICE_SCALE,
            earliest_price: 50 * PRICE_SCALE,
            max_price: 55 * PRICE_SCALE,
            min_price: 45 * PRICE_SCALE,
        }
    );
}

#[test]
fn year_window_filters_older_entries() {
    let today = Date::from_ymd(2024, 6, 1).unwrap();
    let series = TimeSeries {
        entries: vec![
            entry(2022, 6, 1, 10, 20, 5),
            entry(2024, 1, 2, 100, 110, 90),
            entry(2024, 5, 30, 120, 125, 95),
        ],
    };
    let summary = series.summarize(TimePeriod::Year, today).unwrap();
    assert_eq!(summary.earliest_price, 100 * PRICE_SCALE);
    assert_eq!(summary.latest_price, 120 * PRICE_SCALE);
    assert_eq!(summary.max_price, 125 * PRICE_SCALE);
    assert_eq!(summary.min_price, 90 * PRICE_SCALE);
}

#[test]
fn summarize_is_pure_given_same_inputs() {
    let series = TimeSeries {
        entries: vec![
            entry(2024, 1, 1, 100, 110, 90),
            entry(2024, 1, 10, 120, 125, 95),
        ],
    };
    let today = Date::from_ymd(2024, 2, 1).unwrap();
    let first = series.summarize(TimePeriod::AllTime, today).unwrap();
    let second = series.summarize(TimePeriod::AllTime, today).unwrap();
    assert_eq!(first, second);
}

#[test]
fn empty_filter_result_is_empty_result_error() {
    let today = Date::from_ymd(2024, 12, 31).unwrap();
    let series = TimeSeries { entries: vec![entry(2024, 10, 1, 50, 55, 45)] };
    assert!(matches!(
        series.summarize(TimePeriod::Month, today),
        Err(ApiError::EmptyResult)
    ));
    let empty = TimeSeries { entries: vec![] };
    assert!(matches!(
        empty.summarize(TimePeriod::AllTime, today),
        Err(ApiError::EmptyResult)
    ));
}

#[test]
fn filter_by_period_keeps_exactly_the_window() {
    let today = Date::from_ymd(2024, 12, 31).unwrap();
    let on_boundary = entry(2024, 12, 1, 50, 55, 45);
    let past_boundary = entry(2024, 11, 30, 500, 550, 5);
    let series = TimeSeries { entries: vec![past_boundary, on_boundary] };
    let kept = series.filter_by_period(TimePeriod::Month, today);
    assert_eq!(kept.entries.len(), 1);
    assert_eq!(kept.entries[0], on_boundary);
    let all = series.filter_by_period(TimePeriod::AllTime, today);
    assert_eq!(all.entries.len(), 2);
}
