use portfolio::clock::today;
use portfolio::decimal::PRICE_SCALE;
use portfolio::series::{RawDaily, TimeSeries};
use portfolio::{ApiError, DailyOutputSize, Symbol, TimePeriod};
use portfolio::date::Date;

fn raw(date: &str, volume: &str) -> RawDaily {
    RawDaily {
        date: date.to_string(),
        open: "100.0".to_string(),
        high: "110.5".to_string(),
        low: "90.25".to_string(),
        close: "105.0".to_string(),
        adjusted_close: "104.5".to_string(),
        volume: volume.to_string(),
        dividend_amount: "0.0000".to_string(),
        split_coefficient: "1.0".to_string(),
    }
}

#[test]
fn string_encoded_volume_parses_to_number() {
    let rows = vec![raw("2024-01-05", "12345")];
    let series = TimeSeries::from_raw(&rows).unwrap();
    assert_eq!(series.entries.len(), 1);
    assert_eq!(series.entries[0].rec.volume, 12345 * PRICE_SCALE);
    assert_eq!(series.entries[0].rec.high, 110 * PRICE_SCALE + PRICE_SCALE / 2);
    assert_eq!(
        series.entries[0].date,
        Date { year: 2024, month: 1, day: 5 }
    );
}

#[test]
fn non_numeric_field_fails_the_whole_conversion() {
    let rows = vec![raw("2024-01-05", "12345"), raw("2024-01-06", "not-a-number")];
    assert!(matches!(TimeSeries::from_raw(&rows), Err(ApiError::Parse)));
}

#[test]
fn bad_date_fails_the_whole_conversion() {
    let rows = vec![raw("2024-1-5", "12345")];
    assert!(matches!(TimeSeries::from_raw(&rows), Err(ApiError::Parse)));
}

#[test]
fn duplicate_date_fails_the_conversion() {
    let rows = vec![raw("2024-01-05", "1"), raw("2024-01-05", "2")];
    assert!(matches!(TimeSeries::from_raw(&rows), Err(ApiError::Parse)));
}

#[test]
fn converted_rows_feed_aggregation() {
    let rows = vec![raw("2024-01-05", "12345"), raw("2024-01-08", "500")];
    let series = TimeSeries::from_raw(&rows).unwrap();
    assert_eq!(series.latest_close().unwrap(), 105 * PRICE_SCALE);
    let today_anchor = Date::from_ymd(2024, 1, 10).unwrap();
    let summary = series.summarize(TimePeriod::Month, today_anchor).unwrap();
    assert_eq!(summary.earliest_price, 105 * PRICE_SCALE);
}

#[test]
fn symbol_rejects_empty_input() {
    assert!(Symbol::new(String::new()).is_none());
    let s = Symbol::new("AAPL".to_string()).unwrap();
    assert_eq!(s.as_str(), "AAPL");
}

#[test]
fn output_size_query_values() {
    assert_eq!(DailyOutputSize::Compact.as_str(), "compact");
    assert_eq!(DailyOutputSize::Full.as_str(), "full");
}

#[test]
fn clock_reads_a_valid_date() {
    let d = today().unwrap();
    assert!(1 <= d.month && d.month <= 12);
    assert!(1 <= d.day && d.day <= 31);
    assert!(1 <= d.year && d.year <= 9999);
}
