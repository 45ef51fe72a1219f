use portfolio::date::{parse_date, Date};
use portfolio::decimal::{parse_decimal, PRICE_SCALE};

#[test]
fn decimal_plain_integer() {
    assert_eq!(parse_decimal("12345"), Some(12345 * PRICE_SCALE));
}

#[test]
fn decimal_fraction() {
    assert_eq!(parse_decimal("12.5"), Some(1_250_000_000));
}

#[test]
fn decimal_full_precision_fraction() {
    assert_eq!(parse_decimal("0.00000001"), Some(1));
}

#[test]
fn decimal_zero() {
    assert_eq!(parse_decimal("0.0000"), Some(0));
}

#[test]
fn decimal_trailing_dot() {
    assert_eq!(parse_decimal("7."), Some(7 * PRICE_SCALE));
}

#[test]
fn decimal_leading_dot() {
    assert_eq!(parse_decimal(".25"), Some(25_000_000));
}

#[test]
fn decimal_rejects_non_numeric() {
    assert_eq!(parse_decimal("abc"), None);
    assert_eq!(parse_decimal("12a45"), None);
    assert_eq!(parse_decimal("-1.5"), None);
    assert_eq!(parse_decimal(""), None);
    assert_eq!(parse_decimal("."), None);
    assert_eq!(parse_decimal("1.2.3"), None);
}

#[test]
fn decimal_rejects_excess_precision() {
    assert_eq!(parse_decimal("0.000000001"), None);
}

#[test]
fn decimal_rejects_oversized_integral_part() {
    assert_eq!(parse_decimal("123456789012"), None);
    assert_eq!(parse_decimal("99999999999"), Some(99_999_999_999 * PRICE_SCALE));
}

#[test]
fn date_parses_well_formed() {
    assert_eq!(
        parse_date("2024-01-01"),
        Some(Date { year: 2024, month: 1, day: 1 })
    );
}

#[test]
fn date_accepts_leap_day() {
    assert_eq!(
        parse_date("2024-02-29"),
        Some(Date { year: 2024, month: 2, day: 29 })
    );
}

#[test]
fn date_rejects_non_leap_february_29() {
    assert_eq!(parse_date("2023-02-29"), None);
}

#[test]
fn date_rejects_bad_month_and_day() {
    assert_eq!(parse_date("2024-13-01"), None);
    assert_eq!(parse_date("2024-00-01"), None);
    assert_eq!(parse_date("2024-04-31"), None);
    assert_eq!(parse_date("2024-01-00"), None);
}

#[test]
fn date_rejects_bad_shape() {
    assert_eq!(parse_date("2024/01/01"), None);
    assert_eq!(parse_date("2024-1-1"), None);
    assert_eq!(parse_date("24-01-011"), None);
    assert_eq!(parse_date(""), None);
}

#[test]
fn day_number_counts_calendar_days() {
    let a = Date::from_ymd(2024, 1, 1).unwrap();
    let b = Date::from_ymd(2024, 1, 10).unwrap();
    assert_eq!(b.day_number() - a.day_number(), 9);
    let feb = Date::from_ymd(2024, 3, 1).unwrap();
    assert_eq!(feb.day_number() - a.day_number(), 31 + 29);
    let year_later = Date::from_ymd(2025, 1, 1).unwrap();
    assert_eq!(year_later.day_number() - a.day_number(), 366);
}

#[test]
fn from_ymd_validates() {
    assert!(Date::from_ymd(2024, 2, 29).is_some());
    assert!(Date::from_ymd(2023, 2, 29).is_none());
    assert!(Date::from_ymd(0, 1, 1).is_none());
    assert!(Date::from_ymd(10000, 1, 1).is_none());
}
