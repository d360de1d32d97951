use blobstore::common::{days_in_month_of, parse_timestamp, Timestamp};

#[test]
fn parses_ordinary_timestamp() {
    let t = parse_timestamp("2024-01-02 03:04:05").unwrap();
    assert_eq!(
        t,
        Timestamp { year: 2024, month: 1, day: 2, hour: 3, minute: 4, second: 5 }
    );
}

#[test]
fn parses_leap_day() {
    let t = parse_timestamp("2024-02-29 23:59:59").unwrap();
    assert_eq!(t.day, 29);
}

#[test]
fn rejects_feb_29_outside_leap_years() {
    assert!(parse_timestamp("2023-02-29 00:00:00").is_none());
    assert!(parse_timestamp("1900-02-29 00:00:00").is_none());
    assert!(parse_timestamp("2000-02-29 00:00:00").is_some());
}

#[test]
fn rejects_out_of_range_fields() {
    assert!(parse_timestamp("2024-13-01 00:00:00").is_none());
    assert!(parse_timestamp("2024-00-01 00:00:00").is_none());
    assert!(parse_timestamp("2024-04-31 00:00:00").is_none());
    assert!(parse_timestamp("2024-01-00 00:00:00").is_none());
    assert!(parse_timestamp("2024-01-01 24:00:00").is_none());
    assert!(parse_timestamp("2024-01-01 00:60:00").is_none());
    assert!(parse_timestamp("2024-01-01 00:00:60").is_none());
}

#[test]
fn rejects_malformed_text() {
    assert!(parse_timestamp("").is_none());
    assert!(parse_timestamp("garbage").is_none());
    assert!(parse_timestamp("2024-1-01 00:00:00").is_none());
    assert!(parse_timestamp("2024/01/01 00:00:00").is_none());
    assert!(parse_timestamp("2024-01-01T00:00:00").is_none());
    assert!(parse_timestamp("2024-01-01 00:00:00 ").is_none());
}

#[test]
fn month_lengths() {
    assert_eq!(days_in_month_of(2023, 1), 31);
    assert_eq!(days_in_month_of(2023, 2), 28);
    assert_eq!(days_in_month_of(2024, 2), 29);
    assert_eq!(days_in_month_of(2100, 2), 28);
    assert_eq!(days_in_month_of(2000, 2), 29);
    assert_eq!(days_in_month_of(2023, 4), 30);
    assert_eq!(days_in_month_of(2023, 12), 31);
}

#[test]
fn agrees_with_chrono_on_fixed_format() {
    let cases = [
        "2024-01-02 03:04:05",
        "2024-02-29 23:59:59",
        "2023-02-29 00:00:00",
        "2024-04-31 12:00:00",
        "1999-12-31 23:59:59",
        "2024-01-01 24:00:00",
    ];
    for text in cases {
        let ours = parse_timestamp(text).is_some();
        let chronos =
            chrono::NaiveDateTime::parse_from_str(text, "%Y-%m-%d %H:%M:%S").is_ok();
        assert_eq!(ours, chronos, "disagreement on {text:?}");
    }
}
