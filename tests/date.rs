use lg_desktop::date::{days_to_date, format_timestamp, get_timestamp, is_leap_year};

#[test]
fn test_days_to_date_epoch() {
    assert_eq!(days_to_date(0), (1970, 1, 1));
}

#[test]
fn test_days_to_date_known_date() {
    // 2000-01-01 = 10957 days since epoch
    assert_eq!(days_to_date(10957), (2000, 1, 1));
}

#[test]
fn test_days_to_date_leap_day() {
    // 2024-02-29 = 19782 days since epoch
    assert_eq!(days_to_date(19782), (2024, 2, 29));
}

#[test]
fn test_days_to_date_end_of_year() {
    // 2023-12-31 = 19722 days since epoch
    assert_eq!(days_to_date(19722), (2023, 12, 31));
}

#[test]
fn test_is_leap_year() {
    assert!(is_leap_year(2000));
    assert!(!is_leap_year(1900));
    assert!(is_leap_year(2024));
    assert!(!is_leap_year(2023));
}

#[test]
fn test_get_timestamp_format() {
    let ts = get_timestamp();
    // Should match ISO 8601 pattern: YYYY-MM-DDTHH:MM:SSZ
    assert_eq!(ts.len(), 20);
    assert_eq!(&ts[4..5], "-");
    assert_eq!(&ts[7..8], "-");
    assert_eq!(&ts[10..11], "T");
    assert_eq!(&ts[13..14], ":");
    assert_eq!(&ts[16..17], ":");
    assert_eq!(&ts[19..20], "Z");
}

#[test]
fn days_around_leap_day() {
    assert_eq!(days_to_date(19781), (2024, 2, 28));
    assert_eq!(days_to_date(19783), (2024, 3, 1));
    assert_eq!(days_to_date(59), (1970, 3, 1));
    assert_eq!(days_to_date(365), (1971, 1, 1));
}

#[test]
fn timestamp_exact_values() {
    assert_eq!(format_timestamp(0), "1970-01-01T00:00:00Z");
    assert_eq!(format_timestamp(19782 * 86400 + 3661), "2024-02-29T01:01:01Z");
    assert_eq!(format_timestamp(86399), "1970-01-01T23:59:59Z");
}

#[test]
fn timestamp_far_future_year_widens() {
    // 10000-01-01 is day 2932897.
    assert_eq!(format_timestamp(2932897 * 86400), "10000-01-01T00:00:00Z");
}
