use emolytics::calculate_weekday;
use emolytics::timestamp::parse_timestamp;
use emolytics::trends::get_week_key;

#[test]
fn test_parse_timestamp() {
    let ts = parse_timestamp("2024-01-15T10:00:00Z");
    assert!(ts.is_some());
    let dt = ts.unwrap();
    assert_eq!(dt.year(), 2024);
    assert_eq!(dt.month(), 1);
    assert_eq!(dt.day, 15);
    assert_eq!(dt.hour(), 10);
}

#[test]
fn test_calculate_weekday() {
    // January 15, 2024 is a Monday (1)
    let weekday = calculate_weekday(2024, 1, 15);
    assert_eq!(weekday, 1);
}

#[test]
fn test_get_week_key() {
    let key = get_week_key(2024, 1, 15);
    assert!(key.starts_with("2024-W"));
}

#[test]
fn test_parse_timestamp_fractional_seconds() {
    let dt = parse_timestamp("2024-01-15T10:30:00.000Z").unwrap();
    assert_eq!(dt.year(), 2024);
    assert_eq!(dt.hour(), 10);
    assert_eq!(dt.minute, 30);
}

#[test]
fn test_parse_timestamp_rejects_malformed() {
    assert!(parse_timestamp("2024-01-15 10:00:00").is_none());
    assert!(parse_timestamp("2024-01T10:00:00Z").is_none());
    assert!(parse_timestamp("2024-01-15T10").is_none());
    assert!(parse_timestamp("2024-xx-15T10:00:00Z").is_none());
    assert!(parse_timestamp("").is_none());
}

#[test]
fn test_get_week_key_exact() {
    assert_eq!(get_week_key(2024, 1, 15), "2024-W03");
    // day 60 of a leap year: (60 + 6) / 7 rounds up to week 10
    assert_eq!(get_week_key(2024, 3, 1), "2024-W09");
    assert_eq!(get_week_key(2023, 3, 1), "2023-W09");
    assert_eq!(get_week_key(2024, 12, 31), "2024-W53");
}

#[test]
fn test_weekday_of_known_dates() {
    assert_eq!(calculate_weekday(2024, 1, 14), 0); // Sunday
    assert_eq!(calculate_weekday(2024, 2, 29), 4); // leap day, Thursday
    assert_eq!(calculate_weekday(2000, 1, 1), 6); // Saturday
    assert_eq!(calculate_weekday(1999, 12, 31), 5); // Friday
}
