use simplefetch::page::{
    add_hours, days_in_month, format_beijing_time, format_time, is_leap_year, parse_i32, parse_iso_utc,
    short_git_hash,
};

#[test]
fn leap_years() {
    assert!(is_leap_year(2000));
    assert!(is_leap_year(2024));
    assert!(!is_leap_year(1900));
    assert!(!is_leap_year(2023));
    assert!(is_leap_year(-4));
}

#[test]
fn month_lengths() {
    assert_eq!(days_in_month(2024, 2), 29);
    assert_eq!(days_in_month(2023, 2), 28);
    assert_eq!(days_in_month(2023, 4), 30);
    assert_eq!(days_in_month(2023, 12), 31);
    assert_eq!(days_in_month(2023, 13), 30);
}

#[test]
fn hours_roll_over_days_months_and_years() {
    assert_eq!(add_hours(2024, 2, 28, 20, 8), (2024, 2, 29, 4));
    assert_eq!(add_hours(2023, 2, 28, 20, 8), (2023, 3, 1, 4));
    assert_eq!(add_hours(2023, 12, 31, 23, 8), (2024, 1, 1, 7));
    assert_eq!(add_hours(2023, 5, 10, 3, 8), (2023, 5, 10, 11));
    assert_eq!(add_hours(2023, 5, 10, 3, 48), (2023, 5, 12, 3));
}

#[test]
fn times_of_day() {
    assert_eq!(format_time(None), "—");
    assert_eq!(format_time(Some(3_723_000)), "01:02:03 UTC");
    assert_eq!(format_time(Some(86_400_000 + 59_999)), "00:00:59 UTC");
}

#[test]
fn short_hashes() {
    assert_eq!(short_git_hash("  abcdef1234567 \n"), "abcdef1");
    assert_eq!(short_git_hash("abc"), "abc");
    assert_eq!(short_git_hash(" unknown "), "unknown");
    assert_eq!(short_git_hash("   "), "unknown");
}

fn chars(s: &str) -> Vec<char> {
    s.chars().collect()
}

#[test]
fn integers_parse_like_i32() {
    assert_eq!(parse_i32(&chars("+5")), Some(5));
    assert_eq!(parse_i32(&chars("-12")), Some(-12));
    assert_eq!(parse_i32(&chars("007")), Some(7));
    assert_eq!(parse_i32(&chars("2147483647")), Some(i32::MAX));
    assert_eq!(parse_i32(&chars("-2147483648")), Some(i32::MIN));
    assert_eq!(parse_i32(&chars("2147483648")), None);
    assert_eq!(parse_i32(&chars("-")), None);
    assert_eq!(parse_i32(&chars("")), None);
    assert_eq!(parse_i32(&chars("1x")), None);
}

#[test]
fn iso_times_are_read() {
    assert_eq!(parse_iso_utc("2024-03-05T21:30:15Z"), Some((2024, 3, 5, 21, 30, 15)));
    assert_eq!(parse_iso_utc("2024-03-05T21:30:15.123+00:00"), Some((2024, 3, 5, 21, 30, 15)));
    assert_eq!(parse_iso_utc("2024-03-05"), None);
    assert_eq!(parse_iso_utc("2024/03/05 21:30:15Z"), None);
}

#[test]
fn beijing_times() {
    assert_eq!(format_beijing_time("2024-12-31T20:05:09Z"), "2025\u{2011}01\u{2011}01_04:05:09");
    assert_eq!(format_beijing_time("2024-03-05T01:02:03Z"), "2024\u{2011}03\u{2011}05_09:02:03");
    assert_eq!(format_beijing_time("unknown"), "unknown");
}
