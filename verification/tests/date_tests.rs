use rfindfiles::date::{days_from_civil, format_date, days_in_month, is_leap_year, unix_seconds_to_system_time};
use rfindfiles::{parse_date, CliError, Timestamp};

fn secs(raw: &str, end_of_day: bool) -> i64 {
    parse_date(raw, end_of_day).unwrap().secs
}

#[test]
fn epoch_and_known_days() {
    assert_eq!(parse_date("1970-01-01", false), Ok(Timestamp { secs: 0, nanos: 0 }));
    assert_eq!(secs("1970-01-01", true), 86_399);
    assert_eq!(secs("2026-03-23", false), 1_774_224_000);
    assert_eq!(secs("1969-12-31", false), -86_400);
    assert_eq!(secs("0000-03-01", false), -719_468 * 86_400);
    assert_eq!(days_from_civil(2000, 1, 1), 10_957);
}

#[test]
fn day_numbers_are_consecutive() {
    // Walk every day from 1900-01-01 to 2100-12-31 and check that each has
    // the number after the previous one.
    let mut expected = days_from_civil(1900, 1, 1);
    for year in 1900..=2100 {
        for month in 1..=12u32 {
            for day in 1..=days_in_month(year, month) {
                assert_eq!(days_from_civil(year, month, day), expected, "{year}-{month}-{day}");
                expected += 1;
            }
        }
    }
    assert_eq!(days_from_civil(1900, 1, 1), -25_567);
}

#[test]
fn end_of_day_is_followed_by_next_day() {
    for (day, next) in [
        ("2024-02-28", "2024-02-29"),
        ("2024-02-29", "2024-03-01"),
        ("2023-02-28", "2023-03-01"),
        ("2024-12-31", "2025-01-01"),
        ("1969-12-31", "1970-01-01"),
    ] {
        assert_eq!(secs(day, true) + 1, secs(next, false));
        assert_eq!(secs(day, true), secs(day, false) + 86_399);
    }
}

#[test]
fn leap_years() {
    assert!(is_leap_year(2024));
    assert!(is_leap_year(2000));
    assert!(!is_leap_year(1900));
    assert!(!is_leap_year(2023));
    assert!(is_leap_year(-4));
    assert!(is_leap_year(-400));
    assert!(!is_leap_year(-100));
    assert_eq!(days_in_month(2024, 2), 29);
    assert_eq!(days_in_month(2023, 2), 28);
    assert_eq!(days_in_month(2023, 4), 30);
    assert_eq!(days_in_month(2023, 13), 0);
    assert!(parse_date("2024-02-29", false).is_ok());
    assert!(parse_date("2000-02-29", false).is_ok());
    assert!(parse_date("2023-02-29", false).is_err());
    assert!(parse_date("1900-02-29", false).is_err());
}

#[test]
fn accepted_date_forms() {
    assert_eq!(secs(" \t2026-03-23 \n", false), secs("2026-03-23", false));
    assert_eq!(secs("\u{3000}2026-03-23\u{a0}", false), secs("2026-03-23", false));
    assert_eq!(secs("+2026-+03-+23", false), secs("2026-03-23", false));
    assert_eq!(secs("2026-3-5", false), secs("2026-03-05", false));
    assert_eq!(secs("002026-003-0023", false), secs("2026-03-23", false));
    assert!(parse_date("2147483647-12-31", true).is_ok());
}

fn message_of(raw: &str) -> String {
    parse_date(raw, false).unwrap_err().to_string()
}

#[test]
fn refused_date_forms() {
    for raw in [
        "", "2026", "2026-03", "2026-03-23-01", "2026-13-01", "2026-00-10", "2026-01-00",
        "2026-01-32", "2026-04-31", "x-01-01", "2026-01-1x", "2026--01", "99999999999-01-01",
        "2147483648-01-01", "2026-01-+", "2026 -01-01", "2026-01-٣",
    ] {
        let expected = format!("Neplatné datum '{}', očekávaný formát je YYYY-MM-DD.", raw.trim());
        assert_eq!(message_of(raw), expected, "{raw:?}");
    }
    assert_eq!(
        message_of("  31.12.2026 "),
        "Neplatné datum '31.12.2026', očekávaný formát je YYYY-MM-DD."
    );
}

#[test]
fn seconds_out_of_range() {
    assert_eq!(
        unix_seconds_to_system_time(i64::MIN),
        Err(CliError::Message("Datum je mimo podporovaný rozsah.".to_string()))
    );
    assert_eq!(unix_seconds_to_system_time(-5), Ok(Timestamp { secs: -5, nanos: 0 }));
}

#[test]
fn help_error_text() {
    assert_eq!(CliError::HelpRequested.to_string(), "help requested");
    assert_eq!(CliError::Message("x".to_string()).to_string(), "x");
}

#[test]
fn timestamps_order_by_seconds_then_nanos() {
    let a = Timestamp { secs: 10, nanos: 5 };
    let b = Timestamp { secs: 10, nanos: 6 };
    let c = Timestamp { secs: -1, nanos: 999_999_999 };
    assert!(a.is_before(&b));
    assert!(!b.is_before(&a));
    assert!(!a.is_before(&a));
    assert!(c.is_before(&a));
}

#[test]
fn dates_are_written_as_format_writes_them() {
    for (y, m, d) in [(2026, 3, 5), (7, 1, 9), (-1, 12, 31), (12345, 1, 1), (0, 10, 10), (-2000, 2, 29)] {
        assert_eq!(format_date(y, m, d), format!("{:04}-{:02}-{:02}", y, m, d));
    }
    assert_eq!(format_date(2024, 2, 29), "2024-02-29");
    assert_eq!(parse_date(&format_date(2024, 2, 29), false), parse_date("2024-02-29", false));
    assert!(parse_date(&format_date(-1, 1, 1), false).is_err());
}
