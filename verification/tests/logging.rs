//! Log lines and time stamps.

use tomte::logging::{dir_for, iso8601_utc, log_line, rotates, MAX_BYTES};

#[test]
fn timestamps_are_correct_utc() {
    assert_eq!(iso8601_utc(0), "1970-01-01T00:00:00Z");
    assert_eq!(iso8601_utc(951_782_400), "2000-02-29T00:00:00Z");
    assert_eq!(iso8601_utc(1_754_784_000), "2025-08-10T00:00:00Z");
    assert_eq!(iso8601_utc(1_786_320_000), "2026-08-10T00:00:00Z");
}

#[test]
fn timestamps_hold_at_the_edges_of_years_and_centuries() {
    assert_eq!(iso8601_utc(59), "1970-01-01T00:00:59Z");
    assert_eq!(iso8601_utc(86_399), "1970-01-01T23:59:59Z");
    assert_eq!(iso8601_utc(31_535_999), "1970-12-31T23:59:59Z");
    assert_eq!(iso8601_utc(31_536_000), "1971-01-01T00:00:00Z");
    // 2100 is no leap year
    assert_eq!(iso8601_utc(4_107_542_399), "2100-02-28T23:59:59Z");
    assert_eq!(iso8601_utc(4_107_542_400), "2100-03-01T00:00:00Z");
    // far beyond four digits
    assert_eq!(iso8601_utc(253_402_300_800), "10000-01-01T00:00:00Z");
}

#[test]
fn log_lines_have_five_columns_for_the_level() {
    assert_eq!(
        log_line(0, "INFO", "boot", "started"),
        "1970-01-01T00:00:00Z INFO  [boot] started\n"
    );
    assert_eq!(
        log_line(0, "ERROR", "ipc", "gone"),
        "1970-01-01T00:00:00Z ERROR [ipc] gone\n"
    );
    assert_eq!(
        log_line(0, "LONGER", "ipc", ""),
        "1970-01-01T00:00:00Z LONGER [ipc] \n"
    );
}

#[test]
fn log_files_are_put_aside_beyond_their_limit() {
    assert_eq!(MAX_BYTES, 5 * 1024 * 1024);
    assert!(!rotates(0));
    assert!(!rotates(MAX_BYTES));
    assert!(rotates(MAX_BYTES + 1));
    assert_eq!(dir_for("/support"), "/support/logs");
    assert_eq!(dir_for("/support/"), "/support/logs");
}

#[test]
fn timestamps_sort_as_text() {
    let times = [
        0,
        1,
        59,
        60,
        3_599,
        3_600,
        86_399,
        86_400,
        951_782_400,
        1_786_320_000,
        253_402_300_799,
    ];
    let texts: Vec<String> = times.iter().map(|t| iso8601_utc(*t)).collect();
    let mut sorted = texts.clone();
    sorted.sort();
    sorted.dedup();
    assert_eq!(sorted, texts);
    assert!(texts.iter().all(|t| t.len() == 20));
}
