use chaincord::log::{
    append_call, append_raw, civil_from_days, log_file_name, safe_name, utc_stamp,
};
use chaincord::log::{FIRST_I32_DAY, LAST_I32_DAY};

#[test]
fn unix_epoch_is_1970_01_01() {
    assert_eq!(civil_from_days(0), (1970, 1, 1));
}

#[test]
fn civil_dates_around_leap_days_and_before_the_epoch() {
    assert_eq!(civil_from_days(-1), (1969, 12, 31));
    assert_eq!(civil_from_days(11016), (2000, 2, 29));
    assert_eq!(civil_from_days(11017), (2000, 3, 1));
    assert_eq!(civil_from_days(-719468), (0, 3, 1));
    assert_eq!(civil_from_days(19782), (2024, 2, 29));
}

#[test]
fn utc_stamps() {
    assert_eq!(utc_stamp(0), "1970-01-01T00:00:00.000Z");
    assert_eq!(utc_stamp(-5), "1970-01-01T00:00:00.000Z");
    assert_eq!(utc_stamp(1709251199999), "2024-02-29T23:59:59.999Z");
    assert_eq!(utc_stamp(1_000_000_000_123), "2001-09-09T01:46:40.123Z");
}

#[test]
fn call_log_lines() {
    let mut log = String::new();
    append_call(&mut log, 1000, "dial", Some("abc"), "ok", "info");
    assert_eq!(log, "1970-01-01T00:00:01.000Z [info] dial abc ok\n");
    let mut log = String::new();
    append_call(&mut log, 2000, "hub", Some(""), "gone", "warn");
    assert_eq!(log, "1970-01-01T00:00:02.000Z [warn] hub - gone\n");
    let mut log = String::from("x\n");
    append_call(&mut log, 0, "m", None, "e", "l");
    assert!(log.starts_with("x\n"));
    assert!(log.ends_with("Z [l] m - e\n"));
}

#[test]
fn raw_log_lines_are_stamped() {
    let mut log = String::new();
    append_raw(&mut log, "hello");
    assert!(log.ends_with("Z hello\n"));
    assert_eq!(log.len(), 24 + 1 + 5 + 1);
}

#[test]
fn log_file_names() {
    assert_eq!(safe_name("call.log"), "call.log");
    assert_eq!(safe_name("../etc/passwd"), "passwd.log");
    assert_eq!(safe_name("events"), "events.log");
    assert_eq!(safe_name("a/b/events"), "events.log");
    assert_eq!(safe_name("voice-2.log"), "voice-2.log");
    assert_eq!(safe_name(""), "app.log");
    assert_eq!(log_file_name(None), "app.log");
    assert_eq!(log_file_name(Some("a.log")), "a.log");
    assert_eq!(log_file_name(Some("b")), "b.log");
}

#[test]
fn civil_dates_at_the_ends_of_the_i32_years() {
    assert_eq!(civil_from_days(LAST_I32_DAY), (2147483647, 12, 31));
    assert_eq!(civil_from_days(FIRST_I32_DAY), (-2147483600, 3, 1));
    assert_eq!(civil_from_days(0), (1970, 1, 1));
}
