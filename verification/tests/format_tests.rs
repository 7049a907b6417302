use syncron::digits::{parse_dec_u128, parse_dec_u64, u128_to_dec, u64_to_dec};
use syncron::human::human_bytes;
use syncron::logwin::apply_limit;
use syncron::paths::{job_path, log_path, run_path};
use syncron::stamp::{parse_run_id, time_string_from_timestamp_ms};

#[test]
fn test_human_bytes() {
    assert_eq!(human_bytes(0), "0B");
    assert_eq!(human_bytes(10), "10B");
    assert_eq!(human_bytes(1023), "1023B");
    assert_eq!(human_bytes(1024), "1KB");
    assert_eq!(human_bytes(1025), "1.00KB");
    assert_eq!(human_bytes(1024 * 1024), "1MB");
    assert_eq!(human_bytes(1500 * 1024 * 1024), "1.46GB");
}

#[test]
fn test_apply_limit() {
    assert_eq!(apply_limit(10, None, None), (0, 10));
    assert_eq!(apply_limit(10, Some(5), None), (5, 5));
    assert_eq!(apply_limit(10, None, Some(3)), (0, 3));
    assert_eq!(apply_limit(10, None, Some(-3)), (7, 3));
    assert_eq!(apply_limit(10, None, Some(13)), (0, 10));
    assert_eq!(apply_limit(10, None, Some(-13)), (0, 10));
    assert_eq!(apply_limit(10, Some(5), Some(3)), (5, 3));
    assert_eq!(apply_limit(10, Some(5), Some(-3)), (7, 3));
    assert_eq!(apply_limit(10, Some(5), Some(17)), (5, 5));
    assert_eq!(apply_limit(10, Some(5), Some(-17)), (5, 5));
}

#[test]
fn decimal_round_trips() {
    assert_eq!(u64_to_dec(0), "0");
    assert_eq!(u64_to_dec(18446744073709551615), "18446744073709551615");
    assert_eq!(parse_dec_u64("18446744073709551615"), Some(18446744073709551615));
    assert_eq!(parse_dec_u64("18446744073709551616"), None);
    assert_eq!(parse_dec_u64(""), None);
    assert_eq!(parse_dec_u64("12a"), None);
    let token: u128 = 340282366920938463463374607431768211455;
    assert_eq!(parse_dec_u128(&u128_to_dec(token)), Some(token));
    assert_eq!(parse_dec_u128(&u128_to_dec(7)), Some(7));
}

#[test]
fn run_id_renders_canonically() {
    assert_eq!(time_string_from_timestamp_ms(0), "1970-01-01T00:00:00.000Z");
    assert_eq!(time_string_from_timestamp_ms(1700000000123), "2023-11-14T22:13:20.123Z");
    // a leap day of a leap century
    assert_eq!(time_string_from_timestamp_ms(951827696789), "2000-02-29T12:34:56.789Z");
    assert_eq!(time_string_from_timestamp_ms(253402300799999), "9999-12-31T23:59:59.999Z");
}

#[test]
fn run_id_parses_back() {
    for ms in [0i64, 1700000000123, 951827696789, 253402300799999, 86400000, 999] {
        let id = time_string_from_timestamp_ms(ms);
        assert_eq!(parse_run_id(&id), Some(ms));
    }
}

#[test]
fn run_id_rejects_malformed() {
    assert_eq!(parse_run_id(""), None);
    assert_eq!(parse_run_id("2023-11-14T22:13:20Z"), None);
    assert_eq!(parse_run_id("2023-13-14T22:13:20.123Z"), None);
    assert_eq!(parse_run_id("2023-02-29T00:00:00.000Z"), None);
    assert_eq!(parse_run_id("1969-12-31T23:59:59.999Z"), None);
    assert_eq!(parse_run_id("2023-11-14 22:13:20.123Z"), None);
    assert_eq!(parse_run_id("2023-11-14T22:13:60.000Z"), None);
}

#[test]
fn paths_follow_the_layout() {
    assert_eq!(job_path("test-user", "my-job"), "jobs/test-user/my-job");
    assert_eq!(
        run_path("test-user", "my-job", 951827696789),
        "jobs/test-user/my-job/2000/2/29/2000-02-29T12:34:56.789Z"
    );
    assert_eq!(
        log_path("u", "j", 0),
        "jobs/u/j/1970/1/1/1970-01-01T00:00:00.000Z/log"
    );
}
