use majestical_services::iso8601::iso8601_ms;

#[test]
fn formats_a_leap_day_midnight() {
    assert_eq!(iso8601_ms(1_709_164_800_000), "2024-02-29T00:00:00Z");
}

#[test]
fn formats_the_last_second_of_a_year() {
    assert_eq!(iso8601_ms(1_735_689_599_000), "2024-12-31T23:59:59Z");
}

#[test]
fn formats_the_epoch() {
    assert_eq!(iso8601_ms(0), "1970-01-01T00:00:00Z");
}

#[test]
fn formats_a_century_that_is_not_a_leap_year() {
    // 2100-03-01: 2100 has no February 29th.
    assert_eq!(iso8601_ms(4_107_542_400_000), "2100-03-01T00:00:00Z");
    assert_eq!(iso8601_ms(4_107_542_399_999), "2100-02-28T23:59:59Z");
}

#[test]
fn formats_the_largest_timestamp() {
    assert_eq!(iso8601_ms(u64::MAX), "584556019-04-03T14:25:51Z");
}

#[test]
fn times_within_one_second_share_a_text_of_twenty_chars() {
    let a = iso8601_ms(1_709_164_800_000);
    let b = iso8601_ms(1_709_164_800_999);
    assert_eq!(a, b, "milliseconds are truncated");
    assert_eq!(a.chars().count(), 20);
    assert_eq!(iso8601_ms(253_402_300_799_999), "9999-12-31T23:59:59Z");
    assert_eq!(iso8601_ms(253_402_300_799_999).chars().count(), 20);
    assert!(iso8601_ms(1_000) < iso8601_ms(86_400_000));
}

#[test]
fn the_second_after_a_leap_day_eve_is_the_leap_day() {
    assert_eq!(iso8601_ms(1_709_164_799_000), "2024-02-28T23:59:59Z");
    assert_eq!(iso8601_ms(1_709_164_800_000), "2024-02-29T00:00:00Z");
    assert_eq!(iso8601_ms(0), "1970-01-01T00:00:00Z");
}
