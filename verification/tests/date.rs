use envoy_http1::date::{format_imf_fixdate, imf_fixdate_of_reading, imf_fixdate_string, now_imf_fixdate, reading_ms};
use std::time::{Duration, UNIX_EPOCH};

#[test]
fn formats_canonical_imf_fixdate() {
    // 784111777 seconds after the epoch = Sun, 06 Nov 1994 08:49:37 GMT.
    let t = UNIX_EPOCH + Duration::from_secs(784_111_777);
    assert_eq!(format_imf_fixdate(t), "Sun, 06 Nov 1994 08:49:37 GMT");
}

#[test]
fn formats_unix_epoch() {
    assert_eq!(format_imf_fixdate(UNIX_EPOCH), "Thu, 01 Jan 1970 00:00:00 GMT");
}

#[test]
fn formats_leap_day_and_year_end() {
    // 2024-02-29 12:00:00 UTC and 1999-12-31 23:59:59 UTC.
    assert_eq!(imf_fixdate_string(1_709_208_000), "Thu, 29 Feb 2024 12:00:00 GMT");
    assert_eq!(imf_fixdate_string(946_684_799), "Fri, 31 Dec 1999 23:59:59 GMT");
    assert_eq!(imf_fixdate_string(946_684_800), "Sat, 01 Jan 2000 00:00:00 GMT");
}

#[test]
fn instants_before_the_epoch_format_as_the_epoch() {
    let before = UNIX_EPOCH - Duration::from_secs(10);
    assert_eq!(format_imf_fixdate(before), "Thu, 01 Jan 1970 00:00:00 GMT");
}

#[test]
fn now_is_an_imf_fixdate_after_2020() {
    let now = now_imf_fixdate();
    assert_eq!(now.len(), 29, "{now:?}");
    assert!(now.ends_with(" GMT"), "{now:?}");
    let year: u32 = now[12..16].parse().expect("year digits");
    assert!(year >= 2020, "{now:?}");
}

#[test]
fn clock_readings_clamp_before_the_epoch() {
    assert_eq!(imf_fixdate_of_reading(784_111_777), "Sun, 06 Nov 1994 08:49:37 GMT");
    assert_eq!(imf_fixdate_of_reading(-5), "Thu, 01 Jan 1970 00:00:00 GMT");
    assert_eq!(reading_ms(3, 250_000_000), 3_250);
    assert_eq!(reading_ms(-1, 999_999), 0);
}

#[test]
fn sub_second_parts_are_ignored() {
    let t = UNIX_EPOCH + Duration::from_millis(951_782_400_999);
    assert_eq!(format_imf_fixdate(t), "Tue, 29 Feb 2000 00:00:00 GMT");
}
