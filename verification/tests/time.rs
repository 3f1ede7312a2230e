use kospi_parser::time::{NANOS_PER_CENT, NANOS_PER_DAY, NANOS_PER_HOUR, NANOS_PER_MIN, NANOS_PER_SEC};
use kospi_parser::Timestamp;

#[test]
fn test_parse_hhmmssuu() {
    let [hour, min, sec, cent] = Timestamp::parse_hhmmssuu(b"12304580");
    assert_eq!(hour, 12);
    assert_eq!(min, 30);
    assert_eq!(sec, 45);
    assert_eq!(cent, 80);

    let [hour, min, sec, cent] = Timestamp::parse_hhmmssuu(b"99999999");
    assert_eq!(hour, 99);
    assert_eq!(min, 99);
    assert_eq!(sec, 99);
    assert_eq!(cent, 99);
}

#[test]
fn parse_hhmmssuu_borrows_between_bytes() {
    // '/' is one below '0': the lowest byte borrows from the next one, as in one u64
    // subtraction of eight '0's.
    let [hour, min, sec, cent] = Timestamp::parse_hhmmssuu(b"/1000000");
    assert_eq!(hour, 255 * 10);
    assert_eq!(min, 0);
    assert_eq!(sec, 0);
    assert_eq!(cent, 0);
    let [hour, min, sec, cent] = Timestamp::parse_hhmmssuu(b"00000001");
    assert_eq!(hour, 0);
    assert_eq!(min, 0);
    assert_eq!(sec, 0);
    assert_eq!(cent, 1);
}

#[test]
fn from_secs_and_nanos_counts_nanoseconds() {
    let t = Timestamp::from_secs_and_nanos(3, 5);
    assert_eq!(t - Timestamp::from_secs_and_nanos(0, 0), Timestamp::from_secs_and_nanos(0, 3_000_000_005));
    assert_eq!(Timestamp::from_secs_and_nanos(2, 1) + Timestamp::from_secs_and_nanos(1, 4), t);
}

#[test]
fn timestamp_centiseconds_truncates_toward_zero() {
    assert_eq!(Timestamp::from_secs_and_nanos(1, 19_999_999).timestamp_centiseconds(), 101);
    assert_eq!(Timestamp::from_secs_and_nanos(0, -15_000_000).timestamp_centiseconds(), -1);
}

#[test]
fn hhmmssuu_to_midnight_delta_adds_up_the_fields() {
    let delta = Timestamp::hhmmssuu_to_midnight_delta(b"09000012");
    let expected = 9 * NANOS_PER_HOUR + 12 * NANOS_PER_CENT;
    assert_eq!(delta, Timestamp::from_secs_and_nanos(0, expected));
}

#[test]
fn delta_time_after_midnight_adds_up_the_fields() {
    let delta = Timestamp::delta_time_after_midnight(12, 30, 45, 80);
    let expected = 12 * NANOS_PER_HOUR + 30 * NANOS_PER_MIN + 45 * NANOS_PER_SEC + 80 * NANOS_PER_CENT;
    assert_eq!(delta, Timestamp::from_secs_and_nanos(0, expected));
}

#[test]
fn midnight_at_kst_starts_the_local_day() {
    // 2011-02-16 00:00:00 UTC is 09:00 KST; the KST day began at 2011-02-15 15:00 UTC.
    let t = Timestamp::from_secs_and_nanos(1297814400, 6_356_000);
    let midnight = t.get_midnight_at_timezone(Timestamp::TIMEZONE_KST);
    assert_eq!(midnight, Timestamp::from_secs_and_nanos(1297814400 - 9 * 3600, 0));
    assert!(midnight <= t);
    assert!(t < midnight + Timestamp::from_secs_and_nanos(0, NANOS_PER_DAY));
    // The midnight of a midnight is itself.
    assert_eq!(midnight.get_midnight_at_timezone(Timestamp::TIMEZONE_KST), midnight);
}

#[test]
fn midnight_before_the_epoch_starts_the_same_day() {
    // One second before the epoch (UTC) belongs to 1969-12-31, whose midnight is a day earlier.
    let t = Timestamp::from_secs_and_nanos(-1, 0);
    assert_eq!(t.get_midnight_at_timezone(0), Timestamp::from_secs_and_nanos(-86400, 0));
    // Exactly at a midnight before the epoch, that midnight itself.
    let m = Timestamp::from_secs_and_nanos(-86400, 0);
    assert_eq!(m.get_midnight_at_timezone(0), m);
    // In KST, 1969-12-31 14:00 UTC is 23:00 KST of 1969-12-31, whose day began at 15:00 UTC
    // the day before.
    let k = Timestamp::from_secs_and_nanos(-10 * 3600, 0);
    assert_eq!(
        k.get_midnight_at_timezone(Timestamp::TIMEZONE_KST),
        Timestamp::from_secs_and_nanos(-33 * 3600, 0)
    );
}

#[test]
fn format_hhmmssuu_writes_the_time_of_day() {
    let midnight = Timestamp::from_secs_and_nanos(1000, 0);
    let t = midnight + Timestamp::from_secs_and_nanos(9 * 3600 + 5 * 60 + 7, 123_456_789);
    assert_eq!(&t.format_hhmmssuu(midnight), b"09050712");
    assert_eq!(&t.as_hhmmssuu_string(midnight), b"09050712");
    assert_eq!(&t.as_printable_time_string(midnight), b"09:05:07.123456");
}

#[test]
fn hhmmssuu_round_trip() {
    let midnight = Timestamp::from_secs_and_nanos(0, 0);
    let t = Timestamp::from_secs_and_nanos(23 * 3600 + 59 * 60 + 58, 990_000_000);
    let text = t.format_hhmmssuu(midnight);
    assert_eq!(Timestamp::hhmmssuu_to_midnight_delta(&text), t);
    // A time that is not a whole centisecond comes back truncated.
    let u = Timestamp::from_secs_and_nanos(61, 12_345_678);
    let back = Timestamp::hhmmssuu_to_midnight_delta(&u.format_hhmmssuu(midnight));
    assert_eq!(back, Timestamp::from_secs_and_nanos(61, 10_000_000));
}
