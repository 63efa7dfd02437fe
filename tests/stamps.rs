use pipelogger::{format_stamp, utc_time, UtcTime};

#[test]
fn epoch_start() {
    let t = utc_time(0, 0);
    assert_eq!(
        t,
        UtcTime { year: 1970, month: 1, day: 1, hour: 0, minute: 0, second: 0, nanos: 0 }
    );
    assert_eq!(format_stamp(&t), b"1970-01-01 00:00:00.000000000 UTC".to_vec());
}

#[test]
fn leap_day_and_time_of_day() {
    // 2016-02-29 13:45:07 UTC
    let t = utc_time(1456753507, 42);
    assert_eq!(
        t,
        UtcTime { year: 2016, month: 2, day: 29, hour: 13, minute: 45, second: 7, nanos: 42 }
    );
    assert_eq!(format_stamp(&t), b"2016-02-29 13:45:07.000000042 UTC".to_vec());
}

#[test]
fn last_second_of_a_year() {
    // 1999-12-31 23:59:59 UTC
    let t = utc_time(946684799, 999_999_999);
    assert_eq!(format_stamp(&t), b"1999-12-31 23:59:59.999999999 UTC".to_vec());
    let next = utc_time(946684800, 0);
    assert_eq!(format_stamp(&next), b"2000-01-01 00:00:00.000000000 UTC".to_vec());
}

#[test]
fn stamps_sort_as_text() {
    let a = format_stamp(&utc_time(1000000000, 5));
    let b = format_stamp(&utc_time(1000000001, 0));
    assert_eq!(a.len(), b.len());
    assert!(a < b);
}
