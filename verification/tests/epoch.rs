use dada_filterbank::epoch::{
    has_stamp_shape, parse_start_epoch, start_epoch_from_parts, StartEpoch,
};
use hifitime::{Duration, Epoch};

const NANOS_PER_SECOND: u64 = 1_000_000_000;

#[test]
fn start_of_2023_is_the_instant_that_the_time_library_names() {
    // 44925 days lie between 1900-01-01 and 2023-01-01, and TAI is 37 s ahead
    // of UTC in 2023: 3_881_520_037 s, of which one century takes 3_155_760_000.
    let start = parse_start_epoch("2023-01-01-00:00:00").unwrap();
    assert_eq!(
        start,
        StartEpoch {
            centuries: 1,
            nanoseconds: 725_760_037 * NANOS_PER_SECOND,
        }
    );
    let reference = Epoch::from_gregorian_utc(2023, 1, 1, 0, 0, 0, 0);
    assert_eq!(
        (start.centuries, start.nanoseconds),
        reference.to_tai_duration().to_parts()
    );
}

#[test]
fn start_epoch_gives_the_day_count_of_the_time_library() {
    let start = parse_start_epoch("2023-01-01-00:00:00").unwrap();
    let epoch = Epoch::from_tai_duration(Duration::from_parts(
        start.centuries,
        start.nanoseconds,
    ));
    let days = epoch.to_mjd_tai_days();
    assert!((days - (59945.0 + 37.0 / 86400.0)).abs() < 1e-9);
    assert_eq!(
        days,
        Epoch::from_gregorian_utc(2023, 1, 1, 0, 0, 0, 0).to_mjd_tai_days()
    );
}

#[test]
fn start_epoch_reads_the_time_of_day() {
    let midnight = parse_start_epoch("2021-06-15-00:00:00").unwrap();
    let later = parse_start_epoch("2021-06-15-13:45:30").unwrap();
    assert_eq!(midnight.centuries, later.centuries);
    assert_eq!(
        later.nanoseconds - midnight.nanoseconds,
        (13 * 3600 + 45 * 60 + 30) * NANOS_PER_SECOND
    );
    let reference = Epoch::from_gregorian_utc(2021, 6, 15, 13, 45, 30, 0);
    assert_eq!(
        (later.centuries, later.nanoseconds),
        reference.to_tai_duration().to_parts()
    );
}

#[test]
fn start_epoch_before_1900_has_a_negative_century() {
    let start = parse_start_epoch("1899-12-31-00:00:00").unwrap();
    assert_eq!(start.centuries, -1);
}

#[test]
fn start_epoch_turns_down_a_date_that_does_not_exist() {
    assert_eq!(parse_start_epoch("2023-13-01-00:00:00"), None);
    assert_eq!(parse_start_epoch("2023-02-30-00:00:00"), None);
    assert_eq!(parse_start_epoch("2023-00-10-00:00:00"), None);
    assert_eq!(parse_start_epoch("2023-01-01-24:00:00"), None);
    assert_eq!(parse_start_epoch("2023-01-01-00:60:00"), None);
}

#[test]
fn start_epoch_turns_down_another_shape() {
    assert_eq!(parse_start_epoch(""), None);
    assert_eq!(parse_start_epoch("2023-01-01"), None);
    assert_eq!(parse_start_epoch("2023-01-01T00:00:00"), None);
    assert_eq!(parse_start_epoch("2023-01-01 00:00:00"), None);
    assert_eq!(parse_start_epoch("2023-1-1-0:0:0"), None);
    assert_eq!(parse_start_epoch(" 2023-01-01-00:00:00"), None);
    assert_eq!(parse_start_epoch("2023-01-01-00:00:00 "), None);
    assert_eq!(parse_start_epoch("2023-01-01-00:00:00.5"), None);
    assert_eq!(parse_start_epoch("2023/01/01-00:00:00"), None);
    assert_eq!(parse_start_epoch("yyyy-01-01-00:00:00"), None);
    assert_eq!(parse_start_epoch("2023-01-01-00:00:0\u{ff10}"), None);
}

#[test]
fn stamp_shape_is_digits_and_separators_in_place() {
    assert!(has_stamp_shape(b"2023-01-01-00:00:00"));
    assert!(has_stamp_shape(b"0000-00-00-00:00:00"));
    assert!(has_stamp_shape(b"9999-99-99-99:99:99"));
    assert!(!has_stamp_shape(b"2023-01-01-00:00:0"));
    assert!(!has_stamp_shape(b"2023-01-01-00:00:000"));
    assert!(!has_stamp_shape(b"2023:01:01-00:00:00"));
    assert!(!has_stamp_shape(b"2023-01-01-00-00-00"));
    assert!(!has_stamp_shape(b"2023-01-01-00:00:0a"));
    assert!(!has_stamp_shape(b"-023-01-01-00:00:00"));
}

#[test]
fn start_epoch_from_parts_keeps_the_parts() {
    assert_eq!(start_epoch_from_parts(None), None);
    assert_eq!(
        start_epoch_from_parts(Some((1, 725_760_037))),
        Some(StartEpoch {
            centuries: 1,
            nanoseconds: 725_760_037,
        })
    );
    assert_eq!(
        start_epoch_from_parts(Some((-3, 0))),
        Some(StartEpoch {
            centuries: -3,
            nanoseconds: 0,
        })
    );
}

#[test]
fn start_epoch_agrees_with_the_calendar_of_the_time_library() {
    let years = [0, 1, 1582, 1899, 1900, 1971, 1972, 1999, 2000, 2016, 2023, 2024, 2100, 9999];
    let months = [0, 1, 2, 6, 11, 12, 13, 99];
    let days = [0, 1, 28, 29, 30, 31, 32, 99];
    let times = [
        (0, 0, 0),
        (23, 59, 59),
        (23, 59, 60),
        (24, 0, 0),
        (12, 60, 0),
        (12, 0, 61),
        (99, 99, 99),
    ];
    for year in years {
        for month in months {
            for day in days {
                for (hour, minute, second) in times {
                    let text = format!(
                        "{:04}-{:02}-{:02}-{:02}:{:02}:{:02}",
                        year, month, day, hour, minute, second
                    );
                    // Read from a text, an hour must be below 24; the calendar
                    // itself would take 24:00:00.
                    let expected = if hour > 23 {
                        None
                    } else {
                        Epoch::maybe_from_gregorian_utc(year, month, day, hour, minute, second, 0)
                            .ok()
                            .map(|epoch| epoch.to_tai_duration().to_parts())
                    };
                    let found = parse_start_epoch(&text).map(|s| (s.centuries, s.nanoseconds));
                    assert_eq!(found, expected, "timestamp {}", text);
                }
            }
        }
    }
}
