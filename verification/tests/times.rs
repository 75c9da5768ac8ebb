use asc_log::abs_time::{from_line, CivilTime};
use asc_log::line::LineParser;
use asc_log::log::{ChannelInfo, ChannelType, Log};
use asc_log::parse::ingest_line;

fn bare_can_log() -> Log {
    let mut log = Log::default();
    log.channel_map.insert(
        1,
        ChannelInfo { number: 1, tipo: ChannelType::Can, database: None },
    );
    log
}

fn feed(log: &mut Log, lines: &[&str]) {
    let mut lp = LineParser::new();
    let mut found = false;
    for line in lines {
        ingest_line(&mut lp, log, &mut found, line);
    }
}

#[test]
fn header_line_parses() {
    let at = from_line("date Tue Aug 05 07:23:45.123 pm 2025").unwrap();
    assert_eq!(at.text, "Tue Aug 05 07:23:45.123 pm 2025");
    assert_eq!(
        at.value,
        Some(CivilTime { year: 2025, month: 8, day: 5, hour: 19, minute: 23, second: 45, milli: 123 })
    );
}

#[test]
fn header_accepts_case_and_full_names() {
    let at = from_line("date TUESDAY august 5 12:00:00.000 AM 2025").unwrap();
    assert_eq!(
        at.value,
        Some(CivilTime { year: 2025, month: 8, day: 5, hour: 0, minute: 0, second: 0, milli: 0 })
    );
}

#[test]
fn header_rejects_wrong_weekday() {
    // 2025-08-05 is a Tuesday, not a Monday
    assert!(from_line("date Mon Aug 05 07:23:45.123 pm 2025").is_none());
}

#[test]
fn header_rejects_bad_shapes() {
    assert!(from_line("data Tue Aug 05 07:23:45.123 pm 2025").is_none());
    assert!(from_line("date Tue Aug 05 07:23:45.123 pm").is_none());
    assert!(from_line("date Tue Aug 05 07:23:45.123 pm 2025 extra").is_none());
    assert!(from_line("date Tue Aug 32 07:23:45.123 pm 2025").is_none());
    assert!(from_line("date Tue Feb 29 07:23:45.123 pm 2025").is_none());
    assert!(from_line("date Tue Aug 05 13:23:45.123 pm 2025").is_none());
    assert!(from_line("0.1 1 123 Rx d 1 00").is_none());
}

#[test]
fn header_accepts_leap_day() {
    // 2024-02-29 was a Thursday
    let at = from_line("date Thu Feb 29 11:00:00.000 am 2024").unwrap();
    assert_eq!(
        at.value,
        Some(CivilTime { year: 2024, month: 2, day: 29, hour: 11, minute: 0, second: 0, milli: 0 })
    );
}

#[test]
fn absolute_time_fallback_without_header() {
    let mut log = bare_can_log();
    feed(&mut log, &["65.5 1 123 Rx d 1 00"]);
    let f = log.get_frame_by_key(&log.frame_by_file_order[0]).unwrap();
    assert!(f.absolute_time.ends_with("01:05.500"));
    assert_eq!(f.absolute_time, "2025-01-01 00:01:05.500");
}

#[test]
fn absolute_time_from_header() {
    let mut log = bare_can_log();
    feed(&mut log, &[
        "date Tue Aug 05 07:23:45.123 pm 2025",
        "0.016728 1 17334410x Rx d 8 3E 42 03 00 39 00 03 01",
        "0.020000 1 17334410x Rx d 8 00 00 00 00 00 00 00 00",
    ]);
    assert_eq!(log.frames.len(), 2);
    let f0 = log.get_frame_by_key(&log.frame_by_file_order[0]).unwrap();
    let f1 = log.get_frame_by_key(&log.frame_by_file_order[1]).unwrap();
    assert_eq!(f0.absolute_time, "2025-08-05 19:23:45.140");
    assert_eq!(f1.absolute_time, "2025-08-05 19:23:45.143");
}

#[test]
fn absolute_time_rolls_over_midnight() {
    let mut log = bare_can_log();
    feed(&mut log, &[
        "date Tue Aug 05 11:59:59.990 pm 2025",
        "0.020000 1 123 Rx d 1 00",
    ]);
    let f = log.get_frame_by_key(&log.frame_by_file_order[0]).unwrap();
    assert_eq!(f.absolute_time, "2025-08-06 00:00:00.010");
}

#[test]
fn only_first_header_wins() {
    let mut log = bare_can_log();
    feed(&mut log, &[
        "date Tue Aug 05 07:23:45.123 pm 2025",
        "date Wed Aug 06 07:23:45.123 pm 2025",
        "0.0 1 123 Rx d 1 00",
    ]);
    assert_eq!(log.absolute_time.text, "Tue Aug 05 07:23:45.123 pm 2025");
    // the second header line is ordinary data and fails tokenization
    assert_eq!(log.frames.len(), 1);
}

#[test]
fn timestamp_is_exact_nanoseconds() {
    let mut log = bare_can_log();
    feed(&mut log, &[
        "0.000000001 1 123 Rx d 1 00",
        "12.5 1 123 Rx d 1 00",
        "+3.25 1 123 Rx d 1 00",
        ".5 1 123 Rx d 1 00",
        "7. 1 123 Rx d 1 00",
    ]);
    assert_eq!(log.frames.len(), 5);
    let nanos: Vec<u64> = log
        .frame_by_file_order
        .iter()
        .map(|k| log.get_frame_by_key(k).unwrap().timestamp.nanos)
        .collect();
    assert_eq!(nanos, vec![1, 12_500_000_000, 3_250_000_000, 500_000_000, 7_000_000_000]);
}

#[test]
fn negative_timestamp_is_dropped() {
    let mut log = bare_can_log();
    feed(&mut log, &["-0.5 1 123 Rx d 1 00"]);
    assert!(log.is_empty());
}
