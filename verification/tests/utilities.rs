use asc_log::errors::AscParseError;
use asc_log::line::{
    build_sig_key, canonicalize_id, format_datetime_ymdhms_millis, parse_hex_bytes, parse_id_u32,
    push_2, push_3, push_dec_u32, resolve_msg_key_for_id, seconds_to_hms_string,
};
use asc_log::database::{MessageDef, SignalDatabase};
use asc_log::parse::check_asc_extension;
use asc_log::timestamp::{parse_timestamp, Timestamp};

#[test]
fn identifier_round_trip() {
    assert_eq!(parse_id_u32("17334410x"), Some(0x17334410));
    assert_eq!(parse_id_u32("17334410X"), Some(0x17334410));
    assert_eq!(parse_id_u32("0x12AB"), Some(0x12AB));
    assert_eq!(parse_id_u32("123"), Some(0x123));
    assert_eq!(parse_id_u32("4294967295"), Some(u32::MAX));
    assert_eq!(parse_id_u32("99999999999"), None);
    assert_eq!(parse_id_u32("zz"), None);
    assert_eq!(parse_id_u32(""), None);
}

#[test]
fn canonical_identifier_form() {
    assert_eq!(canonicalize_id("17334410x"), "0x17334410");
    assert_eq!(canonicalize_id("0x12ab"), "0X12AB");
    assert_eq!(canonicalize_id("12ab"), "0x12AB");
    assert_eq!(canonicalize_id("7ffXX"), "0x7FF");
}

#[test]
fn signal_key_layout() {
    assert_eq!(build_sig_key(1, "17334410x", "Speed"), "1|0x17334410|Speed");
    assert_eq!(build_sig_key(200, "12ab", "Temp"), "200|0x12AB|Temp");
}

#[test]
fn hex_dump_to_bytes() {
    assert_eq!(parse_hex_bytes("3E 42 03"), vec![0x3E, 0x42, 0x03]);
    assert_eq!(parse_hex_bytes("  FF   00 "), vec![0xFF, 0x00]);
    // unreadable tokens are passed over
    assert_eq!(parse_hex_bytes("3E zz 01 100"), vec![0x3E, 0x01]);
    assert_eq!(parse_hex_bytes(""), Vec::<u8>::new());
}

#[test]
fn extension_check() {
    assert!(check_asc_extension("trace.asc"));
    assert!(check_asc_extension("/tmp/deep/path/t.asc"));
    assert!(!check_asc_extension("trace.txt"));
    assert!(!check_asc_extension("asc"));
    assert!(!check_asc_extension(""));
}

#[test]
fn timestamp_token_grammar() {
    assert_eq!(parse_timestamp("0.016728").map(|t| t.nanos), Some(16_728_000));
    assert_eq!(parse_timestamp("65.5").map(|t| t.nanos), Some(65_500_000_000));
    assert_eq!(parse_timestamp("3").map(|t| t.nanos), Some(3_000_000_000));
    // digits beyond the ninth fractional place are dropped
    assert_eq!(parse_timestamp("0.1234567891").map(|t| t.nanos), Some(123_456_789));
    assert_eq!(parse_timestamp("-1"), None);
    assert_eq!(parse_timestamp("1e3"), None);
    assert_eq!(parse_timestamp("."), None);
    assert_eq!(parse_timestamp(""), None);
}

#[test]
fn millisecond_rounding_is_half_up() {
    assert_eq!(Timestamp { nanos: 16_728_000 }.millis(), 17);
    assert_eq!(Timestamp { nanos: 16_499_999 }.millis(), 16);
    assert_eq!(Timestamp { nanos: 16_500_000 }.millis(), 17);
}

#[test]
fn datetime_formatting() {
    assert_eq!(format_datetime_ymdhms_millis(2025, 8, 5, 19, 23, 45, 140), "2025-08-05 19:23:45.140");
    assert_eq!(format_datetime_ymdhms_millis(987, 1, 2, 3, 4, 5, 6), "987-01-02 03:04:05.006");
}

#[test]
fn duration_formatting() {
    assert_eq!(seconds_to_hms_string(&Timestamp { nanos: 65_500_000_000 }), "2025-01-01 00:01:05.500");
    assert_eq!(seconds_to_hms_string(&Timestamp { nanos: 0 }), "2025-01-01 00:00:00.000");
    // 500 hours print unpadded beyond two digits
    assert_eq!(
        seconds_to_hms_string(&Timestamp { nanos: 1_800_000_000_000_000 }),
        "2025-01-01 500:00:00.000"
    );
}

#[test]
fn digit_pushers() {
    let mut s = String::new();
    push_2(&mut s, 7);
    push_3(&mut s, 42);
    push_dec_u32(&mut s, 12345);
    assert_eq!(s, "0704212345");
}

#[test]
fn message_key_resolution() {
    let db = SignalDatabase {
        name: String::new(),
        messages: vec![
            MessageDef {
                id: 0x100,
                name: String::new(),
                comment: String::new(),
                sender_nodes: vec![],
                signals: vec![],
            },
            MessageDef {
                id: 0x1800 | 0x8000_0000,
                name: String::new(),
                comment: String::new(),
                sender_nodes: vec![],
                signals: vec![],
            },
        ],
        nodes: vec![],
        signals: vec![],
    };
    assert_eq!(resolve_msg_key_for_id(&db, 0x100), Some(0));
    assert_eq!(resolve_msg_key_for_id(&db, 0x1800), Some(1));
    assert_eq!(resolve_msg_key_for_id(&db, 0x999), None);
}

#[test]
fn error_values_carry_their_cause() {
    let e = AscParseError::InvalidExtension { path: "trace.txt".to_string() };
    match e {
        AscParseError::InvalidExtension { path } => assert_eq!(path, "trace.txt"),
        _ => panic!("wrong variant"),
    }
    let io = std::io::Error::new(std::io::ErrorKind::NotFound, "missing");
    let e = AscParseError::OpenFile { path: "t.asc".to_string(), source: io };
    match e {
        AscParseError::OpenFile { path, source } => {
            assert_eq!(path, "t.asc");
            assert_eq!(source.kind(), std::io::ErrorKind::NotFound);
        },
        _ => panic!("wrong variant"),
    }
}
