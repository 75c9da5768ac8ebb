use asc_log::database::{MessageDef, NodeDef, SignalDatabase, SignalDef};
use asc_log::frame::{Direction, FrameType};
use asc_log::line::LineParser;
use asc_log::log::{ChannelInfo, ChannelType, Log};
use asc_log::parse::ingest_line;

fn test_db() -> SignalDatabase {
    SignalDatabase {
        name: "powertrain".to_string(),
        messages: vec![MessageDef {
            id: 0x17334410,
            name: "EngineData".to_string(),
            comment: "main engine frame".to_string(),
            sender_nodes: vec![0],
            signals: vec![0],
        }],
        nodes: vec![NodeDef { name: "EngineEcu".to_string() }],
        signals: vec![SignalDef {
            name: "Speed".to_string(),
            start_bit: 0,
            bit_length: 8,
            signed: false,
            raws: vec![],
        }],
    }
}

fn can_log_with_db() -> Log {
    let mut log = Log::default();
    log.channel_map.insert(
        1,
        ChannelInfo { number: 1, tipo: ChannelType::Can, database: Some(test_db()) },
    );
    log
}

fn feed(log: &mut Log, lines: &[&str]) {
    let mut lp = LineParser::new();
    let mut found = false;
    for line in lines {
        ingest_line(&mut lp, log, &mut found, line);
    }
}

#[test]
fn decodes_full_bus_line() {
    let mut log = can_log_with_db();
    feed(&mut log, &["0.016728 1 17334410x Rx d 8 3E 42 03 00 39 00 03 01"]);
    assert_eq!(log.frames.len(), 1);
    let key = log.frame_by_file_order[0];
    let f = log.get_frame_by_key(&key).unwrap();
    assert_eq!(f.timestamp.nanos, 16_728_000);
    assert_eq!(f.channel, 1);
    assert!(f.ftype == FrameType::Can);
    assert!(f.direction == Direction::Rx);
    assert_eq!(f.id, 0x17334410);
    assert_eq!(f.id_hex, "17334410x");
    assert_eq!(f.byte_length, 8);
    assert_eq!(f.data, "3E 42 03 00 39 00 03 01");
    assert_eq!(f.data.split_ascii_whitespace().count(), 8);
    assert_eq!(f.message_ref, Some(0));
    assert_eq!(f.sender_node_ref, Some(0));
    assert_eq!(f.signal_refs, vec![0]);
}

#[test]
fn payload_token_count_matches_declared_length() {
    for len in 1..=8usize {
        let bytes = vec!["11"; len].join(" ");
        let line = format!("0.5 1 123 Rx d {} {}", len, bytes);
        let mut log = can_log_with_db();
        feed(&mut log, &[line.as_str()]);
        assert_eq!(log.frames.len(), 1);
        let f = log.get_frame_by_key(&log.frame_by_file_order[0]).unwrap();
        assert_eq!(f.data.split_ascii_whitespace().count(), len);
        assert_eq!(f.byte_length as usize, len);
    }
}

#[test]
fn short_payload_produces_no_frame() {
    let mut log = can_log_with_db();
    // one trailing byte token missing: the line yields nothing at all
    feed(&mut log, &["0.016728 1 17334410x Rx d 8 3E 42 03 00 39 00 03"]);
    assert!(log.is_empty());
    assert_eq!(log.frame_by_file_order.len(), 0);
}

#[test]
fn bad_direction_stores_error_frame() {
    let mut log = can_log_with_db();
    feed(&mut log, &["0.1 1 123 Bogus d 1 00"]);
    assert_eq!(log.frames.len(), 1);
    let f = log.get_frame_by_key(&log.frame_by_file_order[0]).unwrap();
    assert!(f.ftype == FrameType::ErrorFrame);
    assert_eq!(f.id, 0x123);
    assert!(f.signal_refs.is_empty());
    assert!(f.message_ref.is_none());
    assert_eq!(f.data, "");
}

#[test]
fn direction_is_case_sensitive() {
    let mut log = can_log_with_db();
    feed(&mut log, &["0.1 1 123 rx d 1 00"]);
    let f = log.get_frame_by_key(&log.frame_by_file_order[0]).unwrap();
    assert!(f.ftype == FrameType::ErrorFrame);
}

#[test]
fn missing_data_marker_stores_error_frame() {
    let mut log = can_log_with_db();
    feed(&mut log, &["0.1 1 123 Rx NoMarkerHere 8 00"]);
    assert_eq!(log.frames.len(), 1);
    let f = log.get_frame_by_key(&log.frame_by_file_order[0]).unwrap();
    assert!(f.ftype == FrameType::ErrorFrame);
    assert_eq!(f.byte_length, 0);
}

#[test]
fn ecu_tokens_before_marker_are_skipped() {
    let mut log = can_log_with_db();
    feed(&mut log, &["0.1 1 123 Tx SomeName SomeEcu d 2 AA BB"]);
    let f = log.get_frame_by_key(&log.frame_by_file_order[0]).unwrap();
    assert!(f.ftype == FrameType::Can);
    assert!(f.direction == Direction::Tx);
    assert_eq!(f.data, "AA BB");
}

#[test]
fn unknown_channel_is_dropped() {
    let mut log = can_log_with_db();
    feed(&mut log, &["0.1 7 123 Rx d 1 00"]);
    assert!(log.is_empty());
}

#[test]
fn ethernet_channel_is_not_decoded() {
    let mut log = Log::default();
    log.channel_map.insert(
        2,
        ChannelInfo { number: 2, tipo: ChannelType::Ethernet, database: None },
    );
    feed(&mut log, &["0.1 2 123 Rx d 1 00"]);
    assert!(log.is_empty());
}

#[test]
fn bad_timestamp_or_id_is_dropped() {
    let mut log = can_log_with_db();
    feed(&mut log, &[
        "oops 1 123 Rx d 1 00",
        "0.1 1 nothex!! Rx d 1 00",
        "",
        "   ",
    ]);
    assert!(log.is_empty());
}

#[test]
fn signal_series_accumulates_raw_points() {
    let mut log = can_log_with_db();
    feed(&mut log, &[
        "0.016728 1 17334410x Rx d 8 3E 42 03 00 39 00 03 01",
        "0.020000 1 17334410x Rx d 8 00 00 00 00 00 00 00 00",
    ]);
    let db = log.get_database_by_channel(1).unwrap();
    let raws = &db.signals[0].raws;
    assert_eq!(raws.len(), 2);
    assert_eq!(raws[0].0.nanos, 16_728_000);
    assert_eq!(raws[0].1, 0x3E);
    assert_eq!(raws[1].0.nanos, 20_000_000);
    assert_eq!(raws[1].1, 0);
}

#[test]
fn signed_signal_extraction_is_twos_complement() {
    let mut log = Log::default();
    let mut db = test_db();
    db.signals.push(SignalDef {
        name: "Temp".to_string(),
        start_bit: 8,
        bit_length: 8,
        signed: true,
        raws: vec![],
    });
    db.messages[0].signals = vec![0, 1];
    log.channel_map.insert(
        1,
        ChannelInfo { number: 1, tipo: ChannelType::Can, database: Some(db) },
    );
    feed(&mut log, &["0.1 1 17334410x Rx d 2 7F FF"]);
    let db = log.get_database_by_channel(1).unwrap();
    assert_eq!(db.signals[0].raws[0].1, 0x7F);
    assert_eq!(db.signals[1].raws[0].1, -1);
}

#[test]
fn extended_id_falls_back_to_flagged_lookup() {
    let mut log = Log::default();
    let mut db = test_db();
    // the database stores the identifier with the extended-frame flag set
    db.messages[0].id = 0x800 | 0x8000_0000;
    log.channel_map.insert(
        1,
        ChannelInfo { number: 1, tipo: ChannelType::Can, database: Some(db) },
    );
    feed(&mut log, &["0.1 1 800x Rx d 1 00"]);
    let f = log.get_frame_by_key(&log.frame_by_file_order[0]).unwrap();
    assert_eq!(f.id, 0x800);
    assert_eq!(f.message_ref, Some(0));
}

#[test]
fn standard_id_gets_no_extended_fallback() {
    let mut log = Log::default();
    let mut db = test_db();
    db.messages[0].id = 0x123 | 0x8000_0000;
    log.channel_map.insert(
        1,
        ChannelInfo { number: 1, tipo: ChannelType::Can, database: Some(db) },
    );
    // 0x123 is inside the standard range, so no flagged retry happens
    feed(&mut log, &["0.1 1 123 Rx d 1 00"]);
    let f = log.get_frame_by_key(&log.frame_by_file_order[0]).unwrap();
    assert!(f.message_ref.is_none());
}

#[test]
fn frame_display_helpers() {
    let mut log = can_log_with_db();
    feed(&mut log, &["0.016728 1 17334410x Rx d 8 3E 42 03 00 39 00 03 01"]);
    let f = log.get_frame_by_key(&log.frame_by_file_order[0]).unwrap();
    let db = log.get_database_by_channel(1).unwrap();
    assert_eq!(f.protocol_to_string(), "CAN");
    assert_eq!(f.msg_name_to_string(db), "EngineData");
    assert_eq!(f.msg_comment_to_string(db), "main engine frame");
    assert_eq!(f.tx_node_name_to_string(db), "EngineEcu");
    let info = log.channel_map.get(&1).unwrap();
    assert_eq!(info.db_name_to_string(), "powertrain");
}

#[test]
fn protocol_label_depends_on_length() {
    let mut log = can_log_with_db();
    let bytes = vec!["00"; 12].join(" ");
    let line = format!("0.1 1 123 Rx d 12 {}", bytes);
    feed(&mut log, &[line.as_str()]);
    let f = log.get_frame_by_key(&log.frame_by_file_order[0]).unwrap();
    assert_eq!(f.protocol_to_string(), "CAN-FD");
}

#[test]
fn scratch_buffers_do_not_leak_between_lines() {
    let mut log = can_log_with_db();
    // the first line dies halfway through its payload and leaves the
    // decoder's scratch text dirty; the next frame must not inherit it
    feed(&mut log, &[
        "0.1 1 123 Rx d 3 AA BB",
        "0.2 1 123 Rx d 1 CC",
    ]);
    assert_eq!(log.frames.len(), 1);
    let f = log.get_frame_by_key(&log.frame_by_file_order[0]).unwrap();
    assert_eq!(f.data, "CC");
}

#[test]
fn clear_frames_keeps_channel_bindings() {
    let mut log = can_log_with_db();
    feed(&mut log, &["0.1 1 123 Rx d 1 00"]);
    assert!(!log.is_empty());
    log.clear_frames();
    assert!(log.is_empty());
    assert!(log.channel_map.contains_key(&1));
    assert!(log.get_database_by_channel(1).is_some());
}

#[test]
fn clear_resets_everything() {
    let mut log = can_log_with_db();
    feed(&mut log, &["0.1 1 123 Rx d 1 00"]);
    log.clear();
    assert!(log.is_empty());
    assert!(log.channel_map.is_empty());
    assert!(log.absolute_time.value.is_none());
}

#[test]
fn mutable_database_access() {
    let mut log = can_log_with_db();
    {
        let db = log.get_mut_database_by_channel(1).unwrap();
        db.nodes.push(NodeDef { name: "GatewayEcu".to_string() });
    }
    let db = log.get_database_by_channel(1).unwrap();
    assert_eq!(db.nodes.len(), 2);
    assert!(log.get_mut_database_by_channel(9).is_none());
}
