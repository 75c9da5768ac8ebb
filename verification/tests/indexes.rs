use asc_log::arena::FrameKey;
use asc_log::database::{MessageDef, NodeDef, SignalDatabase, SignalDef};
use asc_log::frame::FrameType;
use asc_log::index::build_indexes;
use asc_log::line::LineParser;
use asc_log::log::{ChannelInfo, ChannelType, Log};
use asc_log::parse::ingest_line;

fn test_db() -> SignalDatabase {
    SignalDatabase {
        name: "powertrain".to_string(),
        messages: vec![MessageDef {
            id: 0x17334410,
            name: "EngineData".to_string(),
            comment: "main engine frame".to_string(),
            sender_nodes: vec![0],
            signals: vec![0],
        }],
        nodes: vec![NodeDef { name: "EngineEcu".to_string() }],
        signals: vec![SignalDef {
            name: "Speed".to_string(),
            start_bit: 0,
            bit_length: 8,
            signed: false,
            raws: vec![],
        }],
    }
}

fn can_log_with_db() -> Log {
    let mut log = Log::default();
    log.channel_map.insert(
        1,
        ChannelInfo { number: 1, tipo: ChannelType::Can, database: Some(test_db()) },
    );
    log
}

fn load(log: &mut Log, lines: &[&str]) {
    log.clear_frames();
    let mut lp = LineParser::new();
    let mut found = false;
    for line in lines {
        ingest_line(&mut lp, log, &mut found, line);
    }
    build_indexes(log);
}

fn all_index_vectors(log: &Log) -> Vec<Vec<FrameKey>> {
    vec![
        log.frame_by_file_order.clone(),
        log.frame_by_timestamp.clone(),
        log.frame_by_channel.clone(),
        log.frame_by_direction.clone(),
        log.frame_by_can_msg_name.clone(),
        log.frame_by_can_msg_id.clone(),
        log.frame_by_can_dlc.clone(),
        log.frame_by_can_protocol.clone(),
        log.frame_by_can_sender_node.clone(),
        log.frame_by_can_data.clone(),
        log.frame_by_can_comment.clone(),
        log.id_chn_by_timestamp.clone(),
        log.id_chn_by_channel.clone(),
        log.id_chn_by_direction.clone(),
        log.id_chn_by_can_msg_name.clone(),
        log.id_chn_by_can_msg_id.clone(),
        log.id_chn_by_can_dlc.clone(),
        log.id_chn_by_can_protocol.clone(),
        log.id_chn_by_can_sender_node.clone(),
        log.id_chn_by_can_data.clone(),
        log.id_chn_by_can_comment.clone(),
    ]
}

const SCENARIO: [&str; 3] = [
    "date Tue Aug 05 07:23:45.123 pm 2025",
    "0.016728 1 17334410x Rx d 8 3E 42 03 00 39 00 03 01",
    "0.020000 1 17334410x Rx d 8 00 00 00 00 00 00 00 00",
];

#[test]
fn end_to_end_scenario() {
    let mut log = can_log_with_db();
    load(&mut log, &SCENARIO);
    assert_eq!(log.frames.len(), 2);
    let k0 = log.frame_by_file_order[0];
    let k1 = log.frame_by_file_order[1];
    let f0 = log.get_frame_by_key(&k0).unwrap();
    let f1 = log.get_frame_by_key(&k1).unwrap();
    assert_eq!(f0.absolute_time, "2025-08-05 19:23:45.140");
    assert_eq!(f1.absolute_time, "2025-08-05 19:23:45.143");
    // same identifier: the id ordering keeps file order
    assert_eq!(log.frame_by_can_msg_id, vec![k0, k1]);
    // the reduced set holds exactly the later frame of the pair
    assert_eq!(log.id_chn_by_can_msg_id, vec![k1]);
}

#[test]
fn reload_is_byte_identical() {
    let mut log = can_log_with_db();
    load(&mut log, &SCENARIO);
    let first = all_index_vectors(&log);
    load(&mut log, &SCENARIO);
    let second = all_index_vectors(&log);
    assert_eq!(first, second);
    assert_eq!(log.frames.len(), 2);
}

#[test]
fn error_frame_only_in_generic_indexes() {
    let mut log = can_log_with_db();
    load(&mut log, &["0.1 1 123 Bogus d 1 00"]);
    assert_eq!(log.frames.len(), 1);
    let k = log.frame_by_file_order[0];
    let f = log.get_frame_by_key(&k).unwrap();
    assert!(f.ftype == FrameType::ErrorFrame);
    assert!(f.signal_refs.is_empty());
    assert_eq!(log.frame_by_timestamp, vec![k]);
    assert_eq!(log.frame_by_channel, vec![k]);
    assert_eq!(log.frame_by_direction, vec![k]);
    assert!(log.frame_by_can_msg_id.is_empty());
    assert!(log.frame_by_can_msg_name.is_empty());
    assert!(log.frame_by_can_dlc.is_empty());
    assert!(log.frame_by_can_protocol.is_empty());
    assert!(log.frame_by_can_sender_node.is_empty());
    assert!(log.frame_by_can_data.is_empty());
    assert!(log.frame_by_can_comment.is_empty());
    assert!(log.id_chn_by_timestamp.is_empty());
}

#[test]
fn orderings_are_permutations_of_their_key_set() {
    let mut log = can_log_with_db();
    load(&mut log, &[
        "0.3 1 200 Tx d 1 05",
        "0.1 1 100 Rx d 2 0A 0B",
        "0.2 1 300 Rx d 1 07",
        "0.1 1 400 Bogus d 1 00",
    ]);
    // three decoded bus frames; the malformed-direction line is one error frame
    assert_eq!(log.frames.len(), 4);
    let mut base: Vec<usize> = log.frame_by_file_order.iter().map(|k| k.idx).collect();
    let mut by_ts: Vec<usize> = log.frame_by_timestamp.iter().map(|k| k.idx).collect();
    base.sort();
    by_ts.sort();
    assert_eq!(base, by_ts);
    let mut cans: Vec<usize> = log.frame_by_can_msg_id.iter().map(|k| k.idx).collect();
    cans.sort();
    assert_eq!(cans, vec![0, 1, 2]);
}

#[test]
fn timestamp_ordering_breaks_ties_by_file_order() {
    let mut log = can_log_with_db();
    load(&mut log, &[
        "0.2 1 333 Rx d 1 00",
        "0.1 1 222 Rx d 1 00",
        "0.1 1 111 Rx d 1 00",
    ]);
    let idx: Vec<usize> = log.frame_by_timestamp.iter().map(|k| k.idx).collect();
    // the two 0.1 frames keep file order, the 0.2 frame comes last
    assert_eq!(idx, vec![1, 2, 0]);
}

#[test]
fn id_ordering_is_numeric() {
    let mut log = can_log_with_db();
    load(&mut log, &[
        "0.1 1 300 Rx d 1 00",
        "0.2 1 100 Rx d 1 00",
        "0.3 1 200 Rx d 1 00",
    ]);
    let idx: Vec<usize> = log.frame_by_can_msg_id.iter().map(|k| k.idx).collect();
    assert_eq!(idx, vec![1, 2, 0]);
}

#[test]
fn direction_ordering_puts_rx_first() {
    let mut log = can_log_with_db();
    load(&mut log, &[
        "0.1 1 100 Tx d 1 00",
        "0.2 1 200 Rx d 1 00",
    ]);
    let idx: Vec<usize> = log.frame_by_direction.iter().map(|k| k.idx).collect();
    assert_eq!(idx, vec![1, 0]);
}

#[test]
fn data_ordering_is_lexicographic() {
    let mut log = can_log_with_db();
    load(&mut log, &[
        "0.1 1 100 Rx d 1 FF",
        "0.2 1 200 Rx d 1 0A",
        "0.3 1 300 Rx d 2 0A 00",
    ]);
    let idx: Vec<usize> = log.frame_by_can_data.iter().map(|k| k.idx).collect();
    // "0A" < "0A 00" < "FF"
    assert_eq!(idx, vec![1, 2, 0]);
}

#[test]
fn protocol_ordering_ranks_short_payloads_first() {
    let mut log = can_log_with_db();
    let long_line = format!("0.1 1 100 Rx d 12 {}", vec!["00"; 12].join(" "));
    load(&mut log, &[
        long_line.as_str(),
        "0.2 1 200 Rx d 8 00 00 00 00 00 00 00 00",
        "0.3 1 300 Rx d 2 00 00",
    ]);
    let idx: Vec<usize> = log.frame_by_can_protocol.iter().map(|k| k.idx).collect();
    assert_eq!(idx, vec![2, 1, 0]);
}

#[test]
fn resolved_names_sort_before_unresolved() {
    let mut log = can_log_with_db();
    load(&mut log, &[
        "0.1 1 999 Rx d 1 00",
        "0.2 1 17334410x Rx d 8 3E 42 03 00 39 00 03 01",
    ]);
    // the frame with a resolved message name ranks before the unresolved one
    let idx: Vec<usize> = log.frame_by_can_msg_name.iter().map(|k| k.idx).collect();
    assert_eq!(idx, vec![1, 0]);
    let idx: Vec<usize> = log.frame_by_can_sender_node.iter().map(|k| k.idx).collect();
    assert_eq!(idx, vec![1, 0]);
    let idx: Vec<usize> = log.frame_by_can_comment.iter().map(|k| k.idx).collect();
    assert_eq!(idx, vec![1, 0]);
}

#[test]
fn latest_per_pair_keeps_last_occurrence_per_channel() {
    let mut log = can_log_with_db();
    log.channel_map.insert(
        2,
        ChannelInfo { number: 2, tipo: ChannelType::Can, database: None },
    );
    load(&mut log, &[
        "0.1 1 100 Rx d 1 00",
        "0.2 2 100 Rx d 1 00",
        "0.3 1 100 Rx d 1 00",
        "0.4 1 200 Rx d 1 00",
    ]);
    let idx: Vec<usize> = log.id_chn_by_timestamp.iter().map(|k| k.idx).collect();
    // pair (0x100, ch1) keeps its last occurrence; (0x100, ch2) and
    // (0x200, ch1) each appear once
    assert_eq!(idx, vec![1, 2, 3]);
}
