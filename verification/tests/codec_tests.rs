use lob_engine::fix_engine::FixEngine;
use lob_engine::state::SessionState;
use lob_engine::wire::{find_tag_value, parse_u64};
use lob_engine::fix_parse::{parse_price5, parse_qty, extract_tag_u64, split_messages};
use lob_engine::id_gen::IdGenerator;

fn tag(msg: &[u8], t: u64) -> Vec<u8> {
    find_tag_value(msg, t).expect("tag missing")
}

/// Checks tag 9 against the byte count between the separator ending the
/// BodyLength field and the separator preceding the checksum field, and
/// tag 10 against the byte sum before the checksum field, modulo 256.
fn assert_well_framed(msg: &[u8]) {
    let v9 = tag(msg, 9);
    let body_len = parse_u64(&v9).expect("BodyLength not numeric") as usize;
    let body_start = 10 + 2 + v9.len() + 1;
    let trailer_start = msg.len() - 7;
    assert_eq!(trailer_start - body_start, body_len);
    assert_eq!(&msg[trailer_start..trailer_start + 3], b"10=");
    assert_eq!(msg[msg.len() - 1], 1u8);
    let sum: u64 = msg[..trailer_start].iter().map(|&b| b as u64).sum();
    let v10 = tag(msg, 10);
    assert_eq!(v10.len(), 3);
    let parsed = parse_u64(&v10).expect("checksum not numeric");
    assert_eq!(parsed, sum % 256);
}

#[test]
fn logon_frame_has_correct_body_length_and_checksum() {
    let engine = FixEngine::new();
    let mut buf: Vec<u8> = Vec::new();
    engine.build_logon_at(
        &mut buf, b"demo.broker.12345", b"cserver", b"QUOTE", b"pw123",
        b"20240101-00:00:00");
    assert_well_framed(&buf);
}

#[test]
fn order_frame_has_correct_body_length_and_checksum() {
    let engine = FixEngine::new();
    let mut buf: Vec<u8> = Vec::new();
    engine.build_order_request_at(
        &mut buf, b"demo.broker.12345", b"cserver", 7, b"ID-1", b"EURUSD",
        '1', 1000, b"20240101-00:00:00");
    assert_well_framed(&buf);
}

#[test]
fn heartbeat_and_market_data_request_frames() {
    let engine = FixEngine::new();
    let mut hb: Vec<u8> = Vec::new();
    engine.build_heartbeat_at(&mut hb, b"s.1", b"t", 42, b"20240101-00:00:00");
    assert_well_framed(&hb);
    assert_eq!(tag(&hb, 34), b"42".to_vec());
    assert_eq!(tag(&hb, 35), b"0".to_vec());

    let mut md: Vec<u8> = Vec::new();
    engine.build_market_data_request_at(&mut md, b"s.1", b"t", 2, b"EURUSD",
        b"20240101-00:00:00");
    assert_well_framed(&md);
    assert_eq!(tag(&md, 35), b"V".to_vec());
    assert_eq!(tag(&md, 262), b"REQ_GAUSS_01".to_vec());
    assert_eq!(tag(&md, 263), b"1".to_vec());
    assert_eq!(tag(&md, 264), b"0".to_vec());
    assert_eq!(tag(&md, 265), b"1".to_vec());
    assert_eq!(tag(&md, 267), b"2".to_vec());
    assert_eq!(tag(&md, 269), b"0".to_vec()); // first of the repeating group
    assert_eq!(tag(&md, 146), b"1".to_vec());
    assert_eq!(tag(&md, 55), b"EURUSD".to_vec());
}

#[test]
fn logon_round_trip() {
    let engine = FixEngine::new();
    let mut buf: Vec<u8> = Vec::new();
    engine.build_logon_at(
        &mut buf, b"demo.broker.12345", b"cserver", b"QUOTE", b"pw123",
        b"20240101-00:00:00");
    assert_eq!(tag(&buf, 35), b"A".to_vec());
    assert_eq!(tag(&buf, 49), b"demo.broker.12345".to_vec());
    assert_eq!(tag(&buf, 56), b"cserver".to_vec());
    assert_eq!(tag(&buf, 50), b"QUOTE".to_vec());
    assert_eq!(tag(&buf, 57), b"QUOTE".to_vec());
    assert_eq!(tag(&buf, 108), b"30".to_vec());
    assert_eq!(tag(&buf, 554), b"pw123".to_vec());
    assert_eq!(tag(&buf, 141), b"Y".to_vec());
    assert_eq!(tag(&buf, 553), b"12345".to_vec()); // account from the sender id
    assert_eq!(tag(&buf, 98), b"0".to_vec());
    assert_eq!(tag(&buf, 34), b"1".to_vec());
}

#[test]
fn order_round_trip() {
    let engine = FixEngine::new();
    let mut buf: Vec<u8> = Vec::new();
    engine.build_order_request_at(
        &mut buf, b"demo.broker.12345", b"cserver", 9, b"ID-XYZ", b"EURUSD",
        '1', 1000, b"20240101-00:00:00");
    assert_eq!(tag(&buf, 35), b"D".to_vec());
    assert_eq!(tag(&buf, 11), b"ID-XYZ".to_vec());
    assert_eq!(tag(&buf, 55), b"EURUSD".to_vec());
    assert_eq!(tag(&buf, 54), b"1".to_vec());
    assert_eq!(tag(&buf, 38), b"1000".to_vec());
    assert_eq!(tag(&buf, 40), b"1".to_vec());
    assert_eq!(tag(&buf, 59), b"1".to_vec());
    assert_eq!(tag(&buf, 21), b"1".to_vec());
}

#[test]
fn sequence_numbers_strictly_monotonic() {
    let mut session = SessionState::new();
    let engine = FixEngine::new();
    let mut prev: Option<u64> = None;
    for _ in 0..5 {
        let n = session.next_seq();
        let mut hb: Vec<u8> = Vec::new();
        engine.build_heartbeat_at(&mut hb, b"s.1", b"t", n, b"20240101-00:00:00");
        let stamped = parse_u64(&tag(&hb, 34)).unwrap();
        if let Some(p) = prev {
            assert!(stamped > p);
        }
        prev = Some(stamped);
    }
}

#[test]
fn self_stamped_logon_carries_a_clock_stamp() {
    let engine = FixEngine::new();
    let mut buf: Vec<u8> = Vec::new();
    engine.build_logon(&mut buf, b"demo.broker.12345", b"cserver", b"TRADE", b"pw123");
    assert_well_framed(&buf);
    let stamp = tag(&buf, 52);
    assert_eq!(stamp.len(), 17);
    assert_eq!(stamp[8], b'-');
    for &b in &stamp {
        assert!(b.is_ascii_digit() || b == b'-' || b == b':' || b == b'+');
    }
}

#[test]
fn client_order_ids_are_unique_and_well_formed() {
    let mut gen = IdGenerator::new();
    let id1 = gen.next_id();
    let id2 = gen.next_id();
    assert!(id1.starts_with(b"ID-"));
    assert!(id1.ends_with(b"-0001"));
    assert!(id2.ends_with(b"-0002"));
    assert_ne!(id1, id2);
    // ID-YYYYMMDD-HHMMSS-NNNN
    assert_eq!(id1.len(), 3 + 15 + 5);
}

#[test]
fn decimal_parsers_are_exact() {
    assert_eq!(parse_price5(b"1.10000"), Some(110000));
    assert_eq!(parse_price5(b"1.1"), Some(110000));
    assert_eq!(parse_price5(b"1"), Some(100000));
    assert_eq!(parse_price5(b"1.000005"), Some(100001)); // rounds half up
    assert_eq!(parse_price5(b"1.000004"), Some(100000));
    assert_eq!(parse_price5(b""), None);
    assert_eq!(parse_price5(b"abc"), None);
    assert_eq!(parse_price5(b"12345678"), None); // integer part too long
    assert_eq!(parse_qty(b"500"), Some(500));
    assert_eq!(parse_qty(b"1000.5"), Some(1001));
    assert_eq!(parse_qty(b"1000.4"), Some(1000));
    assert_eq!(parse_u64(b"18446744073709551615"), Some(u64::MAX));
    assert_eq!(parse_u64(b"18446744073709551616"), None); // overflow
}

#[test]
fn raw_stream_splits_into_whole_messages() {
    let mut raw: Vec<u8> = Vec::new();
    raw.extend_from_slice(b"8=FIX.4.4\x019=12\x0135=W\x01269=0\x0110=000\x01");
    raw.extend_from_slice(b"8=FIX.4.4\x019=12\x0135=X\x01279=2\x0110=001\x01");
    let msgs = split_messages(&raw);
    assert_eq!(msgs.len(), 2);
    assert_eq!(&msgs[0], b"\x019=12\x0135=W\x01269=0\x0110=000\x01");
    assert_eq!(&msgs[1], b"\x019=12\x0135=X\x01279=2\x0110=001\x01");
    // built messages split back into themselves
    let engine = FixEngine::new();
    let mut one: Vec<u8> = Vec::new();
    engine.build_heartbeat_at(&mut one, b"s.1", b"t", 3, b"20240101-00:00:00");
    let parts = split_messages(&one);
    assert_eq!(parts.len(), 1);
    assert_eq!(&one[9..], &parts[0][..]);
}

#[test]
fn first_occurrence_extraction() {
    let msg = b"|35=X|270=1.5|270=2.5|";
    assert_eq!(find_tag_value(msg, 270), Some(b"1.5".to_vec()));
    assert_eq!(find_tag_value(msg, 271), None);
    // tag 27 must not match inside "270="
    assert_eq!(find_tag_value(msg, 27), None);
    assert_eq!(extract_tag_u64(b"|39=8|", 39), Some(8));
}
