use zfmt::db::Db;
use zfmt::decode::{decode_leb128, decode_stream, DecodeConfig, Decoded, Output, Warning, TAG_EVENT_HEADER, TAG_STREAM_START};
use zfmt::display::{assemble, Piece};
use zfmt::elf::{EventEntry, StringEntry};

fn format_float(v: f64, precision: Option<u8>) -> String {
    if v.is_nan() {
        return "NaN".to_owned();
    }
    if v.is_infinite() {
        return if v > 0.0 { "inf" } else { "-inf" }.to_owned();
    }
    let prec = precision.map(|p| p as usize).unwrap_or(6);
    let neg = v < 0.0;
    let abs = if neg { -v } else { v };
    let scale = 10u64.saturating_pow(prec as u32) as f64;
    let int_part = abs as u64;
    let frac_raw = ((abs - int_part as f64) * scale + 0.5) as u64;
    let (int_final, frac_final) = if frac_raw >= scale as u64 { (int_part + 1, 0u64) } else { (int_part, frac_raw) };
    let sign = if neg { "-" } else { "" };
    if prec == 0 {
        format!("{sign}{int_final}")
    } else {
        format!("{sign}{int_final}.{frac_final:0>prec$}")
    }
}

/// The printed lines of a decode, one per line output.
fn lines(d: &Decoded) -> String {
    let mut s = String::new();
    for o in &d.outputs {
        if let Output::Line(chunks) = o {
            let mut floats: Vec<Vec<u8>> = Vec::new();
            for c in chunks {
                for p in &c.pieces {
                    match p {
                        Piece::Float { bits, wide, precision } => {
                            let v = if *wide { f64::from_bits(*bits) } else { f32::from_bits(*bits as u32) as f64 };
                            floats.push(format_float(v, *precision).into_bytes());
                        }
                        Piece::Seconds { ticks, rate, precision } => {
                            floats.push(format_float(*ticks as f64 / *rate as f64, *precision).into_bytes());
                        }
                        Piece::Text(_) => {}
                    }
                }
            }
            s.push_str(&String::from_utf8(assemble(chunks, &floats).unwrap()).unwrap());
            s.push('\n');
        }
    }
    s
}

fn header_db(fmt_hash: u32, bytecode: Vec<u8>) -> Db {
    let mut db = Db::memory();
    db.ingest(
        &[EventEntry { tag: TAG_EVENT_HEADER, full_hash: TAG_EVENT_HEADER as u64, format_hash: fmt_hash, bytecode }],
        &[StringEntry { hash: fmt_hash, content: "{timestamp} {severity}".to_owned() }],
        0,
    )
    .unwrap();
    db
}

fn stream_start_payload(tick_rate_hz: u64, protocol_version: u16) -> Vec<u8> {
    let mut p = vec![0u8; 20];
    p[..2].copy_from_slice(&protocol_version.to_le_bytes());
    p[4..8].copy_from_slice(&(tick_rate_hz as u32).to_le_bytes());
    p[8..12].copy_from_slice(&((tick_rate_hz >> 32) as u32).to_le_bytes());
    p
}

fn event_header_payload(timestamp_ticks: u64, severity: u8, seq: u32) -> Vec<u8> {
    let mut p = vec![0u8; 12];
    p[..4].copy_from_slice(&(timestamp_ticks as u32).to_le_bytes());
    p[4..8].copy_from_slice(&((timestamp_ticks >> 32) as u32).to_le_bytes());
    p[8] = severity;
    p[9] = (seq & 0xFF) as u8;
    p[10] = ((seq >> 8) & 0xFF) as u8;
    p[11] = ((seq >> 16) & 0xFF) as u8;
    p
}

fn frame(tag: u32, payload: &[u8]) -> Vec<u8> {
    let mut v = tag.to_le_bytes().to_vec();
    let mut n = payload.len() as u64;
    loop {
        let b = (n & 0x7f) as u8;
        n >>= 7;
        if n == 0 {
            v.push(b);
            break;
        } else {
            v.push(b | 0x80);
        }
    }
    v.extend_from_slice(payload);
    v
}

#[test]
fn decode_leb128_single_byte() {
    assert_eq!(decode_leb128(&[0x00]).unwrap(), (0, 1));
    assert_eq!(decode_leb128(&[0x10]).unwrap(), (16, 1));
    assert_eq!(decode_leb128(&[0x7f]).unwrap(), (127, 1));
}

#[test]
fn decode_leb128_multibyte() {
    assert_eq!(decode_leb128(&[0x80, 0x01]).unwrap(), (128, 2));
    assert_eq!(decode_leb128(&[0xAC, 0x02]).unwrap(), (300, 2));
}

#[test]
fn decode_leb128_truncated() {
    assert!(decode_leb128(&[0x80]).is_err());
}

#[test]
fn decode_empty_stream() {
    let db = Db::memory();
    assert!(decode_stream(&[], &[db.table()], &DecodeConfig::default()).result.is_ok());
}

#[test]
fn decode_known_event_end_only() {
    let mut db = Db::memory();
    let tag: u32 = 0x12345678;
    db.ingest(&[EventEntry { tag, full_hash: tag as u64, format_hash: 0, bytecode: vec![0x00] }], &[], 0).unwrap();
    let mut stream = tag.to_le_bytes().to_vec();
    stream.push(0x00);
    assert!(decode_stream(&stream, &[db.table()], &DecodeConfig::default()).result.is_ok());
}

#[test]
fn decode_event_with_format_string() {
    let mut db = Db::memory();
    let tag: u32 = 0xaabbccdd;
    let fmt_hash: u32 = 0x11223344;
    db.ingest(
        &[EventEntry { tag, full_hash: tag as u64, format_hash: fmt_hash, bytecode: vec![0x18, 0x00] }],
        &[StringEntry { hash: fmt_hash, content: "val={x}".to_owned() }],
        0,
    )
    .unwrap();
    let mut stream = tag.to_le_bytes().to_vec();
    stream.push(0x04);
    stream.extend_from_slice(&42u32.to_le_bytes());
    let d = decode_stream(&stream, &[db.table()], &DecodeConfig::default());
    assert!(d.result.is_ok());
    let s = lines(&d);
    assert!(s.contains("val=42"), "got: {s:?}");
}

#[test]
fn decode_captures_rendered_output() {
    let mut db = Db::memory();
    let tag: u32 = 0x11111111;
    let fmt_hash: u32 = 0x22222222;
    db.ingest(
        &[EventEntry { tag, full_hash: tag as u64, format_hash: fmt_hash, bytecode: vec![0x4b, 0x00] }],
        &[StringEntry { hash: fmt_hash, content: "{msg}".to_owned() }],
        0,
    )
    .unwrap();
    let mut payload = vec![5u8];
    payload.extend_from_slice(b"world");
    let mut stream = tag.to_le_bytes().to_vec();
    stream.push(payload.len() as u8);
    stream.extend_from_slice(&payload);
    let d = decode_stream(&stream, &[db.table()], &DecodeConfig::default());
    assert!(d.result.is_ok());
    assert_eq!(lines(&d).trim(), "[11111111] world");
}

#[test]
fn decode_stream_start_sets_tick_rate() {
    let db = header_db(0xaabb1234, vec![0x88, 0x08, 0x49, 0x03, 0x00]);
    let ss_frame = frame(TAG_STREAM_START, &stream_start_payload(1_000_000, 1));
    let hdr_payload = event_header_payload(2_000_000, 2, 0);
    let mut stream = ss_frame;
    stream.extend_from_slice(&frame(TAG_EVENT_HEADER, &hdr_payload));
    let d = decode_stream(&stream, &[db.table()], &DecodeConfig::default());
    assert!(d.result.is_ok());
    let s = lines(&d);
    assert!(s.contains("2.000000"), "expected scaled timestamp in: {s:?}");
    assert!(s.contains("2"), "expected severity in: {s:?}");
}

#[test]
fn decode_seq_gap_detected() {
    let db = header_db(0xbeef0001, vec![0x88, 0x08, 0x49, 0x03, 0x00]);
    let mut stream = frame(TAG_STREAM_START, &stream_start_payload(1_000_000, 2));
    stream.extend_from_slice(&frame(TAG_EVENT_HEADER, &event_header_payload(0, 2, 0)));
    stream.extend_from_slice(&frame(TAG_EVENT_HEADER, &event_header_payload(4, 2, 4)));
    let d = decode_stream(&stream, &[db.table()], &DecodeConfig::default());
    assert!(d.result.is_ok());
    let s = lines(&d);
    assert!(s.contains("[seq gap: ~3 events dropped]"), "expected gap annotation; got:\n{s}");
}

#[test]
fn decode_seq_no_gap_no_annotation() {
    let db = header_db(0xbeef0002, vec![0x88, 0x08, 0x49, 0x03, 0x00]);
    let mut stream = frame(TAG_STREAM_START, &stream_start_payload(1_000_000, 2));
    stream.extend_from_slice(&frame(TAG_EVENT_HEADER, &event_header_payload(0, 2, 0)));
    stream.extend_from_slice(&frame(TAG_EVENT_HEADER, &event_header_payload(1, 2, 1)));
    let d = decode_stream(&stream, &[db.table()], &DecodeConfig::default());
    let s = lines(&d);
    assert!(!s.contains("seq gap"), "unexpected gap annotation; got:\n{s}");
}

#[test]
fn decode_seq_v1_stream_no_tracking() {
    let db = header_db(0xbeef0003, vec![0x88, 0x08, 0x49, 0x03, 0x00]);
    let mut stream = frame(TAG_STREAM_START, &stream_start_payload(1_000_000, 1));
    stream.extend_from_slice(&frame(TAG_EVENT_HEADER, &event_header_payload(0, 2, 0)));
    stream.extend_from_slice(&frame(TAG_EVENT_HEADER, &event_header_payload(1, 2, 99)));
    let d = decode_stream(&stream, &[db.table()], &DecodeConfig::default());
    let s = lines(&d);
    assert!(!s.contains("seq gap"), "v1 stream should not produce gap annotations; got:\n{s}");
}

#[test]
fn decode_seq_wrap_detected() {
    let db = header_db(0xbeef0004, vec![0x88, 0x08, 0x49, 0x03, 0x00]);
    let mut stream = frame(TAG_STREAM_START, &stream_start_payload(1_000_000, 2));
    stream.extend_from_slice(&frame(TAG_EVENT_HEADER, &event_header_payload(0, 2, 0x00FF_FFFF)));
    stream.extend_from_slice(&frame(TAG_EVENT_HEADER, &event_header_payload(1, 2, 0)));
    let d = decode_stream(&stream, &[db.table()], &DecodeConfig::default());
    let s = lines(&d);
    assert!(!s.contains("seq gap"), "wrap should not be reported as gap; got:\n{s}");
}

#[test]
fn decode_event_header_no_stream_start_raw_ticks() {
    let db = header_db(0xccdd5678, vec![0x20, 0x08, 0x51, 0x07, 0x00]);
    let stream = frame(TAG_EVENT_HEADER, &event_header_payload(99_000, 3, 0));
    let d = decode_stream(&stream, &[db.table()], &DecodeConfig::default());
    assert!(d.result.is_ok());
    let s = lines(&d);
    assert!(s.contains("99000"), "expected raw ticks in: {s:?}");
}

#[test]
fn decode_config_fallback_tick_rate() {
    let db = header_db(0xfb010001, vec![0x88, 0x08, 0x49, 0x03, 0x00]);
    let stream = frame(TAG_EVENT_HEADER, &event_header_payload(1_000_000, 2, 0));
    let config = DecodeConfig { tick_rate_hz: 1_000_000, protocol_version: 1 };
    let d = decode_stream(&stream, &[db.table()], &config);
    let s = lines(&d);
    assert!(s.contains("1.000000"), "expected scaled timestamp from fallback config; got:\n{s}");
}

#[test]
fn decode_config_fallback_seq_tracking() {
    let db = header_db(0xfb020001, vec![0x88, 0x08, 0x49, 0x03, 0x00]);
    let mut stream = frame(TAG_EVENT_HEADER, &event_header_payload(0, 2, 0));
    stream.extend_from_slice(&frame(TAG_EVENT_HEADER, &event_header_payload(1, 2, 5)));
    let config = DecodeConfig { tick_rate_hz: 0, protocol_version: 2 };
    let d = decode_stream(&stream, &[db.table()], &config);
    let s = lines(&d);
    assert!(s.contains("[seq gap: ~4 events dropped]"), "expected gap annotation from fallback config; got:\n{s}");
}

#[test]
fn decode_unknown_tag_is_skipped_with_warning() {
    let db = Db::memory();
    let mut stream = frame(0x0bad_f00d, &[1, 2, 3]);
    stream.extend_from_slice(&frame(0x0bad_f00e, &[]));
    let d = decode_stream(&stream, &[db.table()], &DecodeConfig::default());
    assert!(d.result.is_ok());
    assert!(matches!(d.outputs[0], Output::Warn(Warning::UnknownTag { tag: 0x0bad_f00d, offset: 0, len: 3 })));
    assert!(matches!(d.outputs[1], Output::Warn(Warning::UnknownTag { tag: 0x0bad_f00e, offset: 8, len: 0 })));
}

#[test]
fn decode_trailing_bytes_warn() {
    let db = Db::memory();
    let d = decode_stream(&[1, 2, 3], &[db.table()], &DecodeConfig::default());
    assert!(d.result.is_ok());
    assert!(matches!(d.outputs[0], Output::Warn(Warning::TrailingBytes { count: 3, offset: 0 })));
}

#[test]
fn decode_unknown_frame_then_rest_matches_rest_alone() {
    let mut db = Db::memory();
    let tag: u32 = 0xaabbccdd;
    let fmt_hash: u32 = 0x11223344;
    db.ingest(
        &[EventEntry { tag, full_hash: tag as u64, format_hash: fmt_hash, bytecode: vec![0x18, 0x00] }],
        &[StringEntry { hash: fmt_hash, content: "val={x}".to_owned() }],
        0,
    )
    .unwrap();
    let mut rest = frame(tag, &42u32.to_le_bytes());
    rest.extend_from_slice(&frame(0x0bad_f00e, &[9]));
    rest.extend_from_slice(&[1, 2]);
    let unknown = frame(0x0bad_f00d, &[1, 2, 3]);
    let mut whole = unknown.clone();
    whole.extend_from_slice(&rest);

    let alone = decode_stream(&rest, &[db.table()], &DecodeConfig::default());
    let both = decode_stream(&whole, &[db.table()], &DecodeConfig::default());
    assert!(alone.result.is_ok() && both.result.is_ok());
    assert!(lines(&alone).ends_with("val=42\n"), "got: {:?}", lines(&alone));
    assert_eq!(lines(&both), lines(&alone));
    assert_eq!(both.outputs.len(), alone.outputs.len() + 1);
    assert!(matches!(both.outputs[0], Output::Warn(Warning::UnknownTag { tag: 0x0bad_f00d, offset: 0, len: 3 })));
    assert!(matches!(alone.outputs[1], Output::Warn(Warning::UnknownTag { tag: 0x0bad_f00e, offset: 9, len: 1 })));
    assert!(matches!(both.outputs[2], Output::Warn(Warning::UnknownTag { tag: 0x0bad_f00e, offset: 17, len: 1 })));
    assert!(matches!(alone.outputs[2], Output::Warn(Warning::TrailingBytes { count: 2, offset: 15 })));
    assert!(matches!(both.outputs[3], Output::Warn(Warning::TrailingBytes { count: 2, offset: 23 })));
}
