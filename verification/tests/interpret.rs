use zfmt::db::Db;
use zfmt::display::{assemble, parse_spec, render, Chunk, Piece};
use zfmt::elf::{EventEntry, StringEntry};
use zfmt::interpret::{interpret, EventTable, Value};

fn db() -> EventTable {
    Db::memory().table()
}

fn format_float(v: f64, precision: Option<u8>) -> String {
    if v.is_nan() {
        return "NaN".to_owned();
    }
    if v.is_infinite() {
        return if v > 0.0 { "inf" } else { "-inf" }.to_owned();
    }
    let prec = precision.map(|p| p as usize).unwrap_or(6);
    let neg = v < 0.0;
    let abs = if neg { -v } else { v };
    let scale = 10u64.saturating_pow(prec as u32) as f64;
    let int_part = abs as u64;
    let frac_raw = ((abs - int_part as f64) * scale + 0.5) as u64;
    let (int_final, frac_final) = if frac_raw >= scale as u64 { (int_part + 1, 0u64) } else { (int_part, frac_raw) };
    let sign = if neg { "-" } else { "" };
    if prec == 0 {
        format!("{sign}{int_final}")
    } else {
        format!("{sign}{int_final}.{frac_final:0>prec$}")
    }
}

fn text(chunks: &[Chunk]) -> String {
    let mut floats: Vec<Vec<u8>> = Vec::new();
    for c in chunks {
        for p in &c.pieces {
            match p {
                Piece::Float { bits, wide, precision } => {
                    let v = if *wide { f64::from_bits(*bits) } else { f32::from_bits(*bits as u32) as f64 };
                    floats.push(format_float(v, *precision).into_bytes());
                }
                Piece::Seconds { ticks, rate, precision } => {
                    floats.push(format_float(*ticks as f64 / *rate as f64, *precision).into_bytes());
                }
                Piece::Text(_) => {}
            }
        }
    }
    String::from_utf8(assemble(chunks, &floats).unwrap()).unwrap()
}

fn show(c: Chunk) -> String {
    text(&[c])
}

fn leb(n: u32) -> Vec<u8> {
    let mut v = Vec::new();
    let mut x = n as u64;
    loop {
        let b = (x & 0x7f) as u8;
        x >>= 7;
        if x == 0 {
            v.push(b);
            break;
        } else {
            v.push(b | 0x80);
        }
    }
    v
}

#[test]
fn display_integers() {
    assert_eq!(show(Value::U32(42).display_default()), "42");
    assert_eq!(show(Value::I32(-7).display_default()), "-7");
    assert_eq!(show(Value::Bool(true).display_default()), "true");
}

#[test]
fn display_hex() {
    let spec = parse_spec("08x").unwrap();
    assert_eq!(show(Value::U32(0xab).display_spec(&spec)), "000000ab");
}

#[test]
fn display_hex_alternate() {
    let spec = parse_spec("#x").unwrap();
    assert_eq!(show(Value::U32(255).display_spec(&spec)), "0xff");
}

#[test]
fn display_right_align() {
    let spec = parse_spec(">6").unwrap();
    assert_eq!(show(Value::U32(42).display_spec(&spec)), "    42");
}

#[test]
fn display_left_align() {
    let spec = parse_spec("<6").unwrap();
    assert_eq!(show(Value::U32(42).display_spec(&spec)), "42    ");
}

#[test]
fn interpret_single_u64() {
    let bc = &[0x20, 0x00];
    let payload = 12345u64.to_le_bytes();
    let vals = interpret(bc, &payload, &db()).unwrap();
    assert_eq!(vals.len(), 1);
    assert!(matches!(vals[0], Value::U64(12345)));
}

#[test]
fn interpret_skip() {
    let bc = &[0x08, 0x51, 0x03, 0x08, 0x00];
    let payload = &[0xaau8, 0x00, 0x00, 0x00, 0xbb];
    let vals = interpret(bc, payload, &db()).unwrap();
    assert_eq!(vals.len(), 2);
    assert!(matches!(vals[0], Value::U8(0xaa)));
    assert!(matches!(vals[1], Value::U8(0xbb)));
}

#[test]
fn interpret_utf8_var_length() {
    let bc = &[0x4b, 0x00];
    let mut payload = vec![5u8];
    payload.extend_from_slice(b"hello");
    let vals = interpret(bc, &payload, &db()).unwrap();
    assert_eq!(vals.len(), 1);
    assert!(matches!(&vals[0], Value::Str(s) if s == b"hello"));
}

#[test]
fn interpret_utf8_fixed_array() {
    let bc = &[0x49, 0x05, 0x00];
    let payload = b"world";
    let vals = interpret(bc, payload, &db()).unwrap();
    assert_eq!(vals.len(), 1);
    assert!(matches!(&vals[0], Value::Str(s) if s == b"world"));
}

#[test]
fn interpret_u32_fixed_array() {
    let bc = &[0x19, 0x02, 0x00];
    let mut payload = Vec::new();
    payload.extend_from_slice(&1u32.to_le_bytes());
    payload.extend_from_slice(&2u32.to_le_bytes());
    let vals = interpret(bc, &payload, &db()).unwrap();
    assert_eq!(vals.len(), 1);
    assert!(matches!(&vals[0], Value::Array(a) if a.len() == 2));
}

#[test]
fn interpret_bool() {
    let bc = &[0x68, 0x68, 0x00];
    let payload = &[1u8, 0u8];
    let vals = interpret(bc, payload, &db()).unwrap();
    assert!(matches!(vals[0], Value::Bool(true)));
    assert!(matches!(vals[1], Value::Bool(false)));
}

#[test]
fn interpret_event_header_payload() {
    let bc = &[0x88u8, 0x08, 0x51, 0x03, 0x00];
    let mut payload = vec![0u8; 12];
    payload[..4].copy_from_slice(&42u32.to_le_bytes());
    payload[4..8].copy_from_slice(&0u32.to_le_bytes());
    payload[8] = 2;
    let vals = interpret(bc, &payload, &db()).unwrap();
    assert_eq!(vals.len(), 2);
    assert!(matches!(vals[0], Value::U64(42)));
    assert!(matches!(vals[1], Value::U8(2)));
}

#[test]
fn interpret_u64_pair() {
    let bc = &[0x88u8, 0x00];
    let mut payload = vec![0u8; 8];
    payload[..4].copy_from_slice(&0xDEADBEEFu32.to_le_bytes());
    payload[4..8].copy_from_slice(&0x00000001u32.to_le_bytes());
    let vals = interpret(bc, &payload, &db()).unwrap();
    assert_eq!(vals.len(), 1);
    assert!(matches!(vals[0], Value::U64(0x00000001_DEADBEEFu64)));
}

#[test]
fn interpret_debug_message_payload() {
    let bc = &[0x4b, 0x00];
    let mut payload = vec![11u8];
    payload.extend_from_slice(b"hello world");
    let vals = interpret(bc, &payload, &db()).unwrap();
    assert_eq!(vals.len(), 1);
    assert!(matches!(&vals[0], Value::Str(s) if s == b"hello world"));
}

#[test]
fn interpret_render_basic() {
    let vals = vec![Value::U64(100), Value::U8(2)];
    let s = text(&render("{timestamp} {severity}", &vals).unwrap());
    assert_eq!(s, "100 2");
}

#[test]
fn render_literal_only() {
    let s = text(&render("hello world", &[]).unwrap());
    assert_eq!(s, "hello world");
}

#[test]
fn render_with_spec() {
    let vals = vec![Value::U32(0xdeadbeef)];
    let s = text(&render("{addr:#010x}", &vals).unwrap());
    assert_eq!(s, "0xdeadbeef");
}

#[test]
fn render_escaped_braces() {
    let s = text(&render("{{{}}}", &[Value::U32(42)]).unwrap());
    assert_eq!(s, "{42}");
}

#[test]
fn render_string_value() {
    let vals = vec![Value::Str(b"hi".to_vec())];
    let s = text(&render("{message}", &vals).unwrap());
    assert_eq!(s, "hi");
}

#[test]
fn render_too_few_values() {
    assert!(render("{a} {b}", &[Value::U32(1)]).is_err());
}

#[test]
fn interpret_string_ref_known() {
    let bc = &[0x80u8, 0x00];
    let hash: u32 = 0xDEAD_BEEF;
    let payload = hash.to_le_bytes();
    let mut db = Db::memory();
    db.ingest(&[], &[StringEntry { hash, content: "my label".to_owned() }], 0).unwrap();
    let vals = interpret(bc, &payload, &db.table()).unwrap();
    assert_eq!(vals.len(), 1);
    assert!(matches!(&vals[0], Value::Str(s) if s == b"my label"));
}

#[test]
fn interpret_string_ref_unknown() {
    let bc = &[0x80u8, 0x00];
    let hash: u32 = 0x1234_5678;
    let payload = hash.to_le_bytes();
    let vals = interpret(bc, &payload, &db()).unwrap();
    assert_eq!(vals.len(), 1);
    assert!(matches!(&vals[0], Value::Str(s) if String::from_utf8_lossy(s).contains("12345678")));
}

#[test]
fn interpret_dispatch_matching_variant() {
    let low_tag: u32 = 0x1111;
    let high_tag: u32 = 0x2222;
    let mut db = Db::memory();
    db.ingest(
        &[
            EventEntry { tag: low_tag, full_hash: low_tag as u64, format_hash: 0, bytecode: vec![0x08, 0x00] },
            EventEntry { tag: high_tag, full_hash: high_tag as u64, format_hash: 0, bytecode: vec![0x18, 0x00] },
        ],
        &[],
        0,
    )
    .unwrap();
    let mut bc = vec![0x70u8];
    bc.push(0x01);
    bc.push(0x00);
    bc.push(0x02);
    bc.push(0x00);
    bc.extend_from_slice(&leb(low_tag));
    bc.push(0x01);
    bc.extend_from_slice(&leb(high_tag));
    bc.push(0x00);
    let table = db.table();
    let payload_low = [0u8, 42u8];
    let vals = interpret(&bc, &payload_low, &table).unwrap();
    assert_eq!(vals.len(), 1);
    assert!(matches!(vals[0], Value::U8(42)));
    let mut payload_high = vec![1u8];
    payload_high.extend_from_slice(&0x0000_CAFEu32.to_le_bytes());
    let vals = interpret(&bc, &payload_high, &table).unwrap();
    assert_eq!(vals.len(), 1);
    assert!(matches!(vals[0], Value::U32(0xCAFE)));
}

#[test]
fn interpret_dispatch_unknown_discriminant() {
    let mut bc = vec![0x70u8];
    bc.push(0x01);
    bc.push(0x00);
    bc.push(0x01);
    bc.push(0x00);
    bc.extend(b"\x00");
    bc.push(0x00);
    let payload = [0x99u8];
    let vals = interpret(&bc, &payload, &db()).unwrap();
    assert_eq!(vals.len(), 1);
    assert!(matches!(&vals[0], Value::Str(s) if String::from_utf8_lossy(s).contains("153")));
}

#[test]
fn interpret_call() {
    let callee_bc = vec![0x18u8, 0x00];
    let callee_tag: u32 = 0xabcd;
    let mut db = Db::memory();
    db.ingest(
        &[EventEntry { tag: callee_tag, full_hash: callee_tag as u64, format_hash: 0, bytecode: callee_bc }],
        &[],
        0,
    )
    .unwrap();
    let mut caller_bc = vec![0x78u8];
    caller_bc.extend_from_slice(&leb(callee_tag));
    caller_bc.push(0x00);
    let payload = 777u32.to_le_bytes();
    let vals = interpret(&caller_bc, &payload, &db.table()).unwrap();
    assert_eq!(vals.len(), 1);
    assert!(matches!(vals[0], Value::U32(777)));
}

#[test]
fn display_fourcc_all_printable() {
    let spec = parse_spec("c").unwrap();
    assert_eq!(show(Value::U32(0x46464952).display_spec(&spec)), "RIFF");
}

#[test]
fn display_fourcc_space_printable() {
    let spec = parse_spec("c").unwrap();
    assert_eq!(show(Value::U32(0x20495641).display_spec(&spec)), "AVI ");
}

#[test]
fn display_fourcc_non_printable_escape() {
    let spec = parse_spec("c").unwrap();
    assert_eq!(show(Value::U32(0x46494600).display_spec(&spec)), r"\x00FIF");
}

#[test]
fn display_fourcc_high_byte_escape() {
    let spec = parse_spec("c").unwrap();
    assert_eq!(show(Value::U32(0xFF464952).display_spec(&spec)), r"RIF\xff");
}

#[test]
fn display_fourcc_u8() {
    let spec = parse_spec("c").unwrap();
    assert_eq!(show(Value::U8(b'R').display_spec(&spec)), "R");
    assert_eq!(show(Value::U8(0x00).display_spec(&spec)), r"\x00");
}

#[test]
fn interpret_truncated_payload_is_an_error() {
    assert!(interpret(&[0x20, 0x00], &[1, 2, 3], &db()).is_err());
}

#[test]
fn display_float_pieces_carry_bits() {
    let c = Value::F64(1.5f64.to_bits()).display_default();
    assert_eq!(show(c), "1.500000");
}

#[test]
fn display_nested_array_shows_its_elements() {
    let v = Value::Array(vec![Value::U8(1), Value::Array(vec![Value::U8(2), Value::U8(3)]), Value::Array(vec![])]);
    assert_eq!(show(v.display_default()), "[1, [2, 3], []]");
}

#[test]
fn interpret_utf8_keeps_valid_text_and_replaces_invalid_bytes() {
    let bc = &[0x4b, 0x00];
    let text = "h\u{e9}llo \u{2713}".as_bytes();
    let mut payload = vec![text.len() as u8];
    payload.extend_from_slice(text);
    let vals = interpret(bc, &payload, &db()).unwrap();
    assert!(matches!(&vals[0], Value::Str(s) if s == text));
    let bad = [0x61u8, 0xff, 0x62];
    let mut payload = vec![3u8];
    payload.extend_from_slice(&bad);
    let vals = interpret(bc, &payload, &db()).unwrap();
    assert!(matches!(&vals[0], Value::Str(s) if s == "a\u{fffd}b".as_bytes()));
}
