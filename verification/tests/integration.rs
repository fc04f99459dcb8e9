use zfmt::elf::{parse_event_entry_bytes, parse_string_entry_bytes};
use zfmt::schema::{string_entry, FieldDef, FieldKind, Scalar, Schema};

#[test]
fn event_and_string_round_trip() {
    let bc: &[u8] = &[0x20, 0x08, 0x51, 0x07, 0x00];
    let mut raw = Vec::new();
    raw.extend_from_slice(&0xdeadbeefu32.to_le_bytes());
    raw.extend_from_slice(&0u32.to_le_bytes());
    raw.extend_from_slice(&0xcafe000000000001u64.to_le_bytes());
    raw.extend_from_slice(&0x1234abcdu32.to_le_bytes());
    raw.extend_from_slice(&0u32.to_le_bytes());
    raw.extend_from_slice(&(bc.len() as u32).to_le_bytes());
    raw.extend_from_slice(bc);
    while raw.len() % 4 != 0 {
        raw.push(0);
    }
    let e = parse_event_entry_bytes(&raw).unwrap();
    assert_eq!(e.tag, 0xdeadbeef);
    assert_eq!(e.full_hash, 0xcafe000000000001);
    assert_eq!(e.format_hash, 0x1234abcd);
    assert_eq!(e.bytecode, bc);

    let mut sraw = Vec::new();
    let content = b"hello {x}";
    sraw.extend_from_slice(&0xabcd1234u32.to_le_bytes());
    sraw.extend_from_slice(&(content.len() as u16).to_le_bytes());
    sraw.extend_from_slice(&0u16.to_le_bytes());
    sraw.extend_from_slice(content);
    while sraw.len() % 4 != 0 {
        sraw.push(0);
    }
    let s = parse_string_entry_bytes(&sraw).unwrap();
    assert_eq!(s.hash, 0xabcd1234);
    assert_eq!(s.content, "hello {x}");
}

#[test]
fn derived_entries_parse_back() {
    let schema = Schema::record(
        "Counter",
        Some("count={count}"),
        vec![FieldDef { name: "count".to_owned(), kind: FieldKind::Scalar(Scalar::U32) }],
    )
    .unwrap();
    let e = parse_event_entry_bytes(&schema.entry_bytes()).unwrap();
    assert_eq!(e.tag, schema.tag());
    assert_eq!(e.full_hash, schema.full_hash());
    assert_eq!(e.format_hash, schema.format_hash());
    assert_eq!(e.bytecode, schema.bytecode());
    assert_eq!(schema.bytecode(), vec![0x18, 0x00]);

    let s = parse_string_entry_bytes(&string_entry("count={count}")).unwrap();
    assert_eq!(s.hash, schema.format_hash());
    assert_eq!(s.content, "count={count}");
}
