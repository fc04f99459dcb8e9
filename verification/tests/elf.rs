use zfmt::elf::{parse_event_entry_bytes, parse_events, parse_string_entry_bytes, EntryError, ElfError};

fn event_bytes(tag: u32, full_hash: u64, format_hash: u32, bytecode: &[u8]) -> Vec<u8> {
    let mut v = Vec::new();
    v.extend_from_slice(&tag.to_le_bytes());
    v.extend_from_slice(&0u32.to_le_bytes());
    v.extend_from_slice(&full_hash.to_le_bytes());
    v.extend_from_slice(&format_hash.to_le_bytes());
    v.extend_from_slice(&0u32.to_le_bytes());
    v.extend_from_slice(&(bytecode.len() as u32).to_le_bytes());
    v.extend_from_slice(bytecode);
    while v.len() % 4 != 0 {
        v.push(0);
    }
    v
}

fn string_bytes(hash: u32, content: &str) -> Vec<u8> {
    let b = content.as_bytes();
    let mut v = Vec::new();
    v.extend_from_slice(&hash.to_le_bytes());
    v.extend_from_slice(&(b.len() as u16).to_le_bytes());
    v.extend_from_slice(&0u16.to_le_bytes());
    v.extend_from_slice(b);
    while v.len() % 4 != 0 {
        v.push(0);
    }
    v
}

#[test]
fn round_trip_event_entry() {
    let bc = &[0x20u8, 0x08, 0x51, 0x07, 0x00];
    let raw = event_bytes(0xdeadbeef, 0xcafe000000000001, 0x1234abcd, bc);
    let e = parse_event_entry_bytes(&raw).unwrap();
    assert_eq!(e.tag, 0xdeadbeef);
    assert_eq!(e.full_hash, 0xcafe000000000001);
    assert_eq!(e.format_hash, 0x1234abcd);
    assert_eq!(e.bytecode, bc);
}

#[test]
fn round_trip_string_entry() {
    let raw = string_bytes(0xabcd1234, "hello world");
    let s = parse_string_entry_bytes(&raw).unwrap();
    assert_eq!(s.hash, 0xabcd1234);
    assert_eq!(s.content, "hello world");
}

#[test]
fn event_entry_too_short() {
    assert!(parse_event_entry_bytes(&[0u8; 4]).is_err());
}

#[test]
fn string_entry_too_short() {
    assert!(parse_string_entry_bytes(&[0u8; 4]).is_err());
}

#[test]
fn event_entry_truncated_bytecode() {
    let bc = &[0x20u8, 0x08, 0x00];
    let mut raw = event_bytes(1, 1, 0, bc);
    let bc_len_offset = 24usize;
    raw[bc_len_offset..bc_len_offset + 4].copy_from_slice(&100u32.to_le_bytes());
    assert!(parse_event_entry_bytes(&raw).is_err());
}

#[test]
fn string_entry_invalid_utf8() {
    let mut raw = string_bytes(1, "ok");
    raw[8] = 0xff;
    raw[9] = 0xfe;
    assert!(parse_string_entry_bytes(&raw).is_err());
}

#[test]
fn event_entry_ignores_tail_padding() {
    let raw = event_bytes(1, 2, 3, &[0x00u8]);
    let e = parse_event_entry_bytes(&raw).unwrap();
    assert_eq!(e.bytecode, &[0x00u8]);
}

#[test]
fn entry_errors_carry_lengths() {
    assert_eq!(
        parse_event_entry_bytes(&[0u8; 4]).unwrap_err(),
        EntryError::TooShort { len: 4, need: 28 }
    );
    let mut raw = string_bytes(1, "ok");
    raw[8] = 0xff;
    assert_eq!(parse_string_entry_bytes(&raw).unwrap_err(), EntryError::NotUtf8);
}

#[test]
fn parse_events_refuses_non_object() {
    assert!(matches!(parse_events(b"not an object file"), Err(ElfError::NotAnObject)));
}
