use zfmt::derived::{EventValue, FieldValue, ValueError};
use zfmt::events::ZfmtEvent;
use zfmt::schema::{FieldDef, FieldKind, Scalar, Schema};

fn f(name: &str, kind: FieldKind) -> FieldDef {
    FieldDef { name: name.to_owned(), kind }
}

fn counter() -> Schema {
    Schema::record(
        "Counter",
        None,
        vec![
            f("count", FieldKind::Scalar(Scalar::U32)),
            f("value", FieldKind::Scalar(Scalar::I16)),
            f("_pad", FieldKind::Array(Scalar::U8, 2)),
        ],
    )
    .unwrap()
}

fn sensor() -> Schema {
    Schema::record(
        "Sensor",
        None,
        vec![
            f("timestamp", FieldKind::Scalar(Scalar::U64)),
            f("readings", FieldKind::Array(Scalar::I16, 4)),
            f("flags", FieldKind::Scalar(Scalar::U8)),
            f("_pad", FieldKind::Array(Scalar::U8, 7)),
        ],
    )
    .unwrap()
}

fn annotated() -> Schema {
    Schema::record(
        "Annotated",
        Some("count={count} value={value}"),
        vec![f("count", FieldKind::Scalar(Scalar::U32)), f("value", FieldKind::Scalar(Scalar::U32))],
    )
    .unwrap()
}

fn readings(r: [i16; 4]) -> Vec<u8> {
    r.iter().flat_map(|x| x.to_le_bytes()).collect()
}

#[test]
fn payload_size_equals_size_of() {
    let c = EventValue::new(counter(), vec![FieldValue::U32(1), FieldValue::I16(-1), FieldValue::Bytes(vec![0; 2])]).unwrap();
    assert_eq!(c.payload_size(), 8);
    let s = EventValue::new(
        sensor(),
        vec![
            FieldValue::U64(42),
            FieldValue::Bytes(readings([1, 2, 3, 4])),
            FieldValue::U8(0),
            FieldValue::Bytes(vec![0; 7]),
        ],
    )
    .unwrap();
    assert_eq!(s.payload_size(), 24);
}

#[test]
fn serialize_roundtrip() {
    let c = EventValue::new(
        counter(),
        vec![FieldValue::U32(0xDEAD_BEEF), FieldValue::I16(-1), FieldValue::Bytes(vec![0xAB, 0xCD])],
    )
    .unwrap();
    let buf = c.payload_bytes();
    assert_eq!(&buf[0..4], &0xDEAD_BEEFu32.to_le_bytes());
    assert_eq!(&buf[4..6], &(-1i16).to_le_bytes());
    assert_eq!(buf[6], 0xAB);
    assert_eq!(buf[7], 0xCD);
}

#[test]
fn tag_is_stable() {
    assert_ne!(counter().tag(), 0);
    assert_ne!(sensor().tag(), 0);
    assert_ne!(annotated().tag(), 0);
    assert_ne!(counter().tag(), sensor().tag());
    assert_ne!(counter().tag(), annotated().tag());
}

#[test]
fn full_hash_lower32_matches_tag() {
    assert_eq!(counter().tag(), counter().full_hash() as u32);
    assert_eq!(sensor().tag(), sensor().full_hash() as u32);
}

#[test]
fn sensor_serialize_roundtrip() {
    let s = EventValue::new(
        sensor(),
        vec![
            FieldValue::U64(0x0102_0304_0506_0708u64),
            FieldValue::Bytes(readings([10, -20, 30, -40])),
            FieldValue::U8(0xFF),
            FieldValue::Bytes(vec![0; 7]),
        ],
    )
    .unwrap();
    let buf = s.payload_bytes();
    assert_eq!(buf.len(), 24);
    assert_eq!(&buf[0..8], &0x0102_0304_0506_0708u64.to_le_bytes());
    assert_eq!(&buf[8..10], &10i16.to_le_bytes());
    assert_eq!(&buf[10..12], &(-20i16).to_le_bytes());
    assert_eq!(&buf[12..14], &30i16.to_le_bytes());
    assert_eq!(&buf[14..16], &(-40i16).to_le_bytes());
    assert_eq!(buf[16], 0xFF);
}

#[test]
fn tier1_bytecode_skips_padding() {
    assert_eq!(counter().bytecode(), vec![0x18, 0x30, 0x51, 0x02, 0x00]);
    assert_eq!(sensor().bytecode(), vec![0x20, 0x31, 0x04, 0x08, 0x51, 0x07, 0x00]);
    assert_eq!(
        counter().hash_input(),
        "struct Counter\nfield count u32\nfield value i16\n"
    );
    assert_eq!(sensor().hash_input(), "struct Sensor\nfield timestamp u64\nfield readings [i16; 4]\nfield flags u8\n");
}

#[test]
fn values_must_match_fields() {
    assert!(matches!(EventValue::new(counter(), vec![FieldValue::U32(1)]), Err(ValueError::Count)));
    assert!(matches!(
        EventValue::new(counter(), vec![FieldValue::U32(1), FieldValue::U16(1), FieldValue::Bytes(vec![0; 2])]),
        Err(ValueError::Mismatch { index: 1 })
    ));
}

#[test]
fn alignment_gap_is_zeroed_and_skipped() {
    let s = Schema::record(
        "Gap",
        None,
        vec![f("a", FieldKind::Scalar(Scalar::U8)), f("b", FieldKind::Scalar(Scalar::U32))],
    )
    .unwrap();
    assert_eq!(s.bytecode(), vec![0x08, 0x51, 0x03, 0x18, 0x00]);
    let ev = EventValue::new(s, vec![FieldValue::U8(1), FieldValue::U32(2)]).unwrap();
    assert_eq!(ev.payload_bytes(), vec![1, 0, 0, 0, 2, 0, 0, 0]);
}
