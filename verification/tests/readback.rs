use zfmt::db::{BuildRecord, Db, DbError};
use zfmt::decode::{decode_stream, DecodeConfig, Output, Warning};
use zfmt::derived::{EventValue, FieldValue};
use zfmt::elf::{EventEntry, StringEntry};
use zfmt::interpret::{interpret, EventTable, Value};
use zfmt::output::bare_frame_head;
use zfmt::schema::{FieldDef, FieldKind, Scalar, Schema};

fn f(name: &str, kind: FieldKind) -> FieldDef {
    FieldDef { name: name.to_owned(), kind }
}

fn evt(tag: u32, fh: u64) -> EventEntry {
    EventEntry { tag, full_hash: fh, format_hash: 0, bytecode: vec![0x00] }
}

#[test]
fn interpreter_reads_back_serialized_fields() {
    let schema = Schema::record(
        "Mixed",
        None,
        vec![
            f("a", FieldKind::Scalar(Scalar::U8)),
            f("_gap", FieldKind::Array(Scalar::U8, 1)),
            f("b", FieldKind::Scalar(Scalar::U16)),
            f("c", FieldKind::Scalar(Scalar::I32)),
            f("d", FieldKind::Array(Scalar::U16, 2)),
            f("e", FieldKind::Scalar(Scalar::Bool)),
            f("name", FieldKind::Str),
            f("h", FieldKind::StrRef),
        ],
    )
    .unwrap();
    let ev = EventValue::new(
        schema,
        vec![
            FieldValue::U8(7),
            FieldValue::Bytes(vec![0xEE]),
            FieldValue::U16(0x1234),
            FieldValue::I32(-5),
            FieldValue::Bytes(vec![1, 0, 2, 1]),
            FieldValue::Bool(true),
            FieldValue::Str("hi"),
            FieldValue::StrRef(0xABCD),
        ],
    )
    .unwrap();
    let payload = ev.payload_bytes();
    let table = EventTable {
        events: vec![],
        strings: vec![StringEntry { hash: 0xABCD, content: "interned".to_owned() }],
    };
    let values = interpret(&ev.schema().bytecode(), &payload, &table).unwrap();
    assert_eq!(
        values,
        vec![
            Value::U8(7),
            Value::U16(0x1234),
            Value::I32(-5),
            Value::Array(vec![Value::U16(1), Value::U16(0x0102)]),
            Value::Bool(true),
            Value::Str(b"hi".to_vec()),
            Value::Str(b"interned".to_vec()),
        ]
    );
}

#[test]
fn verify_after_ingest_reports_nothing_missing() {
    let mut db = Db::memory();
    let events = vec![evt(0x30, 0xA_0000_0030), evt(0x10, 0xA_0000_0010), evt(0x20, 0xA_0000_0020)];
    db.ingest(&events, &[], 5).unwrap();
    assert!(db.verify(&events).unwrap().is_empty());
}

#[test]
fn ingest_keeps_entries_of_earlier_builds() {
    let mut db = Db::memory();
    db.ingest(&[evt(0x10, 0xB_0000_0010)], &[StringEntry { hash: 1, content: "one".to_owned() }], 1).unwrap();
    db.ingest(&[evt(0x20, 0xB_0000_0020)], &[StringEntry { hash: 2, content: "two".to_owned() }], 2).unwrap();
    let tags: Vec<(u32, u64)> = db.all_events().iter().map(|e| (e.tag, e.full_hash)).collect();
    assert_eq!(tags, vec![(0x10, 0xB_0000_0010), (0x20, 0xB_0000_0020)]);
    assert_eq!(db.lookup_string(1), Some("one".to_owned()));
    assert_eq!(db.lookup_string(2), Some("two".to_owned()));
}

#[test]
fn decoder_reads_frames_as_written() {
    let first: Vec<u8> = (0..200u8).collect();
    let second = vec![9u8, 8, 7];
    let mut data = bare_frame_head(0x1111_2222, first.len());
    data.extend_from_slice(&first);
    let second_at = data.len();
    data.extend_from_slice(&bare_frame_head(0x3333_4444, second.len()));
    data.extend_from_slice(&second);
    let d = decode_stream(&data, &[], &DecodeConfig::default());
    assert!(d.result.is_ok());
    assert_eq!(d.outputs.len(), 2);
    assert!(matches!(d.outputs[0], Output::Warn(Warning::UnknownTag { tag: 0x1111_2222, offset: 0, len: 200 })));
    assert!(matches!(d.outputs[1], Output::Warn(Warning::UnknownTag { tag: 0x3333_4444, offset, len: 3 }) if offset == second_at));
}

fn temp_reading() -> Schema {
    Schema::record(
        "TempReading",
        Some("celsius={c} sensor={s}"),
        vec![
            f("c", FieldKind::Scalar(Scalar::I16)),
            f("s", FieldKind::Scalar(Scalar::U8)),
            f("_pad", FieldKind::Scalar(Scalar::U8)),
        ],
    )
    .unwrap()
}

#[test]
fn interpreter_reads_back_nested_event_through_its_subroutine() {
    let inner_schema = temp_reading();
    let info = inner_schema.nested_info().unwrap();
    let outer = Schema::record(
        "SensorPacket",
        Some("seq={seq} temp={reading}"),
        vec![f("seq", FieldKind::Scalar(Scalar::U32)), f("reading", FieldKind::Nested(info))],
    )
    .unwrap();
    let inner = EventValue::new(temp_reading(), vec![FieldValue::I16(-3), FieldValue::U8(2), FieldValue::U8(0)]).unwrap();
    let ev = EventValue::new(outer, vec![FieldValue::U32(9), inner.as_field().unwrap()]).unwrap();
    let table = EventTable {
        events: vec![EventEntry {
            tag: inner_schema.tag(),
            full_hash: inner_schema.full_hash(),
            format_hash: inner_schema.format_hash(),
            bytecode: inner_schema.bytecode(),
        }],
        strings: vec![],
    };
    let values = interpret(&ev.schema().bytecode(), &ev.payload_bytes(), &table).unwrap();
    assert_eq!(values, vec![Value::U32(9), Value::I16(-3), Value::U8(2)]);
}

#[test]
fn as_field_carries_payload_and_text() {
    let inner = EventValue::new(temp_reading(), vec![FieldValue::I16(21), FieldValue::U8(4), FieldValue::U8(0)]).unwrap();
    match inner.as_field() {
        Some(FieldValue::Nested { bytes, text }) => {
            assert_eq!(bytes, vec![21, 0, 4, 0]);
            assert_eq!(text, "celsius=21 sensor=4");
        }
        _ => panic!("expected a nested value"),
    }
}

#[test]
fn as_field_is_none_when_text_cannot_be_rendered() {
    let schema = Schema::record("Level", Some("level={v}"), vec![f("v", FieldKind::Scalar(Scalar::F32))]).unwrap();
    let ev = EventValue::new(schema, vec![FieldValue::F32(0x3f80_0000)]).unwrap();
    assert!(ev.as_field().is_none());
}

#[test]
fn restore_gives_back_the_database() {
    let mut db = Db::memory();
    db.ingest_at(&[evt(0x20, 0xC_0000_0020), evt(0x10, 0xC_0000_0010)], &[StringEntry { hash: 7, content: "seven".to_owned() }], 3, 0)
        .unwrap();
    db.ingest_at(&[evt(0x30, 0xC_0000_0030)], &[], 4, 86_400).unwrap();
    let events = db.all_events();
    let strings = db.all_strings();
    let builds: Vec<BuildRecord> = db
        .builds()
        .iter()
        .map(|b| BuildRecord { build_id: b.build_id, ingested_at: b.ingested_at.clone() })
        .collect();
    let again = Db::restore(&events, &strings, builds).unwrap();
    let key = |d: &Db| -> Vec<(u32, u64)> { d.all_events().iter().map(|e| (e.tag, e.full_hash)).collect() };
    assert_eq!(key(&again), key(&db));
    assert_eq!(again.lookup_string(7), Some("seven".to_owned()));
    let ids: Vec<(u64, String)> = again.builds().iter().map(|b| (b.build_id, b.ingested_at.clone())).collect();
    assert_eq!(ids, vec![(3, "1970-01-01T00:00:00Z".to_owned()), (4, "1970-01-02T00:00:00Z".to_owned())]);
}

#[test]
fn ingest_refuses_same_full_hash_with_other_content() {
    let mut db = Db::memory();
    let first = EventEntry { tag: 0x44, full_hash: 0xD_0000_0044, format_hash: 1, bytecode: vec![0x18, 0x00] };
    db.ingest(&[first.clone()], &[], 1).unwrap();
    let other_code = EventEntry { bytecode: vec![0x20, 0x00], ..first.clone() };
    let other_format = EventEntry { format_hash: 2, ..first.clone() };
    for e in [other_code, other_format] {
        assert!(matches!(db.check(&[e.clone()], &[]), Err(DbError::ContentCollision { full_hash: 0xD_0000_0044, tag: 0x44 })));
        assert!(matches!(db.ingest(&[e], &[], 2), Err(DbError::ContentCollision { full_hash: 0xD_0000_0044, tag: 0x44 })));
    }
    assert_eq!(db.ingest(&[first], &[], 3).unwrap().events_skipped, 1);
    assert_eq!(db.all_events().len(), 1);
}
