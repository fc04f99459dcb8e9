use std::cell::RefCell;
use zfmt::db::Db;
use zfmt::decode::{decode_stream, DecodeConfig, Output};
use zfmt::elf::{events_from_sections, strings_from_sections, ElfError, EventEntry, RawSection};
use zfmt::events::{DebugMessage, DroppedEvents, EventHeader, Severity};
use zfmt::format::ZfmtU64;
use zfmt::logger::Logger;
use zfmt::output::{bare_frame_head, send_bare_event, send_event, send_event_text};
use zfmt::testfw::Heartbeat;

struct Recorder {
    calls: RefCell<Vec<Vec<Vec<u8>>>>,
}

impl Logger for Recorder {
    fn timestamp(&self) -> ZfmtU64 {
        ZfmtU64::new(0, 0)
    }

    fn send_vectored(&self, bufs: &[&[u8]]) {
        self.calls.borrow_mut().push(bufs.iter().map(|b| b.to_vec()).collect());
    }
}

fn recorder() -> Recorder {
    Recorder { calls: RefCell::new(Vec::new()) }
}

#[test]
fn bare_event_goes_out_as_head_and_payload() {
    let logger = recorder();
    send_bare_event(&logger, &DroppedEvents { count: 42, _pad: [0; 4] });
    let calls = logger.calls.borrow();
    assert_eq!(calls.len(), 1);
    assert_eq!(calls[0].len(), 2);
    let mut head = DroppedEvents::ZFMT_TAG.to_le_bytes().to_vec();
    head.push(0x08);
    assert_eq!(calls[0][0], head);
    assert_eq!(calls[0][1], vec![42, 0, 0, 0, 0, 0, 0, 0]);
}

#[test]
fn event_text_goes_out_as_debug_message() {
    let logger = recorder();
    let hdr = EventHeader::new(ZfmtU64::new(5, 0), Severity::Info, 1);
    let whole = send_event_text(&logger, &hdr, &Heartbeat { timestamp: 1000, uptime_ms: 5000 });
    assert!(whole);
    let calls = logger.calls.borrow();
    assert_eq!(calls.len(), 1);
    let text = b"heartbeat ts=1000 up=5000ms";
    let mut payload = vec![text.len() as u8];
    payload.extend_from_slice(text);
    assert_eq!(calls[0][1], payload);
    let head = &calls[0][0];
    assert_eq!(&head[head.len() - 5..head.len() - 1], &DebugMessage::ZFMT_TAG.to_le_bytes()[..]);
}

#[test]
fn event_text_leaves_out_what_does_not_fit() {
    let logger = recorder();
    let hdr = EventHeader::new(ZfmtU64::new(0, 0), Severity::Info, 0);
    let long = "x".repeat(200);
    let whole = send_event_text(&logger, &hdr, &DebugMessage { message: &long });
    assert!(!whole);
    assert_eq!(logger.calls.borrow()[0][1], vec![0]);
}

#[test]
fn send_event_sends_two_slices() {
    let logger = recorder();
    let hdr = EventHeader::new(ZfmtU64::new(0, 0), Severity::Warn, 0);
    send_event(&logger, &hdr, &DroppedEvents { count: 1, _pad: [0; 4] });
    let calls = logger.calls.borrow();
    assert_eq!(calls[0].len(), 2);
    assert_eq!(calls[0][1], vec![1, 0, 0, 0, 0, 0, 0, 0]);
}

#[test]
fn unknown_frame_leaves_what_follows_unchanged() {
    let mut db = Db::memory();
    db.ingest(&[EventEntry { tag: 0x77, full_hash: 0xE_0000_0077, format_hash: 0, bytecode: vec![0x08, 0x00] }], &[], 1)
        .unwrap();
    let tables = [db.table()];
    let mut rest = bare_frame_head(0x77, 1);
    rest.push(9);
    let mut data = bare_frame_head(0xdead_beef, 4);
    data.extend_from_slice(&[1, 2, 3, 4]);
    data.extend_from_slice(&rest);
    let alone = decode_stream(&rest, &tables, &DecodeConfig::default());
    let both = decode_stream(&data, &tables, &DecodeConfig::default());
    assert_eq!(both.outputs.len(), alone.outputs.len() + 1);
    assert!(matches!(both.outputs[0], Output::Warn(_)));
    assert_eq!(format!("{:?}", &both.outputs[1..]), format!("{:?}", &alone.outputs[..]));
    assert_eq!(both.result, alone.result);
}

#[test]
fn entries_come_from_the_named_sections_only() {
    let schema = zfmt::schema::Schema::record(
        "Tick",
        Some("n={n}"),
        vec![zfmt::schema::FieldDef { name: "n".to_owned(), kind: zfmt::schema::FieldKind::Scalar(zfmt::schema::Scalar::U32) }],
    )
    .unwrap();
    let secs = vec![
        RawSection { name: Some(b".text".to_vec()), data: None },
        RawSection { name: Some(b".zfmt_events.1".to_vec()), data: Some(schema.entry_bytes()) },
        RawSection { name: Some(b".zfmt_strings.2".to_vec()), data: Some(zfmt::schema::string_entry("n={n}")) },
    ];
    let events = events_from_sections(&secs).unwrap();
    assert_eq!(events.len(), 1);
    assert_eq!((events[0].tag, events[0].full_hash, events[0].format_hash), (schema.tag(), schema.full_hash(), schema.format_hash()));
    assert_eq!(events[0].bytecode, schema.bytecode());
    let strings = strings_from_sections(&secs).unwrap();
    assert_eq!(strings.len(), 1);
    assert_eq!(strings[0].content, "n={n}");
    let unnamed = vec![RawSection { name: None, data: None }];
    assert_eq!(events_from_sections(&unnamed).unwrap_err(), ElfError::SectionName(0));
}
