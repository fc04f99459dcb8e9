use zfmt::events::{DebugMessage, EventHeader, Severity};
use zfmt::format::{FormatInto, ZfmtStr};
use zfmt::schema::{FieldDef, FieldKind, Scalar, Schema};
use zfmt::testfw::{generate_test_stream, Alert, Heartbeat, NamedEvent, TempReading};
use zfmt::write::{Error, Write};

fn f(name: &str, kind: FieldKind) -> FieldDef {
    FieldDef { name: name.to_owned(), kind }
}

struct StrBuf(String);
impl Write for StrBuf {
    fn write_str(&mut self, s: &str) -> Result<(), Error> {
        self.0.push_str(s);
        Ok(())
    }
}

#[test]
fn fixture_tags_match_their_schemas() {
    let hb = Schema::record(
        "Heartbeat",
        Some("heartbeat ts={timestamp} up={uptime_ms}ms"),
        vec![f("timestamp", FieldKind::Scalar(Scalar::U64)), f("uptime_ms", FieldKind::Scalar(Scalar::U32))],
    )
    .unwrap();
    assert_eq!(hb.tag(), Heartbeat::ZFMT_TAG);
    assert_eq!(hb.full_hash(), Heartbeat::ZFMT_FULL_HASH);
    let tr = Schema::record(
        "TempReading",
        Some("temp celsius_x10={celsius_x10} sensor={sensor_id}"),
        vec![f("celsius_x10", FieldKind::Scalar(Scalar::I16)), f("sensor_id", FieldKind::Scalar(Scalar::U8))],
    )
    .unwrap();
    assert_eq!(tr.full_hash(), TempReading::ZFMT_FULL_HASH);
    let cr = Schema::variant("Alert", "Critical", Some("alert critical code={code}"), vec![f("code", FieldKind::Scalar(Scalar::U32))]).unwrap();
    assert_eq!(cr.full_hash(), Alert::CRITICAL_ZFMT_FULL_HASH);
    let wa = Schema::variant("Alert", "Warning", Some("alert warning"), vec![]).unwrap();
    assert_eq!(wa.full_hash(), Alert::WARNING_ZFMT_FULL_HASH);
    let ne = Schema::record(
        "NamedEvent",
        Some("named label={label} seq={seq}"),
        vec![f("label", FieldKind::StrRef), f("seq", FieldKind::Scalar(Scalar::U32))],
    )
    .unwrap();
    assert_eq!(ne.full_hash(), NamedEvent::ZFMT_FULL_HASH);
    assert_eq!(ne.tag(), NamedEvent::ZFMT_TAG);
}

#[test]
fn fixture_events_render() {
    let mut w = StrBuf(String::new());
    Heartbeat { timestamp: 1000, uptime_ms: 5000 }.format_into(&mut w).unwrap();
    assert_eq!(w.0, "heartbeat ts=1000 up=5000ms");
    let mut w = StrBuf(String::new());
    TempReading { celsius_x10: -5, sensor_id: 3 }.format_into(&mut w).unwrap();
    assert_eq!(w.0, "temp celsius_x10=-5 sensor=3");
    let mut w = StrBuf(String::new());
    NamedEvent { label: ZfmtStr::new(0xab), seq: 7 }.format_into(&mut w).unwrap();
    assert_eq!(w.0, "named label=0x000000ab seq=7");
}

#[test]
fn test_stream_frames() {
    let s = generate_test_stream();
    let tag = |at: usize| u32::from_le_bytes(s[at..at + 4].try_into().unwrap());
    // header frame: tag, LEB128(12), 12 bytes; then the event frame.
    assert_eq!(tag(0), EventHeader::ZFMT_TAG);
    assert_eq!(s[4], 12);
    assert_eq!(s[13], Severity::Info as u8);
    assert_eq!(tag(17), Heartbeat::ZFMT_TAG);
    assert_eq!(s[21], 16);
    assert_eq!(&s[22..30], &1000u64.to_le_bytes());
    assert_eq!(&s[30..34], &5000u32.to_le_bytes());
    let mut at = 0;
    let mut tags = Vec::new();
    while at < s.len() {
        let t = tag(at);
        let (len, n) = zfmt::leb128::decode(&s[at + 4..]).unwrap();
        tags.push(t);
        at += 4 + n + len as usize;
    }
    assert_eq!(at, s.len());
    assert_eq!(
        tags,
        vec![
            EventHeader::ZFMT_TAG, Heartbeat::ZFMT_TAG,
            EventHeader::ZFMT_TAG, TempReading::ZFMT_TAG,
            EventHeader::ZFMT_TAG, Alert::CRITICAL_ZFMT_TAG,
            EventHeader::ZFMT_TAG, Alert::WARNING_ZFMT_TAG,
            EventHeader::ZFMT_TAG, NamedEvent::ZFMT_TAG,
            EventHeader::ZFMT_TAG, DebugMessage::ZFMT_TAG,
        ]
    );
    assert!(s.ends_with(b"debug note seq=7"));
}

#[test]
fn heartbeat_into_small_buffer_keeps_a_prefix() {
    let hb = Heartbeat { timestamp: 1000, uptime_ms: 5000 };
    let mut small = zfmt::write::FixedBuf::<20>::new();
    assert_eq!(hb.format_into(&mut small), Err(Error));
    assert_eq!(small.as_str(), "heartbeat ts=1000");
    let mut exact = zfmt::write::FixedBuf::<27>::new();
    assert_eq!(hb.format_into(&mut exact), Ok(()));
    assert_eq!(exact.as_str(), "heartbeat ts=1000 up=5000ms");
}
