use zfmt::derived::{EventValue, FieldValue};
use zfmt::events::ZfmtEvent;
use zfmt::format::FormatInto;
use zfmt::schema::{FieldDef, FieldKind, Scalar, Schema};
use zfmt::write::{Error, Write};

struct StrBuf(String);
impl Write for StrBuf {
    fn write_str(&mut self, s: &str) -> Result<(), Error> {
        self.0.push_str(s);
        Ok(())
    }
}
fn buf() -> StrBuf {
    StrBuf(String::new())
}

fn f(name: &str, kind: FieldKind) -> FieldDef {
    FieldDef { name: name.to_owned(), kind }
}

fn temp_reading() -> Schema {
    Schema::record(
        "TempReading",
        Some("celsius={c} sensor={s}"),
        vec![
            f("c", FieldKind::Scalar(Scalar::I16)),
            f("s", FieldKind::Scalar(Scalar::U8)),
            f("_pad", FieldKind::Scalar(Scalar::U8)),
        ],
    )
    .unwrap()
}

fn reading_kind() -> FieldKind {
    FieldKind::Nested(temp_reading().nested_info().unwrap())
}

fn sensor_packet() -> Schema {
    Schema::record(
        "SensorPacket",
        Some("seq={seq} temp={reading}"),
        vec![f("seq", FieldKind::Scalar(Scalar::U32)), f("reading", reading_kind())],
    )
    .unwrap()
}

fn report() -> Schema {
    Schema::record(
        "Report",
        Some("id={id} temp={reading} flags={flags}"),
        vec![
            f("id", FieldKind::Scalar(Scalar::U16)),
            f("_pad", FieldKind::Array(Scalar::U8, 2)),
            f("reading", reading_kind()),
            f("flags", FieldKind::Scalar(Scalar::U32)),
        ],
    )
    .unwrap()
}

fn reading(c: i16, s: u8, pad: u8) -> EventValue<'static> {
    EventValue::new(temp_reading(), vec![FieldValue::I16(c), FieldValue::U8(s), FieldValue::U8(pad)]).unwrap()
}

fn packet(seq: u32, r: EventValue) -> EventValue<'static> {
    EventValue::new(sensor_packet(), vec![FieldValue::U32(seq), r.as_field().unwrap()]).unwrap()
}

fn report_value(id: u16, r: EventValue, flags: u32) -> EventValue<'static> {
    EventValue::new(
        report(),
        vec![FieldValue::U16(id), FieldValue::Bytes(vec![0; 2]), r.as_field().unwrap(), FieldValue::U32(flags)],
    )
    .unwrap()
}

#[test]
fn inner_tag_nonzero() {
    assert_ne!(temp_reading().tag(), 0);
}

#[test]
fn outer_tags_nonzero() {
    assert_ne!(sensor_packet().tag(), 0);
    assert_ne!(report().tag(), 0);
}

#[test]
fn nested_tags_distinct() {
    assert_ne!(temp_reading().tag(), sensor_packet().tag());
    assert_ne!(temp_reading().tag(), report().tag());
    assert_ne!(sensor_packet().tag(), report().tag());
}

#[test]
fn full_hash_lower32_is_tag() {
    assert_eq!(temp_reading().full_hash() as u32, temp_reading().tag());
    assert_eq!(sensor_packet().full_hash() as u32, sensor_packet().tag());
    assert_eq!(report().full_hash() as u32, report().tag());
}

#[test]
fn inner_payload_size() {
    let t = reading(0, 0, 0);
    assert_eq!(t.payload_size(), 4);
}

#[test]
fn outer_payload_size() {
    let p = packet(0, reading(0, 0, 0));
    assert_eq!(p.payload_size(), 8);
}

#[test]
fn inner_serialize() {
    let t = reading(-10, 3, 0xAB);
    let buf = t.payload_bytes();
    assert_eq!(&buf[0..2], &(-10i16).to_le_bytes());
    assert_eq!(buf[2], 3);
    assert_eq!(buf[3], 0xAB);
}

#[test]
fn outer_serialize() {
    let p = packet(0x12345678, reading(215, 7, 0));
    let buf = p.payload_bytes();
    assert_eq!(&buf[0..4], &0x12345678u32.to_le_bytes());
    assert_eq!(&buf[4..6], &215i16.to_le_bytes());
    assert_eq!(buf[6], 7);
}

#[test]
fn report_serialize() {
    let r = report_value(0xBEEF, reading(100, 1, 0), 0xCAFE);
    let buf = r.payload_bytes();
    assert_eq!(&buf[0..2], &0xBEEFu16.to_le_bytes());
    assert_eq!(&buf[4..6], &100i16.to_le_bytes());
    assert_eq!(&buf[8..12], &0xCAFEu32.to_le_bytes());
}

#[test]
fn inner_format_into() {
    let t = reading(215, 3, 0);
    let mut w = buf();
    t.format_into(&mut w).unwrap();
    assert_eq!(w.0, "celsius=215 sensor=3");
}

#[test]
fn outer_format_into_renders_nested() {
    let p = packet(42, reading(215, 3, 0));
    let mut w = buf();
    p.format_into(&mut w).unwrap();
    assert_eq!(w.0, "seq=42 temp=celsius=215 sensor=3");
}

#[test]
fn report_format_into() {
    let r = report_value(7, reading(100, 1, 0), 0xAB);
    let mut w = buf();
    r.format_into(&mut w).unwrap();
    assert_eq!(w.0, "id=7 temp=celsius=100 sensor=1 flags=171");
}

#[test]
fn nested_field_calls_inner_subroutine() {
    let tag = temp_reading().tag();
    let mut expected = vec![0x18, 0x78];
    let mut n = tag as u64;
    loop {
        let b = (n & 0x7f) as u8;
        n >>= 7;
        if n == 0 {
            expected.push(b);
            break;
        }
        expected.push(b | 0x80);
    }
    expected.push(0x00);
    assert_eq!(sensor_packet().bytecode(), expected);
    let info = temp_reading().nested_info().unwrap();
    assert_eq!((info.size, info.align), (4, 2));
}
