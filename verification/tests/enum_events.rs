use zfmt::derived::{EventValue, FieldValue};
use zfmt::events::ZfmtEvent;
use zfmt::format::FormatInto;
use zfmt::schema::{discriminant_item_type, union_body_size, FieldDef, FieldKind, Scalar, Schema};
use zfmt::write::{Error, Write};

struct StrBuf(String);
impl Write for StrBuf {
    fn write_str(&mut self, s: &str) -> Result<(), Error> {
        self.0.push_str(s);
        Ok(())
    }
}
fn w() -> StrBuf {
    StrBuf(String::new())
}

fn decode_leb128(buf: &[u8]) -> (u64, usize) {
    zfmt::leb128::decode(buf).expect("valid LEB128")
}

fn f(name: &str, kind: FieldKind) -> FieldDef {
    FieldDef { name: name.to_owned(), kind }
}

fn temperature() -> Schema {
    Schema::variant("Sensor", "Temperature", Some("temperature={celsius}"), vec![f("celsius", FieldKind::Scalar(Scalar::F32))]).unwrap()
}
fn pressure() -> Schema {
    Schema::variant("Sensor", "Pressure", Some("pressure={pascals}"), vec![f("pascals", FieldKind::Scalar(Scalar::U32))]).unwrap()
}
fn reset() -> Schema {
    Schema::variant("Sensor", "Reset", None, vec![]).unwrap()
}
fn log_text() -> Schema {
    Schema::variant("Log", "Text", Some("msg={text}"), vec![f("text", FieldKind::Str)]).unwrap()
}
fn log_code() -> Schema {
    Schema::variant("Log", "Code", Some("code={code}"), vec![f("code", FieldKind::Scalar(Scalar::U32))]).unwrap()
}
fn point_d2() -> Schema {
    Schema::variant(
        "Point",
        "D2",
        Some("2d x={0} y={1}"),
        vec![f("0", FieldKind::Scalar(Scalar::F32)), f("1", FieldKind::Scalar(Scalar::F32))],
    )
    .unwrap()
}
fn priority(variant: &str) -> Schema {
    Schema::variant("Priority", variant, None, vec![]).unwrap()
}

fn ev(s: Schema, vals: Vec<FieldValue<'_>>) -> EventValue<'_> {
    EventValue::new(s, vals).unwrap()
}

#[test]
fn toplevel_tags_nonzero() {
    assert_ne!(temperature().tag(), 0);
    assert_ne!(pressure().tag(), 0);
    assert_ne!(reset().tag(), 0);
}

#[test]
fn toplevel_tags_distinct() {
    assert_ne!(temperature().tag(), pressure().tag());
    assert_ne!(temperature().tag(), reset().tag());
    assert_ne!(pressure().tag(), reset().tag());
}

#[test]
fn toplevel_full_hash_lower32_is_tag() {
    assert_eq!(temperature().tag(), temperature().full_hash() as u32);
    assert_eq!(pressure().tag(), pressure().full_hash() as u32);
}

#[test]
fn zfmt_tag_matches_const() {
    assert_eq!(ev(temperature(), vec![FieldValue::F32(0.0f32.to_bits())]).zfmt_tag(), temperature().tag());
    assert_eq!(ev(pressure(), vec![FieldValue::U32(0)]).zfmt_tag(), pressure().tag());
    assert_eq!(ev(reset(), vec![]).zfmt_tag(), reset().tag());
}

#[test]
fn payload_size_temperature() {
    assert_eq!(ev(temperature(), vec![FieldValue::F32(1.0f32.to_bits())]).payload_size(), 4);
}

#[test]
fn payload_size_pressure() {
    assert_eq!(ev(pressure(), vec![FieldValue::U32(1)]).payload_size(), 4);
}

#[test]
fn payload_size_reset() {
    assert_eq!(ev(reset(), vec![]).payload_size(), 0);
}

#[test]
fn payload_size_tier2_variant() {
    assert_eq!(ev(log_text(), vec![FieldValue::Str("hello")]).payload_size(), 6);
    assert_eq!(ev(log_code(), vec![FieldValue::U32(7)]).payload_size(), 4);
}

#[test]
fn serialize_temperature() {
    let v = ev(temperature(), vec![FieldValue::F32(1.5f32.to_bits())]);
    assert_eq!(v.payload_bytes(), 1.5f32.to_le_bytes().to_vec());
}

#[test]
fn serialize_pressure() {
    let v = ev(pressure(), vec![FieldValue::U32(0xDEAD_BEEF)]);
    assert_eq!(v.payload_bytes(), 0xDEAD_BEEFu32.to_le_bytes().to_vec());
}

#[test]
fn serialize_reset_empty() {
    let v = ev(reset(), vec![]);
    assert!(v.payload_bytes().is_empty());
}

#[test]
fn serialize_tier2_text() {
    let v = ev(log_text(), vec![FieldValue::Str("hi")]);
    let buf = v.payload_bytes();
    let (len, n) = decode_leb128(&buf);
    assert_eq!(len, 2);
    assert_eq!(&buf[n..n + 2], b"hi");
}

#[test]
fn serialize_tuple_variant() {
    let v = ev(point_d2(), vec![FieldValue::F32(1.0f32.to_bits()), FieldValue::F32(2.0f32.to_bits())]);
    let buf = v.payload_bytes();
    assert_eq!(&buf[0..4], &1.0f32.to_le_bytes());
    assert_eq!(&buf[4..8], &2.0f32.to_le_bytes());
}

#[test]
fn format_pressure() {
    let mut out = w();
    ev(pressure(), vec![FieldValue::U32(101325)]).format_into(&mut out).unwrap();
    assert_eq!(out.0, "pressure=101325");
}

#[test]
fn format_reset_empty() {
    let mut out = w();
    ev(reset(), vec![]).format_into(&mut out).unwrap();
    assert_eq!(out.0, "");
}

#[test]
fn format_tier2_text() {
    let mut out = w();
    ev(log_text(), vec![FieldValue::Str("hello world")]).format_into(&mut out).unwrap();
    assert_eq!(out.0, "msg=hello world");
}

#[test]
fn inline_enum_discriminant_item_type() {
    assert_eq!(discriminant_item_type(&["u8"]), Some(1u8));
    assert_eq!(discriminant_item_type(&["C", " u8"]), Some(1u8));
}

#[test]
fn inline_enum_variant_tags_nonzero() {
    assert_ne!(priority("Low").tag(), 0);
    assert_ne!(priority("High").tag(), 0);
    assert_ne!(priority("Low").tag(), priority("High").tag());
}

#[test]
fn inline_enum_tags_differ_from_toplevel() {
    assert_ne!(priority("Low").tag(), temperature().tag());
}

#[test]
fn inline_enum_full_hash_lower32_is_tag() {
    assert_eq!(priority("Low").tag(), priority("Low").full_hash() as u32);
}

#[test]
fn variant_hash_input_names_the_enum() {
    assert_eq!(
        pressure().hash_input(),
        "variant Sensor::Pressure\nformat pressure={pascals}\nfield pascals u32\n"
    );
    assert_eq!(discriminant_item_type(&["C"]), None);
    assert_eq!(discriminant_item_type(&["u64"]), Some(4));
}

#[test]
fn inline_variant_subroutines_fill_the_union() {
    let small = Schema::variant("Val", "Small", None, vec![f("v", FieldKind::Scalar(Scalar::U8))]).unwrap();
    let big = Schema::variant("Val", "Big", None, vec![f("v", FieldKind::Scalar(Scalar::U32))]).unwrap();
    let union = union_body_size(&[small, big]);
    assert_eq!(union, 4);
    let small = Schema::variant("Val", "Small", None, vec![f("v", FieldKind::Scalar(Scalar::U8))]).unwrap();
    assert_eq!(small.subroutine_bytecode(union), vec![0x08, 0x51, 0x03, 0x00]);
}

#[test]
fn float_placeholders_are_not_rendered_here() {
    let mut out = w();
    assert!(ev(temperature(), vec![FieldValue::F32(23.5f32.to_bits())]).format_into(&mut out).is_err());
}

#[test]
fn inline_variant_subroutine_skips_from_its_data_end() {
    let a = Schema::variant(
        "E",
        "A",
        None,
        vec![f("x", FieldKind::Scalar(Scalar::U32)), f("y", FieldKind::Scalar(Scalar::U8))],
    )
    .unwrap();
    let b = Schema::variant("E", "B", None, vec![f("z", FieldKind::Scalar(Scalar::U64))]).unwrap();
    let union = union_body_size(&[a, b]);
    assert_eq!(union, 8);
    let a = Schema::variant(
        "E",
        "A",
        None,
        vec![f("x", FieldKind::Scalar(Scalar::U32)), f("y", FieldKind::Scalar(Scalar::U8))],
    )
    .unwrap();
    let b = Schema::variant("E", "B", None, vec![f("z", FieldKind::Scalar(Scalar::U64))]).unwrap();
    assert_eq!(a.subroutine_bytecode(union), vec![0x18, 0x08, 0x51, 0x03, 0x00]);
    assert_eq!(b.subroutine_bytecode(union), vec![0x20, 0x00]);
}
