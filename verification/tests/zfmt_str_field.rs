use zfmt::derived::{EventValue, FieldValue};
use zfmt::events::ZfmtEvent;
use zfmt::format::{Format, FormatInto, FormatSpec, ZfmtStr};
use zfmt::schema::{FieldDef, FieldKind, Scalar, Schema};

fn f(name: &str, kind: FieldKind) -> FieldDef {
    FieldDef { name: name.to_owned(), kind }
}

fn labeled() -> Schema {
    Schema::record(
        "Labeled",
        Some("label={label} count={count}"),
        vec![f("label", FieldKind::StrRef), f("count", FieldKind::Scalar(Scalar::U32))],
    )
    .unwrap()
}

fn string_only() -> Schema {
    Schema::record("StringOnly", None, vec![f("name", FieldKind::StrRef)]).unwrap()
}

struct Buf(String);
impl zfmt::write::Write for Buf {
    fn write_str(&mut self, s: &str) -> Result<(), zfmt::write::Error> {
        self.0.push_str(s);
        Ok(())
    }
}

#[test]
fn zfmt_str_new_roundtrip() {
    let s = ZfmtStr::new(0xDEAD_BEEF);
    assert_eq!(s.0, 0xDEAD_BEEF);
}

#[test]
fn zfmt_str_from_u32() {
    let s: ZfmtStr = ZfmtStr::from(0x1234_5678);
    assert_eq!(s.0, 0x1234_5678);
}

#[test]
fn zfmt_str_format_renders_hex() {
    let s = ZfmtStr::new(0xABCD_EF01);
    let mut w = Buf(String::new());
    s.fmt(&mut w, FormatSpec::default()).unwrap();
    assert_eq!(w.0, "0xabcdef01");
}

#[test]
fn zfmt_str_equality() {
    let a = ZfmtStr::new(42);
    let b = ZfmtStr::new(42);
    let c = ZfmtStr::new(99);
    assert_eq!(a, b);
    assert_ne!(a, c);
}

#[test]
fn labeled_tag_nonzero() {
    assert_ne!(labeled().tag(), 0);
}

#[test]
fn labeled_full_hash_lower32_is_tag() {
    assert_eq!(labeled().full_hash() as u32, labeled().tag());
}

#[test]
fn labeled_payload_size() {
    let ev = EventValue::new(labeled(), vec![FieldValue::StrRef(0), FieldValue::U32(0)]).unwrap();
    assert_eq!(ev.payload_size(), 8);
}

#[test]
fn labeled_serialize_roundtrip() {
    let hash: u32 = 0xCAFE_BABE;
    let ev = EventValue::new(labeled(), vec![FieldValue::StrRef(hash), FieldValue::U32(77)]).unwrap();
    let buf = ev.payload_bytes();
    assert_eq!(&buf[0..4], &hash.to_le_bytes());
    assert_eq!(&buf[4..8], &77u32.to_le_bytes());
}

#[test]
fn string_only_payload_size() {
    let ev = EventValue::new(string_only(), vec![FieldValue::StrRef(0)]).unwrap();
    assert_eq!(ev.payload_size(), 4);
}

#[test]
fn string_only_serialize() {
    let ev = EventValue::new(string_only(), vec![FieldValue::StrRef(0x1234_5678)]).unwrap();
    let buf = ev.payload_bytes();
    assert_eq!(&buf[..], &0x1234_5678u32.to_le_bytes());
}

#[test]
fn labeled_format_into() {
    let ev = EventValue::new(labeled(), vec![FieldValue::StrRef(0xABCD_1234), FieldValue::U32(5)]).unwrap();
    let mut w = Buf(String::new());
    ev.format_into(&mut w).unwrap();
    assert_eq!(w.0, "label=0xabcd1234 count=5");
}

#[test]
fn zfmt_str_macro_matches_struct_field() {
    let hash = zfmt::hash::zfmt_str("my event label");
    let ev = EventValue::new(string_only(), vec![FieldValue::StrRef(hash)]).unwrap();
    let buf = ev.payload_bytes();
    assert_eq!(&buf[..], &hash.to_le_bytes());
}

#[test]
fn string_ref_bytecode_and_canonical_name() {
    assert_eq!(labeled().bytecode(), vec![0x80, 0x18, 0x00]);
    assert_eq!(labeled().hash_input(), "struct Labeled\nformat label={label} count={count}\nfield label ZfmtStr\nfield count u32\n");
}
