use zfmt::derived::{EventValue, FieldValue};
use zfmt::format::FormatInto;
use zfmt::schema::{FieldDef, FieldKind, Scalar, Schema, SchemaError};
use zfmt::write::{Error, Write};

struct StrWriter(String);
impl Write for StrWriter {
    fn write_str(&mut self, s: &str) -> Result<(), Error> {
        self.0.push_str(s);
        Ok(())
    }
}
fn buf() -> StrWriter {
    StrWriter(String::new())
}

fn f(name: &str, kind: FieldKind) -> FieldDef {
    FieldDef { name: name.to_owned(), kind }
}

#[test]
fn basic_format_into() {
    let s = Schema::record(
        "Annotated",
        Some("count={count} value={value}"),
        vec![f("count", FieldKind::Scalar(Scalar::U32)), f("value", FieldKind::Scalar(Scalar::U32))],
    )
    .unwrap();
    let a = EventValue::new(s, vec![FieldValue::U32(42), FieldValue::U32(7)]).unwrap();
    let mut w = buf();
    a.format_into(&mut w).unwrap();
    assert_eq!(w.0, "count=42 value=7");
}

#[test]
fn hex_specifier() {
    let s = Schema::record(
        "Sensor",
        Some("ts={timestamp} flags={flags:08x}"),
        vec![
            f("timestamp", FieldKind::Scalar(Scalar::U64)),
            f("flags", FieldKind::Scalar(Scalar::U32)),
            f("_pad", FieldKind::Array(Scalar::U8, 4)),
        ],
    )
    .unwrap();
    let v = EventValue::new(s, vec![FieldValue::U64(1000), FieldValue::U32(0xDEAD), FieldValue::Bytes(vec![0; 4])]).unwrap();
    let mut w = buf();
    v.format_into(&mut w).unwrap();
    assert_eq!(w.0, "ts=1000 flags=0000dead");
}

#[test]
fn literal_only_before_and_after() {
    let s = Schema::record("Wrap", Some("hello {x} world"), vec![f("x", FieldKind::Scalar(Scalar::U8))]).unwrap();
    let mut w = buf();
    EventValue::new(s, vec![FieldValue::U8(5)]).unwrap().format_into(&mut w).unwrap();
    assert_eq!(w.0, "hello 5 world");
}

#[test]
fn alignment_specifier() {
    let s = Schema::record("R", Some("[{v:>8}]"), vec![f("v", FieldKind::Scalar(Scalar::U32))]).unwrap();
    let mut w = buf();
    EventValue::new(s, vec![FieldValue::U32(42)]).unwrap().format_into(&mut w).unwrap();
    assert_eq!(w.0, "[      42]");
}

#[test]
fn format_strings_are_checked_against_fields() {
    let r = Schema::record("Bad", Some("{nope}"), vec![f("x", FieldKind::Scalar(Scalar::U8))]);
    assert!(matches!(r, Err(SchemaError::UnknownField)));
    let r = Schema::record("Pad", Some("{_pad}"), vec![f("_pad", FieldKind::Scalar(Scalar::U8))]);
    assert!(matches!(r, Err(SchemaError::UnknownField)));
    let r = Schema::record("Open", Some("{x"), vec![f("x", FieldKind::Scalar(Scalar::U8))]);
    assert!(matches!(r, Err(SchemaError::Format(_))));
    let no_format = Schema::record("NoFormat", None, vec![f("x", FieldKind::Scalar(Scalar::U32))]).unwrap();
    let mut w = buf();
    EventValue::new(no_format, vec![FieldValue::U32(1)]).unwrap().format_into(&mut w).unwrap();
    assert_eq!(w.0, "");
}
