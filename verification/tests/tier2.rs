use zfmt::derived::{EventValue, FieldValue};
use zfmt::events::ZfmtEvent;
use zfmt::format::FormatInto;
use zfmt::schema::{FieldDef, FieldKind, Scalar, Schema};
use zfmt::write::{Error, Write};

fn f(name: &str, kind: FieldKind) -> FieldDef {
    FieldDef { name: name.to_owned(), kind }
}

fn debug_msg() -> Schema {
    Schema::record("DebugMsg", Some("{message}"), vec![f("message", FieldKind::Str)]).unwrap()
}

fn kv_pair() -> Schema {
    Schema::record("KvPair", Some("{key}={value}"), vec![f("key", FieldKind::Str), f("value", FieldKind::Str)]).unwrap()
}

fn code_msg() -> Schema {
    Schema::record(
        "CodeMsg",
        Some("code={code} msg={msg}"),
        vec![f("code", FieldKind::Scalar(Scalar::U32)), f("msg", FieldKind::Str)],
    )
    .unwrap()
}

fn named() -> Schema {
    Schema::record(
        "Named",
        Some("name={name} id={id}"),
        vec![f("name", FieldKind::Str), f("id", FieldKind::Scalar(Scalar::U16))],
    )
    .unwrap()
}

fn decode_leb128(buf: &[u8]) -> (u64, usize) {
    zfmt::leb128::decode(buf).expect("valid LEB128")
}

#[test]
fn single_str_payload_size() {
    let m = EventValue::new(debug_msg(), vec![FieldValue::Str("hello")]).unwrap();
    assert_eq!(m.payload_size(), 6);
    let m2 = EventValue::new(debug_msg(), vec![FieldValue::Str("")]).unwrap();
    assert_eq!(m2.payload_size(), 1);
    let long: String = "x".repeat(128);
    let m3 = EventValue::new(debug_msg(), vec![FieldValue::Str(&long)]).unwrap();
    assert_eq!(m3.payload_size(), 130);
}

#[test]
fn single_str_serialize() {
    let m = EventValue::new(debug_msg(), vec![FieldValue::Str("hi")]).unwrap();
    let buf = m.payload_bytes();
    let (len, consumed) = decode_leb128(&buf);
    assert_eq!(len, 2);
    assert_eq!(&buf[consumed..consumed + 2], b"hi");
}

#[test]
fn two_str_fields() {
    let kv = EventValue::new(kv_pair(), vec![FieldValue::Str("foo"), FieldValue::Str("bar")]).unwrap();
    assert_eq!(kv.payload_size(), 8);
    let buf = kv.payload_bytes();
    let (klen, kc) = decode_leb128(&buf);
    assert_eq!(klen, 3);
    assert_eq!(&buf[kc..kc + 3], b"foo");
    let rest = &buf[kc + 3..];
    let (vlen, vc) = decode_leb128(rest);
    assert_eq!(vlen, 3);
    assert_eq!(&rest[vc..vc + 3], b"bar");
}

#[test]
fn mixed_fixed_then_str() {
    let cm = EventValue::new(code_msg(), vec![FieldValue::U32(42), FieldValue::Str("err")]).unwrap();
    assert_eq!(cm.payload_size(), 8);
    let buf = cm.payload_bytes();
    assert_eq!(&buf[0..4], &42u32.to_le_bytes());
    let (msglen, mc) = decode_leb128(&buf[4..]);
    assert_eq!(msglen, 3);
    assert_eq!(&buf[4 + mc..4 + mc + 3], b"err");
}

#[test]
fn tag_nonzero_and_differs() {
    assert_ne!(debug_msg().tag(), 0);
    assert_ne!(kv_pair().tag(), 0);
    assert_ne!(debug_msg().tag(), kv_pair().tag());
}

#[test]
fn format_into_tier2() {
    struct W(String);
    impl Write for W {
        fn write_str(&mut self, s: &str) -> Result<(), Error> {
            self.0.push_str(s);
            Ok(())
        }
    }
    let cm = EventValue::new(code_msg(), vec![FieldValue::U32(7), FieldValue::Str("oops")]).unwrap();
    let mut w = W(String::new());
    cm.format_into(&mut w).unwrap();
    assert_eq!(w.0, "code=7 msg=oops");
}

#[test]
fn str_then_fixed_has_no_alignment_gap() {
    let n = EventValue::new(named(), vec![FieldValue::Str("ab"), FieldValue::U16(0x0102)]).unwrap();
    assert_eq!(n.payload_bytes(), vec![2, b'a', b'b', 0x02, 0x01]);
    assert_eq!(named().bytecode(), vec![0x4b, 0x10, 0x00]);
    assert_eq!(named().fixed_layout(), None);
}
