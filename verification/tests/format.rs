use zfmt::format::{Align, Format, FormatSpec, FormatType, ZfmtStr, ZfmtU64};
use zfmt::write::{Error, Write};

struct StrWriter(String);

impl Write for StrWriter {
    fn write_str(&mut self, s: &str) -> Result<(), Error> {
        self.0.push_str(s);
        Ok(())
    }
}

fn render<T: Format>(value: T, spec: FormatSpec) -> String {
    let mut w = StrWriter(String::new());
    value.fmt(&mut w, spec).unwrap();
    w.0
}

fn spec() -> FormatSpec {
    FormatSpec::default()
}

#[test]
fn uint_decimal() {
    assert_eq!(render(0u32, spec()), "0");
    assert_eq!(render(42u32, spec()), "42");
    assert_eq!(render(u64::MAX, spec()), "18446744073709551615");
}

#[test]
fn uint_hex() {
    let s = FormatSpec { ty: FormatType::LowerHex, ..spec() };
    assert_eq!(render(0u32, s), "0");
    assert_eq!(render(255u8, s), "ff");
    assert_eq!(render(256u16, s), "100");
    let u = FormatSpec { ty: FormatType::UpperHex, ..spec() };
    assert_eq!(render(255u8, u), "FF");
}

#[test]
fn uint_binary() {
    let s = FormatSpec { ty: FormatType::Binary, ..spec() };
    assert_eq!(render(0u8, s), "0");
    assert_eq!(render(5u8, s), "101");
    assert_eq!(render(255u8, s), "11111111");
}

#[test]
fn uint_octal() {
    let s = FormatSpec { ty: FormatType::Octal, ..spec() };
    assert_eq!(render(8u32, s), "10");
    assert_eq!(render(64u32, s), "100");
}

#[test]
fn uint_alternate() {
    let h = FormatSpec { ty: FormatType::LowerHex, alternate: true, ..spec() };
    assert_eq!(render(255u8, h), "0xff");
    let uh = FormatSpec { ty: FormatType::UpperHex, alternate: true, ..spec() };
    assert_eq!(render(255u8, uh), "0XFF");
    let b = FormatSpec { ty: FormatType::Binary, alternate: true, ..spec() };
    assert_eq!(render(5u8, b), "0b101");
    let o = FormatSpec { ty: FormatType::Octal, alternate: true, ..spec() };
    assert_eq!(render(8u32, o), "0o10");
}

#[test]
fn uint_zero_pad() {
    let s = FormatSpec { ty: FormatType::LowerHex, zero_pad: true, width: 8, ..spec() };
    assert_eq!(render(0xabu32, s), "000000ab");
    assert_eq!(render(0xdeadbeefu32, s), "deadbeef");
}

#[test]
fn uint_zero_pad_with_alternate() {
    let s = FormatSpec { ty: FormatType::LowerHex, alternate: true, zero_pad: true, width: 10, ..spec() };
    assert_eq!(render(0xabu32, s), "0x000000ab");
}

#[test]
fn uint_right_align() {
    let s = FormatSpec { align: Align::Right, width: 6, ..spec() };
    assert_eq!(render(42u32, s), "    42");
    assert_eq!(render(999999u32, s), "999999");
    assert_eq!(render(9999999u32, s), "9999999");
}

#[test]
fn uint_left_align() {
    let s = FormatSpec { align: Align::Left, width: 6, ..spec() };
    assert_eq!(render(42u32, s), "42    ");
}

#[test]
fn uint_sign() {
    let s = FormatSpec { sign: true, ..spec() };
    assert_eq!(render(42u32, s), "+42");
    assert_eq!(render(0u32, s), "+0");
}

#[test]
fn sint_decimal() {
    assert_eq!(render(0i32, spec()), "0");
    assert_eq!(render(42i32, spec()), "42");
    assert_eq!(render(-42i32, spec()), "-42");
    assert_eq!(render(i64::MIN, spec()), "-9223372036854775808");
    assert_eq!(render(i64::MAX, spec()), "9223372036854775807");
}

#[test]
fn sint_hex_twos_complement() {
    let s = FormatSpec { ty: FormatType::LowerHex, ..spec() };
    assert_eq!(render(-1i8, s), "ff");
    assert_eq!(render(-1i16, s), "ffff");
    assert_eq!(render(-1i32, s), "ffffffff");
    assert_eq!(render(-1i64, s), "ffffffffffffffff");
}

#[test]
fn sint_sign_flag() {
    let s = FormatSpec { sign: true, ..spec() };
    assert_eq!(render(42i32, s), "+42");
    assert_eq!(render(-42i32, s), "-42");
}

#[test]
fn bool_display() {
    assert_eq!(render(true, spec()), "true");
    assert_eq!(render(false, spec()), "false");
}

#[test]
fn bool_alignment() {
    let r = FormatSpec { align: Align::Right, width: 6, ..spec() };
    assert_eq!(render(true, r), "  true");
    let l = FormatSpec { align: Align::Left, width: 6, ..spec() };
    assert_eq!(render(false, l), "false ");
}

#[test]
fn char_display() {
    assert_eq!(render('A', spec()), "A");
    assert_eq!(render('€', spec()), "€");
}

#[test]
fn str_display() {
    assert_eq!(render("hello", spec()), "hello");
}

#[test]
fn str_right_align() {
    let s = FormatSpec { align: Align::Right, width: 8, ..spec() };
    assert_eq!(render("hi", s), "      hi");
}

#[test]
fn str_left_align() {
    let s = FormatSpec { align: Align::Left, width: 8, ..spec() };
    assert_eq!(render("hi", s), "hi      ");
}

#[test]
fn str_exact_width() {
    let s = FormatSpec { align: Align::Right, width: 5, ..spec() };
    assert_eq!(render("hello", s), "hello");
}

#[test]
fn str_wider_than_field() {
    let s = FormatSpec { align: Align::Right, width: 3, ..spec() };
    assert_eq!(render("hello", s), "hello");
}

#[test]
fn zero_pad_ignored_with_alignment() {
    let s = FormatSpec { zero_pad: true, align: Align::Right, width: 5, ..spec() };
    assert_eq!(render(7u8, s), "    7");
}

#[test]
fn zfmt_u64_renders_joined_value() {
    assert_eq!(render(ZfmtU64::new(1, 1), spec()), "4294967297");
    assert_eq!(ZfmtU64::from_u64(0x1_0000_0002).to_u64(), 0x1_0000_0002);
}

#[test]
fn zfmt_str_renders_padded_hex() {
    assert_eq!(render(ZfmtStr::new(0xab), spec()), "0x000000ab");
}
