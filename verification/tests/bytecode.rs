use zfmt::bytecode::{
    align_up, item_type_for, opcode, push_skip, push_uleb128, size_of_canonical, ITEM_SKIP, ITEM_U8,
    OPERAND_FIXED_ARRAY, OPERAND_SINGLE,
};

#[test]
fn opcode_encoding() {
    assert_eq!(opcode(ITEM_U8, OPERAND_SINGLE), 0x08);
    assert_eq!(opcode(ITEM_SKIP, OPERAND_FIXED_ARRAY), 0x51);
}

#[test]
fn uleb128_single_byte() {
    let mut out = Vec::new();
    push_uleb128(&mut out, 42);
    assert_eq!(out, &[42]);
}

#[test]
fn uleb128_multibyte() {
    let mut out = Vec::new();
    push_uleb128(&mut out, 128);
    assert_eq!(out, &[0x80, 0x01]);
}

#[test]
fn uleb128_300() {
    let mut out = Vec::new();
    push_uleb128(&mut out, 300);
    assert_eq!(out, &[0xAC, 0x02]);
}

#[test]
fn skip_zero_emits_nothing() {
    let mut out = Vec::new();
    push_skip(&mut out, 0);
    assert!(out.is_empty());
}

#[test]
fn skip_emits_opcode_and_length() {
    let mut out = Vec::new();
    push_skip(&mut out, 3);
    assert_eq!(out, &[0x51, 0x03]);
}

#[test]
fn canonical_items_and_sizes() {
    assert_eq!(item_type_for("u16"), Some(2));
    assert_eq!(item_type_for("bool"), Some(13));
    assert_eq!(item_type_for("str"), None);
    assert_eq!(size_of_canonical("f64"), Some(8));
    assert_eq!(size_of_canonical("char"), None);
    assert_eq!(align_up(5, 4), 8);
    assert_eq!(align_up(8, 8), 8);
    assert_eq!(align_up(3, 0), 3);
}
