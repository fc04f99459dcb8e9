//! Bytecode encoding (§4): opcodes, item and operand types, and the emitters the
//! event layout planner uses.

use vstd::prelude::*;
use crate::leb128::{leb128_bytes, lemma_u64_fits_ten};
use crate::text::str_eq;

verus! {

// Item types (bits 7..3 of an opcode).
pub const ITEM_END: u8 = 0;
pub const ITEM_U8: u8 = 1;
pub const ITEM_U16: u8 = 2;
pub const ITEM_U32: u8 = 3;
pub const ITEM_U64: u8 = 4;
pub const ITEM_I8: u8 = 5;
pub const ITEM_I16: u8 = 6;
pub const ITEM_I32: u8 = 7;
pub const ITEM_I64: u8 = 8;
pub const ITEM_UTF8_BYTE: u8 = 9;
pub const ITEM_SKIP: u8 = 10;
pub const ITEM_F32: u8 = 11;
pub const ITEM_F64: u8 = 12;
pub const ITEM_BOOL: u8 = 13;
pub const ITEM_DISPATCH: u8 = 14;
pub const ITEM_CALL: u8 = 15;
pub const ITEM_STRING_REF: u8 = 16;
/// A 64-bit value sent as two little-endian `u32` halves, low half first.
pub const ITEM_U64_PAIR: u8 = 17;

// Operand types (bits 2..0 of an opcode).
pub const OPERAND_SINGLE: u8 = 0;
pub const OPERAND_FIXED_ARRAY: u8 = 1;
pub const OPERAND_ZERO_TERM: u8 = 2;
pub const OPERAND_VAR_LENGTH: u8 = 3;

/// The opcode byte for an item type and an operand type.
pub open spec fn opcode_of(item_type: u8, operand_type: u8) -> u8 {
    (((item_type as nat * 8) % 256) + (operand_type % 8) as nat) as u8
}

/// Combine an item type (high five bits) and an operand type (low three bits).
pub fn opcode(item_type: u8, operand_type: u8) -> (op: u8)
    ensures
        op == opcode_of(item_type, operand_type),
        op / 8 == item_type % 32,
        op % 8 == operand_type % 8,
{
    let r = (item_type << 3) | (operand_type & 0x07);
    assert(r == (((item_type as nat * 8) % 256) + (operand_type % 8) as nat) as u8) by (bit_vector)
        requires r == (item_type << 3) | (operand_type & 0x07);
    r
}

/// Encode an unsigned integer as LEB128, appending bytes to `out`.
pub fn push_uleb128(out: &mut Vec<u8>, value: u64)
    ensures
        final(out)@ == old(out)@ + leb128_bytes(value as nat),
{
    proof { lemma_u64_fits_ten(value); }
    let ghost v0 = value as nat;
    let mut rem = value;
    loop
        invariant
            old(out)@ + leb128_bytes(v0) == out@ + leb128_bytes(rem as nat),
            v0 == value as nat,
        decreases rem,
    {
        let byte: u8 = (rem % 128) as u8;
        let rest = rem / 128;
        if rest == 0 {
            assert(leb128_bytes(rem as nat) =~= seq![byte]);
            let ghost before = out@;
            out.push(byte);
            assert(before + leb128_bytes(rem as nat) =~= out@);
            return;
        } else {
            assert(leb128_bytes(rem as nat) =~= seq![(byte + 128) as u8] + leb128_bytes(rest as nat));
            let ghost before = out@;
            out.push(byte + 128);
            assert(before + leb128_bytes(rem as nat) =~= out@ + leb128_bytes(rest as nat));
            rem = rest;
        }
    }
}

/// The bytes of a "skip n bytes" instruction: nothing for zero, else the
/// SKIP/fixed-array opcode followed by LEB128(n).
pub open spec fn skip_bytes(n: nat) -> Seq<u8> {
    if n == 0 {
        Seq::empty()
    } else {
        seq![opcode_of(ITEM_SKIP, OPERAND_FIXED_ARRAY)] + leb128_bytes(n)
    }
}

/// Encode a single "skip n bytes" instruction.
pub fn push_skip(out: &mut Vec<u8>, n: usize)
    requires
        n <= u64::MAX,
    ensures
        final(out)@ == old(out)@ + skip_bytes(n as nat),
{
    if n == 0 {
        assert(old(out)@ + skip_bytes(0) =~= old(out)@);
        return;
    }
    let op = opcode(ITEM_SKIP, OPERAND_FIXED_ARRAY);
    out.push(op);
    let ghost mid = out@;
    push_uleb128(out, n as u64);
    assert(out@ =~= old(out)@ + skip_bytes(n as nat));
}

/// The item type of a primitive canonical type, if it has one.
pub open spec fn item_type_of(canonical: Seq<char>) -> Option<u8> {
    if canonical == "u8"@ { Some(ITEM_U8) }
    else if canonical == "u16"@ { Some(ITEM_U16) }
    else if canonical == "u32"@ { Some(ITEM_U32) }
    else if canonical == "u64"@ { Some(ITEM_U64) }
    else if canonical == "i8"@ { Some(ITEM_I8) }
    else if canonical == "i16"@ { Some(ITEM_I16) }
    else if canonical == "i32"@ { Some(ITEM_I32) }
    else if canonical == "i64"@ { Some(ITEM_I64) }
    else if canonical == "f32"@ { Some(ITEM_F32) }
    else if canonical == "f64"@ { Some(ITEM_F64) }
    else if canonical == "bool"@ { Some(ITEM_BOOL) }
    else { None }
}

/// Map a canonical type name to its item type byte; `None` for types handled
/// specially (arrays, str, custom types).
pub fn item_type_for(canonical: &str) -> (r: Option<u8>)
    ensures
        r == item_type_of(canonical@),
{
    if str_eq(canonical, "u8") { Some(ITEM_U8) }
    else if str_eq(canonical, "u16") { Some(ITEM_U16) }
    else if str_eq(canonical, "u32") { Some(ITEM_U32) }
    else if str_eq(canonical, "u64") { Some(ITEM_U64) }
    else if str_eq(canonical, "i8") { Some(ITEM_I8) }
    else if str_eq(canonical, "i16") { Some(ITEM_I16) }
    else if str_eq(canonical, "i32") { Some(ITEM_I32) }
    else if str_eq(canonical, "i64") { Some(ITEM_I64) }
    else if str_eq(canonical, "f32") { Some(ITEM_F32) }
    else if str_eq(canonical, "f64") { Some(ITEM_F64) }
    else if str_eq(canonical, "bool") { Some(ITEM_BOOL) }
    else { None }
}

/// Byte size of a primitive canonical type.
pub open spec fn size_of_canonical_spec(canonical: Seq<char>) -> Option<usize> {
    if canonical == "u8"@ || canonical == "i8"@ || canonical == "bool"@ { Some(1) }
    else if canonical == "u16"@ || canonical == "i16"@ { Some(2) }
    else if canonical == "u32"@ || canonical == "i32"@ || canonical == "f32"@ { Some(4) }
    else if canonical == "u64"@ || canonical == "i64"@ || canonical == "f64"@ { Some(8) }
    else { None }
}

/// The eleven primitive canonical type names.
pub open spec fn primitive_name(c: Seq<char>) -> bool {
    c == "u8"@ || c == "u16"@ || c == "u32"@ || c == "u64"@ || c == "i8"@ || c == "i16"@
        || c == "i32"@ || c == "i64"@ || c == "f32"@ || c == "f64"@ || c == "bool"@
}

/// A canonical type name has an item type exactly when it has a byte size:
/// both are defined on the eleven primitive names and nowhere else.
pub proof fn law_item_type_and_size_agree(c: Seq<char>)
    ensures
        item_type_of(c) is Some <==> primitive_name(c),
        size_of_canonical_spec(c) is Some <==> primitive_name(c),
{
}

/// Byte size of a primitive canonical type (`None` for variable-size or unknown).
pub fn size_of_canonical(canonical: &str) -> (r: Option<usize>)
    ensures
        r == size_of_canonical_spec(canonical@),
{
    if str_eq(canonical, "u8") || str_eq(canonical, "i8") || str_eq(canonical, "bool") { Some(1) }
    else if str_eq(canonical, "u16") || str_eq(canonical, "i16") { Some(2) }
    else if str_eq(canonical, "u32") || str_eq(canonical, "i32") || str_eq(canonical, "f32") { Some(4) }
    else if str_eq(canonical, "u64") || str_eq(canonical, "i64") || str_eq(canonical, "f64") { Some(8) }
    else { None }
}

/// `offset` rounded up to a multiple of `align`.
pub open spec fn round_up(offset: nat, align: nat) -> nat {
    if align == 0 { offset } else { (((offset + align - 1) as nat) / align * align) as nat }
}

/// Round `offset` up with the mask `!(align - 1)`: for the alignments the layout
/// planner uses (1, 2, 4, 8) this is the next multiple of `align`.
pub fn align_up(offset: usize, align: usize) -> (r: usize)
    requires
        align == 0 || offset + align - 1 <= usize::MAX,
    ensures
        align == 0 ==> r == offset,
        align > 0 ==> r == (offset + align - 1) as usize & !((align - 1) as usize),
        (align == 1 || align == 2 || align == 4 || align == 8) ==> r == round_up(offset as nat, align as nat),
{
    if align == 0 {
        return offset;
    }
    let sum = offset + (align - 1);
    let r = sum & !(align - 1);
    proof {
        if align == 1 {
            assert(sum & !(0usize) == sum) by (bit_vector);
        } else if align == 2 {
            assert(sum & !(1usize) == sum - sum % 2) by (bit_vector);
        } else if align == 4 {
            assert(sum & !(3usize) == sum - sum % 4) by (bit_vector);
        } else if align == 8 {
            assert(sum & !(7usize) == sum - sum % 8) by (bit_vector);
        }
        if align == 1 || align == 2 || align == 4 || align == 8 {
            let ghost a = align as int;
            let ghost su = sum as int;
            assert(su - su % a == (su / a) * a) by (nonlinear_arith)
                requires a > 0;
        }
    }
    r
}

} // verus!
