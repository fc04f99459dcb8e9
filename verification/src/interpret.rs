//! Bytecode interpreter: walks an event's bytecode over its payload and
//! produces the decoded field values.

use vstd::prelude::*;
use vstd::utf8::*;
use vstd::string::*;
use crate::bytecode::{
    ITEM_END, ITEM_U8, ITEM_U16, ITEM_U32, ITEM_U64, ITEM_I8, ITEM_I16, ITEM_I32, ITEM_I64,
    ITEM_F32, ITEM_F64, ITEM_BOOL, ITEM_UTF8_BYTE, ITEM_SKIP, ITEM_STRING_REF, ITEM_CALL,
    ITEM_DISPATCH, ITEM_U64_PAIR, OPERAND_SINGLE, OPERAND_FIXED_ARRAY, OPERAND_ZERO_TERM,
    OPERAND_VAR_LENGTH,
};
use crate::elf::{EventEntry, StringEntry};
use crate::leb128::{LebError, leb128_read, leb128_terminator, lemma_terminator_take, read_leb128};
use crate::numfmt::{digits, to_digits, pow_nat, lemma_digits_len_pow};
use crate::text::{le_value, read_le, read_u32_le, utf8_lossy, lossy_utf8, append_bytes};

verus! {

/// Maximum nesting of CALL / DISPATCH subroutines.
pub const MAX_DEPTH: u8 = 4;

/// A decoded field value.  Floating-point fields keep their IEEE-754 bits.
#[derive(Debug, PartialEq)]
pub enum Value {
    U8(u8),
    U16(u16),
    U32(u32),
    U64(u64),
    I8(i8),
    I16(i16),
    I32(i32),
    I64(i64),
    /// An `f32` field, as its bits.
    F32(u32),
    /// An `f64` field, as its bits.
    F64(u64),
    Bool(bool),
    /// UTF-8 text.
    Str(Vec<u8>),
    /// The elements of an array field; the interpreter puts scalars here.
    Array(Vec<Value>),
    /// A timestamp scaled to seconds: `ticks / rate`.
    Seconds { ticks: u64, rate: u64 },
}

/// The mathematical form of a `Value`.
pub enum ValueV {
    U8(u8),
    U16(u16),
    U32(u32),
    U64(u64),
    I8(i8),
    I16(i16),
    I32(i32),
    I64(i64),
    F32(u32),
    F64(u64),
    Bool(bool),
    Str(Seq<u8>),
    Array(Seq<ValueV>),
    Seconds(u64, u64),
}

/// The mathematical form of a value; an array's elements are viewed in turn.
pub open spec fn value_view(v: Value) -> ValueV
    decreases v,
{
    match v {
        Value::U8(x) => ValueV::U8(x),
        Value::U16(x) => ValueV::U16(x),
        Value::U32(x) => ValueV::U32(x),
        Value::U64(x) => ValueV::U64(x),
        Value::I8(x) => ValueV::I8(x),
        Value::I16(x) => ValueV::I16(x),
        Value::I32(x) => ValueV::I32(x),
        Value::I64(x) => ValueV::I64(x),
        Value::F32(x) => ValueV::F32(x),
        Value::F64(x) => ValueV::F64(x),
        Value::Bool(x) => ValueV::Bool(x),
        Value::Str(b) => ValueV::Str(b@),
        Value::Array(items) => ValueV::Array(Seq::new(items@.len(), |i: int|
            if 0 <= i < items@.len() { value_view(items@[i]) } else { ValueV::Bool(false) })),
        Value::Seconds { ticks, rate } => ValueV::Seconds(ticks, rate),
    }
}

pub open spec fn values_view(vs: Seq<Value>) -> Seq<ValueV> {
    vs.map_values(|x: Value| value_view(x))
}

/// The events and strings of one database, as the interpreter consults them for
/// CALL, DISPATCH and STRING_REF.
pub struct EventTable {
    pub events: Vec<EventEntry>,
    pub strings: Vec<StringEntry>,
}

/// Bytecode of the first event with tag `tag`.
pub open spec fn find_bytecode(events: Seq<EventEntry>, tag: u32) -> Option<Seq<u8>>
    decreases events.len(),
{
    if events.len() == 0 {
        None
    } else if events[0].tag == tag {
        Some(events[0].bytecode@)
    } else {
        find_bytecode(events.drop_first(), tag)
    }
}

/// UTF-8 content of the first string with hash `hash`.
pub open spec fn find_string(strings: Seq<StringEntry>, hash: u32) -> Option<Seq<u8>>
    decreases strings.len(),
{
    if strings.len() == 0 {
        None
    } else if strings[0].hash == hash {
        Some(encode_utf8(strings[0].content@))
    } else {
        find_string(strings.drop_first(), hash)
    }
}

/// Why bytecode could not be interpreted over a payload.
#[derive(Debug, Clone, Copy, PartialEq, Eq)]
pub enum InterpretError {
    /// The bytecode ended without an END instruction.
    MissingEnd,
    /// A LEB128 operand in the bytecode could not be read.
    BytecodeLeb(LebError),
    /// A LEB128 length in the payload could not be read.
    PayloadLeb(LebError),
    /// The payload ends before the bytes an instruction needs.
    PayloadUnderrun,
    /// SKIP with an operand type other than fixed-array.
    SkipOperand(u8),
    /// A U64_PAIR with an operand type other than single.
    PairOperand(u8),
    /// An operand type this item does not take.
    UnknownOperand(u8),
    /// CALL or DISPATCH beyond the maximum depth.
    MaxDepth,
    /// No subroutine with this tag.
    NoSubroutine(u32),
    /// A DISPATCH discriminant type other than u8, u16, u32, u64.
    InvalidDiscriminant(u8),
    /// An item type that no instruction uses.
    UnsupportedItem(u8),
}

/// A position moved `n` bytes forward; positions past the end all stand as `len + 1`.
pub open spec fn adv(p: nat, n: nat, len: nat) -> nat {
    if p + n > len { len + 1 } else { p + n }
}

/// The scalar of item type `item` held in `size` bytes at `p`.
pub open spec fn scalar_at(item: u8, payload: Seq<u8>, p: nat, size: nat) -> ValueV {
    let v = le_value(payload.subrange(p as int, (p + size) as int));
    if item == ITEM_U8 { ValueV::U8(v as u8) }
    else if item == ITEM_U16 { ValueV::U16(v as u16) }
    else if item == ITEM_U32 { ValueV::U32(v as u32) }
    else if item == ITEM_U64 { ValueV::U64(v as u64) }
    else if item == ITEM_I8 { ValueV::I8((v as u8) as i8) }
    else if item == ITEM_I16 { ValueV::I16((v as u16) as i16) }
    else if item == ITEM_I32 { ValueV::I32((v as u32) as i32) }
    else if item == ITEM_I64 { ValueV::I64((v as u64) as i64) }
    else if item == ITEM_F32 { ValueV::F32(v as u32) }
    else if item == ITEM_F64 { ValueV::F64(v as u64) }
    else { ValueV::Bool(v != 0) }
}

pub open spec fn is_scalar_item(item: u8) -> bool {
    item == ITEM_U8 || item == ITEM_U16 || item == ITEM_U32 || item == ITEM_U64
    || item == ITEM_I8 || item == ITEM_I16 || item == ITEM_I32 || item == ITEM_I64
    || item == ITEM_F32 || item == ITEM_F64 || item == ITEM_BOOL
}

/// `count` consecutive scalars of `size` bytes from `p`.
pub open spec fn read_scalars(item: u8, size: nat, payload: Seq<u8>, p: nat, count: nat) -> Result<(Seq<ValueV>, nat), InterpretError>
    decreases count,
{
    if count == 0 {
        Ok((Seq::empty(), p))
    } else if p + size > payload.len() {
        Err(InterpretError::PayloadUnderrun)
    } else if !is_scalar_item(item) {
        Err(InterpretError::UnsupportedItem(item))
    } else {
        match read_scalars(item, size, payload, p + size, (count - 1) as nat) {
            Ok((vs, q)) => Ok((seq![scalar_at(item, payload, p, size)] + vs, q)),
            Err(e) => Err(e),
        }
    }
}

/// One value stays as it is; any other number becomes a single array.
pub open spec fn pack(vals: Seq<ValueV>) -> Seq<ValueV> {
    if vals.len() == 1 { vals } else { seq![ValueV::Array(vals)] }
}

/// Offset (from `p`) of the first zero byte among the `lim` bytes at `p`, or `lim`.
pub open spec fn first_zero(payload: Seq<u8>, p: nat, lim: nat) -> nat
    decreases lim,
{
    if lim == 0 {
        0
    } else if payload[p as int] == 0 {
        0
    } else {
        1 + first_zero(payload, p + 1, (lim - 1) as nat)
    }
}

pub open spec fn min_nat(a: nat, b: nat) -> nat {
    if a <= b { a } else { b }
}

pub open spec fn sat_sub(a: nat, b: nat) -> nat {
    if a >= b { (a - b) as nat } else { 0 }
}

/// An array's view holds the views of its elements.
proof fn lemma_array_view(a: Value)
    requires
        a is Array,
    ensures
        value_view(a) == ValueV::Array(values_view(a->Array_0@)),
{
    let items = a->Array_0@;
    let s = match value_view(a) { ValueV::Array(s) => s, _ => Seq::empty() };
    assert(value_view(a) is Array);
    assert(s.len() == items.len());
    assert forall|k: int| 0 <= k < items.len() implies s[k] == values_view(items)[k] by {
        assert(s[k] == value_view(items[k]));
    }
    assert(s =~= values_view(items));
}

/// A LEB128 operand of the bytecode at `pos`.
pub open spec fn bc_leb(bc: Seq<u8>, pos: nat) -> Result<(u64, nat), InterpretError> {
    match leb128_read(bc.skip(pos as int)) {
        Ok((v, n)) => Ok((v, n)),
        Err(e) => Err(InterpretError::BytecodeLeb(e)),
    }
}

/// A LEB128 length in the payload at `p`.
pub open spec fn pay_leb(payload: Seq<u8>, p: nat) -> Result<(u64, nat), InterpretError> {
    if p > payload.len() {
        Err(InterpretError::PayloadUnderrun)
    } else {
        match leb128_read(payload.skip(p as int)) {
            Ok((v, n)) => Ok((v, n)),
            Err(e) => Err(InterpretError::PayloadLeb(e)),
        }
    }
}

/// Outcome of one instruction: the values it yields and the new bytecode and
/// payload positions.
pub type Step = (Seq<ValueV>, nat, nat);

/// Integer and bool items (single, fixed-array, zero-terminated, var-length).
pub open spec fn read_items_spec(size: nat, item: u8, operand: u8, bc: Seq<u8>, pos: nat, payload: Seq<u8>, p: nat) -> Result<Step, InterpretError> {
    let len = payload.len();
    if operand == OPERAND_SINGLE {
        match read_scalars(item, size, payload, p, 1) {
            Ok((vs, q)) => Ok((pack(vs), pos, q)),
            Err(e) => Err(e),
        }
    } else if operand == OPERAND_FIXED_ARRAY {
        match bc_leb(bc, pos) {
            Err(e) => Err(e),
            Ok((n, l)) => match read_scalars(item, size, payload, p, n as nat) {
                Ok((vs, q)) => Ok((pack(vs), pos + l, q)),
                Err(e) => Err(e),
            },
        }
    } else if operand == OPERAND_ZERO_TERM {
        match bc_leb(bc, pos) {
            Err(e) => Err(e),
            Ok((max, l)) => if p > len {
                Err(InterpretError::PayloadUnderrun)
            } else {
                let n = first_zero(payload, p, min_nat(max as nat, (len - p) as nat));
                match read_scalars(item, size, payload, p, n) {
                    Ok((vs, q)) => Ok((pack(vs), pos + l, q + min_nat((max - n) as nat, sat_sub(len, q)))),
                    Err(e) => Err(e),
                }
            },
        }
    } else if operand == OPERAND_VAR_LENGTH {
        match pay_leb(payload, p) {
            Err(e) => Err(e),
            Ok((n, l)) => match read_scalars(item, size, payload, p + l, n as nat) {
                Ok((vs, q)) => Ok((pack(vs), pos, q)),
                Err(e) => Err(e),
            },
        }
    } else {
        Err(InterpretError::UnknownOperand(operand))
    }
}

/// Text items: fixed length, zero-terminated within a capacity, LEB128-prefixed,
/// or one byte.
pub open spec fn read_utf8_spec(operand: u8, bc: Seq<u8>, pos: nat, payload: Seq<u8>, p: nat) -> Result<Step, InterpretError> {
    let len = payload.len();
    if operand == OPERAND_FIXED_ARRAY {
        match bc_leb(bc, pos) {
            Err(e) => Err(e),
            Ok((n, l)) => if p + n > len {
                Err(InterpretError::PayloadUnderrun)
            } else {
                Ok((seq![ValueV::Str(lossy_utf8(payload.subrange(p as int, (p + n) as int)))], pos + l, (p + n) as nat))
            },
        }
    } else if operand == OPERAND_ZERO_TERM {
        match bc_leb(bc, pos) {
            Err(e) => Err(e),
            Ok((max, l)) => {
                let end = first_zero(payload, p, min_nat(max as nat, sat_sub(len, p)));
                if p + max > len {
                    Err(InterpretError::PayloadUnderrun)
                } else {
                    Ok((seq![ValueV::Str(lossy_utf8(payload.subrange(p as int, (p + end) as int)))], pos + l, (p + max) as nat))
                }
            },
        }
    } else if operand == OPERAND_VAR_LENGTH {
        match pay_leb(payload, p) {
            Err(e) => Err(e),
            Ok((n, l)) => if p + l + n > len {
                Err(InterpretError::PayloadUnderrun)
            } else {
                Ok((seq![ValueV::Str(lossy_utf8(payload.subrange((p + l) as int, (p + l + n) as int)))], pos, (p + l + n) as nat))
            },
        }
    } else if operand == OPERAND_SINGLE {
        if p + 1 > len {
            Err(InterpretError::PayloadUnderrun)
        } else {
            Ok((seq![ValueV::Str(lossy_utf8(payload.subrange(p as int, (p + 1) as int)))], pos, p + 1))
        }
    } else {
        Err(InterpretError::UnknownOperand(operand))
    }
}

/// `v` as eight lowercase hex digits.
pub open spec fn hex8(v: u32) -> Seq<u8> {
    let d = digits(v as nat, 16, false);
    Seq::new((8 - d.len()) as nat, |i: int| 48u8) + d
}

/// The text that stands for a string hash missing from the table.
pub open spec fn unknown_string_text(hash: u32) -> Seq<u8> {
    "<unknown string ".spec_bytes() + hex8(hash) + ">".spec_bytes()
}

/// The text that stands for a discriminant missing from a dispatch table.
pub open spec fn unknown_discriminant_text(d: u64) -> Seq<u8> {
    "<unknown discriminant ".spec_bytes() + digits(d as nat, 10, false) + ">".spec_bytes()
}

/// `count` (value, tag) pairs of a dispatch table from the bytecode at `pos`.
pub open spec fn read_pairs(bc: Seq<u8>, pos: nat, count: nat) -> Result<(Seq<(u64, u64)>, nat), InterpretError>
    decreases count,
{
    if count == 0 {
        Ok((Seq::empty(), pos))
    } else {
        match read_pairs(bc, pos, (count - 1) as nat) {
            Err(e) => Err(e),
            Ok((pairs, q)) => match bc_leb(bc, q) {
                Err(e) => Err(e),
                Ok((v, l1)) => match bc_leb(bc, q + l1) {
                    Err(e) => Err(e),
                    Ok((t, l2)) => Ok((pairs.push((v, t)), q + l1 + l2)),
                },
            },
        }
    }
}

/// The tag paired with the first entry whose value is `d`.
pub open spec fn find_pair(pairs: Seq<(u64, u64)>, d: u64) -> Option<u64>
    decreases pairs.len(),
{
    if pairs.len() == 0 {
        None
    } else if pairs[0].0 == d {
        Some(pairs[0].1)
    } else {
        find_pair(pairs.drop_first(), d)
    }
}

pub open spec fn discriminant_size(t: u8) -> Option<nat> {
    if t == ITEM_U8 { Some(1) }
    else if t == ITEM_U16 { Some(2) }
    else if t == ITEM_U32 { Some(4) }
    else if t == ITEM_U64 { Some(8) }
    else { None }
}

/// Execute `bc` from `pos` until END: all values it yields and the final payload
/// position.  Subroutines run one level deeper; `depth` is what remains.
pub open spec fn run_spec(events: Seq<EventEntry>, strings: Seq<StringEntry>, bc: Seq<u8>, pos: nat, payload: Seq<u8>, p: nat, depth: nat) -> Result<(Seq<ValueV>, nat), InterpretError>
    decreases depth, bc.len() - pos, 3nat,
{
    if pos >= bc.len() {
        Err(InterpretError::MissingEnd)
    } else {
        match instr_spec(events, strings, bc, pos, payload, p, depth) {
            Err(e) => Err(e),
            Ok(None) => Ok((Seq::empty(), p)),
            Ok(Some((vals, pos2, p2))) => if pos2 <= pos || pos2 > bc.len() {
                Err(InterpretError::MissingEnd)
            } else {
                match run_spec(events, strings, bc, pos2, payload, p2, depth) {
                    Ok((rest, q)) => Ok((vals + rest, q)),
                    Err(e) => Err(e),
                }
            },
        }
    }
}

/// An instruction step as an instruction outcome.
pub open spec fn some_step_spec(r: Result<Step, InterpretError>) -> Result<Option<Step>, InterpretError> {
    match r {
        Ok(s) => Ok(Some(s)),
        Err(e) => Err(e),
    }
}

/// SKIP with its byte count at `pos1`.
pub open spec fn skip_spec(operand: u8, bc: Seq<u8>, pos1: nat, payload: Seq<u8>, p: nat) -> Result<Step, InterpretError> {
    if operand != OPERAND_FIXED_ARRAY {
        Err(InterpretError::SkipOperand(operand))
    } else {
        match bc_leb(bc, pos1) {
            Err(e) => Err(e),
            Ok((n, l)) => Ok((Seq::empty(), pos1 + l, adv(p, n as nat, payload.len()))),
        }
    }
}

/// STRING_REF: a u32 hash in the payload, looked up among the strings.
pub open spec fn string_ref_spec(strings: Seq<StringEntry>, pos1: nat, payload: Seq<u8>, p: nat) -> Result<Step, InterpretError> {
    if p + 4 > payload.len() {
        Err(InterpretError::PayloadUnderrun)
    } else {
        let hash = le_value(payload.subrange(p as int, (p + 4) as int)) as u32;
        let text = match find_string(strings, hash) {
            Some(c) => c,
            None => unknown_string_text(hash),
        };
        Ok((seq![ValueV::Str(text)], pos1, p + 4))
    }
}

/// U64_PAIR: a 64-bit value stored as two little-endian u32 halves, low first.
pub open spec fn pair_spec(operand: u8, pos1: nat, payload: Seq<u8>, p: nat) -> Result<Step, InterpretError> {
    if operand != OPERAND_SINGLE {
        Err(InterpretError::PairOperand(operand))
    } else if p + 8 > payload.len() {
        Err(InterpretError::PayloadUnderrun)
    } else {
        let lo = le_value(payload.subrange(p as int, (p + 4) as int));
        let hi = le_value(payload.subrange((p + 4) as int, (p + 8) as int));
        Ok((seq![ValueV::U64((hi * 0x1_0000_0000 + lo) as u64)], pos1, p + 8))
    }
}

/// The instruction at `pos` (which lies inside `bc`): `None` for END, else the
/// values it yields and the positions after it.
pub open spec fn instr_spec(events: Seq<EventEntry>, strings: Seq<StringEntry>, bc: Seq<u8>, pos: nat, payload: Seq<u8>, p: nat, depth: nat) -> Result<Option<Step>, InterpretError>
    decreases depth, bc.len() - pos, 2nat,
{
    let op = bc[pos as int];
    let item = op / 8;
    let operand = op % 8;
    let pos1 = pos + 1;
    if item == ITEM_END {
        Ok(None)
    } else if item == ITEM_SKIP {
        some_step_spec(skip_spec(operand, bc, pos1, payload, p))
    } else if item == ITEM_U8 || item == ITEM_I8 || item == ITEM_BOOL {
        some_step_spec(read_items_spec(1, item, operand, bc, pos1, payload, p))
    } else if item == ITEM_U16 || item == ITEM_I16 {
        some_step_spec(read_items_spec(2, item, operand, bc, pos1, payload, p))
    } else if item == ITEM_U32 || item == ITEM_I32 || item == ITEM_F32 {
        some_step_spec(read_items_spec(4, item, operand, bc, pos1, payload, p))
    } else if item == ITEM_U64 || item == ITEM_I64 || item == ITEM_F64 {
        some_step_spec(read_items_spec(8, item, operand, bc, pos1, payload, p))
    } else if item == ITEM_UTF8_BYTE {
        some_step_spec(read_utf8_spec(operand, bc, pos1, payload, p))
    } else if item == ITEM_STRING_REF {
        some_step_spec(string_ref_spec(strings, pos1, payload, p))
    } else if item == ITEM_CALL {
        call_spec(events, strings, bc, pos, payload, p, depth)
    } else if item == ITEM_DISPATCH {
        dispatch_spec(events, strings, bc, pos, payload, p, depth)
    } else if item == ITEM_U64_PAIR {
        some_step_spec(pair_spec(operand, pos1, payload, p))
    } else {
        Err(InterpretError::UnsupportedItem(item))
    }
}

/// CALL at `pos`: the tag operand names a subroutine, run one level deeper.
pub open spec fn call_spec(events: Seq<EventEntry>, strings: Seq<StringEntry>, bc: Seq<u8>, pos: nat, payload: Seq<u8>, p: nat, depth: nat) -> Result<Option<Step>, InterpretError>
    decreases depth, bc.len() - pos, 1nat,
{
    let pos1 = pos + 1;
    if depth == 0 {
        Err(InterpretError::MaxDepth)
    } else {
        match bc_leb(bc, pos1) {
            Err(e) => Err(e),
            Ok((tag, l)) => match find_bytecode(events, tag as u32) {
                None => Err(InterpretError::NoSubroutine(tag as u32)),
                Some(callee) => match run_spec(events, strings, callee, 0, payload, p, (depth - 1) as nat) {
                    Err(e) => Err(e),
                    Ok((vals, q)) => Ok(Some((vals, pos1 + l, q))),
                },
            },
        }
    }
}

/// The table of a DISPATCH whose operands start at `pos1`: discriminant type,
/// padding after the discriminant, the (value, tag) pairs, and the position
/// after the table.
pub open spec fn dispatch_table(bc: Seq<u8>, pos1: nat) -> Result<(u64, u64, Seq<(u64, u64)>, nat), InterpretError> {
    match bc_leb(bc, pos1) {
        Err(e) => Err(e),
        Ok((dtype, l1)) => match bc_leb(bc, pos1 + l1) {
            Err(e) => Err(e),
            Ok((padding, l2)) => match bc_leb(bc, pos1 + l1 + l2) {
                Err(e) => Err(e),
                Ok((count, l3)) => match read_pairs(bc, pos1 + l1 + l2 + l3, count as nat) {
                    Err(e) => Err(e),
                    Ok((pairs, pos2)) => Ok((dtype, padding, pairs, pos2)),
                },
            },
        },
    }
}

/// DISPATCH at `pos`: the dispatch table, the discriminant in the payload, and
/// the chosen variant.
pub open spec fn dispatch_spec(events: Seq<EventEntry>, strings: Seq<StringEntry>, bc: Seq<u8>, pos: nat, payload: Seq<u8>, p: nat, depth: nat) -> Result<Option<Step>, InterpretError>
    decreases depth, bc.len() - pos, 1nat,
{
    let len = payload.len();
    if depth == 0 {
        Err(InterpretError::MaxDepth)
    } else {
        match dispatch_table(bc, pos + 1) {
            Err(e) => Err(e),
            Ok((dtype, padding, pairs, pos2)) => match discriminant_size(dtype as u8) {
                None => Err(InterpretError::InvalidDiscriminant(dtype as u8)),
                Some(size) => if p + size > len {
                    Err(InterpretError::PayloadUnderrun)
                } else {
                    let d = le_value(payload.subrange(p as int, (p + size) as int)) as u64;
                    variant_spec(events, strings, bc, pos, pairs, d, pos2, payload, adv(p + size, padding as nat, len), depth)
                },
            },
        }
    }
}

/// The variant of discriminant `d`: its subroutine run one level deeper, or a
/// placeholder text when the table has no entry for `d`.
pub open spec fn variant_spec(events: Seq<EventEntry>, strings: Seq<StringEntry>, bc: Seq<u8>, pos: nat, pairs: Seq<(u64, u64)>, d: u64, pos2: nat, payload: Seq<u8>, p2: nat, depth: nat) -> Result<Option<Step>, InterpretError>
    decreases depth, bc.len() - pos, 0nat,
{
    if depth == 0 {
        Err(InterpretError::MaxDepth)
    } else {
        match find_pair(pairs, d) {
            None => Ok(Some((seq![ValueV::Str(unknown_discriminant_text(d))], pos2, p2))),
            Some(tag) => match find_bytecode(events, tag as u32) {
                None => Err(InterpretError::NoSubroutine(tag as u32)),
                Some(callee) => match run_spec(events, strings, callee, 0, payload, p2, (depth - 1) as nat) {
                    Err(e) => Err(e),
                    Ok((vals, q)) => Ok(Some((vals, pos2, q))),
                },
            },
        }
    }
}

/// What interpreting `bc` over `payload` yields, at the top call depth.
pub open spec fn interpret_spec(table: &EventTable, bc: Seq<u8>, payload: Seq<u8>) -> Result<Seq<ValueV>, InterpretError> {
    match run_spec(table.events@, table.strings@, bc, 0, payload, 0, MAX_DEPTH as nat) {
        Ok((vals, _)) => Ok(vals),
        Err(e) => Err(e),
    }
}


/// Values that stand inside an array: none of them is itself an array.
pub open spec fn all_flat(vs: Seq<Value>) -> bool {
    forall|i: int| 0 <= i < vs.len() ==> !(vs[i] is Array)
}

/// The exec result `r` is what the spec result `s` describes.
pub open spec fn same_step(r: Result<(Vec<Value>, usize, usize), InterpretError>, s: Result<Step, InterpretError>) -> bool {
    match s {
        Ok((vals, pos, p)) => r matches Ok((vs, pos2, p2)) && values_view(vs@) == vals && pos2 == pos && p2 == p,
        Err(e) => r == Err::<(Vec<Value>, usize, usize), InterpretError>(e),
    }
}

/// Bytecode of the first event with tag `tag`.
fn lookup_bytecode(events: &Vec<EventEntry>, tag: u32) -> (r: Option<&Vec<u8>>)
    ensures
        match find_bytecode(events@, tag) {
            Some(b) => r matches Some(v) && v@ == b,
            None => r is None,
        },
{
    let mut i: usize = 0;
    assert(events@.skip(0) =~= events@);
    while i < events.len()
        invariant
            i <= events.len(),
            find_bytecode(events@, tag) == find_bytecode(events@.skip(i as int), tag),
        decreases events.len() - i,
    {
        assert(events@.skip(i as int).drop_first() =~= events@.skip(i + 1));
        if events[i].tag == tag {
            return Some(&events[i].bytecode);
        }
        i = i + 1;
    }
    None
}

/// UTF-8 bytes of the first string with hash `hash`.
pub fn lookup_string(strings: &Vec<StringEntry>, hash: u32) -> (r: Option<&[u8]>)
    ensures
        match find_string(strings@, hash) {
            Some(b) => r matches Some(v) && v@ == b,
            None => r is None,
        },
{
    let mut i: usize = 0;
    assert(strings@.skip(0) =~= strings@);
    while i < strings.len()
        invariant
            i <= strings.len(),
            find_string(strings@, hash) == find_string(strings@.skip(i as int), hash),
        decreases strings.len() - i,
    {
        assert(strings@.skip(i as int).drop_first() =~= strings@.skip(i + 1));
        if strings[i].hash == hash {
            return Some(strings[i].content.as_str().as_bytes());
        }
        i = i + 1;
    }
    None
}

/// The scalar of item type `item` held in `size` bytes at `p`.
fn decode_scalar(item: u8, payload: &[u8], p: usize, size: usize) -> (v: Value)
    requires
        is_scalar_item(item),
        size == 1 || size == 2 || size == 4 || size == 8,
        p + size <= payload@.len(),
    ensures
        value_view(v) == scalar_at(item, payload@, p as nat, size as nat),
        !(v is Array),
{
    let x = read_le(payload, p, size);
    if item == ITEM_U8 { Value::U8(x as u8) }
    else if item == ITEM_U16 { Value::U16(x as u16) }
    else if item == ITEM_U32 { Value::U32(x as u32) }
    else if item == ITEM_U64 { Value::U64(x) }
    else if item == ITEM_I8 { Value::I8((x as u8) as i8) }
    else if item == ITEM_I16 { Value::I16((x as u16) as i16) }
    else if item == ITEM_I32 { Value::I32((x as u32) as i32) }
    else if item == ITEM_I64 { Value::I64(x as i64) }
    else if item == ITEM_F32 { Value::F32(x as u32) }
    else if item == ITEM_F64 { Value::F64(x) }
    else { Value::Bool(x != 0) }
}

/// `count` consecutive scalars of `size` bytes from `p`.
fn read_scalars_exec(item: u8, size: usize, payload: &[u8], p: usize, count: u64) -> (r: Result<(Vec<Value>, usize), InterpretError>)
    requires
        size == 1 || size == 2 || size == 4 || size == 8,
        p <= payload@.len() + 1,
        payload@.len() < usize::MAX,
    ensures
        match read_scalars(item, size as nat, payload@, p as nat, count as nat) {
            Ok((vs, q)) => r matches Ok((v, q2)) && values_view(v@) == vs && q2 == q && all_flat(v@),
            Err(e) => r == Err::<(Vec<Value>, usize), InterpretError>(e),
        },
        r matches Ok((v, q)) ==> q <= payload@.len() + 1,
{
    let ghost pl = payload@;
    let mut vals: Vec<Value> = Vec::new();
    let mut q: usize = p;
    let mut i: u64 = 0;
    while i < count
        invariant
            pl == payload@,
            size == 1 || size == 2 || size == 4 || size == 8,
            payload@.len() < usize::MAX,
            i <= count,
            q <= pl.len() + 1,
            i > 0 ==> q <= pl.len(),
            all_flat(vals@),
            match read_scalars(item, size as nat, pl, q as nat, (count - i) as nat) {
                Ok((rest, q2)) => read_scalars(item, size as nat, pl, p as nat, count as nat)
                    == Ok::<(Seq<ValueV>, nat), InterpretError>((values_view(vals@) + rest, q2)),
                Err(e) => read_scalars(item, size as nat, pl, p as nat, count as nat)
                    == Err::<(Seq<ValueV>, nat), InterpretError>(e),
            },
        decreases count - i,
    {
        if q > payload.len() || payload.len() - q < size {
            return Err(InterpretError::PayloadUnderrun);
        }
        if !(item == ITEM_U8 || item == ITEM_U16 || item == ITEM_U32 || item == ITEM_U64
            || item == ITEM_I8 || item == ITEM_I16 || item == ITEM_I32 || item == ITEM_I64
            || item == ITEM_F32 || item == ITEM_F64 || item == ITEM_BOOL) {
            return Err(InterpretError::UnsupportedItem(item));
        }
        let v = decode_scalar(item, payload, q, size);
        let ghost old_vals = vals@;
        vals.push(v);
        proof {
            let c = (count - i) as nat;
            match read_scalars(item, size as nat, pl, (q + size) as nat, (c - 1) as nat) {
                Ok((rest, q2)) => {
                    assert(values_view(vals@) =~= values_view(old_vals).push(value_view(v)));
                    assert(values_view(old_vals) + (seq![value_view(v)] + rest)
                        =~= values_view(vals@) + rest);
                }
                Err(e) => {}
            }
        }
        q = q + size;
        i = i + 1;
    }
    proof {
        assert(values_view(vals@) + Seq::<ValueV>::empty() =~= values_view(vals@));
    }
    Ok((vals, q))
}


/// The scalars in `vals` as one value, or as one array when there are not
/// exactly one.
fn pack_exec(vals: Vec<Value>) -> (r: Vec<Value>)
    requires
        all_flat(vals@),
    ensures
        values_view(r@) == pack(values_view(vals@)),
{
    if vals.len() == 1 {
        vals
    } else {
        let ghost vv = vals@;
        let mut r: Vec<Value> = Vec::new();
        let a = Value::Array(vals);
        proof { lemma_array_view(a); }
        r.push(a);
        proof {
            assert(values_view(r@) =~= seq![ValueV::Array(values_view(vv))]);
        }
        r
    }
}

/// A LEB128 operand of the bytecode at `pos`.
fn leb_bc(bc: &[u8], pos: usize) -> (r: Result<(u64, usize), InterpretError>)
    requires
        pos <= bc@.len(),
    ensures
        r matches Ok((v, n)) ==> bc_leb(bc@, pos as nat) == Ok::<(u64, nat), InterpretError>((v, n as nat))
            && 1 <= n && pos + n <= bc.len(),
        r matches Err(e) ==> bc_leb(bc@, pos as nat) == Err::<(u64, nat), InterpretError>(e),
{
    match read_leb128(bc, pos) {
        Ok((v, n)) => {
            proof {
                let s = bc@.skip(pos as int);
                let i = leb128_terminator(s)->0;
                lemma_terminator_take(s, i);
            }
            Ok((v, n))
        }
        Err(e) => Err(InterpretError::BytecodeLeb(e)),
    }
}

/// A LEB128 length in the payload at `p`.
fn leb_payload(payload: &[u8], p: usize) -> (r: Result<(u64, usize), InterpretError>)
    ensures
        r matches Ok((v, n)) ==> pay_leb(payload@, p as nat) == Ok::<(u64, nat), InterpretError>((v, n as nat))
            && 1 <= n && p + n <= payload.len(),
        r matches Err(e) ==> pay_leb(payload@, p as nat) == Err::<(u64, nat), InterpretError>(e),
{
    if p > payload.len() {
        return Err(InterpretError::PayloadUnderrun);
    }
    match read_leb128(payload, p) {
        Ok((v, n)) => {
            proof {
                let s = payload@.skip(p as int);
                let i = leb128_terminator(s)->0;
                lemma_terminator_take(s, i);
            }
            Ok((v, n))
        }
        Err(e) => Err(InterpretError::PayloadLeb(e)),
    }
}

/// Offset from `p` of the first zero byte among the `lim` bytes at `p`, or `lim`.
fn first_zero_exec(payload: &[u8], p: usize, lim: usize) -> (n: usize)
    requires
        p + lim <= payload@.len(),
    ensures
        n == first_zero(payload@, p as nat, lim as nat),
        n <= lim,
{
    let mut i: usize = 0;
    while i < lim
        invariant
            i <= lim,
            p + lim <= payload.len(),
            first_zero(payload@, p as nat, lim as nat) == i + first_zero(payload@, (p + i) as nat, (lim - i) as nat),
        decreases lim - i,
    {
        if payload[p + i] == 0 {
            return i;
        }
        i = i + 1;
    }
    i
}

fn min_usize(a: u64, b: usize) -> (r: usize)
    ensures
        r == min_nat(a as nat, b as nat),
{
    if a < b as u64 { a as usize } else { b }
}

/// Integer and bool items.
fn read_items_exec(size: usize, item: u8, operand: u8, bc: &[u8], pos: usize, payload: &[u8], p: usize)
    -> (r: Result<(Vec<Value>, usize, usize), InterpretError>)
    requires
        size == 1 || size == 2 || size == 4 || size == 8,
        pos <= bc@.len(),
        p <= payload@.len() + 1,
        payload@.len() < usize::MAX,
    ensures
        same_step(r, read_items_spec(size as nat, item, operand, bc@, pos as nat, payload@, p as nat)),
        r matches Ok((v, pos2, p2)) ==> pos <= pos2 <= bc@.len() && p2 <= payload@.len() + 1,
{
    let len = payload.len();
    if operand == OPERAND_SINGLE {
        match read_scalars_exec(item, size, payload, p, 1) {
            Ok((vs, q)) => Ok((pack_exec(vs), pos, q)),
            Err(e) => Err(e),
        }
    } else if operand == OPERAND_FIXED_ARRAY {
        match leb_bc(bc, pos) {
            Err(e) => Err(e),
            Ok((n, l)) => match read_scalars_exec(item, size, payload, p, n) {
                Ok((vs, q)) => Ok((pack_exec(vs), pos + l, q)),
                Err(e) => Err(e),
            },
        }
    } else if operand == OPERAND_ZERO_TERM {
        match leb_bc(bc, pos) {
            Err(e) => Err(e),
            Ok((max, l)) => {
                if p > len {
                    return Err(InterpretError::PayloadUnderrun);
                }
                let lim = min_usize(max, len - p);
                let n = first_zero_exec(payload, p, lim);
                match read_scalars_exec(item, size, payload, p, n as u64) {
                    Ok((vs, q)) => {
                        let room: usize = if q <= len { len - q } else { 0 };
                        let extra = min_usize(max - n as u64, room);
                        Ok((pack_exec(vs), pos + l, q + extra))
                    }
                    Err(e) => Err(e),
                }
            }
        }
    } else if operand == OPERAND_VAR_LENGTH {
        match leb_payload(payload, p) {
            Err(e) => Err(e),
            Ok((n, l)) => match read_scalars_exec(item, size, payload, p + l, n) {
                Ok((vs, q)) => Ok((pack_exec(vs), pos, q)),
                Err(e) => Err(e),
            },
        }
    } else {
        Err(InterpretError::UnknownOperand(operand))
    }
}

/// One text value.
fn text_value(b: &[u8]) -> (r: Vec<Value>)
    ensures
        values_view(r@) == seq![ValueV::Str(lossy_utf8(b@))],
{
    let mut r: Vec<Value> = Vec::new();
    r.push(Value::Str(utf8_lossy(b)));
    assert(values_view(r@) =~= seq![ValueV::Str(lossy_utf8(b@))]);
    r
}

/// Text items.
fn read_utf8_exec(operand: u8, bc: &[u8], pos: usize, payload: &[u8], p: usize)
    -> (r: Result<(Vec<Value>, usize, usize), InterpretError>)
    requires
        pos <= bc@.len(),
        p <= payload@.len() + 1,
        payload@.len() < usize::MAX,
    ensures
        same_step(r, read_utf8_spec(operand, bc@, pos as nat, payload@, p as nat)),
        r matches Ok((v, pos2, p2)) ==> pos <= pos2 <= bc@.len() && p2 <= payload@.len() + 1,
{
    let len = payload.len();
    if operand == OPERAND_FIXED_ARRAY {
        match leb_bc(bc, pos) {
            Err(e) => Err(e),
            Ok((n, l)) => {
                if p > len || n > (len - p) as u64 {
                    return Err(InterpretError::PayloadUnderrun);
                }
                let end = p + n as usize;
                Ok((text_value(vstd::slice::slice_subrange(payload, p, end)), pos + l, end))
            }
        }
    } else if operand == OPERAND_ZERO_TERM {
        match leb_bc(bc, pos) {
            Err(e) => Err(e),
            Ok((max, l)) => {
                if p > len || max > (len - p) as u64 {
                    return Err(InterpretError::PayloadUnderrun);
                }
                let lim = max as usize;
                let end = first_zero_exec(payload, p, lim);
                Ok((text_value(vstd::slice::slice_subrange(payload, p, p + end)), pos + l, p + lim))
            }
        }
    } else if operand == OPERAND_VAR_LENGTH {
        match leb_payload(payload, p) {
            Err(e) => Err(e),
            Ok((n, l)) => {
                if n > (len - p - l) as u64 {
                    return Err(InterpretError::PayloadUnderrun);
                }
                let start = p + l;
                let end = start + n as usize;
                Ok((text_value(vstd::slice::slice_subrange(payload, start, end)), pos, end))
            }
        }
    } else if operand == OPERAND_SINGLE {
        if p >= len {
            return Err(InterpretError::PayloadUnderrun);
        }
        Ok((text_value(vstd::slice::slice_subrange(payload, p, p + 1)), pos, p + 1))
    } else {
        Err(InterpretError::UnknownOperand(operand))
    }
}

/// `v` as eight lowercase hex digits.
pub fn hex8_exec(v: u32) -> (r: Vec<u8>)
    ensures
        r@ == hex8(v),
{
    let d = to_digits(v as u64, 16, false);
    proof {
        assert(pow_nat(16, 8) == 0x1_0000_0000) by {
            reveal_with_fuel(pow_nat, 9);
        }
        lemma_digits_len_pow(v as nat, 16, false, 8);
    }
    let pad: usize = 8 - d.len();
    let mut out: Vec<u8> = Vec::new();
    let mut i: usize = 0;
    while i < pad
        invariant
            i <= pad,
            out@ == Seq::new(i as nat, |j: int| 48u8),
        decreases pad - i,
    {
        out.push(48u8);
        i = i + 1;
        assert(out@ =~= Seq::new(i as nat, |j: int| 48u8));
    }
    append_bytes(&mut out, d.as_slice());
    out
}

/// The text that stands for a string hash missing from the table.
fn unknown_string_exec(hash: u32) -> (r: Vec<u8>)
    ensures
        r@ == unknown_string_text(hash),
{
    let mut out: Vec<u8> = Vec::new();
    append_bytes(&mut out, "<unknown string ".as_bytes());
    let h = hex8_exec(hash);
    append_bytes(&mut out, h.as_slice());
    append_bytes(&mut out, ">".as_bytes());
    out
}

/// The text that stands for a discriminant missing from a dispatch table.
fn unknown_discriminant_exec(d: u64) -> (r: Vec<u8>)
    ensures
        r@ == unknown_discriminant_text(d),
{
    let mut out: Vec<u8> = Vec::new();
    append_bytes(&mut out, "<unknown discriminant ".as_bytes());
    let h = to_digits(d, 10, false);
    append_bytes(&mut out, h.as_slice());
    append_bytes(&mut out, ">".as_bytes());
    out
}

proof fn lemma_read_pairs_err(bc: Seq<u8>, pos: nat, k: nat, m: nat, e: InterpretError)
    requires
        k <= m,
        read_pairs(bc, pos, k) == Err::<(Seq<(u64, u64)>, nat), InterpretError>(e),
    ensures
        read_pairs(bc, pos, m) == Err::<(Seq<(u64, u64)>, nat), InterpretError>(e),
    decreases m,
{
    if m > k {
        lemma_read_pairs_err(bc, pos, k, (m - 1) as nat, e);
    }
}

/// The (value, tag) pairs of a dispatch table.
fn read_pairs_exec(bc: &[u8], pos: usize, count: u64) -> (r: Result<(Vec<(u64, u64)>, usize), InterpretError>)
    requires
        pos <= bc@.len(),
    ensures
        match read_pairs(bc@, pos as nat, count as nat) {
            Ok((pairs, q)) => r matches Ok((v, q2)) && v@ == pairs && q2 == q,
            Err(e) => r == Err::<(Vec<(u64, u64)>, usize), InterpretError>(e),
        },
        r matches Ok((v, q)) ==> pos <= q <= bc@.len(),
{
    let mut pairs: Vec<(u64, u64)> = Vec::new();
    let mut q: usize = pos;
    let mut i: u64 = 0;
    while i < count
        invariant
            i <= count,
            pos <= q <= bc@.len(),
            read_pairs(bc@, pos as nat, i as nat) == Ok::<(Seq<(u64, u64)>, nat), InterpretError>((pairs@, q as nat)),
        decreases count - i,
    {
        match leb_bc(bc, q) {
            Err(e) => {
                proof { lemma_read_pairs_err(bc@, pos as nat, (i + 1) as nat, count as nat, e); }
                return Err(e);
            }
            Ok((v, l1)) => match leb_bc(bc, q + l1) {
                Err(e) => {
                    proof { lemma_read_pairs_err(bc@, pos as nat, (i + 1) as nat, count as nat, e); }
                    return Err(e);
                }
                Ok((t, l2)) => {
                    pairs.push((v, t));
                    q = q + l1 + l2;
                }
            },
        }
        i = i + 1;
    }
    Ok((pairs, q))
}

/// The tag paired with the first entry whose value is `d`.
fn find_pair_exec(pairs: &Vec<(u64, u64)>, d: u64) -> (r: Option<u64>)
    ensures
        r == find_pair(pairs@, d),
{
    let mut i: usize = 0;
    assert(pairs@.skip(0) =~= pairs@);
    while i < pairs.len()
        invariant
            i <= pairs.len(),
            find_pair(pairs@, d) == find_pair(pairs@.skip(i as int), d),
        decreases pairs.len() - i,
    {
        assert(pairs@.skip(i as int).drop_first() =~= pairs@.skip(i + 1));
        if pairs[i].0 == d {
            return Some(pairs[i].1);
        }
        i = i + 1;
    }
    None
}


/// The exec result `r` of one instruction is what the spec result `s` describes.
pub open spec fn same_instr(
    r: Result<Option<(Vec<Value>, usize, usize)>, InterpretError>,
    s: Result<Option<Step>, InterpretError>,
) -> bool {
    match s {
        Ok(None) => r matches Ok(None),
        Ok(Some((vals, pos, p))) => r matches Ok(Some((vs, pos2, p2))) && values_view(vs@) == vals && pos2 == pos && p2 == p,
        Err(e) => r == Err::<Option<(Vec<Value>, usize, usize)>, InterpretError>(e),
    }
}

fn some_step(r: Result<(Vec<Value>, usize, usize), InterpretError>) -> (o: Result<Option<(Vec<Value>, usize, usize)>, InterpretError>)
    ensures
        match r {
            Ok(x) => o == Ok::<Option<(Vec<Value>, usize, usize)>, InterpretError>(Some(x)),
            Err(e) => o == Err::<Option<(Vec<Value>, usize, usize)>, InterpretError>(e),
        },
{
    match r {
        Ok(x) => Ok(Some(x)),
        Err(e) => Err(e),
    }
}

/// SKIP: move past the payload bytes that the operand counts.
fn exec_skip(operand: u8, bc: &[u8], pos1: usize, payload: &[u8], p: usize) -> (r: Result<(Vec<Value>, usize, usize), InterpretError>)
    requires
        pos1 <= bc@.len(),
        p <= payload@.len() + 1,
        payload@.len() < usize::MAX,
    ensures
        same_step(r, skip_spec(operand, bc@, pos1 as nat, payload@, p as nat)),
        r matches Ok((v, pos2, p2)) ==> pos1 <= pos2 <= bc@.len() && p2 <= payload@.len() + 1,
{
    if operand != OPERAND_FIXED_ARRAY {
        return Err(InterpretError::SkipOperand(operand));
    }
    let len = payload.len();
    match leb_bc(bc, pos1) {
        Err(e) => Err(e),
        Ok((n, l)) => {
            let p2 = if p > len || n > (len - p) as u64 { len + 1 } else { p + n as usize };
            let vals: Vec<Value> = Vec::new();
            proof { assert(values_view(vals@) =~= Seq::<ValueV>::empty()); }
            Ok((vals, pos1 + l, p2))
        }
    }
}

/// STRING_REF: the string whose hash the payload holds.
fn exec_string_ref(strings: &Vec<StringEntry>, pos1: usize, payload: &[u8], p: usize) -> (r: Result<(Vec<Value>, usize, usize), InterpretError>)
    requires
        p <= payload@.len() + 1,
    ensures
        same_step(r, string_ref_spec(strings@, pos1 as nat, payload@, p as nat)),
        r matches Ok((v, pos2, p2)) ==> pos2 == pos1 && p2 <= payload@.len(),
{
    let len = payload.len();
    if p > len || len - p < 4 {
        return Err(InterpretError::PayloadUnderrun);
    }
    let hash = read_u32_le(payload, p);
    let text = match lookup_string(strings, hash) {
        Some(c) => vstd::slice::slice_to_vec(c),
        None => unknown_string_exec(hash),
    };
    let ghost tv = text@;
    let mut vals: Vec<Value> = Vec::new();
    vals.push(Value::Str(text));
    proof { assert(values_view(vals@) =~= seq![ValueV::Str(tv)]); }
    Ok((vals, pos1, p + 4))
}

/// U64_PAIR: two little-endian u32 halves, low first.
fn exec_pair(operand: u8, pos1: usize, payload: &[u8], p: usize) -> (r: Result<(Vec<Value>, usize, usize), InterpretError>)
    requires
        p <= payload@.len() + 1,
    ensures
        same_step(r, pair_spec(operand, pos1 as nat, payload@, p as nat)),
        r matches Ok((v, pos2, p2)) ==> pos2 == pos1 && p2 <= payload@.len(),
{
    let len = payload.len();
    if operand != OPERAND_SINGLE {
        return Err(InterpretError::PairOperand(operand));
    }
    if p > len || len - p < 8 {
        return Err(InterpretError::PayloadUnderrun);
    }
    let lo = read_u32_le(payload, p);
    let hi = read_u32_le(payload, p + 4);
    let v: u64 = hi as u64 * 0x1_0000_0000 + lo as u64;
    let mut vals: Vec<Value> = Vec::new();
    vals.push(Value::U64(v));
    proof { assert(values_view(vals@) =~= seq![ValueV::U64(v)]); }
    Ok((vals, pos1, p + 8))
}

/// Execute one instruction at `pos`.
#[verifier::spinoff_prover]
fn exec_instr(table: &EventTable, bc: &[u8], pos: usize, payload: &[u8], p: usize, depth: u8)
    -> (r: Result<Option<(Vec<Value>, usize, usize)>, InterpretError>)
    requires
        pos < bc@.len(),
        p <= payload@.len() + 1,
        payload@.len() < usize::MAX,
    ensures
        same_instr(r, instr_spec(table.events@, table.strings@, bc@, pos as nat, payload@, p as nat, depth as nat)),
        r matches Ok(Some((v, pos2, p2))) ==> pos < pos2 <= bc@.len() && p2 <= payload@.len() + 1,
    decreases depth, 2nat,
{
    let op = bc[pos];
    let item = op / 8;
    let operand = op % 8;
    let pos1 = pos + 1;
    if item == ITEM_END {
        Ok(None)
    } else if item == ITEM_SKIP {
        some_step(exec_skip(operand, bc, pos1, payload, p))
    } else if item == ITEM_U8 || item == ITEM_I8 || item == ITEM_BOOL {
        some_step(read_items_exec(1, item, operand, bc, pos1, payload, p))
    } else if item == ITEM_U16 || item == ITEM_I16 {
        some_step(read_items_exec(2, item, operand, bc, pos1, payload, p))
    } else if item == ITEM_U32 || item == ITEM_I32 || item == ITEM_F32 {
        some_step(read_items_exec(4, item, operand, bc, pos1, payload, p))
    } else if item == ITEM_U64 || item == ITEM_I64 || item == ITEM_F64 {
        some_step(read_items_exec(8, item, operand, bc, pos1, payload, p))
    } else if item == ITEM_UTF8_BYTE {
        some_step(read_utf8_exec(operand, bc, pos1, payload, p))
    } else if item == ITEM_STRING_REF {
        some_step(exec_string_ref(&table.strings, pos1, payload, p))
    } else if item == ITEM_CALL {
        exec_call(table, bc, pos, payload, p, depth)
    } else if item == ITEM_DISPATCH {
        exec_dispatch(table, bc, pos, payload, p, depth)
    } else if item == ITEM_U64_PAIR {
        some_step(exec_pair(operand, pos1, payload, p))
    } else {
        Err(InterpretError::UnsupportedItem(item))
    }
}

/// CALL at `pos`.
fn exec_call(table: &EventTable, bc: &[u8], pos: usize, payload: &[u8], p: usize, depth: u8)
    -> (r: Result<Option<(Vec<Value>, usize, usize)>, InterpretError>)
    requires
        pos < bc.len(),
        p <= payload@.len() + 1,
        payload@.len() < usize::MAX,
    ensures
        same_instr(r, call_spec(table.events@, table.strings@, bc@, pos as nat, payload@, p as nat, depth as nat)),
        r matches Ok(Some((v, pos2, p2))) ==> pos < pos2 <= bc@.len() && p2 <= payload@.len() + 1,
    decreases depth, 1nat,
{
    if depth == 0 {
        return Err(InterpretError::MaxDepth);
    }
    let pos1 = pos + 1;
    match leb_bc(bc, pos1) {
        Err(e) => Err(e),
        Ok((tag, l)) => match lookup_bytecode(&table.events, tag as u32) {
            None => Err(InterpretError::NoSubroutine(tag as u32)),
            Some(callee) => match run_bc(table, callee.as_slice(), 0, payload, p, depth - 1) {
                Err(e) => Err(e),
                Ok((vals, q)) => Ok(Some((vals, pos1 + l, q))),
            },
        },
    }
}

/// The table of a DISPATCH whose operands start at `pos1`.
fn read_dispatch_table(bc: &[u8], pos1: usize) -> (r: Result<(u64, u64, Vec<(u64, u64)>, usize), InterpretError>)
    requires
        pos1 <= bc@.len(),
    ensures
        match dispatch_table(bc@, pos1 as nat) {
            Ok((dtype, padding, pairs, pos2)) => r matches Ok((a, b, v, q))
                && a == dtype && b == padding && v@ == pairs && q == pos2,
            Err(e) => r == Err::<(u64, u64, Vec<(u64, u64)>, usize), InterpretError>(e),
        },
        r matches Ok((a, b, v, q)) ==> pos1 <= q <= bc@.len(),
{
    let (dtype, l1) = match leb_bc(bc, pos1) { Ok(x) => x, Err(e) => { return Err(e); } };
    let (padding, l2) = match leb_bc(bc, pos1 + l1) { Ok(x) => x, Err(e) => { return Err(e); } };
    let (count, l3) = match leb_bc(bc, pos1 + l1 + l2) { Ok(x) => x, Err(e) => { return Err(e); } };
    let (pairs, pos2) = match read_pairs_exec(bc, pos1 + l1 + l2 + l3, count) { Ok(x) => x, Err(e) => { return Err(e); } };
    Ok((dtype, padding, pairs, pos2))
}

fn disc_size(dt: u8) -> (r: Option<usize>)
    ensures
        match discriminant_size(dt) {
            Some(n) => r == Some(n as usize) && (n == 1 || n == 2 || n == 4 || n == 8),
            None => r is None,
        },
{
    if dt == ITEM_U8 { Some(1) } else if dt == ITEM_U16 { Some(2) } else if dt == ITEM_U32 { Some(4) } else if dt == ITEM_U64 { Some(8) } else { None }
}

/// DISPATCH at `pos`: read the table and the discriminant, then run the variant.
fn exec_dispatch(table: &EventTable, bc: &[u8], pos: usize, payload: &[u8], p: usize, depth: u8)
    -> (r: Result<Option<(Vec<Value>, usize, usize)>, InterpretError>)
    requires
        pos < bc.len(),
        p <= payload@.len() + 1,
        payload@.len() < usize::MAX,
    ensures
        same_instr(r, dispatch_spec(table.events@, table.strings@, bc@, pos as nat, payload@, p as nat, depth as nat)),
        r matches Ok(Some((v, pos2, p2))) ==> pos < pos2 <= bc@.len() && p2 <= payload@.len() + 1,
    decreases depth, 1nat,
{
    if depth == 0 {
        return Err(InterpretError::MaxDepth);
    }
    let len = payload.len();
    let (dtype, padding, pairs, pos2) = match read_dispatch_table(bc, pos + 1) {
        Ok(x) => x,
        Err(e) => { return Err(e); }
    };
    let dt = dtype as u8;
    let size: usize = match disc_size(dt) {
        Some(n) => n,
        None => { return Err(InterpretError::InvalidDiscriminant(dt)); }
    };
    if p > len || len - p < size {
        return Err(InterpretError::PayloadUnderrun);
    }
    let d = read_le(payload, p, size);
    let ps = p + size;
    let p2 = if padding > (len - ps) as u64 { len + 1 } else { ps + padding as usize };
    exec_variant(table, bc, pos, &pairs, d, pos2, payload, p2, depth)
}

/// The variant of discriminant `d`.
fn exec_variant(table: &EventTable, bc: &[u8], pos: usize, pairs: &Vec<(u64, u64)>, d: u64, pos2: usize, payload: &[u8], p2: usize, depth: u8)
    -> (r: Result<Option<(Vec<Value>, usize, usize)>, InterpretError>)
    requires
        pos < pos2 <= bc@.len(),
        p2 <= payload@.len() + 1,
        payload@.len() < usize::MAX,
    ensures
        same_instr(r, variant_spec(table.events@, table.strings@, bc@, pos as nat, pairs@, d, pos2 as nat, payload@, p2 as nat, depth as nat)),
        r matches Ok(Some((v, a, b))) ==> a == pos2 && b <= payload@.len() + 1,
    decreases depth, 0nat,
{
    if depth == 0 {
        return Err(InterpretError::MaxDepth);
    }
    match find_pair_exec(pairs, d) {
        None => {
            let text = unknown_discriminant_exec(d);
            let ghost tv = text@;
            let mut vals: Vec<Value> = Vec::new();
            vals.push(Value::Str(text));
            proof { assert(values_view(vals@) =~= seq![ValueV::Str(tv)]); }
            Ok(Some((vals, pos2, p2)))
        }
        Some(tag) => match lookup_bytecode(&table.events, tag as u32) {
            None => Err(InterpretError::NoSubroutine(tag as u32)),
            Some(callee) => match run_bc(table, callee.as_slice(), 0, payload, p2, depth - 1) {
                Err(e) => Err(e),
                Ok((vals, q)) => Ok(Some((vals, pos2, q))),
            },
        },
    }
}

/// Execute `bc` from `pos` until END.
fn run_bc(table: &EventTable, bc: &[u8], pos: usize, payload: &[u8], p: usize, depth: u8)
    -> (r: Result<(Vec<Value>, usize), InterpretError>)
    requires
        pos <= bc@.len(),
        p <= payload@.len() + 1,
        payload@.len() < usize::MAX,
    ensures
        match run_spec(table.events@, table.strings@, bc@, pos as nat, payload@, p as nat, depth as nat) {
            Ok((vals, q)) => r matches Ok((v, q2)) && values_view(v@) == vals && q2 == q,
            Err(e) => r == Err::<(Vec<Value>, usize), InterpretError>(e),
        },
        r matches Ok((v, q)) ==> q <= payload@.len() + 1,
    decreases depth, 3nat,
{
    let ghost ev = table.events@;
    let ghost st = table.strings@;
    let ghost pl = payload@;
    let mut vals: Vec<Value> = Vec::new();
    let mut cur: usize = pos;
    let mut q: usize = p;
    proof {
        assert(values_view(vals@) =~= Seq::<ValueV>::empty());
        match run_spec(ev, st, bc@, pos as nat, pl, p as nat, depth as nat) {
            Ok((rest, q2)) => { assert(Seq::<ValueV>::empty() + rest =~= rest); }
            Err(e) => {}
        }
    }
    loop
        invariant
            ev == table.events@,
            st == table.strings@,
            pl == payload@,
            pos <= cur <= bc@.len(),
            q <= payload@.len() + 1,
            payload@.len() < usize::MAX,
            match run_spec(ev, st, bc@, cur as nat, pl, q as nat, depth as nat) {
                Ok((rest, q2)) => run_spec(ev, st, bc@, pos as nat, pl, p as nat, depth as nat)
                    == Ok::<(Seq<ValueV>, nat), InterpretError>((values_view(vals@) + rest, q2)),
                Err(e) => run_spec(ev, st, bc@, pos as nat, pl, p as nat, depth as nat)
                    == Err::<(Seq<ValueV>, nat), InterpretError>(e),
            },
        decreases bc@.len() - cur,
    {
        if cur >= bc.len() {
            return Err(InterpretError::MissingEnd);
        }
        match exec_instr(table, bc, cur, payload, q, depth) {
            Err(e) => {
                return Err(e);
            }
            Ok(None) => {
                proof { assert(values_view(vals@) + Seq::<ValueV>::empty() =~= values_view(vals@)); }
                return Ok((vals, q));
            }
            Ok(Some((vs, pos2, p2))) => {
                let ghost old_vals = vals@;
                let ghost new_vs = vs@;
                let mut vs = vs;
                vals.append(&mut vs);
                proof {
                    assert(values_view(vals@) =~= values_view(old_vals) + values_view(new_vs));
                    match run_spec(ev, st, bc@, pos2 as nat, pl, p2 as nat, depth as nat) {
                        Ok((rest, q3)) => {
                            assert(values_view(old_vals) + (values_view(new_vs) + rest)
                                =~= values_view(vals@) + rest);
                        }
                        Err(e) => {}
                    }
                }
                cur = pos2;
                q = p2;
            }
        }
    }
}

/// Interpret `bc` against `payload`, returning the decoded values of the
/// non-skip fields.  `table` supplies the subroutines of CALL and DISPATCH and
/// the strings of STRING_REF.
pub fn interpret(bc: &[u8], payload: &[u8], table: &EventTable) -> (r: Result<Vec<Value>, InterpretError>)
    requires
        payload@.len() < usize::MAX,
    ensures
        match interpret_spec(table, bc@, payload@) {
            Ok(vals) => r matches Ok(v) && values_view(v@) == vals,
            Err(e) => r == Err::<Vec<Value>, InterpretError>(e),
        },
{
    match run_bc(table, bc, 0, payload, 0, MAX_DEPTH) {
        Ok((vals, _)) => Ok(vals),
        Err(e) => Err(e),
    }
}

} // verus!
