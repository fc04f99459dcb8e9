//! What the interpreter reads back: running an event type's bytecode over the
//! payload its values serialize to yields those values, field by field, and
//! stops exactly where the serialized fields end.

use vstd::prelude::*;
use vstd::string::*;
use crate::bytecode::{
    ITEM_BOOL, ITEM_CALL, ITEM_DISPATCH, ITEM_END, ITEM_F32, ITEM_I16, ITEM_I32, ITEM_I8, ITEM_SKIP, ITEM_STRING_REF,
    ITEM_U16, ITEM_U32, ITEM_U8, ITEM_UTF8_BYTE,
    OPERAND_FIXED_ARRAY, OPERAND_SINGLE, OPERAND_VAR_LENGTH, opcode_of, round_up, skip_bytes,
};
use crate::derived::{EventValue, FieldValue, body_from, value_bytes, value_fits, zeros};
use crate::elf::{EventEntry, StringEntry};
use crate::interpret::{
    EventTable, InterpretError, MAX_DEPTH, Step, ValueV, bc_leb, discriminant_size, dispatch_spec, dispatch_table,
    find_bytecode, find_pair, read_pairs, variant_spec, find_string, instr_spec, interpret_spec,
    is_scalar_item, pack, read_items_spec, read_scalars, run_spec, scalar_at, unknown_string_text,
};
use crate::leb128::{leb128_bytes, lemma_leb128_read_prefix};
use crate::schema::{
    FieldDef, FieldKind, NestedInfo, Scalar, code_from, end_offset, field_code, fields_wf, fixed_size_spec, good_align,
    has_text, is_pad_name, kind_layout, lemma_round_up_bound, scalar_item, scalar_size,
};
use crate::text::{le_value, lemma_le_value_bytes, lossy_utf8, pow256};

verus! {

/// The elements of an array of `n` scalars of `size` bytes held in `b`.
pub open spec fn array_elems(item: u8, size: nat, b: Seq<u8>, n: nat) -> Seq<ValueV> {
    Seq::new(n, |j: int| scalar_at(item, b, (j * size) as nat, size))
}

/// The text a string handle stands for among `strings`.
pub open spec fn ref_text(strings: Seq<StringEntry>, h: u32) -> Seq<u8> {
    match find_string(strings, h) {
        Some(t) => t,
        None => unknown_string_text(h),
    }
}

/// What the interpreter shows for a field of kind `k` holding `v`.
pub open spec fn shown_value(k: FieldKind, v: FieldValue, strings: Seq<StringEntry>) -> Seq<ValueV> {
    match v {
        FieldValue::U8(x) => seq![ValueV::U8(x)],
        FieldValue::U16(x) => seq![ValueV::U16(x)],
        FieldValue::U32(x) => seq![ValueV::U32(x)],
        FieldValue::U64(x) => seq![ValueV::U64(x)],
        FieldValue::I8(x) => seq![ValueV::I8(x)],
        FieldValue::I16(x) => seq![ValueV::I16(x)],
        FieldValue::I32(x) => seq![ValueV::I32(x)],
        FieldValue::I64(x) => seq![ValueV::I64(x)],
        FieldValue::F32(x) => seq![ValueV::F32(x)],
        FieldValue::F64(x) => seq![ValueV::F64(x)],
        FieldValue::Bool(x) => seq![ValueV::Bool(x)],
        FieldValue::Str(s) => seq![ValueV::Str(lossy_utf8(s.spec_bytes()))],
        FieldValue::StrRef(h) => seq![ValueV::Str(ref_text(strings, h))],
        FieldValue::Bytes(b) => match k {
            FieldKind::Array(s, n) => if s == Scalar::U8 {
                seq![ValueV::Str(lossy_utf8(b@))]
            } else {
                pack(array_elems(scalar_item(s), scalar_size(s), b@, n as nat))
            },
            _ => Seq::empty(),
        },
        FieldValue::Nested { .. } => Seq::empty(),
    }
}

/// Whether field `i` is a padding field: fixed-size, with a name that starts with `_`.
pub open spec fn is_padding(f: FieldDef) -> bool {
    kind_layout(f.kind) is Some && is_pad_name(f.name@)
}

/// What field `i` shows: nothing for padding, `nested[i]` for a nested
/// event (what its subroutine reads), else its value.
pub open spec fn shown_field(fields: Seq<FieldDef>, vals: Seq<FieldValue>, i: int, strings: Seq<StringEntry>, nested: Seq<Seq<ValueV>>) -> Seq<ValueV> {
    if is_padding(fields[i]) {
        Seq::empty()
    } else if fields[i].kind is Nested {
        nested[i]
    } else {
        shown_value(fields[i].kind, vals[i], strings)
    }
}

/// The values shown for the fields from `i` on.
pub open spec fn shown_from(fields: Seq<FieldDef>, vals: Seq<FieldValue>, i: int, strings: Seq<StringEntry>, nested: Seq<Seq<ValueV>>) -> Seq<ValueV>
    decreases fields.len() - i,
{
    if i < 0 || i >= fields.len() {
        Seq::empty()
    } else {
        shown_field(fields, vals, i, strings, nested) + shown_from(fields, vals, i + 1, strings, nested)
    }
}

/// The values fit the fields one for one, nested alignments are 1, 2, 4 or
/// 8, and each text is shorter than 2^32 bytes.
pub open spec fn readable(fields: Seq<FieldDef>, vals: Seq<FieldValue>) -> bool {
    &&& vals.len() == fields.len()
    &&& forall|j: int| 0 <= j < fields.len() ==> value_fits(fields[j].kind, #[trigger] vals[j])
    &&& forall|j: int| 0 <= j < fields.len() ==> (#[trigger] fields[j].kind matches FieldKind::Nested(info) ==> good_align(info.align as nat))
    &&& forall|j: int| 0 <= j < fields.len() ==> (#[trigger] vals[j] matches FieldValue::Str(s) ==> s.spec_bytes().len() < 0x1_0000_0000)
}

/// The subroutine of a nested event, run one level deeper from where its
/// bytes `v` stand in any payload, reads `shown` and ends right after them.
pub open spec fn call_reads(events: Seq<EventEntry>, strings: Seq<StringEntry>, info: NestedInfo, v: FieldValue, shown: Seq<ValueV>, depth: nat) -> bool {
    &&& depth > 0
    &&& find_bytecode(events, info.tag) is Some
    &&& forall|payload: Seq<u8>, p: nat|
        p + value_bytes(v).len() <= payload.len() && payload.subrange(p as int, (p + value_bytes(v).len()) as int) == value_bytes(v)
            ==> #[trigger] run_spec(events, strings, find_bytecode(events, info.tag)->Some_0, 0, payload, p, (depth - 1) as nat)
                == Ok::<(Seq<ValueV>, nat), InterpretError>((shown, p + value_bytes(v).len()))
}

/// Each shown nested-event field's subroutine reads `nested` at its index.
pub open spec fn calls_ok(events: Seq<EventEntry>, strings: Seq<StringEntry>, fields: Seq<FieldDef>, vals: Seq<FieldValue>, nested: Seq<Seq<ValueV>>, depth: nat) -> bool {
    forall|j: int| 0 <= j < fields.len() && !is_pad_name(fields[j].name@) ==>
        (#[trigger] fields[j].kind matches FieldKind::Nested(info) ==> call_reads(events, strings, info, vals[j], nested[j], depth))
}

proof fn lemma_pow256_values()
    ensures
        pow256(1) == 0x100,
        pow256(2) == 0x1_0000,
        pow256(4) == 0x1_0000_0000,
        pow256(8) == 0x1_0000_0000_0000_0000,
{
    reveal_with_fuel(pow256, 9);
}

/// A run is its first instruction's values followed by the run after it.
proof fn lemma_run_cons(
    events: Seq<EventEntry>, strings: Seq<StringEntry>, bc: Seq<u8>, pos: nat,
    payload: Seq<u8>, p: nat, depth: nat, vals: Seq<ValueV>, pos2: nat, p2: nat,
)
    requires
        pos < bc.len(),
        pos < pos2 <= bc.len(),
        instr_spec(events, strings, bc, pos, payload, p, depth) == Ok::<Option<Step>, InterpretError>(Some((vals, pos2, p2))),
    ensures
        run_spec(events, strings, bc, pos, payload, p, depth) == prepend(vals, run_spec(events, strings, bc, pos2, payload, p2, depth)),
{
}

/// `vals` in front of what a run yields.
pub open spec fn prepend(vals: Seq<ValueV>, r: Result<(Seq<ValueV>, nat), InterpretError>) -> Result<(Seq<ValueV>, nat), InterpretError> {
    match r {
        Ok((rest, q)) => Ok((vals + rest, q)),
        Err(e) => Err(e),
    }
}

proof fn lemma_prepend_empty(r: Result<(Seq<ValueV>, nat), InterpretError>)
    ensures
        prepend(Seq::empty(), r) == r,
{
    if let Ok((rest, q)) = r {
        assert(Seq::<ValueV>::empty() + rest =~= rest);
    }
}


/// Bytecode that continues with `a + b` at `pos` continues with `b` after `a`.
proof fn lemma_skip_split(bc: Seq<u8>, pos: nat, a: Seq<u8>, b: Seq<u8>)
    requires
        pos <= bc.len(),
        bc.skip(pos as int) == a + b,
    ensures
        pos + a.len() <= bc.len(),
        bc.skip((pos + a.len()) as int) == b,
        forall|j: int| 0 <= j < a.len() ==> bc[pos + j] == a[j],
{
    assert(bc.skip(pos as int).len() == bc.len() - pos);
    assert forall|j: int| 0 <= j < a.len() implies bc[pos + j] == a[j] by {
        assert(bc.skip(pos as int)[j] == bc[pos + j]);
        assert((a + b)[j] == a[j]);
    }
    assert(bc.skip((pos + a.len()) as int) =~= b) by {
        assert forall|j: int| 0 <= j < b.len() implies bc.skip((pos + a.len()) as int)[j] == b[j] by {
            assert(bc.skip(pos as int)[a.len() + j] == (a + b)[a.len() + j]);
            assert(bc.skip(pos as int)[a.len() + j] == bc[pos + a.len() + j]);
            assert(bc.skip((pos + a.len()) as int)[j] == bc[pos + a.len() + j]);
        }
    }
}

/// A payload that holds `a + b` at `p` holds `a` at `p` and `b` after it.
proof fn lemma_payload_split(payload: Seq<u8>, p: nat, a: Seq<u8>, b: Seq<u8>)
    requires
        p + a.len() + b.len() <= payload.len(),
        payload.subrange(p as int, (p + a.len() + b.len()) as int) == a + b,
    ensures
        payload.subrange(p as int, (p + a.len()) as int) == a,
        payload.subrange((p + a.len()) as int, (p + a.len() + b.len()) as int) == b,
{
    let w = payload.subrange(p as int, (p + a.len() + b.len()) as int);
    assert(payload.subrange(p as int, (p + a.len()) as int) =~= a) by {
        assert forall|j: int| 0 <= j < a.len() implies payload.subrange(p as int, (p + a.len()) as int)[j] == a[j] by {
            assert(w[j] == (a + b)[j]);
        }
    }
    assert(payload.subrange((p + a.len()) as int, (p + a.len() + b.len()) as int) =~= b) by {
        assert forall|j: int| 0 <= j < b.len() implies payload.subrange((p + a.len()) as int, (p + a.len() + b.len()) as int)[j] == b[j] by {
            assert(w[a.len() + j] == (a + b)[a.len() + j]);
        }
    }
}

/// A SKIP of `n > 0` bytes moves the payload position `n` bytes on.
#[verifier::spinoff_prover]
proof fn lemma_skip_instr(
    events: Seq<EventEntry>, strings: Seq<StringEntry>, bc: Seq<u8>, pos: nat,
    payload: Seq<u8>, p: nat, depth: nat, n: nat, rest: Seq<u8>,
)
    requires
        0 < n < 0x1_0000_0000_0000_0000,
        pos <= bc.len(),
        bc.skip(pos as int) == skip_bytes(n) + rest,
        p + n <= payload.len(),
    ensures
        pos < bc.len(),
        instr_spec(events, strings, bc, pos, payload, p, depth)
            == Ok::<Option<Step>, InterpretError>(Some((Seq::empty(), pos + skip_bytes(n).len(), p + n))),
{
    let op = seq![opcode_of(ITEM_SKIP, OPERAND_FIXED_ARRAY)];
    let l = leb128_bytes(n);
    assert(skip_bytes(n) + rest =~= op + (l + rest));
    lemma_skip_split(bc, pos, op, l + rest);
    assert(bc[pos + 0int] == op[0]);
    lemma_opcode_parts(ITEM_SKIP, OPERAND_FIXED_ARRAY);
    lemma_leb128_read_prefix(n, rest);
    assert(bc.skip(pos as int + 1) == l + rest);
}


/// Bytes per element of a scalar item type.
pub open spec fn item_size(item: u8) -> nat {
    if item == ITEM_U8 || item == ITEM_I8 || item == ITEM_BOOL { 1 }
    else if item == ITEM_U16 || item == ITEM_I16 { 2 }
    else if item == ITEM_U32 || item == ITEM_I32 || item == ITEM_F32 { 4 }
    else { 8 }
}

/// An opcode splits back into its item type and operand type.
proof fn lemma_opcode_parts(item: u8, operand: u8)
    requires
        item < 32,
        operand < 8,
    ensures
        opcode_of(item, operand) / 8 == item,
        opcode_of(item, operand) % 8 == operand,
{
    assert((item as nat * 8) % 256 == item as nat * 8);
    assert(opcode_of(item, operand) == item * 8 + operand);
}

/// An integer, float or bool instruction reads items of its size.
#[verifier::spinoff_prover]
proof fn lemma_items_dispatch(
    events: Seq<EventEntry>, strings: Seq<StringEntry>, bc: Seq<u8>, pos: nat,
    payload: Seq<u8>, p: nat, depth: nat, item: u8, operand: u8,
)
    requires
        pos < bc.len(),
        is_scalar_item(item),
        operand < 8,
        bc[pos as int] == opcode_of(item, operand),
    ensures
        instr_spec(events, strings, bc, pos, payload, p, depth) == match read_items_spec(item_size(item), item, operand, bc, pos + 1, payload, p) {
            Ok(st) => Ok::<Option<Step>, InterpretError>(Some(st)),
            Err(e) => Err(e),
        },
{
    lemma_opcode_parts(item, operand);
}

/// A scalar's payload bytes read back as the scalar.
proof fn lemma_scalar_bytes(s: Scalar, v: FieldValue, strings: Seq<StringEntry>)
    requires
        value_fits(FieldKind::Scalar(s), v),
    ensures
        value_bytes(v).len() == scalar_size(s),
        seq![scalar_at(scalar_item(s), value_bytes(v), 0, scalar_size(s))] == shown_value(FieldKind::Scalar(s), v, strings),
{
    lemma_pow256_values();
    let b = value_bytes(v);
    match v {
        FieldValue::U8(x) => { lemma_le_value_bytes(x as nat, 1); }
        FieldValue::U16(x) => { lemma_le_value_bytes(x as nat, 2); }
        FieldValue::U32(x) => { lemma_le_value_bytes(x as nat, 4); }
        FieldValue::U64(x) => { lemma_le_value_bytes(x as nat, 8); }
        FieldValue::I8(x) => {
            lemma_le_value_bytes((x as u8) as nat, 1);
            assert((x as u8) as i8 == x) by (bit_vector);
        }
        FieldValue::I16(x) => {
            lemma_le_value_bytes((x as u16) as nat, 2);
            assert((x as u16) as i16 == x) by (bit_vector);
        }
        FieldValue::I32(x) => {
            lemma_le_value_bytes((x as u32) as nat, 4);
            assert((x as u32) as i32 == x) by (bit_vector);
        }
        FieldValue::I64(x) => {
            lemma_le_value_bytes((x as u64) as nat, 8);
            assert((x as u64) as i64 == x) by (bit_vector);
        }
        FieldValue::F32(x) => { lemma_le_value_bytes(x as nat, 4); }
        FieldValue::F64(x) => { lemma_le_value_bytes(x as nat, 8); }
        FieldValue::Bool(x) => {
            assert(le_value(b.drop_first()) == 0);
        }
        _ => {}
    }
    assert(b.subrange(0, scalar_size(s) as int) =~= b);
}

/// A scalar field's instruction reads its value at `p`.
proof fn lemma_scalar_instr(
    events: Seq<EventEntry>, strings: Seq<StringEntry>, bc: Seq<u8>, pos: nat,
    payload: Seq<u8>, p: nat, depth: nat, s: Scalar, v: FieldValue, rest: Seq<u8>,
)
    requires
        value_fits(FieldKind::Scalar(s), v),
        pos <= bc.len(),
        bc.skip(pos as int) == field_code(FieldKind::Scalar(s)) + rest,
        p + value_bytes(v).len() <= payload.len(),
        payload.subrange(p as int, (p + value_bytes(v).len()) as int) == value_bytes(v),
    ensures
        pos < bc.len(),
        instr_spec(events, strings, bc, pos, payload, p, depth) == Ok::<Option<Step>, InterpretError>(
            Some((shown_value(FieldKind::Scalar(s), v, strings), pos + 1, p + scalar_size(s)))),
{
    let code = field_code(FieldKind::Scalar(s));
    lemma_skip_split(bc, pos, code, rest);
    assert(bc[pos + 0int] == code[0]);
    lemma_scalar_bytes(s, v, strings);
    let item = scalar_item(s);
    let size = scalar_size(s);
    lemma_items_dispatch(events, strings, bc, pos, payload, p, depth, item, OPERAND_SINGLE);
    assert(item_size(item) == size);
    assert(payload.subrange(p as int, (p + size) as int) == value_bytes(v));
    assert(read_scalars(item, size, payload, p + size, 0) == Ok::<(Seq<ValueV>, nat), InterpretError>((Seq::empty(), p + size)));
    assert(scalar_at(item, payload, p, size) == scalar_at(item, value_bytes(v), 0, size)) by {
        assert(value_bytes(v).subrange(0, size as int) =~= value_bytes(v));
    }
    assert(seq![scalar_at(item, payload, p, size)] + Seq::<ValueV>::empty() =~= seq![scalar_at(item, payload, p, size)]);
}

/// `n` scalars read one after the other.
proof fn lemma_read_scalars_all(item: u8, size: nat, payload: Seq<u8>, p: nat, n: nat)
    requires
        is_scalar_item(item),
        size > 0,
        p + n * size <= payload.len(),
    ensures
        read_scalars(item, size, payload, p, n) == Ok::<(Seq<ValueV>, nat), InterpretError>((
            Seq::new(n, |j: int| scalar_at(item, payload, (p + j * size) as nat, size)), p + n * size)),
    decreases n,
{
    if n == 0 {
        assert(Seq::new(0, |j: int| scalar_at(item, payload, (p + j * size) as nat, size)) =~= Seq::<ValueV>::empty());
    } else {
        assert(p + size + (n - 1) * size == p + n * size) by (nonlinear_arith)
            requires n > 0;
        lemma_read_scalars_all(item, size, payload, p + size, (n - 1) as nat);
        let tail = Seq::new((n - 1) as nat, |j: int| scalar_at(item, payload, (p + size + j * size) as nat, size));
        let all = Seq::new(n, |j: int| scalar_at(item, payload, (p + j * size) as nat, size));
        assert(seq![scalar_at(item, payload, p, size)] + tail =~= all) by {
            assert forall|j: int| 1 <= j < n implies tail[j - 1] == all[j] by {
                assert(p + size + (j - 1) * size == p + j * size) by (nonlinear_arith);
            }
            assert(all[0] == scalar_at(item, payload, p, size));
        }
    }
}

/// The scalars read from the payload are those of the bytes it holds.
proof fn lemma_elems_from_payload(item: u8, size: nat, payload: Seq<u8>, p: nat, n: nat, b: Seq<u8>)
    requires
        size > 0,
        b.len() == n * size,
        p + n * size <= payload.len(),
        payload.subrange(p as int, (p + n * size) as int) == b,
    ensures
        Seq::new(n, |j: int| scalar_at(item, payload, (p + j * size) as nat, size)) == array_elems(item, size, b, n),
{
    let lhs = Seq::new(n, |j: int| scalar_at(item, payload, (p + j * size) as nat, size));
    assert forall|j: int| 0 <= j < n implies lhs[j] == array_elems(item, size, b, n)[j] by {
        assert(j * size + size <= n * size) by (nonlinear_arith)
            requires 0 <= j < n, size > 0;
        assert(j * size >= 0) by (nonlinear_arith)
            requires 0 <= j, size > 0;
        let q = (j * size) as nat;
        assert(payload.subrange((p + q) as int, (p + q + size) as int) =~= b.subrange(q as int, (q + size) as int)) by {
            assert forall|t: int| 0 <= t < size implies #[trigger] payload.subrange((p + q) as int, (p + q + size) as int)[t] == b.subrange(q as int, (q + size) as int)[t] by {
                assert(payload.subrange(p as int, (p + n * size) as int)[q + t] == payload[p + q + t]);
            }
        }
    }
    assert(lhs =~= array_elems(item, size, b, n));
}

/// A byte array's instruction reads its bytes as text.
#[verifier::spinoff_prover]
proof fn lemma_byte_array_instr(
    events: Seq<EventEntry>, strings: Seq<StringEntry>, bc: Seq<u8>, pos: nat,
    payload: Seq<u8>, p: nat, depth: nat, n: u32, v: FieldValue, rest: Seq<u8>,
)
    requires
        value_fits(FieldKind::Array(Scalar::U8, n), v),
        pos <= bc.len(),
        bc.skip(pos as int) == field_code(FieldKind::Array(Scalar::U8, n)) + rest,
        p + value_bytes(v).len() <= payload.len(),
        payload.subrange(p as int, (p + value_bytes(v).len()) as int) == value_bytes(v),
    ensures
        pos < bc.len(),
        instr_spec(events, strings, bc, pos, payload, p, depth) == Ok::<Option<Step>, InterpretError>(
            Some((shown_value(FieldKind::Array(Scalar::U8, n), v, strings), pos + field_code(FieldKind::Array(Scalar::U8, n)).len(), p + value_bytes(v).len()))),
{
    let k = FieldKind::Array(Scalar::U8, n);
    let b = v->Bytes_0@;
    let op = seq![opcode_of(ITEM_UTF8_BYTE, OPERAND_FIXED_ARRAY)];
    let l = leb128_bytes(n as nat);
    assert(field_code(k) =~= op + l);
    assert(field_code(k) + rest =~= op + (l + rest));
    lemma_skip_split(bc, pos, op, l + rest);
    assert(bc[pos + 0int] == op[0]);
    lemma_opcode_parts(ITEM_UTF8_BYTE, OPERAND_FIXED_ARRAY);
    lemma_leb128_read_prefix(n as nat, rest);
    assert(bc.skip(pos as int + 1) == l + rest);
    assert(v is Bytes);
    assert(scalar_size(Scalar::U8) == 1);
    assert(b.len() == n as nat * 1);
}

/// An array of non-byte scalars is read element by element.
#[verifier::spinoff_prover]
proof fn lemma_scalar_array_instr(
    events: Seq<EventEntry>, strings: Seq<StringEntry>, bc: Seq<u8>, pos: nat,
    payload: Seq<u8>, p: nat, depth: nat, s: Scalar, n: u32, v: FieldValue, rest: Seq<u8>,
)
    requires
        s != Scalar::U8,
        value_fits(FieldKind::Array(s, n), v),
        pos <= bc.len(),
        bc.skip(pos as int) == field_code(FieldKind::Array(s, n)) + rest,
        p + value_bytes(v).len() <= payload.len(),
        payload.subrange(p as int, (p + value_bytes(v).len()) as int) == value_bytes(v),
    ensures
        pos < bc.len(),
        instr_spec(events, strings, bc, pos, payload, p, depth) == Ok::<Option<Step>, InterpretError>(
            Some((shown_value(FieldKind::Array(s, n), v, strings), pos + field_code(FieldKind::Array(s, n)).len(), p + value_bytes(v).len()))),
{
    let k = FieldKind::Array(s, n);
    let b = v->Bytes_0@;
    let item = scalar_item(s);
    let size = scalar_size(s);
    let op = seq![opcode_of(item, OPERAND_FIXED_ARRAY)];
    let l = leb128_bytes(n as nat);
    assert(field_code(k) =~= op + l);
    assert(field_code(k) + rest =~= op + (l + rest));
    lemma_skip_split(bc, pos, op, l + rest);
    assert(bc[pos + 0int] == op[0]);
    lemma_items_dispatch(events, strings, bc, pos, payload, p, depth, item, OPERAND_FIXED_ARRAY);
    assert(item_size(item) == size);
    lemma_leb128_read_prefix(n as nat, rest);
    assert(bc.skip(pos as int + 1) == l + rest);
    assert(n as nat * size == b.len());
    lemma_read_scalars_all(item, size, payload, p, n as nat);
    lemma_elems_from_payload(item, size, payload, p, n as nat, b);
    let elems = array_elems(item, size, b, n as nat);
    assert(read_items_spec(size, item, OPERAND_FIXED_ARRAY, bc, pos + 1, payload, p)
        == Ok::<Step, InterpretError>((pack(elems), pos + 1 + l.len(), p + b.len())));
}

/// A text field's instruction reads its LEB128 length and its bytes.
proof fn lemma_str_instr(
    events: Seq<EventEntry>, strings: Seq<StringEntry>, bc: Seq<u8>, pos: nat,
    payload: Seq<u8>, p: nat, depth: nat, v: FieldValue, rest: Seq<u8>,
)
    requires
        value_fits(FieldKind::Str, v),
        v matches FieldValue::Str(t) ==> t.spec_bytes().len() < 0x1_0000_0000,
        pos <= bc.len(),
        bc.skip(pos as int) == field_code(FieldKind::Str) + rest,
        p + value_bytes(v).len() <= payload.len(),
        payload.subrange(p as int, (p + value_bytes(v).len()) as int) == value_bytes(v),
    ensures
        pos < bc.len(),
        instr_spec(events, strings, bc, pos, payload, p, depth) == Ok::<Option<Step>, InterpretError>(
            Some((shown_value(FieldKind::Str, v, strings), pos + 1, p + value_bytes(v).len()))),
{
    let code = field_code(FieldKind::Str);
    lemma_skip_split(bc, pos, code, rest);
    assert(bc[pos + 0int] == code[0]);
    assert(bc[pos as int] / 8 == ITEM_UTF8_BYTE && bc[pos as int] % 8 == OPERAND_VAR_LENGTH);
    let t = v->Str_0.spec_bytes();
    let m = t.len();
    let l = leb128_bytes(m);
    assert((m as u32) as nat == m);
    let vb = value_bytes(v);
    assert(vb == l + t);
    let after = payload.skip((p + vb.len()) as int);
    assert(payload.skip(p as int) =~= l + (t + after)) by {
        assert(payload.skip(p as int) =~= payload.subrange(p as int, (p + vb.len()) as int) + after);
    }
    lemma_leb128_read_prefix(m, t + after);
    lemma_payload_split(payload, p, l, t);
}

/// A string-handle field's instruction reads the handle and looks it up.
proof fn lemma_ref_instr(
    events: Seq<EventEntry>, strings: Seq<StringEntry>, bc: Seq<u8>, pos: nat,
    payload: Seq<u8>, p: nat, depth: nat, v: FieldValue, rest: Seq<u8>,
)
    requires
        value_fits(FieldKind::StrRef, v),
        pos <= bc.len(),
        bc.skip(pos as int) == field_code(FieldKind::StrRef) + rest,
        p + value_bytes(v).len() <= payload.len(),
        payload.subrange(p as int, (p + value_bytes(v).len()) as int) == value_bytes(v),
    ensures
        pos < bc.len(),
        value_bytes(v).len() == 4,
        instr_spec(events, strings, bc, pos, payload, p, depth) == Ok::<Option<Step>, InterpretError>(
            Some((shown_value(FieldKind::StrRef, v, strings), pos + 1, p + 4))),
{
    let code = field_code(FieldKind::StrRef);
    lemma_skip_split(bc, pos, code, rest);
    assert(bc[pos + 0int] == code[0]);
    assert(bc[pos as int] / 8 == ITEM_STRING_REF);
    lemma_pow256_values();
    let h = v->StrRef_0;
    lemma_le_value_bytes(h as nat, 4);
}

/// Alignment gap before field `i` at running offset `offset`.
pub open spec fn gap_at(fields: Seq<FieldDef>, i: int, offset: nat) -> nat {
    match kind_layout(fields[i].kind) {
        Some((align, size)) => (round_up(offset, align) - offset) as nat,
        None => 0,
    }
}

/// The running offset after field `i`.
pub open spec fn offset_after(fields: Seq<FieldDef>, i: int, offset: nat) -> nat {
    match kind_layout(fields[i].kind) {
        Some((align, size)) => round_up(offset, align) + size,
        None => 0,
    }
}

/// The bytecode of field `i` alone, without the alignment skip before it.
pub open spec fn own_code(fields: Seq<FieldDef>, i: int) -> Seq<u8> {
    match kind_layout(fields[i].kind) {
        Some((align, size)) => if is_pad_name(fields[i].name@) { skip_bytes(size) } else { field_code(fields[i].kind) },
        None => field_code(fields[i].kind),
    }
}

/// The payload bytes of field `i` alone, without the alignment gap before it.
pub open spec fn own_body(fields: Seq<FieldDef>, vals: Seq<FieldValue>, i: int, variant: bool) -> Seq<u8> {
    match kind_layout(fields[i].kind) {
        Some((align, size)) => if variant && is_pad_name(fields[i].name@) { zeros(size) } else { value_bytes(vals[i]) },
        None => value_bytes(vals[i]),
    }
}

proof fn lemma_code_body_split(fields: Seq<FieldDef>, vals: Seq<FieldValue>, i: int, offset: nat, variant: bool)
    requires
        0 <= i < fields.len(),
    ensures
        code_from(fields, i, offset) == skip_bytes(gap_at(fields, i, offset)) + own_code(fields, i) + code_from(fields, i + 1, offset_after(fields, i, offset)),
        body_from(fields, vals, i, offset, variant) == zeros(gap_at(fields, i, offset)) + own_body(fields, vals, i, variant) + body_from(fields, vals, i + 1, offset_after(fields, i, offset), variant),
{
    if kind_layout(fields[i].kind) is None {
        assert(skip_bytes(0) =~= Seq::<u8>::empty());
        assert(zeros(0) =~= Seq::<u8>::empty());
        assert(code_from(fields, i, offset) =~= skip_bytes(0) + own_code(fields, i) + code_from(fields, i + 1, 0));
        assert(body_from(fields, vals, i, offset, variant) =~= zeros(0) + own_body(fields, vals, i, variant) + body_from(fields, vals, i + 1, 0, variant));
    }
}

/// A nested event's CALL runs its subroutine where its bytes stand.
#[verifier::spinoff_prover]
proof fn lemma_call_instr(
    events: Seq<EventEntry>, strings: Seq<StringEntry>, bc: Seq<u8>, pos: nat,
    payload: Seq<u8>, p: nat, depth: nat, info: NestedInfo, v: FieldValue, shown: Seq<ValueV>, rest: Seq<u8>,
)
    requires
        value_fits(FieldKind::Nested(info), v),
        call_reads(events, strings, info, v, shown, depth),
        pos <= bc.len(),
        bc.skip(pos as int) == field_code(FieldKind::Nested(info)) + rest,
        p + value_bytes(v).len() <= payload.len(),
        payload.subrange(p as int, (p + value_bytes(v).len()) as int) == value_bytes(v),
    ensures
        pos < bc.len(),
        instr_spec(events, strings, bc, pos, payload, p, depth) == Ok::<Option<Step>, InterpretError>(
            Some((shown, pos + field_code(FieldKind::Nested(info)).len(), p + value_bytes(v).len()))),
{
    let k = FieldKind::Nested(info);
    let op = seq![opcode_of(ITEM_CALL, OPERAND_SINGLE)];
    let l = leb128_bytes(info.tag as nat);
    assert(field_code(k) =~= op + l);
    assert(field_code(k) + rest =~= op + (l + rest));
    lemma_skip_split(bc, pos, op, l + rest);
    assert(bc[pos + 0int] == op[0]);
    lemma_opcode_parts(ITEM_CALL, OPERAND_SINGLE);
    lemma_leb128_read_prefix(info.tag as nat, rest);
    assert(bc.skip(pos as int + 1) == l + rest);
    let callee = find_bytecode(events, info.tag)->Some_0;
    assert(run_spec(events, strings, callee, 0, payload, p, (depth - 1) as nat)
        == Ok::<(Seq<ValueV>, nat), InterpretError>((shown, p + value_bytes(v).len())));
}

/// A fixed-size field's value takes exactly the field's size.
proof fn lemma_fixed_len(k: FieldKind, v: FieldValue)
    requires
        value_fits(k, v),
        kind_layout(k) is Some,
    ensures
        value_bytes(v).len() == kind_layout(k)->Some_0.1,
{
    match k {
        FieldKind::Scalar(s) => { lemma_scalar_bytes(s, v, Seq::empty()); }
        FieldKind::StrRef => { crate::text::lemma_le_bytes_len(v->StrRef_0 as nat, 4); }
        _ => {}
    }
}

/// Field `i`'s own instruction reads what field `i` shows.
#[verifier::spinoff_prover]
proof fn lemma_own_instr(
    events: Seq<EventEntry>, strings: Seq<StringEntry>, bc: Seq<u8>, pos: nat,
    payload: Seq<u8>, p: nat, depth: nat,
    fields: Seq<FieldDef>, vals: Seq<FieldValue>, i: int, variant: bool, rest: Seq<u8>, nested: Seq<Seq<ValueV>>,
)
    requires
        readable(fields, vals),
        calls_ok(events, strings, fields, vals, nested, depth),
        0 <= i < fields.len(),
        own_code(fields, i).len() > 0,
        pos <= bc.len(),
        bc.skip(pos as int) == own_code(fields, i) + rest,
        p + own_body(fields, vals, i, variant).len() <= payload.len(),
        payload.subrange(p as int, (p + own_body(fields, vals, i, variant).len()) as int) == own_body(fields, vals, i, variant),
    ensures
        pos < bc.len(),
        instr_spec(events, strings, bc, pos, payload, p, depth) == Ok::<Option<Step>, InterpretError>(Some((
            shown_field(fields, vals, i, strings, nested), pos + own_code(fields, i).len(), p + own_body(fields, vals, i, variant).len()))),
{
    let k = fields[i].kind;
    let v = vals[i];
    assert(value_fits(k, v));
    assert(v matches FieldValue::Str(t) ==> t.spec_bytes().len() < 0x1_0000_0000);
    match kind_layout(k) {
        None => {
            lemma_str_instr(events, strings, bc, pos, payload, p, depth, v, rest);
        }
        Some((align, size)) => {
            lemma_fixed_len(k, v);
            if is_pad_name(fields[i].name@) {
                assert(skip_bytes(0) =~= Seq::<u8>::empty());
                assert(size > 0);
                assert(size < 0x1_0000_0000_0000_0000) by {
                    if let FieldKind::Array(sc, n) = k {
                        assert(n as nat * scalar_size(sc) <= 0xFFFF_FFFF * 8) by (nonlinear_arith)
                            requires scalar_size(sc) <= 8, n <= 0xFFFF_FFFF;
                    }
                }
                lemma_skip_instr(events, strings, bc, pos, payload, p, depth, size, rest);
            } else {
                match k {
                    FieldKind::Scalar(sc) => {
                        lemma_scalar_instr(events, strings, bc, pos, payload, p, depth, sc, v, rest);
                    }
                    FieldKind::Array(sc, n) => {
                        if sc == Scalar::U8 {
                            lemma_byte_array_instr(events, strings, bc, pos, payload, p, depth, n, v, rest);
                        } else {
                            lemma_scalar_array_instr(events, strings, bc, pos, payload, p, depth, sc, n, v, rest);
                        }
                    }
                    FieldKind::StrRef => {
                        lemma_ref_instr(events, strings, bc, pos, payload, p, depth, v, rest);
                    }
                    FieldKind::Nested(info) => {
                        assert(call_reads(events, strings, info, v, nested[i], depth));
                        lemma_call_instr(events, strings, bc, pos, payload, p, depth, info, v, nested[i], rest);
                    }
                    _ => {}
                }
            }
        }
    }
}

/// The alignment gap before a field is less than eight bytes.
proof fn lemma_gap_small(fields: Seq<FieldDef>, vals: Seq<FieldValue>, i: int, offset: nat)
    requires
        readable(fields, vals),
        0 <= i < fields.len(),
    ensures
        gap_at(fields, i, offset) < 8,
        kind_layout(fields[i].kind) matches Some((a, z)) ==> round_up(offset, a) >= offset,
{
    if let Some((a, z)) = kind_layout(fields[i].kind) {
        assert(good_align(a)) by {
            match fields[i].kind {
                FieldKind::Scalar(sc) => {},
                FieldKind::Array(sc, n) => {},
                FieldKind::Nested(info) => {},
                _ => {},
            }
        }
        lemma_round_up_bound(offset, a);
    }
}

/// Field `i` (its alignment skip and its own instruction) reads what it shows.
#[verifier::spinoff_prover]
proof fn lemma_field_run(
    events: Seq<EventEntry>, strings: Seq<StringEntry>, bc: Seq<u8>, pos: nat,
    payload: Seq<u8>, p: nat, depth: nat,
    fields: Seq<FieldDef>, vals: Seq<FieldValue>, i: int, offset: nat, variant: bool, rest: Seq<u8>,
    nested: Seq<Seq<ValueV>>,
)
    requires
        readable(fields, vals),
        calls_ok(events, strings, fields, vals, nested, depth),
        0 <= i < fields.len(),
        pos <= bc.len(),
        bc.skip(pos as int) == skip_bytes(gap_at(fields, i, offset)) + own_code(fields, i) + rest,
        p + gap_at(fields, i, offset) + own_body(fields, vals, i, variant).len() <= payload.len(),
        payload.subrange(p as int, (p + gap_at(fields, i, offset) + own_body(fields, vals, i, variant).len()) as int)
            == zeros(gap_at(fields, i, offset)) + own_body(fields, vals, i, variant),
    ensures
        run_spec(events, strings, bc, pos, payload, p, depth) == prepend(shown_field(fields, vals, i, strings, nested), run_spec(
            events, strings, bc, pos + skip_bytes(gap_at(fields, i, offset)).len() + own_code(fields, i).len(), payload,
            p + gap_at(fields, i, offset) + own_body(fields, vals, i, variant).len(), depth)),
{
    let g = gap_at(fields, i, offset);
    let c = own_code(fields, i);
    let ob = own_body(fields, vals, i, variant);
    let sg = skip_bytes(g);
    let pos1 = pos + sg.len();
    let p1 = p + g;
    let pos2 = pos1 + c.len();
    let p2 = p1 + ob.len();
    lemma_gap_small(fields, vals, i, offset);
    assert(bc.skip(pos as int) == sg + (c + rest)) by {
        assert(sg + c + rest =~= sg + (c + rest));
    }
    lemma_skip_split(bc, pos, sg, c + rest);
    assert(zeros(g).len() == g);
    lemma_payload_split(payload, p, zeros(g), ob);
    if g > 0 {
        lemma_skip_instr(events, strings, bc, pos, payload, p, depth, g, c + rest);
        lemma_run_cons(events, strings, bc, pos, payload, p, depth, Seq::empty(), pos1, p1);
        lemma_prepend_empty(run_spec(events, strings, bc, pos1, payload, p1, depth));
    } else {
        assert(sg =~= Seq::<u8>::empty());
    }
    assert(run_spec(events, strings, bc, pos, payload, p, depth) == run_spec(events, strings, bc, pos1, payload, p1, depth));
    if c.len() > 0 {
        lemma_own_instr(events, strings, bc, pos1, payload, p1, depth, fields, vals, i, variant, rest, nested);
        lemma_skip_split(bc, pos1, c, rest);
        lemma_run_cons(events, strings, bc, pos1, payload, p1, depth, shown_field(fields, vals, i, strings, nested), pos2, p2);
    } else {
        let k = fields[i].kind;
        assert(kind_layout(k) is Some && is_pad_name(fields[i].name@)) by {
            if kind_layout(k) is None || !is_pad_name(fields[i].name@) {
                assert(field_code(k).len() > 0);
            }
        }
        let size = kind_layout(k)->Some_0.1;
        assert(size == 0) by {
            if size > 0 {
                assert(skip_bytes(size).len() > 0);
            }
        }
        lemma_fixed_len(k, vals[i]);
        assert(ob.len() == 0);
        assert(shown_field(fields, vals, i, strings, nested) == Seq::<ValueV>::empty());
        lemma_prepend_empty(run_spec(events, strings, bc, pos1, payload, p1, depth));
    }
}

/// The fields from `i` on read back what they show and end where their bytes end.
#[verifier::spinoff_prover]
proof fn lemma_run_fields(
    events: Seq<EventEntry>, strings: Seq<StringEntry>, bc: Seq<u8>, pos: nat,
    payload: Seq<u8>, p: nat, depth: nat,
    fields: Seq<FieldDef>, vals: Seq<FieldValue>, i: int, offset: nat, variant: bool,
    nested: Seq<Seq<ValueV>>,
)
    requires
        readable(fields, vals),
        calls_ok(events, strings, fields, vals, nested, depth),
        0 <= i <= fields.len(),
        pos <= bc.len(),
        bc.skip(pos as int) == code_from(fields, i, offset),
        p + body_from(fields, vals, i, offset, variant).len() <= payload.len(),
        payload.subrange(p as int, (p + body_from(fields, vals, i, offset, variant).len()) as int) == body_from(fields, vals, i, offset, variant),
    ensures
        run_spec(events, strings, bc, pos, payload, p, depth) == Ok::<(Seq<ValueV>, nat), InterpretError>((
            shown_from(fields, vals, i, strings, nested), p + body_from(fields, vals, i, offset, variant).len())),
    decreases fields.len() - i,
{
    if i == fields.len() {
        let end = seq![opcode_of(ITEM_END, OPERAND_SINGLE)];
        assert(code_from(fields, i, offset) == end);
        assert(end + Seq::<u8>::empty() =~= end);
        lemma_skip_split(bc, pos, end, Seq::empty());
        assert(bc[pos + 0int] == end[0]);
        lemma_opcode_parts(ITEM_END, OPERAND_SINGLE);
        assert(body_from(fields, vals, i, offset, variant) =~= Seq::<u8>::empty());
        assert(instr_spec(events, strings, bc, pos, payload, p, depth) == Ok::<Option<Step>, InterpretError>(None));
        assert(shown_from(fields, vals, i, strings, nested) == Seq::<ValueV>::empty());
    } else {
        lemma_code_body_split(fields, vals, i, offset, variant);
        let g = gap_at(fields, i, offset);
        let c = own_code(fields, i);
        let ob = own_body(fields, vals, i, variant);
        let next = offset_after(fields, i, offset);
        let crest = code_from(fields, i + 1, next);
        let brest = body_from(fields, vals, i + 1, next, variant);
        let pos2 = pos + skip_bytes(g).len() + c.len();
        let p2 = p + g + ob.len();
        assert(zeros(g).len() == g);
        lemma_payload_split(payload, p, zeros(g) + ob, brest);
        lemma_field_run(events, strings, bc, pos, payload, p, depth, fields, vals, i, offset, variant, crest, nested);
        lemma_skip_split(bc, pos, skip_bytes(g) + c, crest);
        lemma_run_fields(events, strings, bc, pos2, payload, p2, depth, fields, vals, i + 1, next, variant, nested);
        assert(body_from(fields, vals, i, offset, variant).len() == g + ob.len() + brest.len());
    }
}

/// Without text fields, the serialized fields end at the layout's end offset.
proof fn lemma_body_len(fields: Seq<FieldDef>, vals: Seq<FieldValue>, i: int, offset: nat, variant: bool)
    requires
        readable(fields, vals),
        0 <= i <= fields.len(),
        !has_text(fields),
    ensures
        offset + body_from(fields, vals, i, offset, variant).len() == end_offset(fields, i, offset),
    decreases fields.len() - i,
{
    if i < fields.len() {
        let k = fields[i].kind;
        assert(k != FieldKind::Str);
        lemma_gap_small(fields, vals, i, offset);
        lemma_fixed_len(k, vals[i]);
        lemma_code_body_split(fields, vals, i, offset, variant);
        let next = offset_after(fields, i, offset);
        lemma_body_len(fields, vals, i + 1, next, variant);
    }
}

/// How many bytes of its payload the interpreter reads for an event: all of
/// them when a field is text, else up to the end of the last field (the
/// tail padding stays unread).
pub open spec fn read_extent(ev: &EventValue) -> nat {
    if has_text(ev.schema_v().fields_v()) {
        ev.payload().len()
    } else {
        end_offset(ev.schema_v().fields_v(), 0, 0)
    }
}

/// An event without text fields serializes to exactly its `repr(C)` size,
/// tail padding included.
pub proof fn law_payload_size_is_layout_size<'a>(ev: &EventValue<'a>)
    requires
        ev.wf(),
        !has_text(ev.schema_v().fields_v()),
    ensures
        fixed_size_spec(ev.schema_v().fields_v()) == Some(ev.payload().len()),
{
    let fields = ev.schema_v().fields_v();
    let vals = ev.values_v();
    let variant = ev.schema_v().enum_name_v() is Some;
    assert(readable(fields, vals)) by {
        assert forall|j: int| 0 <= j < fields.len() implies (#[trigger] fields[j].kind matches FieldKind::Nested(info) ==> good_align(info.align as nat)) by {
            assert(fields_wf(fields));
        }
    }
    lemma_body_len(fields, vals, 0, 0, variant);
    crate::schema::lemma_end_le_total(fields);
}

/// Each text of the event is shorter than 2^32 bytes.
pub open spec fn texts_fit(ev: &EventValue) -> bool {
    forall|j: int| 0 <= j < ev.values_v().len() ==> (#[trigger] ev.values_v()[j] matches FieldValue::Str(t) ==> t.spec_bytes().len() < 0x1_0000_0000)
}

/// Wherever an event's payload stands in a stream, running the event type's
/// bytecode there reads the values of its shown fields, in field order
/// (padding fields show nothing), and stops after `read_extent` bytes: given
/// that each shown nested-event field's subroutine in its turn reads
/// `nested` at that field's index from the field's bytes.
pub proof fn law_event_reads_back_in_place<'a>(
    ev: &EventValue<'a>, events: Seq<EventEntry>, strings: Seq<StringEntry>, nested: Seq<Seq<ValueV>>,
    payload: Seq<u8>, p: nat, depth: nat,
)
    requires
        ev.wf(),
        texts_fit(ev),
        calls_ok(events, strings, ev.schema_v().fields_v(), ev.values_v(), nested, depth),
        p + ev.payload().len() <= payload.len(),
        payload.subrange(p as int, (p + ev.payload().len()) as int) == ev.payload(),
    ensures
        run_spec(events, strings, ev.schema_v().bytecode_spec(), 0, payload, p, depth)
            == Ok::<(Seq<ValueV>, nat), InterpretError>((
                shown_from(ev.schema_v().fields_v(), ev.values_v(), 0, strings, nested), p + read_extent(ev))),
{
    let fields = ev.schema_v().fields_v();
    let vals = ev.values_v();
    let variant = ev.schema_v().enum_name_v() is Some;
    let bc = ev.schema_v().bytecode_spec();
    let pl = ev.payload();
    let body = body_from(fields, vals, 0, 0, variant);
    assert(readable(fields, vals)) by {
        assert forall|j: int| 0 <= j < fields.len() implies (#[trigger] fields[j].kind matches FieldKind::Nested(info) ==> good_align(info.align as nat)) by {
            assert(fields_wf(fields));
        }
    }
    assert(bc.skip(0) =~= code_from(fields, 0, 0));
    assert(payload.subrange(p as int, (p + body.len()) as int) =~= body) by {
        assert forall|j: int| 0 <= j < body.len() implies payload.subrange(p as int, (p + body.len()) as int)[j] == body[j] by {
            assert(payload.subrange(p as int, (p + pl.len()) as int)[j] == pl[j]);
            assert(pl[j] == body[j]);
        }
    }
    lemma_run_fields(events, strings, bc, 0, payload, p, depth, fields, vals, 0, 0, variant, nested);
    if has_text(fields) {
        assert(pl =~= body);
    } else {
        lemma_body_len(fields, vals, 0, 0, variant);
    }
}

/// Interpreting an event type's bytecode over the payload its values
/// serialize to gives back the values of its shown fields, in field order,
/// given that each shown nested-event field's subroutine, found in the
/// table, reads `nested` at that field's index from the field's bytes.
pub proof fn law_interpret_reads_back_values<'a>(ev: &EventValue<'a>, table: &EventTable, nested: Seq<Seq<ValueV>>)
    requires
        ev.wf(),
        texts_fit(ev),
        calls_ok(table.events@, table.strings@, ev.schema_v().fields_v(), ev.values_v(), nested, MAX_DEPTH as nat),
    ensures
        interpret_spec(table, ev.schema_v().bytecode_spec(), ev.payload())
            == Ok::<Seq<ValueV>, InterpretError>(shown_from(ev.schema_v().fields_v(), ev.values_v(), 0, table.strings@, nested)),
{
    assert(ev.payload().subrange(0, ev.payload().len() as int) =~= ev.payload());
    law_event_reads_back_in_place(ev, table.events@, table.strings@, nested, ev.payload(), 0, MAX_DEPTH as nat);
}

/// An event whose fields include no nested event: what it shows.
pub open spec fn shown_flat(ev: &EventValue, strings: Seq<StringEntry>) -> Seq<ValueV> {
    shown_from(ev.schema_v().fields_v(), ev.values_v(), 0, strings, Seq::empty())
}

/// `inner` serializes to the bytes of nested-event field value `v` of type
/// `info`, includes no nested event itself, has no tail padding, and its
/// bytecode is the one the table holds under `info.tag`.
pub open spec fn inner_event(events: Seq<EventEntry>, info: NestedInfo, v: FieldValue, inner: &EventValue) -> bool {
    &&& inner.wf()
    &&& texts_fit(inner)
    &&& forall|j: int| 0 <= j < inner.schema_v().fields_v().len() ==> !(#[trigger] inner.schema_v().fields_v()[j].kind is Nested)
    &&& value_bytes(v) == inner.payload()
    &&& read_extent(inner) == inner.payload().len()
    &&& find_bytecode(events, info.tag) == Some(inner.schema_v().bytecode_spec())
}

/// An event with nested-event fields reads back whole: each shown nested
/// field shows the values of the event its bytes serialize.  Stated for one
/// level of nesting, for nested events without tail padding (the bytecode of
/// a struct does not skip its tail padding, so the fields after a nested
/// event with tail padding are read from the wrong place).
pub proof fn law_interpret_reads_back_nested<'a>(ev: &EventValue<'a>, table: &EventTable, inner: Seq<EventValue<'a>>)
    requires
        ev.wf(),
        texts_fit(ev),
        inner.len() == ev.schema_v().fields_v().len(),
        forall|j: int| 0 <= j < ev.schema_v().fields_v().len() && !is_pad_name(ev.schema_v().fields_v()[j].name@) ==>
            (#[trigger] ev.schema_v().fields_v()[j].kind matches FieldKind::Nested(info) ==> inner_event(table.events@, info, ev.values_v()[j], &inner[j])),
    ensures
        interpret_spec(table, ev.schema_v().bytecode_spec(), ev.payload()) == Ok::<Seq<ValueV>, InterpretError>(shown_from(
            ev.schema_v().fields_v(), ev.values_v(), 0, table.strings@,
            Seq::new(inner.len(), |j: int| shown_flat(&inner[j], table.strings@)))),
{
    let fields = ev.schema_v().fields_v();
    let vals = ev.values_v();
    let events = table.events@;
    let strings = table.strings@;
    let nested = Seq::new(inner.len(), |j: int| shown_flat(&inner[j], strings));
    assert forall|j: int| 0 <= j < fields.len() && !is_pad_name(fields[j].name@) implies
        (#[trigger] fields[j].kind matches FieldKind::Nested(info) ==> call_reads(events, strings, info, vals[j], nested[j], MAX_DEPTH as nat)) by {
        if let FieldKind::Nested(info) = fields[j].kind {
            let iv = &inner[j];
            assert(inner_event(events, info, vals[j], iv));
            assert(calls_ok(events, strings, iv.schema_v().fields_v(), iv.values_v(), Seq::empty(), (MAX_DEPTH - 1) as nat));
            assert forall|payload: Seq<u8>, p: nat|
                p + value_bytes(vals[j]).len() <= payload.len() && payload.subrange(p as int, (p + value_bytes(vals[j]).len()) as int) == value_bytes(vals[j])
                implies #[trigger] run_spec(events, strings, find_bytecode(events, info.tag)->Some_0, 0, payload, p, (MAX_DEPTH - 1) as nat)
                    == Ok::<(Seq<ValueV>, nat), InterpretError>((nested[j], p + value_bytes(vals[j]).len())) by {
                law_event_reads_back_in_place(iv, events, strings, Seq::empty(), payload, p, (MAX_DEPTH - 1) as nat);
            }
        }
    }
    law_interpret_reads_back_values(ev, table, nested);
}

/// The bytecode of an enum shown through DISPATCH: discriminant item type
/// `dtype`, `padding` bytes between the discriminant and the variant's
/// fields, one entry sending discriminant `d` to subroutine `tag`, then END.
pub open spec fn dispatch_code(dtype: u8, padding: nat, d: u64, tag: u32) -> Seq<u8> {
    seq![opcode_of(ITEM_DISPATCH, OPERAND_SINGLE)] + leb128_bytes(dtype as nat) + leb128_bytes(padding)
        + leb128_bytes(1) + leb128_bytes(d as nat) + leb128_bytes(tag as nat) + seq![opcode_of(ITEM_END, OPERAND_SINGLE)]
}

/// Bytecode made of `pre`, the encoding of `v` and `rest`: its LEB128 operand
/// after `pre` reads back as `v`.
proof fn lemma_bc_leb_at(pre: Seq<u8>, v: nat, rest: Seq<u8>)
    requires
        v < 0x1_0000_0000_0000_0000,
    ensures
        bc_leb(pre + leb128_bytes(v) + rest, pre.len()) == Ok::<(u64, nat), InterpretError>((v as u64, leb128_bytes(v).len())),
{
    assert((pre + leb128_bytes(v) + rest).skip(pre.len() as int) =~= leb128_bytes(v) + rest);
    lemma_leb128_read_prefix(v, rest);
}

/// The table of `dispatch_code` reads back as its discriminant type, its
/// padding and its one entry, and ends just before the final END.
#[verifier::rlimit(40)]
proof fn lemma_dispatch_code_table(dtype: u8, padding: nat, d: u64, tag: u32)
    requires
        padding < 0x1_0000_0000_0000_0000,
    ensures
        ({
            let bc = dispatch_code(dtype, padding, d, tag);
            &&& bc.len() >= 2
            &&& bc[0] == opcode_of(ITEM_DISPATCH, OPERAND_SINGLE)
            &&& bc[bc.len() - 1] == opcode_of(ITEM_END, OPERAND_SINGLE)
            &&& dispatch_table(bc, 1) == Ok::<(u64, u64, Seq<(u64, u64)>, nat), InterpretError>(
                (dtype as u64, padding as u64, seq![(d, tag as u64)], (bc.len() - 1) as nat))
        }),
{
    let bc = dispatch_code(dtype, padding, d, tag);
    let p1 = seq![opcode_of(ITEM_DISPATCH, OPERAND_SINGLE)];
    let l1 = leb128_bytes(dtype as nat);
    let l2 = leb128_bytes(padding);
    let l3 = leb128_bytes(1);
    let l4 = leb128_bytes(d as nat);
    let l5 = leb128_bytes(tag as nat);
    let end = seq![opcode_of(ITEM_END, OPERAND_SINGLE)];
    let p2 = p1 + l1;
    let p3 = p2 + l2;
    let p4 = p3 + l3;
    let p5 = p4 + l4;
    let p6 = p5 + l5;
    assert(bc =~= p6 + end);
    assert(bc =~= p1 + l1 + (l2 + l3 + l4 + l5 + end));
    assert(bc =~= p2 + l2 + (l3 + l4 + l5 + end));
    assert(bc =~= p3 + l3 + (l4 + l5 + end));
    assert(bc =~= p4 + l4 + (l5 + end));
    assert(bc =~= p5 + l5 + end);
    lemma_bc_leb_at(p1, dtype as nat, l2 + l3 + l4 + l5 + end);
    lemma_bc_leb_at(p2, padding, l3 + l4 + l5 + end);
    lemma_bc_leb_at(p3, 1, l4 + l5 + end);
    lemma_bc_leb_at(p4, d as nat, l5 + end);
    lemma_bc_leb_at(p5, tag as nat, end);
    let q4 = p4.len();
    let q6 = p6.len();
    assert(read_pairs(bc, q4, 0) == Ok::<(Seq<(u64, u64)>, nat), InterpretError>((Seq::empty(), q4)));
    let pairs = seq![(d, tag as u64)];
    assert(Seq::<(u64, u64)>::empty().push((d, tag as u64)) =~= pairs);
    assert(read_pairs(bc, q4, 1) == Ok::<(Seq<(u64, u64)>, nat), InterpretError>((pairs, q6)));
    assert(bc[0] == p1[0]);
    assert(bc[q6 as int] == end[0]);
}

/// A DISPATCH reads the discriminant at the payload position, skips the
/// padding the table announces, and runs the chosen variant's subroutine one
/// level deeper from the byte after the padding: the enum shows exactly what
/// the subroutine reads there.
pub proof fn law_dispatch_skips_padding(
    events: Seq<EventEntry>, strings: Seq<StringEntry>, dtype: u8, size: nat, padding: nat, d: u64, tag: u32,
    payload: Seq<u8>, p: nat, depth: nat,
)
    requires
        discriminant_size(dtype) == Some(size),
        padding < 0x1_0000_0000_0000_0000,
        (d as nat) < pow256(size),
        depth >= 1,
        p + size + padding <= payload.len(),
        payload.subrange(p as int, (p + size) as int) == crate::text::le_bytes(d as nat, size),
        find_bytecode(events, tag) is Some,
    ensures
        run_spec(events, strings, dispatch_code(dtype, padding, d, tag), 0, payload, p, depth)
            == run_spec(events, strings, find_bytecode(events, tag)->Some_0, 0, payload, p + size + padding, (depth - 1) as nat),
{
    let bc = dispatch_code(dtype, padding, d, tag);
    lemma_dispatch_code_table(dtype, padding, d, tag);
    lemma_opcode_parts(ITEM_DISPATCH, OPERAND_SINGLE);
    lemma_opcode_parts(ITEM_END, OPERAND_SINGLE);
    let q6: nat = (bc.len() - 1) as nat;
    let pairs = seq![(d, tag as u64)];
    assert((dtype as u64) as u8 == dtype);
    lemma_le_value_bytes(d as nat, size);
    assert(find_pair(pairs, d) == Some(tag as u64));
    assert((tag as u64) as u32 == tag);
    let callee = find_bytecode(events, tag)->Some_0;
    let q = p + size + padding;
    let r = run_spec(events, strings, callee, 0, payload, q, (depth - 1) as nat);
    let step: Result<Option<Step>, InterpretError> = match r {
        Ok((vals, q2)) => Ok(Some((vals, q6, q2))),
        Err(e) => Err(e),
    };
    assert(variant_spec(events, strings, bc, 0, pairs, d, q6, payload, q, depth) == step);
    assert(dispatch_spec(events, strings, bc, 0, payload, p, depth) == step);
    assert(instr_spec(events, strings, bc, 0, payload, p, depth) == step);
    if let Ok((vals, q2)) = r {
        assert(instr_spec(events, strings, bc, q6, payload, q2, depth) == Ok::<Option<Step>, InterpretError>(None));
        assert(run_spec(events, strings, bc, q6, payload, q2, depth) == Ok::<(Seq<ValueV>, nat), InterpretError>((Seq::empty(), q2)));
        assert(vals + Seq::<ValueV>::empty() =~= vals);
    }
}

/// An enum value serialized as its discriminant, the padding the table
/// announces and then the variant's fields reads back as the variant's
/// shown values, given that each shown nested-event field of the variant in
/// its turn reads `nested` at that field's index.
pub proof fn law_enum_reads_back_variant<'a>(
    ev: &EventValue<'a>, table: &EventTable, nested: Seq<Seq<ValueV>>, dtype: u8, size: nat, d: u64, tag: u32, pad: Seq<u8>,
)
    requires
        ev.wf(),
        texts_fit(ev),
        calls_ok(table.events@, table.strings@, ev.schema_v().fields_v(), ev.values_v(), nested, (MAX_DEPTH - 1) as nat),
        discriminant_size(dtype) == Some(size),
        (d as nat) < pow256(size),
        pad.len() < 0x1_0000_0000_0000_0000,
        find_bytecode(table.events@, tag) == Some(ev.schema_v().bytecode_spec()),
    ensures
        interpret_spec(table, dispatch_code(dtype, pad.len(), d, tag), crate::text::le_bytes(d as nat, size) + pad + ev.payload())
            == Ok::<Seq<ValueV>, InterpretError>(shown_from(ev.schema_v().fields_v(), ev.values_v(), 0, table.strings@, nested)),
{
    let head = crate::text::le_bytes(d as nat, size);
    let payload = head + pad + ev.payload();
    lemma_le_value_bytes(d as nat, size);
    let q = size + pad.len();
    assert(payload.subrange(0, size as int) =~= head);
    assert(payload.subrange(q as int, (q + ev.payload().len()) as int) =~= ev.payload());
    law_dispatch_skips_padding(table.events@, table.strings@, dtype, size, pad.len(), d, tag, payload, 0, MAX_DEPTH as nat);
    law_event_reads_back_in_place(ev, table.events@, table.strings@, nested, payload, q, (MAX_DEPTH - 1) as nat);
}

} // verus!
