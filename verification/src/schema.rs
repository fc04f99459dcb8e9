//! Event schemas: a struct or enum variant, its optional format string and its
//! fields, as the `Zfmt` derive attribute describes them.  From a schema come
//! the event's canonical hash input, its tag, its bytecode and its
//! linker-table entry.

use vstd::prelude::*;
use vstd::string::*;
use vstd::utf8::*;
use crate::bytecode::{
    ITEM_CALL, ITEM_END, ITEM_STRING_REF, ITEM_UTF8_BYTE, OPERAND_FIXED_ARRAY, OPERAND_SINGLE,
    OPERAND_VAR_LENGTH, align_up, opcode, opcode_of, push_skip, push_uleb128, round_up, skip_bytes,
};
use crate::fmtstr::{FormatStrError, SegmentV, format_str_spec, parse_format_str, Segment};
use crate::hash::{
    fnv1a_64, fnv1a_bytes, struct_hash_input, struct_hash_text, variant_hash_input,
    variant_hash_text, field_views, opt_view,
};
use crate::leb128::leb128_bytes;
use crate::numfmt::{digits, to_digits, lemma_u64_digits_len};
use crate::text::{le_bytes, push_le, append_bytes, ascii_string, str_eq};

verus! {

/// A primitive field type.
#[derive(Debug, Clone, Copy, PartialEq, Eq, Structural)]
pub enum Scalar {
    U8,
    U16,
    U32,
    U64,
    I8,
    I16,
    I32,
    I64,
    F32,
    F64,
    Bool,
}

/// What a derived type that is used as a field exposes to the outer event.
#[derive(Debug, Clone, PartialEq, Eq)]
pub struct NestedInfo {
    /// The type's short name, its canonical type name in the outer event.
    pub name: String,
    /// The tag of its bytecode subroutine.
    pub tag: u32,
    /// Its payload size in bytes, tail padding included.
    pub size: u32,
    /// Its alignment: 1, 2, 4 or 8.
    pub align: u32,
}

/// The type of a field.
#[derive(Debug, Clone, PartialEq, Eq)]
pub enum FieldKind {
    Scalar(Scalar),
    /// `[T; N]` of a primitive.
    Array(Scalar, u32),
    /// `&str` or `String`: LEB128 length and UTF-8 bytes.
    Str,
    /// An interned string handle (`ZfmtStr`): its 32-bit hash.
    StrRef,
    /// Another derived struct, serialized in place and shown through its
    /// own bytecode.
    Nested(NestedInfo),
}

/// A named field.  A name that starts with `_` marks padding: it takes
/// space in the payload but is neither hashed nor shown.
#[derive(Debug, Clone, PartialEq, Eq)]
pub struct FieldDef {
    pub name: String,
    pub kind: FieldKind,
}

/// Why a schema was refused.
#[derive(Debug, Clone, Copy, PartialEq, Eq)]
pub enum SchemaError {
    /// The format string is malformed.
    Format(FormatStrError),
    /// A placeholder names no field, or a padding field.
    UnknownField,
    /// A nested type's alignment is not 1, 2, 4 or 8.
    BadAlign,
    /// The fixed-size part of the layout is too large for 32-bit offsets.
    TooLarge,
}

/// An event type: a struct, or a variant of an enum.
pub struct Schema {
    name: String,
    enum_name: Option<String>,
    format: Option<String>,
    fields: Vec<FieldDef>,
}

pub open spec fn scalar_size(s: Scalar) -> nat {
    match s {
        Scalar::U8 | Scalar::I8 | Scalar::Bool => 1,
        Scalar::U16 | Scalar::I16 => 2,
        Scalar::U32 | Scalar::I32 | Scalar::F32 => 4,
        Scalar::U64 | Scalar::I64 | Scalar::F64 => 8,
    }
}

pub open spec fn scalar_item(s: Scalar) -> u8 {
    match s {
        Scalar::U8 => 1,
        Scalar::U16 => 2,
        Scalar::U32 => 3,
        Scalar::U64 => 4,
        Scalar::I8 => 5,
        Scalar::I16 => 6,
        Scalar::I32 => 7,
        Scalar::I64 => 8,
        Scalar::F32 => 11,
        Scalar::F64 => 12,
        Scalar::Bool => 13,
    }
}

pub open spec fn scalar_name(s: Scalar) -> Seq<char> {
    match s {
        Scalar::U8 => "u8"@,
        Scalar::U16 => "u16"@,
        Scalar::U32 => "u32"@,
        Scalar::U64 => "u64"@,
        Scalar::I8 => "i8"@,
        Scalar::I16 => "i16"@,
        Scalar::I32 => "i32"@,
        Scalar::I64 => "i64"@,
        Scalar::F32 => "f32"@,
        Scalar::F64 => "f64"@,
        Scalar::Bool => "bool"@,
    }
}

/// The canonical type name of a field type (`[T; N]` for arrays).
pub open spec fn kind_canonical(k: FieldKind) -> Seq<char> {
    match k {
        FieldKind::Scalar(s) => scalar_name(s),
        FieldKind::Array(s, n) => "["@ + scalar_name(s) + "; "@ + decode_utf8(digits(n as nat, 10, false)) + "]"@,
        FieldKind::Str => "str"@,
        FieldKind::StrRef => "ZfmtStr"@,
        FieldKind::Nested(info) => info.name@,
    }
}

/// Alignment and size of a fixed-size field type; `None` for text.
pub open spec fn kind_layout(k: FieldKind) -> Option<(nat, nat)> {
    match k {
        FieldKind::Scalar(s) => Some((scalar_size(s), scalar_size(s))),
        FieldKind::Array(s, n) => Some((scalar_size(s), n as nat * scalar_size(s))),
        FieldKind::Str => None,
        FieldKind::StrRef => Some((4, 4)),
        FieldKind::Nested(info) => Some((info.align as nat, info.size as nat)),
    }
}

pub open spec fn is_pad_name(name: Seq<char>) -> bool {
    name.len() > 0 && name[0] == '_'
}

/// The `(name, canonical type)` pairs of the non-padding fields.
pub open spec fn hash_fields(fields: Seq<FieldDef>) -> Seq<(Seq<char>, Seq<char>)>
    decreases fields.len(),
{
    if fields.len() == 0 {
        Seq::empty()
    } else {
        let rest = hash_fields(fields.drop_last());
        let f = fields.last();
        if is_pad_name(f.name@) {
            rest
        } else {
            rest.push((f.name@, kind_canonical(f.kind)))
        }
    }
}

pub open spec fn opt_string_view(s: Option<String>) -> Option<Seq<char>> {
    match s {
        Some(x) => Some(x@),
        None => None,
    }
}

/// The bytecode of one non-padding fixed-size field.
pub open spec fn field_code(k: FieldKind) -> Seq<u8> {
    match k {
        FieldKind::Scalar(s) => seq![opcode_of(scalar_item(s), OPERAND_SINGLE)],
        FieldKind::Array(s, n) => seq![
            opcode_of(if s == Scalar::U8 { ITEM_UTF8_BYTE } else { scalar_item(s) }, OPERAND_FIXED_ARRAY),
        ] + leb128_bytes(n as nat),
        FieldKind::Str => seq![opcode_of(ITEM_UTF8_BYTE, OPERAND_VAR_LENGTH)],
        FieldKind::StrRef => seq![opcode_of(ITEM_STRING_REF, OPERAND_SINGLE)],
        FieldKind::Nested(info) => seq![opcode_of(ITEM_CALL, OPERAND_SINGLE)] + leb128_bytes(info.tag as nat),
    }
}

/// The bytecode of the fields from `i` on, `offset` being the running
/// fixed-size offset: `skip` over alignment gaps and padding fields, a
/// var-length text instruction (which resets the offset) for text fields.
pub open spec fn code_from(fields: Seq<FieldDef>, i: int, offset: nat) -> Seq<u8>
    decreases fields.len() - i,
{
    if i < 0 || i >= fields.len() {
        seq![opcode_of(ITEM_END, OPERAND_SINGLE)]
    } else {
        let f = fields[i];
        match kind_layout(f.kind) {
            None => field_code(f.kind) + code_from(fields, i + 1, 0),
            Some((align, size)) => {
                let aligned = round_up(offset, align);
                skip_bytes((aligned - offset) as nat) + (if is_pad_name(f.name@) {
                    skip_bytes(size)
                } else {
                    field_code(f.kind)
                }) + code_from(fields, i + 1, aligned + size)
            },
        }
    }
}

/// The running offset after the fields from `i` on; text fields reset it.
pub open spec fn end_offset(fields: Seq<FieldDef>, i: int, offset: nat) -> nat
    decreases fields.len() - i,
{
    if i < 0 || i >= fields.len() {
        offset
    } else {
        match kind_layout(fields[i].kind) {
            None => end_offset(fields, i + 1, 0),
            Some((align, size)) => end_offset(fields, i + 1, round_up(offset, align) + size),
        }
    }
}

/// The largest alignment among the fixed-size fields from `i` on, at least 1.
pub open spec fn max_align(fields: Seq<FieldDef>, i: int) -> nat
    decreases fields.len() - i,
{
    if i < 0 || i >= fields.len() {
        1
    } else {
        let rest = max_align(fields, i + 1);
        match kind_layout(fields[i].kind) {
            Some((align, _)) => if align > rest { align } else { rest },
            None => rest,
        }
    }
}

pub open spec fn has_text(fields: Seq<FieldDef>) -> bool {
    exists|i: int| 0 <= i < fields.len() && #[trigger] fields[i].kind == FieldKind::Str
}

/// Size with tail padding to the largest alignment, as `repr(C)` lays the
/// fields out; `None` when a field is text.
pub open spec fn fixed_size_spec(fields: Seq<FieldDef>) -> Option<nat> {
    if has_text(fields) {
        None
    } else {
        Some(round_up(end_offset(fields, 0, 0), max_align(fields, 0)))
    }
}

/// An upper bound of every fixed-size offset: alignment plus size, summed.
pub open spec fn span_from(fields: Seq<FieldDef>, i: int) -> nat
    decreases fields.len() - i,
{
    if i < 0 || i >= fields.len() {
        0
    } else {
        match kind_layout(fields[i].kind) {
            Some((align, size)) => align + size + span_from(fields, i + 1),
            None => span_from(fields, i + 1),
        }
    }
}

pub open spec fn good_align(a: nat) -> bool {
    a == 1 || a == 2 || a == 4 || a == 8
}

/// Every nested alignment is a power of two up to 8 and the layout, padding
/// included, fits in 32 bits.
pub open spec fn fields_wf(fields: Seq<FieldDef>) -> bool {
    &&& span_from(fields, 0) <= 0xFFFF_0000
    &&& forall|i: int| 0 <= i < fields.len() ==> (#[trigger] fields[i].kind matches FieldKind::Nested(info) ==> good_align(info.align as nat))
}

/// The fields a placeholder may name.
pub open spec fn shown_field(fields: Seq<FieldDef>, name: Seq<char>) -> bool {
    exists|i: int| 0 <= i < fields.len() && #[trigger] fields[i].name@ == name && !is_pad_name(name)
}

/// The format string parses and each placeholder names a shown field.
pub open spec fn format_ok(fields: Seq<FieldDef>, format: Option<Seq<char>>) -> Result<(), SchemaError> {
    match format {
        None => Ok(()),
        Some(f) => match format_str_spec(f) {
            Err(e) => Err(SchemaError::Format(e)),
            Ok(segs) => if forall|j: int| 0 <= j < segs.len() ==> (#[trigger] segs[j] matches SegmentV::Placeholder(n, _) ==> shown_field(fields, n)) {
                Ok(())
            } else {
                Err(SchemaError::UnknownField)
            },
        },
    }
}

/// Why `fields` with `format` are refused, if they are.
pub open spec fn schema_check(fields: Seq<FieldDef>, format: Option<Seq<char>>) -> Result<(), SchemaError> {
    if exists|i: int| 0 <= i < fields.len() && (#[trigger] fields[i].kind matches FieldKind::Nested(info) && !good_align(info.align as nat)) {
        Err(SchemaError::BadAlign)
    } else if span_from(fields, 0) > 0xFFFF_0000 {
        Err(SchemaError::TooLarge)
    } else {
        format_ok(fields, format)
    }
}

impl Schema {
    pub closed spec fn name_v(&self) -> Seq<char> {
        self.name@
    }

    pub closed spec fn enum_name_v(&self) -> Option<Seq<char>> {
        opt_string_view(self.enum_name)
    }

    pub closed spec fn format_v(&self) -> Option<Seq<char>> {
        opt_string_view(self.format)
    }

    pub closed spec fn fields_v(&self) -> Seq<FieldDef> {
        self.fields@
    }

    pub open spec fn wf(&self) -> bool {
        &&& fields_wf(self.fields_v())
        &&& schema_check(self.fields_v(), self.format_v()) == Ok::<(), SchemaError>(())
    }

    /// The canonical hash input (§3.2).
    pub open spec fn hash_text(&self) -> Seq<char> {
        match self.enum_name_v() {
            None => struct_hash_text(self.name_v(), self.format_v(), hash_fields(self.fields_v())),
            Some(e) => variant_hash_text(e, self.name_v(), self.format_v(), hash_fields(self.fields_v())),
        }
    }

    pub open spec fn full_hash_spec(&self) -> u64 {
        fnv1a_bytes(encode_utf8(self.hash_text()))
    }

    pub open spec fn tag_spec(&self) -> u32 {
        (self.full_hash_spec() % 0x1_0000_0000) as u32
    }

    pub open spec fn format_hash_spec(&self) -> u32 {
        match self.format_v() {
            Some(f) => (fnv1a_bytes(encode_utf8(f)) % 0x1_0000_0000) as u32,
            None => 0,
        }
    }

    pub open spec fn bytecode_spec(&self) -> Seq<u8> {
        code_from(self.fields_v(), 0, 0)
    }
}


/// Zero bytes that pad `n` up to a multiple of four.
pub open spec fn pad4(n: nat) -> Seq<u8> {
    Seq::new(((4 - n % 4) % 4) as nat, |i: int| 0u8)
}

/// A `.zfmt_events` entry: tag, pad, full hash, format hash, pad, bytecode
/// length, then the bytecode padded to four bytes.
pub open spec fn event_entry_bytes(tag: u32, full_hash: u64, format_hash: u32, bc: Seq<u8>) -> Seq<u8> {
    le_bytes(tag as nat, 4) + le_bytes(0, 4) + le_bytes(full_hash as nat, 8) + le_bytes(format_hash as nat, 4)
        + le_bytes(0, 4) + le_bytes((bc.len() as u32) as nat, 4) + bc + pad4(bc.len())
}

/// A `.zfmt_strings` entry: hash, 16-bit length, pad, then the bytes padded
/// to four bytes.
pub open spec fn string_entry_bytes(hash: u32, text: Seq<u8>) -> Seq<u8> {
    le_bytes(hash as nat, 4) + le_bytes((text.len() as u16) as nat, 2) + le_bytes(0, 2) + text + pad4(text.len())
}

fn scalar_size_exec(s: Scalar) -> (r: usize)
    ensures
        r == scalar_size(s),
{
    match s {
        Scalar::U8 | Scalar::I8 | Scalar::Bool => 1,
        Scalar::U16 | Scalar::I16 => 2,
        Scalar::U32 | Scalar::I32 | Scalar::F32 => 4,
        Scalar::U64 | Scalar::I64 | Scalar::F64 => 8,
    }
}

fn scalar_item_exec(s: Scalar) -> (r: u8)
    ensures
        r == scalar_item(s),
{
    match s {
        Scalar::U8 => 1,
        Scalar::U16 => 2,
        Scalar::U32 => 3,
        Scalar::U64 => 4,
        Scalar::I8 => 5,
        Scalar::I16 => 6,
        Scalar::I32 => 7,
        Scalar::I64 => 8,
        Scalar::F32 => 11,
        Scalar::F64 => 12,
        Scalar::Bool => 13,
    }
}

fn scalar_str(s: Scalar) -> (r: &'static str)
    ensures
        r@ == scalar_name(s),
{
    match s {
        Scalar::U8 => "u8",
        Scalar::U16 => "u16",
        Scalar::U32 => "u32",
        Scalar::U64 => "u64",
        Scalar::I8 => "i8",
        Scalar::I16 => "i16",
        Scalar::I32 => "i32",
        Scalar::I64 => "i64",
        Scalar::F32 => "f32",
        Scalar::F64 => "f64",
        Scalar::Bool => "bool",
    }
}

/// The canonical type name of a field type (§3.3).
pub fn canonical_name(k: &FieldKind) -> (r: String)
    ensures
        r@ == kind_canonical(*k),
{
    match k {
        FieldKind::Scalar(s) => scalar_str(*s).to_owned(),
        FieldKind::Array(s, n) => {
            let d = to_digits(*n as u64, 10, false);
            proof {
                assert forall|i: int| 0 <= i < d@.len() implies d@[i] < 0x80 by {
                    crate::format::lemma_digits_ascii(*n as nat, 10, false, i);
                }
            }
            let t = ascii_string(d.as_slice());
            proof { encode_utf8_decode_utf8(t@); }
            let mut r = String::from_str("[");
            r.append(scalar_str(*s));
            r.append("; ");
            r.append(t.as_str());
            r.append("]");
            r
        },
        FieldKind::Str => "str".to_owned(),
        FieldKind::StrRef => "ZfmtStr".to_owned(),
        FieldKind::Nested(info) => info.name.clone(),
    }
}

/// Whether a field name marks padding.
pub(crate) fn is_pad(name: &String) -> (r: bool)
    ensures
        r == is_pad_name(name@),
{
    let t = name.as_str();
    t.unicode_len() > 0 && t.get_char(0) == '_'
}

/// Alignment and size of a fixed-size field type, in a schema that fits.
pub(crate) fn layout_exec(k: &FieldKind) -> (r: Option<(usize, usize)>)
    requires
        kind_layout(*k) matches Some((a, z)) ==> a + z <= 0xFFFF_FFFF,
    ensures
        match (r, kind_layout(*k)) {
            (Some((a, z)), Some((a2, z2))) => a == a2 && z == z2,
            (None, None) => true,
            _ => false,
        },
{
    match k {
        FieldKind::Scalar(s) => {
            let z = scalar_size_exec(*s);
            Some((z, z))
        },
        FieldKind::Array(s, n) => {
            let z = scalar_size_exec(*s);
            assert(*n as nat * z <= 0xFFFF_FFFF);
            Some((z, (*n as usize) * z))
        },
        FieldKind::Str => None,
        FieldKind::StrRef => Some((4, 4)),
        FieldKind::Nested(info) => Some((info.align as usize, info.size as usize)),
    }
}

pub(crate) proof fn lemma_round_up_bound(offset: nat, align: nat)
    requires
        good_align(align),
    ensures
        offset <= round_up(offset, align) <= offset + align - 1,
{
    let a = align as int;
    let o = offset as int;
    assert(((o + a - 1) / a) * a <= o + a - 1) by (nonlinear_arith)
        requires a > 0, o >= 0;
    assert(((o + a - 1) / a) * a >= o) by (nonlinear_arith)
        requires a > 0, o >= 0;
}

/// What `layout_exec` needs at field `i` while the running offset stays in
/// the span.
pub(crate) proof fn lemma_span_step(fields: Seq<FieldDef>, i: int, offset: nat)
    requires
        fields_wf(fields),
        0 <= i < fields.len(),
        offset + span_from(fields, i) <= span_from(fields, 0),
    ensures
        kind_layout(fields[i].kind) matches Some((a, z)) ==> {
            &&& good_align(a)
            &&& offset <= round_up(offset, a)
            &&& a + z <= 0xFFFF_FFFF
            &&& round_up(offset, a) + z + span_from(fields, i + 1) <= span_from(fields, 0)
            &&& offset + a - 1 <= 0xFFFF_FFFF
        },
        kind_layout(fields[i].kind) is None ==> span_from(fields, i + 1) == span_from(fields, i),
{
    if let Some((a, z)) = kind_layout(fields[i].kind) {
        let k = fields[i].kind;
        assert(k matches FieldKind::Nested(info) ==> good_align(info.align as nat));
        assert(good_align(a)) by {
            match k {
                FieldKind::Scalar(s) => {},
                FieldKind::Array(s, n) => {},
                _ => {},
            }
        }
        lemma_round_up_bound(offset, a);
    }
}

impl Schema {
    /// Check `fields` and `format`; see `schema_check`.
    fn check(fields: &Vec<FieldDef>, format: Option<&str>) -> (r: Result<(), SchemaError>)
        ensures
            r == schema_check(fields@, opt_view(format)),
    {
        let mut i: usize = 0;
        while i < fields.len()
            invariant
                i <= fields@.len(),
                forall|j: int| 0 <= j < i ==> !(#[trigger] fields@[j].kind matches FieldKind::Nested(info) && !good_align(info.align as nat)),
            decreases fields@.len() - i,
        {
            if let FieldKind::Nested(info) = &fields[i].kind {
                if !(info.align == 1 || info.align == 2 || info.align == 4 || info.align == 8) {
                    return Err(SchemaError::BadAlign);
                }
            }
            i = i + 1;
        }
        assert(!(exists|j: int| 0 <= j < fields@.len() && (#[trigger] fields@[j].kind matches FieldKind::Nested(info) && !good_align(info.align as nat))));
        let mut k: usize = fields.len();
        let mut total: u64 = 0;
        while k > 0
            invariant
                k <= fields@.len(),
                total == span_from(fields@, k as int),
                total <= 0xFFFF_0000,
                !(exists|j: int| 0 <= j < fields@.len() && (#[trigger] fields@[j].kind matches FieldKind::Nested(info) && !good_align(info.align as nat))),
            decreases k,
        {
            k = k - 1;
            let add: u64 = match &fields[k].kind {
                FieldKind::Scalar(s) => 2 * (scalar_size_exec(*s) as u64),
                FieldKind::Array(s, n) => {
                    let z = scalar_size_exec(*s) as u64;
                    z + (*n as u64) * z
                },
                FieldKind::Str => 0,
                FieldKind::StrRef => 8,
                FieldKind::Nested(info) => (info.align as u64) + (info.size as u64),
            };
            assert(span_from(fields@, k as int) == add + total);
            if add > 0xFFFF_0000 - total {
                proof { lemma_span_mono(fields@, k as int); }
                return Err(SchemaError::TooLarge);
            }
            total = total + add;
        }
        assert(span_from(fields@, 0) <= 0xFFFF_0000);
        match format {
            None => Ok(()),
            Some(f) => {
                let segs = match parse_format_str(f) {
                    Ok(s) => s,
                    Err(e) => {
                        return Err(SchemaError::Format(e));
                    },
                };
                let ghost sv = crate::fmtstr::segments_view(segs@);
                let mut j: usize = 0;
                while j < segs.len()
                    invariant
                        j <= segs@.len(),
                        sv == crate::fmtstr::segments_view(segs@),
                        format_str_spec(f@) == Ok::<Seq<SegmentV>, FormatStrError>(sv),
                        format == Some(f),
                        span_from(fields@, 0) <= 0xFFFF_0000,
                        !(exists|j: int| 0 <= j < fields@.len() && (#[trigger] fields@[j].kind matches FieldKind::Nested(info) && !good_align(info.align as nat))),
                        forall|q: int| 0 <= q < j ==> (#[trigger] sv[q] matches SegmentV::Placeholder(n, _) ==> shown_field(fields@, n)),
                    decreases segs@.len() - j,
                {
                    assert(sv[j as int] == crate::fmtstr::segment_view(segs@[j as int]));
                    if let Segment::Placeholder(p) = &segs[j] {
                        if !Self::names_shown_field(fields, &p.name) {
                            assert(sv[j as int] matches SegmentV::Placeholder(n, _) && !shown_field(fields@, n));
                            assert(!(forall|q: int| 0 <= q < sv.len() ==> (#[trigger] sv[q] matches SegmentV::Placeholder(n, _) ==> shown_field(fields@, n))));
                            assert(opt_view(format) == Some(f@));
                            assert(format_ok(fields@, Some(f@)) == Err::<(), SchemaError>(SchemaError::UnknownField));
                            return Err(SchemaError::UnknownField);
                        }
                    }
                    j = j + 1;
                }
                Ok(())
            },
        }
    }

    fn names_shown_field(fields: &Vec<FieldDef>, name: &String) -> (r: bool)
        ensures
            r == shown_field(fields@, name@),
    {
        if is_pad(name) {
            return false;
        }
        let mut i: usize = 0;
        while i < fields.len()
            invariant
                i <= fields@.len(),
                !is_pad_name(name@),
                forall|j: int| 0 <= j < i ==> fields@[j].name@ != name@,
            decreases fields@.len() - i,
        {
            if str_eq(fields[i].name.as_str(), name.as_str()) {
                return true;
            }
            i = i + 1;
        }
        false
    }

    /// A struct event type.
    pub fn record(name: &str, format: Option<&str>, fields: Vec<FieldDef>) -> (r: Result<Schema, SchemaError>)
        ensures
            match r {
                Ok(s) => s.wf() && s.name_v() == name@ && s.enum_name_v() is None && s.format_v() == opt_view(format)
                    && s.fields_v() == fields@,
                Err(e) => schema_check(fields@, opt_view(format)) == Err::<(), SchemaError>(e),
            },
    {
        match Self::check(&fields, format) {
            Err(e) => Err(e),
            Ok(()) => {
                let fmt = match format {
                    Some(f) => Some(f.to_owned()),
                    None => None,
                };
                let s = Schema { name: name.to_owned(), enum_name: None, format: fmt, fields };
                proof { lemma_check_wf(s.fields_v(), s.format_v()); }
                Ok(s)
            },
        }
    }

    /// A variant of an enum event type.
    pub fn variant(enum_name: &str, name: &str, format: Option<&str>, fields: Vec<FieldDef>) -> (r: Result<Schema, SchemaError>)
        ensures
            match r {
                Ok(s) => s.wf() && s.name_v() == name@ && s.enum_name_v() == Some(enum_name@)
                    && s.format_v() == opt_view(format) && s.fields_v() == fields@,
                Err(e) => schema_check(fields@, opt_view(format)) == Err::<(), SchemaError>(e),
            },
    {
        match Self::check(&fields, format) {
            Err(e) => Err(e),
            Ok(()) => {
                let fmt = match format {
                    Some(f) => Some(f.to_owned()),
                    None => None,
                };
                let s = Schema { name: name.to_owned(), enum_name: Some(enum_name.to_owned()), format: fmt, fields };
                proof { lemma_check_wf(s.fields_v(), s.format_v()); }
                Ok(s)
            },
        }
    }
}

proof fn lemma_span_mono(fields: Seq<FieldDef>, i: int)
    requires
        0 <= i <= fields.len(),
    ensures
        span_from(fields, i) <= span_from(fields, 0),
    decreases i,
{
    if i > 0 {
        lemma_span_mono(fields, i - 1);
    }
}

proof fn lemma_check_wf(fields: Seq<FieldDef>, format: Option<Seq<char>>)
    requires
        schema_check(fields, format) == Ok::<(), SchemaError>(()),
    ensures
        fields_wf(fields),
{
    assert forall|i: int| 0 <= i < fields.len() implies (#[trigger] fields[i].kind matches FieldKind::Nested(info) ==> good_align(info.align as nat)) by {
        if fields[i].kind matches FieldKind::Nested(info) && !good_align(info.align as nat) {
            assert(exists|j: int| 0 <= j < fields.len() && (#[trigger] fields[j].kind matches FieldKind::Nested(info) && !good_align(info.align as nat)));
        }
    }
}


proof fn lemma_field_views_push<'a>(v: Seq<(&'a str, &'a str)>, x: (&'a str, &'a str))
    ensures
        field_views(v.push(x)) == field_views(v).push((x.0@, x.1@)),
{
    assert(field_views(v.push(x)) =~= field_views(v).push((x.0@, x.1@)));
}

proof fn lemma_max_align_good(fields: Seq<FieldDef>, i: int)
    requires
        fields_wf(fields),
        0 <= i,
    ensures
        good_align(max_align(fields, i)),
    decreases fields.len() - i,
{
    if i < fields.len() {
        lemma_max_align_good(fields, i + 1);
        let k = fields[i].kind;
        assert(k matches FieldKind::Nested(info) ==> good_align(info.align as nat));
        match k {
            FieldKind::Scalar(s) => {},
            FieldKind::Array(s, n) => {},
            _ => {},
        }
    }
}

impl Schema {
    /// The format string, if the event has one.
    pub fn format_str(&self) -> (r: Option<&str>)
        ensures
            opt_view(r) == self.format_v(),
    {
        match &self.format {
            Some(f) => Some(f.as_str()),
            None => None,
        }
    }

    /// The fields in declaration order.
    pub fn fields(&self) -> (r: &Vec<FieldDef>)
        ensures
            r@ == self.fields_v(),
    {
        &self.fields
    }

    /// Whether this is an enum variant.
    pub fn is_variant(&self) -> (r: bool)
        ensures
            r == (self.enum_name_v() is Some),
    {
        self.enum_name.is_some()
    }

    /// The struct or variant name.
    pub fn name(&self) -> (r: &str)
        ensures
            r@ == self.name_v(),
    {
        self.name.as_str()
    }

    /// The canonical hash input (§3.2).
    pub fn hash_input(&self) -> (r: String)
        ensures
            r@ == self.hash_text(),
    {
        let n = self.fields.len();
        let mut canon: Vec<String> = Vec::new();
        let mut i: usize = 0;
        while i < n
            invariant
                n == self.fields@.len(),
                i <= n,
                canon@.len() == i,
                forall|j: int| 0 <= j < i ==> (#[trigger] canon@[j])@ == kind_canonical(self.fields@[j].kind),
            decreases n - i,
        {
            canon.push(canonical_name(&self.fields[i].kind));
            i = i + 1;
        }
        let mut pairs: Vec<(&str, &str)> = Vec::new();
        let mut k: usize = 0;
        assert(self.fields@.take(0) =~= Seq::<FieldDef>::empty());
        while k < n
            invariant
                n == self.fields@.len(),
                k <= n,
                canon@.len() == n,
                forall|j: int| 0 <= j < n ==> (#[trigger] canon@[j])@ == kind_canonical(self.fields@[j].kind),
                field_views(pairs@) == hash_fields(self.fields@.take(k as int)),
            decreases n - k,
        {
            assert(self.fields@.take(k as int + 1).drop_last() =~= self.fields@.take(k as int));
            assert(self.fields@.take(k as int + 1).last() == self.fields@[k as int]);
            if !is_pad(&self.fields[k].name) {
                let pair = (self.fields[k].name.as_str(), canon[k].as_str());
                proof { lemma_field_views_push(pairs@, pair); }
                pairs.push(pair);
            }
            k = k + 1;
        }
        assert(self.fields@.take(n as int) =~= self.fields@);
        match &self.enum_name {
            None => struct_hash_input(self.name.as_str(), self.format_str(), pairs.as_slice()),
            Some(e) => variant_hash_input(e.as_str(), self.name.as_str(), self.format_str(), pairs.as_slice()),
        }
    }

    /// The 64-bit FNV-1a hash of the canonical hash input.
    pub fn full_hash(&self) -> (h: u64)
        ensures
            h == self.full_hash_spec(),
    {
        let t = self.hash_input();
        fnv1a_64(t.as_str())
    }

    /// The wire tag: the low 32 bits of the full hash.
    pub fn tag(&self) -> (t: u32)
        ensures
            t == self.tag_spec(),
    {
        crate::hash::tag_of(self.full_hash())
    }

    /// The low 32 bits of the format string's hash, or 0 without one.
    pub fn format_hash(&self) -> (h: u32)
        ensures
            h == self.format_hash_spec(),
    {
        match &self.format {
            Some(f) => crate::hash::tag_of(fnv1a_64(f.as_str())),
            None => 0,
        }
    }

    /// The event's bytecode: one instruction per field, `skip`s over
    /// alignment gaps and padding fields, then `end`.
    pub fn bytecode(&self) -> (bc: Vec<u8>)
        requires
            self.wf(),
        ensures
            bc@ == self.bytecode_spec(),
    {
        let ghost fs = self.fields@;
        let n = self.fields.len();
        let mut out: Vec<u8> = Vec::new();
        let mut offset: usize = 0;
        let mut i: usize = 0;
        while i < n
            invariant
                fs == self.fields@,
                n == fs.len(),
                i <= n,
                fields_wf(fs),
                offset + span_from(fs, i as int) <= span_from(fs, 0),
                code_from(fs, 0, 0) == out@ + code_from(fs, i as int, offset as nat),
            decreases n - i,
        {
            proof { lemma_span_step(fs, i as int, offset as nat); }
            let f = &self.fields[i];
            let ghost before = out@;
            match layout_exec(&f.kind) {
                None => {
                    out.push(opcode(ITEM_UTF8_BYTE, OPERAND_VAR_LENGTH));
                    assert(out@ =~= before + field_code(f.kind));
                    offset = 0;
                },
                Some((align, size)) => {
                    let aligned = align_up(offset, align);
                    push_skip(&mut out, aligned - offset);
                    if is_pad(&f.name) {
                        push_skip(&mut out, size);
                    } else {
                        self.push_field_code(&mut out, &f.kind);
                    }
                    assert(out@ =~= before + skip_bytes((aligned - offset) as nat) + (if is_pad_name(f.name@) {
                        skip_bytes(size as nat)
                    } else {
                        field_code(f.kind)
                    }));
                    offset = aligned + size;
                },
            }
            i = i + 1;
        }
        out.push(opcode(ITEM_END, OPERAND_SINGLE));
        assert(out@ =~= code_from(fs, 0, 0));
        out
    }

    fn push_field_code(&self, out: &mut Vec<u8>, k: &FieldKind)
        requires
            !(k is Str),
        ensures
            final(out)@ == old(out)@ + field_code(*k),
    {
        match k {
            FieldKind::Scalar(s) => {
                out.push(opcode(scalar_item_exec(*s), OPERAND_SINGLE));
            },
            FieldKind::Array(s, n) => {
                let item = match s {
                    Scalar::U8 => ITEM_UTF8_BYTE,
                    _ => scalar_item_exec(*s),
                };
                out.push(opcode(item, OPERAND_FIXED_ARRAY));
                push_uleb128(out, *n as u64);
            },
            FieldKind::Str => {},
            FieldKind::StrRef => {
                out.push(opcode(ITEM_STRING_REF, OPERAND_SINGLE));
            },
            FieldKind::Nested(info) => {
                out.push(opcode(ITEM_CALL, OPERAND_SINGLE));
                push_uleb128(out, info.tag as u64);
            },
        }
        assert(final(out)@ =~= old(out)@ + field_code(*k));
    }

    /// The `repr(C)` size with tail padding and the largest alignment; `None`
    /// when a field is text.
pub fn fixed_layout(&self) -> (r: Option<(usize, usize)>)
        requires
            self.wf(),
        ensures
            match (r, fixed_size_spec(self.fields_v())) {
                (Some((z, a)), Some(z2)) => z == z2 && a == max_align(self.fields_v(), 0),
                (None, None) => true,
                _ => false,
            },
    {
        match self.layout_parts() {
            None => None,
            Some((e, m)) => Some((align_up(e, m), m)),
        }
    }

    /// End offset of the fields and largest alignment, without tail padding;
    /// `None` when a field is text.
        fn layout_parts(&self) -> (r: Option<(usize, usize)>)
        requires
            self.wf(),
        ensures
            match r {
                Some((e, a)) => !has_text(self.fields_v()) && e == end_offset(self.fields_v(), 0, 0)
                    && a == max_align(self.fields_v(), 0) && good_align(a as nat)
                    && round_up(e as nat, a as nat) <= usize::MAX,
                None => has_text(self.fields_v()),
            },
    {
        let ghost fs = self.fields@;
        let n = self.fields.len();
        let mut offset: usize = 0;
        let mut m: usize = 1;
        let mut i: usize = 0;
        proof { lemma_max_align_good(fs, 0); }
        while i < n
            invariant
                fs == self.fields@,
                n == fs.len(),
                i <= n,
                fields_wf(fs),
                offset + span_from(fs, i as int) <= span_from(fs, 0),
                end_offset(fs, 0, 0) == end_offset(fs, i as int, offset as nat),
                max_align(fs, 0) == (if m >= max_align(fs, i as int) { m as nat } else { max_align(fs, i as int) }),
                good_align(m as nat),
                forall|j: int| 0 <= j < i ==> fs[j].kind != FieldKind::Str,
            decreases n - i,
        {
            proof { lemma_span_step(fs, i as int, offset as nat); }
            match layout_exec(&self.fields[i].kind) {
                None => {
                    proof {
                        assert(fs[i as int].kind == FieldKind::Str);
                    }
                    return None;
                },
                Some((align, size)) => {
                    let aligned = align_up(offset, align);
                    offset = aligned + size;
                    if align > m {
                        m = align;
                    }
                },
            }
            i = i + 1;
        }
        proof {
            lemma_max_align_good(fs, 0);
            assert(!has_text(fs));
        }
        proof { lemma_round_up_bound(offset as nat, m as nat); }
        Some((offset, m))
    }

    /// What the event exposes when used as a field of another event; `None`
    /// when it has a text field.
    pub fn nested_info(&self) -> (r: Option<NestedInfo>)
        requires
            self.wf(),
        ensures
            match (r, fixed_size_spec(self.fields_v())) {
                (Some(info), Some(z)) => info.name@ == self.name_v() && info.tag == self.tag_spec()
                    && info.size as nat == z && info.align as nat == max_align(self.fields_v(), 0),
                (None, None) => true,
                _ => false,
            },
    {
        match self.fixed_layout() {
            None => None,
            Some((size, align)) => {
                proof {
                    lemma_max_align_good(self.fields@, 0);
                    lemma_fixed_size_bound(self.fields@);
                }
                Some(NestedInfo { name: self.name.clone(), tag: self.tag(), size: size as u32, align: align as u32 })
            },
        }
    }

    /// The event's `.zfmt_events` entry (§8.1).
    pub fn entry_bytes(&self) -> (r: Vec<u8>)
        requires
            self.wf(),
        ensures
            r@ == event_entry_bytes(self.tag_spec(), self.full_hash_spec(), self.format_hash_spec(), self.bytecode_spec()),
    {
        let bc = self.bytecode();
        let mut out: Vec<u8> = Vec::new();
        push_le(&mut out, self.tag() as u64, 4);
        push_le(&mut out, 0, 4);
        push_le(&mut out, self.full_hash(), 8);
        push_le(&mut out, self.format_hash() as u64, 4);
        push_le(&mut out, 0, 4);
        push_le(&mut out, bc.len() as u32 as u64, 4);
        append_bytes(&mut out, bc.as_slice());
        push_zero_pad(&mut out, bc.len());
        out
    }
}

/// Append the zeros that pad `n` to a multiple of four.
fn push_zero_pad(out: &mut Vec<u8>, n: usize)
    ensures
        final(out)@ == old(out)@ + pad4(n as nat),
{
    let k = (4 - n % 4) % 4;
    crate::display::push_repeat(out, 0u8, k);
    assert(final(out)@ =~= old(out)@ + pad4(n as nat));
}

proof fn lemma_fixed_size_bound(fields: Seq<FieldDef>)
    requires
        fields_wf(fields),
        !has_text(fields),
    ensures
        round_up(end_offset(fields, 0, 0), max_align(fields, 0)) <= 0xFFFF_FFFF,
{
    lemma_end_offset_bound(fields, 0, 0);
    lemma_max_align_good(fields, 0);
    lemma_round_up_bound(end_offset(fields, 0, 0), max_align(fields, 0));
}

proof fn lemma_end_offset_bound(fields: Seq<FieldDef>, i: int, offset: nat)
    requires
        fields_wf(fields),
        0 <= i <= fields.len(),
        offset + span_from(fields, i) <= span_from(fields, 0),
        forall|j: int| i <= j < fields.len() ==> fields[j].kind != FieldKind::Str,
    ensures
        end_offset(fields, i, offset) + 0 <= span_from(fields, 0),
        end_offset(fields, i, offset) >= offset,
    decreases fields.len() - i,
{
    if i < fields.len() {
        lemma_span_step(fields, i, offset);
        let (a, z) = kind_layout(fields[i].kind).unwrap();
        lemma_round_up_bound(offset, a);
        lemma_end_offset_bound(fields, i + 1, round_up(offset, a) + z);
    }
}

/// The `.zfmt_strings` entry of a string (§8.2); the length field keeps the
/// low 16 bits of the byte length.
pub fn string_entry(text: &str) -> (r: Vec<u8>)
    ensures
        r@ == string_entry_bytes((fnv1a_bytes(text.spec_bytes()) % 0x1_0000_0000) as u32, text.spec_bytes()),
{
    let hash = crate::hash::zfmt_str(text);
    let bytes = text.as_bytes();
    let mut out: Vec<u8> = Vec::new();
    push_le(&mut out, hash as u64, 4);
    push_le(&mut out, bytes.len() as u16 as u64, 2);
    push_le(&mut out, 0, 2);
    append_bytes(&mut out, bytes);
    push_zero_pad(&mut out, bytes.len());
    out
}


/// The tail padding only grows the payload.
pub(crate) proof fn lemma_end_le_total(fields: Seq<FieldDef>)
    requires
        fields_wf(fields),
    ensures
        fixed_size_spec(fields) matches Some(total) ==> end_offset(fields, 0, 0) <= total,
{
    lemma_max_align_good(fields, 0);
    lemma_round_up_bound(end_offset(fields, 0, 0), max_align(fields, 0));
}


/// The item type of an integer `repr`, if `t` names one.
pub open spec fn repr_item(t: Seq<char>) -> Option<u8> {
    if t == "u8"@ {
        Some(1)
    } else if t == "u16"@ {
        Some(2)
    } else if t == "u32"@ {
        Some(3)
    } else if t == "u64"@ {
        Some(4)
    } else {
        None
    }
}

/// The discriminant item type named by the first integer among the `repr`
/// arguments from `i` on.
pub open spec fn discriminant_from(args: Seq<Seq<char>>, i: int) -> Option<u8>
    decreases args.len() - i,
{
    if i < 0 || i >= args.len() {
        None
    } else {
        match repr_item(crate::text::trim_ws(args[i])) {
            Some(x) => Some(x),
            None => discriminant_from(args, i + 1),
        }
    }
}

pub open spec fn strs_view(v: Seq<&str>) -> Seq<Seq<char>> {
    v.map_values(|s: &str| s@)
}

/// The discriminant item type of an inline enum from its `repr` arguments
/// (`u8` in `repr(C, u8)`); `None` makes the enum a top-level event enum.
pub fn discriminant_item_type(repr_args: &[&str]) -> (r: Option<u8>)
    ensures
        r == discriminant_from(strs_view(repr_args@), 0),
{
    let mut i: usize = 0;
    while i < repr_args.len()
        invariant
            i <= repr_args@.len(),
            discriminant_from(strs_view(repr_args@), 0) == discriminant_from(strs_view(repr_args@), i as int),
        decreases repr_args@.len() - i,
    {
        let t = crate::text::trim(repr_args[i]);
        if str_eq(t, "u8") {
            return Some(1);
        } else if str_eq(t, "u16") {
            return Some(2);
        } else if str_eq(t, "u32") {
            return Some(3);
        } else if str_eq(t, "u64") {
            return Some(4);
        }
        i = i + 1;
    }
    None
}

/// The largest `repr(C)` size among the variants without text fields.
pub open spec fn union_size_from(variants: Seq<Schema>, i: int) -> nat
    decreases variants.len() - i,
{
    if i < 0 || i >= variants.len() {
        0
    } else {
        let rest = union_size_from(variants, i + 1);
        match fixed_size_spec(variants[i].fields_v()) {
            Some(z) => if z > rest { z } else { rest },
            None => rest,
        }
    }
}

/// The union body of an inline enum: its largest variant.
pub fn union_body_size(variants: &[Schema]) -> (r: usize)
    requires
        forall|i: int| 0 <= i < variants@.len() ==> #[trigger] variants@[i].wf(),
    ensures
        r == union_size_from(variants@, 0),
{
    let mut k: usize = variants.len();
    let mut m: usize = 0;
    while k > 0
        invariant
            k <= variants@.len(),
            m == union_size_from(variants@, k as int),
            forall|i: int| 0 <= i < variants@.len() ==> #[trigger] variants@[i].wf(),
        decreases k,
    {
        k = k - 1;
        match variants[k].fixed_layout() {
            Some((z, _)) => {
                if z > m {
                    m = z;
                }
            },
            None => {},
        }
    }
    m
}

/// The bytecode of an inline enum variant called through `dispatch`: its
/// fields, a `skip` from where its fields end over the rest of the union,
/// then `end`; the variant reads `union_size` bytes in all.
pub open spec fn subroutine_spec(bc: Seq<u8>, own: nat, union_size: nat) -> Seq<u8> {
    bc.drop_last() + skip_bytes(if union_size > own { (union_size - own) as nat } else { 0 }) + seq![opcode_of(ITEM_END, OPERAND_SINGLE)]
}

impl Schema {
    /// The variant's subroutine for a union of `union_size` bytes.
    pub fn subroutine_bytecode(&self, union_size: usize) -> (r: Vec<u8>)
        requires
            self.wf(),
        ensures
            r@ == subroutine_spec(self.bytecode_spec(), if has_text(self.fields_v()) { 0 } else { end_offset(self.fields_v(), 0, 0) }, union_size as nat),
    {
        let mut bc = self.bytecode();
        let own: usize = match self.layout_parts() {
            Some((e, _)) => e,
            None => 0,
        };
        let ghost full = bc@;
        bc.pop();
        let tail = if union_size > own { union_size - own } else { 0 };
        push_skip(&mut bc, tail);
        bc.push(opcode(ITEM_END, OPERAND_SINGLE));
        proof {
            assert(full.len() > 0) by { lemma_code_nonempty(self.fields_v(), 0, 0); }
        }
        bc
    }
}

proof fn lemma_code_nonempty(fields: Seq<FieldDef>, i: int, offset: nat)
    ensures
        code_from(fields, i, offset).len() > 0,
    decreases fields.len() - i,
{
    if 0 <= i < fields.len() {
        match kind_layout(fields[i].kind) {
            None => lemma_code_nonempty(fields, i + 1, 0),
            Some((a, z)) => lemma_code_nonempty(fields, i + 1, round_up(offset, a) + z),
        }
    }
}

} // verus!
