//! Values of schema-described events: the payload their fields serialize to
//! (the `repr(C)` layout for fixed-size fields, LEB128-prefixed bytes for
//! text) and the text their format string renders.

use vstd::prelude::*;
use vstd::string::*;
use vstd::utf8::*;
use crate::bytecode::{align_up, round_up};
use crate::events::ZfmtEvent;
use crate::fmtstr::{FormatStrError, Segment, SegmentV, format_str_spec, parse_format_str, segment_view, segments_view};
use crate::format::{FormatInto, FormatSpec, FormatType, fw_uint_text, zfmt_str_spec};
use crate::leb128::{encode, leb128_bytes, lemma_u64_fits_ten};
use crate::schema::{
    FieldDef, FieldKind, Scalar, Schema, SchemaError, end_offset, field_code, fixed_size_spec, format_ok,
    good_align, has_text, is_pad_name, kind_layout, max_align, scalar_size, shown_field, span_from, fields_wf,
};
use crate::text::{append_bytes, le_bytes, push_le, str_eq};
use crate::textlog::{TextArg, arg_string, arg_text, fw_spec, fw_spec_of, uint_text};
use crate::write::{Error, Write, bounded_write, lemma_bounded_chain, lemma_bounded_nothing, lemma_bounded_one, lemma_bounded_then};

verus! {

/// The value of one field.
#[derive(Debug, Clone)]
pub enum FieldValue<'a> {
    U8(u8),
    U16(u16),
    U32(u32),
    U64(u64),
    I8(i8),
    I16(i16),
    I32(i32),
    I64(i64),
    /// An `f32` by its IEEE 754 bits.
    F32(u32),
    /// An `f64` by its IEEE 754 bits.
    F64(u64),
    Bool(bool),
    /// The bytes of a fixed array, in memory order.
    Bytes(Vec<u8>),
    Str(&'a str),
    /// An interned string handle.
    StrRef(u32),
    /// A nested event: its payload and its rendered text.
    Nested { bytes: Vec<u8>, text: String },
}

/// Why values do not fit a schema.
#[derive(Debug, Clone, Copy, PartialEq, Eq)]
pub enum ValueError {
    /// Not one value per field.
    Count,
    /// The value at `index` does not have its field's type.
    Mismatch { index: usize },
}

/// Whether a value has a field type.
pub open spec fn value_fits(k: FieldKind, v: FieldValue) -> bool {
    match (k, v) {
        (FieldKind::Scalar(Scalar::U8), FieldValue::U8(_)) => true,
        (FieldKind::Scalar(Scalar::U16), FieldValue::U16(_)) => true,
        (FieldKind::Scalar(Scalar::U32), FieldValue::U32(_)) => true,
        (FieldKind::Scalar(Scalar::U64), FieldValue::U64(_)) => true,
        (FieldKind::Scalar(Scalar::I8), FieldValue::I8(_)) => true,
        (FieldKind::Scalar(Scalar::I16), FieldValue::I16(_)) => true,
        (FieldKind::Scalar(Scalar::I32), FieldValue::I32(_)) => true,
        (FieldKind::Scalar(Scalar::I64), FieldValue::I64(_)) => true,
        (FieldKind::Scalar(Scalar::F32), FieldValue::F32(_)) => true,
        (FieldKind::Scalar(Scalar::F64), FieldValue::F64(_)) => true,
        (FieldKind::Scalar(Scalar::Bool), FieldValue::Bool(_)) => true,
        (FieldKind::Array(s, n), FieldValue::Bytes(b)) => b@.len() == n as nat * scalar_size(s),
        (FieldKind::Str, FieldValue::Str(_)) => true,
        (FieldKind::StrRef, FieldValue::StrRef(_)) => true,
        (FieldKind::Nested(info), FieldValue::Nested { bytes, text }) => bytes@.len() == info.size as nat,
        _ => false,
    }
}

/// The bytes a value occupies in the payload.
pub open spec fn value_bytes(v: FieldValue) -> Seq<u8> {
    match v {
        FieldValue::U8(x) => le_bytes(x as nat, 1),
        FieldValue::U16(x) => le_bytes(x as nat, 2),
        FieldValue::U32(x) => le_bytes(x as nat, 4),
        FieldValue::U64(x) => le_bytes(x as nat, 8),
        FieldValue::I8(x) => le_bytes((x as u8) as nat, 1),
        FieldValue::I16(x) => le_bytes((x as u16) as nat, 2),
        FieldValue::I32(x) => le_bytes((x as u32) as nat, 4),
        FieldValue::I64(x) => le_bytes((x as u64) as nat, 8),
        FieldValue::F32(x) => le_bytes(x as nat, 4),
        FieldValue::F64(x) => le_bytes(x as nat, 8),
        FieldValue::Bool(b) => if b { seq![1u8] } else { seq![0u8] },
        FieldValue::Bytes(b) => b@,
        FieldValue::Str(s) => leb128_bytes((s.spec_bytes().len() as u32) as nat) + s.spec_bytes(),
        FieldValue::StrRef(h) => le_bytes(h as nat, 4),
        FieldValue::Nested { bytes, text } => bytes@,
    }
}

pub open spec fn zeros(n: nat) -> Seq<u8> {
    Seq::new(n, |i: int| 0u8)
}

/// The payload bytes of the fields from `i` on at running offset `offset`:
/// zeros over alignment gaps, each value's bytes (zeros for the padding
/// fields of an enum variant), text without alignment.
pub open spec fn body_from(fields: Seq<FieldDef>, vals: Seq<FieldValue>, i: int, offset: nat, variant: bool) -> Seq<u8>
    decreases fields.len() - i,
{
    if i < 0 || i >= fields.len() {
        Seq::empty()
    } else {
        match kind_layout(fields[i].kind) {
            None => value_bytes(vals[i]) + body_from(fields, vals, i + 1, 0, variant),
            Some((align, size)) => {
                let aligned = round_up(offset, align);
                zeros((aligned - offset) as nat) + (if variant && is_pad_name(fields[i].name@) {
                    zeros(size)
                } else {
                    value_bytes(vals[i])
                }) + body_from(fields, vals, i + 1, aligned + size, variant)
            },
        }
    }
}

/// The whole payload: the body, then zeros up to the `repr(C)` size when no
/// field is text.
pub open spec fn payload_of(fields: Seq<FieldDef>, vals: Seq<FieldValue>, variant: bool) -> Seq<u8> {
    let end = end_offset(fields, 0, 0);
    body_from(fields, vals, 0, 0, variant) + match fixed_size_spec(fields) {
        Some(total) => zeros((total - end) as nat),
        None => Seq::empty(),
    }
}

/// The first field from `i` on named `name`.
pub open spec fn find_field(fields: Seq<FieldDef>, name: Seq<char>, i: int) -> int
    decreases fields.len() - i,
{
    if i < 0 || i >= fields.len() {
        fields.len() as int
    } else if fields[i].name@ == name {
        i
    } else {
        find_field(fields, name, i + 1)
    }
}

/// The text of a value under a placeholder's spec; `None` for values that
/// have no text here (floats, arrays) and for the FourCC type.
pub open spec fn value_text(v: FieldValue, fs: Option<FormatSpec>) -> Option<Seq<u8>> {
    match fs {
        None => None,
        Some(spec) => match v {
            FieldValue::U8(x) => Some(arg_text(TextArg::U8(x), spec)),
            FieldValue::U16(x) => Some(arg_text(TextArg::U16(x), spec)),
            FieldValue::U32(x) => Some(arg_text(TextArg::U32(x), spec)),
            FieldValue::U64(x) => Some(arg_text(TextArg::U64(x), spec)),
            FieldValue::I8(x) => Some(arg_text(TextArg::I8(x), spec)),
            FieldValue::I16(x) => Some(arg_text(TextArg::I16(x), spec)),
            FieldValue::I32(x) => Some(arg_text(TextArg::I32(x), spec)),
            FieldValue::I64(x) => Some(arg_text(TextArg::I64(x), spec)),
            FieldValue::Bool(b) => Some(arg_text(TextArg::Bool(b), spec)),
            FieldValue::Str(s) => Some(arg_text(TextArg::Str(s), spec)),
            FieldValue::StrRef(h) => Some(fw_uint_text(h as nat, false, zfmt_str_spec(spec))),
            FieldValue::Nested { bytes, text } => Some(encode_utf8(text@)),
            _ => None,
        },
    }
}

/// The text of the segments from `j` on.
pub open spec fn render_from(segs: Seq<SegmentV>, fields: Seq<FieldDef>, vals: Seq<FieldValue>, j: int) -> Option<Seq<u8>>
    decreases segs.len() - j,
{
    if j < 0 || j >= segs.len() {
        Some(Seq::empty())
    } else {
        let piece = match segs[j] {
            SegmentV::Literal(t) => Some(encode_utf8(t)),
            SegmentV::Placeholder(name, ps) => value_text(vals[find_field(fields, name, 0)], fw_spec_of(ps)),
        };
        match (piece, render_from(segs, fields, vals, j + 1)) {
            (Some(p), Some(rest)) => Some(p + rest),
            _ => None,
        }
    }
}

/// An event value: a schema and one value per field.
pub struct EventValue<'a> {
    schema: Schema,
    values: Vec<FieldValue<'a>>,
}

impl<'a> EventValue<'a> {
    pub closed spec fn schema_v(&self) -> &Schema {
        &self.schema
    }

    pub closed spec fn values_v(&self) -> Seq<FieldValue<'a>> {
        self.values@
    }

    #[verifier::type_invariant]
    closed spec fn inv(&self) -> bool {
        &&& self.schema.wf()
        &&& self.values@.len() == self.schema.fields_v().len()
        &&& forall|i: int| 0 <= i < self.values@.len() ==> value_fits(self.schema.fields_v()[i].kind, #[trigger] self.values@[i])
    }

    pub open spec fn wf(&self) -> bool {
        &&& self.schema_v().wf()
        &&& self.values_v().len() == self.schema_v().fields_v().len()
        &&& forall|i: int| 0 <= i < self.values_v().len() ==> value_fits(self.schema_v().fields_v()[i].kind, #[trigger] self.values_v()[i])
    }

    /// The payload the event serializes to.
    pub open spec fn payload(&self) -> Seq<u8> {
        payload_of(self.schema_v().fields_v(), self.values_v(), self.schema_v().enum_name_v() is Some)
    }

    /// The text its format string renders, `None` when a placeholder shows a
    /// value that has no text here; empty without a format string.
    pub open spec fn text(&self) -> Option<Seq<u8>> {
        match self.schema_v().format_v() {
            None => Some(Seq::empty()),
            Some(f) => match format_str_spec(f) {
                Ok(segs) => render_from(segs, self.schema_v().fields_v(), self.values_v(), 0),
                Err(_) => None,
            },
        }
    }

    /// Pair a schema with its field values.
    pub fn new(schema: Schema, values: Vec<FieldValue<'a>>) -> (r: Result<EventValue<'a>, ValueError>)
        requires
            schema.wf(),
        ensures
            match r {
                Ok(e) => e.wf() && *e.schema_v() == schema && e.values_v() == values@,
                Err(ValueError::Count) => values@.len() != schema.fields_v().len(),
                Err(ValueError::Mismatch { index }) => values@.len() == schema.fields_v().len()
                    && index < values@.len() && !value_fits(schema.fields_v()[index as int].kind, values@[index as int])
                    && forall|i: int| 0 <= i < index ==> value_fits(schema.fields_v()[i].kind, #[trigger] values@[i]),
            },
    {
        let fields = schema.fields();
        if values.len() != fields.len() {
            return Err(ValueError::Count);
        }
        let mut i: usize = 0;
        while i < values.len()
            invariant
                i <= values@.len(),
                values@.len() == fields@.len(),
                fields@ == schema.fields_v(),
                forall|j: int| 0 <= j < i ==> value_fits(fields@[j].kind, #[trigger] values@[j]),
            decreases values@.len() - i,
        {
            if !fits(&fields[i].kind, &values[i]) {
                return Err(ValueError::Mismatch { index: i });
            }
            i = i + 1;
        }
        Ok(EventValue { schema, values })
    }

    pub fn schema(&self) -> (r: &Schema)
        ensures
            *r == *self.schema_v(),
    {
        &self.schema
    }

    /// The serialized payload.
    pub fn payload_bytes(&self) -> (r: Vec<u8>)
        ensures
            r@ == self.payload(),
    {
        proof { use_type_invariant(self); }
        let fields = self.schema.fields();
        let ghost fs = fields@;
        let ghost vs = self.values@;
        let variant = self.schema.is_variant();
        let n = fields.len();
        let mut out: Vec<u8> = Vec::new();
        let mut offset: usize = 0;
        let mut i: usize = 0;
        while i < n
            invariant
                fs == fields@,
                vs == self.values@,
                fs == self.schema.fields_v(),
                n == fs.len(),
                vs.len() == n,
                i <= n,
                fields_wf(fs),
                variant == (self.schema.enum_name_v() is Some),
                forall|j: int| 0 <= j < n ==> value_fits(fs[j].kind, #[trigger] vs[j]),
                offset + span_from(fs, i as int) <= span_from(fs, 0),
                body_from(fs, vs, 0, 0, variant) == out@ + body_from(fs, vs, i as int, offset as nat, variant),
                end_offset(fs, 0, 0) == end_offset(fs, i as int, offset as nat),
            decreases n - i,
        {
            proof { crate::schema::lemma_span_step(fs, i as int, offset as nat); }
            let ghost before = out@;
            let f = &fields[i];
            match crate::schema::layout_exec(&f.kind) {
                None => {
                    push_value(&mut out, &self.values[i]);
                    assert(out@ =~= before + value_bytes(vs[i as int]));
                    offset = 0;
                },
                Some((align, size)) => {
                    let aligned = align_up(offset, align);
                    crate::display::push_repeat(&mut out, 0u8, aligned - offset);
                    if variant && crate::schema::is_pad(&f.name) {
                        crate::display::push_repeat(&mut out, 0u8, size);
                    } else {
                        push_value(&mut out, &self.values[i]);
                    }
                    assert(out@ =~= before + zeros((aligned - offset) as nat) + (if variant && is_pad_name(fs[i as int].name@) {
                        zeros(size as nat)
                    } else {
                        value_bytes(vs[i as int])
                    }));
                    offset = aligned + size;
                },
            }
            i = i + 1;
        }
        match self.schema.fixed_layout() {
            Some((total, _)) => {
                proof { crate::schema::lemma_end_le_total(fs); }
                let ghost before = out@;
                crate::display::push_repeat(&mut out, 0u8, total - offset);
                assert(out@ =~= before + zeros((total - offset) as nat));
            },
            None => {},
        }
        assert(body_from(fs, vs, n as int, offset as nat, variant) =~= Seq::<u8>::empty());
        out
    }
}

/// Whether a value has a field type.
fn fits(k: &FieldKind, v: &FieldValue) -> (r: bool)
    ensures
        r == value_fits(*k, *v),
{
    match (k, v) {
        (FieldKind::Scalar(Scalar::U8), FieldValue::U8(_)) => true,
        (FieldKind::Scalar(Scalar::U16), FieldValue::U16(_)) => true,
        (FieldKind::Scalar(Scalar::U32), FieldValue::U32(_)) => true,
        (FieldKind::Scalar(Scalar::U64), FieldValue::U64(_)) => true,
        (FieldKind::Scalar(Scalar::I8), FieldValue::I8(_)) => true,
        (FieldKind::Scalar(Scalar::I16), FieldValue::I16(_)) => true,
        (FieldKind::Scalar(Scalar::I32), FieldValue::I32(_)) => true,
        (FieldKind::Scalar(Scalar::I64), FieldValue::I64(_)) => true,
        (FieldKind::Scalar(Scalar::F32), FieldValue::F32(_)) => true,
        (FieldKind::Scalar(Scalar::F64), FieldValue::F64(_)) => true,
        (FieldKind::Scalar(Scalar::Bool), FieldValue::Bool(_)) => true,
        (FieldKind::Array(s, n), FieldValue::Bytes(b)) => {
            let z: u64 = match s {
                Scalar::U8 | Scalar::I8 | Scalar::Bool => 1,
                Scalar::U16 | Scalar::I16 => 2,
                Scalar::U32 | Scalar::I32 | Scalar::F32 => 4,
                Scalar::U64 | Scalar::I64 | Scalar::F64 => 8,
            };
            b.len() as u64 == (*n as u64) * z
        },
        (FieldKind::Str, FieldValue::Str(_)) => true,
        (FieldKind::StrRef, FieldValue::StrRef(_)) => true,
        (FieldKind::Nested(info), FieldValue::Nested { bytes, text }) => bytes.len() as u64 == info.size as u64,
        _ => false,
    }
}

/// Append a value's payload bytes.
fn push_value(out: &mut Vec<u8>, v: &FieldValue)
    ensures
        final(out)@ == old(out)@ + value_bytes(*v),
{
    match v {
        FieldValue::U8(x) => push_le(out, *x as u64, 1),
        FieldValue::U16(x) => push_le(out, *x as u64, 2),
        FieldValue::U32(x) => push_le(out, *x as u64, 4),
        FieldValue::U64(x) => push_le(out, *x, 8),
        FieldValue::I8(x) => push_le(out, (*x as u8) as u64, 1),
        FieldValue::I16(x) => push_le(out, (*x as u16) as u64, 2),
        FieldValue::I32(x) => push_le(out, (*x as u32) as u64, 4),
        FieldValue::I64(x) => push_le(out, *x as u64, 8),
        FieldValue::F32(x) => push_le(out, *x as u64, 4),
        FieldValue::F64(x) => push_le(out, *x, 8),
        FieldValue::Bool(b) => {
            out.push(if *b { 1u8 } else { 0u8 });
        },
        FieldValue::Bytes(b) => append_bytes(out, b.as_slice()),
        FieldValue::Str(s) => {
            let bytes = s.as_bytes();
            let len = bytes.len() as u32 as u64;
            proof { lemma_u64_fits_ten(len); }
            let mut leb = [0u8; 10];
            let k = encode(len, &mut leb);
            append_bytes(out, vstd::slice::slice_subrange(leb.as_slice(), 0, k));
            append_bytes(out, bytes);
            assert(final(out)@ =~= old(out)@ + value_bytes(*v));
        },
        FieldValue::StrRef(h) => push_le(out, *h as u64, 4),
        FieldValue::Nested { bytes, text } => append_bytes(out, bytes.as_slice()),
    }
}


/// `acc` followed by `r`, when there is an `r`.
pub open spec fn after(acc: Seq<u8>, r: Option<Seq<u8>>) -> Option<Seq<u8>> {
    match r {
        Some(x) => Some(acc + x),
        None => None,
    }
}

/// The first field named `name`.
fn find_field_exec(fields: &Vec<FieldDef>, name: &String) -> (r: usize)
    ensures
        r as int == find_field(fields@, name@, 0),
        r <= fields@.len(),
{
    let mut i: usize = 0;
    while i < fields.len()
        invariant
            i <= fields@.len(),
            find_field(fields@, name@, 0) == find_field(fields@, name@, i as int),
        decreases fields@.len() - i,
    {
        if str_eq(fields[i].name.as_str(), name.as_str()) {
            return i;
        }
        i = i + 1;
    }
    i
}

/// A placeholder's name that a shown field has is found among the fields.
proof fn lemma_find_shown(fields: Seq<FieldDef>, name: Seq<char>, i: int)
    requires
        0 <= i <= fields.len(),
        exists|k: int| i <= k < fields.len() && #[trigger] fields[k].name@ == name,
    ensures
        find_field(fields, name, i) < fields.len(),
    decreases fields.len() - i,
{
    if fields[i].name@ != name {
        assert(exists|k: int| i + 1 <= k < fields.len() && #[trigger] fields[k].name@ == name);
        lemma_find_shown(fields, name, i + 1);
    }
}

/// The text of a value under a placeholder spec (see `value_text`).
fn value_string(v: &FieldValue, fs: Option<FormatSpec>) -> (r: Option<String>)
    ensures
        match (r, value_text(*v, fs)) {
            (Some(s), Some(t)) => encode_utf8(s@) == t,
            (None, None) => true,
            _ => false,
        },
{
    let spec = match fs {
        None => {
            return None;
        },
        Some(x) => x,
    };
    match v {
        FieldValue::U8(x) => Some(arg_string(&TextArg::U8(*x), spec)),
        FieldValue::U16(x) => Some(arg_string(&TextArg::U16(*x), spec)),
        FieldValue::U32(x) => Some(arg_string(&TextArg::U32(*x), spec)),
        FieldValue::U64(x) => Some(arg_string(&TextArg::U64(*x), spec)),
        FieldValue::I8(x) => Some(arg_string(&TextArg::I8(*x), spec)),
        FieldValue::I16(x) => Some(arg_string(&TextArg::I16(*x), spec)),
        FieldValue::I32(x) => Some(arg_string(&TextArg::I32(*x), spec)),
        FieldValue::I64(x) => Some(arg_string(&TextArg::I64(*x), spec)),
        FieldValue::Bool(b) => Some(arg_string(&TextArg::Bool(*b), spec)),
        FieldValue::Str(s) => Some(arg_string(&TextArg::Str(*s), spec)),
        FieldValue::StrRef(h) => {
            let hex = FormatSpec { ty: FormatType::LowerHex, alternate: true, zero_pad: true, width: 10, ..spec };
            Some(uint_text(*h as u64, false, hex))
        },
        FieldValue::Nested { bytes, text } => Some(text.clone()),
        _ => None,
    }
}

/// A text sink that keeps everything written.
struct TextSink {
    text: String,
}

impl Write for TextSink {
    closed spec fn written(&self) -> Seq<u8> {
        encode_utf8(self.text@)
    }

    closed spec fn takes_all(&self) -> bool {
        true
    }

    closed spec fn room(&self) -> Option<nat> {
        None
    }

    fn write_str(&mut self, s: &str) -> (r: Result<(), Error>)
        ensures
            r is Ok,
    {
        let ghost before = self.text@;
        self.text.append(s);
        proof { crate::textlog::lemma_encode_utf8_concat(before, s@); }
        Ok(())
    }
}

impl<'a> EventValue<'a> {
    /// Write the rendered format string.  A placeholder that shows a value
    /// with no text here stops the rendering with an error.
    pub fn render_into<W: Write>(&self, w: &mut W) -> (r: Result<(), Error>)
        ensures
            r is Ok ==> (self.text() matches Some(t) && final(w).written() == old(w).written() + t),
            self.text() is Some && old(w).takes_all() ==> r is Ok && final(w).takes_all(),
            self.text() matches Some(t) ==> bounded_write(*old(w), *final(w), t, r),
    {
        proof { use_type_invariant(self); }
        let ghost w0 = *w;
        proof { lemma_bounded_nothing(w0); }
        let fmt = match self.schema.format_str() {
            None => {
                return Ok(());
            },
            Some(f) => f,
        };
        let segs = match parse_format_str(fmt) {
            Ok(s) => s,
            Err(_) => {
                return Err(Error);
            },
        };
        let fields = self.schema.fields();
        let ghost fs = fields@;
        let ghost vs = self.values@;
        let ghost sv = segments_view(segs@);
        let ghost mut acc: Seq<u8> = Seq::empty();
        let mut j: usize = 0;
        assert(Seq::<u8>::empty() + (if let Some(x) = render_from(sv, fs, vs, 0) { x } else { Seq::empty() }) =~= (if let Some(x) = render_from(sv, fs, vs, 0) { x } else { Seq::empty() }));
        while j < segs.len()
            invariant
                j <= segs@.len(),
                sv == segments_view(segs@),
                fs == fields@,
                vs == self.values@,
                fs.len() == vs.len(),
                self.text() == render_from(sv, fs, vs, 0),
                render_from(sv, fs, vs, 0) == after(acc, render_from(sv, fs, vs, j as int)),
                old(w).takes_all() ==> w.takes_all(),
                format_ok(fs, self.schema.format_v()) == Ok::<(), SchemaError>(()),
                self.schema.format_v() == Some(fmt@),
                format_str_spec(fmt@) == Ok::<Seq<SegmentV>, FormatStrError>(sv),
                w.written() == old(w).written() + acc,
                w0 == *old(w),
                bounded_write(w0, *w, acc, Ok::<(), Error>(())),
            decreases segs@.len() - j,
        {
            assert(sv[j as int] == segment_view(segs@[j as int]));
            let piece: String = match &segs[j] {
                Segment::Literal(t) => t.clone(),
                Segment::Placeholder(p) => {
                    let idx = find_field_exec(fields, &p.name);
                    if idx >= fields.len() {
                        proof {
                            assert(sv[j as int] matches SegmentV::Placeholder(n, _) ==> shown_field(fs, n));
                            lemma_find_shown(fs, p.name@, 0);
                        }
                        return Err(Error);
                    }
                    match value_string(&self.values[idx], fw_spec(p.spec)) {
                        None => {
                            return Err(Error);
                        },
                        Some(s) => s,
                    }
                },
            };
            let ghost wb = *w;
            let wr = w.write_str(piece.as_str());
            proof {
                let pc = encode_utf8(piece@);
                lemma_bounded_one(wb, *w, pc, wr);
                if let Some(t) = self.text() {
                    if let Some(rest) = render_from(sv, fs, vs, j as int + 1) {
                        assert(t =~= acc + pc + rest);
                        assert(t.take((acc + pc).len() as int) =~= acc + pc);
                        lemma_bounded_chain(w0, wb, *w, acc, pc, t, wr);
                    }
                } else {
                    lemma_bounded_then(w0, wb, *w, acc, pc, Ok::<(), Error>(()), wr);
                }
            }
            match wr {
                Ok(()) => {},
                Err(e) => {
                    return Err(e);
                },
            }
            proof {
                let p = encode_utf8(piece@);
                match render_from(sv, fs, vs, j as int + 1) {
                    Some(rest) => {
                        assert(acc + (p + rest) =~= (acc + p) + rest);
                    },
                    None => {},
                }
                acc = acc + p;
            }
            j = j + 1;
        }
        assert(acc + Seq::<u8>::empty() =~= acc);
        Ok(())
    }

    /// The rendered format string as text; `None` when a placeholder shows
    /// a value that has no text here.
    fn render_text(&self) -> (r: Option<String>)
        ensures
            match self.text() {
                Some(t) => r matches Some(s) && encode_utf8(s@) == t,
                None => r is None,
            },
    {
        proof { use_type_invariant(self); }
        let fmt = match self.schema.format_str() {
            None => {
                assert(encode_utf8(Seq::<char>::empty()) =~= Seq::<u8>::empty());
                return Some(String::new());
            },
            Some(f) => f,
        };
        let segs = match parse_format_str(fmt) {
            Ok(s) => s,
            Err(_) => {
                return None;
            },
        };
        let fields = self.schema.fields();
        let ghost fs = fields@;
        let ghost vs = self.values@;
        let ghost sv = segments_view(segs@);
        let mut out = String::new();
        let mut j: usize = 0;
        assert(encode_utf8(Seq::<char>::empty()) =~= Seq::<u8>::empty());
        assert(Seq::<u8>::empty() + (if let Some(x) = render_from(sv, fs, vs, 0) { x } else { Seq::empty() }) =~= (if let Some(x) = render_from(sv, fs, vs, 0) { x } else { Seq::empty() }));
        while j < segs.len()
            invariant
                j <= segs@.len(),
                sv == segments_view(segs@),
                fs == fields@,
                vs == self.values@,
                fs.len() == vs.len(),
                format_ok(fs, self.schema.format_v()) == Ok::<(), SchemaError>(()),
                self.schema.format_v() == Some(fmt@),
                format_str_spec(fmt@) == Ok::<Seq<SegmentV>, FormatStrError>(sv),
                self.text() == render_from(sv, fs, vs, 0),
                render_from(sv, fs, vs, 0) == after(encode_utf8(out@), render_from(sv, fs, vs, j as int)),
            decreases segs@.len() - j,
        {
            assert(sv[j as int] == segment_view(segs@[j as int]));
            let piece: String = match &segs[j] {
                Segment::Literal(t) => t.clone(),
                Segment::Placeholder(p) => {
                    let idx = find_field_exec(fields, &p.name);
                    if idx >= fields.len() {
                        proof {
                            assert(sv[j as int] matches SegmentV::Placeholder(n, _) ==> shown_field(fs, n));
                            lemma_find_shown(fs, p.name@, 0);
                        }
                        return None;
                    }
                    match value_string(&self.values[idx], fw_spec(p.spec)) {
                        None => {
                            return None;
                        },
                        Some(s) => s,
                    }
                },
            };
            let ghost before = out@;
            out.append(piece.as_str());
            proof {
                crate::textlog::lemma_encode_utf8_concat(before, piece@);
                let pc = encode_utf8(piece@);
                match render_from(sv, fs, vs, j as int + 1) {
                    Some(rest) => {
                        assert(encode_utf8(before) + (pc + rest) =~= (encode_utf8(before) + pc) + rest);
                    },
                    None => {},
                }
            }
            j = j + 1;
        }
        assert(encode_utf8(out@) + Seq::<u8>::empty() =~= encode_utf8(out@));
        Some(out)
    }

    /// The event as a field of another event: its payload and its rendered
    /// text; `None` when its text cannot be rendered here.
    pub fn as_field(&self) -> (r: Option<FieldValue<'static>>)
        ensures
            match self.text() {
                Some(t) => r matches Some(FieldValue::Nested { bytes, text }) && bytes@ == self.payload() && encode_utf8(text@) == t,
                None => r is None,
            },
    {
        match self.render_text() {
            Some(t) => Some(FieldValue::Nested { bytes: self.payload_bytes(), text: t }),
            None => None,
        }
    }
}

impl<'a> FormatInto for EventValue<'a> {
    open spec fn rendered(&self) -> Seq<u8> {
        match self.text() {
            Some(t) => t,
            None => Seq::empty(),
        }
    }

    /// Its text renders here when no placeholder shows a float or an array.
    open spec fn renders(&self) -> bool {
        self.text() is Some
    }

    fn format_into<W: Write>(&self, w: &mut W) -> (r: Result<(), Error>)
        ensures
            self.text() is Some && old(w).takes_all() ==> r is Ok && final(w).takes_all(),
    {
        self.render_into(w)
    }
}

impl<'a> ZfmtEvent for EventValue<'a> {
    open spec fn tag_spec(&self) -> u32 {
        self.schema_v().tag_spec()
    }

    open spec fn payload_spec(&self) -> Seq<u8> {
        self.payload()
    }

    fn zfmt_tag(&self) -> u32 {
        self.schema.tag()
    }

    fn payload_size(&self) -> usize {
        self.payload_bytes().len()
    }

    fn payload_bytes(&self) -> Vec<u8> {
        EventValue::payload_bytes(self)
    }
}

} // verus!
