//! Host-side display of decoded values under a format spec, and rendering of a
//! format string over the decoded values.
//!
//! Text is handled as UTF-8 bytes.  Floating-point fields are not formatted
//! here: their place in the output is a `Piece::Float`, which the caller turns
//! into text; everything around them (signs, digits, padding, joins, escapes)
//! is computed and verified here.

use vstd::prelude::*;
use vstd::string::*;
use crate::interpret::{Value, ValueV, value_view};
use crate::numfmt::{digits, to_digits, digit_byte};
use crate::text::{append_bytes, le_bytes, le_value, push_le};

verus! {

/// Alignment of a padded field.
#[derive(Debug, Clone, Copy, PartialEq, Eq, Structural)]
pub enum Align {
    Unset,
    Left,
    Right,
}

/// Presentation type of a field.
#[derive(Debug, Clone, Copy, PartialEq, Eq, Structural)]
pub enum FmtType {
    Display,
    LowerHex,
    UpperHex,
    Binary,
    Octal,
    /// Integer shown as its little-endian bytes, printable ASCII as is and other
    /// bytes as `\xNN`.
    Char,
}

/// A parsed format spec (the part after `:` in `{name:spec}`).
#[derive(Debug, Clone, Copy, PartialEq, Eq, Structural)]
pub struct Spec {
    pub align: Align,
    pub sign: bool,
    pub alternate: bool,
    pub zero_pad: bool,
    pub width: usize,
    pub precision: Option<u8>,
    pub fmt_type: FmtType,
}

/// The spec of a placeholder without `:`.
pub open spec fn default_spec() -> Spec {
    Spec {
        align: Align::Unset,
        sign: false,
        alternate: false,
        zero_pad: false,
        width: 0,
        precision: None,
        fmt_type: FmtType::Display,
    }
}

/// The spec of a placeholder without `:`.
pub fn plain_spec() -> (s: Spec)
    ensures
        s == default_spec(),
{
    Spec {
        align: Align::Unset,
        sign: false,
        alternate: false,
        zero_pad: false,
        width: 0,
        precision: None,
        fmt_type: FmtType::Display,
    }
}

impl Default for Spec {
    fn default() -> (s: Self)
        ensures
            s == default_spec(),
    {
        Spec {
            align: Align::Unset,
            sign: false,
            alternate: false,
            zero_pad: false,
            width: 0,
            precision: None,
            fmt_type: FmtType::Display,
        }
    }
}

/// A piece of output: text, or a float field that the caller formats.
#[derive(Debug)]
pub enum Piece {
    Text(Vec<u8>),
    /// IEEE-754 bits of an `f32` (`wide == false`) or `f64` field, shown with
    /// `precision` decimals (six when `None`).
    Float { bits: u64, wide: bool, precision: Option<u8> },
    /// A timestamp in seconds, `ticks / rate` (rate above zero), shown like an
    /// `f64` field with `precision` decimals.
    Seconds { ticks: u64, rate: u64, precision: Option<u8> },
}

/// The mathematical form of a `Piece`.
pub enum PieceV {
    Text(Seq<u8>),
    Float(u64, bool, Option<u8>),
    Seconds(u64, u64, Option<u8>),
}

pub open spec fn piece_view(p: Piece) -> PieceV {
    match p {
        Piece::Text(t) => PieceV::Text(t@),
        Piece::Float { bits, wide, precision } => PieceV::Float(bits, wide, precision),
        Piece::Seconds { ticks, rate, precision } => PieceV::Seconds(ticks, rate, precision),
    }
}

pub open spec fn pieces_view(ps: Seq<Piece>) -> Seq<PieceV> {
    ps.map_values(|p: Piece| piece_view(p))
}

/// A field of output: its pieces, padded with spaces up to `width` bytes (on
/// the right when `left`, else on the left) once the floats are formatted.
#[derive(Debug)]
pub struct Chunk {
    pub pieces: Vec<Piece>,
    pub width: usize,
    pub left: bool,
}

/// The mathematical form of a `Chunk`: pieces, width, left.
pub type ChunkV = (Seq<PieceV>, nat, bool);

pub open spec fn chunk_view(c: Chunk) -> ChunkV {
    (pieces_view(c.pieces@), c.width as nat, c.left)
}

pub open spec fn chunks_view(cs: Seq<Chunk>) -> Seq<ChunkV> {
    cs.map_values(|c: Chunk| chunk_view(c))
}

/// `n` copies of byte `b`.
pub open spec fn repeat(b: u8, n: nat) -> Seq<u8> {
    Seq::new(n, |i: int| b)
}

/// `s` padded with spaces to `width` bytes: on the right for left alignment,
/// otherwise on the left.  Text already that long is left alone.
pub open spec fn apply_width_spec(s: Seq<u8>, width: nat, left: bool) -> Seq<u8> {
    if width == 0 || s.len() >= width {
        s
    } else if left {
        s + repeat(32u8, (width - s.len()) as nat)
    } else {
        repeat(32u8, (width - s.len()) as nat) + s
    }
}

/// Radix and letter case of a presentation type (`Char` stands as decimal).
pub open spec fn radix_of(t: FmtType) -> (nat, bool) {
    match t {
        FmtType::LowerHex => (16, false),
        FmtType::UpperHex => (16, true),
        FmtType::Binary => (2, false),
        FmtType::Octal => (8, false),
        _ => (10, false),
    }
}

/// The `#` prefix of a presentation type: `0x`, `0X`, `0b`, `0o`, or nothing.
pub open spec fn prefix_of(spec: Spec) -> Seq<u8> {
    if !spec.alternate {
        Seq::empty()
    } else {
        match spec.fmt_type {
            FmtType::LowerHex => seq![48u8, 120u8],
            FmtType::UpperHex => seq![48u8, 88u8],
            FmtType::Binary => seq![48u8, 98u8],
            FmtType::Octal => seq![48u8, 111u8],
            _ => Seq::empty(),
        }
    }
}

/// `-` for a negative value, `+` when the spec asks for a sign, else nothing.
pub open spec fn sign_of(negative: bool, spec: Spec) -> Seq<u8> {
    if negative {
        seq![45u8]
    } else if spec.sign {
        seq![43u8]
    } else {
        Seq::empty()
    }
}

/// Magnitude `v` with sign, prefix and digits in the spec's radix; zero padding
/// goes between prefix and digits when the spec asks for it without an
/// alignment, otherwise the text is padded with spaces.
pub open spec fn fmt_uint_spec(v: nat, negative: bool, spec: Spec) -> Seq<u8> {
    let (radix, upper) = radix_of(spec.fmt_type);
    let d = digits(v, radix, upper);
    let head = sign_of(negative, spec) + prefix_of(spec);
    let content_len = head.len() + d.len();
    if spec.zero_pad && spec.align == Align::Unset && spec.width > content_len {
        head + repeat(48u8, (spec.width - content_len) as nat) + d
    } else {
        apply_width_spec(head + d, spec.width as nat, spec.align == Align::Left)
    }
}

/// A signed value: in decimal as sign and magnitude, in other radixes as the
/// unsigned `bits`.
pub open spec fn fmt_int_spec(v: int, bits: nat, spec: Spec) -> Seq<u8> {
    if spec.fmt_type == FmtType::Display {
        fmt_uint_spec(if v < 0 { (-v) as nat } else { v as nat }, v < 0, spec)
    } else {
        fmt_uint_spec(bits, false, spec)
    }
}

/// Lowercase hex digit of `d` (below 16).
pub open spec fn hex_digit(d: nat) -> u8 {
    if d < 10 { (48 + d) as u8 } else { (87 + d) as u8 }
}

/// One byte as shown by `Char`: itself when printable ASCII, else `\xNN`.
pub open spec fn fourcc_byte(b: u8) -> Seq<u8> {
    if 0x20 <= b <= 0x7e {
        seq![b]
    } else {
        seq![92u8, 120u8, hex_digit((b / 16) as nat), hex_digit((b % 16) as nat)]
    }
}

/// Bytes as shown by `Char`.
pub open spec fn fourcc_spec(bytes: Seq<u8>) -> Seq<u8>
    decreases bytes.len(),
{
    if bytes.len() == 0 {
        Seq::empty()
    } else {
        fourcc_spec(bytes.drop_last()) + fourcc_byte(bytes.last())
    }
}

/// Decimal text of a signed value.
pub open spec fn dec_int(v: int) -> Seq<u8> {
    if v < 0 {
        seq![45u8] + digits((-v) as nat, 10, false)
    } else {
        digits(v as nat, 10, false)
    }
}

/// `true` or `false`.
pub open spec fn bool_text(b: bool) -> Seq<u8> {
    if b { seq![116u8, 114u8, 117u8, 101u8] } else { seq![102u8, 97u8, 108u8, 115u8, 101u8] }
}


/// Default display of a value that is not an array: decimal integers, `true` /
/// `false`, text as is, floats left to the caller (`default_pieces` shows
/// arrays).
pub open spec fn scalar_pieces(v: ValueV) -> Seq<PieceV> {
    match v {
        ValueV::U8(x) => seq![PieceV::Text(digits(x as nat, 10, false))],
        ValueV::U16(x) => seq![PieceV::Text(digits(x as nat, 10, false))],
        ValueV::U32(x) => seq![PieceV::Text(digits(x as nat, 10, false))],
        ValueV::U64(x) => seq![PieceV::Text(digits(x as nat, 10, false))],
        ValueV::I8(x) => seq![PieceV::Text(dec_int(x as int))],
        ValueV::I16(x) => seq![PieceV::Text(dec_int(x as int))],
        ValueV::I32(x) => seq![PieceV::Text(dec_int(x as int))],
        ValueV::I64(x) => seq![PieceV::Text(dec_int(x as int))],
        ValueV::F32(b) => seq![PieceV::Float(b as u64, false, None)],
        ValueV::F64(b) => seq![PieceV::Float(b, true, None)],
        ValueV::Bool(b) => seq![PieceV::Text(bool_text(b))],
        ValueV::Str(t) => seq![PieceV::Text(t)],
        ValueV::Array(_) => Seq::empty(),
        ValueV::Seconds(t, r) => seq![PieceV::Seconds(t, r, None)],
    }
}

/// The elements of an array, each in default display, separated by `, `.
pub open spec fn joined_pieces(items: Seq<ValueV>) -> Seq<PieceV>
    decreases items,
{
    if items.len() == 0 {
        Seq::empty()
    } else if items.len() == 1 {
        default_pieces(items[0])
    } else {
        proof { assert(items.drop_last() == items.subrange(0, items.len() - 1)); }
        joined_pieces(items.drop_last()) + seq![PieceV::Text(seq![44u8, 32u8])] + default_pieces(items[items.len() - 1])
    }
}

/// Default display of a value: an array as `[a, b, ...]`, its elements
/// shown in turn.
pub open spec fn default_pieces(v: ValueV) -> Seq<PieceV>
    decreases v,
{
    match v {
        ValueV::Array(items) => seq![PieceV::Text(seq![91u8])] + joined_pieces(items) + seq![PieceV::Text(seq![93u8])],
        _ => scalar_pieces(v),
    }
}

/// The bytes an integer value shows under `Char`, or `None` for a value that
/// is not an integer.
pub open spec fn char_bytes(v: ValueV) -> Option<Seq<u8>> {
    match v {
        ValueV::U8(x) => Some(le_bytes(x as nat, 1)),
        ValueV::U16(x) => Some(le_bytes(x as nat, 2)),
        ValueV::U32(x) => Some(le_bytes(x as nat, 4)),
        ValueV::U64(x) => Some(le_bytes(x as nat, 8)),
        ValueV::I8(x) => Some(le_bytes(x as u8 as nat, 1)),
        ValueV::I16(x) => Some(le_bytes(x as u16 as nat, 2)),
        ValueV::I32(x) => Some(le_bytes(x as u32 as nat, 4)),
        ValueV::I64(x) => Some(le_bytes(x as u64 as nat, 8)),
        _ => None,
    }
}

/// A value shown under `spec`.  Integers follow radix, sign, prefix, zero
/// padding and width; text and arrays follow the width; floats follow the
/// precision only; `true` / `false` ignore the spec.
pub open spec fn spec_chunk(v: ValueV, spec: Spec) -> ChunkV {
    if spec.fmt_type == FmtType::Char {
        match char_bytes(v) {
            Some(b) => (seq![PieceV::Text(fourcc_spec(b))], 0, false),
            None => (default_pieces(v), 0, false),
        }
    } else {
        match v {
            ValueV::U8(x) => (seq![PieceV::Text(fmt_uint_spec(x as nat, false, spec))], 0, false),
            ValueV::U16(x) => (seq![PieceV::Text(fmt_uint_spec(x as nat, false, spec))], 0, false),
            ValueV::U32(x) => (seq![PieceV::Text(fmt_uint_spec(x as nat, false, spec))], 0, false),
            ValueV::U64(x) => (seq![PieceV::Text(fmt_uint_spec(x as nat, false, spec))], 0, false),
            ValueV::I8(x) => (seq![PieceV::Text(fmt_int_spec(x as int, x as u64 as nat, spec))], 0, false),
            ValueV::I16(x) => (seq![PieceV::Text(fmt_int_spec(x as int, x as u16 as nat, spec))], 0, false),
            ValueV::I32(x) => (seq![PieceV::Text(fmt_int_spec(x as int, x as u32 as nat, spec))], 0, false),
            ValueV::I64(x) => (seq![PieceV::Text(fmt_int_spec(x as int, x as u64 as nat, spec))], 0, false),
            ValueV::F32(b) => (seq![PieceV::Float(b as u64, false, spec.precision)], 0, false),
            ValueV::F64(b) => (seq![PieceV::Float(b, true, spec.precision)], 0, false),
            ValueV::Bool(b) => (seq![PieceV::Text(bool_text(b))], 0, false),
            ValueV::Str(t) => (seq![PieceV::Text(apply_width_spec(t, spec.width as nat, spec.align == Align::Left))], 0, false),
            ValueV::Array(_) => (default_pieces(v), spec.width as nat, spec.align == Align::Left),
            ValueV::Seconds(t, r) => (seq![PieceV::Seconds(t, r, spec.precision)], 0, false),
        }
    }
}

/// `s` padded with spaces to `width` bytes.
pub fn apply_width(s: &[u8], width: usize, left: bool) -> (r: Vec<u8>)
    ensures
        r@ == apply_width_spec(s@, width as nat, left),
{
    let mut out: Vec<u8> = Vec::new();
    if width == 0 || s.len() >= width {
        append_bytes(&mut out, s);
        return out;
    }
    let pad = width - s.len();
    if left {
        append_bytes(&mut out, s);
        push_repeat(&mut out, 32u8, pad);
    } else {
        push_repeat(&mut out, 32u8, pad);
        append_bytes(&mut out, s);
    }
    out
}

/// Append `n` copies of `b`.
pub fn push_repeat(out: &mut Vec<u8>, b: u8, n: usize)
    ensures
        final(out)@ == old(out)@ + repeat(b, n as nat),
{
    let ghost start = out@;
    let mut i: usize = 0;
    while i < n
        invariant
            i <= n,
            out@ == start + repeat(b, i as nat),
        decreases n - i,
    {
        out.push(b);
        i = i + 1;
        assert(out@ =~= start + repeat(b, i as nat));
    }
}

/// Magnitude `v` formatted under `spec` (see `fmt_uint_spec`).
pub fn fmt_uint(v: u64, negative: bool, spec: &Spec) -> (r: Vec<u8>)
    ensures
        r@ == fmt_uint_spec(v as nat, negative, *spec),
{
    let (radix, upper): (u64, bool) = match spec.fmt_type {
        FmtType::LowerHex => (16, false),
        FmtType::UpperHex => (16, true),
        FmtType::Binary => (2, false),
        FmtType::Octal => (8, false),
        _ => (10, false),
    };
    let d = to_digits(v, radix, upper);
    let mut head: Vec<u8> = Vec::new();
    if negative {
        head.push(45u8);
    } else if spec.sign {
        head.push(43u8);
    }
    if spec.alternate {
        match spec.fmt_type {
            FmtType::LowerHex => { head.push(48u8); head.push(120u8); }
            FmtType::UpperHex => { head.push(48u8); head.push(88u8); }
            FmtType::Binary => { head.push(48u8); head.push(98u8); }
            FmtType::Octal => { head.push(48u8); head.push(111u8); }
            _ => {}
        }
    }
    assert(head@ =~= sign_of(negative, *spec) + prefix_of(*spec));
    proof { crate::numfmt::lemma_u64_digits_len(v, radix as nat, upper); }
    let content_len = head.len() + d.len();
    if spec.zero_pad && spec.align == Align::Unset && spec.width > content_len {
        let mut out = head;
        push_repeat(&mut out, 48u8, spec.width - content_len);
        append_bytes(&mut out, d.as_slice());
        out
    } else {
        let mut content = head;
        append_bytes(&mut content, d.as_slice());
        apply_width(content.as_slice(), spec.width, spec.align == Align::Left)
    }
}

/// Magnitude of a signed value.
fn abs_i64(v: i64) -> (r: u64)
    ensures
        r as int == if v < 0 { -(v as int) } else { v as int },
{
    if v < 0 {
        (-(v + 1)) as u64 + 1
    } else {
        v as u64
    }
}

/// A signed value formatted under `spec` (see `fmt_int_spec`).
pub fn fmt_int(v: i64, bits: u64, spec: &Spec) -> (r: Vec<u8>)
    ensures
        r@ == fmt_int_spec(v as int, bits as nat, *spec),
{
    if spec.fmt_type == FmtType::Display {
        fmt_uint(abs_i64(v), v < 0, spec)
    } else {
        fmt_uint(bits, false, spec)
    }
}

/// Bytes as shown by `Char` (see `fourcc_spec`).
pub fn fmt_fourcc_host(bytes: &[u8]) -> (r: Vec<u8>)
    ensures
        r@ == fourcc_spec(bytes@),
{
    let mut out: Vec<u8> = Vec::new();
    let mut i: usize = 0;
    assert(bytes@.take(0) =~= Seq::<u8>::empty());
    while i < bytes.len()
        invariant
            i <= bytes@.len(),
            out@ == fourcc_spec(bytes@.take(i as int)),
        decreases bytes@.len() - i,
    {
        let b = bytes[i];
        assert(bytes@.take(i as int + 1).drop_last() =~= bytes@.take(i as int));
        if 0x20 <= b && b <= 0x7e {
            out.push(b);
            assert(out@ =~= fourcc_spec(bytes@.take(i as int)) + fourcc_byte(b));
        } else {
            let hi = b / 16;
            let lo = b % 16;
            out.push(92u8);
            out.push(120u8);
            out.push(if hi < 10 { 48 + hi } else { 87 + hi });
            out.push(if lo < 10 { 48 + lo } else { 87 + lo });
            assert(out@ =~= fourcc_spec(bytes@.take(i as int)) + fourcc_byte(b));
        }
        i = i + 1;
    }
    assert(bytes@.take(bytes@.len() as int) =~= bytes@);
    out
}


/// Decimal text of a signed value.
pub fn dec_i64(v: i64) -> (r: Vec<u8>)
    ensures
        r@ == dec_int(v as int),
{
    let mut out: Vec<u8> = Vec::new();
    if v < 0 {
        out.push(45u8);
    }
    let d = to_digits(abs_i64(v), 10, false);
    append_bytes(&mut out, d.as_slice());
    out
}

/// `true` or `false`.
fn bool_bytes(b: bool) -> (r: Vec<u8>)
    ensures
        r@ == bool_text(b),
{
    let mut out: Vec<u8> = Vec::new();
    if b {
        out.push(116u8); out.push(114u8); out.push(117u8); out.push(101u8);
    } else {
        out.push(102u8); out.push(97u8); out.push(108u8); out.push(115u8); out.push(101u8);
    }
    assert(out@ =~= bool_text(b));
    out
}

/// One text piece.
fn text_piece(t: Vec<u8>) -> (p: Piece)
    ensures
        piece_view(p) == PieceV::Text(t@),
{
    Piece::Text(t)
}

/// Default display of a value that is not an array, as one piece.
fn scalar_piece(v: &Value) -> (p: Piece)
    requires
        !(*v is Array),
    ensures
        seq![piece_view(p)] == scalar_pieces(value_view(*v)),
{
    let p = match v {
        Value::U8(x) => text_piece(to_digits(*x as u64, 10, false)),
        Value::U16(x) => text_piece(to_digits(*x as u64, 10, false)),
        Value::U32(x) => text_piece(to_digits(*x as u64, 10, false)),
        Value::U64(x) => text_piece(to_digits(*x, 10, false)),
        Value::I8(x) => text_piece(dec_i64(*x as i64)),
        Value::I16(x) => text_piece(dec_i64(*x as i64)),
        Value::I32(x) => text_piece(dec_i64(*x as i64)),
        Value::I64(x) => text_piece(dec_i64(*x)),
        Value::F32(b) => Piece::Float { bits: *b as u64, wide: false, precision: None },
        Value::F64(b) => Piece::Float { bits: *b, wide: true, precision: None },
        Value::Bool(b) => text_piece(bool_bytes(*b)),
        Value::Str(t) => text_piece(vstd::slice::slice_to_vec(t.as_slice())),
        Value::Array(_) => text_piece(Vec::new()),
        Value::Seconds { ticks, rate } => Piece::Seconds { ticks: *ticks, rate: *rate, precision: None },
    };
    p
}

/// One byte as a text piece.
fn byte_piece(b: u8) -> (p: Piece)
    ensures
        piece_view(p) == PieceV::Text(seq![b]),
{
    let mut t: Vec<u8> = Vec::new();
    t.push(b);
    assert(t@ =~= seq![b]);
    Piece::Text(t)
}

/// Default display of a value as pieces.
fn default_pieces_exec(v: &Value) -> (r: Vec<Piece>)
    ensures
        pieces_view(r@) == default_pieces(value_view(*v)),
    decreases v,
{
    let mut pieces: Vec<Piece> = Vec::new();
    match v {
        Value::Array(items) => {
            let ghost iv = match value_view(*v) { ValueV::Array(s) => s, _ => Seq::empty() };
            assert(iv.len() == items@.len() && forall|k: int| 0 <= k < items@.len() ==> iv[k] == value_view(#[trigger] items@[k]));
            pieces.push(byte_piece(91u8));
            let mut i: usize = 0;
            proof {
                assert(iv.take(0) =~= Seq::<ValueV>::empty());
                assert(pieces_view(pieces@) =~= seq![PieceV::Text(seq![91u8])] + joined_pieces(iv.take(0)));
            }
            while i < items.len()
                invariant
                    i <= items@.len(),
                    *v == Value::Array(*items),
                    value_view(*v) == ValueV::Array(iv),
                    iv.len() == items@.len(),
                    forall|k: int| 0 <= k < items@.len() ==> iv[k] == value_view(#[trigger] items@[k]),
                    pieces_view(pieces@) == seq![PieceV::Text(seq![91u8])] + joined_pieces(iv.take(i as int)),
                decreases items@.len() - i,
            {
                let ghost before = pieces_view(pieces@);
                let ghost t = iv.take(i as int + 1);
                assert(t.drop_last() =~= iv.take(i as int));
                assert(t[t.len() - 1] == value_view(items@[i as int]));
                if i > 0 {
                    let mut sep: Vec<u8> = Vec::new();
                    sep.push(44u8);
                    sep.push(32u8);
                    assert(sep@ =~= seq![44u8, 32u8]);
                    pieces.push(Piece::Text(sep));
                }
                let ghost mid = pieces@;
                proof {
                    assert(decreases_to!(*v => *items));
                    assert(decreases_to!(*items => items@));
                    assert(decreases_to!(items@ => items@[i as int]));
                }
                let mut sub = default_pieces_exec(&items[i]);
                let ghost subv = pieces_view(sub@);
                pieces.append(&mut sub);
                proof {
                    assert(pieces_view(pieces@) =~= pieces_view(mid) + subv);
                    if i == 0 {
                        assert(t =~= seq![iv[0]]);
                        assert(pieces_view(pieces@) =~= before + subv);
                    } else {
                        assert(pieces_view(pieces@) =~= before + seq![PieceV::Text(seq![44u8, 32u8])] + subv);
                    }
                }
                i = i + 1;
            }
            pieces.push(byte_piece(93u8));
            proof {
                assert(iv.take(items@.len() as int) =~= iv);
            }
            assert(pieces_view(pieces@) =~= seq![PieceV::Text(seq![91u8])] + joined_pieces(iv) + seq![PieceV::Text(seq![93u8])]);
        }
        _ => {
            let p = scalar_piece(v);
            pieces.push(p);
            assert(pieces_view(pieces@) =~= seq![piece_view(p)]);
        }
    }
    pieces
}

/// The bytes an integer value shows under `Char`.
fn char_bytes_exec(v: &Value) -> (r: Option<Vec<u8>>)
    ensures
        match char_bytes(value_view(*v)) {
            Some(b) => r matches Some(x) && x@ == b,
            None => r is None,
        },
{
    let mut out: Vec<u8> = Vec::new();
    match v {
        Value::U8(x) => { push_le(&mut out, *x as u64, 1); }
        Value::U16(x) => { push_le(&mut out, *x as u64, 2); }
        Value::U32(x) => { push_le(&mut out, *x as u64, 4); }
        Value::U64(x) => { push_le(&mut out, *x, 8); }
        Value::I8(x) => { push_le(&mut out, (*x as u8) as u64, 1); }
        Value::I16(x) => { push_le(&mut out, (*x as u16) as u64, 2); }
        Value::I32(x) => { push_le(&mut out, (*x as u32) as u64, 4); }
        Value::I64(x) => { push_le(&mut out, *x as u64, 8); }
        _ => { return None; }
    }
    Some(out)
}

/// A chunk of one text piece.
fn text_chunk(t: Vec<u8>) -> (c: Chunk)
    ensures
        chunk_view(c) == (seq![PieceV::Text(t@)], 0nat, false),
{
    let mut pieces: Vec<Piece> = Vec::new();
    pieces.push(Piece::Text(t));
    let c = Chunk { pieces, width: 0, left: false };
    assert(pieces_view(c.pieces@) =~= seq![PieceV::Text(t@)]);
    c
}

/// A chunk of one piece.
fn piece_chunk(p: Piece) -> (c: Chunk)
    ensures
        chunk_view(c) == (seq![piece_view(p)], 0nat, false),
{
    let ghost pv = piece_view(p);
    let mut pieces: Vec<Piece> = Vec::new();
    pieces.push(p);
    let c = Chunk { pieces, width: 0, left: false };
    assert(pieces_view(c.pieces@) =~= seq![pv]);
    c
}

impl Value {
    /// Default display: decimal integers, `true` / `false`, text as is, arrays
    /// as `[a, b, ...]`; floats are left as float pieces.
    pub fn display_default(&self) -> (c: Chunk)
        ensures
            chunk_view(c) == (default_pieces(value_view(*self)), 0nat, false),
    {
        Chunk { pieces: default_pieces_exec(self), width: 0, left: false }
    }

    /// Display under a format spec (see `spec_chunk`).
    pub fn display_spec(&self, spec: &Spec) -> (c: Chunk)
        ensures
            chunk_view(c) == spec_chunk(value_view(*self), *spec),
    {
        if spec.fmt_type == FmtType::Char {
            return match char_bytes_exec(self) {
                Some(b) => text_chunk(fmt_fourcc_host(b.as_slice())),
                None => Chunk { pieces: default_pieces_exec(self), width: 0, left: false },
            };
        }
        match self {
            Value::U8(x) => text_chunk(fmt_uint(*x as u64, false, spec)),
            Value::U16(x) => text_chunk(fmt_uint(*x as u64, false, spec)),
            Value::U32(x) => text_chunk(fmt_uint(*x as u64, false, spec)),
            Value::U64(x) => text_chunk(fmt_uint(*x, false, spec)),
            Value::I8(x) => text_chunk(fmt_int(*x as i64, *x as u64, spec)),
            Value::I16(x) => text_chunk(fmt_int(*x as i64, (*x as u16) as u64, spec)),
            Value::I32(x) => text_chunk(fmt_int(*x as i64, (*x as u32) as u64, spec)),
            Value::I64(x) => text_chunk(fmt_int(*x, *x as u64, spec)),
            Value::F32(b) => piece_chunk(Piece::Float { bits: *b as u64, wide: false, precision: spec.precision }),
            Value::F64(b) => piece_chunk(Piece::Float { bits: *b, wide: true, precision: spec.precision }),
            Value::Bool(b) => text_chunk(bool_bytes(*b)),
            Value::Str(t) => text_chunk(apply_width(t.as_slice(), spec.width, spec.align == Align::Left)),
            Value::Array(_) => Chunk {
                pieces: default_pieces_exec(self),
                width: spec.width,
                left: spec.align == Align::Left,
            },
            Value::Seconds { ticks, rate } => piece_chunk(Piece::Seconds { ticks: *ticks, rate: *rate, precision: spec.precision }),
        }
    }
}


/// Why a format spec was refused.
#[derive(Debug, Clone, Copy, PartialEq, Eq)]
pub enum SpecError {
    /// `.` not followed by a digit.
    MissingPrecision,
    /// A presentation type other than `x`, `X`, `b`, `o`, `c` (its first byte).
    UnknownType(u8),
}

pub open spec fn is_digit(b: u8) -> bool {
    48 <= b <= 57
}

/// Length of the run of ASCII digits that starts at `i`.
pub open spec fn digit_run(s: Seq<u8>, i: nat) -> nat
    decreases s.len() - i,
{
    if i < s.len() && is_digit(s[i as int]) {
        1 + digit_run(s, i + 1)
    } else {
        0
    }
}

/// Decimal value of a run of ASCII digits.
pub open spec fn dec_value(s: Seq<u8>) -> nat
    decreases s.len(),
{
    if s.len() == 0 {
        0
    } else {
        dec_value(s.drop_last()) * 10 + (s.last() - 48) as nat
    }
}

/// The presentation type at `i` (if any) completes `base`; what follows it is
/// ignored.
pub open spec fn type_at(s: Seq<u8>, i: nat, base: Spec) -> Result<Spec, SpecError> {
    if i >= s.len() {
        Ok(base)
    } else {
        let c = s[i as int];
        if c == 120u8 {
            Ok(Spec { fmt_type: FmtType::LowerHex, ..base })
        } else if c == 88u8 {
            Ok(Spec { fmt_type: FmtType::UpperHex, ..base })
        } else if c == 98u8 {
            Ok(Spec { fmt_type: FmtType::Binary, ..base })
        } else if c == 111u8 {
            Ok(Spec { fmt_type: FmtType::Octal, ..base })
        } else if c == 99u8 {
            Ok(Spec { fmt_type: FmtType::Char, ..base })
        } else {
            Err(SpecError::UnknownType(c))
        }
    }
}

/// `[<|>][+][#][0][width][.precision][type]`.  A width too large for `usize`
/// counts as 0; a precision above 255 counts as 6.
pub open spec fn parse_spec_spec(s: Seq<u8>) -> Result<Spec, SpecError> {
    let len = s.len();
    let align = if len > 0 && s[0] == 60u8 { Align::Left } else if len > 0 && s[0] == 62u8 { Align::Right } else { Align::Unset };
    let i0: nat = if align == Align::Unset { 0 } else { 1 };
    let sign = i0 < len && s[i0 as int] == 43u8;
    let i1: nat = if sign { i0 + 1 } else { i0 };
    let alternate = i1 < len && s[i1 as int] == 35u8;
    let i2: nat = if alternate { i1 + 1 } else { i1 };
    let zero_pad = i2 < len && s[i2 as int] == 48u8;
    let i3: nat = if zero_pad { i2 + 1 } else { i2 };
    let wn = digit_run(s, i3);
    let wv = dec_value(s.subrange(i3 as int, (i3 + wn) as int));
    let width: usize = if wv <= usize::MAX { wv as usize } else { 0 };
    let i4 = i3 + wn;
    let base = Spec { align, sign, alternate, zero_pad, width, precision: None, fmt_type: FmtType::Display };
    if i4 < len && s[i4 as int] == 46u8 {
        let pn = digit_run(s, i4 + 1);
        if pn == 0 {
            Err(SpecError::MissingPrecision)
        } else {
            let pv = dec_value(s.subrange((i4 + 1) as int, (i4 + 1 + pn) as int));
            let precision: u8 = if pv <= 255 { pv as u8 } else { 6 };
            type_at(s, i4 + 1 + pn, Spec { precision: Some(precision), ..base })
        }
    } else {
        type_at(s, i4, base)
    }
}

proof fn lemma_digit_run_step(s: Seq<u8>, i: nat)
    requires
        i < s.len(),
        is_digit(s[i as int]),
    ensures
        digit_run(s, i) == 1 + digit_run(s, i + 1),
{
}

/// Scan the digits at `i`: the end of the run, and its value when it is at
/// most `limit`.
fn scan_number(b: &[u8], i: usize, limit: u64) -> (r: (usize, Option<u64>))
    requires
        i <= b@.len(),
    ensures
        r.0 == i + digit_run(b@, i as nat),
        r.0 <= b@.len(),
        match r.1 {
            Some(v) => v == dec_value(b@.subrange(i as int, r.0 as int)) && v <= limit,
            None => dec_value(b@.subrange(i as int, r.0 as int)) > limit,
        },
{
    let mut j: usize = i;
    let mut acc: u64 = 0;
    let mut over: bool = false;
    assert(b@.subrange(i as int, i as int) =~= Seq::<u8>::empty());
    while j < b.len() && 48 <= b[j] && b[j] <= 57
        invariant
            i <= j <= b@.len(),
            digit_run(b@, i as nat) == (j - i) + digit_run(b@, j as nat),
            !over ==> acc as nat == dec_value(b@.subrange(i as int, j as int)) && acc <= limit,
            over ==> dec_value(b@.subrange(i as int, j as int)) > limit,
        decreases b@.len() - j,
    {
        let d = b[j] - 48;
        let ghost prev = b@.subrange(i as int, j as int);
        assert(b@.subrange(i as int, j as int + 1).drop_last() =~= prev);
        proof { lemma_digit_run_step(b@, j as nat); }
        if !over {
            let next: u128 = acc as u128 * 10 + d as u128;
            if next > limit as u128 {
                over = true;
            } else {
                acc = next as u64;
            }
        }
        j = j + 1;
    }
    (j, if over { None } else { Some(acc) })
}

/// Parse a format spec (see `parse_spec_spec`).
pub fn parse_spec(s: &str) -> (r: Result<Spec, SpecError>)
    ensures
        r == parse_spec_spec(s.spec_bytes()),
{
    parse_spec_bytes(s.as_bytes())
}

/// Parse a format spec given as bytes.
pub fn parse_spec_bytes(b: &[u8]) -> (r: Result<Spec, SpecError>)
    ensures
        r == parse_spec_spec(b@),
{
    let len = b.len();
    let mut i: usize = 0;
    let align = if len > 0 && b[0] == 60u8 { Align::Left } else if len > 0 && b[0] == 62u8 { Align::Right } else { Align::Unset };
    if align != Align::Unset {
        i = 1;
    }
    let sign = i < len && b[i] == 43u8;
    if sign {
        i = i + 1;
    }
    let alternate = i < len && b[i] == 35u8;
    if alternate {
        i = i + 1;
    }
    let zero_pad = i < len && b[i] == 48u8;
    if zero_pad {
        i = i + 1;
    }
    let (i4, wv) = scan_number(b, i, usize::MAX as u64);
    let width: usize = match wv {
        Some(v) => v as usize,
        None => 0,
    };
    let mut spec = Spec { align, sign, alternate, zero_pad, width, precision: None, fmt_type: FmtType::Display };
    let mut t = i4;
    if i4 < len && b[i4] == 46u8 {
        let (pe, pv) = scan_number(b, i4 + 1, 255);
        if pe == i4 + 1 {
            return Err(SpecError::MissingPrecision);
        }
        let precision: u8 = match pv {
            Some(v) => v as u8,
            None => 6,
        };
        spec.precision = Some(precision);
        t = pe;
    }
    if t >= len {
        return Ok(spec);
    }
    let c = b[t];
    if c == 120u8 {
        spec.fmt_type = FmtType::LowerHex;
    } else if c == 88u8 {
        spec.fmt_type = FmtType::UpperHex;
    } else if c == 98u8 {
        spec.fmt_type = FmtType::Binary;
    } else if c == 111u8 {
        spec.fmt_type = FmtType::Octal;
    } else if c == 99u8 {
        spec.fmt_type = FmtType::Char;
    } else {
        return Err(SpecError::UnknownType(c));
    }
    Ok(spec)
}


/// Why a format string could not be rendered.
#[derive(Debug, Clone, Copy, PartialEq, Eq)]
pub enum RenderError {
    /// A `{` without a closing `}`.
    Unclosed,
    /// A lone `}`.
    UnexpectedClose,
    /// A placeholder's spec was refused.
    BadSpec(SpecError),
    /// Placeholder number `index` (from 0) but only `count` values.
    TooFewValues { index: usize, count: usize },
}

/// Index of the first `}` at or after `j`.
pub open spec fn find_close(fmt: Seq<u8>, j: nat) -> Option<nat>
    decreases fmt.len() - j,
{
    if j >= fmt.len() {
        None
    } else if fmt[j as int] == 125u8 {
        Some(j)
    } else {
        find_close(fmt, j + 1)
    }
}

/// Index of the first `:` at or after `j`.
pub open spec fn find_colon(s: Seq<u8>, j: nat) -> Option<nat>
    decreases s.len() - j,
{
    if j >= s.len() {
        None
    } else if s[j as int] == 58u8 {
        Some(j)
    } else {
        find_colon(s, j + 1)
    }
}

/// The spec of a placeholder's inner text `name[:spec]`.
pub open spec fn placeholder_spec(inner: Seq<u8>) -> Result<Spec, SpecError> {
    match find_colon(inner, 0) {
        None => Ok(default_spec()),
        Some(c) => parse_spec_spec(inner.skip((c + 1) as int)),
    }
}

/// `out` with the pending literal text `acc` appended as a chunk, if any.
pub open spec fn flush(out: Seq<ChunkV>, acc: Seq<u8>) -> Seq<ChunkV> {
    if acc.len() == 0 { out } else { out.push((seq![PieceV::Text(acc)], 0nat, false)) }
}

/// Render `fmt` from byte `i`: `k` placeholders were filled so far, `out`
/// holds the chunks and `acc` the literal text not yet emitted.  `{{` and `}}`
/// stand for braces; the n-th placeholder shows `vals[n]` under its spec.
pub open spec fn render_from(fmt: Seq<u8>, i: nat, vals: Seq<ValueV>, k: nat, out: Seq<ChunkV>, acc: Seq<u8>) -> Result<Seq<ChunkV>, RenderError>
    decreases fmt.len() - i,
{
    if i >= fmt.len() {
        Ok(flush(out, acc))
    } else {
        let c = fmt[i as int];
        if c == 123u8 && i + 1 < fmt.len() && fmt[(i + 1) as int] == 123u8 {
            render_from(fmt, i + 2, vals, k, out, acc.push(123u8))
        } else if c == 123u8 {
            match find_close(fmt, i + 1) {
                None => Err(RenderError::Unclosed),
                Some(j) => match placeholder_spec(fmt.subrange((i + 1) as int, j as int)) {
                    Err(e) => Err(RenderError::BadSpec(e)),
                    Ok(spec) => if k >= vals.len() {
                        Err(RenderError::TooFewValues { index: k as usize, count: vals.len() as usize })
                    } else {
                        proof { lemma_find_close(fmt, i + 1); }
                        render_from(fmt, j + 1, vals, k + 1, flush(out, acc).push(spec_chunk(vals[k as int], spec)), Seq::empty())
                    },
                },
            }
        } else if c == 125u8 && i + 1 < fmt.len() && fmt[(i + 1) as int] == 125u8 {
            render_from(fmt, i + 2, vals, k, out, acc.push(125u8))
        } else if c == 125u8 {
            Err(RenderError::UnexpectedClose)
        } else {
            render_from(fmt, i + 1, vals, k, out, acc.push(c))
        }
    }
}

pub open spec fn values_view_of(vs: Seq<Value>) -> Seq<ValueV> {
    vs.map_values(|v: Value| value_view(v))
}

/// What rendering `fmt` over `vals` yields.
pub open spec fn render_spec(fmt: Seq<u8>, vals: Seq<ValueV>) -> Result<Seq<ChunkV>, RenderError> {
    render_from(fmt, 0, vals, 0, Seq::empty(), Seq::empty())
}

pub proof fn lemma_find_close(fmt: Seq<u8>, j: nat)
    ensures
        find_close(fmt, j) matches Some(x) ==> j <= x < fmt.len() && fmt[x as int] == 125u8,
    decreases fmt.len() - j,
{
    if j < fmt.len() && fmt[j as int] != 125u8 {
        lemma_find_close(fmt, j + 1);
    }
}

/// Index of the first `}` at or after `j`.
fn find_close_exec(fmt: &[u8], j: usize) -> (r: Option<usize>)
    ensures
        match find_close(fmt@, j as nat) {
            Some(x) => r matches Some(y) && y as nat == x,
            None => r is None,
        },
        r matches Some(x) ==> j <= x < fmt.len(),
{
    proof { lemma_find_close(fmt@, j as nat); }
    let mut x: usize = j;
    while x < fmt.len()
        invariant
            j <= x,
            find_close(fmt@, j as nat) == find_close(fmt@, x as nat),
        decreases fmt@.len() - x,
    {
        if fmt[x] == 125u8 {
            return Some(x);
        }
        x = x + 1;
    }
    None
}

/// Index of the first `:` at or after `j`.
fn find_colon_exec(s: &[u8], j: usize) -> (r: Option<usize>)
    ensures
        match find_colon(s@, j as nat) {
            Some(x) => r matches Some(y) && y as nat == x,
            None => r is None,
        },
        r matches Some(x) ==> j <= x < s.len(),
{
    let mut x: usize = j;
    while x < s.len()
        invariant
            j <= x,
            find_colon(s@, j as nat) == find_colon(s@, x as nat),
            forall|y: nat| j <= y < x ==> s@[y as int] != 58u8,
        decreases s@.len() - x,
    {
        if s[x] == 58u8 {
            return Some(x);
        }
        x = x + 1;
    }
    None
}

/// The spec of a placeholder's inner text.
fn placeholder_spec_exec(inner: &[u8]) -> (r: Result<Spec, SpecError>)
    ensures
        r == placeholder_spec(inner@),
{
    match find_colon_exec(inner, 0) {
        None => Ok(plain_spec()),
        Some(c) => {
            let rest = vstd::slice::slice_subrange(inner, c + 1, inner.len());
            assert(rest@ =~= inner@.skip(c + 1));
            parse_spec_bytes(rest)
        }
    }
}

/// Emit the pending literal text, if any.
fn flush_exec(out: &mut Vec<Chunk>, acc: Vec<u8>)
    ensures
        chunks_view(final(out)@) == flush(chunks_view(old(out)@), acc@),
{
    if acc.len() > 0 {
        let ghost before = chunks_view(out@);
        let c = text_chunk(acc);
        let ghost cv = chunk_view(c);
        out.push(c);
        assert(chunks_view(out@) =~= before.push(cv));
    }
}

/// Render `format_str`, substituting the n-th placeholder with `values[n]`
/// shown under the placeholder's spec.  Placeholders are matched to values by
/// position; their names are not consulted.
pub fn render(format_str: &str, values: &[Value]) -> (r: Result<Vec<Chunk>, RenderError>)
    ensures
        match render_spec(format_str.spec_bytes(), values_view_of(values@)) {
            Ok(cs) => r matches Ok(v) && chunks_view(v@) == cs,
            Err(e) => r == Err::<Vec<Chunk>, RenderError>(e),
        },
{
    render_bytes(format_str.as_bytes(), values)
}

/// Render a format string given as bytes.
pub fn render_bytes(fmt: &[u8], values: &[Value]) -> (r: Result<Vec<Chunk>, RenderError>)
    ensures
        match render_spec(fmt@, values_view_of(values@)) {
            Ok(cs) => r matches Ok(v) && chunks_view(v@) == cs,
            Err(e) => r == Err::<Vec<Chunk>, RenderError>(e),
        },
{
    let ghost vals = values_view_of(values@);
    let mut out: Vec<Chunk> = Vec::new();
    let mut acc: Vec<u8> = Vec::new();
    let mut i: usize = 0;
    let mut k: usize = 0;
    let n = fmt.len();
    proof {
        assert(chunks_view(out@) =~= Seq::<ChunkV>::empty());
    }
    while i < n
        invariant
            n == fmt@.len(),
            i <= n,
            k <= values@.len(),
            vals == values_view_of(values@),
            render_spec(fmt@, vals) == render_from(fmt@, i as nat, vals, k as nat, chunks_view(out@), acc@),
        decreases n - i,
    {
        let c = fmt[i];
        if c == 123u8 && i + 1 < n && fmt[i + 1] == 123u8 {
            acc.push(123u8);
            i = i + 2;
        } else if c == 123u8 {
            let j = match find_close_exec(fmt, i + 1) {
                None => { return Err(RenderError::Unclosed); }
                Some(j) => j,
            };
            let inner = vstd::slice::slice_subrange(fmt, i + 1, j);
            let spec = match placeholder_spec_exec(inner) {
                Err(e) => { return Err(RenderError::BadSpec(e)); }
                Ok(spec) => spec,
            };
            if k >= values.len() {
                return Err(RenderError::TooFewValues { index: k, count: values.len() });
            }
            let ch = values[k].display_spec(&spec);
            let taken = acc;
            acc = Vec::new();
            flush_exec(&mut out, taken);
            let ghost before = chunks_view(out@);
            let ghost cv = chunk_view(ch);
            out.push(ch);
            proof {
                assert(chunks_view(out@) =~= before.push(cv));
                assert(vals[k as int] == value_view(values@[k as int]));
                assert(acc@ =~= Seq::<u8>::empty());
            }
            k = k + 1;
            i = j + 1;
        } else if c == 125u8 && i + 1 < n && fmt[i + 1] == 125u8 {
            acc.push(125u8);
            i = i + 2;
        } else if c == 125u8 {
            return Err(RenderError::UnexpectedClose);
        } else {
            acc.push(c);
            i = i + 1;
        }
    }
    flush_exec(&mut out, acc);
    Ok(out)
}


/// Number of float (and seconds) pieces.
pub open spec fn float_count(ps: Seq<PieceV>) -> nat
    decreases ps.len(),
{
    if ps.len() == 0 {
        0
    } else {
        float_count(ps.drop_last()) + if ps.last() is Text { 0nat } else { 1nat }
    }
}

/// The text of `ps`, each float piece replaced by the next text of `ft`.
pub open spec fn pieces_text(ps: Seq<PieceV>, ft: Seq<Seq<u8>>) -> Seq<u8>
    decreases ps.len(),
{
    if ps.len() == 0 {
        Seq::empty()
    } else {
        pieces_text(ps.drop_last(), ft) + match ps.last() {
            PieceV::Text(t) => t,
            _ => ft[float_count(ps.drop_last()) as int],
        }
    }
}

/// Number of float pieces over all chunks.
pub open spec fn chunks_float_count(cs: Seq<ChunkV>) -> nat
    decreases cs.len(),
{
    if cs.len() == 0 {
        0
    } else {
        chunks_float_count(cs.drop_last()) + float_count(cs.last().0)
    }
}

/// The text of `cs`: each chunk's pieces, floats taken in order from `ft`,
/// padded to the chunk's width.
pub open spec fn chunks_text(cs: Seq<ChunkV>, ft: Seq<Seq<u8>>) -> Seq<u8>
    decreases cs.len(),
{
    if cs.len() == 0 {
        Seq::empty()
    } else {
        let c = cs.last();
        chunks_text(cs.drop_last(), ft)
            + apply_width_spec(pieces_text(c.0, ft.skip(chunks_float_count(cs.drop_last()) as int)), c.1, c.2)
    }
}

/// Text of one chunk's pieces, floats taken from `ft` starting at `f`.
fn pieces_text_exec(ps: &Vec<Piece>, ft: &[Vec<u8>], f: usize) -> (r: Vec<u8>)
    requires
        f + float_count(pieces_view(ps@)) <= ft@.len(),
    ensures
        r@ == pieces_text(pieces_view(ps@), ft@.skip(f as int).map_values(|v: Vec<u8>| v@)),
{
    let ghost fts = ft@.skip(f as int).map_values(|v: Vec<u8>| v@);
    let mut out: Vec<u8> = Vec::new();
    let mut i: usize = 0;
    let mut g: usize = f;
    assert(pieces_view(ps@).take(0) =~= Seq::<PieceV>::empty());
    while i < ps.len()
        invariant
            i <= ps@.len(),
            fts == ft@.skip(f as int).map_values(|v: Vec<u8>| v@),
            f + float_count(pieces_view(ps@)) <= ft@.len(),
            g == f + float_count(pieces_view(ps@).take(i as int)),
            out@ == pieces_text(pieces_view(ps@).take(i as int), fts),
        decreases ps@.len() - i,
    {
        let ghost pv = pieces_view(ps@);
        assert(pv.take(i as int + 1).drop_last() =~= pv.take(i as int));
        proof { lemma_float_count_prefix(pv, (i + 1) as nat); }
        match &ps[i] {
            Piece::Text(t) => {
                append_bytes(&mut out, t.as_slice());
            }
            _ => {
                append_bytes(&mut out, ft[g].as_slice());
                g = g + 1;
            }
        }
        i = i + 1;
    }
    assert(pieces_view(ps@).take(ps@.len() as int) =~= pieces_view(ps@));
    out
}

proof fn lemma_float_count_prefix(ps: Seq<PieceV>, i: nat)
    requires
        i <= ps.len(),
    ensures
        float_count(ps.take(i as int)) <= float_count(ps),
    decreases ps.len(),
{
    if i < ps.len() {
        assert(ps.drop_last().take(i as int) =~= ps.take(i as int));
        lemma_float_count_prefix(ps.drop_last(), i);
    } else {
        assert(ps.take(i as int) =~= ps);
    }
}

proof fn lemma_chunks_float_count_prefix(cs: Seq<ChunkV>, i: nat)
    requires
        i <= cs.len(),
    ensures
        chunks_float_count(cs.take(i as int)) <= chunks_float_count(cs),
    decreases cs.len(),
{
    if i < cs.len() {
        assert(cs.drop_last().take(i as int) =~= cs.take(i as int));
        lemma_chunks_float_count_prefix(cs.drop_last(), i);
    } else {
        assert(cs.take(i as int) =~= cs);
    }
}

/// Join chunks into text, the float pieces replaced in order by
/// `float_texts`; `None` when the number of float texts is not the number of
/// float pieces.
pub fn assemble(chunks: &[Chunk], float_texts: &[Vec<u8>]) -> (r: Option<Vec<u8>>)
    ensures
        chunks_float_count(chunks_view(chunks@)) == float_texts@.len() ==>
            (r matches Some(t) && t@ == chunks_text(chunks_view(chunks@), float_texts@.map_values(|v: Vec<u8>| v@))),
        chunks_float_count(chunks_view(chunks@)) != float_texts@.len() ==> r is None,
{
    let ghost cv = chunks_view(chunks@);
    let ghost fts = float_texts@.map_values(|v: Vec<u8>| v@);
    match count_floats(chunks) {
        Some(total) => {
            if total != float_texts.len() {
                return None;
            }
        }
        None => {
            assert(float_texts@.len() == float_texts.len());
            return None;
        }
    }
    let mut out: Vec<u8> = Vec::new();
    let mut i: usize = 0;
    let mut f: usize = 0;
    assert(cv.take(0) =~= Seq::<ChunkV>::empty());
    while i < chunks.len()
        invariant
            i <= chunks@.len(),
            cv == chunks_view(chunks@),
            fts == float_texts@.map_values(|v: Vec<u8>| v@),
            chunks_float_count(cv) == float_texts@.len(),
            f == chunks_float_count(cv.take(i as int)),
            out@ == chunks_text(cv.take(i as int), fts),
        decreases chunks@.len() - i,
    {
        assert(cv.take(i as int + 1).drop_last() =~= cv.take(i as int));
        assert(cv.take(i as int + 1).last() == cv[i as int]);
        proof { lemma_chunks_float_count_prefix(cv, (i + 1) as nat); }
        let c = &chunks[i];
        let t = pieces_text_exec(&c.pieces, float_texts, f);
        assert(float_texts@.skip(f as int).map_values(|v: Vec<u8>| v@) =~= fts.skip(f as int));
        let padded = apply_width(t.as_slice(), c.width, c.left);
        append_bytes(&mut out, padded.as_slice());
        let k = count_piece_floats(&c.pieces);
        assert(cv[i as int].0 == pieces_view(c.pieces@));
        assert(f + k == chunks_float_count(cv.take(i as int + 1)));
        assert(float_texts@.len() == float_texts.len());
        f = f + k;
        i = i + 1;
    }
    assert(cv.take(chunks@.len() as int) =~= cv);
    Some(out)
}

/// Number of float pieces in `ps`.
fn count_piece_floats(ps: &Vec<Piece>) -> (n: usize)
    ensures
        n == float_count(pieces_view(ps@)),
{
    let mut n: usize = 0;
    let mut i: usize = 0;
    assert(pieces_view(ps@).take(0) =~= Seq::<PieceV>::empty());
    while i < ps.len()
        invariant
            i <= ps@.len(),
            n == float_count(pieces_view(ps@).take(i as int)),
            n <= i,
        decreases ps@.len() - i,
    {
        assert(pieces_view(ps@).take(i as int + 1).drop_last() =~= pieces_view(ps@).take(i as int));
        match &ps[i] {
            Piece::Text(_) => {}
            _ => { n = n + 1; }
        }
        i = i + 1;
    }
    assert(pieces_view(ps@).take(ps@.len() as int) =~= pieces_view(ps@));
    n
}

/// Number of float pieces over all chunks, or `None` when it does not fit in
/// a `usize`.
fn count_floats(chunks: &[Chunk]) -> (n: Option<usize>)
    ensures
        n matches Some(x) ==> x == chunks_float_count(chunks_view(chunks@)),
        n is None ==> chunks_float_count(chunks_view(chunks@)) > usize::MAX,
{
    let ghost cv = chunks_view(chunks@);
    let mut n: usize = 0;
    let mut i: usize = 0;
    assert(cv.take(0) =~= Seq::<ChunkV>::empty());
    while i < chunks.len()
        invariant
            i <= chunks@.len(),
            cv == chunks_view(chunks@),
            n == chunks_float_count(cv.take(i as int)),
        decreases chunks@.len() - i,
    {
        assert(cv.take(i as int + 1).drop_last() =~= cv.take(i as int));
        assert(cv.take(i as int + 1).last() == cv[i as int]);
        proof { lemma_chunks_float_count_prefix(cv, (i + 1) as nat); }
        let k = count_piece_floats(&chunks[i].pieces);
        if k > usize::MAX - n {
            return None;
        }
        n = n + k;
        i = i + 1;
    }
    assert(cv.take(chunks@.len() as int) =~= cv);
    Some(n)
}


/// The values in default display, separated by single spaces: the line shown
/// for an event without a usable format string.
pub open spec fn fallback_spec(vals: Seq<ValueV>) -> Seq<ChunkV>
    decreases vals.len(),
{
    if vals.len() == 0 {
        Seq::empty()
    } else if vals.len() == 1 {
        seq![(default_pieces(vals[0]), 0nat, false)]
    } else {
        fallback_spec(vals.drop_last()).push((seq![PieceV::Text(seq![32u8])], 0nat, false)).push((default_pieces(vals.last()), 0nat, false))
    }
}

/// The values in default display, separated by single spaces.
pub fn fallback_join(values: &[Value]) -> (r: Vec<Chunk>)
    ensures
        chunks_view(r@) == fallback_spec(values_view_of(values@)),
{
    let ghost vv = values_view_of(values@);
    let mut out: Vec<Chunk> = Vec::new();
    let mut i: usize = 0;
    assert(vv.take(0) =~= Seq::<ValueV>::empty());
    assert(chunks_view(out@) =~= Seq::<ChunkV>::empty());
    while i < values.len()
        invariant
            i <= values@.len(),
            vv == values_view_of(values@),
            chunks_view(out@) == fallback_spec(vv.take(i as int)),
        decreases values@.len() - i,
    {
        assert(vv.take(i as int + 1).drop_last() =~= vv.take(i as int));
        assert(vv.take(i as int + 1).last() == value_view(values@[i as int]));
        let ghost before = chunks_view(out@);
        if i > 0 {
            let mut sp: Vec<u8> = Vec::new();
            sp.push(32u8);
            assert(sp@ =~= seq![32u8]);
            out.push(text_chunk(sp));
        }
        let c = values[i].display_default();
        let ghost cv = chunk_view(c);
        out.push(c);
        proof {
            if i == 0 {
                assert(vv.take(1) =~= seq![vv[0]]);
                assert(chunks_view(out@) =~= seq![cv]);
            } else {
                assert(chunks_view(out@) =~= before.push((seq![PieceV::Text(seq![32u8])], 0nat, false)).push(cv));
            }
        }
        i = i + 1;
    }
    assert(vv.take(values@.len() as int) =~= vv);
    out
}

} // verus!
