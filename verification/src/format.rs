//! Firmware-side formatting: `FormatSpec`, the `Format` trait and its
//! implementations for integers, `bool`, `char`, text, `ZfmtStr` and
//! `ZfmtU64`.

use vstd::prelude::*;
use vstd::utf8::*;
use vstd::string::*;
use crate::numfmt::{digits, to_digits, lemma_u64_digits_len};
use crate::text::{ascii_string, append_bytes};
use crate::write::{Error, Write, bounded_write, char_text, lemma_bounded_chain, lemma_bounded_nothing, lemma_bounded_one};
use crate::display::repeat;

verus! {

/// Presentation type of a field.
#[derive(Debug, Clone, Copy, PartialEq, Eq, Structural)]
pub enum FormatType {
    Display,
    LowerHex,
    UpperHex,
    Binary,
    Octal,
}

/// Alignment of a padded field; `Unset` writes no padding.
#[derive(Debug, Clone, Copy, PartialEq, Eq, Structural)]
pub enum Align {
    Unset,
    Left,
    Right,
}

/// How a single placeholder field is rendered.
#[derive(Debug, Clone, Copy, PartialEq, Eq, Structural)]
pub struct FormatSpec {
    pub ty: FormatType,
    /// `#`: `0x`, `0X`, `0b` or `0o` before the digits.
    pub alternate: bool,
    /// `+`: a sign also for non-negative values.
    pub sign: bool,
    /// `0N`: zeros between prefix and digits up to the width.
    pub zero_pad: bool,
    /// Minimum width in bytes; 0 for none.
    pub width: u8,
    /// Decimal places of floats; `None` for six.
    pub precision: Option<u8>,
    pub align: Align,
}

/// The spec with every option off.
pub open spec fn plain_format_spec() -> FormatSpec {
    FormatSpec {
        ty: FormatType::Display,
        alternate: false,
        sign: false,
        zero_pad: false,
        width: 0,
        precision: None,
        align: Align::Unset,
    }
}

impl Default for FormatSpec {
    fn default() -> (s: Self)
        ensures
            s == plain_format_spec(),
    {
        FormatSpec {
            ty: FormatType::Display,
            alternate: false,
            sign: false,
            zero_pad: false,
            width: 0,
            precision: None,
            align: Align::Unset,
        }
    }
}

/// Formats `self` under a spec.  `format_text` is the text it writes.
pub trait Format {
    closed spec fn format_text(&self, spec: FormatSpec) -> Seq<u8> {
        Seq::empty()
    }

    fn fmt<W: Write>(&self, writer: &mut W, spec: FormatSpec) -> (r: Result<(), Error>)
        ensures
            r is Ok ==> final(writer).written() == old(writer).written() + self.format_text(spec),
    ;
}

/// Renders an event as human-readable text; `rendered` is the text it writes.
pub trait FormatInto {
    closed spec fn rendered(&self) -> Seq<u8> {
        Seq::empty()
    }

    /// Holds when the text can be rendered here; a type that says nothing
    /// holds it always.
    closed spec fn renders(&self) -> bool {
        true
    }

    /// On a sink of bounded room, a renderable value writes a prefix of its
    /// text, and all of it when it fits.
    fn format_into<W: Write>(&self, w: &mut W) -> (r: Result<(), Error>)
        ensures
            r is Ok ==> final(w).written() == old(w).written() + self.rendered(),
            self.renders() ==> bounded_write(*old(w), *final(w), self.rendered(), r),
    ;
}

/// `a - b`, or 0 when `b` is larger.
pub open spec fn sat_sub(a: nat, b: nat) -> nat {
    if a >= b { (a - b) as nat } else { 0 }
}

pub open spec fn fw_radix(t: FormatType) -> (nat, bool) {
    match t {
        FormatType::Display => (10, false),
        FormatType::LowerHex => (16, false),
        FormatType::UpperHex => (16, true),
        FormatType::Binary => (2, false),
        FormatType::Octal => (8, false),
    }
}

pub open spec fn fw_prefix(spec: FormatSpec) -> Seq<u8> {
    if !spec.alternate {
        Seq::empty()
    } else {
        match spec.ty {
            FormatType::LowerHex => seq![48u8, 120u8],
            FormatType::UpperHex => seq![48u8, 88u8],
            FormatType::Binary => seq![48u8, 98u8],
            FormatType::Octal => seq![48u8, 111u8],
            FormatType::Display => Seq::empty(),
        }
    }
}

pub open spec fn fw_sign(negative: bool, spec: FormatSpec) -> Seq<u8> {
    if negative { seq![45u8] } else if spec.sign { seq![43u8] } else { Seq::empty() }
}

/// Sign and prefix `head` and digits `d` laid out under `spec`: zero padding
/// between them when asked for without an alignment, else spaces on the
/// aligned side (none without an alignment).
pub open spec fn uint_layout(head: Seq<u8>, d: Seq<u8>, spec: FormatSpec) -> Seq<u8> {
    let content_len = head.len() + d.len();
    let width = spec.width as nat;
    if spec.zero_pad && spec.align == Align::Unset && width > content_len {
        head + repeat(48u8, (width - content_len) as nat) + d
    } else {
        let pad = sat_sub(width, content_len);
        match spec.align {
            Align::Right => repeat(32u8, pad) + head + d,
            Align::Left => head + d + repeat(32u8, pad),
            Align::Unset => head + d,
        }
    }
}

/// Magnitude `v` with sign, prefix and digits in the spec's radix, laid out by
/// `uint_layout`.
pub open spec fn fw_uint_text(v: nat, negative: bool, spec: FormatSpec) -> Seq<u8> {
    let (base, upper) = fw_radix(spec.ty);
    uint_layout(fw_sign(negative, spec) + fw_prefix(spec), digits(v, base, upper), spec)
}

/// Text `s` with spaces on the aligned side up to the width.
pub open spec fn fw_str_text(s: Seq<u8>, spec: FormatSpec) -> Seq<u8> {
    let pad = sat_sub(spec.width as nat, s.len());
    match spec.align {
        Align::Right => repeat(32u8, pad) + s,
        Align::Left => s + repeat(32u8, pad),
        Align::Unset => s,
    }
}

/// A signed value: decimal as sign and magnitude, other types as the
/// two's-complement `bits`.
pub open spec fn fw_int_text(v: int, bits: nat, spec: FormatSpec) -> Seq<u8> {
    if spec.ty == FormatType::Display {
        fw_uint_text(if v < 0 { (-v) as nat } else { v as nat }, v < 0, spec)
    } else {
        fw_uint_text(bits, false, spec)
    }
}

pub open spec fn ascii_bytes(s: Seq<u8>) -> bool {
    forall|i: int| 0 <= i < s.len() ==> s[i] < 0x80
}

/// Write ASCII bytes as one piece of text.
pub fn write_ascii<W: Write>(w: &mut W, b: &[u8]) -> (r: Result<(), Error>)
    requires
        ascii_bytes(b@),
    ensures
        r is Ok ==> final(w).written() == old(w).written() + b@,
        old(w).takes_all() ==> r is Ok && final(w).takes_all(),
        bounded_write(*old(w), *final(w), b@, r),
{
    let s = ascii_string(b);
    let ghost w0 = *w;
    let r = w.write_str(s.as_str());
    proof { lemma_bounded_one(w0, *w, b@, r); }
    r
}

/// Write `n` copies of the ASCII byte `fill`, one write each.
fn write_fill<W: Write>(w: &mut W, fill: u8, n: usize) -> (r: Result<(), Error>)
    requires
        fill < 0x80,
    ensures
        r is Ok ==> final(w).written() == old(w).written() + repeat(fill, n as nat),
        old(w).takes_all() ==> r is Ok && final(w).takes_all(),
        bounded_write(*old(w), *final(w), repeat(fill, n as nat), r),
{
    let one = [fill];
    let ghost w0 = *w;
    let mut i: usize = 0;
    assert(repeat(fill, 0) =~= Seq::<u8>::empty());
    proof { lemma_bounded_nothing(w0); }
    while i < n
        invariant
            i <= n,
            fill < 0x80,
            one@ == seq![fill],
            w0 == *old(w),
            w.written() == w0.written() + repeat(fill, i as nat),
            old(w).takes_all() ==> w.takes_all(),
            bounded_write(w0, *w, repeat(fill, i as nat), Ok::<(), Error>(())),
        decreases n - i,
    {
        let ghost w1 = *w;
        let r = write_ascii(w, &one);
        proof {
            assert(repeat(fill, i as nat) + seq![fill] =~= repeat(fill, (i + 1) as nat));
            assert(repeat(fill, n as nat).take(i + 1) =~= repeat(fill, (i + 1) as nat));
            lemma_bounded_chain(w0, w1, *w, repeat(fill, i as nat), seq![fill], repeat(fill, n as nat), r);
        }
        if r.is_err() {
            return r;
        }
        i = i + 1;
        assert(w.written() =~= old(w).written() + repeat(fill, i as nat));
    }
    Ok(())
}

/// Fill `buf` from the right with the digits of `n` in `base`; the digits are
/// `buf[start..]`.
fn write_digits(buf: &mut [u8; 64], n: u64, base: u64, upper: bool) -> (start: usize)
    requires
        2 <= base <= 36,
    ensures
        start < 64,
        final(buf)@.skip(start as int) == digits(n as nat, base as nat, upper),
{
    let d = to_digits(n, base, upper);
    proof { lemma_u64_digits_len(n, base as nat, upper); }
    let start = 64 - d.len();
    let mut i: usize = 0;
    while i < d.len()
        invariant
            i <= d@.len() <= 64,
            start == 64 - d@.len(),
            buf@.len() == 64,
            forall|k: int| 0 <= k < i ==> buf@[start + k] == d@[k],
        decreases d@.len() - i,
    {
        buf[start + i] = d[i];
        i = i + 1;
    }
    assert(buf@.skip(start as int) =~= d@);
    start
}

pub proof fn lemma_digits_ascii(v: nat, base: nat, upper: bool, i: int)
    requires
        2 <= base <= 36,
        0 <= i < digits(v, base, upper).len(),
    ensures
        digits(v, base, upper)[i] < 0x80,
    decreases v,
{
    if v >= base {
        crate::numfmt::lemma_div_lt(v, base);
        if i < digits(v / base, base, upper).len() {
            lemma_digits_ascii(v / base, base, upper, i);
        }
    }
}

/// Write sign, prefix and digits laid out under `spec` (see `uint_layout`).
fn write_uint_parts<W: Write>(w: &mut W, sign: &[u8], prefix: &[u8], d: &[u8], spec: FormatSpec) -> (r: Result<(), Error>)
    requires
        ascii_bytes(sign@),
        ascii_bytes(prefix@),
        ascii_bytes(d@),
        sign@.len() <= 1,
        prefix@.len() <= 2,
        d@.len() <= 64,
    ensures
        r is Ok ==> final(w).written() == old(w).written() + uint_layout(sign@ + prefix@, d@, spec),
        old(w).takes_all() ==> r is Ok && final(w).takes_all(),
        bounded_write(*old(w), *final(w), uint_layout(sign@ + prefix@, d@, spec), r),
{
    let content_len = sign.len() + prefix.len() + d.len();
    let width = spec.width as usize;
    let ghost w0 = *w;
    if spec.zero_pad && spec.align == Align::Unset && width > content_len {
        let pad = width - content_len;
        let ghost full = sign@ + prefix@ + repeat(48u8, pad as nat) + d@;
        let ghost done = Seq::<u8>::empty();
        proof { lemma_bounded_nothing(w0); }
        let ghost wb = *w;
        let ghost piece = sign@;
        let r = write_ascii(w, sign);
        proof {
            assert(full.take((done + piece).len() as int) =~= done + piece);
            lemma_bounded_chain(w0, wb, *w, done, piece, full, r);
        }
        if r.is_err() {
            return r;
        }
        let ghost done = done + piece;
        let ghost wb = *w;
        let ghost piece = prefix@;
        let r = write_ascii(w, prefix);
        proof {
            assert(full.take((done + piece).len() as int) =~= done + piece);
            lemma_bounded_chain(w0, wb, *w, done, piece, full, r);
        }
        if r.is_err() {
            return r;
        }
        let ghost done = done + piece;
        let ghost wb = *w;
        let ghost piece = repeat(48u8, pad as nat);
        let r = write_fill(w, 48u8, pad);
        proof {
            assert(full.take((done + piece).len() as int) =~= done + piece);
            lemma_bounded_chain(w0, wb, *w, done, piece, full, r);
        }
        if r.is_err() {
            return r;
        }
        let ghost done = done + piece;
        let ghost wb = *w;
        let ghost piece = d@;
        let r = write_ascii(w, d);
        proof {
            assert(full.take((done + piece).len() as int) =~= done + piece);
            lemma_bounded_chain(w0, wb, *w, done, piece, full, r);
            assert(done + piece =~= full);
        }
        r
    } else {
        let pad: usize = if width > content_len { width - content_len } else { 0 };
        match spec.align {
            Align::Right => {
                let ghost full = repeat(32u8, pad as nat) + (sign@ + prefix@) + d@;
                let ghost done = Seq::<u8>::empty();
                proof { lemma_bounded_nothing(w0); }
                let ghost wb = *w;
                let ghost piece = repeat(32u8, pad as nat);
                let r = write_fill(w, 32u8, pad);
                proof {
                    assert(full.take((done + piece).len() as int) =~= done + piece);
                    lemma_bounded_chain(w0, wb, *w, done, piece, full, r);
                }
                if r.is_err() {
                    return r;
                }
                let ghost done = done + piece;
                let ghost wb = *w;
                let ghost piece = sign@;
                let r = write_ascii(w, sign);
                proof {
                    assert(full.take((done + piece).len() as int) =~= done + piece);
                    lemma_bounded_chain(w0, wb, *w, done, piece, full, r);
                }
                if r.is_err() {
                    return r;
                }
                let ghost done = done + piece;
                let ghost wb = *w;
                let ghost piece = prefix@;
                let r = write_ascii(w, prefix);
                proof {
                    assert(full.take((done + piece).len() as int) =~= done + piece);
                    lemma_bounded_chain(w0, wb, *w, done, piece, full, r);
                }
                if r.is_err() {
                    return r;
                }
                let ghost done = done + piece;
                let ghost wb = *w;
                let ghost piece = d@;
                let r = write_ascii(w, d);
                proof {
                    assert(full.take((done + piece).len() as int) =~= done + piece);
                    lemma_bounded_chain(w0, wb, *w, done, piece, full, r);
                    assert(done + piece =~= full);
                }
                r
            }
            Align::Left => {
                let ghost full = (sign@ + prefix@) + d@ + repeat(32u8, pad as nat);
                let ghost done = Seq::<u8>::empty();
                proof { lemma_bounded_nothing(w0); }
                let ghost wb = *w;
                let ghost piece = sign@;
                let r = write_ascii(w, sign);
                proof {
                    assert(full.take((done + piece).len() as int) =~= done + piece);
                    lemma_bounded_chain(w0, wb, *w, done, piece, full, r);
                }
                if r.is_err() {
                    return r;
                }
                let ghost done = done + piece;
                let ghost wb = *w;
                let ghost piece = prefix@;
                let r = write_ascii(w, prefix);
                proof {
                    assert(full.take((done + piece).len() as int) =~= done + piece);
                    lemma_bounded_chain(w0, wb, *w, done, piece, full, r);
                }
                if r.is_err() {
                    return r;
                }
                let ghost done = done + piece;
                let ghost wb = *w;
                let ghost piece = d@;
                let r = write_ascii(w, d);
                proof {
                    assert(full.take((done + piece).len() as int) =~= done + piece);
                    lemma_bounded_chain(w0, wb, *w, done, piece, full, r);
                }
                if r.is_err() {
                    return r;
                }
                let ghost done = done + piece;
                let ghost wb = *w;
                let ghost piece = repeat(32u8, pad as nat);
                let r = write_fill(w, 32u8, pad);
                proof {
                    assert(full.take((done + piece).len() as int) =~= done + piece);
                    lemma_bounded_chain(w0, wb, *w, done, piece, full, r);
                    assert(done + piece =~= full);
                }
                r
            }
            Align::Unset => {
                let ghost full = (sign@ + prefix@) + d@;
                let ghost done = Seq::<u8>::empty();
                proof { lemma_bounded_nothing(w0); }
                let ghost wb = *w;
                let ghost piece = sign@;
                let r = write_ascii(w, sign);
                proof {
                    assert(full.take((done + piece).len() as int) =~= done + piece);
                    lemma_bounded_chain(w0, wb, *w, done, piece, full, r);
                }
                if r.is_err() {
                    return r;
                }
                let ghost done = done + piece;
                let ghost wb = *w;
                let ghost piece = prefix@;
                let r = write_ascii(w, prefix);
                proof {
                    assert(full.take((done + piece).len() as int) =~= done + piece);
                    lemma_bounded_chain(w0, wb, *w, done, piece, full, r);
                }
                if r.is_err() {
                    return r;
                }
                let ghost done = done + piece;
                let ghost wb = *w;
                let ghost piece = d@;
                let r = write_ascii(w, d);
                proof {
                    assert(full.take((done + piece).len() as int) =~= done + piece);
                    lemma_bounded_chain(w0, wb, *w, done, piece, full, r);
                    assert(done + piece =~= full);
                }
                r
            }
        }
    }
}

/// Write the magnitude `value` under `spec` (see `fw_uint_text`).
fn fmt_uint<W: Write>(w: &mut W, value: u64, spec: FormatSpec, negative: bool) -> (r: Result<(), Error>)
    ensures
        r is Ok ==> final(w).written() == old(w).written() + fw_uint_text(value as nat, negative, spec),
        old(w).takes_all() ==> r is Ok && final(w).takes_all(),
        bounded_write(*old(w), *final(w), fw_uint_text(value as nat, negative, spec), r),
{
    let (base, upper): (u64, bool) = match spec.ty {
        FormatType::Display => (10, false),
        FormatType::LowerHex => (16, false),
        FormatType::UpperHex => (16, true),
        FormatType::Binary => (2, false),
        FormatType::Octal => (8, false),
    };
    let mut buf = [0u8; 64];
    let start = write_digits(&mut buf, value, base, upper);
    let digits_slice = vstd::slice::slice_subrange(buf.as_slice(), start, 64);
    assert(digits_slice@ =~= digits(value as nat, base as nat, upper));
    proof {
        assert forall|i: int| 0 <= i < digits_slice@.len() implies digits_slice@[i] < 0x80 by {
            lemma_digits_ascii(value as nat, base as nat, upper, i);
        }
    }
    let mut sign: Vec<u8> = Vec::new();
    if negative {
        sign.push(45u8);
    } else if spec.sign {
        sign.push(43u8);
    }
    let mut prefix: Vec<u8> = Vec::new();
    if spec.alternate {
        match spec.ty {
            FormatType::LowerHex => { prefix.push(48u8); prefix.push(120u8); }
            FormatType::UpperHex => { prefix.push(48u8); prefix.push(88u8); }
            FormatType::Binary => { prefix.push(48u8); prefix.push(98u8); }
            FormatType::Octal => { prefix.push(48u8); prefix.push(111u8); }
            FormatType::Display => {}
        }
    }
    assert(sign@ =~= fw_sign(negative, spec));
    assert(prefix@ =~= fw_prefix(spec));
    write_uint_parts(w, sign.as_slice(), prefix.as_slice(), digits_slice, spec)
}

/// Write text `s` with padding on the aligned side (see `fw_str_text`).
fn fmt_str_value<W: Write>(w: &mut W, s: &str, spec: FormatSpec) -> (r: Result<(), Error>)
    ensures
        r is Ok ==> final(w).written() == old(w).written() + fw_str_text(s.spec_bytes(), spec),
        old(w).takes_all() ==> r is Ok && final(w).takes_all(),
        bounded_write(*old(w), *final(w), fw_str_text(s.spec_bytes(), spec), r),
{
    let len = s.as_bytes().len();
    let width = spec.width as usize;
    let pad: usize = if width > len { width - len } else { 0 };
    let ghost w0 = *w;
    match spec.align {
        Align::Right => {
            let ghost full = repeat(32u8, pad as nat) + s.spec_bytes();
            let ghost done = Seq::<u8>::empty();
            proof { lemma_bounded_nothing(w0); }
            let ghost wb = *w;
            let ghost piece = repeat(32u8, pad as nat);
            let r = write_fill(w, 32u8, pad);
            proof {
                assert(full.take((done + piece).len() as int) =~= done + piece);
                lemma_bounded_chain(w0, wb, *w, done, piece, full, r);
            }
            if r.is_err() {
                return r;
            }
            let ghost done = done + piece;
            let ghost wb = *w;
            let ghost piece = s.spec_bytes();
            let r = w.write_str(s);
            proof {
                lemma_bounded_one(wb, *w, piece, r);
                assert(full.take((done + piece).len() as int) =~= done + piece);
                lemma_bounded_chain(w0, wb, *w, done, piece, full, r);
                assert(done + piece =~= full);
            }
            r
        }
        Align::Left => {
            let ghost full = s.spec_bytes() + repeat(32u8, pad as nat);
            let ghost done = Seq::<u8>::empty();
            proof { lemma_bounded_nothing(w0); }
            let ghost wb = *w;
            let ghost piece = s.spec_bytes();
            let r = w.write_str(s);
            proof {
                lemma_bounded_one(wb, *w, piece, r);
                assert(full.take((done + piece).len() as int) =~= done + piece);
                lemma_bounded_chain(w0, wb, *w, done, piece, full, r);
            }
            if r.is_err() {
                return r;
            }
            let ghost done = done + piece;
            let ghost wb = *w;
            let ghost piece = repeat(32u8, pad as nat);
            let r = write_fill(w, 32u8, pad);
            proof {
                assert(full.take((done + piece).len() as int) =~= done + piece);
                lemma_bounded_chain(w0, wb, *w, done, piece, full, r);
                assert(done + piece =~= full);
            }
            r
        }
        Align::Unset => {
            let r = w.write_str(s);
            proof { lemma_bounded_one(w0, *w, s.spec_bytes(), r); }
            r
        }
    }
}


impl Format for u8 {
    open spec fn format_text(&self, spec: FormatSpec) -> Seq<u8> {
        fw_uint_text(*self as nat, false, spec)
    }

    fn fmt<W: Write>(&self, writer: &mut W, spec: FormatSpec) -> (r: Result<(), Error>)
        ensures
            old(writer).takes_all() ==> r is Ok && final(writer).takes_all(),
            bounded_write(*old(writer), *final(writer), self.format_text(spec), r),
    {
        fmt_uint(writer, *self as u64, spec, false)
    }
}

impl Format for u16 {
    open spec fn format_text(&self, spec: FormatSpec) -> Seq<u8> {
        fw_uint_text(*self as nat, false, spec)
    }

    fn fmt<W: Write>(&self, writer: &mut W, spec: FormatSpec) -> (r: Result<(), Error>)
        ensures
            old(writer).takes_all() ==> r is Ok && final(writer).takes_all(),
            bounded_write(*old(writer), *final(writer), self.format_text(spec), r),
    {
        fmt_uint(writer, *self as u64, spec, false)
    }
}

impl Format for u32 {
    open spec fn format_text(&self, spec: FormatSpec) -> Seq<u8> {
        fw_uint_text(*self as nat, false, spec)
    }

    fn fmt<W: Write>(&self, writer: &mut W, spec: FormatSpec) -> (r: Result<(), Error>)
        ensures
            old(writer).takes_all() ==> r is Ok && final(writer).takes_all(),
            bounded_write(*old(writer), *final(writer), self.format_text(spec), r),
    {
        fmt_uint(writer, *self as u64, spec, false)
    }
}

impl Format for u64 {
    open spec fn format_text(&self, spec: FormatSpec) -> Seq<u8> {
        fw_uint_text(*self as nat, false, spec)
    }

    fn fmt<W: Write>(&self, writer: &mut W, spec: FormatSpec) -> (r: Result<(), Error>)
        ensures
            old(writer).takes_all() ==> r is Ok && final(writer).takes_all(),
            bounded_write(*old(writer), *final(writer), self.format_text(spec), r),
    {
        fmt_uint(writer, *self, spec, false)
    }
}

/// Magnitude of a signed value.
pub fn unsigned_abs(v: i64) -> (r: u64)
    ensures
        r as int == if v < 0 { -(v as int) } else { v as int },
{
    if v < 0 { (-(v + 1)) as u64 + 1 } else { v as u64 }
}

/// A signed value: decimal as sign and magnitude, other types as `bits`.
fn fmt_sint<W: Write>(w: &mut W, v: i64, bits: u64, spec: FormatSpec) -> (r: Result<(), Error>)
    ensures
        r is Ok ==> final(w).written() == old(w).written() + fw_int_text(v as int, bits as nat, spec),
        old(w).takes_all() ==> r is Ok && final(w).takes_all(),
        bounded_write(*old(w), *final(w), fw_int_text(v as int, bits as nat, spec), r),
{
    if spec.ty == FormatType::Display {
        fmt_uint(w, unsigned_abs(v), spec, v < 0)
    } else {
        fmt_uint(w, bits, spec, false)
    }
}

impl Format for i8 {
    open spec fn format_text(&self, spec: FormatSpec) -> Seq<u8> {
        fw_int_text(*self as int, (*self as u8) as nat, spec)
    }

    fn fmt<W: Write>(&self, writer: &mut W, spec: FormatSpec) -> (r: Result<(), Error>)
        ensures
            old(writer).takes_all() ==> r is Ok && final(writer).takes_all(),
            bounded_write(*old(writer), *final(writer), self.format_text(spec), r),
    {
        fmt_sint(writer, *self as i64, (*self as u8) as u64, spec)
    }
}

impl Format for i16 {
    open spec fn format_text(&self, spec: FormatSpec) -> Seq<u8> {
        fw_int_text(*self as int, (*self as u16) as nat, spec)
    }

    fn fmt<W: Write>(&self, writer: &mut W, spec: FormatSpec) -> (r: Result<(), Error>)
        ensures
            old(writer).takes_all() ==> r is Ok && final(writer).takes_all(),
            bounded_write(*old(writer), *final(writer), self.format_text(spec), r),
    {
        fmt_sint(writer, *self as i64, (*self as u16) as u64, spec)
    }
}

impl Format for i32 {
    open spec fn format_text(&self, spec: FormatSpec) -> Seq<u8> {
        fw_int_text(*self as int, (*self as u32) as nat, spec)
    }

    fn fmt<W: Write>(&self, writer: &mut W, spec: FormatSpec) -> (r: Result<(), Error>)
        ensures
            old(writer).takes_all() ==> r is Ok && final(writer).takes_all(),
            bounded_write(*old(writer), *final(writer), self.format_text(spec), r),
    {
        fmt_sint(writer, *self as i64, (*self as u32) as u64, spec)
    }
}

impl Format for i64 {
    open spec fn format_text(&self, spec: FormatSpec) -> Seq<u8> {
        fw_int_text(*self as int, (*self as u64) as nat, spec)
    }

    fn fmt<W: Write>(&self, writer: &mut W, spec: FormatSpec) -> (r: Result<(), Error>)
        ensures
            old(writer).takes_all() ==> r is Ok && final(writer).takes_all(),
            bounded_write(*old(writer), *final(writer), self.format_text(spec), r),
    {
        fmt_sint(writer, *self, *self as u64, spec)
    }
}

impl Format for bool {
    open spec fn format_text(&self, spec: FormatSpec) -> Seq<u8> {
        fw_str_text(if *self { "true".spec_bytes() } else { "false".spec_bytes() }, spec)
    }

    fn fmt<W: Write>(&self, writer: &mut W, spec: FormatSpec) -> (r: Result<(), Error>)
        ensures
            old(writer).takes_all() ==> r is Ok && final(writer).takes_all(),
            bounded_write(*old(writer), *final(writer), self.format_text(spec), r),
    {
        fmt_str_value(writer, if *self { "true" } else { "false" }, spec)
    }
}

impl Format for char {
    open spec fn format_text(&self, spec: FormatSpec) -> Seq<u8> {
        fw_str_text(encode_utf8(seq![*self]), spec)
    }

    fn fmt<W: Write>(&self, writer: &mut W, spec: FormatSpec) -> (r: Result<(), Error>)
        ensures
            old(writer).takes_all() ==> r is Ok && final(writer).takes_all(),
            bounded_write(*old(writer), *final(writer), self.format_text(spec), r),
    {
        let t = char_text(*self);
        fmt_str_value(writer, t.as_str(), spec)
    }
}

impl Format for str {
    open spec fn format_text(&self, spec: FormatSpec) -> Seq<u8> {
        fw_str_text(self.spec_bytes(), spec)
    }

    fn fmt<W: Write>(&self, writer: &mut W, spec: FormatSpec) -> (r: Result<(), Error>)
        ensures
            old(writer).takes_all() ==> r is Ok && final(writer).takes_all(),
            bounded_write(*old(writer), *final(writer), self.format_text(spec), r),
    {
        fmt_str_value(writer, self, spec)
    }
}

impl<'a> Format for &'a str {
    open spec fn format_text(&self, spec: FormatSpec) -> Seq<u8> {
        fw_str_text((*self).spec_bytes(), spec)
    }

    fn fmt<W: Write>(&self, writer: &mut W, spec: FormatSpec) -> (r: Result<(), Error>)
        ensures
            old(writer).takes_all() ==> r is Ok && final(writer).takes_all(),
            bounded_write(*old(writer), *final(writer), self.format_text(spec), r),
    {
        fmt_str_value(writer, *self, spec)
    }
}

/// A compile-time interned string handle: the FNV-1a hash of the string,
/// which the host resolves through its string table.  The firmware cannot
/// resolve it and shows the hash as `0x` and eight hex digits.
#[derive(Debug, Clone, Copy, PartialEq, Eq, Structural)]
pub struct ZfmtStr(pub u32);

impl ZfmtStr {
    pub fn new(hash: u32) -> (s: Self)
        ensures
            s.0 == hash,
    {
        ZfmtStr(hash)
    }
}

impl From<u32> for ZfmtStr {
    fn from(h: u32) -> (s: Self) {
        ZfmtStr(h)
    }
}

impl vstd::std_specs::convert::FromSpecImpl<u32> for ZfmtStr {
    open spec fn obeys_from_spec() -> bool {
        true
    }

    open spec fn from_spec(h: u32) -> Self {
        ZfmtStr(h)
    }
}

/// The spec a `ZfmtStr` is shown under: lower hex, `0x`, zero-padded to ten.
pub open spec fn zfmt_str_spec(spec: FormatSpec) -> FormatSpec {
    FormatSpec { ty: FormatType::LowerHex, alternate: true, zero_pad: true, width: 10, ..spec }
}

impl Format for ZfmtStr {
    open spec fn format_text(&self, spec: FormatSpec) -> Seq<u8> {
        fw_uint_text(self.0 as nat, false, zfmt_str_spec(spec))
    }

    fn fmt<W: Write>(&self, writer: &mut W, spec: FormatSpec) -> (r: Result<(), Error>)
        ensures
            old(writer).takes_all() ==> r is Ok && final(writer).takes_all(),
            bounded_write(*old(writer), *final(writer), self.format_text(spec), r),
    {
        let hex_spec = FormatSpec { ty: FormatType::LowerHex, alternate: true, zero_pad: true, width: 10, ..spec };
        fmt_uint(writer, self.0 as u64, hex_spec, false)
    }
}

/// A 64-bit value held as two 32-bit halves, for targets without 64-bit
/// arithmetic.  On the wire: `lo` then `hi`, each little-endian.
#[derive(Debug, Clone, Copy, PartialEq, Eq, Structural)]
pub struct ZfmtU64 {
    pub lo: u32,
    pub hi: u32,
}

impl ZfmtU64 {
    /// The 64-bit value.
    pub open spec fn value(self) -> nat {
        self.hi as nat * 0x1_0000_0000 + self.lo as nat
    }

    pub fn new(lo: u32, hi: u32) -> (v: Self)
        ensures
            v.lo == lo,
            v.hi == hi,
    {
        ZfmtU64 { lo, hi }
    }

    pub fn from_u64(v: u64) -> (r: Self)
        ensures
            r.value() == v,
    {
        ZfmtU64 { lo: (v % 0x1_0000_0000) as u32, hi: (v / 0x1_0000_0000) as u32 }
    }

    pub fn to_u64(&self) -> (v: u64)
        ensures
            v == self.value(),
    {
        self.hi as u64 * 0x1_0000_0000 + self.lo as u64
    }
}

impl Default for ZfmtU64 {
    fn default() -> (v: Self)
        ensures
            v.lo == 0,
            v.hi == 0,
    {
        ZfmtU64 { lo: 0, hi: 0 }
    }
}

impl From<u64> for ZfmtU64 {
    fn from(v: u64) -> (r: Self) {
        ZfmtU64::from_u64(v)
    }
}

impl vstd::std_specs::convert::FromSpecImpl<u64> for ZfmtU64 {
    open spec fn obeys_from_spec() -> bool {
        true
    }

    open spec fn from_spec(v: u64) -> Self {
        ZfmtU64 { lo: (v % 0x1_0000_0000) as u32, hi: (v / 0x1_0000_0000) as u32 }
    }
}

impl From<ZfmtU64> for u64 {
    fn from(v: ZfmtU64) -> (r: u64) {
        v.to_u64()
    }
}

impl vstd::std_specs::convert::FromSpecImpl<ZfmtU64> for u64 {
    open spec fn obeys_from_spec() -> bool {
        true
    }

    open spec fn from_spec(v: ZfmtU64) -> u64 {
        (v.hi as nat * 0x1_0000_0000 + v.lo as nat) as u64
    }
}

impl Format for ZfmtU64 {
    open spec fn format_text(&self, spec: FormatSpec) -> Seq<u8> {
        fw_uint_text(self.value(), false, spec)
    }

    fn fmt<W: Write>(&self, writer: &mut W, spec: FormatSpec) -> (r: Result<(), Error>)
        ensures
            old(writer).takes_all() ==> r is Ok && final(writer).takes_all(),
            bounded_write(*old(writer), *final(writer), self.format_text(spec), r),
    {
        fmt_uint(writer, self.to_u64(), spec, false)
    }
}

} // verus!
