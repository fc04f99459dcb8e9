//! Unstructured text events: a format string with named placeholders is
//! rendered into a 128-byte buffer and sent as a `DebugMessage` under an
//! event header.

use vstd::prelude::*;
use vstd::string::*;
use vstd::utf8::*;
use crate::display::{repeat, push_repeat};
use crate::events::{DebugMessage, Severity, message_bytes};
use crate::fmtstr::{
    Align as SpecAlign, FmtType, FormatStrError, ParsedSpec, Segment, SegmentV, format_str_spec,
    parse_format_str, segment_view, segments_view,
};
use crate::format::{
    Align, FormatSpec, FormatType, ascii_bytes, fw_int_text, fw_prefix, fw_radix, fw_sign,
    fw_str_text, fw_uint_text, lemma_digits_ascii, uint_layout, unsigned_abs,
};
use crate::logger::Logger;
use crate::numfmt::{digits, lemma_u64_digits_len, to_digits};
use crate::output::{log_event, logged};
use crate::text::{append_bytes, ascii_string, str_eq};
use crate::write::{FixedBuf, Write};

verus! {

/// Capacity of the message buffer of an unstructured event.
pub const TEXT_CAPACITY: usize = 128;

/// A value for a named placeholder.
#[derive(Debug, Clone, Copy)]
pub enum TextArg<'a> {
    U8(u8),
    U16(u16),
    U32(u32),
    U64(u64),
    I8(i8),
    I16(i16),
    I32(i32),
    I64(i64),
    Bool(bool),
    Char(char),
    Str(&'a str),
}

/// A placeholder name bound to its value.
#[derive(Debug, Clone, Copy)]
pub struct NamedArg<'a> {
    pub name: &'a str,
    pub value: TextArg<'a>,
}

/// Why an unstructured event could not be built.
#[derive(Debug, Clone, Copy, PartialEq, Eq)]
pub enum TextLogError {
    /// The format string is malformed.
    Format(FormatStrError),
    /// A placeholder names no argument.
    UnknownName,
    /// A placeholder asks for the FourCC type, which values here do not have.
    UnsupportedType,
}

/// The text of a value under a spec, as `Format` renders it.
pub open spec fn arg_text(a: TextArg, spec: FormatSpec) -> Seq<u8> {
    match a {
        TextArg::U8(v) => fw_uint_text(v as nat, false, spec),
        TextArg::U16(v) => fw_uint_text(v as nat, false, spec),
        TextArg::U32(v) => fw_uint_text(v as nat, false, spec),
        TextArg::U64(v) => fw_uint_text(v as nat, false, spec),
        TextArg::I8(v) => fw_int_text(v as int, (v as u8) as nat, spec),
        TextArg::I16(v) => fw_int_text(v as int, (v as u16) as nat, spec),
        TextArg::I32(v) => fw_int_text(v as int, (v as u32) as nat, spec),
        TextArg::I64(v) => fw_int_text(v as int, (v as u64) as nat, spec),
        TextArg::Bool(b) => fw_str_text(if b { "true".spec_bytes() } else { "false".spec_bytes() }, spec),
        TextArg::Char(c) => fw_str_text(encode_utf8(seq![c]), spec),
        TextArg::Str(s) => fw_str_text(s.spec_bytes(), spec),
    }
}

/// The firmware spec a parsed spec stands for; `None` for the FourCC type.
pub open spec fn fw_spec_of(ps: ParsedSpec) -> Option<FormatSpec> {
    let ty = match ps.fmt_type {
        FmtType::Display => Some(FormatType::Display),
        FmtType::LowerHex => Some(FormatType::LowerHex),
        FmtType::UpperHex => Some(FormatType::UpperHex),
        FmtType::Binary => Some(FormatType::Binary),
        FmtType::Octal => Some(FormatType::Octal),
        FmtType::Char => None,
    };
    let align = match ps.align {
        SpecAlign::Unset => Align::Unset,
        SpecAlign::Left => Align::Left,
        SpecAlign::Right => Align::Right,
    };
    match ty {
        None => None,
        Some(t) => Some(
            FormatSpec {
                ty: t,
                alternate: ps.alternate,
                sign: ps.sign,
                zero_pad: ps.zero_pad,
                width: match ps.width {
                    Some(w) => w,
                    None => 0,
                },
                precision: ps.precision,
                align,
            },
        ),
    }
}

/// The value of the first argument named `name`.
pub open spec fn find_arg<'a>(args: Seq<NamedArg<'a>>, name: Seq<char>) -> Option<TextArg<'a>>
    decreases args.len(),
{
    if args.len() == 0 {
        None
    } else if args[0].name@ == name {
        Some(args[0].value)
    } else {
        find_arg(args.drop_first(), name)
    }
}

/// The text of one segment.
pub open spec fn segment_text(seg: SegmentV, args: Seq<NamedArg>) -> Result<Seq<u8>, TextLogError> {
    match seg {
        SegmentV::Literal(t) => Ok(encode_utf8(t)),
        SegmentV::Placeholder(name, ps) => match find_arg(args, name) {
            None => Err(TextLogError::UnknownName),
            Some(a) => match fw_spec_of(ps) {
                None => Err(TextLogError::UnsupportedType),
                Some(fs) => Ok(arg_text(a, fs)),
            },
        },
    }
}

/// The segments from `i` on written into a buffer holding `acc`: a segment's
/// text is appended when it fits in the capacity left and skipped otherwise.
pub open spec fn fill_from(segs: Seq<SegmentV>, args: Seq<NamedArg>, i: int, acc: Seq<u8>) -> Result<
    Seq<u8>,
    TextLogError,
>
    decreases segs.len() - i,
{
    if i < 0 || i >= segs.len() {
        Ok(acc)
    } else {
        match segment_text(segs[i], args) {
            Err(e) => Err(e),
            Ok(t) => fill_from(
                segs,
                args,
                i + 1,
                if acc.len() + t.len() <= TEXT_CAPACITY { acc + t } else { acc },
            ),
        }
    }
}

/// The message text of an unstructured event.
pub open spec fn text_message_spec(format: Seq<char>, args: Seq<NamedArg>) -> Result<Seq<u8>, TextLogError> {
    match format_str_spec(format) {
        Err(e) => Err(TextLogError::Format(e)),
        Ok(segs) => fill_from(segs, args, 0, Seq::empty()),
    }
}

pub(crate) proof fn lemma_encode_utf8_concat(a: Seq<char>, b: Seq<char>)
    ensures
        encode_utf8(a + b) == encode_utf8(a) + encode_utf8(b),
    decreases a.len(),
{
    if a.len() == 0 {
        assert(a + b =~= b);
    } else {
        assert((a + b).drop_first() =~= a.drop_first() + b);
        lemma_encode_utf8_concat(a.drop_first(), b);
        assert(encode_utf8(a + b) =~= encode_utf8(a) + encode_utf8(b));
    }
}

proof fn lemma_ascii_concat(a: Seq<u8>, b: Seq<u8>)
    requires
        ascii_bytes(a),
        ascii_bytes(b),
    ensures
        ascii_bytes(a + b),
{
    assert forall|i: int| 0 <= i < (a + b).len() implies (a + b)[i] < 0x80 by {
        if i < a.len() {
            assert((a + b)[i] == a[i]);
        } else {
            assert((a + b)[i] == b[i - a.len()]);
        }
    }
}

/// Append ASCII bytes, keeping the buffer ASCII.
fn push_ascii(out: &mut Vec<u8>, b: &[u8])
    requires
        ascii_bytes(old(out)@),
        ascii_bytes(b@),
    ensures
        final(out)@ == old(out)@ + b@,
        ascii_bytes(final(out)@),
{
    proof { lemma_ascii_concat(old(out)@, b@); }
    append_bytes(out, b);
}

/// Append `n` copies of an ASCII byte, keeping the buffer ASCII.
fn push_fill(out: &mut Vec<u8>, fill: u8, n: usize)
    requires
        ascii_bytes(old(out)@),
        fill < 0x80,
    ensures
        final(out)@ == old(out)@ + repeat(fill, n as nat),
        ascii_bytes(final(out)@),
{
    proof { lemma_ascii_concat(old(out)@, repeat(fill, n as nat)); }
    push_repeat(out, fill, n);
}

/// Sign-and-prefix `head` and digits `d` laid out under `spec`.
fn lay_out(head: &[u8], d: &[u8], spec: FormatSpec) -> (out: Vec<u8>)
    requires
        ascii_bytes(head@),
        ascii_bytes(d@),
        head@.len() <= 3,
        d@.len() <= 64,
    ensures
        out@ == uint_layout(head@, d@, spec),
        ascii_bytes(out@),
{
    let content_len = head.len() + d.len();
    let width = spec.width as usize;
    let mut out: Vec<u8> = Vec::new();
    assert(ascii_bytes(out@));
    if spec.zero_pad && spec.align == Align::Unset && width > content_len {
        push_ascii(&mut out, head);
        push_fill(&mut out, 48u8, width - content_len);
        push_ascii(&mut out, d);
        assert(out@ =~= head@ + repeat(48u8, (width - content_len) as nat) + d@);
    } else {
        let pad: usize = if width > content_len { width - content_len } else { 0 };
        match spec.align {
            Align::Right => {
                push_fill(&mut out, 32u8, pad);
                push_ascii(&mut out, head);
                push_ascii(&mut out, d);
                assert(out@ =~= repeat(32u8, pad as nat) + head@ + d@);
            },
            Align::Left => {
                push_ascii(&mut out, head);
                push_ascii(&mut out, d);
                push_fill(&mut out, 32u8, pad);
                assert(out@ =~= head@ + d@ + repeat(32u8, pad as nat));
            },
            Align::Unset => {
                push_ascii(&mut out, head);
                push_ascii(&mut out, d);
                assert(out@ =~= head@ + d@);
            },
        }
    }
    out
}

/// The magnitude `value` under `spec`, as `fw_uint_text`.
pub(crate) fn uint_text(value: u64, negative: bool, spec: FormatSpec) -> (r: String)
    ensures
        encode_utf8(r@) == fw_uint_text(value as nat, negative, spec),
{
    let (base, upper): (u64, bool) = match spec.ty {
        FormatType::Display => (10, false),
        FormatType::LowerHex => (16, false),
        FormatType::UpperHex => (16, true),
        FormatType::Binary => (2, false),
        FormatType::Octal => (8, false),
    };
    let d = to_digits(value, base, upper);
    proof {
        lemma_u64_digits_len(value, base as nat, upper);
        assert forall|i: int| 0 <= i < d@.len() implies d@[i] < 0x80 by {
            lemma_digits_ascii(value as nat, base as nat, upper, i);
        }
    }
    let mut head: Vec<u8> = Vec::new();
    if negative {
        head.push(45u8);
    } else if spec.sign {
        head.push(43u8);
    }
    if spec.alternate {
        match spec.ty {
            FormatType::LowerHex => { head.push(48u8); head.push(120u8); }
            FormatType::UpperHex => { head.push(48u8); head.push(88u8); }
            FormatType::Binary => { head.push(48u8); head.push(98u8); }
            FormatType::Octal => { head.push(48u8); head.push(111u8); }
            FormatType::Display => {}
        }
    }
    assert(head@ =~= fw_sign(negative, spec) + fw_prefix(spec));
    assert(ascii_bytes(head@));
    let out = lay_out(head.as_slice(), d.as_slice(), spec);
    ascii_string(out.as_slice())
}

/// Spaces, `n` of them.
fn spaces(n: usize) -> (r: String)
    ensures
        encode_utf8(r@) == repeat(32u8, n as nat),
{
    let mut out: Vec<u8> = Vec::new();
    assert(ascii_bytes(out@));
    push_fill(&mut out, 32u8, n);
    assert(out@ =~= repeat(32u8, n as nat));
    ascii_string(out.as_slice())
}

/// Text padded on its aligned side, as `fw_str_text`.
fn str_text(s: &str, spec: FormatSpec) -> (r: String)
    ensures
        encode_utf8(r@) == fw_str_text(s.spec_bytes(), spec),
{
    let len = s.as_bytes().len();
    let width = spec.width as usize;
    let pad: usize = if width > len { width - len } else { 0 };
    match spec.align {
        Align::Right => {
            let mut r = spaces(pad);
            let ghost before = r@;
            r.append(s);
            proof { lemma_encode_utf8_concat(before, s@); }
            assert(encode_utf8(r@) == repeat(32u8, pad as nat) + s.spec_bytes());
            r
        },
        Align::Left => {
            let mut r = s.to_owned();
            let sp = spaces(pad);
            r.append(sp.as_str());
            proof { lemma_encode_utf8_concat(s@, sp@); }
            assert(encode_utf8(r@) == s.spec_bytes() + repeat(32u8, pad as nat));
            r
        },
        Align::Unset => s.to_owned(),
    }
}

/// The text of a value under a spec.
pub(crate) fn arg_string(a: &TextArg, spec: FormatSpec) -> (r: String)
    ensures
        encode_utf8(r@) == arg_text(*a, spec),
{
    match *a {
        TextArg::U8(v) => uint_text(v as u64, false, spec),
        TextArg::U16(v) => uint_text(v as u64, false, spec),
        TextArg::U32(v) => uint_text(v as u64, false, spec),
        TextArg::U64(v) => uint_text(v, false, spec),
        TextArg::I8(v) => int_text(v as i64, (v as u8) as u64, spec),
        TextArg::I16(v) => int_text(v as i64, (v as u16) as u64, spec),
        TextArg::I32(v) => int_text(v as i64, (v as u32) as u64, spec),
        TextArg::I64(v) => int_text(v, v as u64, spec),
        TextArg::Bool(b) => str_text(if b { "true" } else { "false" }, spec),
        TextArg::Char(c) => {
            let t = crate::write::char_text(c);
            str_text(t.as_str(), spec)
        },
        TextArg::Str(s) => str_text(s, spec),
    }
}

/// A signed value: decimal as sign and magnitude, other types as `bits`.
fn int_text(v: i64, bits: u64, spec: FormatSpec) -> (r: String)
    ensures
        encode_utf8(r@) == fw_int_text(v as int, bits as nat, spec),
{
    if spec.ty == FormatType::Display {
        uint_text(unsigned_abs(v), v < 0, spec)
    } else {
        uint_text(bits, false, spec)
    }
}

/// The firmware spec for a parsed spec.
pub(crate) fn fw_spec(ps: ParsedSpec) -> (r: Option<FormatSpec>)
    ensures
        r == fw_spec_of(ps),
{
    let ty = match ps.fmt_type {
        FmtType::Display => FormatType::Display,
        FmtType::LowerHex => FormatType::LowerHex,
        FmtType::UpperHex => FormatType::UpperHex,
        FmtType::Binary => FormatType::Binary,
        FmtType::Octal => FormatType::Octal,
        FmtType::Char => {
            return None;
        },
    };
    let align = match ps.align {
        SpecAlign::Unset => Align::Unset,
        SpecAlign::Left => Align::Left,
        SpecAlign::Right => Align::Right,
    };
    let width = match ps.width {
        Some(w) => w,
        None => 0,
    };
    Some(
        FormatSpec {
            ty,
            alternate: ps.alternate,
            sign: ps.sign,
            zero_pad: ps.zero_pad,
            width,
            precision: ps.precision,
            align,
        },
    )
}

/// The value of the first argument named `name`.
fn lookup_arg<'a>(args: &[NamedArg<'a>], name: &str) -> (r: Option<TextArg<'a>>)
    ensures
        r == find_arg(args@, name@),
{
    let mut i: usize = 0;
    assert(args@.skip(0) =~= args@);
    while i < args.len()
        invariant
            i <= args@.len(),
            find_arg(args@, name@) == find_arg(args@.skip(i as int), name@),
        decreases args@.len() - i,
    {
        assert(args@.skip(i as int).drop_first() =~= args@.skip(i as int + 1));
        if str_eq(args[i].name, name) {
            return Some(args[i].value);
        }
        i = i + 1;
    }
    assert(args@.skip(i as int) =~= Seq::<NamedArg>::empty());
    None
}

/// The text of one segment.
fn segment_string(seg: &Segment, args: &[NamedArg]) -> (r: Result<String, TextLogError>)
    ensures
        match (r, segment_text(segment_view(*seg), args@)) {
            (Ok(s), Ok(t)) => encode_utf8(s@) == t,
            (Err(e), Err(f)) => e == f,
            _ => false,
        },
{
    match seg {
        Segment::Literal(t) => Ok(t.clone()),
        Segment::Placeholder(p) => {
            match lookup_arg(args, p.name.as_str()) {
                None => Err(TextLogError::UnknownName),
                Some(a) => match fw_spec(p.spec) {
                    None => Err(TextLogError::UnsupportedType),
                    Some(fs) => Ok(arg_string(&a, fs)),
                },
            }
        },
    }
}

/// Render a format string with named arguments into a 128-byte buffer.
/// Each literal run and each placeholder is written whole; one that does not
/// fit in the room left is skipped.
pub fn text_message(format: &str, args: &[NamedArg]) -> (r: Result<FixedBuf<128>, TextLogError>)
    ensures
        match (r, text_message_spec(format@, args@)) {
            (Ok(b), Ok(t)) => b.wf() && b.contents() == t,
            (Err(e), Err(f)) => e == f,
            _ => false,
        },
{
    let segs = match parse_format_str(format) {
        Ok(s) => s,
        Err(e) => {
            return Err(TextLogError::Format(e));
        },
    };
    let ghost sv = segments_view(segs@);
    let mut buf = FixedBuf::<128>::new();
    let mut i: usize = 0;
    while i < segs.len()
        invariant
            i <= segs@.len(),
            sv == segments_view(segs@),
            format_str_spec(format@) == Ok::<Seq<SegmentV>, FormatStrError>(sv),
            buf.wf(),
            fill_from(sv, args@, i as int, buf.contents()) == text_message_spec(format@, args@),
        decreases segs@.len() - i,
    {
        assert(sv[i as int] == segment_view(segs@[i as int]));
        match segment_string(&segs[i], args) {
            Err(e) => {
                return Err(e);
            },
            Ok(piece) => {
                let _ = buf.write_str(piece.as_str());
            },
        }
        i = i + 1;
    }
    Ok(buf)
}

/// Log an unstructured text event: the rendered message goes out as a
/// `DebugMessage` under a header with `severity`.
pub fn log_text<L: Logger>(logger: &L, severity: Severity, format: &str, args: &[NamedArg]) -> (r: Result<(), TextLogError>)
    ensures
        match (r, text_message_spec(format@, args@)) {
            (Ok(()), Ok(t)) => logged(*logger, severity, DebugMessage::ZFMT_TAG, message_bytes(t)),
            (Err(e), Err(f)) => e == f,
            _ => false,
        },
{
    let buf = match text_message(format, args) {
        Ok(b) => b,
        Err(e) => {
            return Err(e);
        },
    };
    let msg = DebugMessage { message: buf.as_str() };
    log_event(logger, severity, &msg);
    Ok(())
}

} // verus!
