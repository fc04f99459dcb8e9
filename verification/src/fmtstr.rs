//! Format strings of the event attributes: literal text with `{name}` and
//! `{name:spec}` placeholders, split into segments.  `{{` and `}}` stand for
//! literal braces.

use vstd::prelude::*;
use vstd::string::*;
use vstd::utf8::*;
use crate::text::{trim, trim_ws};

verus! {

/// One segment of a parsed format string.
#[derive(Debug, Clone, PartialEq, Eq)]
pub enum Segment {
    Literal(String),
    Placeholder(Placeholder),
}

/// A `{name:spec}` placeholder.
#[derive(Debug, Clone, PartialEq, Eq)]
pub struct Placeholder {
    pub name: String,
    pub spec: ParsedSpec,
}

/// The parsed contents of a `:spec` clause; every field has a default.
#[derive(Debug, Clone, Copy, PartialEq, Eq)]
pub struct ParsedSpec {
    pub align: Align,
    pub sign: bool,
    pub alternate: bool,
    pub zero_pad: bool,
    pub width: Option<u8>,
    pub precision: Option<u8>,
    pub fmt_type: FmtType,
}

/// Alignment requested by `<` or `>`; `Unset` when neither is given.
#[derive(Debug, Clone, Copy, PartialEq, Eq)]
pub enum Align {
    Unset,
    Left,
    Right,
}

/// The presentation type letter of a spec.
#[derive(Debug, Clone, Copy, PartialEq, Eq)]
pub enum FmtType {
    Display,
    LowerHex,
    UpperHex,
    Binary,
    Octal,
    /// FourCC display: bytes in little-endian order, printable ASCII as
    /// characters, others as `\xNN`.
    Char,
}

/// Why a format string was refused.
#[derive(Debug, Clone, Copy, PartialEq, Eq)]
pub enum FormatStrError {
    /// A `{` with no `}` after it; `byte` is its byte offset in the input.
    UnclosedBrace { byte: usize },
    /// A single `}` outside a placeholder.
    UnexpectedClose,
    /// A placeholder whose name is empty (positional `{}` is not supported).
    EmptyName,
    /// A width that does not fit in a byte.
    WidthTooLarge,
    /// A `.` not followed by a digit.
    MissingPrecision,
    /// A precision that does not fit in a byte.
    PrecisionTooLarge,
    /// A presentation type letter other than `x`, `X`, `b`, `o`, `c`.
    UnknownType { found: char },
    /// Characters after the presentation type.
    TrailingChars,
}

impl Default for Align {
    fn default() -> (r: Self)
        ensures
            r == Align::Unset,
    {
        Align::Unset
    }
}

impl Default for FmtType {
    fn default() -> (r: Self)
        ensures
            r == FmtType::Display,
    {
        FmtType::Display
    }
}

/// The spec of a placeholder without a `:spec` clause.
pub open spec fn default_parsed() -> ParsedSpec {
    ParsedSpec {
        align: Align::Unset,
        sign: false,
        alternate: false,
        zero_pad: false,
        width: None,
        precision: None,
        fmt_type: FmtType::Display,
    }
}

impl Default for ParsedSpec {
    fn default() -> (r: Self)
        ensures
            r == default_parsed(),
    {
        ParsedSpec {
            align: Align::Unset,
            sign: false,
            alternate: false,
            zero_pad: false,
            width: None,
            precision: None,
            fmt_type: FmtType::Display,
        }
    }
}

/// A segment as text and spec values.
pub enum SegmentV {
    Literal(Seq<char>),
    Placeholder(Seq<char>, ParsedSpec),
}

pub open spec fn segment_view(s: Segment) -> SegmentV {
    match s {
        Segment::Literal(t) => SegmentV::Literal(t@),
        Segment::Placeholder(p) => SegmentV::Placeholder(p.name@, p.spec),
    }
}

pub open spec fn segments_view(v: Seq<Segment>) -> Seq<SegmentV> {
    v.map_values(|x: Segment| segment_view(x))
}

pub open spec fn is_digit_char(c: char) -> bool {
    '0' <= c && c <= '9'
}

/// The end of the run of ASCII digits that starts at `p`.
pub open spec fn digit_end(t: Seq<char>, p: int) -> int
    decreases t.len() - p,
{
    if 0 <= p < t.len() && is_digit_char(t[p]) {
        digit_end(t, p + 1)
    } else {
        p
    }
}

/// The decimal value of a run of ASCII digits.
pub open spec fn dec_chars(t: Seq<char>) -> nat
    decreases t.len(),
{
    if t.len() == 0 {
        0
    } else {
        dec_chars(t.drop_last()) * 10 + ((t.last() as u32) - ('0' as u32)) as nat
    }
}

/// The first index at or after `p` that holds `c`, or the length if none does.
pub open spec fn find_char(t: Seq<char>, c: char, p: int) -> int
    decreases t.len() - p,
{
    if p < 0 || p >= t.len() {
        t.len() as int
    } else if t[p] == c {
        p
    } else {
        find_char(t, c, p + 1)
    }
}

/// The presentation type a letter selects.
pub open spec fn type_letter(c: char) -> Option<FmtType> {
    if c == 'x' {
        Some(FmtType::LowerHex)
    } else if c == 'X' {
        Some(FmtType::UpperHex)
    } else if c == 'b' {
        Some(FmtType::Binary)
    } else if c == 'o' {
        Some(FmtType::Octal)
    } else if c == 'c' {
        Some(FmtType::Char)
    } else {
        None
    }
}

/// `[align][+][#][0][width][.precision][type]`, all of `t`.
pub open spec fn spec_of_chars(t: Seq<char>) -> Result<ParsedSpec, FormatStrError> {
    let align = if t.len() > 0 && t[0] == '<' {
        Align::Left
    } else if t.len() > 0 && t[0] == '>' {
        Align::Right
    } else {
        Align::Unset
    };
    let p1: int = if align == Align::Unset { 0 } else { 1 };
    let sign = p1 < t.len() && t[p1] == '+';
    let p2: int = if sign { p1 + 1 } else { p1 };
    let alternate = p2 < t.len() && t[p2] == '#';
    let p3: int = if alternate { p2 + 1 } else { p2 };
    let zero_pad = p3 < t.len() && t[p3] == '0';
    let p4: int = if zero_pad { p3 + 1 } else { p3 };
    let w_end = digit_end(t, p4);
    let w = dec_chars(t.subrange(p4, w_end));
    let has_dot = w_end < t.len() && t[w_end] == '.';
    let p5: int = if has_dot { w_end + 1 } else { w_end };
    let pr_end = digit_end(t, p5);
    let pr = dec_chars(t.subrange(p5, pr_end));
    let width: Option<u8> = if w_end > p4 { Some(w as u8) } else { None };
    let precision: Option<u8> = if has_dot { Some(pr as u8) } else { None };
    if w_end > p4 && w > 255 {
        Err(FormatStrError::WidthTooLarge)
    } else if has_dot && pr_end == p5 {
        Err(FormatStrError::MissingPrecision)
    } else if has_dot && pr > 255 {
        Err(FormatStrError::PrecisionTooLarge)
    } else if pr_end >= t.len() {
        Ok(ParsedSpec { align, sign, alternate, zero_pad, width, precision, fmt_type: FmtType::Display })
    } else {
        match type_letter(t[pr_end]) {
            None => Err(FormatStrError::UnknownType { found: t[pr_end] }),
            Some(fmt_type) => if pr_end + 1 < t.len() {
                Err(FormatStrError::TrailingChars)
            } else {
                Ok(ParsedSpec { align, sign, alternate, zero_pad, width, precision, fmt_type })
            },
        }
    }
}

/// The inside of `{...}`: a name, then optionally `:` and a spec.  The name is
/// trimmed of white space and must not be empty.
pub open spec fn placeholder_of(inner: Seq<char>) -> Result<(Seq<char>, ParsedSpec), FormatStrError> {
    let colon = find_char(inner, ':', 0);
    let name = trim_ws(inner.subrange(0, colon));
    if name.len() == 0 {
        Err(FormatStrError::EmptyName)
    } else if colon < inner.len() {
        match spec_of_chars(inner.subrange(colon + 1, inner.len() as int)) {
            Ok(sp) => Ok((name, sp)),
            Err(e) => Err(e),
        }
    } else {
        Ok((name, default_parsed()))
    }
}

/// The segments so far, with the pending literal text appended when there is any.
pub open spec fn flush_literal(acc: Seq<SegmentV>, lit: Seq<char>) -> Seq<SegmentV> {
    if lit.len() > 0 {
        acc.push(SegmentV::Literal(lit))
    } else {
        acc
    }
}

/// Splitting `s` from index `i`, with `lit` pending and `acc` already split off.
pub open spec fn split_from(s: Seq<char>, i: int, lit: Seq<char>, acc: Seq<SegmentV>) -> Result<
    Seq<SegmentV>,
    FormatStrError,
>
    decreases s.len() - i,
{
    if i < 0 || i >= s.len() {
        Ok(flush_literal(acc, lit))
    } else if s[i] == '{' {
        if i + 1 < s.len() && s[i + 1] == '{' {
            split_from(s, i + 2, lit.push('{'), acc)
        } else {
            let close = find_char(s, '}', i + 1);
            proof {
                lemma_find_char(s, '}', i + 1);
            }
            if close >= s.len() {
                Err(
                    FormatStrError::UnclosedBrace {
                        byte: encode_utf8(s.subrange(0, i)).len() as usize,
                    },
                )
            } else {
                match placeholder_of(s.subrange(i + 1, close)) {
                    Err(e) => Err(e),
                    Ok((name, sp)) => split_from(
                        s,
                        close + 1,
                        Seq::empty(),
                        flush_literal(acc, lit).push(SegmentV::Placeholder(name, sp)),
                    ),
                }
            }
        }
    } else if s[i] == '}' {
        if i + 1 < s.len() && s[i + 1] == '}' {
            split_from(s, i + 2, lit.push('}'), acc)
        } else {
            Err(FormatStrError::UnexpectedClose)
        }
    } else {
        split_from(s, i + 1, lit.push(s[i]), acc)
    }
}

/// A whole format string split into segments.
pub open spec fn format_str_spec(s: Seq<char>) -> Result<Seq<SegmentV>, FormatStrError> {
    split_from(s, 0, Seq::empty(), Seq::empty())
}

pub proof fn lemma_find_char(t: Seq<char>, c: char, p: int)
    requires
        0 <= p <= t.len(),
    ensures
        p <= find_char(t, c, p) <= t.len(),
        find_char(t, c, p) < t.len() ==> t[find_char(t, c, p)] == c,
        forall|k: int| p <= k < find_char(t, c, p) ==> t[k] != c,
    decreases t.len() - p,
{
    if p < t.len() && t[p] != c {
        lemma_find_char(t, c, p + 1);
    }
}

proof fn lemma_digit_end(t: Seq<char>, p: int)
    requires
        0 <= p <= t.len(),
    ensures
        p <= digit_end(t, p) <= t.len(),
        digit_end(t, digit_end(t, p)) == digit_end(t, p),
        forall|k: int| p <= k < digit_end(t, p) ==> is_digit_char(t[k]),
    decreases t.len() - p,
{
    if p < t.len() && is_digit_char(t[p]) {
        lemma_digit_end(t, p + 1);
    }
}

proof fn lemma_dec_chars_push(t: Seq<char>, c: char)
    ensures
        dec_chars(t.push(c)) == dec_chars(t) * 10 + ((c as u32) - ('0' as u32)) as nat,
{
    assert(t.push(c).drop_last() =~= t);
}

fn digit_at(t: &str, q: usize) -> (b: bool)
    requires
        q < t@.len(),
    ensures
        b == is_digit_char(t@[q as int]),
{
    let c = t.get_char(q);
    '0' <= c && c <= '9'
}

/// The end of the digit run at `p` and its value, or `None` for the value when
/// it exceeds 255.
fn digit_run(t: &str, p: usize) -> (r: (usize, Option<u8>))
    requires
        p <= t@.len(),
    ensures
        r.0 as int == digit_end(t@, p as int),
        p <= r.0 <= t@.len(),
        dec_chars(t@.subrange(p as int, r.0 as int)) <= 255 ==> r.1 == Some(
            dec_chars(t@.subrange(p as int, r.0 as int)) as u8,
        ),
        dec_chars(t@.subrange(p as int, r.0 as int)) > 255 ==> r.1 is None,
{
    let n = t.unicode_len();
    let mut q: usize = p;
    let mut v: u32 = 0;
    while q < n && digit_at(t, q)
        invariant
            n == t@.len(),
            p <= q <= n,
            digit_end(t@, p as int) == digit_end(t@, q as int),
            dec_chars(t@.subrange(p as int, q as int)) <= 255 ==> v as nat == dec_chars(
                t@.subrange(p as int, q as int),
            ),
            dec_chars(t@.subrange(p as int, q as int)) > 255 <==> v > 255,
            v <= 2559,
        decreases n - q,
    {
        let c = t.get_char(q);
        proof {
            assert(t@.subrange(p as int, q + 1) =~= t@.subrange(p as int, q as int).push(c));
            lemma_dec_chars_push(t@.subrange(p as int, q as int), c);
        }
        let d = (c as u32) - ('0' as u32);
        if v <= 255 {
            v = v * 10 + d;
        }
        q = q + 1;
    }
    assert(digit_end(t@, q as int) == q);
    if v <= 255 {
        (q, Some(v as u8))
    } else {
        (q, None)
    }
}

/// Parse a format spec of the form `[align][+][#][0][width][.precision][type]`.
fn parse_spec(t: &str) -> (r: Result<ParsedSpec, FormatStrError>)
    ensures
        r == spec_of_chars(t@),
{
    let n = t.unicode_len();
    let mut p: usize = 0;
    let mut align = Align::Unset;
    if n > 0 {
        let c = t.get_char(0);
        if c == '<' {
            align = Align::Left;
            p = 1;
        } else if c == '>' {
            align = Align::Right;
            p = 1;
        }
    }
    let sign = p < n && t.get_char(p) == '+';
    if sign {
        p = p + 1;
    }
    let alternate = p < n && t.get_char(p) == '#';
    if alternate {
        p = p + 1;
    }
    let zero_pad = p < n && t.get_char(p) == '0';
    if zero_pad {
        p = p + 1;
    }
    let (w_end, w) = digit_run(t, p);
    let mut width: Option<u8> = None;
    if w_end > p {
        match w {
            None => {
                return Err(FormatStrError::WidthTooLarge);
            },
            Some(x) => {
                width = Some(x);
            },
        }
    }
    let has_dot = w_end < n && t.get_char(w_end) == '.';
    let p5 = if has_dot {
        w_end + 1
    } else {
        w_end
    };
    let (pr_end, pr) = digit_run(t, p5);
    let mut precision: Option<u8> = None;
    if has_dot {
        if pr_end == p5 {
            return Err(FormatStrError::MissingPrecision);
        }
        match pr {
            None => {
                return Err(FormatStrError::PrecisionTooLarge);
            },
            Some(x) => {
                precision = Some(x);
            },
        }
    } else {
        proof {
            lemma_digit_end(t@, p as int);
        }
    }
    if pr_end >= n {
        return Ok(
            ParsedSpec {
                align,
                sign,
                alternate,
                zero_pad,
                width,
                precision,
                fmt_type: FmtType::Display,
            },
        );
    }
    let c = t.get_char(pr_end);
    let fmt_type = if c == 'x' {
        FmtType::LowerHex
    } else if c == 'X' {
        FmtType::UpperHex
    } else if c == 'b' {
        FmtType::Binary
    } else if c == 'o' {
        FmtType::Octal
    } else if c == 'c' {
        FmtType::Char
    } else {
        return Err(FormatStrError::UnknownType { found: c });
    };
    if pr_end + 1 < n {
        return Err(FormatStrError::TrailingChars);
    }
    Ok(ParsedSpec { align, sign, alternate, zero_pad, width, precision, fmt_type })
}

/// The first index at or after `p` holding `c`, or the length.
fn find_char_exec(t: &str, c: char, p: usize) -> (r: usize)
    requires
        p <= t@.len(),
    ensures
        r as int == find_char(t@, c, p as int),
        p <= r <= t@.len(),
{
    let n = t.unicode_len();
    let mut q = p;
    while q < n
        invariant
            n == t@.len(),
            p <= q <= n,
            find_char(t@, c, p as int) == find_char(t@, c, q as int),
        decreases n - q,
    {
        if t.get_char(q) == c {
            return q;
        }
        q = q + 1;
    }
    q
}

/// Parse the inside of `{...}`: `name` or `name:spec`.
fn parse_placeholder(inner: &str) -> (r: Result<Placeholder, FormatStrError>)
    ensures
        match (r, placeholder_of(inner@)) {
            (Ok(p), Ok((name, sp))) => p.name@ == name && p.spec == sp,
            (Err(e), Err(f)) => e == f,
            _ => false,
        },
{
    let n = inner.unicode_len();
    let colon = find_char_exec(inner, ':', 0);
    let name_part = trim(inner.substring_char(0, colon));
    if name_part.is_empty() {
        return Err(FormatStrError::EmptyName);
    }
    let name = name_part.to_owned();
    if colon < n {
        match parse_spec(inner.substring_char(colon + 1, n)) {
            Ok(spec) => Ok(Placeholder { name, spec }),
            Err(e) => Err(e),
        }
    } else {
        Ok(Placeholder { name, spec: ParsedSpec::default() })
    }
}

proof fn lemma_segments_push(v: Seq<Segment>, x: Segment)
    ensures
        segments_view(v.push(x)) == segments_view(v).push(segment_view(x)),
{
    assert(segments_view(v.push(x)) =~= segments_view(v).push(segment_view(x)));
}

/// Split `input` into literal and placeholder segments.  `{{` and `}}` are
/// literal braces; adjacent literal text forms one segment and no literal
/// segment is empty.
pub fn parse_format_str(input: &str) -> (r: Result<Vec<Segment>, FormatStrError>)
    ensures
        match (r, format_str_spec(input@)) {
            (Ok(v), Ok(w)) => segments_view(v@) == w,
            (Err(e), Err(f)) => e == f,
            _ => false,
        },
{
    let n = input.unicode_len();
    let mut segments: Vec<Segment> = Vec::new();
    let mut literal = String::new();
    let mut i: usize = 0;
    assert(segments_view(segments@) =~= Seq::<SegmentV>::empty());
    while i < n
        invariant
            n == input@.len(),
            i <= n,
            split_from(input@, i as int, literal@, segments_view(segments@)) == format_str_spec(
                input@,
            ),
        decreases n - i,
    {
        let ch = input.get_char(i);
        let ghost lit_before = literal@;
        let ghost acc_before = segments_view(segments@);
        if ch == '{' {
            if i + 1 < n && input.get_char(i + 1) == '{' {
                let piece = input.substring_char(i, i + 1);
                assert(piece@ =~= seq![ch]);
                literal.append(piece);
                assert(literal@ =~= lit_before.push(ch));
                i = i + 2;
            } else {
                let close = find_char_exec(input, '}', i + 1);
                if close >= n {
                    let byte = input.substring_char(0, i).len();
                    return Err(FormatStrError::UnclosedBrace { byte });
                }
                let ghost acc0 = segments_view(segments@);
                let ghost lit0 = literal@;
                if !literal.as_str().is_empty() {
                    proof {
                        lemma_segments_push(segments@, Segment::Literal(literal));
                    }
                    segments.push(Segment::Literal(literal));
                }
                assert(segments_view(segments@) == flush_literal(acc0, lit0));
                match parse_placeholder(input.substring_char(i + 1, close)) {
                    Err(e) => {
                        return Err(e);
                    },
                    Ok(p) => {
                        proof {
                            lemma_segments_push(segments@, Segment::Placeholder(p));
                        }
                        segments.push(Segment::Placeholder(p));
                    },
                }
                literal = String::new();
                assert(literal@ =~= Seq::<char>::empty());
                i = close + 1;
            }
        } else if ch == '}' {
            if i + 1 < n && input.get_char(i + 1) == '}' {
                let piece = input.substring_char(i, i + 1);
                assert(piece@ =~= seq![ch]);
                literal.append(piece);
                assert(literal@ =~= lit_before.push(ch));
                i = i + 2;
            } else {
                return Err(FormatStrError::UnexpectedClose);
            }
        } else {
            let piece = input.substring_char(i, i + 1);
            assert(piece@ =~= seq![ch]);
            literal.append(piece);
            assert(literal@ =~= lit_before.push(ch));
            i = i + 1;
        }
    }
    if !literal.as_str().is_empty() {
        proof {
            lemma_segments_push(segments@, Segment::Literal(literal));
        }
        segments.push(Segment::Literal(literal));
    }
    Ok(segments)
}

} // verus!
