//! Properties of how values are shown: signed decimals, the fallback line and
//! the binary presentation type, on the host and on the device.

use vstd::prelude::*;
use crate::display::{
    FmtType as HostType, PieceV, Spec, default_pieces, default_spec, fallback_spec, fmt_int_spec, parse_spec_spec,
    spec_chunk,
};
use crate::fmtstr::{FmtType, ParsedSpec, SegmentV, default_parsed, digit_end, find_char, placeholder_of};
use crate::format::{FormatSpec, FormatType, fw_int_text};
use crate::interpret::ValueV;
use crate::numfmt::digits;
use crate::text::trim_ws;
use crate::textlog::{NamedArg, TextArg, find_arg, segment_text};

verus! {

/// `-` before a negative value, `+` before another when a sign is asked
/// for, else nothing.
pub open spec fn sign_text(negative: bool, plus: bool) -> Seq<u8> {
    if negative { seq![45u8] } else if plus { seq![43u8] } else { Seq::empty() }
}

/// On the host, a signed value under a decimal spec without width
/// shows as a minus sign exactly when it is negative (a plus sign otherwise
/// when the spec has `+`), then the decimal digits of its magnitude.
pub proof fn law_host_signed_decimal(v: int, bits: nat, spec: Spec)
    requires
        spec.fmt_type == HostType::Display,
        spec.width == 0,
    ensures
        fmt_int_spec(v, bits, spec) == sign_text(v < 0, spec.sign) + digits(if v < 0 { (-v) as nat } else { v as nat }, 10, false),
{
    let m: nat = if v < 0 { (-v) as nat } else { v as nat };
    let d = digits(m, 10, false);
    assert(sign_text(v < 0, spec.sign) + Seq::<u8>::empty() + d =~= sign_text(v < 0, spec.sign) + d);
}

/// On the device, a signed value under a decimal spec without width
/// shows as a minus sign exactly when it is negative (a plus sign otherwise
/// when the spec has `+`), then the decimal digits of its magnitude.
pub proof fn law_device_signed_decimal(v: int, bits: nat, spec: FormatSpec)
    requires
        spec.ty == FormatType::Display,
        spec.width == 0,
    ensures
        fw_int_text(v, bits, spec) == sign_text(v < 0, spec.sign) + digits(if v < 0 { (-v) as nat } else { v as nat }, 10, false),
{
    let m: nat = if v < 0 { (-v) as nat } else { v as nat };
    let d = digits(m, 10, false);
    assert(sign_text(v < 0, spec.sign) + Seq::<u8>::empty() + d =~= sign_text(v < 0, spec.sign) + d);
    assert(crate::display::repeat(32u8, 0) + (sign_text(v < 0, spec.sign) + Seq::<u8>::empty()) + d =~= sign_text(v < 0, spec.sign) + d);
    assert((sign_text(v < 0, spec.sign) + Seq::<u8>::empty()) + d + crate::display::repeat(32u8, 0) =~= sign_text(v < 0, spec.sign) + d);
}

/// A placeholder without a spec shows every value as its default display:
/// integers in decimal (negative ones with a minus sign), text as is, arrays
/// as their elements.
pub proof fn law_plain_placeholder_is_default(v: ValueV)
    ensures
        spec_chunk(v, default_spec()) == (default_pieces(v), 0nat, false),
{
    let sp = default_spec();
    match v {
        ValueV::U8(x) => { assert(Seq::<u8>::empty() + Seq::<u8>::empty() + digits(x as nat, 10, false) =~= digits(x as nat, 10, false)); },
        ValueV::U16(x) => { assert(Seq::<u8>::empty() + Seq::<u8>::empty() + digits(x as nat, 10, false) =~= digits(x as nat, 10, false)); },
        ValueV::U32(x) => { assert(Seq::<u8>::empty() + Seq::<u8>::empty() + digits(x as nat, 10, false) =~= digits(x as nat, 10, false)); },
        ValueV::U64(x) => { assert(Seq::<u8>::empty() + Seq::<u8>::empty() + digits(x as nat, 10, false) =~= digits(x as nat, 10, false)); },
        ValueV::I8(x) => { law_host_signed_decimal(x as int, x as u64 as nat, sp); },
        ValueV::I16(x) => { law_host_signed_decimal(x as int, x as u16 as nat, sp); },
        ValueV::I32(x) => { law_host_signed_decimal(x as int, x as u32 as nat, sp); },
        ValueV::I64(x) => { law_host_signed_decimal(x as int, x as u64 as nat, sp); },
        _ => {},
    }
}

/// The line of an event without a usable format string: each value in its
/// default display, with one single-space chunk between neighbours and none
/// at either end.
pub proof fn law_fallback_separates_by_spaces(vals: Seq<ValueV>)
    requires
        vals.len() >= 1,
    ensures
        fallback_spec(vals).len() == 2 * vals.len() - 1,
        forall|i: int| 0 <= i < vals.len() ==> #[trigger] fallback_spec(vals)[2 * i] == (default_pieces(vals[i]), 0nat, false),
        forall|i: int| 0 <= i < vals.len() - 1 ==> #[trigger] fallback_spec(vals)[2 * i + 1] == (seq![PieceV::Text(seq![32u8])], 0nat, false),
    decreases vals.len(),
{
    if vals.len() > 1 {
        let init = vals.drop_last();
        law_fallback_separates_by_spaces(init);
        let f = fallback_spec(vals);
        let g = fallback_spec(init);
        assert forall|i: int| 0 <= i < vals.len() implies #[trigger] f[2 * i] == (default_pieces(vals[i]), 0nat, false) by {
            if i < vals.len() - 1 {
                assert(f[2 * i] == g[2 * i]);
                assert(init[i] == vals[i]);
            }
        }
        assert forall|i: int| 0 <= i < vals.len() - 1 implies #[trigger] f[2 * i + 1] == (seq![PieceV::Text(seq![32u8])], 0nat, false) by {
            if i < vals.len() - 2 {
                assert(f[2 * i + 1] == g[2 * i + 1]);
            }
        }
    }
}

/// The spec `b` of a placeholder `{name:b}` selects the binary presentation
/// and nothing else, and the placeholder shows an unsigned argument as its
/// base-2 digits.
pub proof fn law_binary_placeholder(name: Seq<char>, args: Seq<NamedArg>, x: u64)
    requires
        find_char(name, ':', 0) == name.len(),
        trim_ws(name).len() > 0,
        find_arg(args, trim_ws(name)) == Some(TextArg::U64(x)),
    ensures
        placeholder_of(name + seq![':', 'b']) == Ok::<(Seq<char>, ParsedSpec), crate::fmtstr::FormatStrError>(
            (trim_ws(name), ParsedSpec { fmt_type: FmtType::Binary, ..default_parsed() })),
        segment_text(SegmentV::Placeholder(trim_ws(name), ParsedSpec { fmt_type: FmtType::Binary, ..default_parsed() }), args)
            == Ok::<Seq<u8>, crate::textlog::TextLogError>(digits(x as nat, 2, false)),
{
    let inner = name + seq![':', 'b'];
    lemma_find_char_at(name, seq![':', 'b'], 0);
    assert(inner.subrange(0, name.len() as int) =~= name);
    let t = inner.subrange(name.len() as int + 1, inner.len() as int);
    assert(t =~= seq!['b']);
    assert(digit_end(t, 0) == 0);
    assert(digit_end(t, 0) == 0 && t.subrange(0, 0) =~= Seq::<char>::empty());
    let d = digits(x as nat, 2, false);
    assert(crate::display::repeat(32u8, 0) + Seq::<u8>::empty() + d =~= d);
    assert(Seq::<u8>::empty() + Seq::<u8>::empty() + d =~= d);
}

/// A name without `:` followed by `:` and more: the first `:` at or after `p`
/// is the one after the name.
proof fn lemma_find_char_at(name: Seq<char>, rest: Seq<char>, p: int)
    requires
        0 <= p <= name.len(),
        find_char(name, ':', p) == name.len(),
        rest.len() > 0,
        rest[0] == ':',
    ensures
        find_char(name + rest, ':', p) == name.len(),
    decreases name.len() - p,
{
    if p < name.len() {
        assert((name + rest)[p] == name[p]);
        lemma_find_char_at(name, rest, p + 1);
    } else {
        assert((name + rest)[p] == rest[0]);
    }
}

/// On the host, the spec `b` selects the binary presentation and nothing
/// else, and shows an unsigned value as its base-2 digits.
pub proof fn law_host_binary_spec(x: u64)
    ensures
        parse_spec_spec(seq![98u8]) == Ok::<Spec, crate::display::SpecError>(Spec { fmt_type: HostType::Binary, ..default_spec() }),
        spec_chunk(ValueV::U64(x), Spec { fmt_type: HostType::Binary, ..default_spec() })
            == (seq![PieceV::Text(digits(x as nat, 2, false))], 0nat, false),
{
    let s = seq![98u8];
    assert(crate::display::digit_run(s, 0) == 0);
    assert(s.subrange(0, 0) =~= Seq::<u8>::empty());
    assert(Seq::<u8>::empty() + Seq::<u8>::empty() + digits(x as nat, 2, false) =~= digits(x as nat, 2, false));
}

} // verus!
