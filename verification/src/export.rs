//! The companion export: a plain-text listing of events and strings.

use vstd::prelude::*;
use vstd::string::*;
use vstd::utf8::*;
use crate::db::{Db, EvV, StrV, evs_view, find_str, iso8601_spec, secs_to_iso8601, strs_view};
use crate::elf::{EventEntry, StringEntry};
use crate::numfmt::{digits, to_digits, lemma_u64_digits_len};
use crate::text::ascii_string;

verus! {

/// `v` as exactly `n` lowercase hex digits, zero-padded on the left.
pub open spec fn hex_pad(v: nat, n: nat) -> Seq<char> {
    let d = digits(v, 16, false);
    decode_utf8(Seq::new((n - d.len()) as nat, |i: int| 48u8) + d)
}

/// Bytes as two-digit hex numbers separated by single spaces.
pub open spec fn hex_join(b: Seq<u8>) -> Seq<char>
    decreases b.len(),
{
    if b.len() == 0 {
        Seq::empty()
    } else if b.len() == 1 {
        hex_pad(b[0] as nat, 2)
    } else {
        hex_join(b.drop_last()) + " "@ + hex_pad(b.last() as nat, 2)
    }
}

/// One event section; the format line only when the database knows the
/// event's format string.
pub open spec fn event_block(e: EvV, db_strings: Seq<StrV>) -> Seq<char> {
    "\n[event "@ + hex_pad(e.0 as nat, 8) + "]\n"@ + "full_hash   = "@ + hex_pad(e.1 as nat, 16) + "\n"@
        + match find_str(db_strings, e.2) {
            Some(f) => "format      = "@ + f + "\n"@,
            None => Seq::empty(),
        } + "bytecode    = "@ + hex_join(e.3) + "\n"@
}

/// One string section.
pub open spec fn string_block(s: StrV) -> Seq<char> {
    "\n[string "@ + hex_pad(s.0 as nat, 8) + "]\n"@ + "content     = "@ + s.1 + "\n"@
}

pub open spec fn event_blocks(events: Seq<EvV>, db_strings: Seq<StrV>) -> Seq<char>
    decreases events.len(),
{
    if events.len() == 0 {
        Seq::empty()
    } else {
        event_blocks(events.drop_last(), db_strings) + event_block(events.last(), db_strings)
    }
}

pub open spec fn string_blocks(strings: Seq<StrV>) -> Seq<char>
    decreases strings.len(),
{
    if strings.len() == 0 {
        Seq::empty()
    } else {
        string_blocks(strings.drop_last()) + string_block(strings.last())
    }
}

/// The whole export, generated at `now` (ISO 8601).
pub open spec fn export_text(events: Seq<EvV>, strings: Seq<StrV>, db_strings: Seq<StrV>, now: Seq<char>) -> Seq<char> {
    "# zfmt event database export\n"@ + "# generated "@ + now + "\n"@ + event_blocks(events, db_strings) + string_blocks(strings)
}

/// `v` as `n` hex digits (`v` below `16^n`).
fn hex_string(v: u64, n: usize) -> (r: String)
    requires
        n <= 16,
        digits(v as nat, 16, false).len() <= n,
    ensures
        r@ == hex_pad(v as nat, n as nat),
{
    let d = to_digits(v, 16, false);
    proof {
        assert forall|i: int| 0 <= i < d@.len() implies d@[i] < 0x80 by {
            crate::format::lemma_digits_ascii(v as nat, 16, false, i);
        }
    }
    let mut b: Vec<u8> = Vec::new();
    crate::display::push_repeat(&mut b, 48u8, n - d.len());
    crate::text::append_bytes(&mut b, d.as_slice());
    assert(b@ =~= Seq::new((n - d@.len()) as nat, |i: int| 48u8) + d@);
    let s = ascii_string(b.as_slice());
    proof { encode_utf8_decode_utf8(s@); }
    s
}

proof fn lemma_byte_digits(v: u8)
    ensures
        digits(v as nat, 16, false).len() <= 2,
{
    assert(crate::numfmt::pow_nat(16, 2) == 256) by { reveal_with_fuel(crate::numfmt::pow_nat, 3); }
    crate::numfmt::lemma_digits_len_pow(v as nat, 16, false, 2);
}

proof fn lemma_u32_digits(v: u32)
    ensures
        digits(v as nat, 16, false).len() <= 8,
{
    assert(crate::numfmt::pow_nat(16, 8) == 0x1_0000_0000) by { reveal_with_fuel(crate::numfmt::pow_nat, 9); }
    crate::numfmt::lemma_digits_len_pow(v as nat, 16, false, 8);
}

proof fn lemma_u64_digits(v: u64)
    ensures
        digits(v as nat, 16, false).len() <= 16,
{
    assert(crate::numfmt::pow_nat(16, 16) == 0x1_0000_0000_0000_0000) by { reveal_with_fuel(crate::numfmt::pow_nat, 17); }
    crate::numfmt::lemma_digits_len_pow(v as nat, 16, false, 16);
}

/// Append the hex of a bytecode, space separated.
fn push_hex_join(out: &mut String, b: &Vec<u8>)
    ensures
        final(out)@ == old(out)@ + hex_join(b@),
{
    let mut i: usize = 0;
    assert(b@.take(0) =~= Seq::<u8>::empty());
    while i < b.len()
        invariant
            i <= b@.len(),
            out@ == old(out)@ + hex_join(b@.take(i as int)),
        decreases b@.len() - i,
    {
        proof { lemma_byte_digits(b@[i as int]); }
        let h = hex_string(b[i] as u64, 2);
        let ghost before = out@;
        if i > 0 {
            out.append(" ");
        }
        out.append(h.as_str());
        proof {
            let t = b@.take(i as int + 1);
            assert(t.drop_last() =~= b@.take(i as int));
            assert(t.last() == b@[i as int]);
            if i == 0 {
                assert(out@ =~= old(out)@ + hex_join(t));
            } else {
                assert(out@ =~= old(out)@ + hex_join(t));
            }
        }
        i = i + 1;
    }
    assert(b@.take(b@.len() as int) =~= b@);
}

/// The export text generated at `now_secs`.
pub fn export_at(events: &[EventEntry], strings: &[StringEntry], db: &Db, now_secs: u64) -> (r: String)
    ensures
        r@ == export_text(evs_view(events@), strs_view(strings@), db.strings_v(), decode_utf8(iso8601_spec(now_secs))),
{
    let now = secs_to_iso8601(now_secs);
    proof { encode_utf8_decode_utf8(now@); }
    let mut out = String::from_str("# zfmt event database export\n");
    out.append("# generated ");
    out.append(now.as_str());
    out.append("\n");
    let ghost head = out@;
    let ghost ev = evs_view(events@);
    let mut i: usize = 0;
    assert(ev.take(0) =~= Seq::<EvV>::empty());
    while i < events.len()
        invariant
            i <= events@.len(),
            ev == evs_view(events@),
            out@ == head + event_blocks(ev.take(i as int), db.strings_v()),
        decreases events@.len() - i,
    {
        let e = &events[i];
        proof {
            lemma_u32_digits(e.tag);
            lemma_u32_digits(e.format_hash);
            lemma_u64_digits(e.full_hash);
        }
        let ghost before = out@;
        out.append("\n[event ");
        out.append(hex_string(e.tag as u64, 8).as_str());
        out.append("]\n");
        out.append("full_hash   = ");
        out.append(hex_string(e.full_hash, 16).as_str());
        out.append("\n");
        match db.lookup_string(e.format_hash) {
            Some(f) => {
                out.append("format      = ");
                out.append(f.as_str());
                out.append("\n");
            },
            None => {},
        }
        out.append("bytecode    = ");
        push_hex_join(&mut out, &e.bytecode);
        out.append("\n");
        proof {
            let t = ev.take(i as int + 1);
            assert(t.drop_last() =~= ev.take(i as int));
            assert(t.last() == crate::elf::event_entry_view(*e));
            assert(out@ =~= before + event_block(t.last(), db.strings_v()));
        }
        i = i + 1;
    }
    assert(ev.take(events@.len() as int) =~= ev);
    let ghost mid = out@;
    let ghost sv = strs_view(strings@);
    let mut k: usize = 0;
    assert(sv.take(0) =~= Seq::<StrV>::empty());
    while k < strings.len()
        invariant
            k <= strings@.len(),
            sv == strs_view(strings@),
            out@ == mid + string_blocks(sv.take(k as int)),
        decreases strings@.len() - k,
    {
        let s = &strings[k];
        proof { lemma_u32_digits(s.hash); }
        let ghost before = out@;
        out.append("\n[string ");
        out.append(hex_string(s.hash as u64, 8).as_str());
        out.append("]\n");
        out.append("content     = ");
        out.append(s.content.as_str());
        out.append("\n");
        proof {
            let t = sv.take(k as int + 1);
            assert(t.drop_last() =~= sv.take(k as int));
            assert(out@ =~= before + string_block(t.last()));
        }
        k = k + 1;
    }
    assert(sv.take(strings@.len() as int) =~= sv);
    out
}

/// The export text generated now.
pub fn render(events: &[EventEntry], strings: &[StringEntry], db: &Db) -> (r: String)
    ensures
        exists|t: u64| r@ == export_text(evs_view(events@), strs_view(strings@), db.strings_v(), decode_utf8(#[trigger] iso8601_spec(t))),
{
    let now = crate::db::now_unix_secs();
    export_at(events, strings, db, now)
}

} // verus!
