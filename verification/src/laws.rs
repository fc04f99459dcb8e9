//! Properties that relate several parts of the library: what one side writes
//! the other reads back, and what every operation keeps.

use vstd::prelude::*;
use vstd::string::*;
use vstd::utf8::*;
use crate::elf::{event_entry_spec, string_entry_spec, EntryError};
use crate::events::{EventHeader, header_bytes};
use crate::format::ZfmtU64;
use crate::decode::{
    DecodeConfig, DecodeError, FrameStep, OutputV, TAG_EVENT_HEADER, TAG_STREAM_START, Warning,
    after_frame_start, decode_from, decode_spec, event_outputs, find_table, frame_spec, seq_check,
};
use crate::interpret::EventTable;
use crate::leb128::{leb128_bytes, leb128_read, leb128_terminator, lemma_leb128_read_prefix};
use crate::output::{bare_frame, event_message, event_parts, frame_head};
use crate::logger::{concat_all, lemma_concat_two};
use crate::schema::{Schema, event_entry_bytes, pad4, string_entry_bytes};
use crate::text::{le_bytes, le_value, pow256, lemma_le_value_bytes, lemma_le_bytes_len};
use crate::textlog::{NamedArg, TEXT_CAPACITY, fill_from, text_message_spec};
use crate::fmtstr::{SegmentV, format_str_spec};
use crate::db::{
    DbError, EvV, IngestStats, StrV, ev_sorted, fh_distinct, find_by_full_hash, find_by_tag, find_str,
    ingest_events_spec, ingest_outcome, ingest_strings_spec, insert_ev, insert_str,
    builds_distinct, ev_pos, first_builds, lemma_ev_pos, lemma_find_by_full_hash, lemma_find_by_tag,
    lemma_find_str, lemma_insert_ev_sorted, lemma_str_pos, record_build, str_pos, str_sorted, verify_spec,
};

verus! {

proof fn lemma_pow256_4()
    ensures
        pow256(4) == 0x1_0000_0000,
        pow256(2) == 0x1_0000,
        pow256(8) == 0x1_0000_0000_0000_0000,
{
    reveal_with_fuel(pow256, 9);
}

/// A header's twelve payload bytes determine it: `from_bytes` gives back
/// exactly the header that `to_bytes` wrote.
pub proof fn law_header_bytes_determine_header(h1: EventHeader, h2: EventHeader)
    requires
        header_bytes(h1) == header_bytes(h2),
    ensures
        h1 == h2,
{
    lemma_pow256_4();
    let b1 = header_bytes(h1);
    let b2 = header_bytes(h2);
    lemma_le_value_bytes(h1.timestamp.lo as nat, 4);
    lemma_le_value_bytes(h1.timestamp.hi as nat, 4);
    lemma_le_value_bytes(h2.timestamp.lo as nat, 4);
    lemma_le_value_bytes(h2.timestamp.hi as nat, 4);
    assert(b1.subrange(0, 4) =~= le_bytes(h1.timestamp.lo as nat, 4));
    assert(b2.subrange(0, 4) =~= le_bytes(h2.timestamp.lo as nat, 4));
    assert(b1.subrange(4, 8) =~= le_bytes(h1.timestamp.hi as nat, 4));
    assert(b2.subrange(4, 8) =~= le_bytes(h2.timestamp.hi as nat, 4));
    assert(h1.severity == b1[8] && h2.severity == b2[8]);
    assert(h1.seq =~= h2.seq) by {
        assert(h1.seq@ =~= b1.subrange(9, 12));
        assert(h2.seq@ =~= b2.subrange(9, 12));
        assert forall|i: int| 0 <= i < 3 implies h1.seq[i] == h2.seq[i] by {
            assert(h1.seq[i] == b1[9 + i]);
            assert(h2.seq[i] == b2[9 + i]);
        }
    }
}

/// The wire tag of an event type is the low half of its full hash.
pub proof fn law_tag_is_low_half_of_full_hash(s: Schema)
    ensures
        s.tag_spec() as nat == s.full_hash_spec() as nat % 0x1_0000_0000,
{
}

/// A 64-bit value split into halves and joined again is unchanged.
pub proof fn law_zfmt_u64_halves(v: u64)
    ensures
        (ZfmtU64 { lo: (v % 0x1_0000_0000) as u32, hi: (v / 0x1_0000_0000) as u32 }).value() == v,
{
}

/// An event entry that the derive engine writes is read back field for
/// field by the ELF entry parser.
pub proof fn law_event_entry_roundtrip(tag: u32, full_hash: u64, format_hash: u32, bc: Seq<u8>)
    requires
        bc.len() < 0x1_0000_0000,
    ensures
        event_entry_spec(event_entry_bytes(tag, full_hash, format_hash, bc))
            == Ok::<(u32, u64, u32, Seq<u8>), EntryError>((tag, full_hash, format_hash, bc)),
{
    lemma_pow256_4();
    let d = event_entry_bytes(tag, full_hash, format_hash, bc);
    lemma_le_value_bytes(tag as nat, 4);
    lemma_le_value_bytes(0, 4);
    lemma_le_value_bytes(full_hash as nat, 8);
    lemma_le_value_bytes(format_hash as nat, 4);
    lemma_le_value_bytes(bc.len(), 4);
    assert((bc.len() as u32) as nat == bc.len());
    assert(d.subrange(0, 4) =~= le_bytes(tag as nat, 4));
    assert(d.subrange(8, 16) =~= le_bytes(full_hash as nat, 8));
    assert(d.subrange(16, 20) =~= le_bytes(format_hash as nat, 4));
    assert(d.subrange(24, 28) =~= le_bytes(bc.len(), 4));
    assert(d.subrange(28, 28 + bc.len() as int) =~= bc);
}

/// A string entry is read back as the hash and the text written, when the
/// text's length fits the 16-bit length field.
pub proof fn law_string_entry_roundtrip(hash: u32, text: Seq<char>)
    requires
        encode_utf8(text).len() < 0x1_0000,
    ensures
        string_entry_spec(string_entry_bytes(hash, encode_utf8(text)))
            == Ok::<(u32, Seq<char>), EntryError>((hash, text)),
{
    lemma_pow256_4();
    let b = encode_utf8(text);
    let d = string_entry_bytes(hash, b);
    lemma_le_value_bytes(hash as nat, 4);
    lemma_le_value_bytes(b.len(), 2);
    lemma_le_bytes_len(0, 2);
    assert((b.len() as u16) as nat == b.len());
    assert(d.subrange(0, 4) =~= le_bytes(hash as nat, 4));
    assert(d.subrange(4, 6) =~= le_bytes(b.len(), 2));
    assert(d.subrange(8, 8 + b.len() as int) =~= b);
    encode_utf8_valid_utf8(text);
    encode_utf8_decode_utf8(text);
}

proof fn lemma_fill_bounded(segs: Seq<SegmentV>, args: Seq<NamedArg>, i: int, acc: Seq<u8>)
    requires
        acc.len() <= TEXT_CAPACITY,
    ensures
        fill_from(segs, args, i, acc) matches Ok(t) ==> t.len() <= TEXT_CAPACITY,
    decreases segs.len() - i,
{
    if 0 <= i < segs.len() {
        match crate::textlog::segment_text(segs[i], args) {
            Err(_) => {},
            Ok(t) => {
                let next = if acc.len() + t.len() <= TEXT_CAPACITY { acc + t } else { acc };
                lemma_fill_bounded(segs, args, i + 1, next);
            },
        }
    }
}

/// An unstructured message never exceeds the 128-byte buffer.
pub proof fn law_text_message_fits(format: Seq<char>, args: Seq<NamedArg>)
    ensures
        text_message_spec(format, args) matches Ok(t) ==> t.len() <= TEXT_CAPACITY,
{
    match format_str_spec(format) {
        Err(_) => {},
        Ok(segs) => lemma_fill_bounded(segs, args, 0, Seq::empty()),
    }
}


proof fn lemma_ev_pos_le(s: Seq<EvV>, tag: u32)
    ensures
        crate::db::ev_pos(s, tag) <= s.len(),
    decreases s.len(),
{
    if s.len() > 0 {
        lemma_ev_pos_le(s.drop_first(), tag);
    }
}

proof fn lemma_str_pos_le(s: Seq<StrV>, hash: u32)
    ensures
        crate::db::str_pos(s, hash) <= s.len(),
    decreases s.len(),
{
    if s.len() > 0 {
        lemma_str_pos_le(s.drop_first(), hash);
    }
}

proof fn lemma_find_fh_insert_other(s: Seq<EvV>, p: int, z: EvV, h: u64)
    requires
        0 <= p <= s.len(),
        z.1 != h,
    ensures
        find_by_full_hash(s.insert(p, z), h) == find_by_full_hash(s, h),
    decreases s.len(),
{
    if p == 0 {
        assert(s.insert(0, z).drop_first() =~= s);
    } else {
        assert(s.insert(p, z)[0] == s[0]);
        assert(s.insert(p, z).drop_first() =~= s.drop_first().insert(p - 1, z));
        lemma_find_fh_insert_other(s.drop_first(), p - 1, z, h);
    }
}

proof fn lemma_find_fh_insert_self(s: Seq<EvV>, p: int, z: EvV)
    requires
        0 <= p <= s.len(),
        find_by_full_hash(s, z.1) is None,
    ensures
        find_by_full_hash(s.insert(p, z), z.1) == Some(z),
    decreases s.len(),
{
    if p > 0 {
        assert(s.insert(p, z)[0] == s[0]);
        assert(s.insert(p, z).drop_first() =~= s.drop_first().insert(p - 1, z));
        lemma_find_fh_insert_self(s.drop_first(), p - 1, z);
    }
}

proof fn lemma_find_str_insert_other(s: Seq<StrV>, p: int, z: StrV, h: u32)
    requires
        0 <= p <= s.len(),
        z.0 != h,
    ensures
        find_str(s.insert(p, z), h) == find_str(s, h),
    decreases s.len(),
{
    if p == 0 {
        assert(s.insert(0, z).drop_first() =~= s);
    } else {
        assert(s.insert(p, z)[0] == s[0]);
        assert(s.insert(p, z).drop_first() =~= s.drop_first().insert(p - 1, z));
        lemma_find_str_insert_other(s.drop_first(), p - 1, z, h);
    }
}

proof fn lemma_find_str_insert_self(s: Seq<StrV>, p: int, z: StrV)
    requires
        0 <= p <= s.len(),
        find_str(s, z.0) is None,
    ensures
        find_str(s.insert(p, z), z.0) == Some(z.1),
    decreases s.len(),
{
    if p > 0 {
        assert(s.insert(p, z)[0] == s[0]);
        assert(s.insert(p, z).drop_first() =~= s.drop_first().insert(p - 1, z));
        lemma_find_str_insert_self(s.drop_first(), p - 1, z);
    }
}

/// Every event is known, as it is, after it was ingested.
pub open spec fn events_known(s: Seq<EvV>, input: Seq<EvV>) -> bool {
    forall|i: int| 0 <= i < input.len() ==> find_by_full_hash(s, #[trigger] input[i].1) == Some(input[i])
}

/// Every string is known, with its content, after it was ingested.
pub open spec fn strings_known(s: Seq<StrV>, input: Seq<StrV>) -> bool {
    forall|i: int| 0 <= i < input.len() ==> find_str(s, #[trigger] input[i].0) == Some(input[i].1)
}

proof fn lemma_events_known(db: Seq<EvV>, input: Seq<EvV>)
    ensures
        ingest_events_spec(db, input) matches Ok((s, a, k)) ==> events_known(s, input),
    decreases input.len(),
{
    if input.len() > 0 {
        let prev = input.drop_last();
        lemma_events_known(db, prev);
        if let Ok((s, a, k)) = ingest_events_spec(db, prev) {
            let x = input.last();
            assert(forall|i: int| 0 <= i < prev.len() ==> input[i] == #[trigger] prev[i]);
            if find_by_full_hash(s, x.1) == Some(x) {
                assert forall|i: int| 0 <= i < input.len() implies find_by_full_hash(s, #[trigger] input[i].1) == Some(input[i]) by {
                    if i < input.len() - 1 {
                        assert(prev[i] == input[i]);
                    }
                }
            }
            if find_by_full_hash(s, x.1) is None && find_by_tag(s, x.0) is None {
                let p = crate::db::ev_pos(s, x.0) as int;
                lemma_ev_pos_le(s, x.0);
                assert forall|i: int| 0 <= i < input.len() implies find_by_full_hash(insert_ev(s, x), #[trigger] input[i].1) == Some(input[i]) by {
                    if i == input.len() - 1 {
                        lemma_find_fh_insert_self(s, p, x);
                    } else {
                        assert(prev[i] == input[i]);
                        lemma_find_fh_insert_other(s, p, x, input[i].1);
                    }
                }
            }
        }
    }
}

proof fn lemma_strings_known(db: Seq<StrV>, input: Seq<StrV>)
    ensures
        ingest_strings_spec(db, input) matches Ok((s, a, k)) ==> strings_known(s, input),
    decreases input.len(),
{
    if input.len() > 0 {
        let prev = input.drop_last();
        lemma_strings_known(db, prev);
        if let Ok((s, a, k)) = ingest_strings_spec(db, prev) {
            let x = input.last();
            assert(forall|i: int| 0 <= i < prev.len() ==> input[i] == #[trigger] prev[i]);
            if find_str(s, x.0) == Some(x.1) {
                assert forall|i: int| 0 <= i < input.len() implies find_str(s, #[trigger] input[i].0) == Some(input[i].1) by {
                    if i < input.len() - 1 {
                        assert(prev[i] == input[i]);
                    }
                }
            }
            if find_str(s, x.0) is None {
                let p = crate::db::str_pos(s, x.0) as int;
                lemma_str_pos_le(s, x.0);
                assert forall|i: int| 0 <= i < input.len() implies find_str(insert_str(s, x), #[trigger] input[i].0) == Some(input[i].1) by {
                    if i == input.len() - 1 {
                        lemma_find_str_insert_self(s, p, x);
                    } else {
                        assert(prev[i] == input[i]);
                        lemma_find_str_insert_other(s, p, x, input[i].0);
                    }
                }
            }
        }
    }
}

proof fn lemma_events_again(s: Seq<EvV>, input: Seq<EvV>)
    requires
        events_known(s, input),
    ensures
        ingest_events_spec(s, input) == Ok::<(Seq<EvV>, nat, nat), DbError>((s, 0, input.len())),
    decreases input.len(),
{
    if input.len() > 0 {
        let prev = input.drop_last();
        assert(forall|i: int| 0 <= i < prev.len() ==> input[i] == #[trigger] prev[i]);
        assert(events_known(s, prev)) by {
            assert forall|i: int| 0 <= i < prev.len() implies find_by_full_hash(s, #[trigger] prev[i].1) == Some(prev[i]) by {
                assert(input[i] == prev[i]);
            }
        }
        lemma_events_again(s, prev);
        assert(input[input.len() - 1] == input.last());
    }
}

proof fn lemma_strings_again(s: Seq<StrV>, input: Seq<StrV>)
    requires
        strings_known(s, input),
    ensures
        ingest_strings_spec(s, input) == Ok::<(Seq<StrV>, nat, nat), DbError>((s, 0, input.len())),
    decreases input.len(),
{
    if input.len() > 0 {
        let prev = input.drop_last();
        assert(forall|i: int| 0 <= i < prev.len() ==> input[i] == #[trigger] prev[i]);
        assert(strings_known(s, prev)) by {
            assert forall|i: int| 0 <= i < prev.len() implies find_str(s, #[trigger] prev[i].0) == Some(prev[i].1) by {
                assert(input[i] == prev[i]);
            }
        }
        lemma_strings_again(s, prev);
        assert(input[input.len() - 1] == input.last());
    }
}

/// Ingesting the same build a second time changes nothing: every event and
/// every string is skipped as already known.
pub proof fn law_ingest_is_idempotent(db_e: Seq<EvV>, db_s: Seq<StrV>, events: Seq<EvV>, strings: Seq<StrV>)
    requires
        events.len() <= usize::MAX,
        strings.len() <= usize::MAX,
    ensures
        ingest_outcome(db_e, db_s, events, strings) matches Ok((e2, s2, _)) ==> ingest_outcome(e2, s2, events, strings)
            == Ok::<(Seq<EvV>, Seq<StrV>, IngestStats), DbError>((e2, s2, IngestStats {
                events_added: 0,
                events_skipped: events.len() as usize,
                strings_added: 0,
                strings_skipped: strings.len() as usize,
            })),
{
    lemma_events_known(db_e, events);
    lemma_strings_known(db_s, strings);
    if let Ok((s2, sa, ss)) = ingest_strings_spec(db_s, strings) {
        if let Ok((e2, ea, es)) = ingest_events_spec(db_e, events) {
            lemma_strings_again(s2, strings);
            lemma_events_again(e2, events);
        }
    }
}

/// Ingesting keeps the events ordered by tag and their full hashes distinct.
proof fn lemma_ingest_keeps_order(db: Seq<EvV>, input: Seq<EvV>)
    requires
        ev_sorted(db),
        fh_distinct(db),
    ensures
        ingest_events_spec(db, input) matches Ok((s, a, k)) ==> ev_sorted(s) && fh_distinct(s),
    decreases input.len(),
{
    if input.len() > 0 {
        lemma_ingest_keeps_order(db, input.drop_last());
        if let Ok((s, a, k)) = ingest_events_spec(db, input.drop_last()) {
            let x = input.last();
            if find_by_full_hash(s, x.1) is None && find_by_tag(s, x.0) is None {
                lemma_insert_ev_sorted(s, x);
            }
        }
    }
}

/// The event that a full-hash lookup finds is one of the events.
proof fn lemma_find_fh_member(s: Seq<EvV>, h: u64)
    ensures
        find_by_full_hash(s, h) matches Some(y) ==> exists|j: int| 0 <= j < s.len() && s[j] == y && y.1 == h,
    decreases s.len(),
{
    if s.len() > 0 && s[0].1 != h {
        lemma_find_fh_member(s.drop_first(), h);
        if let Some(y) = find_by_full_hash(s, h) {
            let k = choose|k: int| 0 <= k < s.drop_first().len() && s.drop_first()[k] == y && y.1 == h;
            assert(s[k + 1] == s.drop_first()[k]);
        }
    }
}

/// In events ordered by tag, looking up an event's tag finds that event.
proof fn lemma_tag_finds_member(s: Seq<EvV>, j: int)
    requires
        ev_sorted(s),
        0 <= j < s.len(),
    ensures
        find_by_tag(s, s[j].0) == Some(s[j]),
{
    lemma_find_by_tag(s, s[j].0);
    if let Some(z) = find_by_tag(s, s[j].0) {
        let k = choose|k: int| 0 <= k < s.len() && s[k] == z && z.0 == s[j].0;
        assert(k == j);
    }
}

/// A verify finds every event of `input` under its tag with its full hash.
proof fn lemma_verify_all_known(s: Seq<EvV>, input: Seq<EvV>)
    requires
        forall|i: int| 0 <= i < input.len() ==> (find_by_tag(s, #[trigger] input[i].0) matches Some(y) && y.1 == input[i].1),
    ensures
        verify_spec(s, input) == Ok::<Seq<u32>, DbError>(Seq::empty()),
    decreases input.len(),
{
    if input.len() > 0 {
        let prev = input.drop_last();
        assert forall|i: int| 0 <= i < prev.len() implies (find_by_tag(s, #[trigger] prev[i].0) matches Some(y) && y.1 == prev[i].1) by {
            assert(prev[i] == input[i]);
        }
        lemma_verify_all_known(s, prev);
        assert(input[input.len() - 1] == input.last());
    }
}

/// After a build has been ingested, verifying that build against the
/// database finds no event missing and no event changed.
pub proof fn law_verify_after_ingest(db_e: Seq<EvV>, db_s: Seq<StrV>, events: Seq<EvV>, strings: Seq<StrV>)
    requires
        ev_sorted(db_e),
        fh_distinct(db_e),
    ensures
        ingest_outcome(db_e, db_s, events, strings) matches Ok((e2, s2, _))
            ==> verify_spec(e2, events) == Ok::<Seq<u32>, DbError>(Seq::empty()),
{
    if let Ok((e2, ea, es)) = ingest_events_spec(db_e, events) {
        lemma_events_known(db_e, events);
        lemma_ingest_keeps_order(db_e, events);
        assert forall|i: int| 0 <= i < events.len() implies (find_by_tag(e2, #[trigger] events[i].0) matches Some(y) && y.1 == events[i].1) by {
            lemma_find_fh_member(e2, events[i].1);
            let y = find_by_full_hash(e2, events[i].1)->Some_0;
            let j = choose|j: int| 0 <= j < e2.len() && e2[j] == y && y.1 == events[i].1;
            lemma_tag_finds_member(e2, j);
        }
        lemma_verify_all_known(e2, events);
    }
}

/// Inserting keeps every element that was there.
proof fn lemma_insert_keeps<T>(s: Seq<T>, p: int, z: T, y: T)
    requires
        0 <= p <= s.len(),
        s.contains(y),
    ensures
        s.insert(p, z).contains(y),
{
    let j = choose|j: int| 0 <= j < s.len() && s[j] == y;
    if j < p {
        assert(s.insert(p, z)[j] == y);
    } else {
        assert(s.insert(p, z)[j + 1] == y);
    }
}

proof fn lemma_events_kept(db: Seq<EvV>, input: Seq<EvV>)
    ensures
        ingest_events_spec(db, input) matches Ok((s, a, k)) ==> forall|y: EvV| db.contains(y) ==> #[trigger] s.contains(y),
    decreases input.len(),
{
    if input.len() > 0 {
        lemma_events_kept(db, input.drop_last());
        if let Ok((s, a, k)) = ingest_events_spec(db, input.drop_last()) {
            let x = input.last();
            if find_by_full_hash(s, x.1) is None && find_by_tag(s, x.0) is None {
                lemma_ev_pos_le(s, x.0);
                assert forall|y: EvV| db.contains(y) implies #[trigger] insert_ev(s, x).contains(y) by {
                    lemma_insert_keeps(s, crate::db::ev_pos(s, x.0) as int, x, y);
                }
            }
        }
    }
}

proof fn lemma_strings_kept(db: Seq<StrV>, input: Seq<StrV>)
    ensures
        ingest_strings_spec(db, input) matches Ok((s, a, k)) ==> forall|y: StrV| db.contains(y) ==> #[trigger] s.contains(y),
    decreases input.len(),
{
    if input.len() > 0 {
        lemma_strings_kept(db, input.drop_last());
        if let Ok((s, a, k)) = ingest_strings_spec(db, input.drop_last()) {
            let x = input.last();
            if find_str(s, x.0) is None {
                lemma_str_pos_le(s, x.0);
                assert forall|y: StrV| db.contains(y) implies #[trigger] insert_str(s, x).contains(y) by {
                    lemma_insert_keeps(s, crate::db::str_pos(s, x.0) as int, x, y);
                }
            }
        }
    }
}

/// An ingest only adds: every event and every string the database held
/// before is still there, unchanged, so older builds stay decodable.
pub proof fn law_ingest_keeps_known_entries(db_e: Seq<EvV>, db_s: Seq<StrV>, events: Seq<EvV>, strings: Seq<StrV>)
    ensures
        ingest_outcome(db_e, db_s, events, strings) matches Ok((e2, s2, _)) ==> {
            &&& forall|y: EvV| db_e.contains(y) ==> #[trigger] e2.contains(y)
            &&& forall|y: StrV| db_s.contains(y) ==> #[trigger] s2.contains(y)
        },
{
    lemma_events_kept(db_e, events);
    lemma_strings_kept(db_s, strings);
}

/// A logged event's message is the header's frame followed by the event's frame.
pub proof fn law_message_is_two_frames(hdr: EventHeader, tag: u32, payload: Seq<u8>)
    ensures
        event_message(hdr, tag, payload) == bare_frame(EventHeader::ZFMT_TAG, header_bytes(hdr)) + bare_frame(tag, payload),
{
    assert(header_bytes(hdr).len() == 12) by {
        lemma_le_bytes_len(hdr.timestamp.lo as nat, 4);
        lemma_le_bytes_len(hdr.timestamp.hi as nat, 4);
    }
    assert(event_message(hdr, tag, payload) =~= bare_frame(EventHeader::ZFMT_TAG, header_bytes(hdr)) + bare_frame(tag, payload));
}

/// The decoder reads a frame as the firmware writes it: at a frame's start
/// it takes the frame's tag and exactly its payload, produces that event's
/// output, and goes on right after the frame.  Stated for payloads shorter
/// than 2^32 bytes, the longest a frame's length field carries.
pub proof fn law_decoder_reads_written_frame(
    data: Seq<u8>, tables: Seq<EventTable>, pos: nat, tick: u64, seq_on: bool, prev: Option<u32>,
    tag: u32, payload: Seq<u8>,
)
    requires
        payload.len() < 0x1_0000_0000,
        pos + bare_frame(tag, payload).len() <= data.len(),
        data.subrange(pos as int, (pos + bare_frame(tag, payload).len()) as int) == bare_frame(tag, payload),
    ensures
        ({
            let (tick2, on2, prev2) = after_frame_start(tag, payload, tick, seq_on, prev);
            let (gap, prev3) = seq_check(tag, payload, on2, prev2);
            frame_spec(data, tables, pos, tick, seq_on, prev) == FrameStep::Next(
                gap + event_outputs(tables, tag, payload, tick2, pos),
                pos + bare_frame(tag, payload).len(),
                tick2,
                on2,
                prev3,
            )
        }),
{
    reveal(frame_spec);
    lemma_pow256_4();
    let frame = bare_frame(tag, payload);
    let n = payload.len();
    let l = leb128_bytes(n);
    lemma_le_value_bytes(tag as nat, 4);
    assert((n as u32) as nat == n);
    assert(frame =~= le_bytes(tag as nat, 4) + l + payload);
    assert(data.subrange(pos as int, (pos + 4) as int) =~= le_bytes(tag as nat, 4)) by {
        assert forall|j: int| 0 <= j < 4 implies data.subrange(pos as int, (pos + 4) as int)[j] == le_bytes(tag as nat, 4)[j] by {
            assert(data.subrange(pos as int, (pos + frame.len()) as int)[j] == frame[j]);
        }
    }
    let rest = data.skip((pos + frame.len()) as int);
    assert(data.skip((pos + 4) as int) =~= l + (payload + rest)) by {
        assert forall|j: int| 0 <= j < data.len() - (pos + 4) implies data.skip((pos + 4) as int)[j] == (l + (payload + rest))[j] by {
            if j < l.len() + n {
                assert(data.subrange(pos as int, (pos + frame.len()) as int)[4 + j] == frame[4 + j]);
            }
        }
    }
    lemma_leb128_read_prefix(n, payload + rest);
    let p0 = pos + 4 + l.len();
    assert(data.subrange(p0 as int, (p0 + n) as int) =~= payload) by {
        assert forall|j: int| 0 <= j < n implies data.subrange(p0 as int, (p0 + n) as int)[j] == payload[j] by {
            assert(data.subrange(pos as int, (pos + frame.len()) as int)[4 + l.len() + j] == frame[4 + l.len() + j]);
        }
    }
}

/// Events ordered by tag with distinct full hashes, ingested into nothing,
/// come out as they went in.
proof fn lemma_events_into_empty(s: Seq<EvV>)
    requires
        ev_sorted(s),
        fh_distinct(s),
    ensures
        ingest_events_spec(Seq::empty(), s) == Ok::<(Seq<EvV>, nat, nat), DbError>((s, s.len(), 0)),
    decreases s.len(),
{
    if s.len() > 0 {
        let prev = s.drop_last();
        let x = s.last();
        assert(forall|j: int| 0 <= j < prev.len() ==> prev[j] == #[trigger] s[j]);
        lemma_events_into_empty(prev);
        lemma_find_by_full_hash(prev, x.1);
        lemma_find_by_tag(prev, x.0);
        lemma_ev_pos(prev, x.0);
        assert forall|j: int| 0 <= j < prev.len() implies prev[j].1 != x.1 && prev[j].0 < x.0 by {
            assert(prev[j] == s[j]);
        }
        assert(ev_pos(prev, x.0) == prev.len());
        assert(insert_ev(prev, x) =~= s);
    } else {
        assert(s =~= Seq::<EvV>::empty());
    }
}

/// Strings ordered by hash, ingested into nothing, come out as they went in.
proof fn lemma_strings_into_empty(s: Seq<StrV>)
    requires
        str_sorted(s),
    ensures
        ingest_strings_spec(Seq::empty(), s) == Ok::<(Seq<StrV>, nat, nat), DbError>((s, s.len(), 0)),
    decreases s.len(),
{
    if s.len() > 0 {
        let prev = s.drop_last();
        let x = s.last();
        assert(forall|j: int| 0 <= j < prev.len() ==> prev[j] == #[trigger] s[j]);
        lemma_strings_into_empty(prev);
        lemma_find_str(prev, x.0);
        lemma_str_pos(prev, x.0);
        assert forall|j: int| 0 <= j < prev.len() implies prev[j].0 < x.0 by {
            assert(prev[j] == s[j]);
        }
        assert(str_pos(prev, x.0) == prev.len());
        assert(insert_str(prev, x) =~= s);
    } else {
        assert(s =~= Seq::<StrV>::empty());
    }
}

proof fn lemma_first_builds_distinct(b: Seq<(u64, Seq<char>)>)
    requires
        builds_distinct(b),
    ensures
        first_builds(b) == b,
    decreases b.len(),
{
    if b.len() > 0 {
        let prev = b.drop_last();
        assert(forall|j: int| 0 <= j < prev.len() ==> prev[j] == #[trigger] b[j]);
        lemma_first_builds_distinct(prev);
        assert(!exists|i: int| 0 <= i < prev.len() && prev[i].0 == b.last().0) by {
            assert forall|i: int| 0 <= i < prev.len() implies prev[i].0 != b.last().0 by {
                assert(prev[i] == b[i]);
            }
        }
        assert(prev.push(b.last()) =~= b);
    }
}

/// A database kept as its events, its strings and its builds, and restored
/// from them, is the same database: restoring re-ingests the events and the
/// strings into an empty database and keeps each build id once.
pub proof fn law_restore_gives_back(e: Seq<EvV>, s: Seq<StrV>, b: Seq<(u64, Seq<char>)>)
    requires
        ev_sorted(e),
        fh_distinct(e),
        str_sorted(s),
        builds_distinct(b),
    ensures
        ingest_outcome(Seq::empty(), Seq::empty(), e, s) matches Ok((e2, s2, _)) && e2 == e && s2 == s,
        first_builds(b) == b,
{
    lemma_events_into_empty(e);
    lemma_strings_into_empty(s);
    lemma_first_builds_distinct(b);
}

/// The two slices a logged event is sent as join to its message.
pub proof fn law_event_parts_join_to_message(hdr: EventHeader, tag: u32, payload: Seq<u8>)
    ensures
        concat_all(event_parts(hdr, tag, payload)) == event_message(hdr, tag, payload),
{
    lemma_concat_two(crate::output::event_head(hdr, tag, payload.len()), payload);
}

/// A frame whose tag no database knows (and which is neither a stream
/// start nor an event header) is skipped: decoding gives one unknown-tag
/// warning for it and then exactly what decoding from right after it gives,
/// with the same tick rate and sequence state.
pub proof fn law_unknown_frame_is_skipped(
    data: Seq<u8>, tables: Seq<EventTable>, pos: nat, tick: u64, seq_on: bool, prev: Option<u32>,
    tag: u32, payload: Seq<u8>,
)
    requires
        payload.len() < 0x1_0000_0000,
        pos + bare_frame(tag, payload).len() <= data.len(),
        data.subrange(pos as int, (pos + bare_frame(tag, payload).len()) as int) == bare_frame(tag, payload),
        tag != TAG_STREAM_START,
        tag != TAG_EVENT_HEADER,
        find_table(tables, tag, 0) is None,
    ensures
        ({
            let (rest, r) = decode_from(data, tables, pos + bare_frame(tag, payload).len(), tick, seq_on, prev);
            decode_from(data, tables, pos, tick, seq_on, prev) == (
                seq![OutputV::Warn(Warning::UnknownTag { tag, offset: pos as usize, len: payload.len() as usize })] + rest,
                r,
            )
        }),
{
    law_decoder_reads_written_frame(data, tables, pos, tick, seq_on, prev, tag, payload);
    let frame = bare_frame(tag, payload);
    assert(frame.len() >= 5) by {
        lemma_le_bytes_len(tag as nat, 4);
        assert(crate::leb128::leb128_bytes((payload.len() as u32) as nat).len() >= 1);
    }
    let w = seq![OutputV::Warn(Warning::UnknownTag { tag, offset: pos as usize, len: payload.len() as usize })];
    assert(event_outputs(tables, tag, payload, tick, pos) == w);
    assert(Seq::<OutputV>::empty() + w =~= w);
}

/// A decoder output as it reads when the bytes it came from sit `k` bytes
/// further on: each stream offset it carries moves by `k`.
pub open spec fn shift_output(o: OutputV, k: nat) -> OutputV {
    match o {
        OutputV::Warn(Warning::TrailingBytes { count, offset }) =>
            OutputV::Warn(Warning::TrailingBytes { count, offset: (offset + k) as usize }),
        OutputV::Warn(Warning::Truncated { need, offset, remain }) =>
            OutputV::Warn(Warning::Truncated { need, offset: (offset + k) as usize, remain }),
        OutputV::Warn(Warning::UnknownTag { tag, offset, len }) =>
            OutputV::Warn(Warning::UnknownTag { tag, offset: (offset + k) as usize, len }),
        _ => o,
    }
}

/// Outputs with every stream offset moved by `k`.
pub open spec fn shift_outputs(os: Seq<OutputV>, k: nat) -> Seq<OutputV> {
    os.map_values(|o: OutputV| shift_output(o, k))
}

/// A decoding result with its stream offset moved by `k`.
pub open spec fn shift_result(r: Result<(), DecodeError>, k: nat) -> Result<(), DecodeError> {
    match r {
        Err(DecodeError::Length { offset, error }) => Err(DecodeError::Length { offset: (offset + k) as usize, error }),
        Ok(()) => Ok(()),
    }
}

proof fn lemma_shift_concat(a: Seq<OutputV>, b: Seq<OutputV>, k: nat)
    ensures
        shift_outputs(a + b, k) == shift_outputs(a, k) + shift_outputs(b, k),
{
    assert(shift_outputs(a + b, k) =~= shift_outputs(a, k) + shift_outputs(b, k));
}

proof fn lemma_terminator_within(s: Seq<u8>)
    ensures
        leb128_terminator(s) matches Some(i) ==> i < s.len(),
    decreases s.len(),
{
    if s.len() > 0 && s[0] >= 128 {
        lemma_terminator_within(s.drop_first());
    }
}

proof fn lemma_event_outputs_shift(tables: Seq<EventTable>, tag: u32, payload: Seq<u8>, tick: u64, f: nat, k: nat)
    requires
        f + k <= usize::MAX,
    ensures
        event_outputs(tables, tag, payload, tick, f + k) == shift_outputs(event_outputs(tables, tag, payload, tick, f), k),
{
    let a = event_outputs(tables, tag, payload, tick, f);
    let b = event_outputs(tables, tag, payload, tick, f + k);
    assert(b =~= shift_outputs(a, k));
}

/// One frame read `k` bytes further into a longer stream: the same step, with
/// its offsets and its next position moved by `k`.
proof fn lemma_frame_shift(pre: Seq<u8>, rest: Seq<u8>, tables: Seq<EventTable>, p: nat, tick: u64, seq_on: bool, prev: Option<u32>)
    requires
        p < rest.len(),
        pre.len() + rest.len() <= usize::MAX,
    ensures
        ({
            let k = pre.len();
            match frame_spec(rest, tables, p, tick, seq_on, prev) {
                FrameStep::Stop(o, r) => frame_spec(pre + rest, tables, k + p, tick, seq_on, prev)
                    == FrameStep::Stop(shift_outputs(o, k), shift_result(r, k)),
                FrameStep::Next(o, p2, t2, on2, pv2) => frame_spec(pre + rest, tables, k + p, tick, seq_on, prev)
                    == FrameStep::Next(shift_outputs(o, k), k + p2, t2, on2, pv2),
            }
        }),
{
    reveal(frame_spec);
    let k = pre.len();
    let data = pre + rest;
    let pos = k + p;
    if rest.len() - p < 5 {
        let o = seq![OutputV::Warn(Warning::TrailingBytes { count: (rest.len() - p) as usize, offset: p as usize })];
        assert(shift_outputs(o, k) =~= seq![OutputV::Warn(Warning::TrailingBytes { count: (data.len() - pos) as usize, offset: pos as usize })]);
    } else {
        assert(data.subrange(pos as int, (pos + 4) as int) =~= rest.subrange(p as int, (p + 4) as int));
        assert(data.skip((pos + 4) as int) =~= rest.skip((p + 4) as int));
        let tag = le_value(rest.subrange(p as int, (p + 4) as int)) as u32;
        lemma_terminator_within(rest.skip((p + 4) as int));
        match leb128_read(rest.skip((p + 4) as int)) {
            Err(e) => {
                assert(shift_outputs(Seq::<OutputV>::empty(), k) =~= Seq::<OutputV>::empty());
            },
            Ok((plen, n)) => {
                let p0 = p + 4 + n;
                assert(p0 <= rest.len());
                if rest.len() - p0 < plen {
                    let o = seq![OutputV::Warn(Warning::Truncated { need: plen, offset: p0 as usize, remain: (rest.len() - p0) as usize })];
                    assert(shift_outputs(o, k) =~= seq![OutputV::Warn(Warning::Truncated { need: plen, offset: (k + p0) as usize, remain: (data.len() - (k + p0)) as usize })]);
                } else {
                    let payload = rest.subrange(p0 as int, p0 + plen);
                    assert(data.subrange((k + p0) as int, (k + p0) + plen) =~= payload);
                    let (tick2, on2, prev2) = after_frame_start(tag, payload, tick, seq_on, prev);
                    let (gap, prev3) = seq_check(tag, payload, on2, prev2);
                    lemma_event_outputs_shift(tables, tag, payload, tick2, p, k);
                    lemma_shift_concat(gap, event_outputs(tables, tag, payload, tick2, p), k);
                    assert(shift_outputs(gap, k) =~= gap);
                }
            },
        }
    }
}

/// Decoding bytes that follow `pre` gives what decoding them alone gives,
/// with every stream offset moved by the length of `pre`.
pub proof fn law_decode_is_local(pre: Seq<u8>, rest: Seq<u8>, tables: Seq<EventTable>, p: nat, tick: u64, seq_on: bool, prev: Option<u32>)
    requires
        pre.len() + rest.len() <= usize::MAX,
    ensures
        ({
            let (o, r) = decode_from(rest, tables, p, tick, seq_on, prev);
            decode_from(pre + rest, tables, pre.len() + p, tick, seq_on, prev) == (shift_outputs(o, pre.len()), shift_result(r, pre.len()))
        }),
    decreases rest.len() - p,
{
    let k = pre.len();
    if p >= rest.len() {
        assert(shift_outputs(Seq::<OutputV>::empty(), k) =~= Seq::<OutputV>::empty());
    } else {
        lemma_frame_shift(pre, rest, tables, p, tick, seq_on, prev);
        match frame_spec(rest, tables, p, tick, seq_on, prev) {
            FrameStep::Stop(o, r) => {},
            FrameStep::Next(o, p2, t2, on2, pv2) => {
                if p2 <= p || p2 > rest.len() {
                } else {
                    law_decode_is_local(pre, rest, tables, p2, t2, on2, pv2);
                    let (more, r) = decode_from(rest, tables, p2, t2, on2, pv2);
                    lemma_shift_concat(o, more, k);
                }
            },
        }
    }
}

/// A frame whose tag no database knows, put in front of a stream, adds one
/// unknown-tag warning and nothing else: the rest decodes as it does on its
/// own, with its stream offsets moved by the frame's length.
pub proof fn law_unknown_frame_then_rest(tables: Seq<EventTable>, config: DecodeConfig, tag: u32, payload: Seq<u8>, rest: Seq<u8>)
    requires
        payload.len() < 0x1_0000_0000,
        bare_frame(tag, payload).len() + rest.len() <= usize::MAX,
        tag != TAG_STREAM_START,
        tag != TAG_EVENT_HEADER,
        find_table(tables, tag, 0) is None,
    ensures
        ({
            let f = bare_frame(tag, payload);
            let (o, r) = decode_spec(rest, tables, config);
            decode_spec(f + rest, tables, config) == (
                seq![OutputV::Warn(Warning::UnknownTag { tag, offset: 0, len: payload.len() as usize })]
                    + shift_outputs(o, f.len()),
                shift_result(r, f.len()),
            )
        }),
{
    let f = bare_frame(tag, payload);
    let data = f + rest;
    assert(data.subrange(0, f.len() as int) =~= f);
    law_unknown_frame_is_skipped(data, tables, 0, config.tick_rate_hz, config.protocol_version >= 2, None, tag, payload);
    law_decode_is_local(f, rest, tables, 0, config.tick_rate_hz, config.protocol_version >= 2, None);
    assert(f.len() + 0 == f.len());
}

} // verus!
