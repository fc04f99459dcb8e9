//! The event database: events by tag, format strings by hash, and the builds
//! they came from, with the collision policy that keeps tags, full hashes and
//! string hashes unambiguous.
//!
//! The database is held in memory; storing it in a file is the caller's part.
//! Events are kept sorted by tag and strings by hash, which is also the order
//! in which they are listed.

use vstd::prelude::*;
use vstd::utf8::*;
use vstd::string::*;
use crate::elf::{EventEntry, StringEntry, event_entry_view, string_entry_view};
use crate::text::{ascii_string, bytes_eq};
use crate::interpret::{EventTable, hex8, hex8_exec};
use crate::display::{repeat, push_repeat};
use crate::numfmt::{digits, to_digits};
use crate::text::append_bytes;

verus! {

/// An event in view form: tag, full hash, format-string hash, bytecode.
pub type EvV = (u32, u64, u32, Seq<u8>);

/// A string in view form: hash, content.
pub type StrV = (u32, Seq<char>);

/// One ingested build: its id and when it was first ingested (ISO 8601).
#[derive(Debug)]
pub struct BuildRecord {
    pub build_id: u64,
    pub ingested_at: String,
}

/// Why the database refused entries.
#[derive(Debug, Clone, Copy, PartialEq, Eq)]
pub enum DbError {
    /// A string hash already stands for different content.
    StringCollision { hash: u32 },
    /// A full hash is already known under another tag.
    FullHashCollision { full_hash: u64, existing_tag: u32, tag: u32 },
    /// A full hash is already known under the same tag, with another format
    /// hash or another bytecode.
    ContentCollision { full_hash: u64, tag: u32 },
    /// A tag is already known with another full hash.
    WireCollision { tag: u32, existing_full_hash: u64, full_hash: u64 },
    /// One build holds a tag with two different full hashes.
    SameBuildCollision { tag: u32, first_full_hash: u64, full_hash: u64 },
    /// A tag is known, but with another full hash than the build's.
    VerifyMismatch { tag: u32, db_full_hash: u64, elf_full_hash: u64 },
}

/// Counts of an ingest.
#[derive(Debug, Clone, Copy, PartialEq, Eq, Default)]
pub struct IngestStats {
    pub events_added: usize,
    pub events_skipped: usize,
    pub strings_added: usize,
    pub strings_skipped: usize,
}

/// Counts of a check: entries that an ingest would add, and entries present.
#[derive(Debug, Clone, Copy, PartialEq, Eq, Default)]
pub struct CheckStats {
    pub events_new: usize,
    pub events_existing: usize,
    pub strings_new: usize,
    pub strings_existing: usize,
}

/// Counts of a merge.
#[derive(Debug, Clone, Copy, PartialEq, Eq, Default)]
pub struct MergeStats {
    pub events_added: usize,
    pub events_skipped: usize,
    pub strings_added: usize,
    pub strings_skipped: usize,
}

/// The event database.
pub struct Db {
    events: Vec<EventEntry>,
    strings: Vec<StringEntry>,
    builds: Vec<BuildRecord>,
}

pub open spec fn evs_view(s: Seq<EventEntry>) -> Seq<EvV> {
    s.map_values(|e: EventEntry| event_entry_view(e))
}

pub open spec fn strs_view(s: Seq<StringEntry>) -> Seq<StrV> {
    s.map_values(|e: StringEntry| string_entry_view(e))
}

pub open spec fn build_view(b: BuildRecord) -> (u64, Seq<char>) {
    (b.build_id, b.ingested_at@)
}

pub open spec fn builds_view(s: Seq<BuildRecord>) -> Seq<(u64, Seq<char>)> {
    s.map_values(|b: BuildRecord| build_view(b))
}

/// Tags strictly increase.
pub open spec fn ev_sorted(s: Seq<EvV>) -> bool {
    forall|i: int, j: int| 0 <= i < j < s.len() ==> s[i].0 < s[j].0
}

/// No two events share a full hash.
pub open spec fn fh_distinct(s: Seq<EvV>) -> bool {
    forall|i: int, j: int| 0 <= i < s.len() && 0 <= j < s.len() && i != j ==> s[i].1 != s[j].1
}

/// String hashes strictly increase.
pub open spec fn str_sorted(s: Seq<StrV>) -> bool {
    forall|i: int, j: int| 0 <= i < j < s.len() ==> s[i].0 < s[j].0
}

/// No two builds share an id.
pub open spec fn builds_distinct(s: Seq<(u64, Seq<char>)>) -> bool {
    forall|i: int, j: int| 0 <= i < s.len() && 0 <= j < s.len() && i != j ==> s[i].0 != s[j].0
}

/// The first event with tag `tag`.
pub open spec fn find_by_tag(s: Seq<EvV>, tag: u32) -> Option<EvV>
    decreases s.len(),
{
    if s.len() == 0 {
        None
    } else if s[0].0 == tag {
        Some(s[0])
    } else {
        find_by_tag(s.drop_first(), tag)
    }
}

/// The first event with full hash `fh`.
pub open spec fn find_by_full_hash(s: Seq<EvV>, fh: u64) -> Option<EvV>
    decreases s.len(),
{
    if s.len() == 0 {
        None
    } else if s[0].1 == fh {
        Some(s[0])
    } else {
        find_by_full_hash(s.drop_first(), fh)
    }
}

/// The content of the first string with hash `hash`.
pub open spec fn find_str(s: Seq<StrV>, hash: u32) -> Option<Seq<char>>
    decreases s.len(),
{
    if s.len() == 0 {
        None
    } else if s[0].0 == hash {
        Some(s[0].1)
    } else {
        find_str(s.drop_first(), hash)
    }
}

/// Number of leading events whose tag is below `tag`: where an event with that
/// tag goes.
pub open spec fn ev_pos(s: Seq<EvV>, tag: u32) -> nat
    decreases s.len(),
{
    if s.len() == 0 || s[0].0 >= tag {
        0
    } else {
        1 + ev_pos(s.drop_first(), tag)
    }
}

/// Number of leading strings whose hash is below `hash`.
pub open spec fn str_pos(s: Seq<StrV>, hash: u32) -> nat
    decreases s.len(),
{
    if s.len() == 0 || s[0].0 >= hash {
        0
    } else {
        1 + str_pos(s.drop_first(), hash)
    }
}

/// `e` put in its place by tag.
pub open spec fn insert_ev(s: Seq<EvV>, e: EvV) -> Seq<EvV> {
    s.insert(ev_pos(s, e.0) as int, e)
}

/// `x` put in its place by hash.
pub open spec fn insert_str(s: Seq<StrV>, x: StrV) -> Seq<StrV> {
    s.insert(str_pos(s, x.0) as int, x)
}

/// Strings taken in order: one with a known hash and the same content is
/// skipped, one with a known hash and other content is a collision, a new one
/// is added.  The strings after ingest, and the counts added and skipped.
pub open spec fn ingest_strings_spec(db: Seq<StrV>, input: Seq<StrV>) -> Result<(Seq<StrV>, nat, nat), DbError>
    decreases input.len(),
{
    if input.len() == 0 {
        Ok((db, 0, 0))
    } else {
        match ingest_strings_spec(db, input.drop_last()) {
            Err(e) => Err(e),
            Ok((s, a, k)) => {
                let x = input.last();
                match find_str(s, x.0) {
                    Some(c) => if c == x.1 {
                        Ok((s, a, k + 1))
                    } else {
                        Err(DbError::StringCollision { hash: x.0 })
                    },
                    None => Ok((insert_str(s, x), a + 1, k)),
                }
            },
        }
    }
}

/// Events taken in order: one whose full hash is known under the same tag is
/// skipped, under another tag it is a collision; one whose tag is known with
/// another full hash is a wire collision; a new one is added.
pub open spec fn ingest_events_spec(db: Seq<EvV>, input: Seq<EvV>) -> Result<(Seq<EvV>, nat, nat), DbError>
    decreases input.len(),
{
    if input.len() == 0 {
        Ok((db, 0, 0))
    } else {
        match ingest_events_spec(db, input.drop_last()) {
            Err(e) => Err(e),
            Ok((s, a, k)) => {
                let x = input.last();
                match find_by_full_hash(s, x.1) {
                    Some(y) => if y.0 == x.0 {
                        if y == x {
                            Ok((s, a, k + 1))
                        } else {
                            Err(DbError::ContentCollision { full_hash: x.1, tag: x.0 })
                        }
                    } else {
                        Err(DbError::FullHashCollision { full_hash: x.1, existing_tag: y.0, tag: x.0 })
                    },
                    None => match find_by_tag(s, x.0) {
                        Some(y) => Err(DbError::WireCollision { tag: x.0, existing_full_hash: y.1, full_hash: x.1 }),
                        None => Ok((insert_ev(s, x), a + 1, k)),
                    },
                }
            },
        }
    }
}

/// The builds with `id` recorded at `at`, unless `id` is already recorded.
pub open spec fn record_build(b: Seq<(u64, Seq<char>)>, id: u64, at: Seq<char>) -> Seq<(u64, Seq<char>)> {
    if exists|i: int| 0 <= i < b.len() && b[i].0 == id {
        b
    } else {
        b.push((id, at))
    }
}

/// The builds in order, each id kept at its first occurrence.
pub open spec fn first_builds(s: Seq<(u64, Seq<char>)>) -> Seq<(u64, Seq<char>)>
    decreases s.len(),
{
    if s.len() == 0 {
        Seq::empty()
    } else {
        record_build(first_builds(s.drop_last()), s.last().0, s.last().1)
    }
}

impl Db {
    pub closed spec fn events_v(&self) -> Seq<EvV> {
        evs_view(self.events@)
    }

    pub closed spec fn strings_v(&self) -> Seq<StrV> {
        strs_view(self.strings@)
    }

    pub closed spec fn builds_v(&self) -> Seq<(u64, Seq<char>)> {
        builds_view(self.builds@)
    }

    /// Tags, full hashes, string hashes and build ids are each unambiguous, and
    /// events and strings are kept in order.
    pub open spec fn wf(&self) -> bool {
        &&& ev_sorted(self.events_v())
        &&& fh_distinct(self.events_v())
        &&& str_sorted(self.strings_v())
        &&& builds_distinct(self.builds_v())
    }

    /// An empty database.
    pub fn memory() -> (db: Db)
        ensures
            db.wf(),
            db.events_v() == Seq::<EvV>::empty(),
            db.strings_v() == Seq::<StrV>::empty(),
            db.builds_v() == Seq::<(u64, Seq<char>)>::empty(),
    {
        let db = Db { events: Vec::new(), strings: Vec::new(), builds: Vec::new() };
        assert(db.events_v() =~= Seq::<EvV>::empty());
        assert(db.strings_v() =~= Seq::<StrV>::empty());
        assert(db.builds_v() =~= Seq::<(u64, Seq<char>)>::empty());
        db
    }
}


// ---------------------------------------------------------------------------
// Lemmas on the sorted sequences.

pub(crate) proof fn lemma_str_pos(s: Seq<StrV>, h: u32)
    ensures
        str_pos(s, h) <= s.len(),
        forall|j: int| 0 <= j < str_pos(s, h) ==> s[j].0 < h,
        str_pos(s, h) < s.len() ==> s[str_pos(s, h) as int].0 >= h,
    decreases s.len(),
{
    if s.len() > 0 && s[0].0 < h {
        lemma_str_pos(s.drop_first(), h);
        assert forall|j: int| 0 <= j < str_pos(s, h) implies s[j].0 < h by {
            if j > 0 {
                assert(s[j] == s.drop_first()[j - 1]);
            }
        }
    }
}

pub(crate) proof fn lemma_ev_pos(s: Seq<EvV>, h: u32)
    ensures
        ev_pos(s, h) <= s.len(),
        forall|j: int| 0 <= j < ev_pos(s, h) ==> s[j].0 < h,
        ev_pos(s, h) < s.len() ==> s[ev_pos(s, h) as int].0 >= h,
    decreases s.len(),
{
    if s.len() > 0 && s[0].0 < h {
        lemma_ev_pos(s.drop_first(), h);
        assert forall|j: int| 0 <= j < ev_pos(s, h) implies s[j].0 < h by {
            if j > 0 {
                assert(s[j] == s.drop_first()[j - 1]);
            }
        }
    }
}

pub(crate) proof fn lemma_find_str(s: Seq<StrV>, h: u32)
    ensures
        find_str(s, h) is None <==> (forall|j: int| 0 <= j < s.len() ==> s[j].0 != h),
        find_str(s, h) matches Some(c) ==> exists|j: int| 0 <= j < s.len() && s[j].0 == h && s[j].1 == c,
    decreases s.len(),
{
    if s.len() > 0 {
        lemma_find_str(s.drop_first(), h);
        if s[0].0 != h {
            assert forall|j: int| 0 <= j < s.len() && s[j].0 == h implies exists|k: int| 0 <= k < s.drop_first().len() && s.drop_first()[k].0 == h by {
                assert(s.drop_first()[j - 1] == s[j]);
            }
            if let Some(c) = find_str(s, h) {
                let k = choose|k: int| 0 <= k < s.drop_first().len() && s.drop_first()[k].0 == h && s.drop_first()[k].1 == c;
                assert(s[k + 1] == s.drop_first()[k]);
            }
        }
    }
}

pub(crate) proof fn lemma_find_by_tag(s: Seq<EvV>, h: u32)
    ensures
        find_by_tag(s, h) is None <==> (forall|j: int| 0 <= j < s.len() ==> s[j].0 != h),
        find_by_tag(s, h) matches Some(y) ==> exists|j: int| 0 <= j < s.len() && s[j] == y && y.0 == h,
    decreases s.len(),
{
    if s.len() > 0 {
        lemma_find_by_tag(s.drop_first(), h);
        if s[0].0 != h {
            assert forall|j: int| 0 <= j < s.len() && s[j].0 == h implies exists|k: int| 0 <= k < s.drop_first().len() && s.drop_first()[k].0 == h by {
                assert(s.drop_first()[j - 1] == s[j]);
            }
            if let Some(y) = find_by_tag(s, h) {
                let k = choose|k: int| 0 <= k < s.drop_first().len() && s.drop_first()[k] == y && y.0 == h;
                assert(s[k + 1] == s.drop_first()[k]);
            }
        }
    }
}

pub(crate) proof fn lemma_find_by_full_hash(s: Seq<EvV>, h: u64)
    ensures
        find_by_full_hash(s, h) is None <==> (forall|j: int| 0 <= j < s.len() ==> s[j].1 != h),
    decreases s.len(),
{
    if s.len() > 0 {
        lemma_find_by_full_hash(s.drop_first(), h);
        if s[0].1 != h {
            assert forall|j: int| 0 <= j < s.len() && s[j].1 == h implies exists|k: int| 0 <= k < s.drop_first().len() && s.drop_first()[k].1 == h by {
                assert(s.drop_first()[j - 1] == s[j]);
            }
        }
    }
}

/// The event that a full-hash lookup finds has that full hash.
proof fn lemma_find_fh_hash(s: Seq<EvV>, h: u64)
    ensures
        find_by_full_hash(s, h) matches Some(y) ==> y.1 == h,
    decreases s.len(),
{
    if s.len() > 0 && s[0].1 != h {
        lemma_find_fh_hash(s.drop_first(), h);
    }
}

proof fn lemma_insert_str_sorted(s: Seq<StrV>, x: StrV)
    requires
        str_sorted(s),
        find_str(s, x.0) is None,
    ensures
        str_sorted(insert_str(s, x)),
        insert_str(s, x).len() == s.len() + 1,
{
    lemma_str_pos(s, x.0);
    lemma_find_str(s, x.0);
    let p = str_pos(s, x.0) as int;
    let t = insert_str(s, x);
    assert forall|i: int, j: int| 0 <= i < j < t.len() implies t[i].0 < t[j].0 by {
        if j < p {
        } else if j == p {
        } else if i < p {
            assert(t[j] == s[j - 1]);
            assert(s[j - 1].0 >= s[p].0 || j - 1 == p);
        } else if i == p {
            assert(t[j] == s[j - 1]);
            assert(s[p].0 >= x.0 && s[p].0 != x.0);
        } else {
            assert(t[i] == s[i - 1] && t[j] == s[j - 1]);
        }
    }
}

pub(crate) proof fn lemma_insert_ev_sorted(s: Seq<EvV>, x: EvV)
    requires
        ev_sorted(s),
        fh_distinct(s),
        find_by_tag(s, x.0) is None,
        find_by_full_hash(s, x.1) is None,
    ensures
        ev_sorted(insert_ev(s, x)),
        fh_distinct(insert_ev(s, x)),
        insert_ev(s, x).len() == s.len() + 1,
{
    lemma_ev_pos(s, x.0);
    lemma_find_by_tag(s, x.0);
    lemma_find_by_full_hash(s, x.1);
    let p = ev_pos(s, x.0) as int;
    let t = insert_ev(s, x);
    assert forall|i: int, j: int| 0 <= i < j < t.len() implies t[i].0 < t[j].0 by {
        if j < p {
        } else if j == p {
        } else if i < p {
            assert(t[j] == s[j - 1]);
            assert(s[j - 1].0 >= s[p].0 || j - 1 == p);
        } else if i == p {
            assert(t[j] == s[j - 1]);
            assert(s[p].0 >= x.0 && s[p].0 != x.0);
        } else {
            assert(t[i] == s[i - 1] && t[j] == s[j - 1]);
        }
    }
    assert forall|i: int, j: int| 0 <= i < t.len() && 0 <= j < t.len() && i != j implies t[i].1 != t[j].1 by {
        if i != p && j != p {
            let i0 = if i < p { i } else { i - 1 };
            let j0 = if j < p { j } else { j - 1 };
            assert(t[i] == s[i0] && t[j] == s[j0]);
        } else if i == p {
            let j0 = if j < p { j } else { j - 1 };
            assert(t[j] == s[j0]);
        } else {
            let i0 = if i < p { i } else { i - 1 };
            assert(t[i] == s[i0]);
        }
    }
}


// ---------------------------------------------------------------------------
// Executable helpers.

/// A copy of an event.
pub fn clone_event(e: &EventEntry) -> (r: EventEntry)
    ensures
        event_entry_view(r) == event_entry_view(*e),
{
    EventEntry {
        tag: e.tag,
        full_hash: e.full_hash,
        format_hash: e.format_hash,
        bytecode: vstd::slice::slice_to_vec(e.bytecode.as_slice()),
    }
}

/// A copy of a string entry.
pub fn clone_string(s: &StringEntry) -> (r: StringEntry)
    ensures
        string_entry_view(r) == string_entry_view(*s),
{
    StringEntry { hash: s.hash, content: s.content.clone() }
}

fn copy_events(v: &[EventEntry]) -> (r: Vec<EventEntry>)
    ensures
        evs_view(r@) == evs_view(v@),
{
    let mut out: Vec<EventEntry> = Vec::new();
    let mut i: usize = 0;
    while i < v.len()
        invariant
            i <= v@.len(),
            evs_view(out@) == evs_view(v@.take(i as int)),
        decreases v@.len() - i,
    {
        let e = clone_event(&v[i]);
        let ghost before = evs_view(out@);
        out.push(e);
        assert(evs_view(out@) =~= before.push(event_entry_view(e)));
        assert(v@.take(i as int + 1) =~= v@.take(i as int).push(v@[i as int]));
        assert(evs_view(v@.take(i as int + 1)) =~= evs_view(v@.take(i as int)).push(event_entry_view(v@[i as int])));
        i = i + 1;
    }
    assert(v@.take(v@.len() as int) =~= v@);
    out
}

fn copy_strings(v: &[StringEntry]) -> (r: Vec<StringEntry>)
    ensures
        strs_view(r@) == strs_view(v@),
{
    let mut out: Vec<StringEntry> = Vec::new();
    let mut i: usize = 0;
    while i < v.len()
        invariant
            i <= v@.len(),
            strs_view(out@) == strs_view(v@.take(i as int)),
        decreases v@.len() - i,
    {
        let e = clone_string(&v[i]);
        let ghost before = strs_view(out@);
        out.push(e);
        assert(strs_view(out@) =~= before.push(string_entry_view(e)));
        assert(v@.take(i as int + 1) =~= v@.take(i as int).push(v@[i as int]));
        assert(strs_view(v@.take(i as int + 1)) =~= strs_view(v@.take(i as int)).push(string_entry_view(v@[i as int])));
        i = i + 1;
    }
    assert(v@.take(v@.len() as int) =~= v@);
    out
}

/// Index of the first string with hash `hash`.
fn find_str_exec(v: &Vec<StringEntry>, hash: u32) -> (r: Option<usize>)
    ensures
        match find_str(strs_view(v@), hash) {
            Some(c) => r matches Some(i) && i < v@.len() && v@[i as int].hash == hash && v@[i as int].content@ == c,
            None => r is None,
        },
{
    let ghost sv = strs_view(v@);
    let mut i: usize = 0;
    assert(sv.skip(0) =~= sv);
    while i < v.len()
        invariant
            i <= v@.len(),
            sv == strs_view(v@),
            find_str(sv, hash) == find_str(sv.skip(i as int), hash),
        decreases v@.len() - i,
    {
        assert(sv.skip(i as int).drop_first() =~= sv.skip(i + 1));
        if v[i].hash == hash {
            return Some(i);
        }
        i = i + 1;
    }
    None
}

/// Index of the first event with tag `tag`.
fn find_tag_exec(v: &Vec<EventEntry>, tag: u32) -> (r: Option<usize>)
    ensures
        match find_by_tag(evs_view(v@), tag) {
            Some(y) => r matches Some(i) && i < v@.len() && event_entry_view(v@[i as int]) == y,
            None => r is None,
        },
{
    let ghost sv = evs_view(v@);
    let mut i: usize = 0;
    assert(sv.skip(0) =~= sv);
    while i < v.len()
        invariant
            i <= v@.len(),
            sv == evs_view(v@),
            find_by_tag(sv, tag) == find_by_tag(sv.skip(i as int), tag),
        decreases v@.len() - i,
    {
        assert(sv.skip(i as int).drop_first() =~= sv.skip(i + 1));
        if v[i].tag == tag {
            return Some(i);
        }
        i = i + 1;
    }
    None
}

/// Index of the first event with full hash `fh`.
fn find_fh_exec(v: &Vec<EventEntry>, fh: u64) -> (r: Option<usize>)
    ensures
        match find_by_full_hash(evs_view(v@), fh) {
            Some(y) => r matches Some(i) && i < v@.len() && event_entry_view(v@[i as int]) == y,
            None => r is None,
        },
{
    let ghost sv = evs_view(v@);
    let mut i: usize = 0;
    assert(sv.skip(0) =~= sv);
    while i < v.len()
        invariant
            i <= v@.len(),
            sv == evs_view(v@),
            find_by_full_hash(sv, fh) == find_by_full_hash(sv.skip(i as int), fh),
        decreases v@.len() - i,
    {
        assert(sv.skip(i as int).drop_first() =~= sv.skip(i + 1));
        if v[i].full_hash == fh {
            return Some(i);
        }
        i = i + 1;
    }
    None
}

/// Put `x` in its place by hash.
fn insert_str_exec(v: &mut Vec<StringEntry>, x: StringEntry)
    requires
        str_sorted(strs_view(old(v)@)),
        find_str(strs_view(old(v)@), x.hash) is None,
    ensures
        strs_view(final(v)@) == insert_str(strs_view(old(v)@), string_entry_view(x)),
        str_sorted(strs_view(final(v)@)),
{
    let ghost sv = strs_view(v@);
    proof { lemma_str_pos(sv, x.hash); }
    let mut i: usize = 0;
    while i < v.len() && v[i].hash < x.hash
        invariant
            i <= v@.len(),
            sv == strs_view(v@),
            forall|j: int| 0 <= j < i ==> sv[j].0 < x.hash,
            str_sorted(sv),
        decreases v@.len() - i,
    {
        i = i + 1;
    }
    proof {
        lemma_str_pos(sv, x.hash);
        let p = str_pos(sv, x.hash) as int;
        if (i as int) < p {
            assert(sv[i as int].0 < x.hash);
        } else if (i as int) > p {
            assert(sv[p].0 < x.hash);
        }
        lemma_insert_str_sorted(sv, string_entry_view(x));
    }
    let ghost xv = string_entry_view(x);
    v.insert(i, x);
    assert(strs_view(v@) =~= sv.insert(i as int, xv));
}

/// Put `x` in its place by tag.
fn insert_ev_exec(v: &mut Vec<EventEntry>, x: EventEntry)
    requires
        ev_sorted(evs_view(old(v)@)),
        fh_distinct(evs_view(old(v)@)),
        find_by_tag(evs_view(old(v)@), x.tag) is None,
        find_by_full_hash(evs_view(old(v)@), x.full_hash) is None,
    ensures
        evs_view(final(v)@) == insert_ev(evs_view(old(v)@), event_entry_view(x)),
        ev_sorted(evs_view(final(v)@)),
        fh_distinct(evs_view(final(v)@)),
{
    let ghost sv = evs_view(v@);
    proof { lemma_ev_pos(sv, x.tag); }
    let mut i: usize = 0;
    while i < v.len() && v[i].tag < x.tag
        invariant
            i <= v@.len(),
            sv == evs_view(v@),
            forall|j: int| 0 <= j < i ==> sv[j].0 < x.tag,
            ev_sorted(sv),
        decreases v@.len() - i,
    {
        i = i + 1;
    }
    proof {
        lemma_ev_pos(sv, x.tag);
        let p = ev_pos(sv, x.tag) as int;
        if (i as int) < p {
            assert(sv[i as int].0 < x.tag);
        } else if (i as int) > p {
            assert(sv[p].0 < x.tag);
        }
        lemma_insert_ev_sorted(sv, event_entry_view(x));
    }
    let ghost xv = event_entry_view(x);
    v.insert(i, x);
    assert(evs_view(v@) =~= sv.insert(i as int, xv));
}

proof fn lemma_strings_err(db: Seq<StrV>, input: Seq<StrV>, k: nat, n: nat, e: DbError)
    requires
        k <= n <= input.len(),
        ingest_strings_spec(db, input.take(k as int)) == Err::<(Seq<StrV>, nat, nat), DbError>(e),
    ensures
        ingest_strings_spec(db, input.take(n as int)) == Err::<(Seq<StrV>, nat, nat), DbError>(e),
    decreases n,
{
    if n > k {
        lemma_strings_err(db, input, k, (n - 1) as nat, e);
        assert(input.take(n as int).drop_last() =~= input.take(n - 1));
    }
}

proof fn lemma_events_err(db: Seq<EvV>, input: Seq<EvV>, k: nat, n: nat, e: DbError)
    requires
        k <= n <= input.len(),
        ingest_events_spec(db, input.take(k as int)) == Err::<(Seq<EvV>, nat, nat), DbError>(e),
    ensures
        ingest_events_spec(db, input.take(n as int)) == Err::<(Seq<EvV>, nat, nat), DbError>(e),
    decreases n,
{
    if n > k {
        lemma_events_err(db, input, k, (n - 1) as nat, e);
        assert(input.take(n as int).drop_last() =~= input.take(n - 1));
    }
}

/// Ingest strings into `strs` (see `ingest_strings_spec`).
fn ingest_strings_exec(strs: &mut Vec<StringEntry>, input: &[StringEntry]) -> (r: Result<(usize, usize), DbError>)
    requires
        str_sorted(strs_view(old(strs)@)),
    ensures
        match ingest_strings_spec(strs_view(old(strs)@), strs_view(input@)) {
            Ok((s2, a, k)) => r == Ok::<(usize, usize), DbError>((a as usize, k as usize))
                && strs_view(final(strs)@) == s2 && str_sorted(s2) && a + k == input@.len(),
            Err(e) => r == Err::<(usize, usize), DbError>(e),
        },
{
    let ghost db0 = strs_view(strs@);
    let ghost inv = strs_view(input@);
    let mut added: usize = 0;
    let mut skipped: usize = 0;
    let mut i: usize = 0;
    assert(inv.take(0) =~= Seq::<StrV>::empty());
    while i < input.len()
        invariant
            i <= input@.len(),
            inv == strs_view(input@),
            db0 == strs_view(old(strs)@),
            added + skipped == i,
            str_sorted(strs_view(strs@)),
            ingest_strings_spec(db0, inv.take(i as int)) == Ok::<(Seq<StrV>, nat, nat), DbError>((strs_view(strs@), added as nat, skipped as nat)),
        decreases input@.len() - i,
    {
        assert(inv.take(i as int + 1).drop_last() =~= inv.take(i as int));
        assert(inv.take(i as int + 1).last() == string_entry_view(input@[i as int]));
        let x = &input[i];
        match find_str_exec(strs, x.hash) {
            Some(j) => {
                if strs[j].content == x.content {
                    skipped = skipped + 1;
                } else {
                    proof {
                        assert(ingest_strings_spec(db0, inv.take(i as int + 1)) == Err::<(Seq<StrV>, nat, nat), DbError>(DbError::StringCollision { hash: x.hash }));
                        lemma_strings_err(db0, inv, (i + 1) as nat, inv.len(), DbError::StringCollision { hash: x.hash });
                        assert(inv.take(inv.len() as int) =~= inv);
                        assert(ingest_strings_spec(db0, inv) == Err::<(Seq<StrV>, nat, nat), DbError>(DbError::StringCollision { hash: x.hash }));
                    }
                    return Err(DbError::StringCollision { hash: x.hash });
                }
            }
            None => {
                insert_str_exec(strs, clone_string(x));
                added = added + 1;
            }
        }
        i = i + 1;
    }
    assert(inv.take(input@.len() as int) =~= inv);
    Ok((added, skipped))
}

/// Ingest events into `evs` (see `ingest_events_spec`).
fn ingest_events_exec(evs: &mut Vec<EventEntry>, input: &[EventEntry]) -> (r: Result<(usize, usize), DbError>)
    requires
        ev_sorted(evs_view(old(evs)@)),
        fh_distinct(evs_view(old(evs)@)),
    ensures
        match ingest_events_spec(evs_view(old(evs)@), evs_view(input@)) {
            Ok((s2, a, k)) => r == Ok::<(usize, usize), DbError>((a as usize, k as usize))
                && evs_view(final(evs)@) == s2 && ev_sorted(s2) && fh_distinct(s2) && a + k == input@.len(),
            Err(e) => r == Err::<(usize, usize), DbError>(e),
        },
{
    let ghost db0 = evs_view(evs@);
    let ghost inv = evs_view(input@);
    let mut added: usize = 0;
    let mut skipped: usize = 0;
    let mut i: usize = 0;
    assert(inv.take(0) =~= Seq::<EvV>::empty());
    while i < input.len()
        invariant
            i <= input@.len(),
            inv == evs_view(input@),
            db0 == evs_view(old(evs)@),
            added + skipped == i,
            ev_sorted(evs_view(evs@)),
            fh_distinct(evs_view(evs@)),
            ingest_events_spec(db0, inv.take(i as int)) == Ok::<(Seq<EvV>, nat, nat), DbError>((evs_view(evs@), added as nat, skipped as nat)),
        decreases input@.len() - i,
    {
        assert(inv.take(i as int + 1).drop_last() =~= inv.take(i as int));
        assert(inv.take(i as int + 1).last() == event_entry_view(input@[i as int]));
        let x = &input[i];
        match find_fh_exec(evs, x.full_hash) {
            Some(j) => {
                if evs[j].tag == x.tag {
                    if evs[j].format_hash != x.format_hash || !bytes_eq(evs[j].bytecode.as_slice(), x.bytecode.as_slice()) {
                        let err = DbError::ContentCollision { full_hash: x.full_hash, tag: x.tag };
                        proof {
                            lemma_events_err(db0, inv, (i + 1) as nat, inv.len(), err);
                            assert(inv.take(inv.len() as int) =~= inv);
                        }
                        return Err(err);
                    }
                    proof { lemma_find_fh_hash(evs_view(evs@), x.full_hash); }
                    assert(event_entry_view(evs@[j as int]) == event_entry_view(input@[i as int]));
                    skipped = skipped + 1;
                } else {
                    let err = DbError::FullHashCollision { full_hash: x.full_hash, existing_tag: evs[j].tag, tag: x.tag };
                    proof {
                        lemma_events_err(db0, inv, (i + 1) as nat, inv.len(), err);
                        assert(inv.take(inv.len() as int) =~= inv);
                    }
                    return Err(err);
                }
            }
            None => match find_tag_exec(evs, x.tag) {
                Some(j) => {
                    let err = DbError::WireCollision { tag: x.tag, existing_full_hash: evs[j].full_hash, full_hash: x.full_hash };
                    proof {
                        lemma_events_err(db0, inv, (i + 1) as nat, inv.len(), err);
                        assert(inv.take(inv.len() as int) =~= inv);
                    }
                    return Err(err);
                }
                None => {
                    insert_ev_exec(evs, clone_event(x));
                    added = added + 1;
                }
            },
        }
        i = i + 1;
    }
    assert(inv.take(input@.len() as int) =~= inv);
    Ok((added, skipped))
}


// ---------------------------------------------------------------------------
// Calendar.

/// Leap years of the Gregorian calendar.
pub open spec fn is_leap(y: nat) -> bool {
    y % 4 == 0 && (y % 100 != 0 || y % 400 == 0)
}

/// Days in month `m` (1 to 12) of year `y`.
pub open spec fn days_in_month(y: nat, m: nat) -> nat {
    if m == 2 {
        if is_leap(y) { 29 } else { 28 }
    } else if m == 4 || m == 6 || m == 9 || m == 11 {
        30
    } else {
        31
    }
}

/// The day after `(y, m, d)`.
pub open spec fn next_day(date: (nat, nat, nat)) -> (nat, nat, nat) {
    let (y, m, d) = date;
    if d < days_in_month(y, m) {
        (y, m, d + 1)
    } else if m < 12 {
        (y, m + 1, 1)
    } else {
        (y + 1, 1, 1)
    }
}

/// The date `n` days after `date`.
pub open spec fn advance(date: (nat, nat, nat), n: nat) -> (nat, nat, nat)
    decreases n,
{
    if n == 0 { date } else { next_day(advance(date, (n - 1) as nat)) }
}

/// The calendar date (year, month, day) `n` days after 1970-01-01.
pub open spec fn date_of(n: nat) -> (nat, nat, nat) {
    advance((1970, 1, 1), n)
}

/// Days from the first of month `m` to the end of year `y`.
pub open spec fn days_from_month(y: nat, m: nat) -> nat
    decreases 13 - m,
{
    if m >= 13 || m == 0 { 0 } else { days_in_month(y, m) + days_from_month(y, m + 1) }
}

/// Days in year `y`.
pub open spec fn days_in_year(y: nat) -> nat {
    if is_leap(y) { 366 } else { 365 }
}

proof fn lemma_advance_add(date: (nat, nat, nat), a: nat, b: nat)
    ensures
        advance(date, a + b) == advance(advance(date, a), b),
    decreases b,
{
    if b > 0 {
        lemma_advance_add(date, a, (b - 1) as nat);
        assert(advance(date, a + b) == next_day(advance(date, (a + b - 1) as nat)));
    }
}

proof fn lemma_advance_in_month(y: nat, m: nat, d: nat, j: nat)
    requires
        1 <= d,
        d + j <= days_in_month(y, m),
    ensures
        advance((y, m, d), j) == (y, m, d + j),
    decreases j,
{
    if j > 0 {
        lemma_advance_in_month(y, m, d, (j - 1) as nat);
    }
}

proof fn lemma_advance_month(y: nat, m: nat)
    requires
        1 <= m <= 12,
    ensures
        advance((y, m, 1), days_in_month(y, m)) == (if m < 12 { (y, m + 1, 1nat) } else { (y + 1, 1nat, 1nat) }),
{
    let n = days_in_month(y, m);
    lemma_advance_in_month(y, m, 1, (n - 1) as nat);
    assert(advance((y, m, 1), n) == next_day(advance((y, m, 1), (n - 1) as nat)));
}

proof fn lemma_advance_rest_of_year(y: nat, m: nat)
    requires
        1 <= m <= 12,
    ensures
        advance((y, m, 1), days_from_month(y, m)) == (y + 1, 1nat, 1nat),
    decreases 13 - m,
{
    lemma_advance_month(y, m);
    if m < 12 {
        lemma_advance_rest_of_year(y, m + 1);
        lemma_advance_add((y, m, 1), days_in_month(y, m), days_from_month(y, m + 1));
    } else {
        assert(days_from_month(y, 13) == 0);
    }
}

proof fn lemma_year_days(y: nat)
    ensures
        days_from_month(y, 1) == days_in_year(y),
{
    reveal_with_fuel(days_from_month, 13);
}

/// Days in year `y`.
fn days_in_year_exec(y: u64) -> (n: u64)
    ensures
        n == days_in_year(y as nat),
{
    if y % 4 == 0 && (y % 100 != 0 || y % 400 == 0) { 366 } else { 365 }
}

/// Days in month `m` of year `y`.
fn days_in_month_exec(y: u64, m: u64) -> (n: u64)
    ensures
        n == days_in_month(y as nat, m as nat),
{
    if m == 2 {
        if y % 4 == 0 && (y % 100 != 0 || y % 400 == 0) { 29 } else { 28 }
    } else if m == 4 || m == 6 || m == 9 || m == 11 {
        30
    } else {
        31
    }
}

/// The calendar date `days` days after 1970-01-01.
pub fn civil_from_days(days: u32) -> (r: (u64, u64, u64))
    ensures
        (r.0 as nat, r.1 as nat, r.2 as nat) == date_of(days as nat),
        1 <= r.1 <= 12,
        1 <= r.2 <= 31,
{
    let mut y: u64 = 1970;
    let mut rem: u64 = days as u64;
    proof { assert(advance((1970, 1, 1), days as nat) == advance((y as nat, 1, 1), rem as nat)); }
    while rem >= days_in_year_exec(y)
        invariant
            1970 <= y <= 1970 + days as u64,
            rem + (y - 1970) * 365 <= days,
            date_of(days as nat) == advance((y as nat, 1, 1), rem as nat),
        decreases rem,
    {
        let n = days_in_year_exec(y);
        proof {
            lemma_year_days(y as nat);
            lemma_advance_rest_of_year(y as nat, 1);
            lemma_advance_add((y as nat, 1, 1), n as nat, (rem - n) as nat);
        }
        rem = rem - n;
        y = y + 1;
    }
    let mut m: u64 = 1;
    proof { lemma_year_days(y as nat); }
    while rem >= days_in_month_exec(y, m)
        invariant
            1 <= m <= 12,
            rem < days_from_month(y as nat, m as nat),
            date_of(days as nat) == advance((y as nat, m as nat, 1), rem as nat),
        decreases 13 - m,
    {
        let n = days_in_month_exec(y, m);
        proof {
            lemma_advance_month(y as nat, m as nat);
            lemma_advance_add((y as nat, m as nat, 1), n as nat, (rem - n) as nat);
            if m == 12 {
                assert(days_from_month(y as nat, 13) == 0);
            }
        }
        rem = rem - n;
        m = m + 1;
    }
    proof { lemma_advance_in_month(y as nat, m as nat, 1, rem as nat); }
    (y, m, rem + 1)
}


/// `v` in decimal, zero-padded to at least `w` digits.
pub open spec fn pad_num(v: nat, w: nat) -> Seq<u8> {
    let d = digits(v, 10, false);
    if d.len() >= w { d } else { repeat(48u8, (w - d.len()) as nat) + d }
}

/// The day count since 1970-01-01 that the timestamp conversion works on: the
/// whole days in `secs`, as a 32-bit number.
pub open spec fn day_count(secs: u64) -> nat {
    (secs / 86400) as nat % 0x1_0000_0000
}

/// `YYYY-MM-DDThh:mm:ssZ` for `secs` seconds after the Unix epoch, in UTC.
pub open spec fn iso8601_spec(secs: u64) -> Seq<u8> {
    let rem = (secs % 86400) as nat;
    let (y, m, d) = date_of(day_count(secs));
    pad_num(y, 4) + seq![45u8] + pad_num(m, 2) + seq![45u8] + pad_num(d, 2) + seq![84u8]
        + pad_num(rem / 3600, 2) + seq![58u8] + pad_num((rem % 3600) / 60, 2) + seq![58u8]
        + pad_num(rem % 60, 2) + seq![90u8]
}

/// Every byte is ASCII.
pub open spec fn is_ascii_bytes(s: Seq<u8>) -> bool {
    forall|i: int| 0 <= i < s.len() ==> s[i] < 0x80
}

/// Append one ASCII byte.
fn push_ascii(out: &mut Vec<u8>, b: u8)
    requires
        b < 0x80,
    ensures
        final(out)@ == old(out)@.push(b),
        is_ascii_bytes(old(out)@) ==> is_ascii_bytes(final(out)@),
{
    out.push(b);
}

/// Append `v` in decimal, zero-padded to at least `w` digits.
fn push_padded(out: &mut Vec<u8>, v: u64, w: usize)
    ensures
        final(out)@ == old(out)@ + pad_num(v as nat, w as nat),
        is_ascii_bytes(old(out)@) ==> is_ascii_bytes(final(out)@),
{
    proof {
        assert forall|i: int| 0 <= i < pad_num(v as nat, w as nat).len() implies pad_num(v as nat, w as nat)[i] < 0x80 by {
            lemma_pad_ascii(v as nat, w as nat, i);
        }
    }
    let d = to_digits(v, 10, false);
    if d.len() < w {
        push_repeat(out, 48u8, w - d.len());
    }
    append_bytes(out, d.as_slice());
    assert(final(out)@ =~= old(out)@ + pad_num(v as nat, w as nat)) by {
        if d@.len() < w {
        }
    }
}

/// Render `secs` seconds after the Unix epoch as `YYYY-MM-DDThh:mm:ssZ`.
pub fn secs_to_iso8601(secs: u64) -> (s: String)
    ensures
        encode_utf8(s@) == iso8601_spec(secs),
{
    let days = ((secs / 86400) % 0x1_0000_0000) as u32;
    assert(days as nat == day_count(secs));
    let rem = secs % 86400;
    let (y, m, d) = civil_from_days(days);
    let mut out: Vec<u8> = Vec::new();
    push_padded(&mut out, y, 4);
    push_ascii(&mut out, 45u8);
    push_padded(&mut out, m, 2);
    push_ascii(&mut out, 45u8);
    push_padded(&mut out, d, 2);
    push_ascii(&mut out, 84u8);
    push_padded(&mut out, rem / 3600, 2);
    push_ascii(&mut out, 58u8);
    push_padded(&mut out, (rem % 3600) / 60, 2);
    push_ascii(&mut out, 58u8);
    push_padded(&mut out, rem % 60, 2);
    push_ascii(&mut out, 90u8);
    assert(out@ =~= iso8601_spec(secs));
    ascii_string(out.as_slice())
}

proof fn lemma_digits_ascii(v: nat, i: int)
    requires
        0 <= i < digits(v, 10, false).len(),
    ensures
        digits(v, 10, false)[i] < 0x80,
    decreases v,
{
    if v >= 10 {
        crate::numfmt::lemma_div_lt(v, 10);
        if i < digits(v / 10, 10, false).len() {
            lemma_digits_ascii(v / 10, i);
        }
    }
}

proof fn lemma_pad_ascii(v: nat, w: nat, i: int)
    requires
        0 <= i < pad_num(v, w).len(),
    ensures
        pad_num(v, w)[i] < 0x80,
{
    let d = digits(v, 10, false);
    if d.len() >= w {
        lemma_digits_ascii(v, i);
    } else {
        let k = (w - d.len()) as int;
        if i >= k {
            lemma_digits_ascii(v, i - k);
        }
    }
}


// ---------------------------------------------------------------------------
// Database operations.

/// What an ingest does: strings first, then events; any collision refuses the
/// whole ingest.  The events and strings after it, and its counts.
pub open spec fn ingest_outcome(db_e: Seq<EvV>, db_s: Seq<StrV>, events: Seq<EvV>, strings: Seq<StrV>) -> Result<(Seq<EvV>, Seq<StrV>, IngestStats), DbError> {
    match ingest_strings_spec(db_s, strings) {
        Err(e) => Err(e),
        Ok((s2, sa, ss)) => match ingest_events_spec(db_e, events) {
            Err(e) => Err(e),
            Ok((e2, ea, es)) => Ok((e2, s2, IngestStats {
                events_added: ea as usize,
                events_skipped: es as usize,
                strings_added: sa as usize,
                strings_skipped: ss as usize,
            })),
        },
    }
}

/// Within one build, the first full hash seen for a tag must be the only one.
pub open spec fn same_build_check(input: Seq<EvV>) -> Result<(), DbError>
    decreases input.len(),
{
    if input.len() == 0 {
        Ok(())
    } else {
        match same_build_check(input.drop_last()) {
            Err(e) => Err(e),
            Ok(()) => {
                let x = input.last();
                match find_by_tag(input.drop_last(), x.0) {
                    Some(y) => if y.1 != x.1 {
                        Err(DbError::SameBuildCollision { tag: x.0, first_full_hash: y.1, full_hash: x.1 })
                    } else {
                        Ok(())
                    },
                    None => Ok(()),
                }
            },
        }
    }
}

/// Strings against the database alone: (new, existing), or the first collision.
pub open spec fn check_strings_spec(db: Seq<StrV>, input: Seq<StrV>) -> Result<(nat, nat), DbError>
    decreases input.len(),
{
    if input.len() == 0 {
        Ok((0, 0))
    } else {
        match check_strings_spec(db, input.drop_last()) {
            Err(e) => Err(e),
            Ok((n, k)) => {
                let x = input.last();
                match find_str(db, x.0) {
                    Some(c) => if c == x.1 { Ok((n, k + 1)) } else { Err(DbError::StringCollision { hash: x.0 }) },
                    None => Ok((n + 1, k)),
                }
            },
        }
    }
}

/// Events against the database alone: (new, existing), or the first collision.
pub open spec fn check_events_spec(db: Seq<EvV>, input: Seq<EvV>) -> Result<(nat, nat), DbError>
    decreases input.len(),
{
    if input.len() == 0 {
        Ok((0, 0))
    } else {
        match check_events_spec(db, input.drop_last()) {
            Err(e) => Err(e),
            Ok((n, k)) => {
                let x = input.last();
                match find_by_full_hash(db, x.1) {
                    Some(y) => if y.0 == x.0 {
                        if y == x {
                            Ok((n, k + 1))
                        } else {
                            Err(DbError::ContentCollision { full_hash: x.1, tag: x.0 })
                        }
                    } else {
                        Err(DbError::FullHashCollision { full_hash: x.1, existing_tag: y.0, tag: x.0 })
                    },
                    None => match find_by_tag(db, x.0) {
                        Some(y) => Err(DbError::WireCollision { tag: x.0, existing_full_hash: y.1, full_hash: x.1 }),
                        None => Ok((n + 1, k)),
                    },
                }
            },
        }
    }
}

/// What a check reports.
pub open spec fn check_outcome(db_e: Seq<EvV>, db_s: Seq<StrV>, events: Seq<EvV>, strings: Seq<StrV>) -> Result<CheckStats, DbError> {
    match same_build_check(events) {
        Err(e) => Err(e),
        Ok(()) => match check_strings_spec(db_s, strings) {
            Err(e) => Err(e),
            Ok((sn, sk)) => match check_events_spec(db_e, events) {
                Err(e) => Err(e),
                Ok((en, ek)) => Ok(CheckStats {
                    events_new: en as usize,
                    events_existing: ek as usize,
                    strings_new: sn as usize,
                    strings_existing: sk as usize,
                }),
            },
        },
    }
}

/// The tags of the build that the database lacks, in order, or the first tag
/// known with another full hash.
pub open spec fn verify_spec(db: Seq<EvV>, input: Seq<EvV>) -> Result<Seq<u32>, DbError>
    decreases input.len(),
{
    if input.len() == 0 {
        Ok(Seq::empty())
    } else {
        match verify_spec(db, input.drop_last()) {
            Err(e) => Err(e),
            Ok(missing) => {
                let x = input.last();
                match find_by_tag(db, x.0) {
                    Some(y) => if y.1 == x.1 {
                        Ok(missing)
                    } else {
                        Err(DbError::VerifyMismatch { tag: x.0, db_full_hash: y.1, elf_full_hash: x.1 })
                    },
                    None => Ok(missing.push(x.0)),
                }
            },
        }
    }
}

/// Whether a build id is recorded.
fn has_build(builds: &Vec<BuildRecord>, id: u64) -> (r: bool)
    ensures
        r == exists|i: int| 0 <= i < builds_view(builds@).len() && builds_view(builds@)[i].0 == id,
{
    let mut i: usize = 0;
    while i < builds.len()
        invariant
            i <= builds@.len(),
            forall|j: int| 0 <= j < i ==> builds_view(builds@)[j].0 != id,
        decreases builds@.len() - i,
    {
        if builds[i].build_id == id {
            assert(builds_view(builds@)[i as int].0 == id);
            return true;
        }
        i = i + 1;
    }
    false
}

/// `SystemTime::now()` as whole seconds since the Unix epoch, 0 for a clock
/// set before it.  Nothing is stated of the value: it is the time.
#[verifier::external_body]
pub(crate) fn now_unix_secs() -> (r: u64) {
    std::time::SystemTime::now().duration_since(std::time::UNIX_EPOCH).map(|d| d.as_secs()).unwrap_or(0)
}

impl Db {
    /// Ingest `events` and `strings` of a build, recording the build at
    /// `now_secs` (seconds since the Unix epoch) unless it is already recorded.
    /// Either everything is taken or, on a collision, nothing changes.
    pub fn ingest_at(&mut self, events: &[EventEntry], strings: &[StringEntry], build_id: u64, now_secs: u64) -> (r: Result<IngestStats, DbError>)
        requires
            old(self).wf(),
        ensures
            final(self).wf(),
            match ingest_outcome(old(self).events_v(), old(self).strings_v(), evs_view(events@), strs_view(strings@)) {
                Err(e) => r == Err::<IngestStats, DbError>(e)
                    && final(self).events_v() == old(self).events_v()
                    && final(self).strings_v() == old(self).strings_v()
                    && final(self).builds_v() == old(self).builds_v(),
                Ok((e2, s2, stats)) => r == Ok::<IngestStats, DbError>(stats)
                    && final(self).events_v() == e2
                    && final(self).strings_v() == s2
                    && final(self).builds_v() == record_build(old(self).builds_v(), build_id, decode_utf8(iso8601_spec(now_secs))),
            },
    {
        let mut strs = copy_strings(self.strings.as_slice());
        let (sa, ss) = match ingest_strings_exec(&mut strs, strings) {
            Ok(x) => x,
            Err(e) => { return Err(e); }
        };
        let mut evs = copy_events(self.events.as_slice());
        let (ea, es) = match ingest_events_exec(&mut evs, events) {
            Ok(x) => x,
            Err(e) => { return Err(e); }
        };
        self.strings = strs;
        self.events = evs;
        if !has_build(&self.builds, build_id) {
            let at = secs_to_iso8601(now_secs);
            proof { encode_utf8_decode_utf8(at@); }
            let ghost before = builds_view(self.builds@);
            let rec = BuildRecord { build_id, ingested_at: at };
            let ghost rv = build_view(rec);
            self.builds.push(rec);
            proof {
                assert(builds_view(self.builds@) =~= before.push(rv));
                assert forall|i: int, j: int| 0 <= i < builds_view(self.builds@).len() && 0 <= j < builds_view(self.builds@).len() && i != j
                    implies builds_view(self.builds@)[i].0 != builds_view(self.builds@)[j].0 by {
                    if i < before.len() && j < before.len() {
                        assert(builds_view(self.builds@)[i] == before[i]);
                        assert(builds_view(self.builds@)[j] == before[j]);
                    } else if i < before.len() {
                        assert(builds_view(self.builds@)[i] == before[i]);
                    } else {
                        assert(builds_view(self.builds@)[j] == before[j]);
                    }
                }
            }
        }
        Ok(IngestStats { events_added: ea, events_skipped: es, strings_added: sa, strings_skipped: ss })
    }

    /// Ingest `events` and `strings` of a build, recording it at the current
    /// time (see `ingest_at`).
    pub fn ingest(&mut self, events: &[EventEntry], strings: &[StringEntry], build_id: u64) -> (r: Result<IngestStats, DbError>)
        requires
            old(self).wf(),
        ensures
            final(self).wf(),
            match ingest_outcome(old(self).events_v(), old(self).strings_v(), evs_view(events@), strs_view(strings@)) {
                Err(e) => r == Err::<IngestStats, DbError>(e)
                    && final(self).events_v() == old(self).events_v()
                    && final(self).strings_v() == old(self).strings_v()
                    && final(self).builds_v() == old(self).builds_v(),
                Ok((e2, s2, stats)) => r == Ok::<IngestStats, DbError>(stats)
                    && final(self).events_v() == e2
                    && final(self).strings_v() == s2
                    && exists|t: u64| final(self).builds_v() == record_build(old(self).builds_v(), build_id, decode_utf8(#[trigger] iso8601_spec(t))),
            },
    {
        let now = now_unix_secs();
        self.ingest_at(events, strings, build_id, now)
    }

    /// Validate a build's events and strings against the database without
    /// changing it: duplicate tags within the build, string hash collisions,
    /// full-hash collisions and wire collisions are refused; the counts tell
    /// what an ingest would add and what is already present.
    pub fn check(&self, events: &[EventEntry], strings: &[StringEntry]) -> (r: Result<CheckStats, DbError>)
        requires
            self.wf(),
        ensures
            r == check_outcome(self.events_v(), self.strings_v(), evs_view(events@), strs_view(strings@)),
    {
        let ghost ev = evs_view(events@);
        let ghost sv = strs_view(strings@);
        // Duplicate tags within the build.
        let mut i: usize = 0;
        assert(ev.take(0) =~= Seq::<EvV>::empty());
        while i < events.len()
            invariant
                i <= events@.len(),
                ev == evs_view(events@),
                same_build_check(ev.take(i as int)) == Ok::<(), DbError>(()),
            decreases events@.len() - i,
        {
            assert(ev.take(i as int + 1).drop_last() =~= ev.take(i as int));
            let x = &events[i];
            match first_with_tag(events, i, x.tag) {
                Some(j) => {
                    if events[j].full_hash != x.full_hash {
                        let err = DbError::SameBuildCollision { tag: x.tag, first_full_hash: events[j].full_hash, full_hash: x.full_hash };
                        proof {
                            lemma_same_build_err(ev, (i + 1) as nat, ev.len(), err);
                            assert(ev.take(ev.len() as int) =~= ev);
                        }
                        return Err(err);
                    }
                }
                None => {}
            }
            i = i + 1;
        }
        assert(ev.take(events@.len() as int) =~= ev);
        // Strings against the database.
        let mut sn: usize = 0;
        let mut sk: usize = 0;
        let mut i: usize = 0;
        assert(sv.take(0) =~= Seq::<StrV>::empty());
        while i < strings.len()
            invariant
                i <= strings@.len(),
                sv == strs_view(strings@),
                ev == evs_view(events@),
                same_build_check(ev) == Ok::<(), DbError>(()),
                sn + sk == i,
                check_strings_spec(self.strings_v(), sv.take(i as int)) == Ok::<(nat, nat), DbError>((sn as nat, sk as nat)),
            decreases strings@.len() - i,
        {
            assert(sv.take(i as int + 1).drop_last() =~= sv.take(i as int));
            let x = &strings[i];
            match find_str_exec(&self.strings, x.hash) {
                Some(j) => {
                    if self.strings[j].content == x.content {
                        sk = sk + 1;
                    } else {
                        proof {
                            lemma_check_strings_err(self.strings_v(), sv, (i + 1) as nat, sv.len(), DbError::StringCollision { hash: x.hash });
                            assert(sv.take(sv.len() as int) =~= sv);
                        }
                        return Err(DbError::StringCollision { hash: x.hash });
                    }
                }
                None => { sn = sn + 1; }
            }
            i = i + 1;
        }
        assert(sv.take(strings@.len() as int) =~= sv);
        // Events against the database.
        let mut en: usize = 0;
        let mut ek: usize = 0;
        let mut i: usize = 0;
        while i < events.len()
            invariant
                i <= events@.len(),
                ev == evs_view(events@),
                sv == strs_view(strings@),
                same_build_check(ev) == Ok::<(), DbError>(()),
                check_strings_spec(self.strings_v(), sv) == Ok::<(nat, nat), DbError>((sn as nat, sk as nat)),
                en + ek == i,
                check_events_spec(self.events_v(), ev.take(i as int)) == Ok::<(nat, nat), DbError>((en as nat, ek as nat)),
            decreases events@.len() - i,
        {
            assert(ev.take(i as int + 1).drop_last() =~= ev.take(i as int));
            let x = &events[i];
            match find_fh_exec(&self.events, x.full_hash) {
                Some(j) => {
                    if self.events[j].tag == x.tag {
                        if self.events[j].format_hash != x.format_hash || !bytes_eq(self.events[j].bytecode.as_slice(), x.bytecode.as_slice()) {
                            let err = DbError::ContentCollision { full_hash: x.full_hash, tag: x.tag };
                            proof {
                                lemma_check_events_err(self.events_v(), ev, (i + 1) as nat, ev.len(), err);
                                assert(ev.take(ev.len() as int) =~= ev);
                            }
                            return Err(err);
                        }
                        proof { lemma_find_fh_hash(self.events_v(), x.full_hash); }
                        assert(event_entry_view(self.events@[j as int]) == event_entry_view(events@[i as int]));
                        ek = ek + 1;
                    } else {
                        let err = DbError::FullHashCollision { full_hash: x.full_hash, existing_tag: self.events[j].tag, tag: x.tag };
                        proof {
                            lemma_check_events_err(self.events_v(), ev, (i + 1) as nat, ev.len(), err);
                            assert(ev.take(ev.len() as int) =~= ev);
                        }
                        return Err(err);
                    }
                }
                None => match find_tag_exec(&self.events, x.tag) {
                    Some(j) => {
                        let err = DbError::WireCollision { tag: x.tag, existing_full_hash: self.events[j].full_hash, full_hash: x.full_hash };
                        proof {
                            lemma_check_events_err(self.events_v(), ev, (i + 1) as nat, ev.len(), err);
                            assert(ev.take(ev.len() as int) =~= ev);
                        }
                        return Err(err);
                    }
                    None => { en = en + 1; }
                },
            }
            i = i + 1;
        }
        assert(ev.take(events@.len() as int) =~= ev);
        Ok(CheckStats { events_new: en, events_existing: ek, strings_new: sn, strings_existing: sk })
    }
}

/// Index of the first of the first `n` events with tag `tag`.
fn first_with_tag(events: &[EventEntry], n: usize, tag: u32) -> (r: Option<usize>)
    requires
        n <= events@.len(),
    ensures
        match find_by_tag(evs_view(events@).take(n as int), tag) {
            Some(y) => r matches Some(j) && j < n && event_entry_view(events@[j as int]) == y,
            None => r is None,
        },
{
    let ghost pre = evs_view(events@).take(n as int);
    let mut j: usize = 0;
    assert(pre.skip(0) =~= pre);
    while j < n
        invariant
            j <= n <= events@.len(),
            pre == evs_view(events@).take(n as int),
            find_by_tag(pre, tag) == find_by_tag(pre.skip(j as int), tag),
        decreases n - j,
    {
        assert(pre.skip(j as int).drop_first() =~= pre.skip(j + 1));
        assert(pre.skip(j as int)[0] == event_entry_view(events@[j as int]));
        if events[j].tag == tag {
            return Some(j);
        }
        j = j + 1;
    }
    None
}

proof fn lemma_same_build_err(input: Seq<EvV>, k: nat, n: nat, e: DbError)
    requires
        k <= n <= input.len(),
        same_build_check(input.take(k as int)) == Err::<(), DbError>(e),
    ensures
        same_build_check(input.take(n as int)) == Err::<(), DbError>(e),
    decreases n,
{
    if n > k {
        lemma_same_build_err(input, k, (n - 1) as nat, e);
        assert(input.take(n as int).drop_last() =~= input.take(n - 1));
    }
}

proof fn lemma_check_strings_err(db: Seq<StrV>, input: Seq<StrV>, k: nat, n: nat, e: DbError)
    requires
        k <= n <= input.len(),
        check_strings_spec(db, input.take(k as int)) == Err::<(nat, nat), DbError>(e),
    ensures
        check_strings_spec(db, input.take(n as int)) == Err::<(nat, nat), DbError>(e),
    decreases n,
{
    if n > k {
        lemma_check_strings_err(db, input, k, (n - 1) as nat, e);
        assert(input.take(n as int).drop_last() =~= input.take(n - 1));
    }
}

proof fn lemma_check_events_err(db: Seq<EvV>, input: Seq<EvV>, k: nat, n: nat, e: DbError)
    requires
        k <= n <= input.len(),
        check_events_spec(db, input.take(k as int)) == Err::<(nat, nat), DbError>(e),
    ensures
        check_events_spec(db, input.take(n as int)) == Err::<(nat, nat), DbError>(e),
    decreases n,
{
    if n > k {
        lemma_check_events_err(db, input, k, (n - 1) as nat, e);
        assert(input.take(n as int).drop_last() =~= input.take(n - 1));
    }
}


/// What a merge does: the source's events and strings ingested as build 0.
pub open spec fn merge_stats(st: IngestStats) -> MergeStats {
    MergeStats {
        events_added: st.events_added,
        events_skipped: st.events_skipped,
        strings_added: st.strings_added,
        strings_skipped: st.strings_skipped,
    }
}

impl Db {
    /// The build's tags that the database lacks, as eight hex digits each; a
    /// tag known with another full hash is refused.
    pub fn verify(&self, events: &[EventEntry]) -> (r: Result<Vec<String>, DbError>)
        requires
            self.wf(),
        ensures
            match verify_spec(self.events_v(), evs_view(events@)) {
                Ok(tags) => r matches Ok(v) && v@.len() == tags.len()
                    && forall|i: int| 0 <= i < tags.len() ==> encode_utf8(#[trigger] v@[i]@) == hex8(tags[i]),
                Err(e) => r == Err::<Vec<String>, DbError>(e),
            },
    {
        let ghost ev = evs_view(events@);
        let mut missing: Vec<String> = Vec::new();
        let ghost mut tags: Seq<u32> = Seq::empty();
        let mut i: usize = 0;
        assert(ev.take(0) =~= Seq::<EvV>::empty());
        while i < events.len()
            invariant
                i <= events@.len(),
                ev == evs_view(events@),
                verify_spec(self.events_v(), ev.take(i as int)) == Ok::<Seq<u32>, DbError>(tags),
                missing@.len() == tags.len(),
                forall|k: int| 0 <= k < tags.len() ==> encode_utf8(#[trigger] missing@[k]@) == hex8(tags[k]),
            decreases events@.len() - i,
        {
            assert(ev.take(i as int + 1).drop_last() =~= ev.take(i as int));
            let x = &events[i];
            match find_tag_exec(&self.events, x.tag) {
                Some(j) => {
                    if self.events[j].full_hash != x.full_hash {
                        let err = DbError::VerifyMismatch { tag: x.tag, db_full_hash: self.events[j].full_hash, elf_full_hash: x.full_hash };
                        proof {
                            lemma_verify_err(self.events_v(), ev, (i + 1) as nat, ev.len(), err);
                            assert(ev.take(ev.len() as int) =~= ev);
                        }
                        return Err(err);
                    }
                }
                None => {
                    let h = hex8_exec(x.tag);
                    proof { lemma_hex8_ascii(x.tag); }
                    let t = ascii_string(h.as_slice());
                    missing.push(t);
                    proof { tags = tags.push(x.tag); }
                }
            }
            i = i + 1;
        }
        assert(ev.take(events@.len() as int) =~= ev);
        Ok(missing)
    }

    /// Copy the events and strings of `src` into this database under the
    /// collision policy, recording build 0 at `now_secs`.
    pub fn merge_from_at(&mut self, src: &Db, now_secs: u64) -> (r: Result<MergeStats, DbError>)
        requires
            old(self).wf(),
            src.wf(),
        ensures
            final(self).wf(),
            match ingest_outcome(old(self).events_v(), old(self).strings_v(), src.events_v(), src.strings_v()) {
                Err(e) => r == Err::<MergeStats, DbError>(e)
                    && final(self).events_v() == old(self).events_v()
                    && final(self).strings_v() == old(self).strings_v()
                    && final(self).builds_v() == old(self).builds_v(),
                Ok((e2, s2, stats)) => r == Ok::<MergeStats, DbError>(merge_stats(stats))
                    && final(self).events_v() == e2
                    && final(self).strings_v() == s2
                    && final(self).builds_v() == record_build(old(self).builds_v(), 0, decode_utf8(iso8601_spec(now_secs))),
            },
    {
        let src_events = src.all_events();
        let src_strings = src.all_strings();
        match self.ingest_at(src_events.as_slice(), src_strings.as_slice(), 0, now_secs) {
            Ok(st) => Ok(MergeStats {
                events_added: st.events_added,
                events_skipped: st.events_skipped,
                strings_added: st.strings_added,
                strings_skipped: st.strings_skipped,
            }),
            Err(e) => Err(e),
        }
    }

    /// Merge `src` into this database at the current time (see `merge_from_at`).
    pub fn merge_from(&mut self, src: &Db) -> (r: Result<MergeStats, DbError>)
        requires
            old(self).wf(),
            src.wf(),
        ensures
            final(self).wf(),
            match ingest_outcome(old(self).events_v(), old(self).strings_v(), src.events_v(), src.strings_v()) {
                Err(e) => r == Err::<MergeStats, DbError>(e)
                    && final(self).events_v() == old(self).events_v()
                    && final(self).strings_v() == old(self).strings_v()
                    && final(self).builds_v() == old(self).builds_v(),
                Ok((e2, s2, stats)) => r == Ok::<MergeStats, DbError>(merge_stats(stats))
                    && final(self).events_v() == e2
                    && final(self).strings_v() == s2
                    && exists|t: u64| final(self).builds_v() == record_build(old(self).builds_v(), 0, decode_utf8(#[trigger] iso8601_spec(t))),
            },
    {
        let now = now_unix_secs();
        self.merge_from_at(src, now)
    }

    /// All events, by tag.
    pub fn all_events(&self) -> (r: Vec<EventEntry>)
        ensures
            evs_view(r@) == self.events_v(),
    {
        copy_events(self.events.as_slice())
    }

    /// All strings, by hash.
    pub fn all_strings(&self) -> (r: Vec<StringEntry>)
        ensures
            strs_view(r@) == self.strings_v(),
    {
        copy_strings(self.strings.as_slice())
    }

    /// The recorded builds, in the order they were first ingested.
    pub fn builds(&self) -> (r: &[BuildRecord])
        ensures
            builds_view(r@) == self.builds_v(),
    {
        self.builds.as_slice()
    }

    /// The content of the string with hash `hash`.
    pub fn lookup_string(&self, hash: u32) -> (r: Option<String>)
        ensures
            match find_str(self.strings_v(), hash) {
                Some(c) => r matches Some(t) && t@ == c,
                None => r is None,
            },
    {
        match find_str_exec(&self.strings, hash) {
            Some(j) => Some(self.strings[j].content.clone()),
            None => None,
        }
    }

    /// The events and strings as the interpreter and decoder consult them.
    pub fn table(&self) -> (t: EventTable)
        ensures
            evs_view(t.events@) == self.events_v(),
            strs_view(t.strings@) == self.strings_v(),
    {
        EventTable { events: self.all_events(), strings: self.all_strings() }
    }

    /// A database holding `events`, `strings` and `builds` as stored before,
    /// taken under the collision policy; repeated build ids keep the first.
    pub fn restore(events: &[EventEntry], strings: &[StringEntry], builds: Vec<BuildRecord>) -> (r: Result<Db, DbError>)
        ensures
            match ingest_outcome(Seq::empty(), Seq::empty(), evs_view(events@), strs_view(strings@)) {
                Err(e) => r == Err::<Db, DbError>(e),
                Ok((e2, s2, stats)) => r matches Ok(db) && db.wf() && db.events_v() == e2 && db.strings_v() == s2
                    && db.builds_v() == first_builds(builds_view(builds@)),
            },
    {
        let ghost all = builds_view(builds@);
        let mut db = Db::memory();
        let mut strs: Vec<StringEntry> = Vec::new();
        assert(strs_view(strs@) =~= Seq::<StrV>::empty());
        match ingest_strings_exec(&mut strs, strings) {
            Ok(_) => {}
            Err(e) => { return Err(e); }
        }
        let mut evs: Vec<EventEntry> = Vec::new();
        assert(evs_view(evs@) =~= Seq::<EvV>::empty());
        match ingest_events_exec(&mut evs, events) {
            Ok(_) => {}
            Err(e) => { return Err(e); }
        }
        db.strings = strs;
        db.events = evs;
        let mut rest = builds;
        let mut kept: Vec<BuildRecord> = Vec::new();
        assert(builds_view(kept@) =~= Seq::<(u64, Seq<char>)>::empty());
        assert(all.take(0) =~= Seq::<(u64, Seq<char>)>::empty());
        assert(builds_view(rest@) =~= all.skip(0));
        while rest.len() > 0
            invariant
                builds_distinct(builds_view(kept@)),
                rest@.len() <= all.len(),
                builds_view(rest@) == all.skip(all.len() - rest@.len()),
                builds_view(kept@) == first_builds(all.take(all.len() - rest@.len())),
            decreases rest@.len(),
        {
            let ghost k = all.len() - rest@.len();
            let ghost before = rest@;
            let b = rest.remove(0);
            proof {
                assert(b == before[0]);
                assert(builds_view(before)[0] == build_view(before[0]));
                assert(all.skip(k)[0] == all[k]);
                assert(build_view(b) == all[k]);
                assert(rest@ =~= before.subrange(1, before.len() as int));
                assert forall|i: int| 0 <= i < builds_view(rest@).len() implies builds_view(rest@)[i] == all.skip(k + 1)[i] by {
                    assert(builds_view(rest@)[i] == build_view(rest@[i]));
                    assert(rest@[i] == before[i + 1]);
                    assert(builds_view(before)[i + 1] == all.skip(k)[i + 1]);
                }
                assert(builds_view(rest@) =~= all.skip(k + 1));
                assert(all.take(k + 1).drop_last() =~= all.take(k));
                assert(all.take(k + 1).last() == all[k]);
            }
            if !has_build(&kept, b.build_id) {
                let ghost before = builds_view(kept@);
                let ghost bv = build_view(b);
                kept.push(b);
                proof {
                    assert(builds_view(kept@) =~= before.push(bv));
                    assert forall|i: int, j: int| 0 <= i < builds_view(kept@).len() && 0 <= j < builds_view(kept@).len() && i != j
                        implies builds_view(kept@)[i].0 != builds_view(kept@)[j].0 by {
                        if i < before.len() && j < before.len() {
                            assert(builds_view(kept@)[i] == before[i]);
                            assert(builds_view(kept@)[j] == before[j]);
                        } else if i < before.len() {
                            assert(builds_view(kept@)[i] == before[i]);
                        } else {
                            assert(builds_view(kept@)[j] == before[j]);
                        }
                    }
                }
            }
        }
        assert(all.take(all.len() as int) =~= all);
        db.builds = kept;
        Ok(db)
    }
}

proof fn lemma_verify_err(db: Seq<EvV>, input: Seq<EvV>, k: nat, n: nat, e: DbError)
    requires
        k <= n <= input.len(),
        verify_spec(db, input.take(k as int)) == Err::<Seq<u32>, DbError>(e),
    ensures
        verify_spec(db, input.take(n as int)) == Err::<Seq<u32>, DbError>(e),
    decreases n,
{
    if n > k {
        lemma_verify_err(db, input, k, (n - 1) as nat, e);
        assert(input.take(n as int).drop_last() =~= input.take(n - 1));
    }
}

proof fn lemma_hex8_ascii(v: u32)
    ensures
        forall|i: int| 0 <= i < hex8(v).len() ==> hex8(v)[i] < 0x80,
{
    assert(crate::numfmt::pow_nat(16, 8) == 0x1_0000_0000) by {
        reveal_with_fuel(crate::numfmt::pow_nat, 9);
    }
    crate::numfmt::lemma_digits_len_pow(v as nat, 16, false, 8);
    let d = digits(v as nat, 16, false);
    let k = (8 - d.len()) as int;
    assert forall|i: int| 0 <= i < hex8(v).len() implies hex8(v)[i] < 0x80 by {
        if i >= k {
            assert(hex8(v)[i] == d[i - k]);
            lemma_hex_digits_ascii(v as nat, i - k);
        }
    }
}

proof fn lemma_hex_digits_ascii(v: nat, i: int)
    requires
        0 <= i < digits(v, 16, false).len(),
    ensures
        digits(v, 16, false)[i] < 0x80,
    decreases v,
{
    if v >= 16 {
        crate::numfmt::lemma_div_lt(v, 16);
        if i < digits(v / 16, 16, false).len() {
            lemma_hex_digits_ascii(v / 16, i);
        }
    }
}

} // verus!
