//! Parsing of the `.zfmt_events.*` and `.zfmt_strings.*` ELF section entries.

use vstd::prelude::*;
use vstd::utf8::*;
use vstd::string::*;
use crate::text::{le_value, read_u16_le, read_u32_le, read_u64_le, str_from_utf8, bytes_start_with};
#[allow(unused_imports)]
use object::{Object, ObjectSection};

verus! {

/// Parsed representation of one `.zfmt_events.<hex>` section entry.
#[derive(Debug, Clone, PartialEq, Eq)]
pub struct EventEntry {
    pub tag: u32,
    pub full_hash: u64,
    pub format_hash: u32,
    pub bytecode: Vec<u8>,
}

/// Parsed representation of one `.zfmt_strings.<hex>` section entry.
#[derive(Debug, Clone, PartialEq, Eq)]
pub struct StringEntry {
    pub hash: u32,
    pub content: String,
}

/// Why an entry's bytes were refused.
#[derive(Debug, Clone, Copy, PartialEq, Eq)]
pub enum EntryError {
    /// Fewer bytes than the fixed header (`len` bytes given, `need` required).
    TooShort { len: usize, need: usize },
    /// The header announces more bytes than the section holds.
    Truncated { len: usize, announced: usize },
    /// The string content is not valid UTF-8.
    NotUtf8,
}

/// Size of the fixed part of an event entry:
/// tag(4) pad(4) full_hash(8) format_hash(4) pad(4) bc_len(4).
pub const EVENT_HEADER_LEN: usize = 28;

/// Size of the fixed part of a string entry: hash(4) len(2) pad(2).
pub const STRING_HEADER_LEN: usize = 8;

/// The little-endian unsigned integer held in `data[from..to]`.
pub open spec fn le_field(data: Seq<u8>, from: int, to: int) -> nat {
    le_value(data.subrange(from, to))
}

/// Byte count of the bytecode that an event entry announces.
pub open spec fn event_bc_len(data: Seq<u8>) -> nat {
    le_field(data, 24, 28)
}

/// Byte count of the content that a string entry announces.
pub open spec fn string_len(data: Seq<u8>) -> nat {
    le_field(data, 4, 6)
}

/// Parse one event entry from its raw section bytes.
///
/// Entry layout: tag(u32) _pad(u32) full_hash(u64) format_hash(u32) _pad(u32)
/// bc_len(u32) bytecode[bc_len], followed by padding that is ignored.
pub fn parse_event_entry_bytes(data: &[u8]) -> (r: Result<EventEntry, EntryError>)
    ensures
        match r {
            Ok(e) => event_entry_spec(data@) == Ok::<(u32, u64, u32, Seq<u8>), EntryError>(event_entry_view(e)),
            Err(x) => event_entry_spec(data@) == Err::<(u32, u64, u32, Seq<u8>), EntryError>(x),
        },
{
    if data.len() < EVENT_HEADER_LEN {
        return Err(EntryError::TooShort { len: data.len(), need: EVENT_HEADER_LEN });
    }
    let tag = read_u32_le(data, 0);
    let full_hash = read_u64_le(data, 8);
    let format_hash = read_u32_le(data, 16);
    let bc_len = read_u32_le(data, 24) as usize;
    if data.len() - EVENT_HEADER_LEN < bc_len {
        return Err(EntryError::Truncated { len: data.len(), announced: bc_len });
    }
    let end = EVENT_HEADER_LEN + bc_len;
    let mut bytecode: Vec<u8> = Vec::new();
    let mut i: usize = EVENT_HEADER_LEN;
    while i < end
        invariant
            EVENT_HEADER_LEN <= i <= end == EVENT_HEADER_LEN + bc_len <= data@.len(),
            bytecode@ == data@.subrange(EVENT_HEADER_LEN as int, i as int),
        decreases end - i,
    {
        bytecode.push(data[i]);
        assert(data@.subrange(EVENT_HEADER_LEN as int, i + 1) =~= data@.subrange(EVENT_HEADER_LEN as int, i as int).push(data@[i as int]));
        i = i + 1;
    }
    Ok(EventEntry { tag, full_hash, format_hash, bytecode })
}

/// Parse one string entry from its raw section bytes.
///
/// Entry layout: hash(u32) len(u16) _pad(u16) bytes[len], followed by padding
/// that is ignored.
pub fn parse_string_entry_bytes(data: &[u8]) -> (r: Result<StringEntry, EntryError>)
    ensures
        match r {
            Ok(e) => string_entry_spec(data@) == Ok::<(u32, Seq<char>), EntryError>(string_entry_view(e)),
            Err(x) => string_entry_spec(data@) == Err::<(u32, Seq<char>), EntryError>(x),
        },
{
    if data.len() < STRING_HEADER_LEN {
        return Err(EntryError::TooShort { len: data.len(), need: STRING_HEADER_LEN });
    }
    let hash = read_u32_le(data, 0);
    let str_len = read_u16_le(data, 4) as usize;
    if data.len() - STRING_HEADER_LEN < str_len {
        return Err(EntryError::Truncated { len: data.len(), announced: str_len });
    }
    let end = STRING_HEADER_LEN + str_len;
    let mut bytes: Vec<u8> = Vec::new();
    let mut i: usize = STRING_HEADER_LEN;
    while i < end
        invariant
            STRING_HEADER_LEN <= i <= end == STRING_HEADER_LEN + str_len <= data@.len(),
            bytes@ == data@.subrange(STRING_HEADER_LEN as int, i as int),
        decreases end - i,
    {
        bytes.push(data[i]);
        assert(data@.subrange(STRING_HEADER_LEN as int, i + 1) =~= data@.subrange(STRING_HEADER_LEN as int, i as int).push(data@[i as int]));
        i = i + 1;
    }
    match str_from_utf8(bytes.as_slice()) {
        Some(s) => {
            proof { encode_utf8_decode_utf8(s@); }
            Ok(StringEntry { hash, content: s.to_owned() })
        }
        None => Err(EntryError::NotUtf8),
    }
}

/// One section of an object file as the parser reports it: its name's bytes and
/// its contents, each absent where reading it failed.
pub struct RawSection {
    pub name: Option<Vec<u8>>,
    pub data: Option<Vec<u8>>,
}

pub open spec fn opt_bytes_view(o: Option<Vec<u8>>) -> Option<Seq<u8>> {
    match o {
        Some(v) => Some(v@),
        None => None,
    }
}

pub open spec fn raw_section_view(s: RawSection) -> (Option<Seq<u8>>, Option<Seq<u8>>) {
    (opt_bytes_view(s.name), opt_bytes_view(s.data))
}

pub open spec fn raw_sections_view(r: Option<Vec<RawSection>>) -> Option<Seq<(Option<Seq<u8>>, Option<Seq<u8>>)>> {
    match r {
        Some(v) => Some(v@.map_values(|s: RawSection| raw_section_view(s))),
        None => None,
    }
}

/// The sections, in order, that the `object` crate reads from a file's bytes:
/// `None` where the bytes are not an object file it can parse.
pub uninterp spec fn object_sections(data: Seq<u8>) -> Option<Seq<(Option<Seq<u8>>, Option<Seq<u8>>)>>;

/// `object::File::parse` followed by a walk over `sections()`, reading each
/// section's `name()` and `data()`.  Claims only that the outcome is a function
/// of the file's bytes, named `object_sections`.
#[verifier::external_body]
fn read_object_sections(data: &[u8]) -> (r: Option<Vec<RawSection>>)
    ensures
        raw_sections_view(r) == object_sections(data@),
{
    let file = object::File::parse(data).ok()?;
    let mut out = Vec::new();
    for s in file.sections() {
        out.push(RawSection {
            name: s.name().ok().map(|n| n.as_bytes().to_vec()),
            data: s.data().ok().map(|d| d.to_vec()),
        });
    }
    Some(out)
}

/// Why a set of entries could not be read from an object file.
#[derive(Debug, Clone, Copy, PartialEq, Eq)]
pub enum ElfError {
    /// The bytes are not an object file that can be parsed.
    NotAnObject,
    /// The name of the section at this index could not be read.
    SectionName(usize),
    /// The contents of the section at this index could not be read.
    SectionData(usize),
    /// The entry in the section at this index is malformed.
    Entry(usize, EntryError),
}

pub open spec fn has_prefix(s: Seq<u8>, p: Seq<u8>) -> bool {
    p.len() <= s.len() && s.take(p.len() as int) == p
}

/// The outcome of walking `sections` in order, parsing the entries of those whose
/// name starts with `prefix` with `parse`.  The first failure ends the walk.
pub open spec fn walk_sections<T>(
    sections: Seq<(Option<Seq<u8>>, Option<Seq<u8>>)>,
    prefix: Seq<u8>,
    parse: spec_fn(Seq<u8>) -> Result<T, EntryError>,
) -> Result<Seq<T>, ElfError>
    decreases sections.len(),
{
    if sections.len() == 0 {
        Ok(Seq::empty())
    } else {
        let last = (sections.len() - 1) as usize;
        match walk_sections(sections.drop_last(), prefix, parse) {
            Err(e) => Err(e),
            Ok(done) => match sections.last().0 {
                None => Err(ElfError::SectionName(last)),
                Some(name) => if !has_prefix(name, prefix) {
                    Ok(done)
                } else {
                    match sections.last().1 {
                        None => Err(ElfError::SectionData(last)),
                        Some(bytes) => match parse(bytes) {
                            Err(e) => Err(ElfError::Entry(last, e)),
                            Ok(t) => Ok(done.push(t)),
                        },
                    }
                },
            },
        }
    }
}

pub open spec fn event_entry_view(e: EventEntry) -> (u32, u64, u32, Seq<u8>) {
    (e.tag, e.full_hash, e.format_hash, e.bytecode@)
}

pub open spec fn string_entry_view(s: StringEntry) -> (u32, Seq<char>) {
    (s.hash, s.content@)
}

/// What `parse_event_entry_bytes` gives for `data`, in view form.
pub open spec fn event_entry_spec(data: Seq<u8>) -> Result<(u32, u64, u32, Seq<u8>), EntryError> {
    if data.len() < EVENT_HEADER_LEN {
        Err(EntryError::TooShort { len: data.len() as usize, need: EVENT_HEADER_LEN })
    } else if data.len() < EVENT_HEADER_LEN + event_bc_len(data) {
        Err(EntryError::Truncated { len: data.len() as usize, announced: event_bc_len(data) as usize })
    } else {
        Ok((le_field(data, 0, 4) as u32, le_field(data, 8, 16) as u64, le_field(data, 16, 20) as u32,
            data.subrange(EVENT_HEADER_LEN as int, EVENT_HEADER_LEN + event_bc_len(data))))
    }
}

/// What `parse_string_entry_bytes` gives for `data`, in view form.
pub open spec fn string_entry_spec(data: Seq<u8>) -> Result<(u32, Seq<char>), EntryError> {
    let content = data.subrange(STRING_HEADER_LEN as int, STRING_HEADER_LEN + string_len(data));
    if data.len() < STRING_HEADER_LEN {
        Err(EntryError::TooShort { len: data.len() as usize, need: STRING_HEADER_LEN })
    } else if data.len() < STRING_HEADER_LEN + string_len(data) {
        Err(EntryError::Truncated { len: data.len() as usize, announced: string_len(data) as usize })
    } else if !valid_utf8(content) {
        Err(EntryError::NotUtf8)
    } else {
        Ok((le_field(data, 0, 4) as u32, decode_utf8(content)))
    }
}

pub open spec fn event_parser() -> spec_fn(Seq<u8>) -> Result<(u32, u64, u32, Seq<u8>), EntryError> {
    |b: Seq<u8>| event_entry_spec(b)
}

pub open spec fn string_parser() -> spec_fn(Seq<u8>) -> Result<(u32, Seq<char>), EntryError> {
    |b: Seq<u8>| string_entry_spec(b)
}

/// The entries of the `.zfmt_events.*` sections among `secs`, one per section
/// in order; the first section that cannot be read ends the walk with its error.
pub fn events_from_sections(secs: &[RawSection]) -> (r: Result<Vec<EventEntry>, ElfError>)
    ensures
        match walk_sections(secs@.map_values(|s: RawSection| raw_section_view(s)), ".zfmt_events.".spec_bytes(), event_parser()) {
            Ok(v) => r matches Ok(es) && es@.map_values(|e: EventEntry| event_entry_view(e)) == v,
            Err(e) => r == Err::<Vec<EventEntry>, ElfError>(e),
        },
{
    let ghost sv = secs@.map_values(|s: RawSection| raw_section_view(s));
    let ghost parse = event_parser();
    let prefix = ".zfmt_events.".as_bytes();
    let mut out: Vec<EventEntry> = Vec::new();
    let mut i: usize = 0;
    assert(sv.take(0) =~= Seq::<(Option<Seq<u8>>, Option<Seq<u8>>)>::empty());
    assert(out@.map_values(|e: EventEntry| event_entry_view(e)) =~= Seq::<(u32, u64, u32, Seq<u8>)>::empty());
    while i < secs.len()
        invariant
            i <= secs@.len(),
            sv == secs@.map_values(|s: RawSection| raw_section_view(s)),
            prefix@ == ".zfmt_events.".spec_bytes(),
            parse == event_parser(),
            walk_sections(sv.take(i as int), prefix@, parse) == Ok::<Seq<(u32, u64, u32, Seq<u8>)>, ElfError>(
                out@.map_values(|e: EventEntry| event_entry_view(e))),
        decreases secs@.len() - i,
    {
        assert(sv.take(i as int + 1).drop_last() =~= sv.take(i as int));
        assert(sv.take(i as int + 1).last() == raw_section_view(secs@[i as int]));
        let sec = &secs[i];
        match &sec.name {
            None => {
                proof { lemma_walk_prefix_err(sv, prefix@, parse, i as nat + 1); }
                return Err(ElfError::SectionName(i));
            }
            Some(name) => {
                if bytes_start_with(name.as_slice(), prefix) {
                    match &sec.data {
                        None => {
                            proof { lemma_walk_prefix_err(sv, prefix@, parse, i as nat + 1); }
                            return Err(ElfError::SectionData(i));
                        }
                        Some(bytes) => {
                            match parse_event_entry_bytes(bytes.as_slice()) {
                                Err(e) => {
                                    proof { lemma_walk_prefix_err(sv, prefix@, parse, i as nat + 1); }
                                    return Err(ElfError::Entry(i, e));
                                }
                                Ok(entry) => {
                                    let ghost before = out@;
                                    out.push(entry);
                                    assert(out@.map_values(|e: EventEntry| event_entry_view(e)) =~=
                                        before.map_values(|e: EventEntry| event_entry_view(e)).push(event_entry_view(entry)));
                                }
                            }
                        }
                    }
                }
            }
        }
        i = i + 1;
    }
    assert(sv.take(secs@.len() as int) =~= sv);
    Ok(out)
}

/// Parse all `.zfmt_events.*` sections from an object file, one entry per section
/// in the order the file lists them.
pub fn parse_events(data: &[u8]) -> (r: Result<Vec<EventEntry>, ElfError>)
    ensures
        match object_sections(data@) {
            None => r == Err::<Vec<EventEntry>, ElfError>(ElfError::NotAnObject),
            Some(secs) => match walk_sections(secs, ".zfmt_events.".spec_bytes(), event_parser()) {
                Ok(v) => r matches Ok(es) && es@.map_values(|e: EventEntry| event_entry_view(e)) == v,
                Err(e) => r == Err::<Vec<EventEntry>, ElfError>(e),
            },
        },
{
    let secs = match read_object_sections(data) {
        Some(s) => s,
        None => return Err(ElfError::NotAnObject),
    };
    events_from_sections(secs.as_slice())
}

/// The entries of the `.zfmt_strings.*` sections among `secs`, one per section
/// in order; the first section that cannot be read ends the walk with its error.
pub fn strings_from_sections(secs: &[RawSection]) -> (r: Result<Vec<StringEntry>, ElfError>)
    ensures
        match walk_sections(secs@.map_values(|s: RawSection| raw_section_view(s)), ".zfmt_strings.".spec_bytes(), string_parser()) {
            Ok(v) => r matches Ok(es) && es@.map_values(|e: StringEntry| string_entry_view(e)) == v,
            Err(e) => r == Err::<Vec<StringEntry>, ElfError>(e),
        },
{
    let ghost sv = secs@.map_values(|s: RawSection| raw_section_view(s));
    let ghost parse = string_parser();
    let prefix = ".zfmt_strings.".as_bytes();
    let mut out: Vec<StringEntry> = Vec::new();
    let mut i: usize = 0;
    assert(sv.take(0) =~= Seq::<(Option<Seq<u8>>, Option<Seq<u8>>)>::empty());
    assert(out@.map_values(|e: StringEntry| string_entry_view(e)) =~= Seq::<(u32, Seq<char>)>::empty());
    while i < secs.len()
        invariant
            i <= secs@.len(),
            sv == secs@.map_values(|s: RawSection| raw_section_view(s)),
            prefix@ == ".zfmt_strings.".spec_bytes(),
            parse == string_parser(),
            walk_sections(sv.take(i as int), prefix@, parse) == Ok::<Seq<(u32, Seq<char>)>, ElfError>(
                out@.map_values(|e: StringEntry| string_entry_view(e))),
        decreases secs@.len() - i,
    {
        assert(sv.take(i as int + 1).drop_last() =~= sv.take(i as int));
        assert(sv.take(i as int + 1).last() == raw_section_view(secs@[i as int]));
        let sec = &secs[i];
        match &sec.name {
            None => {
                proof { lemma_walk_prefix_err(sv, prefix@, parse, i as nat + 1); }
                return Err(ElfError::SectionName(i));
            }
            Some(name) => {
                if bytes_start_with(name.as_slice(), prefix) {
                    match &sec.data {
                        None => {
                            proof { lemma_walk_prefix_err(sv, prefix@, parse, i as nat + 1); }
                            return Err(ElfError::SectionData(i));
                        }
                        Some(bytes) => {
                            match parse_string_entry_bytes(bytes.as_slice()) {
                                Err(e) => {
                                    proof { lemma_walk_prefix_err(sv, prefix@, parse, i as nat + 1); }
                                    return Err(ElfError::Entry(i, e));
                                }
                                Ok(entry) => {
                                    let ghost before = out@;
                                    out.push(entry);
                                    assert(out@.map_values(|e: StringEntry| string_entry_view(e)) =~=
                                        before.map_values(|e: StringEntry| string_entry_view(e)).push(string_entry_view(entry)));
                                }
                            }
                        }
                    }
                }
            }
        }
        i = i + 1;
    }
    assert(sv.take(secs@.len() as int) =~= sv);
    Ok(out)
}

/// Parse all `.zfmt_strings.*` sections from an object file.
pub fn parse_strings(data: &[u8]) -> (r: Result<Vec<StringEntry>, ElfError>)
    ensures
        match object_sections(data@) {
            None => r == Err::<Vec<StringEntry>, ElfError>(ElfError::NotAnObject),
            Some(secs) => match walk_sections(secs, ".zfmt_strings.".spec_bytes(), string_parser()) {
                Ok(v) => r matches Ok(es) && es@.map_values(|e: StringEntry| string_entry_view(e)) == v,
                Err(e) => r == Err::<Vec<StringEntry>, ElfError>(e),
            },
        },
{
    let secs = match read_object_sections(data) {
        Some(s) => s,
        None => return Err(ElfError::NotAnObject),
    };
    strings_from_sections(secs.as_slice())
}

/// Once a prefix of the sections fails, the whole walk fails the same way.
proof fn lemma_walk_prefix_err<T>(
    sections: Seq<(Option<Seq<u8>>, Option<Seq<u8>>)>,
    prefix: Seq<u8>,
    parse: spec_fn(Seq<u8>) -> Result<T, EntryError>,
    k: nat,
)
    requires
        k <= sections.len(),
        walk_sections(sections.take(k as int), prefix, parse) is Err,
    ensures
        walk_sections(sections, prefix, parse) == walk_sections(sections.take(k as int), prefix, parse),
    decreases sections.len() - k,
{
    if k < sections.len() {
        assert(sections.take(k as int + 1).drop_last() =~= sections.take(k as int));
        lemma_walk_prefix_err(sections, prefix, parse, k + 1);
    } else {
        assert(sections.take(k as int) =~= sections);
    }
}

} // verus!
