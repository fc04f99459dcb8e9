//! FNV-1a 64-bit hash and the canonical hash input that identifies an event type.

use vstd::prelude::*;
use vstd::string::*;
use crate::text::{trim, trim_ws, bytes_eq};

verus! {

pub const FNV_OFFSET: u64 = 0xcbf29ce484222325;
pub const FNV_PRIME: u64 = 0x00000100000001b3;

/// One FNV-1a step: xor the byte in, then multiply by the prime modulo 2^64.
pub open spec fn fnv1a_step(h: u64, b: u8) -> u64 {
    (((h ^ (b as u64)) as nat * FNV_PRIME as nat) % 0x1_0000_0000_0000_0000) as u64
}

/// FNV-1a 64 of a byte sequence, folding the bytes in order from the offset basis.
pub open spec fn fnv1a_bytes(s: Seq<u8>) -> u64
    decreases s.len(),
{
    if s.len() == 0 {
        FNV_OFFSET
    } else {
        fnv1a_step(fnv1a_bytes(s.drop_last()), s.last())
    }
}

/// FNV-1a 64 of the UTF-8 bytes of `input`.
pub fn fnv1a_64(input: &str) -> (h: u64)
    ensures
        h == fnv1a_bytes(input.spec_bytes()),
{
    let bytes = input.as_bytes();
    let mut h: u64 = FNV_OFFSET;
    let mut i: usize = 0;
    while i < bytes.len()
        invariant
            i <= bytes@.len(),
            h == fnv1a_bytes(bytes@.take(i as int)),
        decreases bytes@.len() - i,
    {
        assert(bytes@.take(i as int + 1).drop_last() =~= bytes@.take(i as int));
        h = (h ^ (bytes[i] as u64)).wrapping_mul(FNV_PRIME);
        i = i + 1;
    }
    assert(bytes@.take(bytes@.len() as int) =~= bytes@);
    h
}

/// The wire tag: the lower 32 bits of the full hash.
pub fn tag_of(full_hash: u64) -> (t: u32)
    ensures
        t == full_hash % 0x1_0000_0000,
{
    (full_hash % 0x1_0000_0000) as u32
}

/// The canonical name of a type written `ty`: `&str` and `String` are `str`;
/// any other type keeps its (trimmed) spelling.
pub open spec fn canonical_type_of(ty: Seq<char>) -> Seq<char> {
    let t = trim_ws(ty);
    if t == "&str"@ || t == "String"@ || t == "& str"@ { "str"@ } else { t }
}

/// Map a Rust type path string to its canonical name.
pub fn canonical_type(ty: &str) -> (r: String)
    ensures
        r@ == canonical_type_of(ty@),
{
    let t = trim(ty);
    let tb = t.as_bytes();
    if bytes_eq(tb, "&str".as_bytes()) || bytes_eq(tb, "String".as_bytes()) || bytes_eq(tb, "& str".as_bytes()) {
        proof { lemma_bytes_eq_chars(t, tb@); }
        "str".to_owned()
    } else {
        proof {
            reveal_strlit("&str");
            reveal_strlit("String");
            reveal_strlit("& str");
            lemma_bytes_differ(t, "&str");
            lemma_bytes_differ(t, "String");
            lemma_bytes_differ(t, "& str");
        }
        t.to_owned()
    }
}

proof fn lemma_bytes_eq_chars(t: &str, b: Seq<u8>)
    requires
        b == t.spec_bytes(),
        b == "&str".spec_bytes() || b == "String".spec_bytes() || b == "& str".spec_bytes(),
    ensures
        t@ == "&str"@ || t@ == "String"@ || t@ == "& str"@,
{
    vstd::utf8::encode_utf8_decode_utf8(t@);
    vstd::utf8::encode_utf8_decode_utf8("&str"@);
    vstd::utf8::encode_utf8_decode_utf8("String"@);
    vstd::utf8::encode_utf8_decode_utf8("& str"@);
}

proof fn lemma_bytes_differ(t: &str, u: &str)
    ensures
        t.spec_bytes() != u.spec_bytes() ==> t@ != u@,
{
}

/// The canonical hash input of a struct: a `struct` line, a `format` line when
/// there is a format string, and one `field <name> <type>` line per field.
pub open spec fn struct_hash_text(name: Seq<char>, format: Option<Seq<char>>, fields: Seq<(Seq<char>, Seq<char>)>) -> Seq<char> {
    "struct "@ + name + "\n"@ + format_line(format) + field_lines(fields)
}

/// The canonical hash input of an enum variant.
pub open spec fn variant_hash_text(enum_name: Seq<char>, variant: Seq<char>, format: Option<Seq<char>>, fields: Seq<(Seq<char>, Seq<char>)>) -> Seq<char> {
    "variant "@ + enum_name + "::"@ + variant + "\n"@ + format_line(format) + field_lines(fields)
}

pub open spec fn format_line(format: Option<Seq<char>>) -> Seq<char> {
    match format {
        Some(f) => "format "@ + f + "\n"@,
        None => Seq::empty(),
    }
}

pub open spec fn field_lines(fields: Seq<(Seq<char>, Seq<char>)>) -> Seq<char>
    decreases fields.len(),
{
    if fields.len() == 0 {
        Seq::empty()
    } else {
        field_lines(fields.drop_last()) + "field "@ + fields.last().0 + " "@ + fields.last().1 + "\n"@
    }
}

pub open spec fn field_views(fields: Seq<(&str, &str)>) -> Seq<(Seq<char>, Seq<char>)> {
    fields.map_values(|f: (&str, &str)| (f.0@, f.1@))
}

pub open spec fn opt_view(s: Option<&str>) -> Option<Seq<char>> {
    match s {
        Some(x) => Some(x@),
        None => None,
    }
}

fn push_format_and_fields(s: &mut String, format_str: Option<&str>, fields: &[(&str, &str)])
    ensures
        final(s)@ == old(s)@ + format_line(opt_view(format_str)) + field_lines(field_views(fields@)),
{
    if let Some(fmt) = format_str {
        s.append("format ");
        s.append(fmt);
        s.append("\n");
    }
    let ghost base = s@;
    assert(base == old(s)@ + format_line(opt_view(format_str)));
    let mut i: usize = 0;
    while i < fields.len()
        invariant
            i <= fields@.len(),
            s@ == base + field_lines(field_views(fields@.take(i as int))),
        decreases fields@.len() - i,
    {
        let (fname, ftype) = fields[i];
        s.append("field ");
        s.append(fname);
        s.append(" ");
        s.append(ftype);
        s.append("\n");
        proof {
            let fv = field_views(fields@.take(i as int + 1));
            assert(fv.drop_last() =~= field_views(fields@.take(i as int)));
            assert(fv.last() == (fname@, ftype@));
            assert(s@ =~= base + field_lines(fv));
        }
        i = i + 1;
    }
    assert(fields@.take(fields@.len() as int) =~= fields@);
}

/// Build the canonical hash input string for a struct.
pub fn struct_hash_input(name: &str, format_str: Option<&str>, fields: &[(&str, &str)]) -> (r: String)
    ensures
        r@ == struct_hash_text(name@, opt_view(format_str), field_views(fields@)),
{
    let mut s = String::from_str("struct ");
    s.append(name);
    s.append("\n");
    push_format_and_fields(&mut s, format_str, fields);
    s
}

/// Build the canonical hash input string for an enum variant.
pub fn variant_hash_input(enum_name: &str, variant_name: &str, format_str: Option<&str>, fields: &[(&str, &str)]) -> (r: String)
    ensures
        r@ == variant_hash_text(enum_name@, variant_name@, opt_view(format_str), field_views(fields@)),
{
    let mut s = String::from_str("variant ");
    s.append(enum_name);
    s.append("::");
    s.append(variant_name);
    s.append("\n");
    push_format_and_fields(&mut s, format_str, fields);
    s
}

/// The `u32` handle of an interned string: the lower 32 bits of its FNV-1a hash.
pub fn zfmt_str(s: &str) -> (h: u32)
    ensures
        h == fnv1a_bytes(s.spec_bytes()) % 0x1_0000_0000,
{
    tag_of(fnv1a_64(s))
}

} // verus!
