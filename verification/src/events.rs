//! Well-known events: `EventHeader`, `StreamStart`, `DroppedEvents`,
//! `DebugMessage`, the `Severity` levels, and the `ZfmtEvent` trait that
//! every event implements.

use vstd::prelude::*;
use vstd::string::*;
use crate::format::{Format, FormatInto, FormatSpec, ZfmtU64, plain_format_spec, fw_uint_text};
use crate::leb128::{encode, encoded_len, leb128_bytes};
use crate::text::{le_bytes, le_value, push_le, read_u32_le, read_le, append_bytes};
use crate::write::{Error, Write};

verus! {

/// Implemented by every event type: its tag and its serialized payload.
pub trait ZfmtEvent {
    closed spec fn tag_spec(&self) -> u32 {
        0
    }

    closed spec fn payload_spec(&self) -> Seq<u8> {
        Seq::empty()
    }

    fn zfmt_tag(&self) -> (t: u32)
        ensures
            t == self.tag_spec(),
    ;

    fn payload_size(&self) -> (n: usize)
        requires
            self.payload_spec().len() <= usize::MAX,
        ensures
            n == self.payload_spec().len(),
    ;

    /// The serialized payload.
    fn payload_bytes(&self) -> (b: Vec<u8>)
        ensures
            b@ == self.payload_spec(),
    ;
}

/// Log severity level, from least to most severe; its number is its position.
#[derive(Debug, Clone, Copy, PartialEq, Eq, Structural, PartialOrd, Ord)]
pub enum Severity {
    Trace,
    Debug,
    Info,
    Warn,
    Error,
    Fatal,
}

/// The number of a severity: its position from 0.
pub open spec fn severity_num(s: Severity) -> u8 {
    match s {
        Severity::Trace => 0,
        Severity::Debug => 1,
        Severity::Info => 2,
        Severity::Warn => 3,
        Severity::Error => 4,
        Severity::Fatal => 5,
    }
}

/// The name of severity number `n` (`?` for numbers above 5).
pub open spec fn severity_name(n: u8) -> Seq<u8> {
    if n == 0 { "TRACE".spec_bytes() }
    else if n == 1 { "DEBUG".spec_bytes() }
    else if n == 2 { "INFO".spec_bytes() }
    else if n == 3 { "WARN".spec_bytes() }
    else if n == 4 { "ERROR".spec_bytes() }
    else if n == 5 { "FATAL".spec_bytes() }
    else { "?".spec_bytes() }
}

/// The name of severity number `n`.
fn severity_str(n: u8) -> (s: &'static str)
    ensures
        s.spec_bytes() == severity_name(n),
{
    if n == 0 { "TRACE" }
    else if n == 1 { "DEBUG" }
    else if n == 2 { "INFO" }
    else if n == 3 { "WARN" }
    else if n == 4 { "ERROR" }
    else if n == 5 { "FATAL" }
    else { "?" }
}

impl Severity {
    /// The severity's number.
    pub fn as_u8(self) -> (n: u8)
        ensures
            n == severity_num(self),
    {
        match self {
            Severity::Trace => 0,
            Severity::Debug => 1,
            Severity::Info => 2,
            Severity::Warn => 3,
            Severity::Error => 4,
            Severity::Fatal => 5,
        }
    }
}

impl Format for Severity {
    open spec fn format_text(&self, spec: FormatSpec) -> Seq<u8> {
        severity_name(severity_num(*self))
    }

    /// The name, whatever the spec.
    fn fmt<W: Write>(&self, writer: &mut W, spec: FormatSpec) -> (r: Result<(), Error>)
        ensures
            old(writer).takes_all() ==> r is Ok && final(writer).takes_all(),
            crate::write::bounded_write(*old(writer), *final(writer), self.format_text(spec), r),
    {
        let ghost w0 = *writer;
        let t = severity_str(self.as_u8());
        let r = writer.write_str(t);
        proof { crate::write::lemma_bounded_one(w0, *writer, t.spec_bytes(), r); }
        r
    }
}

/// Copy `src` into `buf` at `at`.
fn put_bytes(buf: &mut [u8], at: usize, src: &[u8])
    requires
        at + src@.len() <= old(buf)@.len(),
    ensures
        final(buf)@.len() == old(buf)@.len(),
        final(buf)@.subrange(at as int, at + src@.len()) == src@,
        forall|i: int| 0 <= i < at ==> final(buf)@[i] == old(buf)@[i],
        forall|i: int| at + src@.len() <= i < old(buf)@.len() ==> final(buf)@[i] == old(buf)@[i],
{
    let mut i: usize = 0;
    while i < src.len()
        invariant
            i <= src@.len(),
            at + src@.len() <= buf.len(),
            buf@.len() == old(buf)@.len(),
            forall|k: int| 0 <= k < i ==> buf@[at + k] == src@[k],
            forall|k: int| 0 <= k < at ==> buf@[k] == old(buf)@[k],
            forall|k: int| at + i <= k < old(buf)@.len() ==> buf@[k] == old(buf)@[k],
        decreases src@.len() - i,
    {
        buf[at + i] = src[i];
        i = i + 1;
    }
    assert(buf@.subrange(at as int, at + src@.len()) =~= src@);
}

// ---------------------------------------------------------------------------
// EventHeader

/// Precedes every log record: timestamp, severity and a 24-bit sequence number.
#[derive(Debug, Clone, Copy, PartialEq, Eq)]
pub struct EventHeader {
    pub timestamp: ZfmtU64,
    /// Raw severity number.
    pub severity: u8,
    /// Sequence number, 24 bits little-endian.
    pub seq: [u8; 3],
}

/// The 12 payload bytes of a header: timestamp low and high halves, severity,
/// sequence number.
pub open spec fn header_bytes(h: EventHeader) -> Seq<u8> {
    le_bytes(h.timestamp.lo as nat, 4) + le_bytes(h.timestamp.hi as nat, 4) + seq![h.severity] + h.seq@
}

impl EventHeader {
    pub const ZFMT_TAG: u32 = 0xe43ae42d;
    pub const ZFMT_FULL_HASH: u64 = 0x5a19e4cfe43ae42d;

    /// The sequence number the header carries.
    pub open spec fn seq_spec(&self) -> nat {
        le_value(self.seq@)
    }

    /// A header for an event at `timestamp` with `severity`; `seq` is kept to
    /// its low 24 bits.
    pub fn new(timestamp: ZfmtU64, severity: Severity, seq: u32) -> (h: Self)
        ensures
            h.timestamp == timestamp,
            h.severity == severity_num(severity),
            h.seq_spec() == seq as nat % 0x100_0000,
    {
        let b0 = (seq % 256) as u8;
        let b1 = ((seq / 256) % 256) as u8;
        let b2 = ((seq / 65536) % 256) as u8;
        let h = EventHeader { timestamp, severity: severity.as_u8(), seq: [b0, b1, b2] };
        proof {
            reveal_with_fuel(le_value, 4);
            assert(h.seq@.drop_first().drop_first().drop_first() =~= Seq::<u8>::empty());
            assert(h.seq@.drop_first().drop_first() =~= seq![b2]);
            assert(h.seq@.drop_first() =~= seq![b1, b2]);
        }
        h
    }

    pub fn zfmt_tag(&self) -> (t: u32)
        ensures
            t == Self::ZFMT_TAG,
    {
        Self::ZFMT_TAG
    }

    pub fn payload_size(&self) -> (n: usize)
        ensures
            n == 12,
    {
        12
    }

    /// The sequence number.
    pub fn seq_value(&self) -> (v: u32)
        ensures
            v == self.seq_spec(),
    {
        proof {
            reveal_with_fuel(le_value, 4);
        }
        self.seq[0] as u32 + 256 * (self.seq[1] as u32 + 256 * self.seq[2] as u32)
    }

    /// The payload bytes.
    pub fn to_bytes(&self) -> (b: Vec<u8>)
        ensures
            b@ == header_bytes(*self),
            b@.len() == 12,
    {
        proof {
            crate::text::lemma_le_bytes_len(self.timestamp.lo as nat, 4);
            crate::text::lemma_le_bytes_len(self.timestamp.hi as nat, 4);
        }
        let mut out: Vec<u8> = Vec::new();
        push_le(&mut out, self.timestamp.lo as u64, 4);
        push_le(&mut out, self.timestamp.hi as u64, 4);
        out.push(self.severity);
        out.push(self.seq[0]);
        out.push(self.seq[1]);
        out.push(self.seq[2]);
        assert(out@ =~= header_bytes(*self));
        out
    }

    /// Write the payload bytes at the start of `buf`.
    pub fn serialize_into(&self, buf: &mut [u8])
        requires
            old(buf)@.len() >= 12,
        ensures
            final(buf)@.len() == old(buf)@.len(),
            final(buf)@.subrange(0, 12) == header_bytes(*self),
            forall|i: int| 12 <= i < old(buf)@.len() ==> final(buf)@[i] == old(buf)@[i],
    {
        let b = self.to_bytes();
        put_bytes(buf, 0, b.as_slice());
    }

    /// The header held in exactly 12 payload bytes.
    pub fn from_bytes(b: &[u8]) -> (r: Option<EventHeader>)
        ensures
            b@.len() == 12 <==> r is Some,
            r matches Some(h) ==> header_bytes(h) == b@,
    {
        if b.len() != 12 {
            return None;
        }
        let lo = read_u32_le(b, 0);
        let hi = read_u32_le(b, 4);
        let h = EventHeader { timestamp: ZfmtU64 { lo, hi }, severity: b[8], seq: [b[9], b[10], b[11]] };
        proof {
            crate::text::lemma_le_bytes_value(b@.subrange(0, 4));
            crate::text::lemma_le_bytes_value(b@.subrange(4, 8));
            assert(header_bytes(h) =~= b@);
        }
        Some(h)
    }

    /// `{timestamp} {severity}`: the timestamp in decimal and the severity's
    /// name, `?` for an unknown number.
    pub fn format_into<W: Write>(&self, writer: &mut W) -> (r: Result<(), Error>)
        ensures
            r is Ok ==> final(writer).written() == old(writer).written()
                + fw_uint_text(self.timestamp.value(), false, plain_format_spec()) + " ".spec_bytes()
                + severity_name(self.severity),
            old(writer).takes_all() ==> r is Ok && final(writer).takes_all(),
    {
        let spec = FormatSpec::default();
        let ghost w0 = writer.written();
        match self.timestamp.fmt(writer, spec) {
            Ok(()) => {}
            Err(e) => { return Err(e); }
        }
        match writer.write_str(" ") {
            Ok(()) => {}
            Err(e) => { return Err(e); }
        }
        let r = writer.write_str(severity_str(self.severity));
        assert(r is Ok ==> writer.written() =~= w0
            + fw_uint_text(self.timestamp.value(), false, plain_format_spec()) + " ".spec_bytes()
            + severity_name(self.severity));
        r
    }
}

impl ZfmtEvent for EventHeader {
    open spec fn tag_spec(&self) -> u32 {
        EventHeader::ZFMT_TAG
    }

    open spec fn payload_spec(&self) -> Seq<u8> {
        header_bytes(*self)
    }

    fn zfmt_tag(&self) -> u32 {
        EventHeader::ZFMT_TAG
    }

    fn payload_size(&self) -> usize {
        proof { crate::text::lemma_le_bytes_len(self.timestamp.lo as nat, 4); crate::text::lemma_le_bytes_len(self.timestamp.hi as nat, 4); }
        12
    }

    fn payload_bytes(&self) -> Vec<u8> {
        self.to_bytes()
    }
}

impl FormatInto for EventHeader {
    open spec fn rendered(&self) -> Seq<u8> {
        Seq::empty()
    }

    /// A header has no format string: nothing is written.
    fn format_into<W: Write>(&self, w: &mut W) -> (r: Result<(), Error>)
        ensures
            r is Ok,
            *final(w) == *old(w),
    {
        assert(w.written() =~= w.written() + Seq::<u8>::empty());
        proof { crate::write::lemma_bounded_nothing(*w); }
        Ok(())
    }
}


// ---------------------------------------------------------------------------
// StreamStart

/// First event in every stream: protocol version, tick rate and build id.
#[derive(Debug, Clone, Copy, PartialEq, Eq)]
pub struct StreamStart {
    pub protocol_version: u16,
    pub _pad0: [u8; 2],
    pub tick_rate_hz: ZfmtU64,
    pub firmware_build_id: ZfmtU64,
}

/// The 20 payload bytes of a `StreamStart`.
pub open spec fn stream_start_bytes(s: StreamStart) -> Seq<u8> {
    le_bytes(s.protocol_version as nat, 2) + s._pad0@
        + le_bytes(s.tick_rate_hz.lo as nat, 4) + le_bytes(s.tick_rate_hz.hi as nat, 4)
        + le_bytes(s.firmware_build_id.lo as nat, 4) + le_bytes(s.firmware_build_id.hi as nat, 4)
}

impl StreamStart {
    pub const ZFMT_TAG: u32 = 0x0ef1ba00;
    pub const ZFMT_FULL_HASH: u64 = 0x1aaef8910ef1ba00;
    /// The protocol version this library speaks: 2 adds sequence numbers.
    pub const PROTOCOL_VERSION: u16 = 2;

    pub fn zfmt_tag(&self) -> (t: u32)
        ensures
            t == Self::ZFMT_TAG,
    {
        Self::ZFMT_TAG
    }

    pub fn payload_size(&self) -> (n: usize)
        ensures
            n == 20,
    {
        20
    }

    /// The payload bytes.
    pub fn to_bytes(&self) -> (b: Vec<u8>)
        ensures
            b@ == stream_start_bytes(*self),
            b@.len() == 20,
    {
        proof {
            crate::text::lemma_le_bytes_len(self.protocol_version as nat, 2);
            crate::text::lemma_le_bytes_len(self.tick_rate_hz.lo as nat, 4);
            crate::text::lemma_le_bytes_len(self.tick_rate_hz.hi as nat, 4);
            crate::text::lemma_le_bytes_len(self.firmware_build_id.lo as nat, 4);
            crate::text::lemma_le_bytes_len(self.firmware_build_id.hi as nat, 4);
        }
        let mut out: Vec<u8> = Vec::new();
        push_le(&mut out, self.protocol_version as u64, 2);
        out.push(self._pad0[0]);
        out.push(self._pad0[1]);
        push_le(&mut out, self.tick_rate_hz.lo as u64, 4);
        push_le(&mut out, self.tick_rate_hz.hi as u64, 4);
        push_le(&mut out, self.firmware_build_id.lo as u64, 4);
        push_le(&mut out, self.firmware_build_id.hi as u64, 4);
        assert(out@ =~= stream_start_bytes(*self));
        out
    }

    /// Write the payload bytes at the start of `buf`.
    pub fn serialize_into(&self, buf: &mut [u8])
        requires
            old(buf)@.len() >= 20,
        ensures
            final(buf)@.len() == old(buf)@.len(),
            final(buf)@.subrange(0, 20) == stream_start_bytes(*self),
            forall|i: int| 20 <= i < old(buf)@.len() ==> final(buf)@[i] == old(buf)@[i],
    {
        let b = self.to_bytes();
        put_bytes(buf, 0, b.as_slice());
    }
}

impl ZfmtEvent for StreamStart {
    open spec fn tag_spec(&self) -> u32 {
        StreamStart::ZFMT_TAG
    }

    open spec fn payload_spec(&self) -> Seq<u8> {
        stream_start_bytes(*self)
    }

    fn zfmt_tag(&self) -> u32 {
        StreamStart::ZFMT_TAG
    }

    fn payload_size(&self) -> usize {
        let b = self.to_bytes();
        b.len()
    }

    fn payload_bytes(&self) -> Vec<u8> {
        self.to_bytes()
    }
}

impl FormatInto for StreamStart {
    open spec fn rendered(&self) -> Seq<u8> {
        Seq::empty()
    }

    /// No format string: nothing is written.
    fn format_into<W: Write>(&self, w: &mut W) -> (r: Result<(), Error>)
        ensures
            r is Ok,
            *final(w) == *old(w),
    {
        assert(w.written() =~= w.written() + Seq::<u8>::empty());
        proof { crate::write::lemma_bounded_nothing(*w); }
        Ok(())
    }
}

// ---------------------------------------------------------------------------
// DroppedEvents

/// Emitted when the logger drops events.
#[derive(Debug, Clone, Copy, PartialEq, Eq)]
pub struct DroppedEvents {
    pub count: u32,
    pub _pad: [u8; 4],
}

/// The 8 payload bytes of a `DroppedEvents`.
pub open spec fn dropped_bytes(d: DroppedEvents) -> Seq<u8> {
    le_bytes(d.count as nat, 4) + d._pad@
}

impl DroppedEvents {
    pub const ZFMT_TAG: u32 = 0xe0ee1b4e;
    pub const ZFMT_FULL_HASH: u64 = 0xcb0b57d1e0ee1b4e;

    pub fn zfmt_tag(&self) -> (t: u32)
        ensures
            t == Self::ZFMT_TAG,
    {
        Self::ZFMT_TAG
    }

    pub fn payload_size(&self) -> (n: usize)
        ensures
            n == 8,
    {
        8
    }

    /// The payload bytes.
    pub fn to_bytes(&self) -> (b: Vec<u8>)
        ensures
            b@ == dropped_bytes(*self),
            b@.len() == 8,
    {
        proof { crate::text::lemma_le_bytes_len(self.count as nat, 4); }
        let mut out: Vec<u8> = Vec::new();
        push_le(&mut out, self.count as u64, 4);
        out.push(self._pad[0]);
        out.push(self._pad[1]);
        out.push(self._pad[2]);
        out.push(self._pad[3]);
        assert(out@ =~= dropped_bytes(*self));
        out
    }

    /// Write the payload bytes at the start of `buf`.
    pub fn serialize_into(&self, buf: &mut [u8])
        requires
            old(buf)@.len() >= 8,
        ensures
            final(buf)@.len() == old(buf)@.len(),
            final(buf)@.subrange(0, 8) == dropped_bytes(*self),
            forall|i: int| 8 <= i < old(buf)@.len() ==> final(buf)@[i] == old(buf)@[i],
    {
        let b = self.to_bytes();
        put_bytes(buf, 0, b.as_slice());
    }
}

impl ZfmtEvent for DroppedEvents {
    open spec fn tag_spec(&self) -> u32 {
        DroppedEvents::ZFMT_TAG
    }

    open spec fn payload_spec(&self) -> Seq<u8> {
        dropped_bytes(*self)
    }

    fn zfmt_tag(&self) -> u32 {
        DroppedEvents::ZFMT_TAG
    }

    fn payload_size(&self) -> usize {
        let b = self.to_bytes();
        b.len()
    }

    fn payload_bytes(&self) -> Vec<u8> {
        self.to_bytes()
    }
}

impl FormatInto for DroppedEvents {
    open spec fn rendered(&self) -> Seq<u8> {
        Seq::empty()
    }

    /// No format string: nothing is written.
    fn format_into<W: Write>(&self, w: &mut W) -> (r: Result<(), Error>)
        ensures
            r is Ok,
            *final(w) == *old(w),
    {
        assert(w.written() =~= w.written() + Seq::<u8>::empty());
        proof { crate::write::lemma_bounded_nothing(*w); }
        Ok(())
    }
}

// ---------------------------------------------------------------------------
// DebugMessage

/// Unstructured text message.
#[derive(Debug, Clone, Copy)]
pub struct DebugMessage<'a> {
    pub message: &'a str,
}

/// The payload of a message: the LEB128 length (as a 32-bit number), then the
/// UTF-8 bytes.
pub open spec fn message_bytes(text: Seq<u8>) -> Seq<u8> {
    leb128_bytes((text.len() as u32) as nat) + text
}

impl<'a> DebugMessage<'a> {
    pub const ZFMT_TAG: u32 = 0xa1a6a340;
    pub const ZFMT_FULL_HASH: u64 = 0xcef2c6c3a1a6a340;

    pub fn zfmt_tag(&self) -> (t: u32)
        ensures
            t == Self::ZFMT_TAG,
    {
        Self::ZFMT_TAG
    }

    pub fn payload_size(&self) -> (n: usize)
        requires
            message_bytes(self.message.spec_bytes()).len() <= usize::MAX,
        ensures
            n == message_bytes(self.message.spec_bytes()).len(),
    {
        let len = self.message.as_bytes().len();
        let n = encoded_len(len as u32 as u64);
        n + len
    }

    /// The payload bytes.
    pub fn to_bytes(&self) -> (b: Vec<u8>)
        ensures
            b@ == message_bytes(self.message.spec_bytes()),
    {
        let bytes = self.message.as_bytes();
        proof { crate::leb128::lemma_u64_fits_ten((bytes@.len() as u32) as u64); }
        let mut leb = [0u8; 10];
        let n = encode(bytes.len() as u32 as u64, &mut leb);
        let mut out: Vec<u8> = Vec::new();
        append_bytes(&mut out, vstd::slice::slice_subrange(leb.as_slice(), 0, n));
        append_bytes(&mut out, bytes);
        out
    }

    /// Write the payload bytes at the start of `buf`.
    pub fn serialize_into(&self, buf: &mut [u8])
        requires
            old(buf)@.len() >= message_bytes(self.message.spec_bytes()).len(),
        ensures
            final(buf)@.len() == old(buf)@.len(),
            final(buf)@.subrange(0, message_bytes(self.message.spec_bytes()).len() as int) == message_bytes(self.message.spec_bytes()),
            forall|i: int| message_bytes(self.message.spec_bytes()).len() <= i < old(buf)@.len() ==> final(buf)@[i] == old(buf)@[i],
    {
        let b = self.to_bytes();
        put_bytes(buf, 0, b.as_slice());
    }
}

impl<'a> FormatInto for DebugMessage<'a> {
    open spec fn rendered(&self) -> Seq<u8> {
        self.message.spec_bytes()
    }

    /// The message itself.
    fn format_into<W: Write>(&self, w: &mut W) -> (r: Result<(), Error>)
        ensures
            old(w).takes_all() ==> r is Ok && final(w).takes_all(),
    {
        let ghost w0 = *w;
        let r = w.write_str(self.message);
        proof { crate::write::lemma_bounded_one(w0, *w, self.message.spec_bytes(), r); }
        r
    }
}

impl<'a> ZfmtEvent for DebugMessage<'a> {
    open spec fn tag_spec(&self) -> u32 {
        Self::ZFMT_TAG
    }

    open spec fn payload_spec(&self) -> Seq<u8> {
        message_bytes(self.message.spec_bytes())
    }

    fn zfmt_tag(&self) -> u32 {
        Self::ZFMT_TAG
    }

    fn payload_size(&self) -> usize {
        DebugMessage::payload_size(self)
    }

    fn payload_bytes(&self) -> Vec<u8> {
        self.to_bytes()
    }
}

} // verus!
