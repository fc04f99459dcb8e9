//! The canonical test firmware: four event types as the `Zfmt` derive
//! generates them, the values it logs, and the byte stream it produces.

use vstd::prelude::*;
use vstd::string::*;
use crate::events::{DebugMessage, EventHeader, Severity, ZfmtEvent, message_bytes};
use crate::format::{Format, FormatInto, FormatSpec, ZfmtStr, ZfmtU64, fw_int_text, fw_uint_text, plain_format_spec, zfmt_str_spec};
use crate::output::{event_frame_head, event_message};
use crate::text::{append_bytes, le_bytes, push_le};
use crate::write::{Error, Write, lemma_bounded_chain, lemma_bounded_nothing, lemma_bounded_one};

verus! {

pub const HEARTBEAT_TIMESTAMP: u64 = 1_000;
pub const HEARTBEAT_UPTIME_MS: u32 = 5_000;
pub const TEMP_CELSIUS_X10: i16 = 215;
pub const TEMP_SENSOR_ID: u8 = 3;
pub const ALERT_CODE: u32 = 42;
pub const NAMED_SEQ: u32 = 7;

/// A periodic heartbeat event emitted once per second.
#[derive(Debug, Clone, Copy, PartialEq, Eq)]
pub struct Heartbeat {
    pub timestamp: u64,
    pub uptime_ms: u32,
}

/// Temperature reading from a sensor.
#[derive(Debug, Clone, Copy, PartialEq, Eq)]
pub struct TempReading {
    pub celsius_x10: i16,
    pub sensor_id: u8,
}

/// An alert condition: each variant is an event of its own.
#[derive(Debug, Clone, Copy, PartialEq, Eq)]
pub enum Alert {
    Critical { code: u32 },
    Warning,
}

/// An event whose `label` is an interned string.
#[derive(Debug, Clone, Copy, PartialEq, Eq)]
pub struct NamedEvent {
    pub label: ZfmtStr,
    pub seq: u32,
}

impl Heartbeat {
    pub const ZFMT_TAG: u32 = 0x5f76dd82;
    pub const ZFMT_FULL_HASH: u64 = 0x43eb3fc25f76dd82;
}

impl TempReading {
    pub const ZFMT_TAG: u32 = 0x07c7df86;
    pub const ZFMT_FULL_HASH: u64 = 0x97c9f20307c7df86;
}

impl Alert {
    pub const CRITICAL_ZFMT_TAG: u32 = 0x95741dab;
    pub const CRITICAL_ZFMT_FULL_HASH: u64 = 0xa0b438b495741dab;
    pub const WARNING_ZFMT_TAG: u32 = 0x0f30b35b;
    pub const WARNING_ZFMT_FULL_HASH: u64 = 0xf5245b850f30b35b;
}

impl NamedEvent {
    pub const ZFMT_TAG: u32 = 0x80653462;
    pub const ZFMT_FULL_HASH: u64 = 0xa5e17f8180653462;
}

pub open spec fn zero_bytes(n: nat) -> Seq<u8> {
    Seq::new(n, |i: int| 0u8)
}

impl ZfmtEvent for Heartbeat {
    open spec fn tag_spec(&self) -> u32 {
        Self::ZFMT_TAG
    }

    /// `repr(C)`: the two fields and four bytes of tail padding.
    open spec fn payload_spec(&self) -> Seq<u8> {
        le_bytes(self.timestamp as nat, 8) + le_bytes(self.uptime_ms as nat, 4) + zero_bytes(4)
    }

    fn zfmt_tag(&self) -> u32 {
        Self::ZFMT_TAG
    }

    fn payload_size(&self) -> usize {
        proof {
            crate::text::lemma_le_bytes_len(self.timestamp as nat, 8);
            crate::text::lemma_le_bytes_len(self.uptime_ms as nat, 4);
        }
        16
    }

    fn payload_bytes(&self) -> Vec<u8> {
        let mut out: Vec<u8> = Vec::new();
        push_le(&mut out, self.timestamp, 8);
        push_le(&mut out, self.uptime_ms as u64, 4);
        push_le(&mut out, 0, 4);
        proof { crate::text::lemma_le_bytes_value(zero_bytes(4)); }
        assert(le_bytes(0, 4) =~= zero_bytes(4)) by {
            reveal_with_fuel(le_bytes, 5);
        }
        out
    }
}

impl FormatInto for Heartbeat {
    open spec fn rendered(&self) -> Seq<u8> {
        "heartbeat ts=".spec_bytes() + fw_uint_text(self.timestamp as nat, false, plain_format_spec()) + " up=".spec_bytes()
            + fw_uint_text(self.uptime_ms as nat, false, plain_format_spec()) + "ms".spec_bytes()
    }

    fn format_into<W: Write>(&self, w: &mut W) -> (r: Result<(), Error>)
        ensures
            old(w).takes_all() ==> r is Ok && final(w).takes_all(),
    {
        let ghost w0 = *w;
        let spec = FormatSpec::default();
        let ghost full = self.rendered();
        let ghost done = Seq::<u8>::empty();
        proof { lemma_bounded_nothing(w0); }
        let ghost wb = *w;
        let ghost piece = "heartbeat ts=".spec_bytes();
        let r = w.write_str("heartbeat ts=");
        proof {
            lemma_bounded_one(wb, *w, piece, r);
            assert(full.take((done + piece).len() as int) =~= done + piece);
            lemma_bounded_chain(w0, wb, *w, done, piece, full, r);
        }
        if r.is_err() {
            return r;
        }
        let ghost done = done + piece;
        let ghost wb = *w;
        let ghost piece = fw_uint_text(self.timestamp as nat, false, plain_format_spec());
        let r = self.timestamp.fmt(w, spec);
        proof {
            assert(full.take((done + piece).len() as int) =~= done + piece);
            lemma_bounded_chain(w0, wb, *w, done, piece, full, r);
        }
        if r.is_err() {
            return r;
        }
        let ghost done = done + piece;
        let ghost wb = *w;
        let ghost piece = " up=".spec_bytes();
        let r = w.write_str(" up=");
        proof {
            lemma_bounded_one(wb, *w, piece, r);
            assert(full.take((done + piece).len() as int) =~= done + piece);
            lemma_bounded_chain(w0, wb, *w, done, piece, full, r);
        }
        if r.is_err() {
            return r;
        }
        let ghost done = done + piece;
        let ghost wb = *w;
        let ghost piece = fw_uint_text(self.uptime_ms as nat, false, plain_format_spec());
        let r = self.uptime_ms.fmt(w, spec);
        proof {
            assert(full.take((done + piece).len() as int) =~= done + piece);
            lemma_bounded_chain(w0, wb, *w, done, piece, full, r);
        }
        if r.is_err() {
            return r;
        }
        let ghost done = done + piece;
        let ghost wb = *w;
        let ghost piece = "ms".spec_bytes();
        let r = w.write_str("ms");
        proof {
            lemma_bounded_one(wb, *w, piece, r);
            assert(full.take((done + piece).len() as int) =~= done + piece);
            lemma_bounded_chain(w0, wb, *w, done, piece, full, r);
            assert(done + piece =~= full);
        }
        r
    }
}

impl ZfmtEvent for TempReading {
    open spec fn tag_spec(&self) -> u32 {
        Self::ZFMT_TAG
    }

    /// `repr(C)`: the two fields and one byte of tail padding.
    open spec fn payload_spec(&self) -> Seq<u8> {
        le_bytes((self.celsius_x10 as u16) as nat, 2) + le_bytes(self.sensor_id as nat, 1) + zero_bytes(1)
    }

    fn zfmt_tag(&self) -> u32 {
        Self::ZFMT_TAG
    }

    fn payload_size(&self) -> usize {
        proof {
            crate::text::lemma_le_bytes_len((self.celsius_x10 as u16) as nat, 2);
            crate::text::lemma_le_bytes_len(self.sensor_id as nat, 1);
        }
        4
    }

    fn payload_bytes(&self) -> Vec<u8> {
        let mut out: Vec<u8> = Vec::new();
        push_le(&mut out, (self.celsius_x10 as u16) as u64, 2);
        push_le(&mut out, self.sensor_id as u64, 1);
        push_le(&mut out, 0, 1);
        assert(le_bytes(0, 1) =~= zero_bytes(1)) by {
            reveal_with_fuel(le_bytes, 2);
        }
        out
    }
}

impl FormatInto for TempReading {
    open spec fn rendered(&self) -> Seq<u8> {
        "temp celsius_x10=".spec_bytes() + fw_int_text(self.celsius_x10 as int, (self.celsius_x10 as u16) as nat, plain_format_spec())
            + " sensor=".spec_bytes() + fw_uint_text(self.sensor_id as nat, false, plain_format_spec())
    }

    fn format_into<W: Write>(&self, w: &mut W) -> (r: Result<(), Error>)
        ensures
            old(w).takes_all() ==> r is Ok && final(w).takes_all(),
    {
        let ghost w0 = *w;
        let spec = FormatSpec::default();
        let ghost full = self.rendered();
        let ghost done = Seq::<u8>::empty();
        proof { lemma_bounded_nothing(w0); }
        let ghost wb = *w;
        let ghost piece = "temp celsius_x10=".spec_bytes();
        let r = w.write_str("temp celsius_x10=");
        proof {
            lemma_bounded_one(wb, *w, piece, r);
            assert(full.take((done + piece).len() as int) =~= done + piece);
            lemma_bounded_chain(w0, wb, *w, done, piece, full, r);
        }
        if r.is_err() {
            return r;
        }
        let ghost done = done + piece;
        let ghost wb = *w;
        let ghost piece = fw_int_text(self.celsius_x10 as int, (self.celsius_x10 as u16) as nat, plain_format_spec());
        let r = self.celsius_x10.fmt(w, spec);
        proof {
            assert(full.take((done + piece).len() as int) =~= done + piece);
            lemma_bounded_chain(w0, wb, *w, done, piece, full, r);
        }
        if r.is_err() {
            return r;
        }
        let ghost done = done + piece;
        let ghost wb = *w;
        let ghost piece = " sensor=".spec_bytes();
        let r = w.write_str(" sensor=");
        proof {
            lemma_bounded_one(wb, *w, piece, r);
            assert(full.take((done + piece).len() as int) =~= done + piece);
            lemma_bounded_chain(w0, wb, *w, done, piece, full, r);
        }
        if r.is_err() {
            return r;
        }
        let ghost done = done + piece;
        let ghost wb = *w;
        let ghost piece = fw_uint_text(self.sensor_id as nat, false, plain_format_spec());
        let r = self.sensor_id.fmt(w, spec);
        proof {
            assert(full.take((done + piece).len() as int) =~= done + piece);
            lemma_bounded_chain(w0, wb, *w, done, piece, full, r);
            assert(done + piece =~= full);
        }
        r
    }
}

impl ZfmtEvent for Alert {
    open spec fn tag_spec(&self) -> u32 {
        match self {
            Alert::Critical { .. } => Self::CRITICAL_ZFMT_TAG,
            Alert::Warning => Self::WARNING_ZFMT_TAG,
        }
    }

    open spec fn payload_spec(&self) -> Seq<u8> {
        match self {
            Alert::Critical { code } => le_bytes(*code as nat, 4),
            Alert::Warning => Seq::empty(),
        }
    }

    fn zfmt_tag(&self) -> u32 {
        match self {
            Alert::Critical { .. } => Self::CRITICAL_ZFMT_TAG,
            Alert::Warning => Self::WARNING_ZFMT_TAG,
        }
    }

    fn payload_size(&self) -> usize {
        match self {
            Alert::Critical { code } => {
                proof { crate::text::lemma_le_bytes_len(*code as nat, 4); }
                4
            },
            Alert::Warning => 0,
        }
    }

    fn payload_bytes(&self) -> Vec<u8> {
        let mut out: Vec<u8> = Vec::new();
        match self {
            Alert::Critical { code } => push_le(&mut out, *code as u64, 4),
            Alert::Warning => {},
        }
        out
    }
}

impl FormatInto for Alert {
    open spec fn rendered(&self) -> Seq<u8> {
        match self {
            Alert::Critical { code } => "alert critical code=".spec_bytes() + fw_uint_text(*code as nat, false, plain_format_spec()),
            Alert::Warning => "alert warning".spec_bytes(),
        }
    }

    fn format_into<W: Write>(&self, w: &mut W) -> (r: Result<(), Error>)
        ensures
            old(w).takes_all() ==> r is Ok && final(w).takes_all(),
    {
        match self {
            Alert::Critical { code } => {
                let ghost w0 = *w;
                let spec = FormatSpec::default();
                let ghost full = self.rendered();
                let ghost done = Seq::<u8>::empty();
                proof { lemma_bounded_nothing(w0); }
                let ghost wb = *w;
                let ghost piece = "alert critical code=".spec_bytes();
                let r = w.write_str("alert critical code=");
                proof {
                    lemma_bounded_one(wb, *w, piece, r);
                    assert(full.take((done + piece).len() as int) =~= done + piece);
                    lemma_bounded_chain(w0, wb, *w, done, piece, full, r);
                }
                if r.is_err() {
                    return r;
                }
                let ghost done = done + piece;
                let ghost wb = *w;
                let ghost piece = fw_uint_text(*code as nat, false, plain_format_spec());
                let r = code.fmt(w, spec);
                proof {
                    assert(full.take((done + piece).len() as int) =~= done + piece);
                    lemma_bounded_chain(w0, wb, *w, done, piece, full, r);
                    assert(done + piece =~= full);
                }
                r
            },
            Alert::Warning => {
                let ghost w0 = *w;
                let r = w.write_str("alert warning");
                proof { lemma_bounded_one(w0, *w, "alert warning".spec_bytes(), r); }
                r
            },
        }
    }
}

impl ZfmtEvent for NamedEvent {
    open spec fn tag_spec(&self) -> u32 {
        Self::ZFMT_TAG
    }

    open spec fn payload_spec(&self) -> Seq<u8> {
        le_bytes(self.label.0 as nat, 4) + le_bytes(self.seq as nat, 4)
    }

    fn zfmt_tag(&self) -> u32 {
        Self::ZFMT_TAG
    }

    fn payload_size(&self) -> usize {
        proof {
            crate::text::lemma_le_bytes_len(self.label.0 as nat, 4);
            crate::text::lemma_le_bytes_len(self.seq as nat, 4);
        }
        8
    }

    fn payload_bytes(&self) -> Vec<u8> {
        let mut out: Vec<u8> = Vec::new();
        push_le(&mut out, self.label.0 as u64, 4);
        push_le(&mut out, self.seq as u64, 4);
        out
    }
}

impl FormatInto for NamedEvent {
    open spec fn rendered(&self) -> Seq<u8> {
        "named label=".spec_bytes() + fw_uint_text(self.label.0 as nat, false, zfmt_str_spec(plain_format_spec()))
            + " seq=".spec_bytes() + fw_uint_text(self.seq as nat, false, plain_format_spec())
    }

    fn format_into<W: Write>(&self, w: &mut W) -> (r: Result<(), Error>)
        ensures
            old(w).takes_all() ==> r is Ok && final(w).takes_all(),
    {
        let ghost w0 = *w;
        let spec = FormatSpec::default();
        let ghost full = self.rendered();
        let ghost done = Seq::<u8>::empty();
        proof { lemma_bounded_nothing(w0); }
        let ghost wb = *w;
        let ghost piece = "named label=".spec_bytes();
        let r = w.write_str("named label=");
        proof {
            lemma_bounded_one(wb, *w, piece, r);
            assert(full.take((done + piece).len() as int) =~= done + piece);
            lemma_bounded_chain(w0, wb, *w, done, piece, full, r);
        }
        if r.is_err() {
            return r;
        }
        let ghost done = done + piece;
        let ghost wb = *w;
        let ghost piece = fw_uint_text(self.label.0 as nat, false, zfmt_str_spec(plain_format_spec()));
        let r = self.label.fmt(w, spec);
        proof {
            assert(full.take((done + piece).len() as int) =~= done + piece);
            lemma_bounded_chain(w0, wb, *w, done, piece, full, r);
        }
        if r.is_err() {
            return r;
        }
        let ghost done = done + piece;
        let ghost wb = *w;
        let ghost piece = " seq=".spec_bytes();
        let r = w.write_str(" seq=");
        proof {
            lemma_bounded_one(wb, *w, piece, r);
            assert(full.take((done + piece).len() as int) =~= done + piece);
            lemma_bounded_chain(w0, wb, *w, done, piece, full, r);
        }
        if r.is_err() {
            return r;
        }
        let ghost done = done + piece;
        let ghost wb = *w;
        let ghost piece = fw_uint_text(self.seq as nat, false, plain_format_spec());
        let r = self.seq.fmt(w, spec);
        proof {
            assert(full.take((done + piece).len() as int) =~= done + piece);
            lemma_bounded_chain(w0, wb, *w, done, piece, full, r);
            assert(done + piece =~= full);
        }
        r
    }
}

/// A message as the 256-byte flat adapter hands it on: cut to 256 bytes.
pub open spec fn flat256(m: Seq<u8>) -> Seq<u8> {
    if m.len() <= 256 { m } else { m.take(256) }
}

/// The header the test logger gives every event: timestamp 0, sequence 0.
pub open spec fn fixture_header(sev: Severity) -> EventHeader {
    EventHeader {
        timestamp: ZfmtU64 { lo: 0, hi: 0 },
        severity: crate::events::severity_num(sev),
        seq: [0u8, 0u8, 0u8],
    }
}

/// The message of one logged event.
pub open spec fn fixture_message(sev: Severity, tag: u32, payload: Seq<u8>) -> Seq<u8> {
    flat256(event_message(fixture_header(sev), tag, payload))
}

/// The text of the closing debug note.
pub open spec fn debug_note() -> Seq<u8> {
    "debug note seq=7".spec_bytes()
}

/// The canonical test stream, message by message.
pub open spec fn test_stream_spec() -> Seq<u8> {
    let hb = Heartbeat { timestamp: HEARTBEAT_TIMESTAMP, uptime_ms: HEARTBEAT_UPTIME_MS };
    let tr = TempReading { celsius_x10: TEMP_CELSIUS_X10, sensor_id: TEMP_SENSOR_ID };
    let cr = Alert::Critical { code: ALERT_CODE };
    let wa = Alert::Warning;
    let ne = NamedEvent { label: ZfmtStr((crate::hash::fnv1a_bytes("firmware node".spec_bytes()) % 0x1_0000_0000) as u32), seq: NAMED_SEQ };
    fixture_message(Severity::Info, hb.tag_spec(), hb.payload_spec())
        + fixture_message(Severity::Warn, tr.tag_spec(), tr.payload_spec())
        + fixture_message(Severity::Error, cr.tag_spec(), cr.payload_spec())
        + fixture_message(Severity::Info, wa.tag_spec(), wa.payload_spec())
        + fixture_message(Severity::Info, ne.tag_spec(), ne.payload_spec())
        + fixture_message(Severity::Fatal, DebugMessage::ZFMT_TAG, message_bytes(debug_note()))
}

/// What the 256-byte flat adapter is delivered when an event is logged
/// through it is what its transport is sent: the event's message cut to 256
/// bytes, the message `fixture_message` describes under the fixture header.
pub proof fn law_flat256_sends_the_cut_message<L: crate::logger::FlatSend>(
    a: crate::logger::FlatAdapter<L, 256>, hdr: EventHeader, tag: u32, payload: Seq<u8>,
)
    ensures
        crate::logger::Logger::delivered(&a, crate::output::event_parts(hdr, tag, payload))
            == a.inner_spec().sent(flat256(event_message(hdr, tag, payload))),
{
    crate::logger::lemma_concat_two(crate::output::event_head(hdr, tag, payload.len()), payload);
}

proof fn lemma_zero_seq(s: Seq<u8>)
    requires
        s.len() == 3,
        crate::text::le_value(s) == 0,
    ensures
        s =~= seq![0u8, 0u8, 0u8],
{
    reveal_with_fuel(crate::text::le_value, 4);
    assert(s.drop_first().drop_first().drop_first().len() == 0);
}

/// Append one logged event's message: its two slices (as `send_event` sends
/// them) joined and cut to 256 bytes, as `FlatAdapter::<_, 256>` hands them on.
fn push_message<E: ZfmtEvent>(out: &mut Vec<u8>, sev: Severity, ev: &E)
    ensures
        final(out)@ == old(out)@ + fixture_message(sev, ev.tag_spec(), ev.payload_spec()),
{
    let hdr = EventHeader::new(ZfmtU64::new(0, 0), sev, 0);
    proof {
        lemma_zero_seq(hdr.seq@);
        assert(crate::events::header_bytes(hdr) =~= crate::events::header_bytes(fixture_header(sev)));
    }
    let payload = ev.payload_bytes();
    let head = event_frame_head(&hdr, ev.zfmt_tag(), payload.len());
    let bufs: [&[u8]; 2] = [head.as_slice(), payload.as_slice()];
    let msg = crate::logger::flat_assemble(&bufs, 256);
    proof {
        assert(crate::logger::slices_view(bufs@) =~= seq![head@, payload@]);
        crate::logger::lemma_concat_two(head@, payload@);
    }
    append_bytes(out, msg.as_slice());
}

/// The byte stream of the canonical test scenario: three events at Info,
/// Warn and Error, the warning variant and the named event at Info, then a
/// debug note at Fatal.
pub fn generate_test_stream() -> (r: Vec<u8>)
    ensures
        r@ == test_stream_spec(),
{
    let mut out: Vec<u8> = Vec::new();
    push_message(&mut out, Severity::Info, &Heartbeat { timestamp: HEARTBEAT_TIMESTAMP, uptime_ms: HEARTBEAT_UPTIME_MS });
    push_message(&mut out, Severity::Warn, &TempReading { celsius_x10: TEMP_CELSIUS_X10, sensor_id: TEMP_SENSOR_ID });
    push_message(&mut out, Severity::Error, &Alert::Critical { code: ALERT_CODE });
    push_message(&mut out, Severity::Info, &Alert::Warning);
    let label = crate::hash::zfmt_str("firmware node");
    push_message(&mut out, Severity::Info, &NamedEvent { label: ZfmtStr::new(label), seq: NAMED_SEQ });
    push_message(&mut out, Severity::Fatal, &DebugMessage { message: "debug note seq=7" });
    out
}

} // verus!
