//! Putting events on the wire: each frame is `tag (u32 LE)`, the LEB128
//! payload length, then the payload.  A logged event is an `EventHeader`
//! frame followed by the event's frame, sent as one message.

use vstd::prelude::*;
use crate::events::{DebugMessage, EventHeader, Severity, ZfmtEvent, header_bytes, message_bytes, severity_num};
use crate::textlog::TEXT_CAPACITY;
use crate::write::{FixedBuf, Write};
use crate::format::FormatInto;
use crate::leb128::{encode, leb128_bytes, lemma_u64_fits_ten};
use crate::logger::{Logger, slices_view, concat_all, lemma_concat_two};
use crate::text::{le_bytes, push_le, append_bytes};

verus! {

/// Tag and LEB128 length of a frame whose payload has `len` bytes (the length
/// taken as a 32-bit number).
pub open spec fn frame_head(tag: u32, len: nat) -> Seq<u8> {
    le_bytes(tag as nat, 4) + leb128_bytes((len as u32) as nat)
}

/// Append a frame head.
fn push_frame_head(out: &mut Vec<u8>, tag: u32, len: usize)
    ensures
        final(out)@ == old(out)@ + frame_head(tag, len as nat),
{
    push_le(out, tag as u64, 4);
    let v = len as u32 as u64;
    proof { lemma_u64_fits_ten(v); }
    let mut leb = [0u8; 10];
    let n = encode(v, &mut leb);
    append_bytes(out, vstd::slice::slice_subrange(leb.as_slice(), 0, n));
    assert(final(out)@ =~= old(out)@ + frame_head(tag, len as nat));
}

/// The head of a bare event: its tag and payload length.
pub fn bare_frame_head(tag: u32, payload_len: usize) -> (r: Vec<u8>)
    ensures
        r@ == frame_head(tag, payload_len as nat),
{
    let mut out: Vec<u8> = Vec::new();
    push_frame_head(&mut out, tag, payload_len);
    assert(out@ =~= frame_head(tag, payload_len as nat));
    out
}

/// Everything of a logged event before the event's payload: the header's
/// frame, then the event's tag and payload length.
pub open spec fn event_head(hdr: EventHeader, tag: u32, payload_len: nat) -> Seq<u8> {
    frame_head(EventHeader::ZFMT_TAG, 12) + header_bytes(hdr) + frame_head(tag, payload_len)
}

/// The bytes of a logged event before the event's payload.
/// A bare frame: tag, LEB128 length and payload.
pub open spec fn bare_frame(tag: u32, payload: Seq<u8>) -> Seq<u8> {
    frame_head(tag, payload.len()) + payload
}

/// The two slices a bare event is sent as: its frame head and its payload.
pub open spec fn bare_parts(tag: u32, payload: Seq<u8>) -> Seq<Seq<u8>> {
    seq![frame_head(tag, payload.len()), payload]
}

/// The two slices a logged event is sent as: everything before the payload
/// (header frame and the event's frame head), then the payload.
pub open spec fn event_parts(hdr: EventHeader, tag: u32, payload: Seq<u8>) -> Seq<Seq<u8>> {
    seq![event_head(hdr, tag, payload.len()), payload]
}

/// A header frame followed by the event's frame.
pub open spec fn event_message(hdr: EventHeader, tag: u32, payload: Seq<u8>) -> Seq<u8> {
    event_head(hdr, tag, payload.len()) + payload
}

/// The logger was handed the event's message under a header with `severity`,
/// a timestamp its clock gives, and the low 24 bits of a number its
/// `next_seq` returns.
pub open spec fn logged<L: Logger>(logger: L, severity: Severity, tag: u32, payload: Seq<u8>) -> bool {
    exists|hdr: EventHeader, n: u32|
        #![trigger logger.delivered(event_parts(hdr, tag, payload)), call_ensures(L::next_seq, (&logger,), n)]
        hdr.severity == severity_num(severity)
            && logger.clock_gives(hdr.timestamp)
            && call_ensures(L::next_seq, (&logger,), n)
            && hdr.seq_spec() == n as nat % 0x100_0000
            && logger.delivered(event_parts(hdr, tag, payload))
}

pub fn event_frame_head(hdr: &EventHeader, tag: u32, payload_len: usize) -> (r: Vec<u8>)
    ensures
        r@ == event_head(*hdr, tag, payload_len as nat),
{
    let mut out: Vec<u8> = Vec::new();
    push_frame_head(&mut out, EventHeader::ZFMT_TAG, 12);
    let hb = hdr.to_bytes();
    append_bytes(&mut out, hb.as_slice());
    push_frame_head(&mut out, tag, payload_len);
    assert(out@ =~= event_head(*hdr, tag, payload_len as nat));
    out
}

/// Send a bare event, without an `EventHeader`: one message of two slices,
/// the frame head (see `bare_frame_head`) and the payload.
pub fn send_bare_event<L: Logger, E: ZfmtEvent>(logger: &L, event: &E)
    ensures
        logger.delivered(bare_parts(event.tag_spec(), event.payload_spec())),
{
    let payload = event.payload_bytes();
    let head = bare_frame_head(event.zfmt_tag(), payload.len());
    let bufs: [&[u8]; 2] = [head.as_slice(), payload.as_slice()];
    proof {
        assert(slices_view(bufs@) =~= seq![head@, payload@]);
    }
    logger.send_vectored(&bufs);
}

/// Send an event after its header: one message of two slices, the head (see
/// `event_frame_head`) and the event's payload.
pub fn send_event<L: Logger, E: ZfmtEvent + FormatInto>(logger: &L, hdr: &EventHeader, event: &E)
    ensures
        logger.delivered(event_parts(*hdr, event.tag_spec(), event.payload_spec())),
{
    let payload = event.payload_bytes();
    let head = event_frame_head(hdr, event.zfmt_tag(), payload.len());
    let bufs: [&[u8]; 2] = [head.as_slice(), payload.as_slice()];
    proof {
        assert(slices_view(bufs@) =~= seq![head@, payload@]);
    }
    logger.send_vectored(&bufs);
}

/// Text output: render `event` into a buffer of `TEXT_CAPACITY` bytes and
/// send the text as a `DebugMessage` after the header.  A write that does not
/// fit in the buffer is left out, and rendering stops there; `true` when the
/// whole text was rendered.  The text sent is a prefix of the rendered text
/// (of a value that renders here), and all of it when it fits.
pub fn send_event_text<L: Logger, E: ZfmtEvent + FormatInto>(logger: &L, hdr: &EventHeader, event: &E) -> (whole: bool)
    ensures
        exists|t: Seq<u8>|
            t.len() <= TEXT_CAPACITY && (whole ==> t == event.rendered())
                && (event.renders() ==> t == event.rendered().take(t.len() as int))
                && (event.renders() && event.rendered().len() <= TEXT_CAPACITY ==> whole)
                && #[trigger] logger.delivered(event_parts(*hdr, DebugMessage::ZFMT_TAG, message_bytes(t))),
{
    let mut buf = FixedBuf::<128>::new();
    let ghost b0 = buf;
    let r = event.format_into(&mut buf);
    let msg = DebugMessage { message: buf.as_str() };
    proof {
        assert(b0.written() =~= Seq::<u8>::empty());
        if event.renders() {
            assert(Seq::<u8>::empty() + event.rendered().take(buf.contents().len() as int) =~= event.rendered().take(buf.contents().len() as int));
        }
        if r is Ok {
            assert(Seq::<u8>::empty() + event.rendered() =~= event.rendered());
            assert(event.rendered().take(event.rendered().len() as int) =~= event.rendered());
        }
    }
    send_event(logger, hdr, &msg);
    r.is_ok()
}

/// Log `event` at `severity`: a header with the logger's timestamp and next
/// sequence number, then the event.
pub fn log_event<L: Logger, E: ZfmtEvent + FormatInto>(logger: &L, severity: Severity, event: &E)
    ensures
        logged(*logger, severity, event.tag_spec(), event.payload_spec()),
{
    let ts = logger.timestamp();
    let seq = logger.next_seq();
    let hdr = EventHeader::new(ts, severity, seq);
    send_event(logger, &hdr, event);
}

/// Log `event` at TRACE.
pub fn log_trace<L: Logger, E: ZfmtEvent + FormatInto>(logger: &L, event: &E)
    ensures
        logged(*logger, Severity::Trace, event.tag_spec(), event.payload_spec()),
{
    log_event(logger, Severity::Trace, event)
}

/// Log `event` at DEBUG.
pub fn log_debug<L: Logger, E: ZfmtEvent + FormatInto>(logger: &L, event: &E)
    ensures
        logged(*logger, Severity::Debug, event.tag_spec(), event.payload_spec()),
{
    log_event(logger, Severity::Debug, event)
}

/// Log `event` at INFO.
pub fn log_info<L: Logger, E: ZfmtEvent + FormatInto>(logger: &L, event: &E)
    ensures
        logged(*logger, Severity::Info, event.tag_spec(), event.payload_spec()),
{
    log_event(logger, Severity::Info, event)
}

/// Log `event` at WARN.
pub fn log_warn<L: Logger, E: ZfmtEvent + FormatInto>(logger: &L, event: &E)
    ensures
        logged(*logger, Severity::Warn, event.tag_spec(), event.payload_spec()),
{
    log_event(logger, Severity::Warn, event)
}

/// Log `event` at ERROR.
pub fn log_error<L: Logger, E: ZfmtEvent + FormatInto>(logger: &L, event: &E)
    ensures
        logged(*logger, Severity::Error, event.tag_spec(), event.payload_spec()),
{
    log_event(logger, Severity::Error, event)
}

/// Log `event` at FATAL.
pub fn log_fatal<L: Logger, E: ZfmtEvent + FormatInto>(logger: &L, event: &E)
    ensures
        logged(*logger, Severity::Fatal, event.tag_spec(), event.payload_spec()),
{
    log_event(logger, Severity::Fatal, event)
}

/// Send a bare event (see `send_bare_event`).
pub fn log_bare_event<L: Logger, E: ZfmtEvent>(logger: &L, event: &E)
    ensures
        logger.delivered(bare_parts(event.tag_spec(), event.payload_spec())),
{
    send_bare_event(logger, event)
}

} // verus!
