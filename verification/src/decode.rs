//! Binary stream decoding: wire framing, tag lookup, bytecode interpretation,
//! timestamp scaling and sequence-gap detection.
//!
//! Each frame is `tag(u32 LE) | LEB128(payload_len) | payload[payload_len]`.
//! Decoding yields, in order, the output lines and the warnings that go to the
//! user; the caller writes them out.

use vstd::prelude::*;
use crate::display::{
    Chunk, ChunkV, PieceV, RenderError, chunks_view, fallback_join, fallback_spec, render_bytes,
    render_spec, values_view_of,
};
use crate::elf::{EventEntry, StringEntry};
use crate::interpret::{
    EventTable, InterpretError, MAX_DEPTH, Value, ValueV, find_string, hex8, hex8_exec, interpret,
    lookup_string, run_spec, value_view,
};
use crate::leb128::{LebError, leb128_read, read_leb128};
use crate::numfmt::{digits, to_digits};
use crate::text::{append_bytes, le_value, read_u16_le, read_u32_le};

verus! {

/// Tag of `StreamStart`.
pub const TAG_STREAM_START: u32 = 0x0ef1ba00;

/// Tag of `EventHeader`.
pub const TAG_EVENT_HEADER: u32 = 0xe43ae42d;

/// Decoder settings used until a `StreamStart` frame supplies its own.
#[derive(Debug, Clone, Copy, PartialEq, Eq)]
pub struct DecodeConfig {
    /// Tick rate in Hz for timestamp scaling; 0 shows raw ticks.
    pub tick_rate_hz: u64,
    /// Protocol version: 2 and above track sequence numbers.
    pub protocol_version: u16,
}

impl Default for DecodeConfig {
    fn default() -> (c: Self)
        ensures
            c.tick_rate_hz == 0,
            c.protocol_version == 1,
    {
        DecodeConfig { tick_rate_hz: 0, protocol_version: 1 }
    }
}

/// A condition reported to the user while decoding goes on (or ends quietly).
#[derive(Debug, Clone, Copy, PartialEq, Eq)]
pub enum Warning {
    /// Fewer than five bytes left at `offset`: not a frame header.
    TrailingBytes { count: usize, offset: usize },
    /// The payload announced at `offset` needs more bytes than remain.
    Truncated { need: u64, offset: usize, remain: usize },
    /// The event's format string could not be rendered; the values are shown
    /// joined instead.
    RenderFailed { tag: u32, error: RenderError },
    /// The event's bytecode could not be interpreted over its payload.
    InterpretFailed { tag: u32, error: InterpretError },
    /// No database knows the tag of the frame at `offset`; its payload of `len`
    /// bytes is skipped.
    UnknownTag { tag: u32, offset: usize, len: usize },
}

/// Why decoding stopped.
#[derive(Debug, Clone, Copy, PartialEq, Eq)]
pub enum DecodeError {
    /// The payload length of the frame at `offset` is not valid LEB128.
    Length { offset: usize, error: LebError },
}

/// One item of decoder output, in stream order.
#[derive(Debug)]
pub enum Output {
    /// A line of text for the output.
    Line(Vec<Chunk>),
    /// A warning for the user.
    Warn(Warning),
}

pub enum OutputV {
    Line(Seq<ChunkV>),
    Warn(Warning),
}

pub open spec fn output_view(o: Output) -> OutputV {
    match o {
        Output::Line(cs) => OutputV::Line(chunks_view(cs@)),
        Output::Warn(w) => OutputV::Warn(w),
    }
}

pub open spec fn outputs_view(os: Seq<Output>) -> Seq<OutputV> {
    os.map_values(|o: Output| output_view(o))
}

/// Everything decoding produced, and whether it stopped on an error.
#[derive(Debug)]
pub struct Decoded {
    pub outputs: Vec<Output>,
    pub result: Result<(), DecodeError>,
}

/// The first entry with tag `tag`.
pub open spec fn find_entry(events: Seq<EventEntry>, tag: u32) -> Option<EventEntry>
    decreases events.len(),
{
    if events.len() == 0 {
        None
    } else if events[0].tag == tag {
        Some(events[0])
    } else {
        find_entry(events.drop_first(), tag)
    }
}

/// The first table from index `i` on that knows `tag`, with its entry.
pub open spec fn find_table(tables: Seq<EventTable>, tag: u32, i: nat) -> Option<(nat, EventEntry)>
    decreases tables.len() - i,
{
    if i >= tables.len() {
        None
    } else {
        match find_entry(tables[i as int].events@, tag) {
            Some(e) => Some((i, e)),
            None => find_table(tables, tag, i + 1),
        }
    }
}

/// The format string with hash `hash` in the first table from `i` on that has one.
pub open spec fn find_format(tables: Seq<EventTable>, hash: u32, i: nat) -> Option<Seq<u8>>
    decreases tables.len() - i,
{
    if i >= tables.len() {
        None
    } else {
        match find_string(tables[i as int].strings@, hash) {
            Some(f) => Some(f),
            None => find_format(tables, hash, i + 1),
        }
    }
}

/// `[xxxxxxxx] `: the start of an event line.
pub open spec fn tag_prefix(tag: u32) -> Seq<u8> {
    seq![91u8] + hex8(tag) + seq![93u8, 32u8]
}

/// `<decode error> (`
pub open spec fn decode_error_mid() -> Seq<u8> {
    seq![60u8, 100u8, 101u8, 99u8, 111u8, 100u8, 101u8, 32u8, 101u8, 114u8, 114u8, 111u8, 114u8, 62u8, 32u8, 40u8]
}

/// `B payload)`
pub open spec fn decode_error_tail() -> Seq<u8> {
    seq![66u8, 32u8, 112u8, 97u8, 121u8, 108u8, 111u8, 97u8, 100u8, 41u8]
}

/// `[seq gap: ~`
pub open spec fn gap_head() -> Seq<u8> {
    seq![91u8, 115u8, 101u8, 113u8, 32u8, 103u8, 97u8, 112u8, 58u8, 32u8, 126u8]
}

/// ` events dropped]`
pub open spec fn gap_tail() -> Seq<u8> {
    seq![32u8, 101u8, 118u8, 101u8, 110u8, 116u8, 115u8, 32u8, 100u8, 114u8, 111u8, 112u8, 112u8, 101u8, 100u8, 93u8]
}

/// A line of one text chunk.
pub open spec fn text_line(t: Seq<u8>) -> OutputV {
    OutputV::Line(seq![(seq![PieceV::Text(t)], 0nat, false)])
}

/// The line for an event whose payload could not be interpreted.
pub open spec fn decode_error_line(tag: u32, len: nat) -> OutputV {
    text_line(tag_prefix(tag) + decode_error_mid() + digits(len, 10, false) + decode_error_tail())
}

/// The line that reports `dropped` missing events.
pub open spec fn gap_line(dropped: nat) -> OutputV {
    text_line(gap_head() + digits(dropped, 10, false) + gap_tail())
}

/// An event line: the tag prefix, then the rendered chunks.
pub open spec fn event_line(tag: u32, cs: Seq<ChunkV>) -> OutputV {
    OutputV::Line(seq![(seq![PieceV::Text(tag_prefix(tag))], 0nat, false)] + cs)
}

/// The decoded values with an `EventHeader` timestamp (a leading u64) turned
/// into seconds when the tick rate is known.
pub open spec fn scale_values(tag: u32, vals: Seq<ValueV>, tick: u64) -> Seq<ValueV> {
    if tag == TAG_EVENT_HEADER && tick > 0 && vals.len() > 0 && vals[0] is U64 {
        vals.update(0, ValueV::Seconds(vals[0]->U64_0, tick))
    } else {
        vals
    }
}

/// What the bytecode of `e` gives over `payload`, run against table `t`.
pub open spec fn interpret_in(t: EventTable, e: EventEntry, payload: Seq<u8>) -> Result<Seq<ValueV>, InterpretError> {
    match run_spec(t.events@, t.strings@, e.bytecode@, 0, payload, 0, MAX_DEPTH as nat) {
        Ok((vals, _)) => Ok(vals),
        Err(err) => Err(err),
    }
}

/// The output for one frame's event (after any gap line): its line, or a
/// warning and a fallback line, or an unknown-tag warning.
pub open spec fn event_outputs(tables: Seq<EventTable>, tag: u32, payload: Seq<u8>, tick: u64, frame_start: nat) -> Seq<OutputV> {
    match find_table(tables, tag, 0) {
        None => seq![OutputV::Warn(Warning::UnknownTag { tag, offset: frame_start as usize, len: payload.len() as usize })],
        Some((ti, e)) => match interpret_in(tables[ti as int], e, payload) {
            Err(err) => seq![OutputV::Warn(Warning::InterpretFailed { tag, error: err }), decode_error_line(tag, payload.len())],
            Ok(vals) => {
                let vals2 = scale_values(tag, vals, tick);
                match find_format(tables, e.format_hash, 0) {
                    None => seq![event_line(tag, fallback_spec(vals2))],
                    Some(fmt) => match render_spec(fmt, vals2) {
                        Ok(cs) => seq![event_line(tag, cs)],
                        Err(re) => seq![
                            OutputV::Warn(Warning::RenderFailed { tag, error: re }),
                            event_line(tag, fallback_spec(vals2)),
                        ],
                    },
                }
            },
        },
    }
}

/// Tick rate, sequence tracking and previous sequence number after a frame:
/// a `StreamStart` of at least 12 bytes sets the tick rate and turns tracking
/// on (from protocol version 2) or off, restarting it when on.
pub open spec fn after_frame_start(tag: u32, payload: Seq<u8>, tick: u64, seq_on: bool, prev: Option<u32>) -> (u64, bool, Option<u32>) {
    if tag == TAG_STREAM_START && payload.len() >= 12 {
        let version = le_value(payload.subrange(0, 2));
        let on = version >= 2;
        let lo = le_value(payload.subrange(4, 8));
        let hi = le_value(payload.subrange(8, 12));
        ((hi * 0x1_0000_0000 + lo) as u64, on, if on { None } else { prev })
    } else {
        (tick, seq_on, prev)
    }
}

/// The 24-bit sequence number of an `EventHeader` payload.
pub open spec fn header_seq(payload: Seq<u8>) -> nat {
    le_value(payload.subrange(9, 12))
}

/// With tracking on, an `EventHeader` of at least 12 bytes whose sequence
/// number is not one past the previous one (modulo 2^24) yields a gap line
/// counting the missing numbers; its number becomes the previous one.
pub open spec fn seq_check(tag: u32, payload: Seq<u8>, seq_on: bool, prev: Option<u32>) -> (Seq<OutputV>, Option<u32>) {
    if tag == TAG_EVENT_HEADER && seq_on && payload.len() >= 12 {
        let cur = header_seq(payload);
        let gap = match prev {
            Some(pv) => if cur != (pv + 1) % 0x100_0000 {
                seq![gap_line(((cur - pv - 1) % 0x100_0000) as nat)]
            } else {
                Seq::empty()
            },
            None => Seq::empty(),
        };
        (gap, Some(cur as u32))
    } else {
        (Seq::empty(), prev)
    }
}

/// Result of decoding one frame: stop with these outputs, or continue at a new
/// position with a new state.
pub enum FrameStep {
    Stop(Seq<OutputV>, Result<(), DecodeError>),
    Next(Seq<OutputV>, nat, u64, bool, Option<u32>),
}

/// The frame at `pos` (inside `data`).
#[verifier::opaque]
pub open spec fn frame_spec(data: Seq<u8>, tables: Seq<EventTable>, pos: nat, tick: u64, seq_on: bool, prev: Option<u32>) -> FrameStep {
    let len = data.len();
    if len - pos < 5 {
        FrameStep::Stop(seq![OutputV::Warn(Warning::TrailingBytes { count: (len - pos) as usize, offset: pos as usize })], Ok(()))
    } else {
        let tag = le_value(data.subrange(pos as int, (pos + 4) as int)) as u32;
        match leb128_read(data.skip((pos + 4) as int)) {
            Err(e) => FrameStep::Stop(Seq::empty(), Err(DecodeError::Length { offset: pos as usize, error: e })),
            Ok((plen, n)) => {
                let p0 = pos + 4 + n;
                if len - p0 < plen {
                    FrameStep::Stop(
                        seq![OutputV::Warn(Warning::Truncated { need: plen, offset: p0 as usize, remain: (len - p0) as usize })],
                        Ok(()),
                    )
                } else {
                    let payload = data.subrange(p0 as int, p0 + plen);
                    let (tick2, on2, prev2) = after_frame_start(tag, payload, tick, seq_on, prev);
                    let (gap, prev3) = seq_check(tag, payload, on2, prev2);
                    FrameStep::Next(gap + event_outputs(tables, tag, payload, tick2, pos), (p0 + plen) as nat, tick2, on2, prev3)
                }
            },
        }
    }
}

/// Decoding from `pos` on: the outputs and whether it stopped on an error.
pub open spec fn decode_from(data: Seq<u8>, tables: Seq<EventTable>, pos: nat, tick: u64, seq_on: bool, prev: Option<u32>) -> (Seq<OutputV>, Result<(), DecodeError>)
    decreases data.len() - pos,
{
    if pos >= data.len() {
        (Seq::empty(), Ok(()))
    } else {
        match frame_spec(data, tables, pos, tick, seq_on, prev) {
            FrameStep::Stop(o, r) => (o, r),
            FrameStep::Next(o, pos2, tick2, on2, prev2) => if pos2 <= pos || pos2 > data.len() {
                (o, Ok(()))
            } else {
                let (rest, r) = decode_from(data, tables, pos2, tick2, on2, prev2);
                (o + rest, r)
            },
        }
    }
}

/// What decoding `data` with `config` gives.
pub open spec fn decode_spec(data: Seq<u8>, tables: Seq<EventTable>, config: DecodeConfig) -> (Seq<OutputV>, Result<(), DecodeError>) {
    decode_from(data, tables, 0, config.tick_rate_hz, config.protocol_version >= 2, None)
}


/// The first entry with tag `tag`.
fn find_entry_exec(events: &Vec<EventEntry>, tag: u32) -> (r: Option<&EventEntry>)
    ensures
        match find_entry(events@, tag) {
            Some(e) => r == Some(&e),
            None => r is None,
        },
{
    let mut i: usize = 0;
    assert(events@.skip(0) =~= events@);
    while i < events.len()
        invariant
            i <= events.len(),
            find_entry(events@, tag) == find_entry(events@.skip(i as int), tag),
        decreases events.len() - i,
    {
        assert(events@.skip(i as int).drop_first() =~= events@.skip(i + 1));
        if events[i].tag == tag {
            return Some(&events[i]);
        }
        i = i + 1;
    }
    None
}

/// The first table that knows `tag`, with its entry.
fn find_table_exec(tables: &[EventTable], tag: u32) -> (r: Option<(usize, &EventEntry)>)
    ensures
        match find_table(tables@, tag, 0) {
            Some((ti, e)) => r matches Some((i, x)) && i as nat == ti && *x == e && i < tables@.len(),
            None => r is None,
        },
{
    let mut i: usize = 0;
    while i < tables.len()
        invariant
            i <= tables@.len(),
            find_table(tables@, tag, 0) == find_table(tables@, tag, i as nat),
        decreases tables@.len() - i,
    {
        match find_entry_exec(&tables[i].events, tag) {
            Some(e) => { return Some((i, e)); }
            None => {}
        }
        i = i + 1;
    }
    None
}

/// The format string with hash `hash` in the first table that has one.
fn find_format_exec(tables: &[EventTable], hash: u32) -> (r: Option<&[u8]>)
    ensures
        match find_format(tables@, hash, 0) {
            Some(f) => r matches Some(x) && x@ == f,
            None => r is None,
        },
{
    let mut i: usize = 0;
    while i < tables.len()
        invariant
            i <= tables@.len(),
            find_format(tables@, hash, 0) == find_format(tables@, hash, i as nat),
        decreases tables@.len() - i,
    {
        match lookup_string(&tables[i].strings, hash) {
            Some(f) => { return Some(f); }
            None => {}
        }
        i = i + 1;
    }
    None
}

/// Append the bytes of `lit`.
fn push_all(out: &mut Vec<u8>, lit: &[u8])
    ensures
        final(out)@ == old(out)@ + lit@,
{
    append_bytes(out, lit);
}

/// `[xxxxxxxx] `
fn tag_prefix_exec(tag: u32) -> (r: Vec<u8>)
    ensures
        r@ == tag_prefix(tag),
{
    let mut out: Vec<u8> = Vec::new();
    out.push(91u8);
    let h = hex8_exec(tag);
    append_bytes(&mut out, h.as_slice());
    out.push(93u8);
    out.push(32u8);
    assert(out@ =~= tag_prefix(tag));
    out
}

/// A one-chunk text line.
fn text_line_exec(t: Vec<u8>) -> (o: Output)
    ensures
        output_view(o) == text_line(t@),
{
    let ghost tv = t@;
    let mut pieces: Vec<crate::display::Piece> = Vec::new();
    pieces.push(crate::display::Piece::Text(t));
    let mut cs: Vec<Chunk> = Vec::new();
    cs.push(Chunk { pieces, width: 0, left: false });
    let o = Output::Line(cs);
    assert(outputs_view(seq![o]) =~= seq![output_view(o)]);
    assert(chunks_view(cs@) =~= seq![(seq![PieceV::Text(tv)], 0nat, false)]) by {
        assert(crate::display::pieces_view(cs@[0].pieces@) =~= seq![PieceV::Text(tv)]);
    }
    o
}

/// The line for an event whose payload could not be interpreted.
fn decode_error_line_exec(tag: u32, len: usize) -> (o: Output)
    ensures
        output_view(o) == decode_error_line(tag, len as nat),
{
    let mut t = tag_prefix_exec(tag);
    push_all(&mut t, &[60u8, 100u8, 101u8, 99u8, 111u8, 100u8, 101u8, 32u8, 101u8, 114u8, 114u8, 111u8, 114u8, 62u8, 32u8, 40u8]);
    let d = to_digits(len as u64, 10, false);
    append_bytes(&mut t, d.as_slice());
    push_all(&mut t, &[66u8, 32u8, 112u8, 97u8, 121u8, 108u8, 111u8, 97u8, 100u8, 41u8]);
    assert(t@ =~= tag_prefix(tag) + decode_error_mid() + digits(len as nat, 10, false) + decode_error_tail());
    text_line_exec(t)
}


/// The line that reports `dropped` missing events.
fn gap_line_exec(dropped: u32) -> (o: Output)
    ensures
        output_view(o) == gap_line(dropped as nat),
{
    let mut t: Vec<u8> = Vec::new();
    push_all(&mut t, &[91u8, 115u8, 101u8, 113u8, 32u8, 103u8, 97u8, 112u8, 58u8, 32u8, 126u8]);
    let d = to_digits(dropped as u64, 10, false);
    append_bytes(&mut t, d.as_slice());
    push_all(&mut t, &[32u8, 101u8, 118u8, 101u8, 110u8, 116u8, 115u8, 32u8, 100u8, 114u8, 111u8, 112u8, 112u8, 101u8, 100u8, 93u8]);
    assert(t@ =~= gap_head() + digits(dropped as nat, 10, false) + gap_tail());
    text_line_exec(t)
}

/// An event line: the tag prefix, then `cs`.
fn event_line_exec(tag: u32, cs: Vec<Chunk>) -> (o: Output)
    ensures
        output_view(o) == event_line(tag, chunks_view(cs@)),
{
    let ghost rest = chunks_view(cs@);
    let mut pieces: Vec<crate::display::Piece> = Vec::new();
    let p = tag_prefix_exec(tag);
    let ghost pv = p@;
    pieces.push(crate::display::Piece::Text(p));
    let mut line: Vec<Chunk> = Vec::new();
    line.push(Chunk { pieces, width: 0, left: false });
    let mut cs = cs;
    line.append(&mut cs);
    assert(crate::display::pieces_view(line@[0].pieces@) =~= seq![PieceV::Text(pv)]);
    assert(chunks_view(line@) =~= seq![(seq![PieceV::Text(tag_prefix(tag))], 0nat, false)] + rest);
    Output::Line(line)
}

/// Turn a leading u64 of an `EventHeader` into seconds when the rate is known.
fn scale_exec(tag: u32, values: &mut Vec<Value>, tick: u64)
    ensures
        values_view_of(final(values)@) == scale_values(tag, values_view_of(old(values)@), tick),
{
    if tag == TAG_EVENT_HEADER && tick > 0 && values.len() > 0 {
        let t: Option<u64> = match &values[0] {
            Value::U64(x) => Some(*x),
            _ => None,
        };
        match t {
            Some(ticks) => {
                let ghost before = values@;
                values.set(0, Value::Seconds { ticks, rate: tick });
                assert(values_view_of(values@) =~= values_view_of(before).update(0, ValueV::Seconds(ticks, tick)));
            }
            None => {}
        }
    }
}

/// Append the outputs of one frame's event.
fn event_outputs_exec(tables: &[EventTable], tag: u32, payload: &[u8], tick: u64, frame_start: usize, out: &mut Vec<Output>)
    requires
        payload@.len() < usize::MAX,
    ensures
        outputs_view(final(out)@) == outputs_view(old(out)@) + event_outputs(tables@, tag, payload@, tick, frame_start as nat),
{
    let ghost before = outputs_view(out@);
    match find_table_exec(tables, tag) {
        None => {
            let w = Output::Warn(Warning::UnknownTag { tag, offset: frame_start, len: payload.len() });
            out.push(w);
            assert(outputs_view(out@) =~= before + seq![output_view(w)]);
        }
        Some((ti, e)) => {
            let table = &tables[ti];
            match interpret(e.bytecode.as_slice(), payload, table) {
                Err(err) => {
                    let w = Output::Warn(Warning::InterpretFailed { tag, error: err });
                    out.push(w);
                    let l = decode_error_line_exec(tag, payload.len());
                    let ghost lv = output_view(l);
                    out.push(l);
                    assert(outputs_view(out@) =~= before + seq![output_view(w), lv]);
                }
                Ok(values) => {
                    let mut values = values;
                    scale_exec(tag, &mut values, tick);
                    match find_format_exec(tables, e.format_hash) {
                        None => {
                            let l = event_line_exec(tag, fallback_join(values.as_slice()));
                            let ghost lv = output_view(l);
                            out.push(l);
                            assert(outputs_view(out@) =~= before + seq![lv]);
                        }
                        Some(fmt) => match render_bytes(fmt, values.as_slice()) {
                            Ok(cs) => {
                                let l = event_line_exec(tag, cs);
                                let ghost lv = output_view(l);
                                out.push(l);
                                assert(outputs_view(out@) =~= before + seq![lv]);
                            }
                            Err(re) => {
                                let w = Output::Warn(Warning::RenderFailed { tag, error: re });
                                out.push(w);
                                let l = event_line_exec(tag, fallback_join(values.as_slice()));
                                let ghost lv = output_view(l);
                                out.push(l);
                                assert(outputs_view(out@) =~= before + seq![output_view(w), lv]);
                            }
                        },
                    }
                }
            }
        }
    }
}


/// Outcome of decoding one frame: stop with a result, or go on from a new
/// position with a new state.
enum FrameOut {
    Stop(Result<(), DecodeError>),
    Next(usize, u64, bool, Option<u32>),
}

/// Sequence numbers are 24 bits wide.
pub open spec fn prev_ok(prev: Option<u32>) -> bool {
    prev matches Some(p) ==> p < 0x100_0000
}

/// Decode the frame at `pos`, appending its outputs.
fn decode_frame(data: &[u8], tables: &[EventTable], pos: usize, tick: u64, seq_on: bool, prev: Option<u32>, out: &mut Vec<Output>) -> (r: FrameOut)
    requires
        pos < data@.len(),
        prev_ok(prev),
    ensures
        match frame_spec(data@, tables@, pos as nat, tick, seq_on, prev) {
            FrameStep::Stop(o, res) => r == FrameOut::Stop(res)
                && outputs_view(final(out)@) == outputs_view(old(out)@) + o,
            FrameStep::Next(o, p2, t2, s2, pr2) => r == FrameOut::Next(p2 as usize, t2, s2, pr2)
                && pos < p2 <= data@.len() && prev_ok(pr2)
                && outputs_view(final(out)@) == outputs_view(old(out)@) + o,
        },
{
    proof { reveal(frame_spec); }
    let ghost before = outputs_view(out@);
    let len = data.len();
    if len - pos < 5 {
        let w = Output::Warn(Warning::TrailingBytes { count: len - pos, offset: pos });
        out.push(w);
        assert(outputs_view(out@) =~= before + seq![output_view(w)]);
        return FrameOut::Stop(Ok(()));
    }
    let tag = read_u32_le(data, pos);
    let (plen, n) = match read_leb128(data, pos + 4) {
        Err(e) => {
            assert(outputs_view(out@) =~= before + Seq::<OutputV>::empty());
            return FrameOut::Stop(Err(DecodeError::Length { offset: pos, error: e }));
        }
        Ok(x) => x,
    };
    proof {
        let sk = data@.skip(pos + 4);
        let i = crate::leb128::leb128_terminator(sk)->0;
        crate::leb128::lemma_terminator_take(sk, i);
    }
    let p0 = pos + 4 + n;
    if ((len - p0) as u64) < plen {
        let w = Output::Warn(Warning::Truncated { need: plen, offset: p0, remain: len - p0 });
        out.push(w);
        assert(outputs_view(out@) =~= before + seq![output_view(w)]);
        return FrameOut::Stop(Ok(()));
    }
    let end = p0 + plen as usize;
    let payload = vstd::slice::slice_subrange(data, p0, end);
    let ghost pl = payload@;
    // StreamStart settings.
    let mut tick2 = tick;
    let mut on2 = seq_on;
    let mut prev2 = prev;
    if tag == TAG_STREAM_START && payload.len() >= 12 {
        let version = read_u16_le(payload, 0);
        on2 = version >= 2;
        if on2 {
            prev2 = None;
        }
        let lo = read_u32_le(payload, 4);
        let hi = read_u32_le(payload, 8);
        tick2 = hi as u64 * 0x1_0000_0000 + lo as u64;
    }
    assert((tick2, on2, prev2) == after_frame_start(tag, pl, tick, seq_on, prev));
    // Sequence gap.
    let mut prev3 = prev2;
    if tag == TAG_EVENT_HEADER && on2 && payload.len() >= 12 {
        let cur = crate::text::read_le(payload, 9, 3);
        proof {
            assert(crate::text::pow256(3) == 0x100_0000) by { reveal_with_fuel(crate::text::pow256, 4); }
        }
        match prev2 {
            Some(pv) => {
                let expected = (pv as u64 + 1) % 0x100_0000;
                if cur != expected {
                    let dropped = ((cur + 0x100_0000 - pv as u64 - 1) % 0x100_0000) as u32;
                    assert(dropped as int == (cur - pv - 1) % 0x100_0000);
                    let g = gap_line_exec(dropped);
                    out.push(g);
                }
            }
            None => {}
        }
        prev3 = Some(cur as u32);
    }
    let ghost mid = outputs_view(out@);
    assert(mid == before + seq_check(tag, pl, on2, prev2).0) by {
        if tag == TAG_EVENT_HEADER && on2 && pl.len() >= 12 {
            assert(outputs_view(out@) =~= before + seq_check(tag, pl, on2, prev2).0);
        } else {
            assert(outputs_view(out@) =~= before + Seq::<OutputV>::empty());
        }
    }
    assert(prev3 == seq_check(tag, pl, on2, prev2).1);
    event_outputs_exec(tables, tag, payload, tick2, pos, out);
    assert(outputs_view(out@) =~= before + (seq_check(tag, pl, on2, prev2).0 + event_outputs(tables@, tag, pl, tick2, pos as nat)));
    FrameOut::Next(end, tick2, on2, prev3)
}

/// Decode a binary stream into output lines and warnings.  Unknown tags are
/// reported and skipped; an event whose payload cannot be interpreted yields a
/// placeholder line; decoding stops quietly at trailing or truncated bytes and
/// with an error at a payload length that is not valid LEB128.
pub fn decode_stream(data: &[u8], tables: &[EventTable], config: &DecodeConfig) -> (d: Decoded)
    ensures
        (outputs_view(d.outputs@), d.result) == decode_spec(data@, tables@, *config),
{
    let mut out: Vec<Output> = Vec::new();
    let mut pos: usize = 0;
    let mut tick: u64 = config.tick_rate_hz;
    let mut on: bool = config.protocol_version >= 2;
    let mut prev: Option<u32> = None;
    assert(outputs_view(out@) =~= Seq::<OutputV>::empty());
    assert(Seq::<OutputV>::empty() + decode_spec(data@, tables@, *config).0 =~= decode_spec(data@, tables@, *config).0);
    while pos < data.len()
        invariant
            pos <= data@.len(),
            prev_ok(prev),
            decode_spec(data@, tables@, *config) == (
                outputs_view(out@) + decode_from(data@, tables@, pos as nat, tick, on, prev).0,
                decode_from(data@, tables@, pos as nat, tick, on, prev).1,
            ),
        decreases data@.len() - pos,
    {
        let ghost before = outputs_view(out@);
        match decode_frame(data, tables, pos, tick, on, prev, &mut out) {
            FrameOut::Stop(res) => {
                assert(before + decode_from(data@, tables@, pos as nat, tick, on, prev).0 =~= outputs_view(out@));
                return Decoded { outputs: out, result: res };
            }
            FrameOut::Next(p2, t2, s2, pr2) => {
                let ghost o = outputs_view(out@).skip(before.len() as int);
                assert(outputs_view(out@) =~= before + o);
                assert(before + (o + decode_from(data@, tables@, p2 as nat, t2, s2, pr2).0)
                    =~= outputs_view(out@) + decode_from(data@, tables@, p2 as nat, t2, s2, pr2).0);
                pos = p2;
                tick = t2;
                on = s2;
                prev = pr2;
            }
        }
    }
    assert(outputs_view(out@) + Seq::<OutputV>::empty() =~= outputs_view(out@));
    Decoded { outputs: out, result: Ok(()) }
}

/// Decode an unsigned LEB128 number at the start of `buf`: its value and the
/// number of bytes it takes.
pub fn decode_leb128(buf: &[u8]) -> (r: Result<(u64, usize), LebError>)
    ensures
        match r {
            Ok((v, n)) => leb128_read(buf@) == Ok::<(u64, nat), LebError>((v, n as nat)),
            Err(e) => leb128_read(buf@) == Err::<(u64, nat), LebError>(e),
        },
{
    let r = read_leb128(buf, 0);
    assert(buf@.skip(0) =~= buf@);
    r
}

} // verus!
