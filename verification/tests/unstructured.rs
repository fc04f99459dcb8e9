use std::sync::{Arc, Mutex};
use zfmt::events::{DebugMessage, EventHeader, Severity};
use zfmt::format::ZfmtU64;
use zfmt::logger::Logger;
use zfmt::textlog::{log_text, text_message, NamedArg, TextArg, TextLogError};

struct VecLogger {
    ts: u64,
    packets: Arc<Mutex<Vec<Vec<u8>>>>,
}

impl Logger for VecLogger {
    fn timestamp(&self) -> ZfmtU64 {
        ZfmtU64::from_u64(self.ts)
    }
    fn send_vectored(&self, bufs: &[&[u8]]) {
        let mut data = vec![];
        for b in bufs {
            data.extend_from_slice(b);
        }
        self.packets.lock().unwrap().push(data);
    }
}

fn make_logger(ts: u64) -> (VecLogger, Arc<Mutex<Vec<Vec<u8>>>>) {
    let packets = Arc::new(Mutex::new(vec![]));
    (VecLogger { ts, packets: packets.clone() }, packets)
}

fn parse_frame(data: &[u8]) -> (u32, Vec<u8>, usize) {
    let tag = u32::from_le_bytes(data[..4].try_into().unwrap());
    let (payload_len, leb_n) = zfmt::leb128::decode(&data[4..]).unwrap();
    let end = 4 + leb_n + payload_len as usize;
    (tag, data[4 + leb_n..end].to_vec(), end)
}

fn debug_msg_text(payload: &[u8]) -> String {
    let (msg_len, leb_n) = zfmt::leb128::decode(payload).unwrap();
    std::str::from_utf8(&payload[leb_n..leb_n + msg_len as usize]).unwrap().to_owned()
}

#[test]
fn zfmt_str_returns_u32() {
    let h: u32 = zfmt::hash::zfmt_str("hello");
    assert_ne!(h, 0, "hash should be non-zero");
}

#[test]
fn zfmt_str_same_string_same_hash() {
    let h1: u32 = zfmt::hash::zfmt_str("same string");
    let h2: u32 = zfmt::hash::zfmt_str("same string");
    assert_eq!(h1, h2);
}

#[test]
fn zfmt_str_different_strings_different_hash() {
    let h1: u32 = zfmt::hash::zfmt_str("alpha");
    let h2: u32 = zfmt::hash::zfmt_str("beta");
    assert_ne!(h1, h2);
}

#[test]
fn unstructured_sends_debug_message() {
    let (logger, packets) = make_logger(42);
    log_text(&logger, Severity::Fatal, "hello world", &[]).unwrap();
    let pkts = packets.lock().unwrap();
    assert_eq!(pkts.len(), 1, "expected exactly one packet");
    let pkt = &pkts[0];
    let (hdr_tag, hdr_payload, hdr_end) = parse_frame(pkt);
    assert_eq!(hdr_tag, EventHeader::ZFMT_TAG);
    assert_eq!(hdr_payload[8], Severity::Fatal as u8, "severity should be Fatal");
    let (evt_tag, evt_payload, _) = parse_frame(&pkt[hdr_end..]);
    assert_eq!(evt_tag, DebugMessage::ZFMT_TAG, "second frame should be DebugMessage");
    assert_eq!(debug_msg_text(&evt_payload), "hello world");
}

#[test]
fn unstructured_with_placeholder() {
    let (logger, packets) = make_logger(0);
    let x: u32 = 42;
    log_text(&logger, Severity::Fatal, "x={x}", &[NamedArg { name: "x", value: TextArg::U32(x) }]).unwrap();
    let pkts = packets.lock().unwrap();
    let pkt = &pkts[0];
    let (_, _, hdr_end) = parse_frame(pkt);
    let (_, evt_payload, _) = parse_frame(&pkt[hdr_end..]);
    assert_eq!(debug_msg_text(&evt_payload), "x=42");
}

#[test]
fn unstructured_with_named_binding() {
    let (logger, packets) = make_logger(0);
    log_text(&logger, Severity::Fatal, "val={v} ok", &[NamedArg { name: "v", value: TextArg::U32(7u32) }]).unwrap();
    let pkts = packets.lock().unwrap();
    let pkt = &pkts[0];
    let (_, _, hdr_end) = parse_frame(pkt);
    let (_, evt_payload, _) = parse_frame(&pkt[hdr_end..]);
    assert_eq!(debug_msg_text(&evt_payload), "val=7 ok");
}

#[test]
fn unstructured_with_hex_spec() {
    let (logger, packets) = make_logger(0);
    let addr: u32 = 0xDEAD_BEEF;
    log_text(&logger, Severity::Fatal, "addr={addr:#010x}", &[NamedArg { name: "addr", value: TextArg::U32(addr) }]).unwrap();
    let pkts = packets.lock().unwrap();
    let pkt = &pkts[0];
    let (_, _, hdr_end) = parse_frame(pkt);
    let (_, evt_payload, _) = parse_frame(&pkt[hdr_end..]);
    assert_eq!(debug_msg_text(&evt_payload), "addr=0xdeadbeef");
}

#[test]
fn unstructured_timestamp_forwarded() {
    let (logger, packets) = make_logger(77777);
    log_text(&logger, Severity::Fatal, "ts test", &[]).unwrap();
    let pkts = packets.lock().unwrap();
    let (_, hdr_payload, _) = parse_frame(&pkts[0]);
    let ts = u64::from_le_bytes(hdr_payload[..8].try_into().unwrap());
    assert_eq!(ts, 77777);
}

#[test]
fn log_info_literal_sends_debug_message() {
    let (logger, packets) = make_logger(0);
    log_text(&logger, Severity::Info, "info text", &[]).unwrap();
    let pkts = packets.lock().unwrap();
    let (_, hdr_payload, hdr_end) = parse_frame(&pkts[0]);
    assert_eq!(hdr_payload[8], Severity::Info as u8);
    let (evt_tag, evt_payload, _) = parse_frame(&pkts[0][hdr_end..]);
    assert_eq!(evt_tag, DebugMessage::ZFMT_TAG);
    assert_eq!(debug_msg_text(&evt_payload), "info text");
}

#[test]
fn log_warn_literal_sends_debug_message() {
    let (logger, packets) = make_logger(0);
    log_text(&logger, Severity::Warn, "warn text", &[]).unwrap();
    let pkts = packets.lock().unwrap();
    let (_, hdr_payload, hdr_end) = parse_frame(&pkts[0]);
    assert_eq!(hdr_payload[8], Severity::Warn as u8);
    let (_, evt_payload, _) = parse_frame(&pkts[0][hdr_end..]);
    assert_eq!(debug_msg_text(&evt_payload), "warn text");
}

#[test]
fn log_error_literal_sends_debug_message() {
    let (logger, packets) = make_logger(0);
    log_text(&logger, Severity::Error, "error text", &[]).unwrap();
    let pkts = packets.lock().unwrap();
    let (_, hdr_payload, hdr_end) = parse_frame(&pkts[0]);
    assert_eq!(hdr_payload[8], Severity::Error as u8);
    let (_, evt_payload, _) = parse_frame(&pkts[0][hdr_end..]);
    assert_eq!(debug_msg_text(&evt_payload), "error text");
}

#[test]
fn log_debug_literal_sends_debug_message() {
    let (logger, packets) = make_logger(0);
    log_text(&logger, Severity::Debug, "debug msg", &[]).unwrap();
    let pkts = packets.lock().unwrap();
    assert_eq!(pkts.len(), 1);
    let pkt = &pkts[0];
    let (_, hdr_payload, hdr_end) = parse_frame(pkt);
    assert_eq!(hdr_payload[8], Severity::Debug as u8);
    let (evt_tag, evt_payload, _) = parse_frame(&pkt[hdr_end..]);
    assert_eq!(evt_tag, DebugMessage::ZFMT_TAG);
    assert_eq!(debug_msg_text(&evt_payload), "debug msg");
}

#[test]
fn log_debug_literal_with_placeholder() {
    let (logger, packets) = make_logger(0);
    let x: u32 = 42;
    log_text(&logger, Severity::Debug, "x={x}", &[NamedArg { name: "x", value: TextArg::U32(x) }]).unwrap();
    let pkts = packets.lock().unwrap();
    let pkt = &pkts[0];
    let (_, _, hdr_end) = parse_frame(pkt);
    let (_, evt_payload, _) = parse_frame(&pkt[hdr_end..]);
    assert_eq!(debug_msg_text(&evt_payload), "x=42");
}

#[test]
fn log_debug_literal_with_named_binding() {
    let (logger, packets) = make_logger(0);
    log_text(&logger, Severity::Debug, "val={v} ok", &[NamedArg { name: "v", value: TextArg::U32(7u32) }]).unwrap();
    let pkts = packets.lock().unwrap();
    let pkt = &pkts[0];
    let (_, _, hdr_end) = parse_frame(pkt);
    let (_, evt_payload, _) = parse_frame(&pkt[hdr_end..]);
    assert_eq!(debug_msg_text(&evt_payload), "val=7 ok");
}

#[test]
fn text_message_skips_what_does_not_fit() {
    let long = "x".repeat(126);
    let b = text_message("{s}{n}ab", &[
        NamedArg { name: "s", value: TextArg::Str(&long) },
        NamedArg { name: "n", value: TextArg::U32(12345) },
    ])
    .unwrap();
    assert_eq!(b.len(), 128);
    assert!(b.as_str().ends_with("xab"));
}

#[test]
fn text_message_errors() {
    assert_eq!(text_message("{missing}", &[]).err(), Some(TextLogError::UnknownName));
    assert!(matches!(text_message("{x", &[]), Err(TextLogError::Format(_))));
    assert_eq!(
        text_message("{c:c}", &[NamedArg { name: "c", value: TextArg::U8(1) }]).err(),
        Some(TextLogError::UnsupportedType)
    );
    let b = text_message("{b:>6}|{c}|{s:<4}|{i:+}", &[
        NamedArg { name: "b", value: TextArg::Bool(true) },
        NamedArg { name: "c", value: TextArg::Char('é') },
        NamedArg { name: "s", value: TextArg::Str("ab") },
        NamedArg { name: "i", value: TextArg::I16(5) },
    ])
    .unwrap();
    assert_eq!(b.as_str(), "  true|é|ab  |+5");
}
