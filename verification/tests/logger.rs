use std::cell::RefCell;
use zfmt::format::ZfmtU64;
use zfmt::logger::{FlatAdapter, FlatSend, Logger};

struct MockFlat {
    received: RefCell<Vec<u8>>,
    ts: ZfmtU64,
}

impl MockFlat {
    fn new(ts: ZfmtU64) -> Self {
        Self { received: RefCell::new(Vec::new()), ts }
    }

    fn received(&self) -> Vec<u8> {
        self.received.borrow().clone()
    }
}

impl FlatSend for MockFlat {
    fn timestamp(&self) -> ZfmtU64 {
        self.ts
    }

    fn send(&self, data: &[u8]) {
        *self.received.borrow_mut() = data.to_vec();
    }
}

#[test]
fn flat_adapter_single_slice() {
    let adapter = FlatAdapter::<_, 128>::new(MockFlat::new(ZfmtU64::new(42, 0)));
    adapter.send(b"hello");
    assert_eq!(adapter.inner().received(), b"hello");
}

#[test]
fn flat_adapter_vectored_assembles() {
    let adapter = FlatAdapter::<_, 128>::new(MockFlat::new(ZfmtU64::new(0, 0)));
    adapter.send_vectored(&[b"foo", b"bar", b"baz"]);
    assert_eq!(adapter.inner().received(), b"foobarbaz");
}

#[test]
fn flat_adapter_timestamp_forwarded() {
    let adapter = FlatAdapter::<_, 64>::new(MockFlat::new(ZfmtU64::new(999, 0)));
    assert_eq!(adapter.timestamp(), ZfmtU64::new(999, 0));
}

#[test]
fn flat_adapter_overflow_truncates() {
    let adapter = FlatAdapter::<_, 8>::new(MockFlat::new(ZfmtU64::new(0, 0)));
    adapter.send_vectored(&[b"abcdef", b"ghijkl"]);
    assert_eq!(adapter.inner().received(), b"abcdefgh");
}

#[test]
fn logger_send_default_impl() {
    let adapter = FlatAdapter::<_, 64>::new(MockFlat::new(ZfmtU64::new(0, 0)));
    adapter.send(b"direct");
    assert_eq!(adapter.inner().received(), b"direct");
}

#[test]
fn flat_assemble_cuts_at_capacity() {
    let out = zfmt::logger::flat_assemble(&[b"ab", b"cd", b"ef"], 5);
    assert_eq!(out, b"abcde");
    let out = zfmt::logger::flat_assemble(&[b"ab"], 0);
    assert!(out.is_empty());
}
