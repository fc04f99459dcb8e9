//! Logger traits and `FlatAdapter`, which presents a `Logger` over a transport
//! that only sends contiguous buffers.

use vstd::prelude::*;
use crate::format::ZfmtU64;
use crate::text::append_bytes;

verus! {

/// The logger interface: a clock, an optional sequence counter, and a
/// gather-write send of one logical message.
pub trait Logger {
    /// Holds once a message made of the slices `parts`, in order, has been
    /// handed to this logger's transport; a logger that says nothing of its
    /// transport holds it of every message.
    closed spec fn delivered(&self, parts: Seq<Seq<u8>>) -> bool {
        true
    }

    /// Holds of a timestamp this logger's clock can give; a logger that
    /// says nothing of its clock holds it of every value.
    closed spec fn clock_gives(&self, t: ZfmtU64) -> bool {
        true
    }

    fn timestamp(&self) -> (t: ZfmtU64)
        ensures
            self.clock_gives(t),
    ;

    /// 24-bit sequence counter for gap detection on the host; the default 0
    /// leaves sequence tracking off.
    fn next_seq(&self) -> (n: u32)
        default_ensures
            n == 0,
    {
        0
    }

    /// Send the slices, in order, as one message.
    fn send_vectored(&self, bufs: &[&[u8]])
        ensures
            self.delivered(slices_view(bufs@)),
    ;

    /// Send one buffer: a single-slice `send_vectored`.
    fn send(&self, data: &[u8])
        ensures
            self.delivered(seq![data@]),
    {
        let bufs: [&[u8]; 1] = [data];
        proof {
            assert(slices_view(bufs@) =~= seq![data@]);
        }
        self.send_vectored(&bufs);
    }
}

/// A transport that only sends contiguous buffers.
pub trait FlatSend {
    /// Holds once `data` has been handed to the transport; a transport that
    /// says nothing of its sending holds it of every buffer.
    closed spec fn sent(&self, data: Seq<u8>) -> bool {
        true
    }

    /// Holds of a timestamp this transport's clock can give; a transport
    /// that says nothing of its clock holds it of every value.
    closed spec fn clock_gives(&self, t: ZfmtU64) -> bool {
        true
    }

    fn timestamp(&self) -> (t: ZfmtU64)
        ensures
            self.clock_gives(t),
    ;

    fn send(&self, data: &[u8])
        ensures
            self.sent(data@),
    ;
}

/// The slices joined in order.
pub open spec fn concat_all(bufs: Seq<Seq<u8>>) -> Seq<u8>
    decreases bufs.len(),
{
    if bufs.len() == 0 {
        Seq::empty()
    } else {
        concat_all(bufs.drop_last()) + bufs.last()
    }
}

/// Two slices joined.
pub proof fn lemma_concat_two(a: Seq<u8>, b: Seq<u8>)
    ensures
        concat_all(seq![a, b]) == a + b,
{
    assert(seq![a, b].drop_last() =~= seq![a]);
    assert(seq![a].drop_last() =~= Seq::<Seq<u8>>::empty());
    assert(concat_all(Seq::<Seq<u8>>::empty()) == Seq::<u8>::empty());
    assert(concat_all(seq![a]) =~= a);
}

pub open spec fn slices_view(bufs: Seq<&[u8]>) -> Seq<Seq<u8>> {
    bufs.map_values(|b: &[u8]| b@)
}

/// What `FlatAdapter` hands to its transport: the slices joined, cut to
/// `cap` bytes.
pub open spec fn flat_message(bufs: Seq<Seq<u8>>, cap: nat) -> Seq<u8> {
    let all = concat_all(bufs);
    if all.len() <= cap { all } else { all.take(cap as int) }
}

/// Join the slices in order, keeping at most `cap` bytes.
pub fn flat_assemble(bufs: &[&[u8]], cap: usize) -> (r: Vec<u8>)
    ensures
        r@ == flat_message(slices_view(bufs@), cap as nat),
{
    let ghost sv = slices_view(bufs@);
    let mut out: Vec<u8> = Vec::new();
    let mut i: usize = 0;
    assert(sv.take(0) =~= Seq::<Seq<u8>>::empty());
    while i < bufs.len()
        invariant
            i <= bufs@.len(),
            sv == slices_view(bufs@),
            out@ == flat_message(sv.take(i as int), cap as nat),
            out@.len() <= cap,
        decreases bufs@.len() - i,
    {
        let s = bufs[i];
        assert(sv.take(i as int + 1).drop_last() =~= sv.take(i as int));
        assert(sv.take(i as int + 1).last() == s@);
        let ghost prev = concat_all(sv.take(i as int));
        if out.len() == cap {
            assert(prev.len() >= cap);
            assert((prev + s@).take(cap as int) =~= prev.take(cap as int));
        } else if s.len() > cap - out.len() {
            let avail = cap - out.len();
            append_bytes(&mut out, vstd::slice::slice_subrange(s, 0, avail));
            assert(out@ =~= (prev + s@).take(cap as int));
        } else {
            append_bytes(&mut out, s);
            assert(out@ =~= prev + s@);
        }
        i = i + 1;
    }
    assert(sv.take(bufs@.len() as int) =~= sv);
    out
}

/// A `Logger` over a `FlatSend`: each message is assembled into at most `N`
/// bytes and sent whole; a longer message is cut to `N` bytes.
pub struct FlatAdapter<L: FlatSend, const N: usize> {
    inner: L,
}

impl<L: FlatSend, const N: usize> FlatAdapter<L, N> {
    pub fn new(inner: L) -> (a: Self)
        ensures
            a.inner_spec() == inner,
    {
        FlatAdapter { inner }
    }

    pub closed spec fn inner_spec(&self) -> L {
        self.inner
    }

    pub fn inner(&self) -> (r: &L)
        ensures
            *r == self.inner_spec(),
    {
        &self.inner
    }
}

impl<L: FlatSend, const N: usize> Logger for FlatAdapter<L, N> {
    /// The transport got the slices joined and cut to `N` bytes.
    open spec fn delivered(&self, parts: Seq<Seq<u8>>) -> bool {
        self.inner_spec().sent(flat_message(parts, N as nat))
    }

    /// The transport's clock.
    open spec fn clock_gives(&self, t: ZfmtU64) -> bool {
        self.inner_spec().clock_gives(t)
    }

    fn timestamp(&self) -> ZfmtU64 {
        self.inner.timestamp()
    }

    fn send_vectored(&self, bufs: &[&[u8]]) {
        let msg = flat_assemble(bufs, N);
        self.inner.send(msg.as_slice());
    }
}

} // verus!
