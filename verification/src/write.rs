//! `Write`: a minimal sink for UTF-8 text, and `FixedBuf`, a sink of fixed
//! capacity.

use vstd::prelude::*;
use vstd::utf8::*;
use vstd::string::*;
use crate::text::{append_bytes, str_from_utf8};

verus! {

/// Returned when a `Write` operation cannot accept more bytes.
#[derive(Debug, Clone, Copy, PartialEq, Eq, Structural)]
pub struct Error;

/// `char::to_string`: the one-character text.
#[verifier::external_body]
pub(crate) fn char_text(c: char) -> (s: String)
    ensures
        s@ == seq![c],
{
    c.to_string()
}

/// `after` is `before` followed by a prefix of `text`.
pub open spec fn grew_by_prefix(before: Seq<u8>, after: Seq<u8>, text: Seq<u8>) -> bool {
    &&& before.len() <= after.len() <= before.len() + text.len()
    &&& after == before + text.take(after.len() - before.len())
}

/// Writing `text` to a sink of bounded room (in one write or several, each
/// refused whole when it does not fit): what was written is a prefix of
/// `text`, it used that much room, and all of `text` went in when it fitted.
/// Nothing is said of a sink that states no room.
pub open spec fn bounded_write<W: Write>(before: W, after: W, text: Seq<u8>, r: Result<(), Error>) -> bool {
    before.room() matches Some(n) ==> {
        &&& grew_by_prefix(before.written(), after.written(), text)
        &&& after.written().len() - before.written().len() <= n
        &&& after.room() == Some((n - (after.written().len() - before.written().len())) as nat)
        &&& (text.len() <= n ==> r is Ok)
    }
}

/// Sink for UTF-8 text.  `written` is the text accepted so far; a write that
/// succeeds appends exactly its text.  A sink that `takes_all` accepts every
/// write and goes on doing so.  A sink with `room` accepts a write exactly
/// when it fits in that room, and a refused write leaves it as it was.
pub trait Write: Sized {
    closed spec fn written(&self) -> Seq<u8> {
        Seq::empty()
    }

    /// Holds of a sink that accepts every write.
    closed spec fn takes_all(&self) -> bool {
        false
    }

    /// The bytes a sink of bounded room still accepts; `None` for a sink that
    /// states no bound.
    closed spec fn room(&self) -> Option<nat> {
        None
    }

    fn write_str(&mut self, s: &str) -> (r: Result<(), Error>)
        ensures
            r is Ok ==> final(self).written() == old(self).written() + s.spec_bytes(),
            old(self).takes_all() ==> r is Ok && final(self).takes_all(),
            old(self).room() matches Some(n) ==> {
                &&& (r is Ok <==> s.spec_bytes().len() <= n)
                &&& (r is Ok ==> final(self).room() == Some((n - s.spec_bytes().len()) as nat))
                &&& (r is Err ==> final(self).written() == old(self).written() && final(self).room() == Some(n))
            },
    ;

    fn write_char(&mut self, c: char) -> (r: Result<(), Error>)
        ensures
            r is Ok ==> final(self).written() == old(self).written() + encode_utf8(seq![c]),
            old(self).takes_all() ==> r is Ok && final(self).takes_all(),
            old(self).room() matches Some(n) ==> {
                &&& (r is Ok <==> encode_utf8(seq![c]).len() <= n)
                &&& (r is Ok ==> final(self).room() == Some((n - encode_utf8(seq![c]).len()) as nat))
                &&& (r is Err ==> final(self).written() == old(self).written() && final(self).room() == Some(n))
            },
    {
        let t = char_text(c);
        self.write_str(t.as_str())
    }
}

/// One write, as the trait states it, is a bounded write of its text.
pub proof fn lemma_bounded_one<W: Write>(a: W, b: W, t: Seq<u8>, r: Result<(), Error>)
    requires
        r is Ok ==> b.written() == a.written() + t,
        a.room() matches Some(n) ==> {
            &&& (r is Ok <==> t.len() <= n)
            &&& (r is Ok ==> b.room() == Some((n - t.len()) as nat))
            &&& (r is Err ==> b.written() == a.written() && b.room() == Some(n))
        },
    ensures
        bounded_write(a, b, t, r),
{
    if let Some(n) = a.room() {
        if r is Ok {
            assert(t.take(t.len() as int) =~= t);
        } else {
            assert(a.written() + t.take(0) =~= a.written());
        }
    }
}

/// A run of writes that wrote `done` exactly, followed by a write of `p`:
/// together a bounded write of `done + p` when that write succeeded, and,
/// when it failed, a bounded write of any `full` text that starts with
/// `done + p`.
pub proof fn lemma_bounded_chain<W: Write>(a: W, b: W, c: W, done: Seq<u8>, p: Seq<u8>, full: Seq<u8>, r: Result<(), Error>)
    requires
        bounded_write(a, b, done, Ok::<(), Error>(())),
        b.written() == a.written() + done,
        bounded_write(b, c, p, r),
        r is Ok ==> c.written() == b.written() + p,
        (done + p).len() <= full.len(),
        full.take((done + p).len() as int) == done + p,
    ensures
        r is Ok ==> bounded_write(a, c, done + p, r) && c.written() == a.written() + (done + p),
        r is Err ==> bounded_write(a, c, full, r),
{
    lemma_bounded_then(a, b, c, done, p, Ok::<(), Error>(()), r);
    if r is Ok {
        assert(c.written() =~= a.written() + (done + p));
    } else if let Some(n) = a.room() {
        let k = (c.written().len() - a.written().len()) as int;
        assert((done + p).take(k) =~= full.take(k)) by {
            assert forall|i: int| 0 <= i < k implies (done + p).take(k)[i] == full.take(k)[i] by {
                assert(full.take((done + p).len() as int)[i] == full[i]);
            }
        }
    }
}

/// Writing nothing, successfully, is a bounded write of nothing.
pub proof fn lemma_bounded_nothing<W: Write>(w: W)
    ensures
        bounded_write(w, w, Seq::empty(), Ok::<(), Error>(())),
{
    assert(w.written() + Seq::<u8>::empty().take(0) =~= w.written());
}

/// A bounded write of `t1` followed, when it succeeded, by one of `t2` is a
/// bounded write of `t1 + t2`, ending with the second write's outcome.
pub proof fn lemma_bounded_then<W: Write>(a: W, b: W, c: W, t1: Seq<u8>, t2: Seq<u8>, r1: Result<(), Error>, r2: Result<(), Error>)
    requires
        bounded_write(a, b, t1, r1),
        r1 is Ok ==> b.written() == a.written() + t1,
        r1 is Ok ==> bounded_write(b, c, t2, r2),
    ensures
        r1 is Err ==> bounded_write(a, b, t1 + t2, r1),
        r1 is Ok ==> bounded_write(a, c, t1 + t2, r2),
{
    if let Some(n) = a.room() {
        let t = t1 + t2;
        if r1 is Err {
            let k = (b.written().len() - a.written().len()) as int;
            assert(t1.take(k) =~= t.take(k));
        } else {
            let k = (c.written().len() - b.written().len()) as int;
            assert(b.written().len() == a.written().len() + t1.len());
            assert(t.take(t1.len() + k) =~= t1 + t2.take(k));
            assert(c.written() =~= a.written() + t.take(c.written().len() - a.written().len()));
        }
    }
}

/// A buffer of at most `N` bytes of UTF-8 text.
pub struct FixedBuf<const N: usize> {
    buf: Vec<u8>,
}

impl<const N: usize> FixedBuf<N> {
    /// The text held: at most `N` bytes of valid UTF-8.
    pub closed spec fn contents(&self) -> Seq<u8> {
        self.buf@
    }

    pub open spec fn wf(&self) -> bool {
        self.contents().len() <= N && valid_utf8(self.contents())
    }

    /// Every buffer holds at most `N` bytes of valid UTF-8.
    #[verifier::type_invariant]
    closed spec fn inv(&self) -> bool {
        self.buf@.len() <= N && valid_utf8(self.buf@)
    }

    /// An empty buffer.
    pub fn new() -> (b: Self)
        ensures
            b.wf(),
            b.contents() == Seq::<u8>::empty(),
    {
        let b = FixedBuf { buf: Vec::new() };
        assert(b.contents() =~= Seq::<u8>::empty());
        b
    }

    /// Forget the text held.
    pub fn clear(&mut self)
        ensures
            final(self).wf(),
            final(self).contents() == Seq::<u8>::empty(),
    {
        self.buf = Vec::new();
        assert(self.contents() =~= Seq::<u8>::empty());
    }

    /// The text held.
    pub fn as_str(&self) -> (s: &str)
        ensures
            self.wf(),
            s.spec_bytes() == self.contents(),
    {
        proof { use_type_invariant(self); }
        match str_from_utf8(self.buf.as_slice()) {
            Some(s) => s,
            None => "",
        }
    }

    /// The bytes held.
    pub fn as_slice(&self) -> (s: &[u8])
        ensures
            s@ == self.contents(),
    {
        self.buf.as_slice()
    }

    /// Number of bytes held.
    pub fn len(&self) -> (n: usize)
        ensures
            n == self.contents().len(),
    {
        self.buf.len()
    }

    /// Whether nothing is held.
    pub fn is_empty(&self) -> (b: bool)
        ensures
            b == (self.contents().len() == 0),
    {
        self.buf.len() == 0
    }
}

impl<const N: usize> Default for FixedBuf<N> {
    fn default() -> (b: Self)
        ensures
            b.wf(),
            b.contents() == Seq::<u8>::empty(),
    {
        Self::new()
    }
}

impl<const N: usize> Write for FixedBuf<N> {
    open spec fn written(&self) -> Seq<u8> {
        self.contents()
    }

    /// The bytes left of the `N`.
    open spec fn room(&self) -> Option<nat> {
        Some((N - self.contents().len()) as nat)
    }

    /// Append `s` when it fits in the room left; otherwise refuse it whole.
    fn write_str(&mut self, s: &str) -> (r: Result<(), Error>)
        ensures
            old(self).wf() ==> final(self).wf(),
            old(self).contents().len() + s.spec_bytes().len() <= N <==> r is Ok,
            r is Ok ==> final(self).contents() == old(self).contents() + s.spec_bytes(),
            r is Err ==> final(self).contents() == old(self).contents(),
    {
        proof { use_type_invariant(&*self); }
        let bytes = s.as_bytes();
        if self.buf.len() > N || bytes.len() > N - self.buf.len() {
            assert(self.buf@ + s.spec_bytes().take(0) =~= self.buf@);
            return Err(Error);
        }
        let ghost before = self.buf@;
        let mut grown: Vec<u8> = Vec::new();
        append_bytes(&mut grown, self.buf.as_slice());
        append_bytes(&mut grown, bytes);
        assert(grown@ =~= before + s.spec_bytes());
        proof {
            encode_utf8_valid_utf8(s@);
            if valid_utf8(before) {
                valid_utf8_concat(before, s.spec_bytes());
            }
        }
        self.buf = grown;
        assert(s.spec_bytes().take(s.spec_bytes().len() as int) =~= s.spec_bytes());
        Ok(())
    }

    /// Append the character's UTF-8 bytes when they fit in the room left;
    /// otherwise refuse them whole.
    fn write_char(&mut self, c: char) -> (r: Result<(), Error>)
        ensures
            old(self).contents().len() + encode_utf8(seq![c]).len() <= N <==> r is Ok,
            r is Ok ==> final(self).contents() == old(self).contents() + encode_utf8(seq![c]),
            r is Err ==> final(self).contents() == old(self).contents(),
    {
        let t = char_text(c);
        self.write_str(t.as_str())
    }
}

} // verus!
