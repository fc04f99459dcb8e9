//! Unsigned LEB128 encode/decode for the event stream and for bytecode operands.

use vstd::prelude::*;

verus! {

/// Little-endian base-128 digits of `v`: seven bits per byte, the high bit set on
/// every byte except the last.
pub open spec fn leb128_bytes(v: nat) -> Seq<u8>
    decreases v,
{
    if v < 128 {
        seq![v as u8]
    } else {
        seq![((v % 128) + 128) as u8] + leb128_bytes(v / 128)
    }
}

/// The number that the low seven bits of the bytes of `s` spell, first byte lowest.
pub open spec fn leb128_value(s: Seq<u8>) -> nat
    decreases s.len(),
{
    if s.len() == 0 {
        0
    } else {
        ((s[0] % 128) + 128 * leb128_value(s.drop_first())) as nat
    }
}

/// Position of the first byte whose high bit is clear, if any.
pub open spec fn leb128_terminator(s: Seq<u8>) -> Option<nat>
    decreases s.len(),
{
    if s.len() == 0 {
        None
    } else if s[0] < 128 {
        Some(0)
    } else {
        match leb128_terminator(s.drop_first()) {
            Some(i) => Some(i + 1),
            None => None,
        }
    }
}

/// What a decoder reading at most ten bytes yields for `s`: the value (truncated
/// to 64 bits) and the number of bytes consumed, or `None` when the input ends
/// before a terminating byte or the terminator lies beyond the tenth byte.
pub open spec fn leb128_decoded(s: Seq<u8>) -> Option<(u64, nat)> {
    match leb128_terminator(s) {
        Some(i) if i < 10 => Some(
            ((leb128_value(s.take(i as int + 1)) % 0x1_0000_0000_0000_0000) as u64, i + 1),
        ),
        _ => None,
    }
}

/// 128 to the power `i`.
pub open spec fn pow128(i: nat) -> nat
    decreases i,
{
    if i == 0 { 1 } else { 128 * pow128((i - 1) as nat) }
}

pub proof fn lemma_pow128_step(i: nat)
    ensures
        pow128(i + 1) == 128 * pow128(i),
{
}

proof fn lemma_pow128_monotone(i: nat, j: nat)
    requires i <= j,
    ensures pow128(i) <= pow128(j),
    decreases j,
{
    if i < j {
        lemma_pow128_monotone(i, (j - 1) as nat);
    }
}

/// Appending a byte adds its low seven bits at weight 128^len.
pub proof fn lemma_value_push(s: Seq<u8>, b: u8)
    ensures
        leb128_value(s.push(b)) == leb128_value(s) + (b % 128) * pow128(s.len()),
    decreases s.len(),
{
    if s.len() == 0 {
        assert(s.push(b).drop_first() =~= Seq::<u8>::empty());
        assert(leb128_value(Seq::<u8>::empty()) == 0);
        assert(s.push(b)[0] == b);
        assert(s =~= Seq::<u8>::empty());
        assert(pow128(0) == 1);
        assert(leb128_value(s.push(b)) == b % 128 + 128 * leb128_value(s.push(b).drop_first()));
    } else {
        let t = s.drop_first();
        assert(s.push(b).drop_first() =~= t.push(b));
        assert(s.push(b)[0] == s[0]);
        lemma_value_push(t, b);
        lemma_pow128_step((s.len() - 1) as nat);
        let r = leb128_value(t);
        let p = pow128((s.len() - 1) as nat);
        let c = (b % 128) as int;
        assert(leb128_value(s.push(b)) == s[0] % 128 + 128 * leb128_value(t.push(b)));
        assert(leb128_value(t.push(b)) == r + c * p);
        assert(128 * (r + c * p) == 128 * r + c * (128 * p)) by (nonlinear_arith);
        assert(leb128_value(s) == s[0] % 128 + 128 * r);
        assert(pow128(s.len()) == 128 * p);
    }
}

/// The value of `n` bytes stays below 128^n.
pub proof fn lemma_value_bound(s: Seq<u8>)
    ensures
        leb128_value(s) < pow128(s.len()),
    decreases s.len(),
{
    if s.len() > 0 {
        lemma_value_bound(s.drop_first());
        lemma_pow128_step((s.len() - 1) as nat);
        let r = leb128_value(s.drop_first());
        let p = pow128((s.len() - 1) as nat);
        assert((s[0] % 128) + 128 * r < 128 * p) by (nonlinear_arith)
            requires r < p, s[0] % 128 < 128, r >= 0;
    }
}

pub proof fn lemma_terminator_take(s: Seq<u8>, i: nat)
    requires
        leb128_terminator(s) == Some(i),
    ensures
        i < s.len(),
        s[i as int] < 128,
        forall|j: int| 0 <= j < i ==> s[j] >= 128,
        leb128_terminator(s.take(i as int + 1)) == Some(i),
    decreases s.len(),
{
    if i > 0 {
        lemma_terminator_take(s.drop_first(), (i - 1) as nat);
        assert(s[0] >= 128);
        assert forall|j: int| 0 <= j < i implies s[j] >= 128 by {
            if j > 0 {
                assert(s[j] == s.drop_first()[j - 1]);
            }
        }
        assert(s.take(i as int + 1).drop_first() =~= s.drop_first().take(i as int));
    }
}

/// Encoding then decoding gives back the value and the encoding's length.
pub proof fn lemma_leb128_roundtrip(v: nat)
    ensures
        leb128_value(leb128_bytes(v)) == v,
        leb128_terminator(leb128_bytes(v)) == Some((leb128_bytes(v).len() - 1) as nat),
    decreases v,
{
    if v < 128 {
        let s = leb128_bytes(v);
        assert(s.drop_first() =~= Seq::<u8>::empty());
        assert(leb128_value(Seq::<u8>::empty()) == 0);
        assert(leb128_value(s) == s[0] % 128 + 128 * leb128_value(s.drop_first()));
    } else {
        lemma_leb128_roundtrip(v / 128);
        let b = ((v % 128) + 128) as u8;
        assert(b % 128 == v % 128);
        assert(leb128_bytes(v)[0] == b);
        assert(leb128_bytes(v).drop_first() =~= leb128_bytes(v / 128));
        assert(leb128_value(leb128_bytes(v)) == b % 128 + 128 * leb128_value(leb128_bytes(v / 128)));
        assert(v == v % 128 + 128 * (v / 128));
    }
}

/// Values below 2^(7k) take at most k bytes.
pub proof fn lemma_leb128_len_bound(v: nat, k: nat)
    requires
        k >= 1,
        v < pow128(k),
    ensures
        leb128_bytes(v).len() <= k,
    decreases v,
{
    if v >= 128 {
        if k == 1 {
            assert(pow128(1) == 128 * pow128(0));
            assert(false);
        }
        lemma_pow128_step((k - 1) as nat);
        let p = pow128((k - 1) as nat);
        assert(v / 128 < p) by (nonlinear_arith)
            requires v < 128 * p, p >= 0;
        lemma_leb128_len_bound(v / 128, (k - 1) as nat);
    }
}

pub proof fn lemma_u64_fits_ten(v: u64)
    ensures
        leb128_bytes(v as nat).len() <= 10,
{
    assert(pow128(10) == 0x4000_0000_0000_0000_00) by {
        reveal_with_fuel(pow128, 11);
    }
    lemma_leb128_len_bound(v as nat, 10);
}

/// The bytes of a 64-bit value's encoding: one to ten of them, the high bit
/// set on every byte but the last, and their low seven bits, each group
/// weighted by 128 to the power of its place, summing back to the value.
pub proof fn law_leb128_bytes_shape(v: u64)
    ensures
        1 <= leb128_bytes(v as nat).len() <= 10,
        forall|i: int| 0 <= i < leb128_bytes(v as nat).len() - 1 ==> #[trigger] leb128_bytes(v as nat)[i] >= 128,
        leb128_bytes(v as nat)[leb128_bytes(v as nat).len() - 1] < 128,
        leb128_value(leb128_bytes(v as nat)) == v,
{
    let s = leb128_bytes(v as nat);
    lemma_u64_fits_ten(v);
    lemma_leb128_roundtrip(v as nat);
    lemma_terminator_take(s, (s.len() - 1) as nat);
}

/// Encode `value` into `buf`, returning the number of bytes written.
pub fn encode(value: u64, buf: &mut [u8]) -> (n: usize)
    requires
        old(buf)@.len() >= leb128_bytes(value as nat).len(),
    ensures
        n == leb128_bytes(value as nat).len(),
        1 <= n <= 10,
        final(buf)@.len() == old(buf)@.len(),
        final(buf)@.take(n as int) == leb128_bytes(value as nat),
        forall|j: int| n <= j < old(buf)@.len() ==> final(buf)@[j] == old(buf)@[j],
{
    proof { lemma_u64_fits_ten(value); }
    let ghost v0 = value as nat;
    let mut rem = value;
    let mut i: usize = 0;
    loop
        invariant
            i + leb128_bytes(rem as nat).len() == leb128_bytes(v0).len(),
            leb128_bytes(v0).len() <= 10,
            buf@.len() == old(buf)@.len(),
            buf@.len() >= leb128_bytes(v0).len(),
            leb128_bytes(v0) == buf@.take(i as int) + leb128_bytes(rem as nat),
            forall|j: int| i <= j < buf@.len() ==> buf@[j] == old(buf)@[j],
            v0 == value as nat,
        decreases rem,
    {
        let byte: u8 = (rem % 128) as u8;
        let rest = rem / 128;
        let ghost before = buf@;
        if rest == 0 {
            assert(leb128_bytes(rem as nat) =~= seq![byte]);
            buf[i] = byte;
            assert(buf@.take(i as int + 1) =~= before.take(i as int).push(byte));
            i = i + 1;

            assert(buf@.take(i as int) == leb128_bytes(v0));
            return i;
        } else {
            buf[i] = byte + 128;
            assert(leb128_bytes(rem as nat) =~= seq![(byte + 128) as u8] + leb128_bytes(rest as nat));
            assert(buf@.take(i as int + 1) =~= before.take(i as int).push((byte + 128) as u8));
            i = i + 1;
            rem = rest;
        }
    }
}

/// Decode a LEB128 value from `buf`, returning `(value, bytes_consumed)`.
/// Returns `None` if `buf` is empty or truncated, or the encoding runs past ten bytes.
pub fn decode(buf: &[u8]) -> (r: Option<(u64, usize)>)
    ensures
        match r {
            Some((v, n)) => leb128_decoded(buf@) == Some((v, n as nat)),
            None => leb128_decoded(buf@) is None,
        },
{
    let mut value: u128 = 0;
    let mut mult: u128 = 1;
    let mut i: usize = 0;
    while i < buf.len()
        invariant
            i <= buf@.len(),
            i <= 9,
            mult == pow128(i as nat),
            value == leb128_value(buf@.take(i as int)),
            forall|j: int| 0 <= j < i ==> buf@[j] >= 128,
        decreases buf@.len() - i,
    {
        let byte = buf[i];
        proof {
            lemma_value_push(buf@.take(i as int), byte);
            assert(buf@.take(i as int).push(byte) =~= buf@.take(i as int + 1));
            lemma_value_bound(buf@.take(i as int));
            lemma_pow128_monotone(i as nat, 9);
            assert(pow128(9) == 0x8000_0000_0000_0000) by {
                reveal_with_fuel(pow128, 10);
            }
            assert((byte % 128) as int * mult <= 127 * 0x8000_0000_0000_0000) by (nonlinear_arith)
                requires mult <= 0x8000_0000_0000_0000, byte % 128 < 128;
        }
        value = value + ((byte % 128) as u128) * mult;
        if byte < 128 {
            proof {
                assert(leb128_terminator(buf@) == Some(i as nat)) by {
                    lemma_terminator_prefix(buf@, i as nat);
                }
            }
            return Some(((value % 0x1_0000_0000_0000_0000) as u64, i + 1));
        }
        if i == 9 {
            proof {
                lemma_terminator_beyond(buf@, 10);
            }
            return None;
        }
        proof { lemma_pow128_step(i as nat); }
        mult = mult * 128;
        i = i + 1;
    }
    proof {
        lemma_terminator_none(buf@);
    }
    None
}

proof fn lemma_terminator_prefix(s: Seq<u8>, i: nat)
    requires
        i < s.len(),
        s[i as int] < 128,
        forall|j: int| 0 <= j < i ==> s[j] >= 128,
    ensures
        leb128_terminator(s) == Some(i),
    decreases i,
{
    if i > 0 {
        lemma_terminator_prefix(s.drop_first(), (i - 1) as nat);
    }
}

proof fn lemma_terminator_beyond(s: Seq<u8>, k: nat)
    requires
        k <= s.len(),
        forall|j: int| 0 <= j < k ==> s[j] >= 128,
    ensures
        match leb128_terminator(s) {
            Some(t) => t >= k,
            None => true,
        },
    decreases k,
{
    if k > 0 {
        lemma_terminator_beyond(s.drop_first(), (k - 1) as nat);
    }
}

proof fn lemma_terminator_none(s: Seq<u8>)
    requires
        forall|j: int| 0 <= j < s.len() ==> s[j] >= 128,
    ensures
        leb128_terminator(s) is None,
    decreases s.len(),
{
    if s.len() > 0 {
        lemma_terminator_none(s.drop_first());
    }
}

/// Return the number of bytes needed to LEB128-encode `value`.
pub fn encoded_len(value: u64) -> (n: usize)
    ensures
        n == leb128_bytes(value as nat).len(),
        1 <= n <= 10,
{
    proof { lemma_u64_fits_ten(value); }
    let ghost v0 = value as nat;
    let mut value = value;
    let mut n: usize = 1;
    while value >= 128
        invariant
            n - 1 + leb128_bytes(value as nat).len() == leb128_bytes(v0).len(),
            leb128_bytes(v0).len() <= 10,
            n >= 1,
        decreases value,
    {
        value = value / 128;
        n = n + 1;
    }
    n
}

/// Decoding the encoding of a value gives the value back, with the encoding's
/// length as the number of bytes consumed.
pub proof fn law_decode_encode(v: u64)
    ensures
        leb128_decoded(leb128_bytes(v as nat)) == Some((v, leb128_bytes(v as nat).len())),
{
    lemma_u64_fits_ten(v);
    lemma_leb128_roundtrip(v as nat);
    let s = leb128_bytes(v as nat);
    assert(s.take(s.len() as int) =~= s);
}

} // verus!

verus! {

/// Why a LEB128 number could not be read.
#[derive(Debug, Clone, Copy, PartialEq, Eq)]
pub enum LebError {
    /// The input ends before the terminating byte.
    Truncated,
    /// Ten bytes in, no terminating byte yet: the value would pass 64 bits.
    Overflow,
}

/// What a strict LEB128 reader yields for `s`: like `leb128_decoded`, but telling
/// an input that ends too early from one that runs past ten bytes.
pub open spec fn leb128_read(s: Seq<u8>) -> Result<(u64, nat), LebError> {
    match leb128_decoded(s) {
        Some(r) => Ok(r),
        None => if s.len() >= 10 { Err(LebError::Overflow) } else { Err(LebError::Truncated) },
    }
}

/// An encoding followed by other bytes reads back as its value and its length.
pub proof fn lemma_leb128_read_prefix(v: nat, rest: Seq<u8>)
    requires
        v < 0x1_0000_0000_0000_0000,
    ensures
        leb128_read(leb128_bytes(v) + rest) == Ok::<(u64, nat), LebError>((v as u64, leb128_bytes(v).len())),
{
    let s = leb128_bytes(v);
    let t = s + rest;
    lemma_leb128_roundtrip(v);
    lemma_u64_fits_ten(v as u64);
    let i = (s.len() - 1) as nat;
    lemma_terminator_take(s, i);
    assert forall|j: int| 0 <= j < i implies t[j] >= 128 by {
        assert(t[j] == s[j]);
    }
    assert(t[i as int] == s[i as int]);
    lemma_terminator_prefix(t, i);
    assert(t.take(i as int + 1) =~= s);
}

/// Read an unsigned LEB128 number from `buf[pos..]`.
#[verifier::spinoff_prover]
pub fn read_leb128(buf: &[u8], pos: usize) -> (r: Result<(u64, usize), LebError>)
    requires
        pos <= buf@.len(),
    ensures
        match r {
            Ok((v, n)) => leb128_read(buf@.skip(pos as int)) == Ok::<(u64, nat), LebError>((v, n as nat)),
            Err(e) => leb128_read(buf@.skip(pos as int)) == Err::<(u64, nat), LebError>(e),
        },
{
    let mut value: u128 = 0;
    let mut mult: u128 = 1;
    let mut i: usize = 0;
    let ghost s = buf@.skip(pos as int);
    let avail = buf.len() - pos;
    while i < avail
        invariant
            pos <= buf@.len(),
            s == buf@.skip(pos as int),
            s.len() == buf@.len() - pos,
            avail == s.len(),
            pos + avail == buf@.len(),
            i <= s.len(),
            i <= 9,
            mult == pow128(i as nat),
            value == leb128_value(s.take(i as int)),
            forall|j: int| 0 <= j < i ==> s[j] >= 128,
        decreases s.len() - i,
    {
        let at: usize = pos + i;
        let byte = buf[at];
        assert(byte == s[i as int]);
        proof {
            lemma_value_push(s.take(i as int), byte);
            assert(s.take(i as int).push(byte) =~= s.take(i as int + 1));
            lemma_value_bound(s.take(i as int));
            lemma_pow128_monotone(i as nat, 9);
            assert(pow128(9) == 0x8000_0000_0000_0000) by {
                reveal_with_fuel(pow128, 10);
            }
            assert((byte % 128) as int * mult <= 127 * 0x8000_0000_0000_0000) by (nonlinear_arith)
                requires mult <= 0x8000_0000_0000_0000, byte % 128 < 128;
        }
        value = value + ((byte % 128) as u128) * mult;
        if byte < 128 {
            proof {
                lemma_terminator_prefix(s, i as nat);
            }
            return Ok(((value % 0x1_0000_0000_0000_0000) as u64, i + 1));
        }
        if i == 9 {
            proof {
                lemma_terminator_beyond(s, 10);
            }
            return Err(LebError::Overflow);
        }
        proof { lemma_pow128_step(i as nat); }
        mult = mult * 128;
        i = i + 1;
    }
    proof {
        lemma_terminator_none(s);
    }
    Err(LebError::Truncated)
}

} // verus!
