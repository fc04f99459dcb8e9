//! Digit strings of unsigned integers in a given radix.

use vstd::prelude::*;

verus! {

/// The ASCII character of digit `d`: `0`–`9`, then letters from `a` (or `A`).
pub open spec fn digit_char(d: nat, upper: bool) -> u8 {
    if d < 10 {
        (48 + d) as u8
    } else if upper {
        (65 + d - 10) as u8
    } else {
        (97 + d - 10) as u8
    }
}

pub proof fn lemma_div_lt(n: nat, radix: nat)
    requires
        radix >= 2,
        n >= radix,
    ensures
        n / radix < n,
        n / radix <= n / 2,
{
    assert(n / radix < n && n / radix <= n / 2) by (nonlinear_arith)
        requires radix >= 2, n >= radix;
}

/// The digits of `n` in base `radix`, most significant first, without leading
/// zeros; `0` is the single digit `0`.
pub open spec fn digits(n: nat, radix: nat, upper: bool) -> Seq<u8>
    decreases n,
{
    if radix < 2 || n < radix {
        seq![digit_char(n, upper)]
    } else {
        proof { lemma_div_lt(n, radix); }
        digits(n / radix, radix, upper).push(digit_char(n % radix, upper))
    }
}

pub open spec fn pow2(k: nat) -> nat
    decreases k,
{
    if k == 0 { 1 } else { 2 * pow2((k - 1) as nat) }
}

/// Below 2^k a number has at most k digits (k >= 1).
pub proof fn lemma_digits_len_bound(n: nat, radix: nat, upper: bool, k: nat)
    requires
        radix >= 2,
        k >= 1,
        n < pow2(k),
    ensures
        1 <= digits(n, radix, upper).len() <= k,
    decreases n,
{
    if n >= radix {
        lemma_div_lt(n, radix);
        if k == 1 {
            assert(pow2(1) == 2 * pow2(0));
            assert(false);
        }
        assert(n / 2 < pow2((k - 1) as nat)) by (nonlinear_arith)
            requires n < pow2(k), pow2(k) == 2 * pow2((k - 1) as nat);
        lemma_digits_len_bound(n / radix, radix, upper, (k - 1) as nat);
    }
}

pub proof fn lemma_u64_digits_len(n: u64, radix: nat, upper: bool)
    requires
        radix >= 2,
    ensures
        1 <= digits(n as nat, radix, upper).len() <= 64,
{
    assert(pow2(64) == 0x1_0000_0000_0000_0000) by {
        reveal_with_fuel(pow2, 65);
    }
    lemma_digits_len_bound(n as nat, radix, upper, 64);
}

/// The digits of `v` in base `radix` (2 to 36) as ASCII bytes.
pub fn to_digits(v: u64, radix: u64, upper: bool) -> (r: Vec<u8>)
    requires
        2 <= radix <= 36,
    ensures
        r@ == digits(v as nat, radix as nat, upper),
{
    let mut rev: Vec<u8> = Vec::new();
    let mut n = v;
    while n >= radix
        invariant
            2 <= radix <= 36,
            digits(v as nat, radix as nat, upper) == digits(n as nat, radix as nat, upper) + rev@.reverse(),
        decreases n,
    {
        let d = (n % radix) as u8;
        let c = digit_byte(d, upper);
        let ghost before = rev@;
        rev.push(c);
        assert(rev@.reverse() =~= seq![c] + before.reverse());
        assert(digits(n as nat, radix as nat, upper) =~= digits((n / radix) as nat, radix as nat, upper).push(c));
        assert(digits((n / radix) as nat, radix as nat, upper).push(c) + before.reverse()
            =~= digits((n / radix) as nat, radix as nat, upper) + rev@.reverse());
        n = n / radix;
    }
    let c = digit_byte(n as u8, upper);
    let ghost before = rev@;
    rev.push(c);
    assert(digits(n as nat, radix as nat, upper) =~= seq![c]);
    assert(rev@.reverse() =~= seq![c] + before.reverse());
    let mut out: Vec<u8> = Vec::new();
    let mut i: usize = rev.len();
    while i > 0
        invariant
            i <= rev@.len(),
            out@ == rev@.reverse().take(rev@.len() - i),
        decreases i,
    {
        i = i - 1;
        out.push(rev[i]);
        assert(rev@.reverse().take(rev@.len() - i) =~= rev@.reverse().take(rev@.len() - i - 1).push(rev@[i as int]));
    }
    assert(rev@.reverse().take(rev@.len() as int) =~= rev@.reverse());
    out
}

/// The ASCII character of digit `d` (below 36).
pub fn digit_byte(d: u8, upper: bool) -> (c: u8)
    requires
        d < 36,
    ensures
        c == digit_char(d as nat, upper),
{
    if d < 10 {
        48 + d
    } else if upper {
        65 + d - 10
    } else {
        97 + d - 10
    }
}


/// `b` to the power `k`.
pub open spec fn pow_nat(b: nat, k: nat) -> nat
    decreases k,
{
    if k == 0 { 1 } else { b * pow_nat(b, (k - 1) as nat) }
}

/// Below `radix^k` a number has at most `k` digits (k >= 1).
pub proof fn lemma_digits_len_pow(n: nat, radix: nat, upper: bool, k: nat)
    requires
        radix >= 2,
        k >= 1,
        n < pow_nat(radix, k),
    ensures
        1 <= digits(n, radix, upper).len() <= k,
    decreases n,
{
    if n >= radix {
        lemma_div_lt(n, radix);
        if k == 1 {
            reveal_with_fuel(pow_nat, 2);
            assert(pow_nat(radix, 1) == radix);
            assert(false);
        }
        assert(n / radix < pow_nat(radix, (k - 1) as nat)) by (nonlinear_arith)
            requires n < pow_nat(radix, k), pow_nat(radix, k) == radix * pow_nat(radix, (k - 1) as nat), radix >= 2;
        lemma_digits_len_pow(n / radix, radix, upper, (k - 1) as nat);
    }
}

} // verus!
