//! Powers of two, binary logarithms and the few facts about shifts and masks
//! that the hash tables and the sequence codes rest on.

use vstd::prelude::*;
use vstd::arithmetic::power2::{lemma2_to64, lemma_pow2_pos, lemma_pow2_strictly_increases, lemma_pow2_unfold, pow2};

verus! {

/// Position of the highest set bit of a positive number.
pub open spec fn log2_floor(v: int) -> int
    decreases v,
{
    if v <= 1 {
        0
    } else {
        1 + log2_floor(v / 2)
    }
}

/// The highest set bit brackets the number between two powers of two.
pub proof fn lemma_log2_bracket(v: int)
    requires
        v >= 1,
    ensures
        log2_floor(v) >= 0,
        pow2(log2_floor(v) as nat) <= v < pow2((log2_floor(v) + 1) as nat),
    decreases v,
{
    lemma2_to64();
    if v > 1 {
        lemma_log2_bracket(v / 2);
        let k = log2_floor(v / 2) as nat;
        lemma_pow2_unfold((k + 1) as nat);
        lemma_pow2_unfold((k + 2) as nat);
        assert(pow2(k) * 2 <= v);
    }
}

/// Powers of two grow with the exponent.
pub proof fn lemma_pow2_monotone(a: nat, b: nat)
    requires
        a <= b,
    ensures
        pow2(a) <= pow2(b),
{
    if a < b {
        lemma_pow2_strictly_increases(a, b);
    }
}

/// Logarithms grow with the number.
pub proof fn lemma_log2_monotone(a: int, b: int)
    requires
        1 <= a <= b,
    ensures
        log2_floor(a) <= log2_floor(b),
    decreases b,
{
    if a > 1 {
        lemma_log2_monotone(a / 2, b / 2);
    } else if b > 1 {
        lemma_log2_bracket(b);
    }
}

/// A nonzero 32-bit number has a logarithm below 32.
pub proof fn lemma_log2_u32(v: u32)
    requires
        v >= 1,
    ensures
        0 <= log2_floor(v as int) < 32,
{
    lemma2_to64();
    lemma_log2_bracket(v as int);
    let k = log2_floor(v as int) as nat;
    if k >= 32 {
        lemma_pow2_monotone(32, k);
    }
}

/// A nonzero 64-bit number has a logarithm below 64.
pub proof fn lemma_log2_u64(v: u64)
    requires
        v >= 1,
    ensures
        0 <= log2_floor(v as int) < 64,
{
    lemma2_to64();
    vstd::arithmetic::power2::lemma2_to64_rest();
    lemma_log2_bracket(v as int);
    let k = log2_floor(v as int) as nat;
    if k >= 64 {
        lemma_pow2_monotone(64, k);
    }
}

/// Position of the highest set bit.
pub fn ilog2(v: u64) -> (r: u32)
    requires
        v >= 1,
    ensures
        r == log2_floor(v as int),
        r < 64,
{
    let mut x: u64 = v;
    let mut n: u32 = 0;
    proof {
        lemma_log2_u64(v);
    }
    while x > 1
        invariant
            x >= 1,
            n + log2_floor(x as int) == log2_floor(v as int),
            log2_floor(v as int) < 64,
        decreases x,
    {
        proof {
            lemma_log2_bracket((x / 2) as int);
        }
        x = x / 2;
        n = n + 1;
    }
    n
}

/// The power of two with exponent `n`.
pub fn pow2_u64(n: u32) -> (r: u64)
    requires
        n < 64,
    ensures
        r == pow2(n as nat),
        r >= 1,
{
    proof {
        lemma_shl_is_pow2(n as u64);
        lemma_pow2_pos(n as nat);
    }
    1u64 << n
}

/// A one shifted left by `n` is the power of two with exponent `n`.
pub proof fn lemma_shl_is_pow2(n: u64)
    requires
        n < 64,
    ensures
        1u64 << n == pow2(n as nat),
        pow2(n as nat) <= u64::MAX,
{
    lemma2_to64();
    vstd::arithmetic::power2::lemma2_to64_rest();
    lemma_pow2_monotone(n as nat, 63);
    vstd::bits::lemma_u64_shl_is_mul(1, n);
}

/// What a right shift by `64 - log` leaves fits in `log` bits.
pub proof fn lemma_top_bits(v: u64, log: u32)
    requires
        1 <= log < 64,
    ensures
        (v >> ((64 - log) as u64)) < pow2(log as nat),
{
    let n = (64 - log) as u64;
    assert(v >> n < 1u64 << ((64 - n) as u64)) by (bit_vector)
        requires
            1 <= n < 64,
    ;
    lemma_shl_is_pow2(log as u64);
}

} // verus!
