//! Prices of offsets and of the literals that a match displaces, in bits.

use vstd::prelude::*;
use crate::bits::{ilog2, lemma_log2_bracket, lemma_log2_u32, log2_floor};

verus! {

/// Code length assumed for every literal before a block has been encoded.
pub const DEFAULT_LIT_LEN: u8 = 4;

/// Longest match length that the price arithmetic takes.
pub const PRICE_MAX_LEN: usize = 0x0400_0000;

/// Literal prices before a block has been encoded.
pub open spec fn default_lit_lens() -> Seq<u8> {
    Seq::new(256, |i: int| DEFAULT_LIT_LEN)
}

/// Price of an offset: the exponent of its code.
pub open spec fn offset_price(dist: int) -> int {
    log2_floor(dist + 1)
}

/// Price of the offset between a match at `idx` and its source at `cand`.
pub fn price_of(idx: usize, cand: usize) -> (r: i32)
    requires
        cand <= idx,
        idx - cand < u32::MAX,
    ensures
        r == offset_price(idx - cand),
        0 <= r < 32,
{
    proof {
        lemma_log2_u32((idx - cand + 1) as u32);
    }
    ilog2((idx - cand) as u64 + 1) as i32
}

/// Whether a match of `ml` bytes at distance `dist` saves more than its offset
/// costs, at four bits per literal.
pub open spec fn pays_flat(ml: int, dist: int) -> bool {
    ml * 4 >= log2_floor(dist) + 7
}

/// Whether a match clears its offset's price at four bits per literal; repeated
/// offsets always do.
pub fn pays_for_offset(ml: usize, idx: usize, cand: usize, rep_hit: bool) -> (r: bool)
    requires
        cand < idx,
        ml <= PRICE_MAX_LEN,
    ensures
        r == (rep_hit || pays_flat(ml as int, idx - cand)),
{
    if rep_hit {
        return true;
    }
    let log: u32 = ilog2((idx - cand) as u64);
    ml * 4 >= log as usize + 7
}

/// Sum of the code lengths of the `n` literals at `i`.
pub open spec fn lit_cost(w: Seq<u8>, i: int, n: int, lens: Seq<u8>) -> int
    decreases n,
{
    if n <= 0 {
        0
    } else {
        lit_cost(w, i, n - 1, lens) + lens[w[i + n - 1] as int]
    }
}

/// Whether the literals that a match displaces cost more than its offset, where
/// at most the first six price the run.
pub open spec fn pays_lit(w: Seq<u8>, i: int, ml: int, dist: int, lens: Seq<u8>) -> bool {
    let k = if ml < 6 {
        ml
    } else {
        6
    };
    lit_cost(w, i, k, lens) * ml >= (log2_floor(dist) + 7) * k
}

/// Whether the literals that a match displaces cost more than its offset;
/// repeated offsets always pay.
pub fn pays_for_offset_lit(
    win: &[u8],
    idx: usize,
    ml: usize,
    cand: usize,
    rep_hit: bool,
    lit_lens: &[u8; 256],
) -> (r: bool)
    requires
        !rep_hit ==> cand < idx && idx + ml <= win@.len() && ml <= PRICE_MAX_LEN,
    ensures
        r == (rep_hit || pays_lit(win@, idx as int, ml as int, idx - cand, lit_lens@)),
{
    if rep_hit {
        return true;
    }
    let price: u64 = ilog2((idx - cand) as u64) as u64 + 7;
    let k: usize = if ml < 6 {
        ml
    } else {
        6
    };
    let mut cost: u64 = 0;
    let mut t: usize = 0;
    while t < k
        invariant
            k <= 6,
            t <= k,
            k <= ml,
            idx + ml <= win@.len(),
            cost == lit_cost(win@, idx as int, t as int, lit_lens@),
            cost <= t * 255,
        decreases k - t,
    {
        assert(win@.len() == win.len());
        cost = cost + lit_lens[win[idx + t] as usize] as u64;
        t = t + 1;
    }
    proof {
        assert(cost * ml <= 1530 * 0x0400_0000) by (nonlinear_arith)
            requires
                0 <= cost <= 1530,
                0 <= ml <= 0x0400_0000,
        ;
        assert(price * k <= 71 * 6) by (nonlinear_arith)
            requires
                0 <= price <= 71,
                0 <= k <= 6,
        ;
    }
    cost * (ml as u64) >= price * (k as u64)
}

/// A code length, capped at six bits.
pub open spec fn capped_len(lens: Seq<u8>, b: u8) -> int {
    if lens[b as int] < 6 {
        lens[b as int] as int
    } else {
        6
    }
}

/// Bits that a match of `len` bytes at `i` saves, estimated from its first four
/// bytes at capped code lengths.
pub open spec fn lit_gain(w: Seq<u8>, i: int, len: int, lens: Seq<u8>) -> int {
    (capped_len(lens, w[i]) + capped_len(lens, w[i + 1]) + capped_len(lens, w[i + 2]) + capped_len(
        lens,
        w[i + 3],
    )) * len / 4
}

/// Code length of a literal, capped at six bits.
fn capped(lit_lens: &[u8; 256], b: u8) -> (r: i32)
    ensures
        r == capped_len(lit_lens@, b),
        0 <= r <= 6,
{
    let l: u8 = lit_lens[b as usize];
    if l < 6 {
        l as i32
    } else {
        6
    }
}

/// Bits that a match saves over emitting its bytes as literals.
pub fn lit_value(win: &[u8], idx: usize, len: usize, lit_lens: &[u8; 256]) -> (r: i32)
    requires
        idx + 4 <= win@.len(),
        len <= PRICE_MAX_LEN,
    ensures
        r == lit_gain(win@, idx as int, len as int, lit_lens@),
        0 <= r <= 6 * len,
{
    let s: i32 = capped(lit_lens, win[idx]) + capped(lit_lens, win[idx + 1]) + capped(
        lit_lens,
        win[idx + 2],
    ) + capped(lit_lens, win[idx + 3]);
    proof {
        assert(0 <= s * len <= 24 * len) by (nonlinear_arith)
            requires
                0 <= s <= 24,
                0 <= len,
        ;
    }
    s * (len as i32) / 4
}

/// At the default lengths a match is worth four bits per byte.
pub proof fn lemma_lit_gain_default(w: Seq<u8>, i: int, len: int)
    ensures
        lit_gain(w, i, len, default_lit_lens()) == 4 * len,
{
    assert(capped_len(default_lit_lens(), w[i]) == 4);
    assert(capped_len(default_lit_lens(), w[i + 1]) == 4);
    assert(capped_len(default_lit_lens(), w[i + 2]) == 4);
    assert(capped_len(default_lit_lens(), w[i + 3]) == 4);
    let s = capped_len(default_lit_lens(), w[i]) + capped_len(default_lit_lens(), w[i + 1])
        + capped_len(default_lit_lens(), w[i + 2]) + capped_len(default_lit_lens(), w[i + 3]);
    assert(s * len == 16 * len) by (nonlinear_arith)
        requires
            s == 16,
    ;
}

/// At the default lengths the priced gate is the flat one.
pub proof fn lemma_pays_lit_default(w: Seq<u8>, i: int, ml: int, dist: int)
    requires
        ml >= 1,
        dist >= 1,
    ensures
        pays_lit(w, i, ml, dist, default_lit_lens()) == pays_flat(ml, dist),
{
    let k = if ml < 6 {
        ml
    } else {
        6
    };
    lemma_lit_cost_default(w, i, k);
    lemma_log2_bracket(dist);
    let p = log2_floor(dist) + 7;
    assert((4 * k) * ml >= p * k <==> ml * 4 >= p) by (nonlinear_arith)
        requires
            k >= 1,
    ;
}

proof fn lemma_lit_cost_default(w: Seq<u8>, i: int, n: int)
    requires
        n >= 0,
    ensures
        lit_cost(w, i, n, default_lit_lens()) == 4 * n,
    decreases n,
{
    if n > 0 {
        lemma_lit_cost_default(w, i, n - 1);
    }
}

} // verus!
