//! What cutting a block promises: the cut falls where the content changes, and
//! blocks of one kind stay whole.

use vstd::prelude::*;
use vstd::arithmetic::power2::{lemma2_to64, pow2};
use crate::gates::sampled_set;
use crate::pre_split::{byte_print, chunk_cut, cut_of, differs, distance, hits, magnitude, merged, occurrences, pair_hash, print_of, wide, FrameSavings, Print, SplitLevel};

verus! {

/// Whether a position of a block is sampled: every `rate`-th one of its chunk,
/// but for the chunk's last byte, which starts no pair.
pub open spec fn is_sample(p: int, rate: int) -> bool {
    p % 8192 < 8191 && (p % 8192) % rate == 0
}

/// How many of the samples before `n` have the hash `h`.
pub open spec fn seen(w: Seq<u8>, n: int, rate: int, log: u32, h: int) -> int
    decreases n,
{
    if n <= 0 {
        0
    } else {
        seen(w, n - 1, rate, log, h) + if is_sample(n - 1, rate) && pair_hash(w, n - 1, log) == h {
            1int
        } else {
            0
        }
    }
}

/// How many samples of chunk `j` have the hash `h`.
pub open spec fn fresh_hits(w: Seq<u8>, j: int, rate: int, log: u32, h: int) -> int {
    seen(w, (j + 1) * 8192, rate, log, h) - seen(w, j * 8192, rate, log, h)
}

/// How far chunk `j` is from the mean of the `j` chunks before it, over the first
/// `n` hashes, times `j`.
pub open spec fn chunk_gap(w: Seq<u8>, j: int, rate: int, log: u32, n: int) -> int
    decreases n,
{
    if n <= 0 {
        0
    } else {
        chunk_gap(w, j, rate, log, n - 1) + magnitude(
            seen(w, j * 8192, rate, log, n - 1) - j * fresh_hits(w, j, rate, log, n - 1),
        )
    }
}

/// Whether chunk `j` stands out from all before it: by fourteen sixteenths of the
/// samples, and more for the second, third and fourth chunk.
pub open spec fn stands_out(w: Seq<u8>, j: int, rate: int, log: u32) -> bool {
    let samples = 8191int / rate;
    let sixteenths = 14 + if j < 4 {
        4 - j
    } else {
        0
    };
    samples * chunk_gap(w, j, rate, log, pow2(log as nat) as int) >= (j * samples) * samples * sixteenths / 16
}

/// Between two samples nothing is counted.
proof fn lemma_nothing_between(w: Seq<u8>, j: int, n: int, m: int, rate: int, log: u32, h: int)
    requires
        j >= 0,
        0 <= n < m <= 8192,
        rate >= 1,
        n % rate == 0,
        m <= n + rate || n >= 8191,
    ensures
        seen(w, j * 8192 + m, rate, log, h) == seen(w, j * 8192 + n + 1, rate, log, h),
    decreases m - n,
{
    if m > n + 1 {
        lemma_nothing_between(w, j, n, m - 1, rate, log, h);
        let p = j * 8192 + m - 1;
        assert(p % 8192 == m - 1);
        assert((m - 1) % rate != 0) by {
            vstd::arithmetic::div_mod::lemma_fundamental_div_mod(n, rate);
            let d = m - 1 - n;
            vstd::arithmetic::div_mod::lemma_mod_multiples_vanish(n / rate, d, rate);
            vstd::arithmetic::div_mod::lemma_small_mod(d as nat, rate as nat);
            assert(rate * (n / rate) + d == m - 1);
        }
    }
}

/// The samples of a chunk from a position on are those that are seen past it.
proof fn lemma_hits_seen(w: Seq<u8>, j: int, n: int, rate: int, log: u32, h: int)
    requires
        j >= 0,
        (j + 1) * 8192 <= w.len(),
        0 <= n <= 8192,
        rate >= 1,
        n % rate == 0,
    ensures
        hits(w.subrange(j * 8192, j * 8192 + 8192), n, 8191, rate, log, h) == seen(
            w,
            (j + 1) * 8192,
            rate,
            log,
            h,
        ) - seen(w, j * 8192 + n, rate, log, h),
    decreases 8192 - n,
{
    let c = w.subrange(j * 8192, j * 8192 + 8192);
    let base = j * 8192;
    assert((j + 1) * 8192 == base + 8192);
    if n < 8191 {
        let p = base + n;
        assert(p % 8192 == n);
        assert(is_sample(p, rate));
        assert(pair_hash(c, n, log) == pair_hash(w, p, log));
        if n + rate <= 8192 {
            lemma_nothing_between(w, j, n, n + rate, rate, log, h);
            vstd::arithmetic::div_mod::lemma_mod_add_multiples_vanish(n, rate);
            lemma_hits_seen(w, j, n + rate, rate, log, h);
        } else {
            lemma_nothing_between(w, j, n, 8192, rate, log, h);
            assert(hits(c, n + rate, 8191, rate, log, h) == 0);
        }
    } else if n == 8191 {
        assert((base + 8191) % 8192 == 8191);
        assert(!is_sample(base + 8191, rate));
    }
}

/// The fingerprint of the chunks before `j`.
pub open spec fn past_of(w: Seq<u8>, j: int, rate: int, log: u32) -> Print {
    Print {
        ev: Seq::new(pow2(log as nat), |h: int| seen(w, j * 8192, rate, log, h)),
        nb: j * (8191int / rate),
    }
}

/// Taking a chunk's fingerprint to those before it gives the next.
proof fn lemma_past_grows(w: Seq<u8>, j: int, rate: int, log: u32)
    requires
        j >= 0,
        (j + 1) * 8192 <= w.len(),
        rate >= 1,
    ensures
        ({
            let new = print_of(w.subrange(j * 8192, j * 8192 + 8192), rate, log);
            &&& merged(past_of(w, j, rate, log), new) == past_of(w, j + 1, rate, log)
            &&& new.ev.len() == pow2(log as nat)
            &&& new.nb == 8191int / rate
            &&& forall|h: int| 0 <= h < pow2(log as nat) ==> #[trigger] new.ev[h] == fresh_hits(w, j, rate, log, h)
        }),
{
    let new = print_of(w.subrange(j * 8192, j * 8192 + 8192), rate, log);
    let m = merged(past_of(w, j, rate, log), new);
    let next = past_of(w, j + 1, rate, log);
    assert(0int % rate == 0) by {
        vstd::arithmetic::div_mod::lemma_small_mod(0, rate as nat);
    }
    assert forall|h: int| 0 <= h < pow2(log as nat) implies #[trigger] new.ev[h] == fresh_hits(w, j, rate, log, h) by {
        lemma_hits_seen(w, j, 0, rate, log, h);
    }
    assert(m.ev =~= next.ev);
    assert(m.nb == next.nb) by (nonlinear_arith)
        requires
            m.nb == j * (8191int / rate) + 8191int / rate,
            next.nb == (j + 1) * (8191int / rate),
    ;
    assert(m =~= next);
}

/// The distance of two fingerprints is the gap, scaled by the samples.
proof fn lemma_distance_is_gap(w: Seq<u8>, j: int, rate: int, log: u32, n: int)
    requires
        j >= 0,
        (j + 1) * 8192 <= w.len(),
        rate >= 1,
        0 <= n <= pow2(log as nat),
    ensures
        distance(past_of(w, j, rate, log), print_of(w.subrange(j * 8192, j * 8192 + 8192), rate, log), n) == (8191int
            / rate) * chunk_gap(w, j, rate, log, n),
    decreases n,
{
    let k = 8191int / rate;
    assert(k >= 0) by {
        vstd::arithmetic::div_mod::lemma_div_pos_is_pos(8191, rate);
    }
    if n > 0 {
        lemma_distance_is_gap(w, j, rate, log, n - 1);
        lemma_past_grows(w, j, rate, log);
        let a = past_of(w, j, rate, log);
        let b = print_of(w.subrange(j * 8192, j * 8192 + 8192), rate, log);
        let (p, q) = (a.ev[n - 1], b.ev[n - 1]);
        assert(q == fresh_hits(w, j, rate, log, n - 1));
        assert(magnitude(p * k - q * (j * k)) == k * magnitude(p - j * q)) by (nonlinear_arith)
            requires
                k >= 0,
        ;
        let g = chunk_gap(w, j, rate, log, n - 1);
        assert(k * (g + magnitude(p - j * q)) == k * g + k * magnitude(p - j * q)) by (nonlinear_arith);
    } else {
        assert(k * 0 == 0);
    }
}

/// From chunk `j` on, the cut is the first chunk that stands out.
proof fn lemma_cut_from(w: Seq<u8>, j: int, rate: int, log: u32)
    requires
        1 <= j <= 16,
        w.len() == 131072,
        rate >= 1,
    ensures
        ({
            let penalty = if j < 4 {
                4 - j
            } else {
                0
            };
            let c = chunk_cut(w, rate, log, past_of(w, j, rate, log), penalty, j * 8192);
            &&& j * 8192 <= c <= 131072
            &&& c % 8192 == 0
            &&& forall|i: int| j <= i && i * 8192 < c ==> !#[trigger] stands_out(w, i, rate, log)
            &&& c < 131072 ==> stands_out(w, c / 8192, rate, log)
        }),
    decreases 16 - j,
{
    let penalty = if j < 4 {
        4 - j
    } else {
        0
    };
    if j < 16 {
        let past = past_of(w, j, rate, log);
        let new = print_of(w.subrange(j * 8192, j * 8192 + 8192), rate, log);
        lemma_past_grows(w, j, rate, log);
        lemma_distance_is_gap(w, j, rate, log, pow2(log as nat) as int);
        assert(differs(past, new, penalty) == stands_out(w, j, rate, log));
        if !stands_out(w, j, rate, log) {
            lemma_cut_from(w, j + 1, rate, log);
        }
    }
}

/// A block is cut at the start of the first chunk that stands out from all chunks
/// before it: none before the cut does, and the chunk at the cut does. If none
/// stands out, the block stays whole.
pub proof fn lemma_cut_at_first_change(w: Seq<u8>, rate: usize, log: u32)
    requires
        w.len() == 131072,
        rate >= 1,
    ensures
        ({
            let c = cut_of(w, SplitLevel::Chunks { rate, hash_log: log });
            &&& 8192 <= c <= 131072
            &&& c % 8192 == 0
            &&& forall|i: int| 1 <= i && i * 8192 < c ==> !#[trigger] stands_out(w, i, rate as int, log)
            &&& c < 131072 ==> stands_out(w, c / 8192, rate as int, log)
        }),
{
    let r = rate as int;
    lemma_past_grows(w, 0, r, log);
    let first = print_of(w.take(8192), r, log);
    assert(w.take(8192) =~= w.subrange(0, 8192));
    assert(first.ev =~= past_of(w, 1, r, log).ev);
    assert(first =~= past_of(w, 1, r, log));
    lemma_cut_from(w, 1, r, log);
}

/// Alike chunks hold the same samples.
proof fn lemma_alike_samples(w: Seq<u8>, i: int, m: int, rate: int, log: u32, h: int)
    requires
        i >= 1,
        0 <= m <= 8192,
        rate >= 1,
        forall|p: int| (i - 1) * 8192 <= p < i * 8192 ==> #[trigger] w[p] == w[p + 8192],
    ensures
        seen(w, i * 8192 + m, rate, log, h) - seen(w, i * 8192, rate, log, h) == seen(
            w,
            (i - 1) * 8192 + m,
            rate,
            log,
            h,
        ) - seen(w, (i - 1) * 8192, rate, log, h),
    decreases m,
{
    if m > 0 {
        lemma_alike_samples(w, i, m - 1, rate, log, h);
        let p = (i - 1) * 8192 + m - 1;
        let q = i * 8192 + m - 1;
        assert(p % 8192 == m - 1 && q % 8192 == m - 1);
        if is_sample(p, rate) {
            assert(w[p] == w[p + 8192]);
            assert(w[p + 1] == w[p + 1 + 8192]);
            assert(pair_hash(w, p, log) == pair_hash(w, q, log));
        }
    }
}

/// Samples of chunks that are all alike add up to a multiple of the first one's.
proof fn lemma_alike_chunks(w: Seq<u8>, j: int, rate: int, log: u32, h: int)
    requires
        j >= 1,
        rate >= 1,
        forall|p: int| 0 <= p < (j - 1) * 8192 ==> #[trigger] w[p] == w[p + 8192],
    ensures
        seen(w, j * 8192, rate, log, h) == j * seen(w, 8192, rate, log, h),
        j >= 2 ==> fresh_hits(w, j - 1, rate, log, h) == seen(w, 8192, rate, log, h),
    decreases j,
{
    if j >= 2 {
        lemma_alike_chunks(w, j - 1, rate, log, h);
        lemma_alike_samples(w, j - 1, 8192, rate, log, h);
        let x = seen(w, 8192, rate, log, h);
        if j == 2 {
            assert(seen(w, 0, rate, log, h) == 0);
        }
        assert((j - 1) * x + x == j * x) by (nonlinear_arith);
    } else {
        let x = seen(w, 8192, rate, log, h);
        assert(j * x == x) by (nonlinear_arith)
            requires
                j == 1,
        ;
    }
}

/// A chunk like all before it does not stand out.
proof fn lemma_alike_stays(w: Seq<u8>, j: int, rate: int, log: u32)
    requires
        1 <= j,
        1 <= rate <= 1024,
        forall|p: int| 0 <= p < j * 8192 ==> #[trigger] w[p] == w[p + 8192],
    ensures
        !stands_out(w, j, rate, log),
{
    let n = pow2(log as nat) as int;
    lemma_no_gap(w, j, rate, log, n);
    let s = 8191int / rate;
    assert(s >= 7) by (nonlinear_arith)
        requires
            s == 8191int / rate,
            1 <= rate <= 1024,
    ;
    let sixteenths = 14 + if j < 4 {
        4 - j
    } else {
        0
    };
    assert((j * s) * s * sixteenths >= 16) by (nonlinear_arith)
        requires
            j >= 1,
            s >= 7,
            sixteenths >= 14,
    ;
    assert(s * 0 == 0);
}

proof fn lemma_no_gap(w: Seq<u8>, j: int, rate: int, log: u32, n: int)
    requires
        1 <= j,
        rate >= 1,
        forall|p: int| 0 <= p < j * 8192 ==> #[trigger] w[p] == w[p + 8192],
    ensures
        chunk_gap(w, j, rate, log, n) == 0,
    decreases n,
{
    if n > 0 {
        lemma_no_gap(w, j, rate, log, n - 1);
        lemma_alike_chunks(w, j, rate, log, n - 1);
        lemma_alike_chunks(w, j + 1, rate, log, n - 1);
    }
}

/// How many samples lie before `n`.
pub open spec fn sample_count(n: int, rate: int) -> int
    decreases n,
{
    if n <= 0 {
        0
    } else {
        sample_count(n - 1, rate) + if is_sample(n - 1, rate) {
            1int
        } else {
            0
        }
    }
}

/// Samples before `n` with one of the first `m` hashes.
spec fn seen_below(w: Seq<u8>, n: int, rate: int, log: u32, m: int) -> int
    decreases m,
{
    if m <= 0 {
        0
    } else {
        seen_below(w, n, rate, log, m - 1) + seen(w, n, rate, log, m - 1)
    }
}

proof fn lemma_seen_below_step(w: Seq<u8>, n: int, rate: int, log: u32, m: int)
    requires
        n >= 1,
        m >= 0,
    ensures
        seen_below(w, n, rate, log, m) == seen_below(w, n - 1, rate, log, m) + if is_sample(n - 1, rate) && 0
            <= pair_hash(w, n - 1, log) < m {
            1int
        } else {
            0
        },
    decreases m,
{
    if m > 0 {
        lemma_seen_below_step(w, n, rate, log, m - 1);
    }
}

/// Hashes of pairs fit the fingerprint, and are the top bits of the pair's
/// product with the golden ratio, or the first byte itself where there are eight.
pub proof fn lemma_pair_hash(w: Seq<u8>, p: int, log: u32)
    requires
        8 <= log <= 10,
    ensures
        0 <= pair_hash(w, p, log) < pow2(log as nat),
        log == 8 ==> pair_hash(w, p, log) == w[p],
        log > 8 ==> ({
            let x = (w[p] + 256 * w[p + 1]) * 2654435769 % 4294967296;
            let unit = pow2((32 - log) as nat);
            pair_hash(w, p, log) * unit <= x < (pair_hash(w, p, log) + 1) * unit
        }),
{
    lemma2_to64();
    if log > 8 {
        let x = (w[p] + 256 * w[p + 1]) * 2654435769 % 4294967296;
        let unit = pow2((32 - log) as nat) as int;
        let h = pair_hash(w, p, log);
        if log == 9 {
            assert(unit == 0x80_0000);
        } else {
            assert(unit == 0x40_0000);
        }
        assert(h == x / unit);
        vstd::arithmetic::div_mod::lemma_fundamental_div_mod(x, unit);
        assert(h * unit <= x < (h + 1) * unit) by (nonlinear_arith)
            requires
                x == unit * (x / unit) + x % unit,
                0 <= x % unit < unit,
                h == x / unit,
        ;
    }
}

/// Every sample is seen under one hash.
proof fn lemma_all_seen(w: Seq<u8>, n: int, rate: int, log: u32)
    requires
        8 <= log <= 10,
        n >= 0,
    ensures
        seen_below(w, n, rate, log, pow2(log as nat) as int) == sample_count(n, rate),
    decreases n,
{
    if n > 0 {
        lemma_all_seen(w, n - 1, rate, log);
        lemma_pair_hash(w, n - 1, log);
        lemma_seen_below_step(w, n, rate, log, pow2(log as nat) as int);
    } else {
        lemma_none_seen(w, rate, log, pow2(log as nat) as int);
    }
}

proof fn lemma_none_seen(w: Seq<u8>, rate: int, log: u32, m: int)
    ensures
        seen_below(w, 0, rate, log, m) == 0,
    decreases m,
{
    if m > 0 {
        lemma_none_seen(w, rate, log, m - 1);
    }
}

/// A chunk has at least as many samples as it counts for.
proof fn lemma_samples_of_chunk(j: int, m: int, rate: int)
    requires
        j >= 0,
        rate >= 1,
        0 <= m <= 8191,
    ensures
        (sample_count(j * 8192 + m, rate) - sample_count(j * 8192, rate)) * rate >= m,
    decreases m,
{
    if m > 0 {
        lemma_samples_of_chunk(j, m - 1, rate);
        let c = sample_count(j * 8192 + m - 1, rate) - sample_count(j * 8192, rate);
        let p = j * 8192 + m - 1;
        assert(p % 8192 == m - 1);
        if is_sample(p, rate) {
            assert((c + 1) * rate >= m) by (nonlinear_arith)
                requires
                    c * rate >= m - 1,
                    rate >= 1,
            ;
        } else {
            assert((m - 1) % rate != 0);
            if c * rate == m - 1 {
                vstd::arithmetic::div_mod::lemma_mod_multiples_basic(c, rate);
            }
        }
    } else {
        assert((sample_count(j * 8192, rate) - sample_count(j * 8192, rate)) * rate == 0) by (nonlinear_arith);
    }
}

proof fn lemma_samples(j: int, rate: int)
    requires
        j >= 0,
        rate >= 1,
    ensures
        sample_count((j + 1) * 8192, rate) - sample_count(j * 8192, rate) >= 8191int / rate,
        sample_count(j * 8192, rate) >= j * (8191int / rate),
    decreases j,
{
    lemma_samples_of_chunk(j, 8191, rate);
    let s = 8191int / rate;
    let c = sample_count(j * 8192 + 8191, rate) - sample_count(j * 8192, rate);
    vstd::arithmetic::div_mod::lemma_fundamental_div_mod(8191, rate);
    assert(c >= s) by (nonlinear_arith)
        requires
            c * rate >= 8191,
            8191 == rate * s + 8191int % rate,
            8191int % rate >= 0,
            rate >= 1,
    ;
    assert((j + 1) * 8192 == j * 8192 + 8191 + 1);
    if j > 0 {
        lemma_samples(j - 1, rate);
        assert((j - 1) * s + s == j * s) by (nonlinear_arith);
    } else {
        assert(0 * s == 0);
    }
}

/// What is seen was sampled somewhere.
proof fn lemma_seen_somewhere(w: Seq<u8>, from: int, n: int, rate: int, log: u32, h: int) -> (p: int)
    requires
        0 <= from <= n,
        seen(w, n, rate, log, h) != seen(w, from, rate, log, h),
    ensures
        from <= p < n,
        is_sample(p, rate),
        pair_hash(w, p, log) == h,
    decreases n - from,
{
    if is_sample(n - 1, rate) && pair_hash(w, n - 1, log) == h {
        n - 1
    } else {
        lemma_seen_somewhere(w, from, n - 1, rate, log, h)
    }
}

/// No sample of chunk `j` has the hash of one before it.
pub open spec fn nothing_shared(w: Seq<u8>, j: int, rate: int, log: u32) -> bool {
    forall|p: int, q: int|
        0 <= p < j * 8192 <= q < (j + 1) * 8192 && is_sample(p, rate) && is_sample(q, rate) ==> #[trigger] pair_hash(
            w,
            p,
            log,
        ) != #[trigger] pair_hash(w, q, log)
}

proof fn lemma_seen_grows(w: Seq<u8>, from: int, n: int, rate: int, log: u32, h: int)
    requires
        0 <= from <= n,
    ensures
        0 <= seen(w, from, rate, log, h) <= seen(w, n, rate, log, h),
    decreases n,
{
    if n > 0 {
        if from < n {
            lemma_seen_grows(w, from, n - 1, rate, log, h);
        } else {
            lemma_seen_grows(w, n - 1, n - 1, rate, log, h);
        }
    }
}

/// The gap of a chunk that shares nothing counts every sample.
proof fn lemma_full_gap(w: Seq<u8>, j: int, rate: int, log: u32, n: int)
    requires
        j >= 1,
        nothing_shared(w, j, rate, log),
        n >= 0,
    ensures
        chunk_gap(w, j, rate, log, n) == seen_below(w, j * 8192, rate, log, n) + j * (seen_below(
            w,
            (j + 1) * 8192,
            rate,
            log,
            n,
        ) - seen_below(w, j * 8192, rate, log, n)),
    decreases n,
{
    if n > 0 {
        lemma_full_gap(w, j, rate, log, n - 1);
        let h = n - 1;
        let a = seen(w, j * 8192, rate, log, h);
        let b = fresh_hits(w, j, rate, log, h);
        lemma_seen_grows(w, 0, j * 8192, rate, log, h);
        lemma_seen_grows(w, j * 8192, (j + 1) * 8192, rate, log, h);
        if a != 0 && b != 0 {
            let p = lemma_seen_somewhere(w, 0, j * 8192, rate, log, h);
            let q = lemma_seen_somewhere(w, j * 8192, (j + 1) * 8192, rate, log, h);
            assert(pair_hash(w, p, log) != pair_hash(w, q, log));
        }
        assert(magnitude(a - j * b) == a + j * b) by (nonlinear_arith)
            requires
                a >= 0,
                b >= 0,
                j >= 1,
                a == 0 || b == 0,
        ;
        let x = seen_below(w, (j + 1) * 8192, rate, log, n - 1) - seen_below(w, j * 8192, rate, log, n - 1);
        assert(j * (x + b) == j * x + j * b) by (nonlinear_arith);
    } else {
        assert(j * 0 == 0);
    }
}

/// A chunk that shares nothing with those before it stands out.
proof fn lemma_new_stands_out(w: Seq<u8>, j: int, rate: int, log: u32)
    requires
        j >= 1,
        rate >= 1,
        8 <= log <= 10,
        nothing_shared(w, j, rate, log),
    ensures
        stands_out(w, j, rate, log),
{
    let n = pow2(log as nat) as int;
    lemma_full_gap(w, j, rate, log, n);
    lemma_all_seen(w, j * 8192, rate, log);
    lemma_all_seen(w, (j + 1) * 8192, rate, log);
    lemma_samples(j, rate);
    let s = 8191int / rate;
    assert(s >= 0) by {
        vstd::arithmetic::div_mod::lemma_div_pos_is_pos(8191, rate);
    }
    let a = sample_count(j * 8192, rate);
    let b = sample_count((j + 1) * 8192, rate) - a;
    let g = chunk_gap(w, j, rate, log, n);
    let sixteenths = 14 + if j < 4 {
        4 - j
    } else {
        0
    };
    assert(s * g >= 2 * ((j * s) * s) && 0 <= (j * s) * s) by (nonlinear_arith)
        requires
            g == a + j * b,
            a >= j * s,
            b >= s,
            s >= 0,
            j >= 1,
    ;
    let x = (j * s) * s;
    assert(x * sixteenths <= 32 * x) by (nonlinear_arith)
        requires
            x >= 0,
            sixteenths <= 32,
    ;
}

/// A block whose chunks are all alike stays whole.
pub proof fn lemma_alike_block_stays_whole(w: Seq<u8>, rate: usize, log: u32)
    requires
        w.len() == 131072,
        1 <= rate <= 1024,
        forall|p: int| 0 <= p < 131072 - 8192 ==> #[trigger] w[p] == w[p + 8192],
    ensures
        cut_of(w, SplitLevel::Chunks { rate, hash_log: log }) == 131072,
{
    lemma_cut_at_first_change(w, rate, log);
    let c = cut_of(w, SplitLevel::Chunks { rate, hash_log: log });
    if c < 131072 {
        lemma_alike_stays(w, c / 8192, rate as int, log);
    }
}

/// A block that changes altogether after its first `j` chunks, which are alike, is
/// cut just there.
pub proof fn lemma_change_is_the_cut(w: Seq<u8>, j: int, rate: usize, log: u32)
    requires
        w.len() == 131072,
        1 <= j < 16,
        1 <= rate <= 1024,
        8 <= log <= 10,
        forall|p: int| 0 <= p < (j - 1) * 8192 ==> #[trigger] w[p] == w[p + 8192],
        nothing_shared(w, j, rate as int, log),
    ensures
        cut_of(w, SplitLevel::Chunks { rate, hash_log: log }) == j * 8192,
{
    lemma_cut_at_first_change(w, rate, log);
    lemma_new_stands_out(w, j, rate as int, log);
    let c = cut_of(w, SplitLevel::Chunks { rate, hash_log: log });
    if c < j * 8192 {
        lemma_alike_stays(w, c / 8192, rate as int, log);
    } else if c > j * 8192 {
        assert(!stands_out(w, j, rate as int, log));
    }
}

/// Occurrences are counted as in the multiset of the bytes.
pub proof fn lemma_occurrences_count(w: Seq<u8>, n: int, b: int)
    requires
        0 <= n <= w.len(),
        0 <= b < 256,
    ensures
        occurrences(w, n, b) == w.take(n).to_multiset().count(b as u8),
    decreases n,
{
    broadcast use vstd::seq_lib::group_to_multiset_ensures;
    let t = w.take(n);
    if n > 0 {
        let q = w.take(n - 1);
        lemma_occurrences_count(w, n - 1, b);
        vstd::seq_lib::to_multiset_build(q, w[n - 1]);
        assert(q.push(w[n - 1]) =~= t);
    } else {
        assert(!t.contains(b as u8));
    }
}

/// How far apart two segments are: for each of the first `n` byte values, by how
/// much their counts differ.
pub open spec fn byte_gap(a: Seq<u8>, b: Seq<u8>, n: int) -> int
    decreases n,
{
    if n <= 0 {
        0
    } else {
        byte_gap(a, b, n - 1) + magnitude(
            a.to_multiset().count((n - 1) as u8) as int - b.to_multiset().count((n - 1) as u8) as int,
        )
    }
}

proof fn lemma_byte_distance(a: Seq<u8>, b: Seq<u8>, n: int)
    requires
        a.len() == 512,
        b.len() == 512,
        0 <= n <= 256,
    ensures
        distance(byte_print(a), byte_print(b), n) == 512 * byte_gap(a, b, n),
    decreases n,
{
    if n > 0 {
        lemma_byte_distance(a, b, n - 1);
        lemma_occurrences_count(a, 512, n - 1);
        lemma_occurrences_count(b, 512, n - 1);
        assert(a.take(512) =~= a && b.take(512) =~= b);
        let (x, y) = (byte_print(a).ev[n - 1], byte_print(b).ev[n - 1]);
        assert(byte_print(a).nb == 512 && byte_print(b).nb == 512);
        assert(magnitude(x * 512 - y * 512) == 512 * magnitude(x - y));
    }
}

/// A block is cut by its borders: it stays whole while its first and its last
/// half kilobyte differ in fewer than seven of eight bytes. Otherwise the middle
/// decides: like neither more than the other, the cut is there; like the end, it
/// comes at a quarter; like the start, at three quarters.
pub proof fn lemma_border_cut(w: Seq<u8>)
    requires
        w.len() == 131072,
    ensures
        ({
            let first = w.take(512);
            let last = w.skip(131072 - 512);
            let middle = w.subrange(65280, 65792);
            let (a, b) = (byte_gap(first, middle, 256), byte_gap(last, middle, 256));
            let c = cut_of(w, SplitLevel::Borders);
            &&& byte_gap(first, last, 256) < 448 ==> c == 131072
            &&& byte_gap(first, last, 256) >= 448 ==> {
                &&& -170 <= a - b <= 170 ==> c == 65536
                &&& a - b > 170 ==> c == 32768
                &&& b - a > 170 ==> c == 98304
            }
        }),
{
    let first = w.take(512);
    let last = w.skip(131072 - 512);
    let middle = w.subrange(65280, 65792);
    assert(last =~= w.subrange(131072 - 512, 131072));
    lemma_byte_distance(first, last, 256);
    lemma_byte_distance(first, middle, 256);
    lemma_byte_distance(last, middle, 256);
}

/// A sample holds just the bytes at its positions.
proof fn lemma_sampled_bytes(w: Seq<u8>, from: int, to: int)
    requires
        0 <= from <= to <= w.len(),
    ensures
        sampled_set(w, from, to, 1) == w.subrange(from, to).to_set(),
    decreases to - from,
{
    let s = w.subrange(from, to);
    if from < to {
        lemma_sampled_bytes(w, from + 1, to);
        let r = w.subrange(from + 1, to);
        assert forall|b: u8| s.to_set().contains(b) == r.to_set().insert(w[from]).contains(b) by {
            if s.contains(b) {
                let i = choose|i: int| 0 <= i < s.len() && s[i] == b;
                if i > 0 {
                    assert(r[i - 1] == b);
                }
            }
            if r.contains(b) {
                let i = choose|i: int| 0 <= i < r.len() && r[i] == b;
                assert(s[i + 1] == b);
            }
            assert(s[0] == w[from]);
        }
        assert(s.to_set() =~= r.to_set().insert(w[from]));
    } else {
        assert(s.to_set() =~= Set::<u8>::empty());
    }
}

/// A block has a wide alphabet if its first, its middle or its last four kilobytes
/// hold 128 different bytes or more.
pub proof fn lemma_wide_alphabet(w: Seq<u8>)
    requires
        w.len() >= 4096,
    ensures
        ({
            let mid = w.len() as int / 2 - 2048;
            wide(w) <==> w.take(4096).to_set().len() >= 128 || w.subrange(mid, mid + 4096).to_set().len() >= 128
                || w.skip(w.len() - 4096).to_set().len() >= 128
        }),
{
    let n = w.len() as int;
    let mid = n / 2 - 2048;
    lemma_sampled_bytes(w, 0, 4096);
    lemma_sampled_bytes(w, mid, mid + 4096);
    lemma_sampled_bytes(w, n - 4096, n);
    assert(w.take(4096) =~= w.subrange(0, 4096));
    assert(w.skip(n - 4096) =~= w.subrange(n - 4096, n));
}

/// Blocks are cut only where it can pay: a full block of a frame that has saved
/// three bytes and shown a wide alphabet. A wide alphabet holds for the rest of
/// the frame; after four narrow blocks no more are looked at.
pub proof fn lemma_blocks_are_cut_sparingly(s: FrameSavings, w: Seq<u8>, level: Option<SplitLevel>)
    requires
        w.len() <= 131072,
        s.screened <= 4,
    ensures
        ({
            let t = s.after(w, level);
            let cuts = w.len() == 131072 && s.savings >= 3 && level is Some;
            &&& !cuts ==> s.size_of(w, level) == w.len() && t == s
            &&& cuts && s.armed ==> s.size_of(w, level) == cut_of(w, level->Some_0) && t == s
            &&& cuts && !s.armed && s.screened == 4 ==> s.size_of(w, level) == w.len() && t == s
            &&& cuts && !s.armed && s.screened < 4 ==> t.armed == wide(w) && t.screened == s.screened + 1 && s.size_of(
                w,
                level,
            ) == if wide(w) {
                cut_of(w, level->Some_0)
            } else {
                w.len() as int
            }
            &&& t.savings == s.savings
        }),
{
}

/// The chunk levels sample every 43rd, eleventh, fifth and every pair, into 256,
/// 512, 1024 and 1024 counters: each looks at least as closely as the one before.
pub proof fn lemma_split_levels(a: int, b: int)
    requires
        0 <= a <= b < 4,
    ensures
        SplitLevel::chunk_row(a) matches SplitLevel::Chunks { rate: r, hash_log: l } && {
            &&& r == seq![43int, 11, 5, 1][a] && l == seq![8int, 9, 10, 10][a]
            &&& SplitLevel::chunk_row(b) matches SplitLevel::Chunks { rate, hash_log } && rate <= r && hash_log >= l
        },
{
}

} // verus!
