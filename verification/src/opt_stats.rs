//! Prices of the optimal parse: symbol statistics that persist from block to
//! block, and the cost of literals, literal runs and matches under them, in
//! fractions of a bit.

use vstd::prelude::*;
use vstd::arithmetic::power2::{lemma2_to64, lemma_pow2_pos, lemma_pow2_unfold, pow2};
use crate::bits::{ilog2, lemma_log2_bracket, lemma_log2_monotone, lemma_log2_u32, lemma_pow2_monotone, log2_floor, pow2_u64};
use crate::scan::MAX_BLOCK_SIZE;
use crate::seq_codes::{encode_literal_length, encode_match_len, lemma_ll_code, lemma_ml_code, ll_bits, ll_code, ml_bits, ml_code, MAX_ML, MIN_ML};

verus! {

/// One bit of price.
pub const BITCOST_MULTIPLIER: u32 = 256;

/// What one occurrence of a literal adds to its frequency.
pub const LITFREQ_ADD: u32 = 2;

/// Blocks of at most this many bytes are priced without statistics.
pub const PREDEF_THRESHOLD: usize = 8;

/// Every sum of frequencies stays below this.
pub const SUM_LIMIT: u32 = 0x40_0000;

/// Weight of a frequency in whole bits.
pub open spec fn bit_weight_of(stat: int) -> int {
    256 * log2_floor(stat + 1)
}

/// Weight of a frequency, with the fraction between two powers of two
/// interpolated linearly.
pub open spec fn frac_weight_of(stat: int) -> int {
    let hb = log2_floor(stat + 1);
    256 * hb + (256 * (stat + 1)) / (pow2(hb as nat) as int)
}

/// Weight of a frequency: fractional for the slower parse, whole bits for the
/// faster one.
pub open spec fn weight_of(ultra: bool, stat: int) -> int {
    if ultra {
        frac_weight_of(stat)
    } else {
        bit_weight_of(stat)
    }
}

/// Weights below the limit of all sums stay below 24 bits.
pub proof fn lemma_weight_range(ultra: bool, stat: int)
    requires
        0 <= stat <= SUM_LIMIT,
    ensures
        0 <= weight_of(ultra, stat) < 6400,
        stat >= 1 ==> weight_of(ultra, stat) >= 256,
{
    let s = stat + 1;
    let hb = log2_floor(s) as nat;
    lemma2_to64();
    lemma_log2_bracket(s);
    if hb > 22 {
        lemma_pow2_monotone(23, hb);
    }
    lemma_pow2_pos(hb);
    lemma_pow2_unfold((hb + 1) as nat);
    lemma_quotient_bracket(s, pow2(hb) as int);
    if stat >= 1 {
        lemma_log2_monotone(2, s);
        assert(log2_floor(2) == 1 + log2_floor(1));
    }
}

/// The scaled mantissa lies between one and two.
proof fn lemma_quotient_bracket(s: int, p: int)
    requires
        0 < p <= s < 2 * p,
    ensures
        256 <= (256 * s) / p <= 511,
{
    vstd::arithmetic::div_mod::lemma_div_is_ordered(256 * p, 256 * s, p);
    vstd::arithmetic::div_mod::lemma_div_multiples_vanish(256, p);
    assert((256 * s) / p <= 511) by {
        vstd::arithmetic::div_mod::lemma_fundamental_div_mod(256 * s, p);
        let q = (256 * s) / p;
        if q >= 512 {
            assert(p * q >= p * 512) by (nonlinear_arith)
                requires
                    q >= 512,
                    p > 0,
            ;
        }
    }
}

/// Weights grow with the frequency.
pub proof fn lemma_weight_monotone(ultra: bool, a: int, b: int)
    requires
        0 <= a <= b,
    ensures
        weight_of(ultra, a) <= weight_of(ultra, b),
{
    let (s, t) = (a + 1, b + 1);
    let (h, k) = (log2_floor(s) as nat, log2_floor(t) as nat);
    lemma_log2_monotone(s, t);
    lemma_log2_bracket(s);
    lemma_log2_bracket(t);
    lemma_pow2_pos(h);
    lemma_pow2_pos(k);
    lemma_pow2_unfold((h + 1) as nat);
    lemma_pow2_unfold((k + 1) as nat);
    if h == k {
        vstd::arithmetic::div_mod::lemma_div_is_ordered(256 * s, 256 * t, pow2(h) as int);
    } else {
        lemma_quotient_bracket(s, pow2(h) as int);
        lemma_quotient_bracket(t, pow2(k) as int);
    }
}

/// Weight of a frequency in whole bits.
pub fn bit_weight(stat: u32) -> (r: u32)
    requires
        stat < u32::MAX,
    ensures
        r == bit_weight_of(stat as int),
{
    proof {
        lemma_log2_u32((stat + 1) as u32);
    }
    ilog2((stat + 1) as u64) * BITCOST_MULTIPLIER
}

/// Weight of a frequency with an interpolated fraction.
pub fn frac_weight(raw: u32) -> (r: u32)
    requires
        raw < 0x7f_ffff,
    ensures
        r == frac_weight_of(raw as int),
{
    let stat: u64 = raw as u64 + 1;
    let hb: u32 = ilog2(stat);
    proof {
        lemma2_to64();
        lemma_log2_bracket(stat as int);
        if hb > 22 {
            lemma_pow2_monotone(23, hb as nat);
        }
        lemma_pow2_pos(hb as nat);
        lemma_pow2_unfold((hb + 1) as nat);
        lemma_quotient_bracket(stat as int, pow2(hb as nat) as int);
    }
    hb * BITCOST_MULTIPLIER + ((stat * 256) / pow2_u64(hb)) as u32
}

/// Weight of a frequency.
pub fn weight(ultra: bool, stat: u32) -> (r: u32)
    requires
        stat <= SUM_LIMIT,
    ensures
        r == weight_of(ultra, stat as int),
{
    if ultra {
        frac_weight(stat)
    } else {
        bit_weight(stat)
    }
}

/// Sum of a table.
pub open spec fn total(t: Seq<u32>) -> int
    decreases t.len(),
{
    if t.len() == 0 {
        0
    } else {
        total(t.drop_last()) + t.last()
    }
}

/// No entry exceeds the sum, and no part of the table does.
pub proof fn lemma_total_bounds(t: Seq<u32>, k: int)
    requires
        0 <= k <= t.len(),
    ensures
        0 <= total(t.take(k)) <= total(t),
        k < t.len() ==> t[k] <= total(t),
    decreases t.len(),
{
    if t.len() > 0 {
        if k < t.len() {
            lemma_total_bounds(t.drop_last(), k);
            assert(t.drop_last().take(k) =~= t.take(k));
            if k == t.len() - 1 {
                lemma_total_bounds(t.drop_last(), k);
            }
        } else {
            lemma_total_bounds(t.drop_last(), k - 1);
            assert(t.drop_last().take(k - 1) =~= t.drop_last());
            assert(t.take(k) =~= t);
        }
    } else {
        assert(t.take(k) =~= t);
    }
}

/// Changing one entry changes the sum by as much.
pub proof fn lemma_total_update(t: Seq<u32>, i: int, v: u32)
    requires
        0 <= i < t.len(),
    ensures
        total(t.update(i, v)) == total(t) - t[i] + v,
    decreases t.len(),
{
    if i == t.len() - 1 {
        assert(t.update(i, v).drop_last() =~= t.drop_last());
    } else {
        assert(t.update(i, v).drop_last() =~= t.drop_last().update(i, v));
        lemma_total_update(t.drop_last(), i, v);
    }
}

/// A constant table sums to its length times the constant.
pub proof fn lemma_total_const(t: Seq<u32>, v: u32)
    requires
        forall|k: int| 0 <= k < t.len() ==> #[trigger] t[k] == v,
    ensures
        total(t) == t.len() * v,
    decreases t.len(),
{
    if t.len() > 0 {
        assert forall|k: int| 0 <= k < t.drop_last().len() implies #[trigger] t.drop_last()[k] == v by {
            assert(t[k] == v);
        }
        lemma_total_const(t.drop_last(), v);
        assert(t.last() == v);
        assert((t.len() - 1) * v + v == t.len() * v) by (nonlinear_arith);
    }
}

/// A frequency after scaling: a floor of one, or one only for symbols seen, plus
/// the scaled frequency.
pub open spec fn scaled(v: u32, shift: int, base1: bool) -> int {
    (if base1 || v > 0 {
        1int
    } else {
        0
    }) + v as int / (pow2(shift as nat) as int)
}

/// A table with every frequency scaled.
pub open spec fn downscaled(t: Seq<u32>, shift: int, base1: bool) -> Seq<u32> {
    t.map_values(|v: u32| scaled(v, shift, base1) as u32)
}

/// A scaled table sums to at most the scaled sum plus one for every entry.
pub proof fn lemma_downscaled_total(t: Seq<u32>, shift: int, base1: bool)
    requires
        shift >= 0,
        total(t) + t.len() <= u32::MAX,
    ensures
        0 <= total(downscaled(t, shift, base1)) <= total(t) / (pow2(shift as nat) as int) + t.len(),
        forall|k: int| 0 <= k < t.len() ==> #[trigger] downscaled(t, shift, base1)[k] == scaled(t[k], shift, base1),
        (exists|k: int| 0 <= k < t.len() && t[k] > 0) ==> total(downscaled(t, shift, base1)) >= 1,
        base1 && t.len() > 0 ==> total(downscaled(t, shift, base1)) >= 1,
    decreases t.len(),
{
    let p = pow2(shift as nat) as int;
    lemma_pow2_pos(shift as nat);
    let d = downscaled(t, shift, base1);
    assert forall|k: int| 0 <= k < t.len() implies #[trigger] d[k] == scaled(t[k], shift, base1) by {
        lemma_total_bounds(t, k);
        vstd::arithmetic::div_mod::lemma_div_is_ordered_by_denominator(t[k] as int, 1, p);
        vstd::arithmetic::div_mod::lemma_div_pos_is_pos(t[k] as int, p);
    }
    if t.len() > 0 {
        lemma_total_bounds(t, t.len() - 1);
        assert(t.take(t.len() - 1) =~= t.drop_last());
        lemma_downscaled_total(t.drop_last(), shift, base1);
        assert(d.drop_last() =~= downscaled(t.drop_last(), shift, base1));
        let (a, b) = (total(t.drop_last()), t.last() as int);
        assert(d[t.len() - 1] == scaled(t.last(), shift, base1));
        lemma_div_sum(a, b, p);
        vstd::arithmetic::div_mod::lemma_div_pos_is_pos(b, p);
        if exists|k: int| 0 <= k < t.len() && t[k] > 0 {
            let k = choose|k: int| 0 <= k < t.len() && t[k] > 0;
            if k < t.len() - 1 {
                assert(t.drop_last()[k] > 0);
            }
        }
    } else {
        vstd::arithmetic::div_mod::lemma_div_pos_is_pos(0, p);
    }
}

/// Quotients of parts add up to at most the quotient of the whole.
proof fn lemma_div_sum(a: int, b: int, p: int)
    requires
        a >= 0,
        b >= 0,
        p > 0,
    ensures
        a / p + b / p <= (a + b) / p,
{
    vstd::arithmetic::div_mod::lemma_fundamental_div_mod(a, p);
    vstd::arithmetic::div_mod::lemma_fundamental_div_mod(b, p);
    let q = a / p + b / p;
    assert(p * q <= a + b) by (nonlinear_arith)
        requires
            a == p * (a / p) + a % p,
            b == p * (b / p) + b % p,
            a % p >= 0,
            b % p >= 0,
            q == a / p + b / p,
    ;
    vstd::arithmetic::div_mod::lemma_div_is_ordered(p * q, a + b, p);
    vstd::arithmetic::div_mod::lemma_div_multiples_vanish(q, p);
}

/// Scales every frequency of a table and returns the new sum.
pub fn downscale_stats(table: &mut [u32], shift: u32, base1: bool) -> (sum: u32)
    requires
        shift < 32,
        total(old(table)@) + old(table)@.len() <= u32::MAX,
    ensures
        final(table)@ == downscaled(old(table)@, shift as int, base1),
        sum == total(final(table)@),
{
    let ghost t = table@;
    let ghost d = downscaled(t, shift as int, base1);
    let n: usize = table.len();
    let mut i: usize = 0;
    let mut sum: u32 = 0;
    proof {
        lemma_pow2_pos(shift as nat);
        lemma_downscaled_total(t, shift as int, base1);
        lemma_total_bounds(t, 0);
        vstd::arithmetic::div_mod::lemma_div_is_ordered_by_denominator(total(t), 1, pow2(shift as nat) as int);
        assert(d.take(0) =~= Seq::empty());
    }
    while i < n
        invariant
            i <= n,
            n == t.len(),
            table@.len() == n,
            shift < 32,
            d == downscaled(t, shift as int, base1),
            d.len() == n,
            total(d) <= u32::MAX,
            forall|k: int| 0 <= k < n ==> #[trigger] d[k] == scaled(t[k], shift as int, base1),
            forall|k: int| i <= k < n ==> #[trigger] table@[k] == t[k],
            forall|k: int| 0 <= k < i ==> #[trigger] table@[k] == d[k],
            sum == total(d.take(i as int)),
        decreases n - i,
    {
        let v: u32 = table[i];
        let base: u32 = if base1 || v > 0 {
            1
        } else {
            0
        };
        proof {
            vstd::bits::lemma_u32_shr_is_div(v, shift);
            lemma_total_bounds(d, i + 1);
            assert(d[i as int] == scaled(t[i as int], shift as int, base1));
            assert(d.take(i + 1).drop_last() =~= d.take(i as int));
        }
        let s: u32 = base + (v >> shift);
        table[i] = s;
        sum = sum + s;
        i = i + 1;
    }
    proof {
        assert(table@ =~= d);
        assert(d.take(n as int) =~= d);
    }
    sum
}

/// A table scaled down towards a sum of about two to the `target`, if it is
/// far above.
pub open spec fn scaled_to(t: Seq<u32>, target: int) -> Seq<u32> {
    let factor = total(t) / (pow2(target as nat) as int);
    if factor <= 1 {
        t
    } else {
        downscaled(t, log2_floor(factor), true)
    }
}

/// A table scaled towards a target sums to less than twice the target plus one
/// for every entry, and keeps at least one if there was any.
pub proof fn lemma_scaled_to(t: Seq<u32>, target: int)
    requires
        0 <= target < 31,
        total(t) + t.len() <= u32::MAX,
    ensures
        scaled_to(t, target).len() == t.len(),
        0 <= total(scaled_to(t, target)) <= pow2((target + 1) as nat) + t.len(),
        total(t) >= 1 ==> total(scaled_to(t, target)) >= 1,
{
    let p = pow2(target as nat) as int;
    let sum = total(t);
    lemma_total_bounds(t, 0);
    lemma_pow2_pos(target as nat);
    lemma_pow2_unfold((target + 1) as nat);
    vstd::arithmetic::div_mod::lemma_fundamental_div_mod(sum, p);
    let factor = sum / p;
    if factor <= 1 {
        assert(sum < 2 * p) by (nonlinear_arith)
            requires
                sum == p * factor + sum % p,
                sum % p < p,
                factor <= 1,
                p > 0,
        ;
    } else {
        let shift = log2_floor(factor);
        lemma_log2_bracket(factor);
        lemma_downscaled_total(t, shift, true);
        let q = pow2(shift as nat) as int;
        lemma_pow2_pos(shift as nat);
        lemma_pow2_unfold((shift + 1) as nat);
        // The sum is below `2 * p * q`, so what is left of it is below `2 * p`.
        assert(sum < q * (2 * p)) by (nonlinear_arith)
            requires
                sum == p * factor + sum % p,
                sum % p < p,
                factor < 2 * q,
                p > 0,
        ;
        vstd::arithmetic::div_mod::lemma_multiply_divide_lt(sum, q, 2 * p);
        if t.len() == 0 {
            assert(sum == 0);
        }
    }
}

/// Scales a table down towards a sum of about two to the `target_log` and
/// returns its sum.
pub fn scale_stats(table: &mut [u32], target_log: u32) -> (sum: u32)
    requires
        target_log < 31,
        total(old(table)@) + old(table)@.len() <= u32::MAX,
    ensures
        final(table)@ == scaled_to(old(table)@, target_log as int),
        sum == total(final(table)@),
{
    let n: usize = table.len();
    let mut prev: u32 = 0;
    let mut i: usize = 0;
    proof {
        assert(table@.take(0) =~= Seq::empty());
    }
    while i < n
        invariant
            i <= n,
            n == table@.len(),
            table@ == old(table)@,
            total(table@) <= u32::MAX,
            prev == total(table@.take(i as int)),
        decreases n - i,
    {
        proof {
            lemma_total_bounds(table@, i + 1);
            assert(table@.take(i + 1).drop_last() =~= table@.take(i as int));
        }
        prev = prev + table[i];
        i = i + 1;
    }
    proof {
        assert(table@.take(n as int) =~= table@);
        vstd::bits::lemma_u32_shr_is_div(prev, target_log);
    }
    let factor: u32 = prev >> target_log;
    if factor <= 1 {
        return prev;
    }
    proof {
        lemma_log2_u32(factor);
    }
    downscale_stats(table, ilog2(factor as u64), true)
}

/// How often a byte occurs.
pub open spec fn occurrences(s: Seq<u8>, b: u8) -> int
    decreases s.len(),
{
    if s.len() == 0 {
        0
    } else {
        occurrences(s.drop_last(), b) + if s.last() == b {
            1int
        } else {
            0
        }
    }
}

/// Literal frequencies with `step` added for every byte of `s`.
pub open spec fn bumped(t: Seq<u32>, s: Seq<u8>, step: int) -> Seq<u32> {
    Seq::new(t.len(), |b: int| (t[b] + step * occurrences(s, b as u8)) as u32)
}

/// Adding a step for every byte adds that much to the sum; nothing overflows
/// while the sum does not.
pub proof fn lemma_bumped(t: Seq<u32>, s: Seq<u8>, step: int)
    requires
        t.len() == 256,
        step >= 0,
        total(t) + step * s.len() <= u32::MAX,
    ensures
        total(bumped(t, s, step)) == total(t) + step * s.len(),
        forall|b: int| 0 <= b < 256 ==> #[trigger] bumped(t, s, step)[b] == t[b] + step * occurrences(s, b as u8),
        s.len() > 0 ==> bumped(t, s, step) == bumped(t, s.drop_last(), step).update(
            s.last() as int,
            (bumped(t, s.drop_last(), step)[s.last() as int] + step) as u32,
        ),
    decreases s.len(),
{
    let r = bumped(t, s, step);
    if s.len() == 0 {
        assert(r =~= t);
        assert(step * s.len() == 0) by (nonlinear_arith)
            requires
                s.len() == 0,
        ;
    } else {
        let q = s.drop_last();
        let c = s.last() as int;
        assert(step * s.len() == step * q.len() + step) by (nonlinear_arith)
            requires
                s.len() == q.len() + 1,
        ;
        lemma_bumped(t, q, step);
        let p = bumped(t, q, step);
        lemma_total_bounds(p, c);
        lemma_total_update(p, c, (p[c] + step) as u32);
        let u = p.update(c, (p[c] + step) as u32);
        assert forall|b: int| 0 <= b < 256 implies #[trigger] r[b] == u[b] && u[b] == t[b] + step * occurrences(s, b as u8) by {
            let n = occurrences(q, b as u8);
            assert(p[b] == t[b] + step * n);
            if b == c {
                assert(occurrences(s, b as u8) == n + 1);
                assert(step * (n + 1) == step * n + step) by (nonlinear_arith);
            } else {
                assert(b as u8 != s.last());
                assert(occurrences(s, b as u8) == n);
            }
        }
        assert(r =~= u);
    }
}

/// Symbol statistics and the prices of their sums.
#[verifier::ext_equal]
pub struct Stats {
    pub lit: Seq<u32>,
    pub ll: Seq<u32>,
    pub ml: Seq<u32>,
    pub of: Seq<u32>,
    pub lit_sum: int,
    pub ll_sum: int,
    pub ml_sum: int,
    pub of_sum: int,
    pub lit_base: int,
    pub ll_base: int,
    pub ml_base: int,
    pub of_base: int,
    /// Prices ignore the statistics.
    pub predef: bool,
}

/// Statistics before any block.
pub open spec fn start_stats() -> Stats {
    Stats {
        lit: Seq::new(256, |k: int| 0u32),
        ll: Seq::new(36, |k: int| 0u32),
        ml: Seq::new(53, |k: int| 0u32),
        of: Seq::new(32, |k: int| 0u32),
        lit_sum: 0,
        ll_sum: 0,
        ml_sum: 0,
        of_sum: 0,
        lit_base: 0,
        ll_base: 0,
        ml_base: 0,
        of_base: 0,
        predef: false,
    }
}

/// Literal-run statistics that a first block starts from.
pub open spec fn base_ll() -> Seq<u32> {
    Seq::new(36, |k: int| if k == 0 {
        4u32
    } else if k == 1 {
        2
    } else {
        1
    })
}

/// Offset statistics that a first block starts from.
pub open spec fn base_of() -> Seq<u32> {
    Seq::new(32, |k: int| if k == 0 {
        6u32
    } else if k == 1 || k == 4 || k == 10 {
        2
    } else if k == 5 || k == 9 {
        3
    } else if 6 <= k <= 8 {
        4
    } else {
        1
    })
}

impl Stats {
    /// No block has been priced yet.
    pub open spec fn fresh(self) -> bool {
        self.ll_sum == 0
    }

    /// The sums are those of the tables.
    pub open spec fn wf(self) -> bool {
        &&& self.lit.len() == 256
        &&& self.ll.len() == 36
        &&& self.ml.len() == 53
        &&& self.of.len() == 32
        &&& self.fresh() || self.summed()
    }

    /// The sums are those of the tables, below their limit, and not zero.
    pub open spec fn summed(self) -> bool {
        &&& 1 <= self.lit_sum <= SUM_LIMIT && self.lit_sum == total(self.lit)
        &&& 1 <= self.ll_sum <= SUM_LIMIT && self.ll_sum == total(self.ll)
        &&& 1 <= self.ml_sum <= SUM_LIMIT && self.ml_sum == total(self.ml)
        &&& 1 <= self.of_sum <= SUM_LIMIT && self.of_sum == total(self.of)
    }

    /// The sums can grow by what `n` more bytes add.
    pub open spec fn room(self, n: int) -> bool {
        &&& self.lit_sum + 2 * n <= SUM_LIMIT
        &&& self.ll_sum + n <= SUM_LIMIT
        &&& self.ml_sum + n <= SUM_LIMIT
        &&& self.of_sum + n <= SUM_LIMIT
    }

    /// The base prices are those of the sums.
    pub open spec fn priced(self, ultra: bool) -> bool {
        &&& self.wf()
        &&& self.summed()
        &&& self.lit_base == weight_of(ultra, self.lit_sum)
        &&& self.ll_base == weight_of(ultra, self.ll_sum)
        &&& self.ml_base == weight_of(ultra, self.ml_sum)
        &&& self.of_base == weight_of(ultra, self.of_sum)
    }

    /// The statistics with the base prices of their sums.
    pub open spec fn based(self, ultra: bool) -> Stats {
        Stats {
            lit_base: weight_of(ultra, self.lit_sum),
            ll_base: weight_of(ultra, self.ll_sum),
            ml_base: weight_of(ultra, self.ml_sum),
            of_base: weight_of(ultra, self.of_sum),
            ..self
        }
    }

    /// The statistics at the start of a block: the first one takes its literals
    /// from its own bytes and starts the rest from the built-in tables, later
    /// ones scale down what has been gathered.
    pub open spec fn rescaled(self, ultra: bool, src: Seq<u8>) -> Stats {
        let predef = src.len() <= PREDEF_THRESHOLD;
        if self.fresh() {
            let lit = downscaled(bumped(Seq::new(256, |b: int| 0u32), src, 1), 8, false);
            let ml = Seq::new(53, |k: int| 1u32);
            Stats {
                lit,
                ll: base_ll(),
                ml,
                of: base_of(),
                lit_sum: total(lit),
                ll_sum: total(base_ll()),
                ml_sum: total(ml),
                of_sum: total(base_of()),
                predef,
                ..self
            }.based(ultra)
        } else {
            let lit = scaled_to(self.lit, 12);
            let ll = scaled_to(self.ll, 11);
            let ml = scaled_to(self.ml, 11);
            let of = scaled_to(self.of, 11);
            Stats {
                lit,
                ll,
                ml,
                of,
                lit_sum: total(lit),
                ll_sum: total(ll),
                ml_sum: total(ml),
                of_sum: total(of),
                predef,
                ..self
            }.based(ultra)
        }
    }

    /// The statistics with one emitted sequence counted.
    pub open spec fn counted(self, literals: Seq<u8>, of: int, ml: int) -> Stats {
        let lc = ll_code(literals.len() as int);
        let oc = log2_floor(of);
        let mc = ml_code(ml);
        Stats {
            lit: bumped(self.lit, literals, 2),
            ll: self.ll.update(lc, (self.ll[lc] + 1) as u32),
            ml: self.ml.update(mc, (self.ml[mc] + 1) as u32),
            of: self.of.update(oc, (self.of[oc] + 1) as u32),
            lit_sum: self.lit_sum + 2 * literals.len(),
            ll_sum: self.ll_sum + 1,
            ml_sum: self.ml_sum + 1,
            of_sum: self.of_sum + 1,
            ..self
        }
    }

    /// Price of one literal.
    pub open spec fn lit_price_of(self, ultra: bool, b: u8) -> int {
        if self.predef {
            1536
        } else {
            let p = weight_of(ultra, self.lit[b as int] as int);
            let max = self.lit_base - 256;
            self.lit_base - if p < max {
                p
            } else {
                max
            }
        }
    }

    /// Price of a literal run's code. The run of a whole block has none and
    /// costs one bit more than the longest.
    pub open spec fn ll_price_of(self, ultra: bool, len: int) -> int {
        if self.predef {
            weight_of(ultra, len)
        } else {
            let l = if len == MAX_BLOCK_SIZE {
                len - 1
            } else {
                len
            };
            (if len == MAX_BLOCK_SIZE {
                256int
            } else {
                0
            }) + 256 * ll_bits(ll_code(l)) + self.ll_base - weight_of(ultra, self.ll[ll_code(l)] as int)
        }
    }

    /// Price of a match: its offset code and its length code. The faster parse
    /// handicaps long offsets; every match costs a fifth of a bit more.
    pub open spec fn match_price_of(self, ultra: bool, of: int, ml: int) -> int {
        let oc = log2_floor(of);
        if self.predef {
            weight_of(ultra, ml - 3) + (16 + oc) * 256
        } else {
            let far = if !ultra && oc >= 20 {
                (oc - 19) * 512
            } else {
                0
            };
            let mc = ml_code(ml);
            256 * oc + self.of_base - weight_of(ultra, self.of[oc] as int) + far + 256 * ml_bits(mc)
                + self.ml_base - weight_of(ultra, self.ml[mc] as int) + 51
        }
    }
}

/// The table entry of a price is never dearer than the table's sum.
pub proof fn lemma_entry_weight(ultra: bool, t: Seq<u32>, k: int)
    requires
        0 <= k < t.len(),
        total(t) <= SUM_LIMIT,
    ensures
        0 <= weight_of(ultra, t[k] as int) <= weight_of(ultra, total(t)) < 6400,
        t[k] <= SUM_LIMIT,
{
    lemma_total_bounds(t, k);
    lemma_weight_monotone(ultra, t[k] as int, total(t));
    lemma_weight_range(ultra, t[k] as int);
    lemma_weight_range(ultra, total(t));
}

/// Range of the price of a literal.
pub proof fn lemma_lit_price(s: Stats, ultra: bool, b: u8)
    requires
        s.priced(ultra),
    ensures
        256 <= s.lit_price_of(ultra, b) < 6400,
{
    lemma_entry_weight(ultra, s.lit, b as int);
    lemma_weight_range(ultra, s.lit_sum);
}

/// Range of the price of a literal run.
pub proof fn lemma_ll_price(s: Stats, ultra: bool, len: int)
    requires
        s.priced(ultra),
        0 <= len <= MAX_BLOCK_SIZE,
    ensures
        0 <= s.ll_price_of(ultra, len) < 11000,
{
    let l = if len == MAX_BLOCK_SIZE {
        len - 1
    } else {
        len
    };
    lemma_ll_code(l);
    lemma_entry_weight(ultra, s.ll, ll_code(l));
    lemma_weight_range(ultra, len);
}

/// Range of the price of a match.
pub proof fn lemma_match_price(s: Stats, ultra: bool, of: int, ml: int)
    requires
        s.priced(ultra),
        1 <= of <= u32::MAX,
        MIN_ML <= ml <= MAX_ML,
    ensures
        0 <= s.match_price_of(ultra, of, ml) < 32000,
        0 <= log2_floor(of) < 32,
{
    let oc = log2_floor(of);
    lemma_log2_u32(of as u32);
    lemma_ml_code(ml);
    lemma_entry_weight(ultra, s.of, oc);
    lemma_entry_weight(ultra, s.ml, ml_code(ml));
    lemma_weight_range(ultra, ml - 3);
}

/// Symbol statistics of the optimal parse.
pub struct OptState {
    pub lit_freq: [u32; 256],
    pub lit_length_freq: [u32; 36],
    pub match_length_freq: [u32; 53],
    pub off_code_freq: [u32; 32],
    pub lit_sum: u32,
    pub lit_length_sum: u32,
    pub match_length_sum: u32,
    pub off_code_sum: u32,
    pub lit_base_price: u32,
    pub lit_length_base_price: u32,
    pub match_length_base_price: u32,
    pub off_code_base_price: u32,
    pub predef: bool,
}

impl View for OptState {
    type V = Stats;

    open spec fn view(&self) -> Stats {
        Stats {
            lit: self.lit_freq@,
            ll: self.lit_length_freq@,
            ml: self.match_length_freq@,
            of: self.off_code_freq@,
            lit_sum: self.lit_sum as int,
            ll_sum: self.lit_length_sum as int,
            ml_sum: self.match_length_sum as int,
            of_sum: self.off_code_sum as int,
            lit_base: self.lit_base_price as int,
            ll_base: self.lit_length_base_price as int,
            ml_base: self.match_length_base_price as int,
            of_base: self.off_code_base_price as int,
            predef: self.predef,
        }
    }
}

impl OptState {
    /// Statistics before any block.
    pub fn new() -> (r: Self)
        ensures
            r@ == start_stats(),
            r@.wf(),
    {
        let r = OptState {
            lit_freq: [0;256],
            lit_length_freq: [0;36],
            match_length_freq: [0;53],
            off_code_freq: [0;32],
            lit_sum: 0,
            lit_length_sum: 0,
            match_length_sum: 0,
            off_code_sum: 0,
            lit_base_price: 0,
            lit_length_base_price: 0,
            match_length_base_price: 0,
            off_code_base_price: 0,
            predef: false,
        };
        assert(r@.lit =~= start_stats().lit);
        assert(r@.ll =~= start_stats().ll);
        assert(r@.ml =~= start_stats().ml);
        assert(r@.of =~= start_stats().of);
        r
    }

    /// Makes the next block a first one.
    pub fn reset(&mut self)
        requires
            old(self)@.wf(),
        ensures
            final(self)@ == (Stats { ll_sum: 0, ..old(self)@ }),
            final(self)@.wf(),
    {
        self.lit_length_sum = 0;
    }

    /// Prices the sums.
    pub fn set_base_prices(&mut self, ultra: bool)
        requires
            old(self)@.summed(),
        ensures
            final(self)@ == old(self)@.based(ultra),
    {
        self.lit_base_price = weight(ultra, self.lit_sum);
        self.lit_length_base_price = weight(ultra, self.lit_length_sum);
        self.match_length_base_price = weight(ultra, self.match_length_sum);
        self.off_code_base_price = weight(ultra, self.off_code_sum);
    }

    /// Statistics at the start of a block.
    pub fn rescale_freqs(&mut self, ultra: bool, src: &[u8])
        requires
            old(self)@.wf(),
            1 <= src@.len() <= MAX_BLOCK_SIZE,
        ensures
            final(self)@ == old(self)@.rescaled(ultra, src@),
            final(self)@.priced(ultra),
            final(self)@.room(MAX_BLOCK_SIZE as int),
    {
        let ghost s0 = self@;
        proof {
            lemma_rescaled(s0, ultra, src@);
            lemma2_to64();
        }
        self.predef = src.len() <= PREDEF_THRESHOLD;
        if self.lit_length_sum == 0 {
            let ghost zero = Seq::new(256, |b: int| 0u32);
            self.lit_freq = [0;256];
            proof {
                lemma_total_const(zero, 0);
                assert(self.lit_freq@ =~= zero);
                assert(src@.take(0) =~= Seq::empty());
                assert(bumped(zero, src@.take(0), 1) =~= zero);
            }
            let mut i: usize = 0;
            while i < src.len()
                invariant
                    i <= src.len(),
                    src@.len() <= MAX_BLOCK_SIZE,
                    zero.len() == 256,
                    total(zero) == 0,
                    self.lit_freq@ == bumped(zero, src@.take(i as int), 1),
                    self@.predef == (src.len() <= PREDEF_THRESHOLD),
                    s0.fresh(),
                decreases src.len() - i,
            {
                let b: usize = src[i] as usize;
                proof {
                    lemma_bumped(zero, src@.take(i as int), 1);
                    lemma_bumped(zero, src@.take(i + 1), 1);
                    assert(src@.take(i + 1).drop_last() =~= src@.take(i as int));
                    lemma_total_bounds(self.lit_freq@, b as int);
                }
                self.lit_freq[b] = self.lit_freq[b] + 1;
                i = i + 1;
            }
            proof {
                assert(src@.take(src@.len() as int) =~= src@);
                lemma_bumped(zero, src@, 1);
            }
            self.lit_sum = downscale_stats(&mut self.lit_freq, 8, false);
            self.lit_length_freq = [4, 2, 1, 1, 1, 1, 1, 1, 1, 1, 1, 1, 1, 1, 1, 1, 1, 1, 1, 1, 1, 1, 1, 1, 1, 1, 1, 1, 1, 1, 1, 1, 1, 1, 1, 1];
            self.lit_length_sum = 40;
            self.match_length_freq = [1;53];
            self.match_length_sum = 53;
            self.off_code_freq = [6, 2, 1, 1, 2, 3, 4, 4, 4, 3, 2, 1, 1, 1, 1, 1, 1, 1, 1, 1, 1, 1, 1, 1, 1, 1, 1, 1, 1, 1, 1, 1];
            self.off_code_sum = 53;
            proof {
                assert(self.lit_length_freq@ =~= base_ll());
                assert(self.match_length_freq@ =~= Seq::new(53, |k: int| 1u32));
                assert(self.off_code_freq@ =~= base_of());
                lemma_base_sums();
            }
        } else {
            self.lit_sum = scale_stats(&mut self.lit_freq, 12);
            self.lit_length_sum = scale_stats(&mut self.lit_length_freq, 11);
            self.match_length_sum = scale_stats(&mut self.match_length_freq, 11);
            self.off_code_sum = scale_stats(&mut self.off_code_freq, 11);
        }
        self.set_base_prices(ultra);
        assert(self@ =~= s0.rescaled(ultra, src@));
    }

    /// Counts one emitted sequence.
    pub fn update_stats(&mut self, literals: &[u8], off_base: u32, match_length: u32)
        requires
            old(self)@.wf(),
            old(self)@.summed(),
            old(self)@.room(literals@.len() as int + 1),
            literals@.len() < MAX_BLOCK_SIZE,
            off_base >= 1,
            MIN_ML <= match_length <= MAX_ML,
        ensures
            final(self)@ == old(self)@.counted(literals@, off_base as int, match_length as int),
            final(self)@.wf(),
            final(self)@.summed(),
    {
        let ghost s0 = self@;
        let mut i: usize = 0;
        proof {
            assert(literals@.take(0) =~= Seq::empty());
            assert(bumped(s0.lit, literals@.take(0), 2) =~= s0.lit);
        }
        while i < literals.len()
            invariant
                i <= literals.len(),
                s0.lit.len() == 256,
                total(s0.lit) + 2 * literals@.len() <= SUM_LIMIT,
                self.lit_freq@ == bumped(s0.lit, literals@.take(i as int), 2),
                self@ == (Stats { lit: self.lit_freq@, ..s0 }),
            decreases literals.len() - i,
        {
            let b: usize = literals[i] as usize;
            proof {
                lemma_bumped(s0.lit, literals@.take(i as int), 2);
                lemma_bumped(s0.lit, literals@.take(i + 1), 2);
                assert(literals@.take(i + 1).drop_last() =~= literals@.take(i as int));
                lemma_total_bounds(self.lit_freq@, b as int);
            }
            self.lit_freq[b] = self.lit_freq[b] + LITFREQ_ADD;
            i = i + 1;
        }
        proof {
            assert(literals@.take(literals@.len() as int) =~= literals@);
            lemma_bumped(s0.lit, literals@, 2);
            lemma_ll_code(literals@.len() as int);
            lemma_ml_code(match_length as int);
            lemma_log2_u32(off_base);
        }
        self.lit_sum = self.lit_sum + literals.len() as u32 * LITFREQ_ADD;
        let lc: usize = encode_literal_length(literals.len() as u32).0 as usize;
        let oc: usize = ilog2(off_base as u64) as usize;
        let mc: usize = encode_match_len(match_length).0 as usize;
        proof {
            lemma_total_bounds(s0.ll, lc as int);
            lemma_total_bounds(s0.of, oc as int);
            lemma_total_bounds(s0.ml, mc as int);
            lemma_total_update(s0.ll, lc as int, (s0.ll[lc as int] + 1) as u32);
            lemma_total_update(s0.of, oc as int, (s0.of[oc as int] + 1) as u32);
            lemma_total_update(s0.ml, mc as int, (s0.ml[mc as int] + 1) as u32);
        }
        self.lit_length_freq[lc] = self.lit_length_freq[lc] + 1;
        self.lit_length_sum = self.lit_length_sum + 1;
        self.off_code_freq[oc] = self.off_code_freq[oc] + 1;
        self.off_code_sum = self.off_code_sum + 1;
        self.match_length_freq[mc] = self.match_length_freq[mc] + 1;
        self.match_length_sum = self.match_length_sum + 1;
        assert(self@ =~= s0.counted(literals@, off_base as int, match_length as int));
    }

    /// Price of one literal.
    pub fn lit_price(&self, ultra: bool, lit: u8) -> (r: u32)
        requires
            self@.priced(ultra),
        ensures
            r == self@.lit_price_of(ultra, lit),
    {
        if self.predef {
            return 6 * BITCOST_MULTIPLIER;
        }
        proof {
            lemma_entry_weight(ultra, self@.lit, lit as int);
            lemma_weight_range(ultra, self@.lit_sum);
        }
        let price: u32 = weight(ultra, self.lit_freq[lit as usize]);
        let max: u32 = self.lit_base_price - BITCOST_MULTIPLIER;
        if price < max {
            self.lit_base_price - price
        } else {
            self.lit_base_price - max
        }
    }

    /// Price of a literal run's code.
    pub fn lit_length_price(&self, ultra: bool, lit_length: u32) -> (r: u32)
        requires
            self@.priced(ultra),
            lit_length <= MAX_BLOCK_SIZE,
        ensures
            r == self@.ll_price_of(ultra, lit_length as int),
    {
        if self.predef {
            return weight(ultra, lit_length);
        }
        let extra: u32 = if lit_length as usize == MAX_BLOCK_SIZE {
            1
        } else {
            0
        };
        let (code, _, nb): (u8, u32, usize) = encode_literal_length(lit_length - extra);
        proof {
            lemma_ll_code(lit_length - extra);
            lemma_entry_weight(ultra, self@.ll, code as int);
        }
        extra * BITCOST_MULTIPLIER + nb as u32 * BITCOST_MULTIPLIER + self.lit_length_base_price - weight(
            ultra,
            self.lit_length_freq[code as usize],
        )
    }

    /// Price of a match.
    pub fn match_price(&self, ultra: bool, off_base: u32, match_length: u32) -> (r: u32)
        requires
            self@.priced(ultra),
            off_base >= 1,
            MIN_ML <= match_length <= MAX_ML,
        ensures
            r == self@.match_price_of(ultra, off_base as int, match_length as int),
    {
        proof {
            lemma_log2_u32(off_base);
            lemma_weight_range(ultra, match_length - 3);
            lemma_ml_code(match_length as int);
        }
        let oc: u32 = ilog2(off_base as u64);
        if self.predef {
            return weight(ultra, match_length - 3) + (16 + oc) * BITCOST_MULTIPLIER;
        }
        proof {
            lemma_entry_weight(ultra, self@.of, oc as int);
            lemma_entry_weight(ultra, self@.ml, ml_code(match_length as int));
        }
        let mut price: u32 = oc * BITCOST_MULTIPLIER + self.off_code_base_price - weight(
            ultra,
            self.off_code_freq[oc as usize],
        );
        if !ultra && oc >= 20 {
            price = price + (oc - 19) * 2 * BITCOST_MULTIPLIER;
        }
        let (mc, _, nb): (u8, u32, usize) = encode_match_len(match_length);
        price = price + (nb as u32 * BITCOST_MULTIPLIER + self.match_length_base_price - weight(
            ultra,
            self.match_length_freq[mc as usize],
        ));
        price + BITCOST_MULTIPLIER / 5
    }
}

/// Sums of the built-in tables.
proof fn lemma_base_sums()
    ensures
        total(base_ll()) == 40,
        total(base_of()) == 53,
        total(Seq::new(53, |k: int| 1u32)) == 53,
{
    let ll = base_ll();
    lemma_total_const(Seq::new(36, |k: int| 1u32), 1);
    lemma_total_update(Seq::new(36, |k: int| 1u32), 0, 4);
    lemma_total_update(Seq::new(36, |k: int| 1u32).update(0, 4), 1, 2);
    assert(Seq::new(36, |k: int| 1u32).update(0, 4).update(1, 2) =~= ll);
    lemma_total_const(Seq::new(53, |k: int| 1u32), 1);
    let o = Seq::new(32, |k: int| 1u32);
    lemma_total_const(o, 1);
    lemma_total_update(o, 0, 6);
    let o = o.update(0, 6);
    lemma_total_update(o, 1, 2);
    let o = o.update(1, 2);
    lemma_total_update(o, 4, 2);
    let o = o.update(4, 2);
    lemma_total_update(o, 5, 3);
    let o = o.update(5, 3);
    lemma_total_update(o, 6, 4);
    let o = o.update(6, 4);
    lemma_total_update(o, 7, 4);
    let o = o.update(7, 4);
    lemma_total_update(o, 8, 4);
    let o = o.update(8, 4);
    lemma_total_update(o, 9, 3);
    let o = o.update(9, 3);
    lemma_total_update(o, 10, 2);
    let o = o.update(10, 2);
    assert(o =~= base_of());
}

/// A block starts with priced statistics that have room for all its bytes.
pub proof fn lemma_rescaled(s: Stats, ultra: bool, src: Seq<u8>)
    requires
        s.wf(),
        1 <= src.len() <= MAX_BLOCK_SIZE,
    ensures
        s.rescaled(ultra, src).priced(ultra),
        s.rescaled(ultra, src).room(MAX_BLOCK_SIZE as int),
{
    lemma2_to64();
    if s.fresh() {
        let zero = Seq::new(256, |b: int| 0u32);
        let h = bumped(zero, src, 1);
        lemma_total_const(zero, 0);
        lemma_bumped(zero, src, 1);
        lemma_downscaled_total(h, 8, false);
        lemma_base_sums();
        let b = src.last();
        lemma_total_bounds(bumped(zero, src.drop_last(), 1), b as int);
        lemma_bumped(zero, src.drop_last(), 1);
        assert(h[b as int] > 0);
        assert(total(h) / (pow2(8) as int) <= 512);
    } else {
        lemma_scaled_to(s.lit, 12);
        lemma_scaled_to(s.ll, 11);
        lemma_scaled_to(s.ml, 11);
        lemma_scaled_to(s.of, 11);
    }
}

/// Counting a sequence keeps the sums those of the tables, with room for the
/// bytes behind it.
pub proof fn lemma_counted(s: Stats, literals: Seq<u8>, of: int, ml: int, n: int)
    requires
        s.wf(),
        s.summed(),
        s.room(n),
        literals.len() + ml <= n,
        literals.len() < MAX_BLOCK_SIZE,
        1 <= of <= u32::MAX,
        MIN_ML <= ml <= MAX_ML,
    ensures
        s.counted(literals, of, ml).wf(),
        s.counted(literals, of, ml).summed(),
        s.counted(literals, of, ml).room(n - literals.len() - ml),
{
    let lc = ll_code(literals.len() as int);
    let oc = log2_floor(of);
    let mc = ml_code(ml);
    lemma_bumped(s.lit, literals, 2);
    lemma_ll_code(literals.len() as int);
    lemma_ml_code(ml);
    lemma_log2_u32(of as u32);
    lemma_total_bounds(s.ll, lc);
    lemma_total_bounds(s.of, oc);
    lemma_total_bounds(s.ml, mc);
    lemma_total_update(s.ll, lc, (s.ll[lc] + 1) as u32);
    lemma_total_update(s.of, oc, (s.of[oc] + 1) as u32);
    lemma_total_update(s.ml, mc, (s.ml[mc] + 1) as u32);
}

} // verus!
