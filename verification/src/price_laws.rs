//! What the prices of the optimal parse mean: a code costs as many bits as its
//! share of the statistics calls for, every extra bit costs a whole bit more,
//! and the statistics are counts of what was seen.

use vstd::prelude::*;
use vstd::arithmetic::power2::{lemma2_to64, lemma_pow2_pos, lemma_pow2_unfold, pow2};
use crate::bits::{lemma_log2_bracket, lemma_log2_u32, lemma_pow2_monotone, log2_floor};
use crate::opt_stats::{bumped, downscaled, lemma_bumped, lemma_downscaled_total, lemma_entry_weight, lemma_total_bounds, lemma_total_const, lemma_weight_monotone, lemma_weight_range, occurrences, scaled_to, total, weight_of, Stats};
use crate::seq_codes::{lemma_ll_code, lemma_ml_code, ll_base, ll_bits, ll_code, ml_base, ml_bits, ml_code, seq_word};

verus! {

/// A number between two neighbouring powers of two has the lower one's exponent
/// as its logarithm.
pub proof fn lemma_log2_is(v: int, k: nat)
    requires
        pow2(k) <= v < pow2((k + 1) as nat),
    ensures
        v >= 1,
        log2_floor(v) == k,
{
    lemma_pow2_pos(k);
    lemma_log2_bracket(v);
    let h = log2_floor(v) as nat;
    if h < k {
        lemma_pow2_monotone((h + 1) as nat, k);
    }
    if h > k {
        lemma_pow2_monotone((k + 1) as nat, h);
    }
}

/// A frequency twice as high weighs exactly one bit more, for both parses.
pub proof fn lemma_weight_doubles(ultra: bool, a: int, b: int)
    requires
        a >= 0,
        b + 1 == 2 * (a + 1),
    ensures
        weight_of(ultra, b) == weight_of(ultra, a) + 256,
{
    let s = a + 1;
    assert((2 * s) / 2 == s);
    assert(log2_floor(2 * s) == 1 + log2_floor(s));
    let h = log2_floor(s) as nat;
    lemma_log2_bracket(s);
    lemma_pow2_pos(h);
    lemma_pow2_unfold((h + 1) as nat);
    let p = pow2(h) as int;
    assert((2 * (256 * s)) / (2 * p) == (256 * s) / p) by {
        vstd::arithmetic::div_mod::lemma_div_denominator(2 * (256 * s), 2, p);
        assert((2 * (256 * s)) / 2 == 256 * s);
    }
}

/// An unseen symbol weighs nothing in whole bits and one bit with fractions. A
/// frequency that lies `j` above a power of two has its exponent as its weight in
/// whole bits; with fractions, one bit and `j` parts of the power more.
pub proof fn lemma_weight_steps(stat: int, k: nat, j: int)
    requires
        stat + 1 == pow2(k) + j,
        0 <= j < pow2(k),
    ensures
        weight_of(false, stat) == 256 * k,
        ({
            let f = weight_of(true, stat) - 256 * (k + 1);
            f * pow2(k) <= 256 * j < (f + 1) * pow2(k)
        }),
{
    lemma_pow2_unfold((k + 1) as nat);
    lemma_pow2_pos(k);
    lemma_log2_is(stat + 1, k);
    let p = pow2(k) as int;
    let x = 256 * (stat + 1);
    let q = x / p;
    vstd::arithmetic::div_mod::lemma_fundamental_div_mod(x, p);
    let f = weight_of(true, stat) - 256 * (k + 1);
    assert(f == q - 256);
    assert(f * p <= 256 * j < (f + 1) * p) by (nonlinear_arith)
        requires
            x == p * q + x % p,
            0 <= x % p < p,
            x == 256 * (p + j),
            f == q - 256,
    ;
}

/// A frequency `2^k` times as high weighs `k` bits more; one that is no more than
/// that weighs no more, and one that is no less weighs no less.
pub proof fn lemma_weight_ratio(ultra: bool, a: int, b: int, k: nat)
    requires
        a >= 0,
        b >= 0,
    ensures
        b + 1 <= pow2(k) * (a + 1) ==> weight_of(ultra, b) <= weight_of(ultra, a) + 256 * k,
        b + 1 >= pow2(k) * (a + 1) ==> weight_of(ultra, b) >= weight_of(ultra, a) + 256 * k,
{
    lemma_weight_power(ultra, a, k);
    let c = pow2(k) * (a + 1) - 1;
    lemma_pow2_pos(k);
    assert(c >= 0) by (nonlinear_arith)
        requires
            c == pow2(k) * (a + 1) - 1,
            pow2(k) >= 1,
            a >= 0,
    ;
    if b <= c {
        lemma_weight_monotone(ultra, b, c);
    }
    if c <= b {
        lemma_weight_monotone(ultra, c, b);
    }
}

proof fn lemma_weight_power(ultra: bool, a: int, k: nat)
    requires
        a >= 0,
    ensures
        weight_of(ultra, pow2(k) * (a + 1) - 1) == weight_of(ultra, a) + 256 * k,
    decreases k,
{
    lemma2_to64();
    if k > 0 {
        let j = (k - 1) as nat;
        lemma_weight_power(ultra, a, j);
        lemma_pow2_unfold(k);
        lemma_pow2_pos(j);
        let c = pow2(j) * (a + 1) - 1;
        assert(c >= 0) by (nonlinear_arith)
            requires
                c == pow2(j) * (a + 1) - 1,
                pow2(j) >= 1,
                a >= 0,
        ;
        assert(pow2(k) * (a + 1) == 2 * (pow2(j) * (a + 1))) by (nonlinear_arith)
            requires
                pow2(k) == 2 * pow2(j),
        ;
        lemma_weight_doubles(ultra, c, pow2(k) * (a + 1) - 1);
    } else {
        assert(pow2(0) * (a + 1) == a + 1) by (nonlinear_arith)
            requires
                pow2(0) == 1,
        ;
    }
}

/// What the faster parse adds to the price of an offset code: two bits from a
/// megabyte on, and two more with every doubling. The slower parse adds nothing.
pub open spec fn handicap(ultra: bool, code: int) -> int {
    if ultra || code < 20 {
        0
    } else {
        512 * (code - 19)
    }
}

/// A match costs its two codes' shares of the statistics, one whole bit for every
/// extra bit of its offset and its length, the handicap of its offset, and a
/// fifth of a bit. An offset code that takes one part in `2^i` of the offsets
/// costs `i` bits, a length code that takes one part in `2^j` costs `j`.
pub proof fn lemma_match_price_is_bits(s: Stats, ultra: bool, of: int, ml: int, k: nat, i: nat, j: nat)
    requires
        s.priced(ultra),
        !s.predef,
        pow2(k) <= of < pow2((k + 1) as nat),
        of <= u32::MAX,
        3 <= ml <= 131074,
    ensures
        ({
            let mc = ml_code(ml);
            let bits = k + i + j + ml_bits(mc);
            let price = s.match_price_of(ultra, of, ml) - handicap(ultra, k as int) - 51;
            &&& 0 <= k < s.of.len() && 0 <= mc < s.ml.len()
            &&& s.of_sum + 1 <= pow2(i) * (s.of[k as int] + 1) && s.ml_sum + 1 <= pow2(j) * (s.ml[mc] + 1)
                ==> price <= 256 * bits
            &&& s.of_sum + 1 >= pow2(i) * (s.of[k as int] + 1) && s.ml_sum + 1 >= pow2(j) * (s.ml[mc] + 1)
                ==> price >= 256 * bits
        }),
{
    lemma_log2_is(of, k);
    lemma_log2_u32(of as u32);
    lemma_ml_code(ml);
    let mc = ml_code(ml);
    lemma_weight_ratio(ultra, s.of[k as int] as int, s.of_sum, i);
    lemma_weight_ratio(ultra, s.ml[mc] as int, s.ml_sum, j);
}

/// A match costs at least one whole bit for every extra bit that its packed word
/// carries, whatever the statistics.
pub proof fn lemma_extra_bits_cost(s: Stats, ultra: bool, of: int, ml: int)
    requires
        s.priced(ultra),
        1 <= of <= u32::MAX,
        3 <= ml <= 131074,
    ensures
        s.match_price_of(ultra, of, ml) >= 256 * seq_word(0, ml, of).add_nb,
{
    lemma_log2_u32(of as u32);
    lemma_log2_bracket(of);
    lemma_ml_code(ml);
    let oc = log2_floor(of);
    let mc = ml_code(ml);
    assert(seq_word(0, ml, of).add_nb == ml_bits(mc) + oc);
    lemma_entry_weight(ultra, s.of, oc);
    lemma_entry_weight(ultra, s.ml, mc);
    lemma_weight_range(ultra, ml - 3);
}

/// Of two offsets whose codes are equally common, the farther costs a whole bit
/// more for every extra bit it has more, and the handicap where there is one; if
/// its code is rarer, no less than that. Without statistics the extra bits make
/// all the difference.
pub proof fn lemma_far_offset_costs(s: Stats, ultra: bool, far: int, near: int, a: nat, b: nat, ml: int)
    requires
        s.priced(ultra),
        pow2(a) <= far < pow2((a + 1) as nat),
        pow2(b) <= near < pow2((b + 1) as nat),
        far <= u32::MAX,
        near <= u32::MAX,
        3 <= ml <= 131074,
    ensures
        0 <= a < s.of.len() && 0 <= b < s.of.len(),
        ({
            let more = s.match_price_of(ultra, far, ml) - s.match_price_of(ultra, near, ml);
            let bits = 256 * (a - b) + handicap(ultra, a as int) - handicap(ultra, b as int);
            &&& s.predef ==> more == 256 * (a - b)
            &&& !s.predef && s.of[a as int] == s.of[b as int] ==> more == bits
            &&& !s.predef && s.of[a as int] <= s.of[b as int] ==> more >= bits
            &&& !s.predef && s.of[a as int] + 1 == 2 * (s.of[b as int] + 1) ==> more == bits - 256
        }),
{
    lemma_log2_is(far, a);
    lemma_log2_is(near, b);
    lemma_log2_u32(far as u32);
    lemma_log2_u32(near as u32);
    if s.of[a as int] <= s.of[b as int] {
        lemma_weight_monotone(ultra, s.of[a as int] as int, s.of[b as int] as int);
    }
    if s.of[a as int] + 1 == 2 * (s.of[b as int] + 1) {
        lemma_weight_doubles(ultra, s.of[b as int] as int, s.of[a as int] as int);
    }
}

/// Of two lengths whose codes are equally common, one costs a whole bit more for
/// every extra bit that its word has more; if its code is rarer, no less than
/// that. Without statistics a longer match never costs less.
pub proof fn lemma_long_match_costs(s: Stats, ultra: bool, of: int, long: int, short: int)
    requires
        s.priced(ultra),
        1 <= of <= u32::MAX,
        3 <= short <= long <= 131074,
    ensures
        ({
            let more = s.match_price_of(ultra, of, long) - s.match_price_of(ultra, of, short);
            let bits = 256 * (seq_word(0, long, of).add_nb - seq_word(0, short, of).add_nb);
            let (a, b) = (ml_code(long), ml_code(short));
            &&& s.predef ==> more >= 0
            &&& !s.predef && s.ml[a] == s.ml[b] ==> more == bits
            &&& !s.predef && s.ml[a] <= s.ml[b] ==> more >= bits
            &&& !s.predef && s.ml[a] + 1 == 2 * (s.ml[b] + 1) ==> more == bits - 256
        }),
{
    lemma_log2_u32(of as u32);
    lemma_ml_code(long);
    lemma_ml_code(short);
    let (a, b) = (ml_code(long), ml_code(short));
    lemma_weight_monotone(ultra, short - 3, long - 3);
    if s.ml[a] <= s.ml[b] {
        lemma_weight_monotone(ultra, s.ml[a] as int, s.ml[b] as int);
    }
    if s.ml[a] + 1 == 2 * (s.ml[b] + 1) {
        lemma_weight_doubles(ultra, s.ml[b] as int, s.ml[a] as int);
    }
}

/// Without statistics a match costs sixteen bits and its offset's extra bits, and
/// one bit more for every doubling of its length beyond two.
pub proof fn lemma_plain_match_price(s: Stats, of: int, ml: int, k: nat, j: nat)
    requires
        s.predef,
        pow2(k) <= of < pow2((k + 1) as nat),
        pow2(j) <= ml - 2 < pow2((j + 1) as nat),
    ensures
        s.match_price_of(false, of, ml) == 256 * (16 + k + j),
        256 * (17 + k + j) <= s.match_price_of(true, of, ml) < 256 * (18 + k + j),
{
    lemma_log2_is(of, k);
    lemma_log2_is(ml - 2, j);
    lemma_pow2_unfold((j + 1) as nat);
    lemma_weight_steps(ml - 3, j, ml - 2 - pow2(j));
    let f = weight_of(true, ml - 3) - 256 * (j + 1);
    let p = pow2(j) as int;
    let r = ml - 2 - p;
    lemma_pow2_pos(j);
    assert(0 <= f < 256) by (nonlinear_arith)
        requires
            f * p <= 256 * r < (f + 1) * p,
            0 <= r < p,
    ;
}

/// A literal that takes one part in `2^j` of the literals costs `j` bits, and
/// never less than one; without statistics, six.
pub proof fn lemma_literal_price_is_bits(s: Stats, ultra: bool, b: u8, j: nat)
    requires
        s.priced(ultra),
    ensures
        s.predef ==> s.lit_price_of(ultra, b) == 6 * 256,
        s.lit_price_of(ultra, b) >= 256,
        !s.predef && j >= 1 && s.lit_sum + 1 <= pow2(j) * (s.lit[b as int] + 1) ==> s.lit_price_of(ultra, b)
            <= 256 * j,
        !s.predef && s.lit_sum + 1 >= pow2(j) * (s.lit[b as int] + 1) ==> s.lit_price_of(ultra, b) >= 256 * j,
{
    lemma_entry_weight(ultra, s.lit, b as int);
    lemma_weight_range(ultra, s.lit_sum);
    lemma_weight_ratio(ultra, s.lit[b as int] as int, s.lit_sum, j);
}

/// A more common literal never costs more, and one twice as common costs a whole
/// bit less unless it is already down to one bit.
pub proof fn lemma_common_literals_are_cheaper(s: Stats, ultra: bool, a: u8, b: u8)
    requires
        s.priced(ultra),
        !s.predef,
        s.lit[a as int] >= s.lit[b as int],
    ensures
        s.lit_price_of(ultra, a) <= s.lit_price_of(ultra, b),
        s.lit[a as int] + 1 == 2 * (s.lit[b as int] + 1) && s.lit_price_of(ultra, a) > 256 ==> s.lit_price_of(
            ultra,
            a,
        ) == s.lit_price_of(ultra, b) - 256,
{
    lemma_weight_monotone(ultra, s.lit[b as int] as int, s.lit[a as int] as int);
    if s.lit[a as int] + 1 == 2 * (s.lit[b as int] + 1) {
        lemma_weight_doubles(ultra, s.lit[b as int] as int, s.lit[a as int] as int);
    }
}

/// A literal run costs its code's share of the statistics and one whole bit for
/// every extra bit that its word carries; a code that takes one part in `2^j` of
/// the runs costs `j` bits. The run of a whole block has no code and costs one
/// bit more than the longest that has one.
pub proof fn lemma_run_price_is_bits(s: Stats, ultra: bool, len: int, j: nat)
    requires
        s.priced(ultra),
        !s.predef,
        0 <= len < 131072,
    ensures
        ({
            let lc = ll_code(len);
            let bits = j + seq_word(len, 3, 1).add_nb;
            &&& 0 <= lc < s.ll.len()
            &&& s.ll_sum + 1 <= pow2(j) * (s.ll[lc] + 1) ==> s.ll_price_of(ultra, len) <= 256 * bits
            &&& s.ll_sum + 1 >= pow2(j) * (s.ll[lc] + 1) ==> s.ll_price_of(ultra, len) >= 256 * bits
        }),
        s.ll_price_of(ultra, 131072) == s.ll_price_of(ultra, 131071) + 256,
{
    lemma_ll_code(len);
    lemma_weight_ratio(ultra, s.ll[ll_code(len)] as int, s.ll_sum, j);
}

/// Of two literal runs whose codes are equally common, one costs a whole bit more
/// for every extra bit that its word has more; if its code is rarer, no less than
/// that, and if it is twice as common, a bit less.
pub proof fn lemma_long_run_costs(s: Stats, ultra: bool, long: int, short: int)
    requires
        s.priced(ultra),
        !s.predef,
        0 <= short <= long < 131072,
    ensures
        ({
            let more = s.ll_price_of(ultra, long) - s.ll_price_of(ultra, short);
            let bits = 256 * (seq_word(long, 3, 1).add_nb - seq_word(short, 3, 1).add_nb);
            let (a, b) = (ll_code(long), ll_code(short));
            &&& s.ll[a] == s.ll[b] ==> more == bits
            &&& s.ll[a] <= s.ll[b] ==> more >= bits
            &&& s.ll[a] + 1 == 2 * (s.ll[b] + 1) ==> more == bits - 256
        }),
{
    lemma_ll_code(long);
    lemma_ll_code(short);
    let (a, b) = (ll_code(long), ll_code(short));
    if s.ll[a] <= s.ll[b] {
        lemma_weight_monotone(ultra, s.ll[a] as int, s.ll[b] as int);
    }
    if s.ll[a] + 1 == 2 * (s.ll[b] + 1) {
        lemma_weight_doubles(ultra, s.ll[b] as int, s.ll[a] as int);
    }
}

/// The literal-length codes tile the runs from zero to the longest: each code's
/// range ends where the next one starts. Extra bits only grow, by two at most from
/// one code to the next.
pub proof fn lemma_run_codes_tile(c: int)
    requires
        0 <= c <= 35,
    ensures
        ll_base(0) == 0,
        ll_base(c) + pow2(ll_bits(c) as nat) == if c < 35 {
            ll_base(c + 1)
        } else {
            131072
        },
        c < 16 ==> ll_bits(c) == 0,
        c < 35 ==> ll_bits(c) <= ll_bits(c + 1) <= ll_bits(c) + 2,
{
    lemma2_to64();
    if c >= 25 {
        lemma_pow2_unfold((c - 18) as nat);
    }
}

/// The match-length codes tile the lengths from three to the longest.
pub proof fn lemma_length_codes_tile(c: int)
    requires
        0 <= c <= 52,
    ensures
        ml_base(0) == 3,
        ml_base(c) + pow2(ml_bits(c) as nat) == if c < 52 {
            ml_base(c + 1)
        } else {
            131075
        },
        c < 32 ==> ml_bits(c) == 0,
        c < 52 ==> ml_bits(c) <= ml_bits(c + 1) <= ml_bits(c) + 2,
{
    lemma2_to64();
    if c >= 43 {
        lemma_pow2_unfold((c - 35) as nat);
    }
}

/// The codes of a sequence are those whose ranges hold its literal run, its match
/// length and its offset.
pub proof fn lemma_codes_hold_lengths(len: int, c: int)
    ensures
        0 <= c <= 35 && 0 <= len <= 131071 && ll_base(c) <= len < ll_base(c) + pow2(ll_bits(c) as nat) ==> ll_code(
            len,
        ) == c,
        0 <= c <= 52 && 3 <= len <= 131074 && ml_base(c) <= len < ml_base(c) + pow2(ml_bits(c) as nat) ==> ml_code(
            len,
        ) == c,
{
    lemma2_to64();
    if 25 <= c <= 35 && ll_base(c) <= len < ll_base(c) + pow2(ll_bits(c) as nat) {
        lemma_pow2_unfold((c - 18) as nat);
        lemma_pow2_monotone(6, (c - 19) as nat);
        lemma_log2_is(len, (c - 19) as nat);
    }
    if 43 <= c <= 52 && ml_base(c) <= len < ml_base(c) + pow2(ml_bits(c) as nat) {
        lemma_pow2_unfold((c - 35) as nat);
        lemma_pow2_monotone(7, (c - 36) as nat);
        lemma_log2_is(len - 3, (c - 36) as nat);
    }
}

/// Occurrences are counted as in the multiset of the bytes.
pub proof fn lemma_occurrences_count(s: Seq<u8>, b: u8)
    ensures
        occurrences(s, b) == s.to_multiset().count(b),
    decreases s.len(),
{
    broadcast use vstd::seq_lib::group_to_multiset_ensures;
    if s.len() > 0 {
        let q = s.drop_last();
        lemma_occurrences_count(q, b);
        vstd::seq_lib::to_multiset_build(q, s.last());
        assert(q.push(s.last()) =~= s);
    } else {
        assert(s.to_multiset().count(b) == 0) by {
            assert(!s.contains(b));
        }
    }
}

/// A first block prices its literals by its own bytes: one for a byte that occurs
/// at all and one more for every 256 occurrences, none for a byte that does not.
/// Everything else starts from built-in counts in which every code has a share.
pub proof fn lemma_first_block_counts(s: Stats, ultra: bool, src: Seq<u8>, b: u8)
    requires
        s.wf(),
        s.fresh(),
        1 <= src.len() <= 131072,
    ensures
        ({
            let t = s.rescaled(ultra, src);
            let n = src.to_multiset().count(b) as int;
            &&& n == 0 ==> t.lit[b as int] == 0
            &&& n > 0 ==> 256 * (t.lit[b as int] - 1) <= n < 256 * t.lit[b as int]
            &&& t.ll == seq![4u32, 2, 1, 1, 1, 1, 1, 1, 1, 1, 1, 1, 1, 1, 1, 1, 1, 1, 1, 1, 1, 1, 1, 1, 1, 1, 1, 1, 1, 1, 1, 1, 1, 1, 1, 1]
            &&& t.of == seq![6u32, 2, 1, 1, 2, 3, 4, 4, 4, 3, 2, 1, 1, 1, 1, 1, 1, 1, 1, 1, 1, 1, 1, 1, 1, 1, 1, 1, 1, 1, 1, 1]
            &&& t.ml.len() == 53
            &&& forall|c: int| 0 <= c < 53 ==> #[trigger] t.ml[c] == 1
            &&& t.predef == (src.len() <= 8)
        }),
{
    lemma2_to64();
    let zero = Seq::new(256, |b: int| 0u32);
    lemma_total_const(zero, 0);
    lemma_bumped(zero, src, 1);
    let h = bumped(zero, src, 1);
    lemma_downscaled_total(h, 8, false);
    lemma_occurrences_count(src, b);
    let t = s.rescaled(ultra, src);
    assert(t.lit[b as int] == downscaled(h, 8, false)[b as int]);
    assert(h[b as int] == 1 * occurrences(src, b));
    assert(t.ll =~= seq![4u32, 2, 1, 1, 1, 1, 1, 1, 1, 1, 1, 1, 1, 1, 1, 1, 1, 1, 1, 1, 1, 1, 1, 1, 1, 1, 1, 1, 1, 1, 1, 1, 1, 1, 1, 1]);
    assert(t.of =~= seq![6u32, 2, 1, 1, 2, 3, 4, 4, 4, 3, 2, 1, 1, 1, 1, 1, 1, 1, 1, 1, 1, 1, 1, 1, 1, 1, 1, 1, 1, 1, 1, 1]);
}

/// Later blocks keep the counts that add up to less than twice the target, and
/// shift the others down: by as many places as leave at least the target, with
/// one added so that no symbol is lost.
proof fn lemma_shifted_down(t: Seq<u32>, target: nat, k: nat, i: int)
    requires
        target < 31,
        k >= 1,
        0 <= i < t.len(),
        total(t) + t.len() <= u32::MAX,
    ensures
        total(t) < 2 * pow2(target) ==> scaled_to(t, target as int) == t,
        pow2(k) * pow2(target) <= total(t) < pow2((k + 1) as nat) * pow2(target) ==> {
            let v = scaled_to(t, target as int)[i];
            pow2(k) * (v - 1) <= t[i] < pow2(k) * v
        },
{
    lemma_pow2_pos(target);
    lemma_pow2_pos(k);
    lemma_total_bounds(t, 0);
    let p = pow2(target) as int;
    let sum = total(t);
    let factor = sum / p;
    vstd::arithmetic::div_mod::lemma_fundamental_div_mod(sum, p);
    if sum < 2 * p {
        assert(factor <= 1) by (nonlinear_arith)
            requires
                sum == p * factor + sum % p,
                0 <= sum % p,
                sum < 2 * p,
                p > 0,
        ;
    }
    if pow2(k) * p <= sum < pow2((k + 1) as nat) * p {
        let (lo, hi) = (pow2(k) as int, pow2((k + 1) as nat) as int);
        assert(lo <= factor < hi) by (nonlinear_arith)
            requires
                sum == p * factor + sum % p,
                0 <= sum % p < p,
                lo * p <= sum < hi * p,
                p > 0,
        ;
        lemma2_to64();
        lemma_pow2_monotone(1, k);
        lemma_log2_is(factor, k);
        lemma_downscaled_total(t, k as int, true);
        let v = scaled_to(t, target as int)[i];
        let x = t[i] as int;
        vstd::arithmetic::div_mod::lemma_fundamental_div_mod(x, lo);
        assert(v == 1 + x / lo);
        assert(lo * (v - 1) <= x < lo * v) by (nonlinear_arith)
            requires
                x == lo * (x / lo) + x % lo,
                0 <= x % lo < lo,
                v == 1 + x / lo,
        ;
    }
}

/// A later block keeps its literal counts while they add up to less than 8192,
/// and its code counts while they add up to less than 4096. Beyond that each is
/// shifted down by as many places as bring the sum back to that, with one added
/// so that no symbol is lost.
pub proof fn lemma_later_block_counts(s: Stats, ultra: bool, src: Seq<u8>, k: nat, i: int)
    requires
        s.wf(),
        !s.fresh(),
        k >= 1,
    ensures
        ({
            let t = s.rescaled(ultra, src);
            &&& s.lit_sum < 8192 ==> t.lit == s.lit
            &&& s.ll_sum < 4096 ==> t.ll == s.ll
            &&& s.ml_sum < 4096 ==> t.ml == s.ml
            &&& s.of_sum < 4096 ==> t.of == s.of
            &&& 0 <= i < 256 && pow2(k) * 4096 <= s.lit_sum < pow2((k + 1) as nat) * 4096 ==> pow2(k) * (t.lit[i]
                - 1) <= s.lit[i] < pow2(k) * t.lit[i]
            &&& 0 <= i < 36 && pow2(k) * 2048 <= s.ll_sum < pow2((k + 1) as nat) * 2048 ==> pow2(k) * (t.ll[i] - 1)
                <= s.ll[i] < pow2(k) * t.ll[i]
            &&& 0 <= i < 53 && pow2(k) * 2048 <= s.ml_sum < pow2((k + 1) as nat) * 2048 ==> pow2(k) * (t.ml[i] - 1)
                <= s.ml[i] < pow2(k) * t.ml[i]
            &&& 0 <= i < 32 && pow2(k) * 2048 <= s.of_sum < pow2((k + 1) as nat) * 2048 ==> pow2(k) * (t.of[i] - 1)
                <= s.of[i] < pow2(k) * t.of[i]
            &&& t.predef == (src.len() <= 8)
        }),
{
    lemma2_to64();
    let c = |n: int| if 0 <= i < n {
        i
    } else {
        0
    };
    lemma_shifted_down(s.lit, 12, k, c(256));
    lemma_shifted_down(s.ll, 11, k, c(36));
    lemma_shifted_down(s.ml, 11, k, c(53));
    lemma_shifted_down(s.of, 11, k, c(32));
}

/// Counting an emitted sequence adds two for every literal, one for each of its
/// three codes, and nothing for anything else.
pub proof fn lemma_counts_what_was_emitted(s: Stats, literals: Seq<u8>, of: int, ml: int, k: nat, b: u8, c: int)
    requires
        s.wf(),
        s.summed(),
        s.room(literals.len() as int + 1),
        literals.len() < 131072,
        pow2(k) <= of < pow2((k + 1) as nat),
        of <= u32::MAX,
        3 <= ml <= 131074,
    ensures
        ({
            let t = s.counted(literals, of, ml);
            let lc = ll_code(literals.len() as int);
            let mc = ml_code(ml);
            &&& t.lit[b as int] == s.lit[b as int] + 2 * literals.to_multiset().count(b)
            &&& 0 <= c < 36 ==> t.ll[c] == s.ll[c] + if c == lc {
                1int
            } else {
                0
            }
            &&& 0 <= c < 53 ==> t.ml[c] == s.ml[c] + if c == mc {
                1int
            } else {
                0
            }
            &&& 0 <= c < 32 ==> t.of[c] == s.of[c] + if c == k {
                1int
            } else {
                0
            }
            &&& t.predef == s.predef
        }),
{
    lemma_log2_is(of, k);
    lemma_log2_u32(of as u32);
    lemma_ll_code(literals.len() as int);
    lemma_ml_code(ml);
    lemma_bumped(s.lit, literals, 2);
    lemma_occurrences_count(literals, b);
    let t = s.counted(literals, of, ml);
    assert(t.lit[b as int] == s.lit[b as int] + 2 * occurrences(literals, b));
    lemma_total_bounds(s.ll, ll_code(literals.len() as int));
    lemma_total_bounds(s.ml, ml_code(ml));
    lemma_total_bounds(s.of, k as int);
}

} // verus!
