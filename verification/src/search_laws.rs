//! What the searches promise beyond being right: a position that was indexed is
//! found again by the same bytes, a search returns the longest match it looked
//! at, and a scan that finds a match takes it.

use vstd::prelude::*;
use crate::chains::{chain_best, chain_slot, chain_walk, lemma_link_as, link_as, Heads, LinkCfg, WalkCfg};
use crate::gates::CoveredFill;
use crate::hash::{bytes_agree, common_len, le4, le8, lemma_common_len, lemma_common_len_skip, lemma_le4_eq, lemma_le8_eq, lemma_mul_hash_range, long_slot, short_slot, slots, ChainHashWidth};
use crate::rows::{lemma_row_index, row_best, row_candidate, row_dist, row_entry_of, row_put, row_walk, RowCfg, Rows};
use crate::tables::{candidate, covered, entry_of, put_long, put_range, put_short};

verus! {

/// Bytes that the short hash of a width looks at.
pub open spec fn hashed_bytes(width: ChainHashWidth) -> int {
    match width {
        ChainHashWidth::Five => 5,
        ChainHashWidth::Four => 4,
    }
}

/// What the short hash keeps of a word are its low bytes.
proof fn lemma_masked(w: Seq<u8>, i: int, width: ChainHashWidth)
    ensures
        ((le8(w, i) as u64) & width.mask_bits()) == if width == ChainHashWidth::Four {
            le4(w, i)
        } else {
            le4(w, i) + 0x1_0000_0000 * w[i + 4]
        },
{
    lemma_le8_eq(w, i, i);
    lemma_le4_eq(w, i, i);
    lemma_le4_eq(w, i + 4, i + 4);
    let v = le8(w, i) as u64;
    assert(v & 0xffff_ffff == v % 0x1_0000_0000) by (bit_vector);
    assert(v & 0x00ff_ffff_ffff == v % 0x100_0000_0000) by (bit_vector);
    assert(le4(w, i + 4) == w[i + 4] + 0x100 * (w[i + 5] + 0x100 * w[i + 6] + 0x1_0000 * w[i + 7]));
}

/// Positions whose first bytes agree share their slot: five or four bytes, by the
/// width, under the short hash, and eight under the long one. Nothing else of the
/// window matters.
pub proof fn lemma_same_bytes_same_slot(w: Seq<u8>, i: int, j: int, log: u32, width: ChainHashWidth)
    ensures
        bytes_agree(w, i, j, hashed_bytes(width)) ==> short_slot(w, i, log, width) == short_slot(w, j, log, width),
        bytes_agree(w, i, j, 8) ==> long_slot(w, i, log) == long_slot(w, j, log),
{
    lemma_masked(w, i, width);
    lemma_masked(w, j, width);
    lemma_le4_eq(w, i, j);
    lemma_le8_eq(w, i, j);
    if bytes_agree(w, i, j, hashed_bytes(width)) {
        assert forall|k: int| 0 <= k < 4 implies #[trigger] w[i + k] == w[j + k] by {}
        if width == ChainHashWidth::Five {
            assert(w[i + 4] == w[j + 4]);
        }
    }
}

/// A position that was put into a table is what a scan finds there from any later
/// position with the same bytes, within reach.
pub proof fn lemma_indexed_is_found(t: Seq<u32>, w: Seq<u8>, j: int, i: int, base: int, log: u32, width: ChainHashWidth, reach: int)
    requires
        1 <= log < 32,
        t.len() == slots(log),
        0 <= j < i,
        i - j <= reach,
        0 <= base,
        base + j + 1 <= u32::MAX,
    ensures
        bytes_agree(w, i, j, hashed_bytes(width)) ==> candidate(
            put_short(t, w, j, base, log, width)[short_slot(w, i, log, width)],
            base + i,
            i,
            reach,
        ) == j,
        bytes_agree(w, i, j, 8) ==> candidate(put_long(t, w, j, base, log)[long_slot(w, i, log)], base + i, i, reach)
            == j,
{
    broadcast use lemma_mul_hash_range;

    lemma_same_bytes_same_slot(w, i, j, log, width);
    assert(entry_of(base + j) == base + j + 1);
}

/// After a range was put into a table, every position of it leaves its slot to
/// itself or to a later one of the range.
pub proof fn lemma_range_is_indexed(t: Seq<u32>, w: Seq<u8>, from: int, to: int, step: int, n: int, base: int, log: u32, width: ChainHashWidth)
    requires
        1 <= log < 64,
        t.len() == slots(log),
        step >= 1,
        n >= 0,
        from + n * step < to,
    ensures
        exists|m: int|
            n <= m && from + m * step < to && put_range(t, w, from, to, step, base, log, width)[short_slot(
                w,
                from + n * step,
                log,
                width,
            )] == entry_of(base + (#[trigger] (from + m * step))),
    decreases to - from,
{
    broadcast use lemma_mul_hash_range;

    let r = put_short(t, w, from, base, log, width);
    assert(0 <= n * step) by (nonlinear_arith)
        requires
            n >= 0,
            step >= 1,
    ;
    if n > 0 {
        assert(from + step + (n - 1) * step == from + n * step) by (nonlinear_arith);
        lemma_range_is_indexed(r, w, from + step, to, step, n - 1, base, log, width);
        let m = choose|m: int|
            n - 1 <= m && from + step + m * step < to && put_range(r, w, from + step, to, step, base, log, width)[short_slot(
                w,
                from + step + (n - 1) * step,
                log,
                width,
            )] == entry_of(base + (#[trigger] (from + step + m * step)));
        assert(from + step + m * step == from + (m + 1) * step) by (nonlinear_arith);
    } else {
        assert(n * step == 0) by (nonlinear_arith)
            requires
                n == 0,
        ;
        let slot = short_slot(w, from, log, width);
        lemma_slot_after(r, w, from + step, to, step, base, log, width, slot);
        let z = put_range(r, w, from + step, to, step, base, log, width);
        if z[slot] == r[slot] {
            assert(from + 0 * step == from);
        } else {
            let m = choose|m: int|
                0 <= m && from + step + m * step < to && z[slot] == entry_of(base + (#[trigger] (from + step + m * step)));
            assert(from + step + m * step == from + (m + 1) * step) by (nonlinear_arith);
        }
    }
}

/// A slot keeps its entry through a range, or takes one of the range's.
proof fn lemma_slot_after(t: Seq<u32>, w: Seq<u8>, from: int, to: int, step: int, base: int, log: u32, width: ChainHashWidth, slot: int)
    requires
        1 <= log < 64,
        t.len() == slots(log),
        step >= 1,
        0 <= slot < t.len(),
    ensures
        ({
            let z = put_range(t, w, from, to, step, base, log, width);
            z[slot] == t[slot] || exists|m: int|
                0 <= m && from + m * step < to && z[slot] == entry_of(base + (#[trigger] (from + m * step)))
        }),
    decreases
        if to > from {
            to - from
        } else {
            0
        },
{
    broadcast use lemma_mul_hash_range;

    if from < to {
        let r = put_short(t, w, from, base, log, width);
        lemma_slot_after(r, w, from + step, to, step, base, log, width, slot);
        let z = put_range(t, w, from, to, step, base, log, width);
        if z[slot] == r[slot] {
            if short_slot(w, from, log, width) == slot {
                assert(from + 0 * step == from);
            }
        } else {
            let m = choose|m: int|
                0 <= m && from + step + m * step < to && z[slot] == entry_of(base + (#[trigger] (from + step + m * step)));
            assert(from + step + m * step == from + (m + 1) * step) by (nonlinear_arith);
        }
    }
}

/// A match of up to sixteen bytes is indexed at every position, or at every second
/// one where the fill is strided; a longer one just inside its ends.
pub proof fn lemma_match_is_indexed(t: Seq<u32>, w: Seq<u8>, start: int, ml: int, limit: int, n: int, base: int, log: u32, fill: CoveredFill)
    requires
        1 <= log < 64,
        t.len() == slots(log),
        0 <= n < ml,
        start + ml <= limit,
    ensures
        ({
            let z = covered(t, w, start, ml, limit, base, log, fill);
            let five = ChainHashWidth::Five;
            &&& (ml <= 16 && (fill != CoveredFill::Strided || n % 2 == 0)) || fill == CoveredFill::DictDense ==> exists|p: int|
                base + start + n <= p < base + start + ml && z[short_slot(w, start + n, log, five)] == #[trigger] entry_of(p)
            &&& ml > 16 && fill != CoveredFill::DictDense ==> z[short_slot(w, start + ml - 2, log, five)] == entry_of(
                base + start + ml - 2,
            )
        }),
{
    broadcast use lemma_mul_hash_range;

    let z = covered(t, w, start, ml, limit, base, log, fill);
    let five = ChainHashWidth::Five;
    let slot = short_slot(w, start + n, log, five);
    if ml <= 16 && fill == CoveredFill::Strided && n % 2 == 0 {
        lemma_range_is_indexed(t, w, start, start + ml, 2, n / 2, base, log, five);
        let m = choose|m: int|
            n / 2 <= m && start + m * 2 < start + ml && z[slot] == entry_of(base + (#[trigger] (start + m * 2)));
        assert(z[slot] == entry_of(base + start + m * 2));
    } else if ml <= 16 && fill != CoveredFill::Strided || fill == CoveredFill::DictDense {
        lemma_range_is_indexed(t, w, start, start + ml, 1, n, base, log, five);
        let m = choose|m: int|
            n <= m && start + m * 1 < start + ml && z[slot] == entry_of(base + (#[trigger] (start + m * 1)));
        assert(z[slot] == entry_of(base + start + m * 1));
    }
}

/// The position that the `t`th link of a chain names from the entry `e` on, as
/// long as every link lies within reach.
pub open spec fn linked(c: LinkCfg, reach: int, ch: Seq<u32>, i: int, e: u32, t: int) -> Option<int>
    decreases t,
{
    let d = c.base + c.origin + i + 1 - e;
    if !(1 <= d <= i && d <= reach) {
        None
    } else if t <= 0 {
        Some(i - d)
    } else {
        linked(c, reach, ch, i, ch[chain_slot(c.base + (i - d), ch.len() as int)], t - 1)
    }
}

proof fn lemma_walk_is_longest(c: LinkCfg, k: WalkCfg, w: Seq<u8>, ch: Seq<u32>, i: int, e: u32, tried: int, best: (int, int), t: int)
    requires
        i <= w.len(),
        best.0 <= w.len() - i,
    ensures
        ({
            let r = chain_walk(c, k, w, ch, i, e, tried, best);
            &&& r.0 >= best.0
            &&& 0 <= t < k.depth - tried ==> (linked(c, k.reach as int, ch, i, e, t) matches Some(q) ==> !k.ramp.shallow(
                c.base + q,
            ) && common_len(w, i, q) >= 4 ==> r.0 >= common_len(w, i, q))
        }),
    decreases k.depth - tried,
{
    let d = c.base + c.origin + i + 1 - e;
    if tried < k.depth && 1 <= d <= i && d <= k.reach {
        let q = i - d;
        let n = common_len(w, i, q);
        lemma_common_len(w, i, q);
        let better = !k.ramp.shallow(c.base + q) && n >= 4 && n > best.0;
        let next = ch[chain_slot(c.base + q, ch.len() as int)];
        if better && i + n >= w.len() {
            if t >= 0 {
                if let Some(p) = linked(c, k.reach as int, ch, i, e, t) {
                    lemma_common_len(w, i, p);
                }
            }
        } else {
            let b = if better {
                (n, q)
            } else {
                best
            };
            lemma_walk_is_longest(c, k, w, ch, i, next, tried + 1, b, t - 1);
        }
    }
}

/// A chain search returns a match no shorter than any that the first links of the
/// chain offer, as many as it may try.
pub proof fn lemma_chain_search_is_longest(c: LinkCfg, k: WalkCfg, w: Seq<u8>, ch: Seq<u32>, i: int, e: u32, t: int)
    requires
        0 <= i <= w.len(),
        0 <= t < k.depth,
    ensures
        linked(c, k.reach as int, ch, i, e, t) matches Some(q) ==> !k.ramp.shallow(c.base + q) && common_len(w, i, q)
            >= 4 ==> chain_best(c, k, w, ch, i, e).0 >= common_len(w, i, q),
{
    lemma_walk_is_longest(c, k, w, ch, i, e, 0, (0, 0), t);
}

/// A position that was linked is found from the next position with the same bytes:
/// the search there returns its match or a longer one.
pub proof fn lemma_linked_is_found(c: LinkCfg, k: WalkCfg, w: Seq<u8>, h: Heads, j: int, i: int)
    requires
        c.fits(w, h),
        0 <= j < i <= w.len(),
        i - j <= k.reach,
        k.depth >= 1,
        c.base + c.origin + j + 1 <= u32::MAX,
        bytes_agree(w, i, j, hashed_bytes(c.width)),
        i + hashed_bytes(c.width) <= w.len(),
        !k.ramp.shallow(c.base + j),
    ensures
        ({
            let g = link_as(c, w, h, j, j);
            chain_best(c, k, w, g.ch, i, g.t[c.slot(w, i)]).0 >= common_len(w, i, j)
        }),
        common_len(w, i, j) >= hashed_bytes(c.width),
{
    let g = link_as(c, w, h, j, j);
    lemma_link_as(c, w, h, j, j);
    lemma_same_bytes_same_slot(w, i, j, c.log, c.width);
    lemma_common_len_skip(w, i, j, hashed_bytes(c.width));
    lemma_common_len(w, i + hashed_bytes(c.width), j + hashed_bytes(c.width));
    let e = g.t[c.slot(w, i)];
    assert(e == c.base + c.origin + j + 1);
    lemma_chain_search_is_longest(c, k, w, g.ch, i, e, 0);
    assert(linked(c, k.reach as int, g.ch, i, e, 0) == Some(j));
}

/// The chain remembers what a slot held: behind the newest position comes the one
/// that was newest before.
pub proof fn lemma_link_keeps_older(c: LinkCfg, w: Seq<u8>, h: Heads, j: int)
    requires
        c.fits(w, h),
        j >= 0,
    ensures
        ({
            let g = link_as(c, w, h, j, j);
            &&& g.ch[chain_slot(c.base + j, h.ch.len() as int)] == h.t[c.slot(w, j)]
            &&& forall|s: int| 0 <= s < h.t.len() && s != c.slot(w, j) ==> #[trigger] g.t[s] == h.t[s]
        }),
{
    lemma_link_as(c, w, h, j, j);
}

/// How many entries of a row are candidates, of those from age `from` to `to`.
pub open spec fn candidates(c: RowCfg, r: Rows, i: int, h: int, from: int, to: int) -> int
    decreases to - from,
{
    if from >= to {
        0
    } else {
        candidates(c, r, i, h, from + 1, to) + if row_candidate(c, i, h, aged(c, r, h, from)) {
            1int
        } else {
            0
        }
    }
}

/// The entry of a given age in the row of a hash: the newest has age zero.
pub open spec fn aged(c: RowCfg, r: Rows, h: int, age: int) -> u32 {
    let row = h / 0x100;
    r.t[row * c.row_len() + (r.hd[row] + age) % c.row_len()]
}

proof fn lemma_row_walk_is_longest(c: RowCfg, w: Seq<u8>, r: Rows, i: int, h: int, age: int, left: int, best: (int, int), a: int)
    requires
        0 <= i <= w.len(),
        best.0 <= w.len() - i,
    ensures
        ({
            let z = row_walk(c, w, r, i, h, age, left, best);
            let e = aged(c, r, h, a);
            let q = i - row_dist(c, i, e);
            &&& z.0 >= best.0
            &&& age <= a < c.row_len() && candidates(c, r, i, h, age, a) < left && row_candidate(c, i, h, e)
                && !c.ramp.shallow(c.base + q) && common_len(w, i, q) >= 4 ==> z.0 >= common_len(w, i, q)
        }),
    decreases c.row_len() - age,
{
    let ea = aged(c, r, h, a);
    lemma_common_len(w, i, i - row_dist(c, i, ea));
    if age < c.row_len() && left > 0 {
        let e = aged(c, r, h, age);
        if row_candidate(c, i, h, e) {
            let q = i - row_dist(c, i, e);
            let n = common_len(w, i, q);
            lemma_common_len(w, i, q);
            let better = !c.ramp.shallow(c.base + q) && n >= 4 && n > best.0;
            if !(better && i + n >= w.len()) {
                let b = if better {
                    (n, q)
                } else {
                    best
                };
                lemma_row_walk_is_longest(c, w, r, i, h, age + 1, left - 1, b, a);
            }
        } else {
            lemma_row_walk_is_longest(c, w, r, i, h, age + 1, left, best, a);
        }
    } else if left <= 0 && age <= a {
        lemma_candidates(c, r, i, h, age, a);
    }
}

proof fn lemma_candidates(c: RowCfg, r: Rows, i: int, h: int, from: int, to: int)
    ensures
        candidates(c, r, i, h, from, to) >= 0,
    decreases to - from,
{
    if from < to {
        lemma_candidates(c, r, i, h, from + 1, to);
    }
}

/// A row search returns a match no shorter than that of any entry of its row,
/// newest first, as many candidates as it may try.
pub proof fn lemma_row_search_is_longest(c: RowCfg, w: Seq<u8>, r: Rows, i: int, a: int)
    requires
        0 <= i <= w.len(),
        0 <= a < c.row_len(),
        candidates(c, r, i, c.hash(w, i), 0, a) < c.attempts,
        row_candidate(c, i, c.hash(w, i), aged(c, r, c.hash(w, i), a)),
    ensures
        ({
            let q = i - row_dist(c, i, aged(c, r, c.hash(w, i), a));
            !c.ramp.shallow(c.base + q) && common_len(w, i, q) >= 4 ==> row_best(c, w, r, i).0 >= common_len(w, i, q)
        }),
{
    lemma_row_walk_is_longest(c, w, r, i, c.hash(w, i), 0, c.attempts as int, (0, 0), a);
}

/// A position that was put into its row is found from the next position with the
/// same bytes: the search there returns its match or a longer one.
pub proof fn lemma_row_put_is_found(c: RowCfg, w: Seq<u8>, r: Rows, j: int, i: int)
    requires
        c.fits(w, r),
        0 <= j < i <= w.len(),
        i - j <= c.reach,
        i - j < 0x100_0000,
        c.attempts >= 1,
        (c.base + j + 1) % 0x100_0000 != 0,
        bytes_agree(w, i, j, hashed_bytes(c.width)),
        i + hashed_bytes(c.width) <= w.len(),
        !c.ramp.shallow(c.base + j),
    ensures
        row_best(c, w, row_put(c, w, r, j, j), i).0 >= common_len(w, i, j),
{
    let g = row_put(c, w, r, j, j);
    lemma_masked(w, i, c.width);
    lemma_masked(w, j, c.width);
    lemma_le4_eq(w, i, j);
    assert forall|k: int| 0 <= k < 4 implies #[trigger] w[i + k] == w[j + k] by {}
    if c.width == ChainHashWidth::Five {
        assert(w[i + 4] == w[j + 4]);
    }
    let h = c.hash(w, i);
    assert(h == c.hash(w, j));
    lemma_row_index(c, w, r, j);
    let row = h / 0x100;
    let n = c.row_len();
    let slot = (r.hd[row] + 255) % n;
    assert(0 <= slot < n <= 64);
    assert(g.hd[row] == slot);
    assert((slot + 0) % n == slot) by {
        vstd::arithmetic::div_mod::lemma_small_mod(slot as nat, n as nat);
    }
    assert(0 <= row * n + slot < r.t.len());
    let e = aged(c, g, h, 0);
    assert(e == row_entry_of(h, c.base + j));
    assert(e as int / 0x100_0000 == h % 0x100 && e as int % 0x100_0000 == (c.base + j + 1) % 0x100_0000);
    assert(row_dist(c, i, e) == i - j);
    lemma_common_len_skip(w, i, j, hashed_bytes(c.width));
    lemma_common_len(w, i + hashed_bytes(c.width), j + hashed_bytes(c.width));
    lemma_row_search_is_longest(c, w, g, i, 0);
}

} // verus!
