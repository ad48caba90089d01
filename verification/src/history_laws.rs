//! What a matcher's history promises: bytes keep their positions, as much of them
//! stays as the window holds, what was passed over or handed over is indexed, and
//! a frame starts clean.

use vstd::prelude::*;
use vstd::arithmetic::power2::{lemma2_to64, pow2};
use crate::chains::{lemma_link_as, link_as, link_range, Heads, LinkCfg};
use crate::driver::{reset_to, Drv};
use crate::driver_blocks::{caught_up, gap_index, gap_limit};
use crate::driver_fill::{committed, dict_tail, tail_bound, with_dict, SmallDictRow};
use crate::hash::{lemma_mul_hash_range, short_slot, slots, ChainHashWidth};
use crate::level::Level;
use crate::mt::job_prepared;
use crate::level::InputShape;
use crate::params::{LdmArming, ReachChoice, Strategy};
use crate::scan_laws::offsets;
use crate::search_laws::lemma_range_is_indexed;
use crate::sequence::Reps;
use crate::store::{claimed, dict_fast, indexed, sized, strip_indexed, strip_start, Keys, Store};
use crate::tables::{entry_of, put_short};

verus! {

/// Adding a block drops nothing that the window still holds: the block follows
/// what there was, and the last bytes before it stay where they are, as many as
/// the window is wide.
pub proof fn lemma_block_follows_history(d: Drv, data: Seq<u8>, p: int)
    requires
        d.place.base + d.win.len() + data.len() <= u64::MAX,
    ensures
        ({
            let e = committed(d, data);
            let end = d.place.base + d.win.len();
            &&& e.place.block_start == end && e.place.block_end == end + data.len() && e.place.pos == end
            &&& e.place.base + e.win.len() == end + data.len()
            &&& d.place.base <= e.place.base <= end
            &&& e.place.base == d.place.base || end - e.place.base >= d.mode.params.window || e.place.base == end
                && d.mode.params.window == 0
            &&& e.place.base <= p < end ==> e.win[p - e.place.base] == d.win[p - d.place.base]
            &&& end <= p < end + data.len() ==> e.win[p - e.place.base] == data[p - end]
        }),
{
}

/// Linking a range leaves the slot of every position of it to that position or to
/// a later one of the range.
pub proof fn lemma_range_is_linked(c: LinkCfg, w: Seq<u8>, h: Heads, from: int, to: int, step: int, n: int)
    requires
        c.fits(w, h),
        from >= 0,
        step >= 1,
        n >= 0,
        from + n * step < to,
    ensures
        exists|m: int|
            n <= m && from + m * step < to && link_range(c, w, h, from, to, step).t[c.slot(w, from + n * step)] == c.entry(
                #[trigger] (from + m * step),
            ),
    decreases to - from,
{
    lemma_link_as(c, w, h, from, from);
    let g = link_as(c, w, h, from, from);
    assert(0 <= n * step) by (nonlinear_arith)
        requires
            n >= 0,
            step >= 1,
    ;
    if n > 0 {
        assert(from + step + (n - 1) * step == from + n * step) by (nonlinear_arith);
        lemma_range_is_linked(c, w, g, from + step, to, step, n - 1);
        let m = choose|m: int|
            n - 1 <= m && from + step + m * step < to && link_range(c, w, g, from + step, to, step).t[c.slot(
                w,
                from + step + (n - 1) * step,
            )] == c.entry(#[trigger] (from + step + m * step));
        assert(from + step + m * step == from + (m + 1) * step) by (nonlinear_arith);
    } else {
        assert(n * step == 0) by (nonlinear_arith)
            requires
                n == 0,
        ;
        lemma_head_after(c, w, g, from + step, to, step, c.slot(w, from));
        let z = link_range(c, w, g, from + step, to, step);
        if z.t[c.slot(w, from)] == g.t[c.slot(w, from)] {
            assert(from + 0 * step == from);
        } else {
            let m = choose|m: int|
                0 <= m && from + step + m * step < to && z.t[c.slot(w, from)] == c.entry(#[trigger] (from + step + m * step));
            assert(from + step + m * step == from + (m + 1) * step) by (nonlinear_arith);
        }
    }
}

proof fn lemma_head_after(c: LinkCfg, w: Seq<u8>, h: Heads, from: int, to: int, step: int, slot: int)
    requires
        c.fits(w, h),
        from >= 0,
        step >= 1,
        0 <= slot < h.t.len(),
    ensures
        ({
            let z = link_range(c, w, h, from, to, step);
            z.t[slot] == h.t[slot] || exists|m: int|
                0 <= m && from + m * step < to && z.t[slot] == c.entry(#[trigger] (from + m * step))
        }),
    decreases
        if to > from {
            to - from
        } else {
            0
        },
{
    if from < to {
        lemma_link_as(c, w, h, from, from);
        let g = link_as(c, w, h, from, from);
        lemma_head_after(c, w, g, from + step, to, step, slot);
        let z = link_range(c, w, h, from, to, step);
        if z.t[slot] == g.t[slot] {
            if c.slot(w, from) == slot {
                assert(from + 0 * step == from);
            }
        } else {
            let m = choose|m: int|
                0 <= m && from + step + m * step < to && z.t[slot] == c.entry(#[trigger] (from + step + m * step));
            assert(from + step + m * step == from + (m + 1) * step) by (nonlinear_arith);
        }
    }
}

/// A strip of history is indexed at every third position: on the one-table row at
/// those that its table can still hold, the last `6 * 2^log`, on a chain at all.
/// Each leaves its slot to itself or to a later one.
pub proof fn lemma_strip_is_indexed(k: Keys, w: Seq<u8>, s: Store, last: int, n: int)
    requires
        k.fits(w, s),
        n >= 0,
        strip_start(k.strategy, k.hash_log, last) + n * 3 < last <= w.len(),
        k.strategy is Fast || k.strategy is Chain,
    ensures
        ({
            let from = strip_start(k.strategy, k.hash_log, last);
            let t = strip_indexed(k, w, s, last).t;
            &&& k.strategy is Chain ==> from == 0
            &&& k.strategy is Fast ==> from == if last > 6 * pow2(k.hash_log as nat) {
                last - 6 * pow2(k.hash_log as nat)
            } else {
                0
            }
            &&& exists|m: int|
                n <= m && from + m * 3 < last && t[short_slot(w, from + n * 3, k.hash_log, if k.strategy is Fast {
                    ChainHashWidth::Five
                } else {
                    k.width
                })] == entry_of(k.base + if k.strategy is Fast {
                    0
                } else {
                    k.origin as int
                } + #[trigger] (from + m * 3))
        }),
{
    let from = strip_start(k.strategy, k.hash_log, last);
    let t = strip_indexed(k, w, s, last).t;
    if k.strategy is Fast {
        lemma_range_is_indexed(s.t, w, from, last, 3, n, k.base as int, k.hash_log, ChainHashWidth::Five);
        let m = choose|m: int|
            n <= m && from + m * 3 < last && t[short_slot(w, from + n * 3, k.hash_log, ChainHashWidth::Five)] == entry_of(
                k.base as int + (#[trigger] (from + m * 3)),
            );
        assert(k.base + 0 + (from + m * 3) == k.base as int + (from + m * 3));
    } else {
        let h = Heads { t: s.t, ch: s.ch };
        crate::bits::lemma_pow2_monotone(0, 10);
        lemma2_to64();
        assert(s.ch.len() >= 1) by {
            if let Strategy::Chain(log) = k.strategy {
                crate::bits::lemma_pow2_monotone(0, log as nat);
            }
        }
        lemma_range_is_linked(k.link(), w, h, 0, last, 3, n);
        let m = choose|m: int|
            n <= m && 0 + m * 3 < last && t[k.link().slot(w, 0 + n * 3)] == k.link().entry(#[trigger] (0 + m * 3));
        assert(from + m * 3 == 0 + m * 3);
        assert(k.base + k.origin as int + (from + m * 3) == k.base + k.origin + (0 + m * 3));
    }
}

/// A dictionary on the one-table row is indexed at every third position, and each
/// leaves its slot to itself or to a later one.
pub proof fn lemma_dictionary_is_indexed(t: Seq<u32>, w: Seq<u8>, i: int, last: int, base: int, log: u32, n: int)
    requires
        1 <= log < 32,
        t.len() == slots(log),
        0 <= i,
        0 <= base,
        base + last < u32::MAX,
        n >= 0,
        i + n * 3 < last,
    ensures
        exists|m: int|
            n <= m && i + m * 3 < last && dict_fast(t, w, i, last, base, log)[short_slot(
                w,
                i + n * 3,
                log,
                ChainHashWidth::Five,
            )] == entry_of(base + (#[trigger] (i + m * 3))),
    decreases last - i,
{
    broadcast use lemma_mul_hash_range;

    let five = ChainHashWidth::Five;
    let a = put_short(t, w, i, base, log, five);
    let b = claimed(a, w, i + 1, last, base, log);
    let c = claimed(b, w, i + 2, last, base, log);
    if n > 0 {
        assert(i + 3 + (n - 1) * 3 == i + n * 3);
        lemma_dictionary_is_indexed(c, w, i + 3, last, base, log, n - 1);
        let m = choose|m: int|
            n - 1 <= m && i + 3 + m * 3 < last && dict_fast(c, w, i + 3, last, base, log)[short_slot(
                w,
                i + 3 + (n - 1) * 3,
                log,
                five,
            )] == entry_of(base + (#[trigger] (i + 3 + m * 3)));
        assert(i + 3 + m * 3 == i + (m + 1) * 3);
    } else {
        let slot = short_slot(w, i, log, five);
        assert(a[slot] == entry_of(base + i));
        assert(entry_of(base + i) != 0);
        assert(c[slot] == a[slot]);
        lemma_taken_slot(c, w, i + 3, last, base, log, slot);
        let z = dict_fast(c, w, i + 3, last, base, log);
        if z[slot] == c[slot] {
            assert(i + 0 * 3 == i);
        } else {
            let m = choose|m: int|
                0 <= m && i + 3 + m * 3 < last && z[slot] == entry_of(base + (#[trigger] (i + 3 + m * 3)));
            assert(i + 3 + m * 3 == i + (m + 1) * 3);
        }
    }
}

/// A slot that is taken goes only to a position of the grid.
proof fn lemma_taken_slot(t: Seq<u32>, w: Seq<u8>, i: int, last: int, base: int, log: u32, slot: int)
    requires
        1 <= log < 32,
        t.len() == slots(log),
        0 <= i,
        0 <= base,
        base + last < u32::MAX,
        0 <= slot < t.len(),
        t[slot] != 0,
    ensures
        ({
            let z = dict_fast(t, w, i, last, base, log);
            z[slot] == t[slot] || exists|m: int|
                0 <= m && i + m * 3 < last && z[slot] == entry_of(base + (#[trigger] (i + m * 3)))
        }),
    decreases
        if last > i {
            last - i
        } else {
            0
        },
{
    broadcast use lemma_mul_hash_range;

    if i < last {
        let a = put_short(t, w, i, base, log, ChainHashWidth::Five);
        let b = claimed(a, w, i + 1, last, base, log);
        let c = claimed(b, w, i + 2, last, base, log);
        assert(entry_of(base + i) != 0);
        assert(a[slot] != 0);
        assert(c[slot] == a[slot]);
        lemma_taken_slot(c, w, i + 3, last, base, log, slot);
        let z = dict_fast(t, w, i, last, base, log);
        if z[slot] == c[slot] {
            if short_slot(w, i, log, ChainHashWidth::Five) == slot {
                assert(i + 0 * 3 == i);
            }
        } else {
            let m = choose|m: int|
                0 <= m && i + 3 + m * 3 < last && z[slot] == entry_of(base + (#[trigger] (i + 3 + m * 3)));
            assert(i + 3 + m * 3 == i + (m + 1) * 3);
        }
    }
}

/// What skipped blocks left out is indexed before the next parse, as far back as
/// the window reaches and up to where hashes would read into the block: on the
/// one-table row every position of the gap leaves its slot to itself or to a later
/// one of the gap.
pub proof fn lemma_gap_is_caught_up(d: Drv, p: int)
    requires
        d.wf(),
        d.mode.params.strategy is Fast,
        d.mode.gap_start != 0xffff_ffff_ffff_ffff,
        p >= d.mode.gap_start,
        p >= d.place.base,
        p + d.mode.params.window >= d.place.block_start,
        p + 8 < d.place.block_start,
    ensures
        caught_up(d).mode.gap_start == 0xffff_ffff_ffff_ffff,
        exists|q: int|
            p <= q && q + 8 < d.place.block_start && caught_up(d).store.t[short_slot(
                d.win,
                p - d.place.base,
                d.mode.params.hash_log,
                ChainHashWidth::Five,
            )] == #[trigger] entry_of(q),
{
    let from = gap_index(d);
    let to = gap_limit(d);
    let n = p - d.place.base - from;
    lemma_range_is_indexed(
        d.store.t,
        d.win,
        from,
        to,
        1,
        n,
        d.place.base as int,
        d.mode.params.hash_log,
        ChainHashWidth::Five,
    );
    let t = caught_up(d).store.t;
    let m = choose|m: int|
        n <= m && from + m * 1 < to && t[short_slot(d.win, from + n * 1, d.mode.params.hash_log, ChainHashWidth::Five)]
            == entry_of(d.place.base as int + (#[trigger] (from + m * 1)));
    let q = d.place.base as int + (from + m * 1);
    assert(t[short_slot(d.win, p - d.place.base, d.mode.params.hash_log, ChainHashWidth::Five)] == entry_of(q));
}

/// A frame with a dictionary starts right behind it, with its offsets, and sees as
/// much of its end as the window holds.
pub proof fn lemma_dictionary_is_history(d: Drv, content: Seq<u8>, rep: Reps, swap: Option<SmallDictRow>, k: int)
    requires
        d.mode.params.window <= u32::MAX,
    ensures
        ({
            let w = dict_tail(content, d.mode.params.window);
            let e = with_dict(d, content, rep, swap);
            let n = if content.len() < d.mode.params.window {
                content.len() as int
            } else {
                d.mode.params.window as int
            };
            &&& w.len() == n
            &&& 0 <= k < n ==> w[k] == content[content.len() - n + k]
            &&& e.win == w
            &&& e.place.base == 0 && e.place.pos == n && e.place.block_start == n
            &&& e.carry.rep == rep && e.carry.pending == 0
        }),
{
}

/// A frame starts clean, whatever the matcher did before: without a window, at
/// position zero, with the offsets one, four and eight, nothing owed, no seed, no
/// ramp, no gap, every literal at four bits.
pub proof fn lemma_frame_starts_clean(d: Drv, level: Level)
    ensures
        ({
            let e = reset_to(d, level);
            &&& e.win.len() == 0
            &&& e.place.base == 0 && e.place.pos == 0 && e.place.block_start == 0 && e.place.block_end == 0
            &&& offsets(e.carry.rep) == seq![1int, 4, 8]
            &&& e.carry.pending == 0 && e.carry.seed == 0 && e.carry.miss == 0
            &&& e.mode.ramp.end == 0
            &&& e.mode.gap_start == 0xffff_ffff_ffff_ffff
            &&& !e.mode.dict_row && !e.mode.gate_hold && !e.mode.strip_parse
            &&& !e.mode.ldm.dead && !e.mode.ldm.checked && e.mode.ldm.quiet == 0 && e.mode.ldm.canary == 0
            &&& e.lit_lens.len() == 256 && forall|b: int| 0 <= b < 256 ==> #[trigger] e.lit_lens[b] == 4
            &&& e.st.ll_sum == 0
            &&& e.ldm.len() == 0
            &&& forall|k: int| 0 <= k < e.probe.len() ==> #[trigger] e.probe[k] == 0
        }),
{
}

/// A job that starts a frame knows the decoder's offsets; one that starts inside
/// it owes all three, and is held off the bytes before its start as deep as its
/// ramp says.
pub proof fn lemma_job_start(d: Drv, level: Level, shape: InputShape, choice: ReachChoice, arming: LdmArming, start: u64, depth: u64, cand: int)
    requires
        start + depth <= u64::MAX,
    ensures
        ({
            let e = job_prepared(d, level, shape, choice, arming, start, depth);
            &&& e.carry.pending == if start == 0 {
                0int
            } else {
                3
            }
            &&& e.mode.ramp.shallow(cand) <==> start > 0 && start - depth < cand < start
            &&& e.mode.input.shape == shape && e.mode.reach_choice == choice && e.mode.arming == arming
        }),
{
}

/// Half of a strip is enough for the faster optimal parse's tree, at most the
/// search domain for the slower: what lies further back is not indexed.
pub proof fn lemma_tree_strip(d: Drv, len: int, base: u64, k: crate::parse_opt::OptKnobs)
    requires
        d.mode.params.strategy == Strategy::Opt(k),
        len >= 0,
    ensures
        ({
            let e = tail_bound(d, len, base);
            let reach = match d.mode.params.chain_reach {
                Some(r) => r as int,
                None => d.mode.params.window as int,
            };
            let back = if k.ultra {
                reach
            } else {
                reach / 2
            };
            &&& e.store.tree.next >= d.store.tree.next
            &&& e.store.tree.next >= base + len - back
            &&& e.store.tree.next > d.store.tree.next ==> e.store.tree.next == if len > back {
                base + len - back
            } else {
                base as int
            }
        }),
{
}

/// Tables have the sizes that a row's logs call for.
pub proof fn lemma_tables_fit_row(strategy: Strategy, log: u32, s: Store)
    requires
        sized(strategy, log, s),
    ensures
        strategy is Fast || strategy is Dfast || strategy is Chain || strategy is Row ==> s.t.len() == pow2(log as nat),
        strategy matches Strategy::Dfast(l) ==> s.ch.len() == pow2(l as nat),
        strategy matches Strategy::Chain(l) ==> s.ch.len() == pow2(l as nat),
        strategy matches Strategy::Row(l) ==> l <= log ==> s.hd.len() == pow2((log - l) as nat),
        strategy matches Strategy::Opt(k) ==> s.tree.t.len() == pow2(log as nat) && s.tree.bt.len() == 2 * pow2(
            k.bt_log as nat,
        ),
{
}

} // verus!
