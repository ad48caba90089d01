//! What the scans promise beyond being right: a match that a probe finds is taken,
//! a better one at the next positions replaces it, and misses speed a scan up.

use vstd::prelude::*;
use vstd::arithmetic::power2::pow2;
use crate::bits::{lemma_log2_monotone, log2_floor};
use crate::hash::{bytes_agree, common_len, le4, lemma_common_len, lemma_common_len_skip, lemma_le4_eq, lemma_le8_eq, long_slot, short_slot, ChainHashWidth};
use crate::lazy::{final_pick, first_pick, lazy_walk, lemma_agree4, worth_storing, Pick, PickCfg};
use crate::parse_chain::{chain_caught, chain_found, chain_reps, chain_step, chain_take, miss_step, ChainCfg, ChainSt};
use crate::parse_dfast::{dfast_chain, dfast_step, dfast_take, put_both, DfastCfg, DfastSt};
use crate::parse_fast::{fast_chain, fast_step, rep_probe, FastCfg, FastSt};
use crate::parse_row::{row_reps, row_step, row_take, RowScanCfg, RowSt};
use crate::price::{lit_cost, lit_gain, offset_price, pays_flat, pays_lit};
use crate::price_laws::lemma_log2_is;
use crate::rows::row_best;
use crate::scan::{in_bounds, LdmSeq, St};
use crate::sequence::{reps_after, start_reps, wire_offset, Reps};
use crate::tables::{candidate, put_long};

verus! {

/// The history of offsets, newest first.
pub open spec fn offsets(rep: Reps) -> Seq<int> {
    seq![rep.r0 as int, rep.r1 as int, rep.r2 as int]
}

/// A frame starts with the offsets one, four and eight.
pub proof fn lemma_first_offsets()
    ensures
        offsets(start_reps()) == seq![1int, 4, 8],
{
}

/// A literal offset comes to the front of the history and pushes the oldest one
/// out. A repeated one moves to the front; after literals the names one to three
/// stand for the history as it is, without them for the second, the third, and
/// one less than the first, which is new and pushes the oldest one out.
pub proof fn lemma_offset_history(rep: Reps, of: int, ll: int)
    requires
        1 <= of <= u32::MAX,
        ll >= 0,
        of == 3 && ll == 0 ==> rep.r0 >= 1,
    ensures
        ({
            let old = offsets(rep);
            let new = offsets(reps_after(rep, of, ll));
            let d = wire_offset(rep, of, ll);
            &&& of > 3 ==> d == of - 3 && new == seq![of - 3, old[0], old[1]]
            &&& of <= 3 && ll > 0 ==> d == old[of - 1] && new == seq![d] + old.remove(of - 1)
            &&& of <= 2 && ll == 0 ==> d == old[of] && new == seq![d] + old.remove(of)
            &&& of == 3 && ll == 0 ==> d == old[0] - 1 && new == seq![d, old[0], old[1]]
            &&& new[0] == d
        }),
{
    let old = offsets(rep);
    let new = offsets(reps_after(rep, of, ll));
    let d = wire_offset(rep, of, ll);
    if of <= 3 && ll > 0 {
        assert(new =~= seq![d] + old.remove(of - 1));
    }
    if of <= 2 && ll == 0 {
        assert(new =~= seq![d] + old.remove(of));
    }
}

proof fn lemma_fast_chain_grows(c: FastCfg, w: Seq<u8>, f: FastSt, end: int)
    ensures
        fast_chain(c, w, f, end).s.seqs.len() >= f.s.seqs.len(),
    decreases w.len() - f.s.anchor,
{
    let p = f.s.anchor;
    let q = p - f.s.rep.r1;
    let n = common_len(w, p, q);
    if p + 4 <= end && q >= 0 && !c.ramp.shallow(c.base + q) && le4(w, q) == le4(w, p) && 4 <= n <= w.len() - p {
        let g = crate::parse_fast::fast_emit(c, w, f.t, crate::scan::emit_seq(f.s, w, p, n, 1), p, n);
        lemma_fast_chain_grows(c, w, g, end);
    }
}

/// The single-probe scan takes a match of six bytes that its table offers at the
/// probed position or at the next, or something else in its place, where it does
/// not price matches.
pub proof fn lemma_fast_takes_matches(c: FastCfg, w: Seq<u8>, lens: Seq<u8>, f: FastSt, end: int, i: int, q: int)
    requires
        in_bounds(w, f.s),
        f.s.pos + 8 <= end <= w.len(),
        i == f.s.pos || i == f.s.pos + 1 && end - f.s.pos > 8,
        q == candidate(f.t[short_slot(w, i, c.log, ChainHashWidth::Five)], c.base + i, i, c.reach as int),
        0 <= q < i,
        bytes_agree(w, i, q, 6),
        !c.ramp.shallow(c.base + q),
        !c.dense,
    ensures
        fast_step(c, w, lens, f, end).s.seqs.len() > f.s.seqs.len(),
{
    lemma_six_agree(w, i, q);
    lemma_step_grows(c, w, lens, f, end);
}

proof fn lemma_six_agree(w: Seq<u8>, i: int, q: int)
    requires
        bytes_agree(w, i, q, 6),
        i + 6 <= w.len(),
    ensures
        le4(w, q) == le4(w, i),
        common_len(w, i, q) >= 6,
{
    lemma_le4_eq(w, q, i);
    assert forall|k: int| 0 <= k < 4 implies #[trigger] w[q + k] == w[i + k] by {
        assert(w[i + k] == w[q + k]);
    }
    lemma_common_len_skip(w, i, q, 6);
    lemma_common_len(w, i + 6, q + 6);
}

/// A step that finds any match grows the sequences.
proof fn lemma_step_grows(c: FastCfg, w: Seq<u8>, lens: Seq<u8>, f: FastSt, end: int)
    ensures
        forall|t: Seq<u32>, s: St, m: (int, int, int)|
            (#[trigger] crate::parse_fast::fast_take(c, w, t, s, m, end)).s.seqs.len() > s.seqs.len(),
        forall|t: Seq<u32>, s: St, m: (int, int, int)|
            (#[trigger] crate::parse_fast::fast_take_rep(c, w, t, s, m, end)).s.seqs.len() > s.seqs.len(),
{
    assert forall|t: Seq<u32>, s: St, m: (int, int, int)|
        (#[trigger] crate::parse_fast::fast_take(c, w, t, s, m, end)).s.seqs.len() > s.seqs.len() by {
        let e = crate::parse_fast::fast_emit(c, w, t, crate::scan::emit_far(s, w, m.0, m.1, m.2), m.0, m.2);
        lemma_fast_chain_grows(c, w, e, end);
    }
    assert forall|t: Seq<u32>, s: St, m: (int, int, int)|
        (#[trigger] crate::parse_fast::fast_take_rep(c, w, t, s, m, end)).s.seqs.len() > s.seqs.len() by {
        let e = crate::parse_fast::fast_emit(c, w, t, crate::scan::emit_seq(s, w, m.0, m.2, 1), m.0, m.2);
        lemma_fast_chain_grows(c, w, e, end);
    }
}

/// The single-probe scan takes a match by the newest offset that starts where a
/// literal lies before it.
pub proof fn lemma_fast_takes_repeats(c: FastCfg, w: Seq<u8>, lens: Seq<u8>, f: FastSt, end: int)
    requires
        in_bounds(w, f.s),
        f.s.pos + 8 <= end <= w.len(),
        f.s.pending == 0,
        ({
            let p = if f.s.pos == f.s.anchor {
                f.s.pos + 1
            } else {
                f.s.pos
            };
            &&& f.s.rep.r0 <= p
            &&& bytes_agree(w, p, p - f.s.rep.r0, 4)
            &&& !c.ramp.shallow(c.base + p - f.s.rep.r0)
        }),
    ensures
        fast_step(c, w, lens, f, end).s.seqs.len() > f.s.seqs.len(),
{
    let p = rep_probe(f.s);
    let q = p - f.s.rep.r0;
    lemma_le4_eq(w, q, p);
    assert forall|k: int| 0 <= k < 4 implies #[trigger] w[q + k] == w[p + k] by {
        assert(w[p + k] == w[q + k]);
    }
    lemma_agree4(w, p, q);
    lemma_step_grows(c, w, lens, f, end);
}

/// While it misses, the single-probe scan steps one byte further for every four
/// bytes missed, up to 256; on small wide inputs for every 128. The dense scan
/// doubles its step after three.
pub proof fn lemma_fast_steps(c: FastCfg, miss: int)
    requires
        miss >= 0,
    ensures
        ({
            let n = if c.dense && miss > 3 {
                c.step(miss) / 2
            } else {
                c.step(miss)
            };
            let unit = if c.small_wide {
                128int
            } else {
                4
            };
            &&& 1 <= n <= 256
            &&& n < 256 ==> unit * (n - 1) <= miss < unit * n
            &&& n == 256 ==> miss >= unit * 255
            &&& c.dense && miss > 3 ==> c.step(miss) == 2 * n
        }),
{
}

/// While they miss, the other scans step one byte further for every four misses,
/// up to 256; dictionary rows for every 256 pending literals.
pub proof fn lemma_miss_steps(literals: int, miss: int)
    requires
        miss >= 0,
        literals >= 0,
    ensures
        ({
            let n = miss_step(false, literals, miss);
            &&& 1 <= n <= 256
            &&& n < 256 ==> 4 * (n - 1) <= miss < 4 * n
            &&& n == 256 ==> miss >= 4 * 255
        }),
        ({
            let n = miss_step(true, literals, miss);
            256 * (n - 1) <= literals < 256 * n
        }),
{
}

proof fn lemma_dfast_chain_grows(c: DfastCfg, w: Seq<u8>, f: DfastSt)
    ensures
        dfast_chain(c, w, f).s.seqs.len() >= f.s.seqs.len(),
    decreases w.len() - f.s.anchor,
{
    let p = f.s.anchor;
    let q = p - f.s.rep.r1;
    let n = common_len(w, p, q);
    if p <= crate::tables::insert_limit(w) && q >= 0 && !c.ramp.shallow(c.base + q) && le4(w, q) == le4(w, p) && 4 <= n
        <= w.len() - p {
        lemma_dfast_chain_grows(c, w, DfastSt { s: crate::scan::emit_seq(f.s, w, p, n, 1), ..put_both(c, w, f, p) });
    }
}

proof fn lemma_dfast_take_grows(c: DfastCfg, w: Seq<u8>, f: DfastSt, m: (int, int, int), ahead: Option<int>)
    ensures
        dfast_take(c, w, f, m, ahead).s.seqs.len() > f.s.seqs.len(),
{
    let g = crate::parse_dfast::dfast_anchors(
        c,
        w,
        DfastSt { s: crate::scan::emit_far(f.s, w, m.0, m.1, m.2), ..f },
        f.s.pos,
        m.0 + m.2,
    );
    lemma_dfast_chain_grows(c, w, g);
    if let Some(i) = ahead {
        lemma_dfast_chain_grows(c, w, DfastSt { long: put_long(g.long, w, i, c.base as int, c.long_log), ..g });
    }
}

/// The two-table scan takes a match that its long table offers with eight bytes or
/// its short one with four, or something better in its place, where no ramp
/// forbids reads.
pub proof fn lemma_dfast_takes_matches(c: DfastCfg, w: Seq<u8>, f: DfastSt, q: int)
    requires
        in_bounds(w, f.s),
        f.s.pos + 9 <= w.len(),
        c.ramp.end == 0,
        0 <= q < f.s.pos,
        ({
            let i = f.s.pos;
            ||| q == candidate(f.long[long_slot(w, i, c.long_log)], c.base + i, i, c.reach as int) && bytes_agree(w, i, q, 8)
            ||| q == candidate(f.small[short_slot(w, i, c.small_log, c.width)], c.base + i, i, c.reach as int)
                && bytes_agree(w, i, q, 4)
        }),
    ensures
        dfast_step(c, w, f).s.seqs.len() > f.s.seqs.len(),
{
    let i = f.s.pos;
    let s = f.s;
    lemma_le8_eq(w, q, i);
    lemma_le4_eq(w, q, i);
    if bytes_agree(w, i, q, 8) {
        assert forall|k: int| 0 <= k < 8 implies #[trigger] w[q + k] == w[i + k] by {
            assert(w[i + k] == w[q + k]);
        }
    }
    if bytes_agree(w, i, q, 4) {
        assert forall|k: int| 0 <= k < 4 implies #[trigger] w[q + k] == w[i + k] by {
            assert(w[i + k] == w[q + k]);
        }
    }
    lemma_common_len(w, i, q);
    let g = put_both(c, w, f, i);
    assert forall|z: DfastSt, m: (int, int, int), a: Option<int>|
        (#[trigger] dfast_take(c, w, z, m, a)).s.seqs.len() > z.s.seqs.len() by {
        lemma_dfast_take_grows(c, w, z, m, a);
    }
    if crate::parse_dfast::dfast_rep(c, w, s) {
        let p = i + 1;
        let n = common_len(w, p, p - s.rep.r0);
        let z = DfastSt { s: crate::scan::emit_seq(s, w, p, n, 1), ..g };
        lemma_dfast_chain_grows(c, w, crate::parse_dfast::dfast_anchors(c, w, z, i, p + n));
    }
    lemma_common_len(w, f.next, candidate(g.long[long_slot(w, f.next, c.long_log)], c.base + f.next, f.next, c.reach as int));
}

proof fn lemma_chain_reps_grows(c: ChainCfg, w: Seq<u8>, f: ChainSt)
    ensures
        chain_reps(c, w, f).s.seqs.len() >= f.s.seqs.len(),
    decreases w.len() - f.s.anchor,
{
    let p = f.s.anchor;
    let q = p - f.s.rep.r1;
    let n = common_len(w, p, q);
    if p + 4 <= w.len() && q >= 0 && !c.pick.ramp.shallow(c.link.base + q) && le4(w, q) == le4(w, p) && 4 <= n <= w.len()
        - p {
        lemma_chain_reps_grows(
            c,
            w,
            ChainSt {
                h: crate::chains::link_covered(c.link, w, f.h, p, n, c.fill),
                s: crate::scan::emit_seq(f.s, w, p, n, 1),
                ..f
            },
        );
    }
}

proof fn lemma_chain_take_grows(c: ChainCfg, w: Seq<u8>, x: ChainSt, k: Pick)
    ensures
        chain_take(c, w, x, k).s.seqs.len() > x.s.seqs.len(),
{
    let m = crate::lazy::pick_match(c.pick, w, x.s, k);
    let f = chain_caught(c, w, x, m.0);
    let e = if k.rep {
        crate::scan::emit_seq(f.s, w, m.0, m.2, 1)
    } else {
        crate::scan::emit_far(f.s, w, m.0, m.1, m.2)
    };
    let g = ChainSt {
        h: crate::chains::link_match(c.link, w, f.h, m.0, m.2, c.fill),
        s: if k.seed {
            crate::scan::count_seed(e)
        } else {
            e
        },
        ..f
    };
    lemma_chain_reps_grows(c, w, g);
}

/// A first choice is worth storing if the search's match is long enough and pays,
/// whatever a repeated offset puts in its place.
proof fn lemma_found_is_stored(c: PickCfg, w: Seq<u8>, lens: Seq<u8>, s: St, b: (int, int))
    requires
        s.seed == 0,
        s.pos + 8 <= w.len(),
        b.0 >= c.min_match,
        c.dict_row || pays_lit(w, s.pos, b.0, s.pos - b.1, lens),
    ensures
        worth_storing(c, w, lens, s.pos, first_pick(c, w, s, b)),
{
    let p = if s.pos == s.anchor {
        s.pos + 1
    } else {
        s.pos
    };
    let q = p - s.rep.r0;
    if le4(w, q) == le4(w, p) {
        lemma_agree4(w, p, q);
    }
}

/// The chain scan takes a match that its search finds, if it is long enough and
/// pays for its offset, or something else in its place.
pub proof fn lemma_chain_takes_matches(c: ChainCfg, w: Seq<u8>, lens: Seq<u8>, ldm: Seq<LdmSeq>, f: ChainSt)
    requires
        f.s.seed == 0,
        f.s.pos + 8 <= w.len(),
        ({
            let b = chain_found(c, w, ldm, chain_caught(c, w, f, f.s.pos));
            &&& b.0 >= c.pick.min_match
            &&& c.pick.dict_row || pays_lit(w, f.s.pos, b.0, f.s.pos - b.1, lens)
        }),
    ensures
        chain_step(c, w, lens, ldm, f).s.seqs.len() > f.s.seqs.len(),
{
    let g = chain_caught(c, w, f, f.s.pos);
    assert(g.s == f.s);
    lemma_found_is_stored(c.pick, w, lens, g.s, chain_found(c, w, ldm, g));
    assert forall|x: ChainSt, k: Pick| (#[trigger] chain_take(c, w, x, k)).s.seqs.len() > x.s.seqs.len() by {
        lemma_chain_take_grows(c, w, x, k);
    }
}

proof fn lemma_row_reps_grows(c: RowScanCfg, w: Seq<u8>, f: RowSt)
    ensures
        row_reps(c, w, f).s.seqs.len() >= f.s.seqs.len(),
    decreases w.len() - f.s.anchor,
{
    let p = f.s.anchor;
    let q = p - f.s.rep.r1;
    let n = common_len(w, p, q);
    if p + 4 <= w.len() && q >= 0 && !c.pick.ramp.shallow(c.row.base + q) && le4(w, q) == le4(w, p) && 4 <= n <= w.len()
        - p {
        let r = if p + 8 <= w.len() {
            crate::rows::row_put(c.row, w, f.r, p, p)
        } else {
            f.r
        };
        lemma_row_reps_grows(
            c,
            w,
            RowSt { r: crate::rows::row_covered(c.row, w, r, p, n), s: crate::scan::emit_seq(f.s, w, p, n, 1) },
        );
    }
}

proof fn lemma_row_take_grows(c: RowScanCfg, w: Seq<u8>, f: RowSt, k: Pick)
    ensures
        row_take(c, w, f, k).s.seqs.len() > f.s.seqs.len(),
{
    let m = crate::lazy::pick_match(c.pick, w, f.s, k);
    let e = if k.rep {
        crate::scan::emit_seq(f.s, w, m.0, m.2, 1)
    } else {
        crate::scan::emit_far(f.s, w, m.0, m.1, m.2)
    };
    let g = RowSt {
        r: crate::rows::row_covered(c.row, w, f.r, m.0, m.2),
        s: if k.seed {
            crate::scan::count_seed(e)
        } else {
            e
        },
    };
    lemma_row_reps_grows(c, w, g);
}

/// The row scan takes a match that its search finds, if it is long enough and pays
/// for its offset, or something else in its place.
pub proof fn lemma_row_takes_matches(c: RowScanCfg, w: Seq<u8>, lens: Seq<u8>, f: RowSt)
    requires
        f.s.seed == 0,
        f.s.pos + 8 <= w.len(),
        row_best(c.row, w, f.r, f.s.pos).0 >= c.pick.min_match,
        c.pick.dict_row || pays_lit(
            w,
            f.s.pos,
            row_best(c.row, w, f.r, f.s.pos).0,
            f.s.pos - row_best(c.row, w, f.r, f.s.pos).1,
            lens,
        ),
    ensures
        row_step(c, w, lens, f).s.seqs.len() > f.s.seqs.len(),
{
    lemma_found_is_stored(c.pick, w, lens, f.s, row_best(c.row, w, f.r, f.s.pos));
    assert forall|x: RowSt, k: Pick| (#[trigger] row_take(c, w, x, k)).s.seqs.len() > x.s.seqs.len() by {
        lemma_row_take_grows(c, w, x, k);
    }
}

/// What a match saves less what its offset costs.
pub open spec fn net_gain(w: Seq<u8>, lens: Seq<u8>, p: int, len: int, dist: int) -> int {
    lit_gain(w, p, len, lens) - offset_price(dist)
}

proof fn lemma_walk_moves_on(c: PickCfg, w: Seq<u8>, lens: Seq<u8>, s: St, find: spec_fn(int) -> (int, int), at: int, k: Pick, second: bool)
    ensures
        ({
            let r = lazy_walk(c, w, lens, s, find, at, k, second);
            r == k || r.pos > at
        }),
    decreases w.len() - at,
{
    let p = at + 1;
    if !(second && c.lazy < 2 || w.len() - p < 8) {
        let q = p - s.rep.r0;
        let y = Pick { pos: p, len: common_len(w, p, q), cand: q, rep: true, seed: false };
        let z = Pick { pos: p, len: find(p).0, cand: find(p).1, rep: false, seed: false };
        lemma_walk_moves_on(c, w, lens, s, find, p, y, false);
        lemma_walk_moves_on(c, w, lens, s, find, p, z, false);
        lemma_walk_moves_on(c, w, lens, s, find, p, k, true);
    }
}

/// A deferring scan gives up its first choice for a match at the next position
/// that is long enough and saves more than four bits more, offsets counted; if it
/// defers twice, also for one a position further that saves more than seven bits
/// more. It keeps a choice of 64 bytes, and does not defer at all where it is told
/// not to.
pub proof fn lemma_better_match_wins(c: PickCfg, w: Seq<u8>, lens: Seq<u8>, s: St, find: spec_fn(int) -> (int, int), k: Pick)
    requires
        !k.rep,
    ensures
        ({
            let r = final_pick(c, w, lens, s, find, k);
            let here = net_gain(w, lens, k.pos, k.len, k.pos - k.cand);
            let (a, b) = (k.pos + 1, k.pos + 2);
            &&& c.lazy == 0 || k.len >= 64 ==> r == k
            &&& c.lazy >= 1 && k.len < 64 && a + 8 <= w.len() && find(a).0 >= c.min_match && net_gain(
                w,
                lens,
                a,
                find(a).0,
                a - find(a).1,
            ) > here + 4 ==> r.pos >= a
            &&& c.lazy >= 2 && k.len < 64 && b + 8 <= w.len() && find(b).0 >= c.min_match && net_gain(
                w,
                lens,
                b,
                find(b).0,
                b - find(b).1,
            ) > here + 7 ==> r.pos >= a
            &&& c.lazy >= 1 && k.len < 64 && (s.pending != 0 || s.rep.r0 > b) && !(find(a).0 >= c.min_match && net_gain(
                w,
                lens,
                a,
                find(a).0,
                a - find(a).1,
            ) > here + 4) && !(find(b).0 >= c.min_match && net_gain(w, lens, b, find(b).0, b - find(b).1) > here + 7)
                ==> r == k
        }),
{
    let (a, b) = (k.pos + 1, k.pos + 2);
    if c.lazy >= 1 && k.len < 64 && a + 8 <= w.len() {
        let q = a - s.rep.r0;
        let y = Pick { pos: a, len: common_len(w, a, q), cand: q, rep: true, seed: false };
        let z = Pick { pos: a, len: find(a).0, cand: find(a).1, rep: false, seed: false };
        lemma_walk_moves_on(c, w, lens, s, find, a, y, false);
        lemma_walk_moves_on(c, w, lens, s, find, a, z, false);
        if b + 8 <= w.len() {
            let q = b - s.rep.r0;
            let y = Pick { pos: b, len: common_len(w, b, q), cand: q, rep: true, seed: false };
            let z = Pick { pos: b, len: find(b).0, cand: find(b).1, rep: false, seed: false };
            lemma_walk_moves_on(c, w, lens, s, find, b, y, false);
            lemma_walk_moves_on(c, w, lens, s, find, b, z, false);
        }
        let _ = lazy_walk(c, w, lens, s, find, a, k, true);
    }
}

/// An offset costs the exponent of its distance plus one.
pub proof fn lemma_offset_price(dist: int, k: nat)
    requires
        pow2(k) <= dist + 1 < pow2((k + 1) as nat),
    ensures
        offset_price(dist) == k,
{
    lemma_log2_is(dist + 1, k);
}

/// Where all literals cost the same, a match saves that much for every byte, six
/// bits at most, and pays for its offset if what it saves covers the offset's
/// exponent and seven bits.
pub proof fn lemma_even_literals(w: Seq<u8>, i: int, len: int, dist: int, lens: Seq<u8>, bits: u8, k: nat)
    requires
        len >= 1,
        pow2(k) <= dist < pow2((k + 1) as nat),
        lens.len() == 256,
        forall|b: int| 0 <= b < 256 ==> #[trigger] lens[b] == bits,
    ensures
        bits <= 6 ==> lit_gain(w, i, len, lens) == bits * len,
        bits > 6 ==> lit_gain(w, i, len, lens) == 6 * len,
        pays_lit(w, i, len, dist, lens) <==> bits * len >= k + 7,
        pays_flat(len, dist) <==> 4 * len >= k + 7,
{
    lemma_log2_is(dist, k);
    let n = if len < 6 {
        len
    } else {
        6
    };
    lemma_even_cost(w, i, n, lens, bits);
    let p = k + 7;
    assert((bits * n) * len >= p * n <==> bits * len >= p) by (nonlinear_arith)
        requires
            n >= 1,
    ;
    assert(lens[w[i] as int] == bits && lens[w[i + 1] as int] == bits && lens[w[i + 2] as int] == bits && lens[w[i + 3] as int]
        == bits);
    let m = if bits < 6 {
        bits as int
    } else {
        6
    };
    let all = m + m + m + m;
    assert(all * len == 4 * (m * len)) by (nonlinear_arith)
        requires
            all == m + m + m + m,
    ;
}

proof fn lemma_even_cost(w: Seq<u8>, i: int, n: int, lens: Seq<u8>, bits: u8)
    requires
        n >= 0,
        forall|b: int| 0 <= b < 256 ==> #[trigger] lens[b] == bits,
    ensures
        lit_cost(w, i, n, lens) == bits * n,
    decreases n,
{
    if n > 0 {
        lemma_even_cost(w, i, n - 1, lens, bits);
        assert(lens[w[i + n - 1] as int] == bits);
        assert(bits * (n - 1) + bits == bits * n) by (nonlinear_arith);
    } else {
        assert(bits * n == 0) by (nonlinear_arith)
            requires
                n == 0,
        ;
    }
}

/// Dearer literals never make a match pay less, nor does a nearer source.
pub proof fn lemma_pays_more(w: Seq<u8>, i: int, ml: int, near: int, far: int, cheap: Seq<u8>, dear: Seq<u8>)
    requires
        ml >= 1,
        1 <= near <= far,
        forall|b: int| 0 <= b < 256 ==> #[trigger] cheap[b] <= dear[b],
        pays_lit(w, i, ml, far, cheap),
    ensures
        pays_lit(w, i, ml, near, dear),
{
    let n = if ml < 6 {
        ml
    } else {
        6
    };
    lemma_cost_grows(w, i, n, cheap, dear);
    lemma_log2_monotone(near, far);
    let (a, b) = (lit_cost(w, i, n, cheap), lit_cost(w, i, n, dear));
    let (p, q) = (log2_floor(near) + 7, log2_floor(far) + 7);
    assert(b * ml >= p * n) by (nonlinear_arith)
        requires
            a * ml >= q * n,
            b >= a,
            q >= p,
            ml >= 1,
            n >= 1,
    ;
}

proof fn lemma_cost_grows(w: Seq<u8>, i: int, n: int, cheap: Seq<u8>, dear: Seq<u8>)
    requires
        forall|b: int| 0 <= b < 256 ==> #[trigger] cheap[b] <= dear[b],
    ensures
        lit_cost(w, i, n, cheap) <= lit_cost(w, i, n, dear),
    decreases n,
{
    if n > 0 {
        lemma_cost_grows(w, i, n - 1, cheap, dear);
        assert(cheap[w[i + n - 1] as int] <= dear[w[i + n - 1] as int]);
    }
}

} // verus!
