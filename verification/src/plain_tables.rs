//! The tables of the rows with one table or two hold nothing above what was scanned.

use vstd::prelude::*;
use crate::chains::{lemma_link_as, link_as, link_range, Heads, LinkCfg};
use crate::driver::{later, Drv, Place};
use crate::driver_blocks::{
    alphabet_gated, block_parsed, caught_up, first_indexed, gap_index, gap_limit, gated, generated, gives_up, left_out, lemma_prepared, lemma_settled,
    sampled, settled, skipped,
};
use crate::driver_fill::{filled, swept, FillGrid};
use crate::driver_scan::{begin, block_waits, dfast_cfg, fast_cfg, lemma_begin, scan_ready, scanned};
use crate::frame::{costed, handled, lemma_costed, lemma_offered, lemma_sampled_ready, parses, screen_handled, BlockUse};
use crate::gates::{CoveredFill, RampGate};
use crate::hash::{common_len, le4, lemma_common_len, lemma_mul_hash_range, long_slot, short_slot, slots, ChainHashWidth, HASH_READ, MIN_MATCH};
use crate::params::Strategy;
use crate::parse_dfast::{at_job_start, dfast_anchors, dfast_chain, dfast_from, dfast_inv, dfast_long, dfast_rep, dfast_restarted, dfast_run, dfast_scan, dfast_seed, dfast_segments, dfast_short, dfast_step, dfast_take, far_end, lemma_dfast_far, lemma_dfast_found, lemma_dfast_gap, lemma_dfast_run, lemma_dfast_step, put_both, DfastCfg, DfastSt};
use crate::parse_fast::{fast_chain, fast_emit, fast_hash, fast_inv, fast_rep, fast_run, fast_seed, fast_segments, fast_step, fast_take, fast_take_rep, ldm_fit, ldm_match, ldm_true, lemma_fast_found, lemma_fast_run, lemma_fast_step, lemma_fast_take, lemma_ldm_match, lemma_skip_covered, rep_agrees, rep_probe, segment_end, skip_covered, FastCfg, FastSt};
use crate::reuse_chain::{heads_of, marked};
use crate::scan::{count_seed, emit_far, emit_seq, spend_seed, LdmSeq, Peer, St, MAX_BLOCK_SIZE};
use crate::store::{claimed, claimed8, dict_fast, dict_long, indexed, put_long_range, strip_start};
use crate::tables::{covered, entry_of, insert_limit, lemma_covered_len, put_long, put_range, put_short, WIN_MAX};

verus! {

/// No entry of a table is larger than `top`.
pub open spec fn entries_below(t: Seq<u32>, top: int) -> bool {
    forall|s: int| 0 <= s < t.len() ==> #[trigger] t[s] <= top
}

proof fn lemma_put_below(t: Seq<u32>, k: int, abs: int, top: int)
    requires
        entries_below(t, top),
        0 <= k < t.len(),
        0 <= abs < top,
    ensures
        entries_below(t.update(k, entry_of(abs)), top),
        t.update(k, entry_of(abs)).len() == t.len(),
{
    assert(entry_of(abs) <= abs + 1);
}

proof fn lemma_range_below(t: Seq<u32>, w: Seq<u8>, from: int, to: int, step: int, ebase: int, log: u32, width: ChainHashWidth, top: int)
    requires
        1 <= log < 64,
        t.len() == slots(log),
        entries_below(t, top),
        0 <= ebase + from,
        from < to ==> ebase + to <= top,
    ensures
        entries_below(put_range(t, w, from, to, step, ebase, log, width), top),
    decreases
        if to > from {
            to - from
        } else {
            0
        },
{
    broadcast use lemma_mul_hash_range;

    if from < to && step > 0 {
        lemma_put_below(t, short_slot(w, from, log, width), ebase + from, top);
        lemma_range_below(put_short(t, w, from, ebase, log, width), w, from + step, to, step, ebase, log, width, top);
    }
}

proof fn lemma_long_range_below(t: Seq<u32>, w: Seq<u8>, from: int, to: int, step: int, ebase: int, log: u32, top: int)
    requires
        1 <= log < 64,
        t.len() == slots(log),
        entries_below(t, top),
        0 <= ebase + from,
        from < to ==> ebase + to <= top,
    ensures
        entries_below(put_long_range(t, w, from, to, step, ebase, log), top),
    decreases
        if to > from {
            to - from
        } else {
            0
        },
{
    broadcast use lemma_mul_hash_range;

    if from < to && step > 0 {
        lemma_put_below(t, long_slot(w, from, log), ebase + from, top);
        lemma_long_range_below(put_long(t, w, from, ebase, log), w, from + step, to, step, ebase, log, top);
    }
}

proof fn lemma_covered_below(t: Seq<u32>, w: Seq<u8>, start: int, ml: int, ebase: int, log: u32, fill: CoveredFill, top: int)
    requires
        1 <= log < 64,
        t.len() == slots(log),
        entries_below(t, top),
        0 <= start,
        0 <= ebase,
        ebase + w.len() <= top,
    ensures
        entries_below(covered(t, w, start, ml, insert_limit(w), ebase, log, fill), top),
{
    broadcast use lemma_mul_hash_range;

    let limit = insert_limit(w);
    let end = if start + ml < limit {
        start + ml
    } else {
        limit
    };
    let five = ChainHashWidth::Five;
    lemma_range_below(t, w, start, end, 1, ebase, log, five, top);
    lemma_range_below(t, w, start, end, 2, ebase, log, five, top);
    if ml > 16 && start + ml - 2 <= limit {
        lemma_put_below(t, short_slot(w, start + 2, log, five), ebase + start + 2, top);
        let t1 = put_short(t, w, start + 2, ebase, log, five);
        assert(ebase + (start + 2) == ebase + start + 2);
        lemma_put_below(t1, short_slot(w, start + ml - 2, log, five), ebase + (start + ml - 2), top);
    }
}

/// A table is sized for its scan, and all its entries and all positions of the window lie
/// below `top`.
spec fn fast_below(c: FastCfg, w: Seq<u8>, t: Seq<u32>, top: int) -> bool {
    &&& 1 <= c.log < 64
    &&& t.len() == slots(c.log)
    &&& entries_below(t, top)
    &&& c.base + w.len() <= top
}

proof fn lemma_fast_chain_below(c: FastCfg, w: Seq<u8>, f: FastSt, end: int, top: int)
    requires
        fast_below(c, w, f.t, top),
        0 <= f.s.anchor,
    ensures
        fast_below(c, w, fast_chain(c, w, f, end).t, top),
    decreases w.len() - f.s.anchor,
{
    let p = f.s.anchor;
    let q = p - f.s.rep.r1;
    let n = common_len(w, p, q);
    if p + MIN_MATCH <= end && q >= 0 && !c.ramp.shallow(c.base + q) && le4(w, q) == le4(w, p)
        && MIN_MATCH <= n <= w.len() - p {
        lemma_covered_len(f.t, w, p, n, insert_limit(w), c.base as int, c.log, c.fill);
        lemma_covered_below(f.t, w, p, n, c.base as int, c.log, c.fill, top);
        lemma_fast_chain_below(c, w, fast_emit(c, w, f.t, emit_seq(f.s, w, p, n, 1), p, n), end, top);
    }
}

proof fn lemma_fast_take_below(c: FastCfg, w: Seq<u8>, t: Seq<u32>, s: St, m: (int, int, int), end: int, top: int)
    requires
        fast_below(c, w, t, top),
        0 <= m.0,
        0 <= m.2,
    ensures
        fast_below(c, w, fast_take(c, w, t, s, m, end).t, top),
        fast_below(c, w, fast_take_rep(c, w, t, s, m, end).t, top),
{
    lemma_covered_len(t, w, m.0, m.2, insert_limit(w), c.base as int, c.log, c.fill);
    lemma_covered_below(t, w, m.0, m.2, c.base as int, c.log, c.fill, top);
    lemma_fast_chain_below(c, w, fast_emit(c, w, t, emit_far(s, w, m.0, m.1, m.2), m.0, m.2), end, top);
    lemma_fast_chain_below(c, w, fast_emit(c, w, t, emit_seq(s, w, m.0, m.2, 1), m.0, m.2), end, top);
}

proof fn lemma_fast_step_below(c: FastCfg, w: Seq<u8>, lens: Seq<u8>, d: Peer, f: FastSt, end: int, top: int)
    requires
        fast_inv(c, w, d, f),
        f.s.pos + HASH_READ <= end <= w.len(),
        fast_below(c, w, f.t, top),
    ensures
        fast_below(c, w, fast_step(c, w, lens, f, end).t, top),
{
    broadcast use lemma_mul_hash_range;

    let s = f.s;
    let i0 = s.pos;
    let pair = end - i0 > HASH_READ;
    let i1 = if pair {
        i0 + 1
    } else {
        i0
    };
    let five = ChainHashWidth::Five;
    let e0 = f.t[short_slot(w, i0, c.log, five)];
    let e1 = f.t[short_slot(w, i1, c.log, five)];
    let t1 = put_short(f.t, w, i0, c.base as int, c.log, five);
    let t = if pair {
        put_short(t1, w, i1, c.base as int, c.log, five)
    } else {
        t1
    };
    lemma_put_below(f.t, short_slot(w, i0, c.log, five), c.base + i0, top);
    lemma_put_below(t1, short_slot(w, i1, c.log, five), c.base + i1, top);
    assert(fast_below(c, w, t, top));
    let p = rep_probe(s);
    lemma_fast_found(c, w, lens, s, e0, i0, end);
    lemma_fast_found(c, w, lens, s, e0, p, end);
    if rep_agrees(w, s, p) && fast_rep(c, w, s, p, end) is Some {
        lemma_fast_take_below(c, w, t, s, fast_rep(c, w, s, p, end)->0, end, top);
    } else if fast_seed(c, w, s, end) is Some {
        lemma_fast_take_below(c, w, t, count_seed(s), fast_seed(c, w, s, end)->0, end, top);
    } else {
        let z = spend_seed(s);
        lemma_fast_found(c, w, lens, z, e0, i0, end);
        lemma_fast_found(c, w, lens, z, e1, i1, end);
        if fast_hash(c, w, lens, z, e0, i0, end) is Some {
            lemma_fast_take_below(c, w, t, z, fast_hash(c, w, lens, z, e0, i0, end)->0, end, top);
        } else {
            if fast_hash(c, w, lens, z, e1, i1, end) is Some {
                lemma_fast_take_below(c, w, t, z, fast_hash(c, w, lens, z, e1, i1, end)->0, end, top);
            }
            if pair && rep_agrees(w, z, i1) && fast_rep(c, w, z, i1, end) is Some {
                lemma_fast_take_below(c, w, t, z, fast_rep(c, w, z, i1, end)->0, end, top);
            }
        }
    }
}

proof fn lemma_fast_run_below(c: FastCfg, w: Seq<u8>, lens: Seq<u8>, d: Peer, f: FastSt, end: int, top: int)
    requires
        fast_inv(c, w, d, f),
        end <= w.len(),
        fast_below(c, w, f.t, top),
    ensures
        fast_below(c, w, fast_run(c, w, lens, f, end).t, top),
    decreases
        if end > f.s.pos {
            end - f.s.pos
        } else {
            0
        },
{
    if end - f.s.pos >= HASH_READ {
        lemma_fast_step(c, w, lens, d, f, end);
        lemma_fast_step_below(c, w, lens, d, f, end, top);
        lemma_fast_run_below(c, w, lens, d, fast_step(c, w, lens, f, end), end, top);
    }
}

proof fn lemma_fast_segments_below(
    c: FastCfg,
    w: Seq<u8>,
    lens: Seq<u8>,
    d: Peer,
    ldm: Seq<LdmSeq>,
    i: int,
    f: FastSt,
    won: bool,
    top: int,
)
    requires
        fast_inv(c, w, d, f),
        f.s.pos <= w.len() + 1024,
        ldm_fit(c.base as int, c.ramp, w, d, ldm),
        0 <= i <= ldm.len(),
        fast_below(c, w, f.t, top),
    ensures
        fast_below(c, w, fast_segments(c, w, lens, ldm, i, f, won).0.t, top),
    decreases ldm.len() - i,
{
    let end = segment_end(c.base as int, w, ldm, i);
    if i < ldm.len() {
        assert(ldm_true(w, c.base as int, ldm[i]));
    }
    lemma_fast_run(c, w, lens, d, f, end);
    lemma_fast_run_below(c, w, lens, d, f, end, top);
    let g = fast_run(c, w, lens, f, end);
    if i < ldm.len() {
        if g.s.anchor > end {
            lemma_fast_segments_below(c, w, lens, d, ldm, i + 1, g, won, top);
        } else if ldm[i].len < MIN_MATCH {
            lemma_fast_segments_below(c, w, lens, d, ldm, i + 1, FastSt { s: St { pos: end, ..g.s }, ..g }, won, top);
        } else {
            let m = ldm_match(c.base as int, c.ramp, w, g.s, ldm[i]);
            let next = segment_end(c.base as int, w, ldm, i + 1);
            lemma_ldm_match(c.base as int, c.ramp, w, g.s, ldm[i]);
            lemma_fast_take(c, w, d, g.t, g.s, m, next);
            lemma_fast_take_below(c, w, g.t, g.s, m, next, top);
            let h = fast_take(c, w, g.t, g.s, m, next);
            lemma_skip_covered(ldm, i + 1, c.base + h.s.anchor);
            lemma_fast_segments_below(c, w, lens, d, ldm, skip_covered(ldm, i + 1, c.base + h.s.anchor), h, true, top);
        }
    }
}

/// The long table is sized for its scan, and all its entries and all positions of the
/// window lie below `top`.
spec fn dfast_below(c: DfastCfg, w: Seq<u8>, f: DfastSt, top: int) -> bool {
    &&& 1 <= c.long_log < 64
    &&& f.long.len() == slots(c.long_log)
    &&& entries_below(f.long, top)
    &&& c.base + w.len() <= top
}

proof fn lemma_long_put_below(c: DfastCfg, w: Seq<u8>, t: Seq<u32>, i: int, top: int)
    requires
        1 <= c.long_log < 64,
        t.len() == slots(c.long_log),
        entries_below(t, top),
        c.base + w.len() <= top,
        0 <= i < w.len(),
    ensures
        entries_below(put_long(t, w, i, c.base as int, c.long_log), top),
        put_long(t, w, i, c.base as int, c.long_log).len() == t.len(),
{
    broadcast use lemma_mul_hash_range;

    lemma_put_below(t, long_slot(w, i, c.long_log), c.base + i, top);
}

proof fn lemma_anchors_below(c: DfastCfg, w: Seq<u8>, f: DfastSt, cur: int, end: int, top: int)
    requires
        dfast_below(c, w, f, top),
        0 <= cur,
        end <= w.len(),
    ensures
        dfast_below(c, w, dfast_anchors(c, w, f, cur, end), top),
        dfast_anchors(c, w, f, cur, end).s == f.s,
{
    let limit = insert_limit(w);
    let f1 = if cur + 2 <= limit {
        put_both(c, w, f, cur + 2)
    } else {
        f
    };
    if cur + 2 <= limit {
        lemma_long_put_below(c, w, f.long, cur + 2, top);
    }
    if 2 <= end <= limit + 2 {
        lemma_long_put_below(c, w, f1.long, end - 2, top);
    }
}

proof fn lemma_dfast_chain_below(c: DfastCfg, w: Seq<u8>, f: DfastSt, top: int)
    requires
        dfast_below(c, w, f, top),
        0 <= f.s.anchor,
    ensures
        dfast_below(c, w, dfast_chain(c, w, f), top),
    decreases w.len() - f.s.anchor,
{
    let p = f.s.anchor;
    let q = p - f.s.rep.r1;
    let n = common_len(w, p, q);
    if p <= insert_limit(w) && q >= 0 && !c.ramp.shallow(c.base + q) && le4(w, q) == le4(w, p)
        && MIN_MATCH <= n <= w.len() - p {
        lemma_long_put_below(c, w, f.long, p, top);
        lemma_dfast_chain_below(c, w, DfastSt { s: emit_seq(f.s, w, p, n, 1), ..put_both(c, w, f, p) }, top);
    }
}

proof fn lemma_dfast_take_below(c: DfastCfg, w: Seq<u8>, f: DfastSt, m: (int, int, int), ahead: Option<int>, top: int)
    requires
        dfast_below(c, w, f, top),
        0 <= f.s.pos,
        0 <= m.0,
        0 <= m.2,
        m.0 + m.2 <= w.len(),
        ahead matches Some(i) ==> 0 <= i,
    ensures
        dfast_below(c, w, dfast_take(c, w, f, m, ahead), top),
{
    let e = DfastSt { s: emit_far(f.s, w, m.0, m.1, m.2), ..f };
    lemma_anchors_below(c, w, e, f.s.pos, m.0 + m.2, top);
    let g = dfast_anchors(c, w, e, f.s.pos, m.0 + m.2);
    let h = match ahead {
        Some(i) => if i < m.0 + m.2 {
            DfastSt { long: put_long(g.long, w, i, c.base as int, c.long_log), ..g }
        } else {
            g
        },
        None => g,
    };
    if let Some(i) = ahead {
        if i < m.0 + m.2 {
            lemma_long_put_below(c, w, g.long, i, top);
        }
    }
    lemma_dfast_chain_below(c, w, h, top);
}

proof fn lemma_dfast_step_below(c: DfastCfg, w: Seq<u8>, d: Peer, f: DfastSt, top: int)
    requires
        dfast_inv(c, w, d, f),
        f.next <= insert_limit(w),
        dfast_below(c, w, f, top),
    ensures
        dfast_below(c, w, dfast_step(c, w, f), top),
{
    let s = f.s;
    let i = s.pos;
    let el = f.long[long_slot(w, i, c.long_log)];
    let es = f.small[short_slot(w, i, c.small_log, c.width)];
    let g = put_both(c, w, f, i);
    lemma_long_put_below(c, w, f.long, i, top);
    let e1 = g.long[long_slot(w, f.next, c.long_log)];
    lemma_dfast_found(c, w, s, el, f.next, e1);
    let z = DfastSt { s: spend_seed(s), ..g };
    if dfast_rep(c, w, s) {
        let p = i + 1;
        let n = common_len(w, p, p - s.rep.r0);
        lemma_common_len(w, p, p - s.rep.r0);
        let e = DfastSt { s: emit_seq(s, w, p, n, 1), ..g };
        lemma_anchors_below(c, w, e, i, p + n, top);
        lemma_dfast_chain_below(c, w, dfast_anchors(c, w, e, i, p + n), top);
    } else if dfast_seed(c, w, s) is Some {
        lemma_dfast_take_below(c, w, DfastSt { s: count_seed(s), ..g }, dfast_seed(c, w, s)->0, None, top);
    } else {
        lemma_dfast_found(c, w, z.s, el, f.next, e1);
        lemma_dfast_found(c, w, z.s, es, f.next, e1);
        if dfast_long(c, w, z.s, el) is Some {
            lemma_dfast_take_below(c, w, z, dfast_long(c, w, z.s, el)->0, Some(f.next), top);
        } else if dfast_short(c, w, z.s, es, f.next, e1) is Some {
            lemma_dfast_take_below(c, w, z, dfast_short(c, w, z.s, es, f.next, e1)->0, Some(f.next), top);
        }
    }
}

proof fn lemma_dfast_run_below(c: DfastCfg, w: Seq<u8>, d: Peer, f: DfastSt, starting: bool, top: int)
    requires
        dfast_inv(c, w, d, f),
        dfast_below(c, w, f, top),
    ensures
        dfast_below(c, w, dfast_run(c, w, f, starting).0, top),
    decreases
        if w.len() > f.s.pos {
            w.len() - f.s.pos
        } else {
            0
        },
{
    if f.next <= insert_limit(w) {
        lemma_dfast_step(c, w, d, f);
        lemma_dfast_step_below(c, w, d, f, top);
        let g = dfast_step(c, w, f);
        let still = starting && (g.s.seqs.len() == f.s.seqs.len() || at_job_start(g.s));
        lemma_dfast_run_below(c, w, d, g, still, top);
    }
}

proof fn lemma_dfast_scan_below(c: DfastCfg, w: Seq<u8>, d: Peer, f: DfastSt, top: int)
    requires
        dfast_inv(c, w, d, f),
        dfast_below(c, w, f, top),
    ensures
        dfast_below(c, w, dfast_scan(c, w, f), top),
{
    lemma_dfast_run(c, w, d, f, at_job_start(f.s));
    lemma_dfast_run_below(c, w, d, f, at_job_start(f.s), top);
    let (g, starting) = dfast_run(c, w, f, at_job_start(f.s));
    if starting {
        let r = dfast_restarted(g);
        assert(crate::scan::in_step(w, d, r.s));
        lemma_dfast_run_below(c, w, d, r, false, top);
    }
}

proof fn lemma_dfast_segments_below(
    c: DfastCfg,
    w: Seq<u8>,
    d: Peer,
    ldm: Seq<LdmSeq>,
    i: int,
    f: DfastSt,
    won: bool,
    top: int,
)
    requires
        dfast_inv(c, w, d, f),
        w.len() - d.start <= MAX_BLOCK_SIZE,
        ldm_fit(c.base as int, c.ramp, w, d, ldm),
        0 <= i <= ldm.len(),
        dfast_below(c, w, f, top),
    ensures
        dfast_below(c, w, dfast_segments(c, w, ldm, i, f, won).0, top),
    decreases ldm.len() - i,
{
    let end = segment_end(c.base as int, w, ldm, i);
    if i >= ldm.len() {
        lemma_dfast_scan_below(c, w, d, f, top);
    } else {
        assert(ldm_true(w, c.base as int, ldm[i]));
        if f.s.anchor > end {
            lemma_dfast_segments_below(c, w, d, ldm, i + 1, f, won, top);
        } else {
            let v = w.take(end);
            lemma_dfast_gap(c, w, d, f, end);
            lemma_dfast_scan_below(c, v, d, f, top);
            let g = dfast_from(dfast_scan(c, v, f), end);
            if ldm[i].len < MIN_MATCH {
                lemma_dfast_segments_below(c, w, d, ldm, i + 1, g, won, top);
            } else {
                lemma_dfast_far(c, w, d, ldm, i, g);
                let m = ldm_match(c.base as int, c.ramp, w, g.s, ldm[i]);
                let u = w.take(far_end(c.base as int, w, ldm, i, m.0 + m.2));
                lemma_dfast_take_below(c, u, g, m, None, top);
                let h = dfast_take(c, u, g, m, None);
                lemma_skip_covered(ldm, i + 1, c.base + h.s.anchor);
                let j = skip_covered(ldm, i + 1, c.base + h.s.anchor);
                lemma_dfast_segments_below(c, w, d, ldm, j, h, true, top);
            }
        }
    }
}

/// A row with one table or two.
pub open spec fn plain(s: Strategy) -> bool {
    s is Fast || s is Dfast
}

proof fn lemma_indexed_below(d: Drv, from: int, to: int, top: int)
    requires
        d.wf(),
        plain(d.mode.params.strategy),
        entries_below(d.store.t, top),
        0 <= from,
        d.place.base + to <= top,
    ensures
        entries_below(indexed(d.keys(), d.win, d.store, from, to, 1).t, top),
{
    let k = d.keys();
    if d.mode.params.strategy is Fast {
        lemma_range_below(d.store.t, d.win, from, to, 1, k.base as int, k.hash_log, ChainHashWidth::Five, top);
    } else {
        lemma_long_range_below(d.store.t, d.win, from, to, 1, k.base as int, k.hash_log, top);
    }
}

proof fn lemma_scanned_below(d: Drv, top: int)
    requires
        scan_ready(d),
        plain(d.mode.params.strategy),
        entries_below(d.store.t, top),
        d.place.block_end <= top,
    ensures
        entries_below(scanned(d).d.store.t, top),
        scanned(d).d.place.pos == d.place.block_end,
        scanned(d).d.mode.strip_mark == d.mode.strip_mark,
        scanned(d).d.mode.head_origin == d.mode.head_origin,
{
    reveal(scanned);
    let w = d.cut();
    let ramp = RampGate::off_gate();
    let far = u64::MAX as int;
    let peer = Peer {
        start: d.at(),
        rep0: d.carry.rep,
        base: d.place.base as int,
        ramp,
        far,
        owed: d.carry.pending as int,
        least: 3,
        bar: 3,
        hop: far,
        same: true,
    };
    lemma_begin(d, d.carry.rep, ramp, far, 3);
    match d.mode.params.strategy {
        Strategy::Fast => {
            let f = FastSt { t: d.store.t, s: begin(d) };
            lemma_fast_segments_below(fast_cfg(d), w, d.lit_lens, peer, d.ldm, 0, f, false, top);
        },
        Strategy::Dfast(log) => {
            let s = begin(d);
            let f = DfastSt { long: d.store.t, small: d.store.ch, s, next: s.pos + 1 };
            lemma_dfast_segments_below(dfast_cfg(d, log), w, peer, d.ldm, 0, f, false, top);
        },
        _ => {},
    }
}

proof fn lemma_parsed_below(e: Drv, top: int)
    requires
        scan_ready(e),
        plain(e.mode.params.strategy),
        entries_below(e.store.t, top),
        e.place.block_end <= top,
    ensures
        entries_below(block_parsed(e).d.store.t, top),
        block_parsed(e).d.place.pos == e.place.block_end,
        block_parsed(e).d.mode.strip_mark == e.mode.strip_mark,
        block_parsed(e).d.mode.head_origin == e.mode.head_origin,
{
    lemma_settled(e);
    let s = settled(e);
    lemma_prepared(s);
    lemma_indexed_below(s, gap_index(s), gap_limit(s), top);
    let g = alphabet_gated(caught_up(s));
    assert(entries_below(g.store.t, top));
    lemma_scanned_below(g, top);
}

proof fn lemma_screened_below(e: Drv, dense: bool, found: Seq<LdmSeq>, top: int)
    requires
        block_waits(e),
        gives_up(gated(e).1, dense) || scan_ready(e),
        e.ldm.len() == 0,
        plain(e.mode.params.strategy),
        entries_below(e.store.t, top),
        e.place.block_end <= top,
    ensures
        ({
            let f = screen_handled(e, dense, found).0;
            &&& entries_below(f.store.t, top)
            &&& f.place.pos == e.place.block_end
            &&& f.mode.strip_mark == e.mode.strip_mark
            &&& f.mode.head_origin == e.mode.head_origin
        }),
{
    lemma_sampled_ready(e, dense);
    let g = sampled(e, dense);
    if !gives_up(gated(e).1, dense) {
        lemma_offered(g, found);
        lemma_parsed_below(generated(alphabet_gated(g), found), top);
    }
}

proof fn lemma_skipped_below(e: Drv, top: int)
    requires
        block_waits(e),
        plain(e.mode.params.strategy),
        entries_below(e.store.t, top),
        e.place.block_end < top,
    ensures
        written_behind(e, skipped(e), top),
        written_behind(e, left_out(e), top),
{
    let g = first_indexed(e);
    if e.at() + HASH_READ <= e.win.len() {
        lemma_indexed_below(e, e.at(), e.at() + 1, top);
    }
    assert(entries_below(g.store.t, top));
}

/// A block on such a row leaves entries below `top`, and the mark where it was.
spec fn written_behind(e: Drv, f: Drv, top: int) -> bool {
    &&& entries_below(f.store.t, top)
    &&& f.place.pos == e.place.block_end
    &&& f.mode.strip_mark == e.mode.strip_mark
    &&& f.mode.head_origin == e.mode.head_origin
}

proof fn lemma_handled_below(e: Drv, how: BlockUse, top: int)
    requires
        block_waits(e),
        parses(e, how) ==> scan_ready(e),
        e.ldm.len() == 0,
        plain(e.mode.params.strategy),
        entries_below(e.store.t, top),
        e.place.block_end < top,
    ensures
        written_behind(e, handled(e, how).0, top),
{
    reveal(handled);
    match how {
        BlockUse::Parsed => {
            lemma_parsed_below(e, top);
        },
        BlockUse::Offered { found } => {
            lemma_offered(e, found);
            lemma_parsed_below(generated(alphabet_gated(e), found), top);
        },
        BlockUse::Skipped => {
            lemma_skipped_below(e, top);
        },
        BlockUse::LeftOut => {
            lemma_skipped_below(e, top);
        },
        BlockUse::Screened { costs, dense, found } => {
            lemma_costed(e, costs);
            lemma_screened_below(costed(e, costs), dense, found, top);
        },
        BlockUse::Dropped { costs, dense, found } => {
            lemma_costed(e, costs);
            lemma_screened_below(costed(e, costs), dense, found, top);
        },
    }
}

/// Whatever becomes of a block on such a row, all that is written lies behind it.
pub proof fn lemma_plain_handled(e: Drv, how: BlockUse)
    requires
        block_waits(e),
        parses(e, how) ==> scan_ready(e),
        e.ldm.len() == 0,
        plain(e.mode.params.strategy),
        marked(e),
    ensures
        marked(handled(e, how).0),
        handled(e, how).0.place.pos == e.place.block_end,
{
    let top = e.mode.head_origin + later(e.mode.strip_mark, e.place.block_end) + 1;
    assert(entries_below(e.store.t, top)) by {
        assert forall|s: int| 0 <= s < e.store.t.len() implies #[trigger] e.store.t[s] <= top by {
            assert(heads_of(e).t[s] == e.store.t[s]);
        }
    }
    lemma_handled_below(e, how, top);
    let f = handled(e, how).0;
    assert(heads_of(f).t == f.store.t);
}

proof fn lemma_dict_fast_below(t: Seq<u32>, w: Seq<u8>, i: int, last: int, base: int, log: u32, top: int)
    requires
        1 <= log < 64,
        t.len() == slots(log),
        entries_below(t, top),
        0 <= i,
        0 <= base,
        base + last <= top,
    ensures
        entries_below(dict_fast(t, w, i, last, base, log), top),
    decreases
        if last > i {
            last - i
        } else {
            0
        },
{
    broadcast use lemma_mul_hash_range;

    if i < last {
        let five = ChainHashWidth::Five;
        let a = put_short(t, w, i, base, log, five);
        lemma_put_below(t, short_slot(w, i, log, five), base + i, top);
        let b = claimed(a, w, i + 1, last, base, log);
        if i + 1 < last {
            lemma_put_below(a, short_slot(w, i + 1, log, five), base + (i + 1), top);
        }
        let c = claimed(b, w, i + 2, last, base, log);
        if i + 2 < last {
            lemma_put_below(b, short_slot(w, i + 2, log, five), base + (i + 2), top);
        }
        lemma_dict_fast_below(c, w, i + 3, last, base, log, top);
    }
}

proof fn lemma_dict_long_below(t: Seq<u32>, w: Seq<u8>, i: int, last: int, base: int, log: u32, top: int)
    requires
        1 <= log < 64,
        t.len() == slots(log),
        entries_below(t, top),
        0 <= i,
        0 <= base,
        base + last <= top,
    ensures
        entries_below(dict_long(t, w, i, last, base, log), top),
    decreases
        if last > i {
            last - i
        } else {
            0
        },
{
    broadcast use lemma_mul_hash_range;

    if i < last {
        let a = put_long(t, w, i, base, log);
        lemma_put_below(t, long_slot(w, i, log), base + i, top);
        let b = claimed8(a, w, i + 1, last, base, log);
        if i + 1 < last {
            lemma_put_below(a, long_slot(w, i + 1, log), base + (i + 1), top);
        }
        let c = claimed8(b, w, i + 2, last, base, log);
        if i + 2 < last {
            lemma_put_below(b, long_slot(w, i + 2, log), base + (i + 2), top);
        }
        lemma_dict_long_below(c, w, i + 3, last, base, log, top);
    }
}

/// Linking positions leaves no head above them.
pub proof fn lemma_link_range_below(c: LinkCfg, w: Seq<u8>, h: Heads, from: int, to: int, step: int, top: int)
    requires
        c.fits(w, h),
        entries_below(h.t, top),
        0 <= from,
        from < to ==> c.base + c.origin + to <= top,
    ensures
        entries_below(link_range(c, w, h, from, to, step).t, top),
    decreases
        if to > from {
            to - from
        } else {
            0
        },
{
    if from < to && step > 0 {
        lemma_link_as(c, w, h, from, from);
        lemma_put_below(h.t, c.slot(w, from), c.base + c.origin + from, top);
        lemma_link_range_below(c, w, link_as(c, w, h, from, from), from + step, to, step, top);
    }
}

/// Dictionary content on a row whose table holds positions writes nothing ahead of the
/// matcher, and leaves nothing of what the table held.
pub proof fn lemma_dict_filled(d: Drv, w: Seq<u8>)
    requires
        d.wf(),
        d.mode.params.strategy is Chain || plain(d.mode.params.strategy),
        w.len() <= d.place.pos,
        w.len() <= WIN_MAX,
    ensures
        marked(filled(d, w, 0, FillGrid::Dictionary, true)),
{
    let f = filled(d, w, 0, FillGrid::Dictionary, true);
    let s = swept(d.mode, d.store, FillGrid::Dictionary);
    let top = d.mode.head_origin + w.len();
    let log = d.mode.params.hash_log;
    assert(entries_below(s.t, top));
    if w.len() >= HASH_READ {
        let last = w.len() - HASH_READ;
        match d.mode.params.strategy {
            Strategy::Fast => {
                lemma_dict_fast_below(s.t, w, 0, last, 0, log, top);
            },
            Strategy::Dfast(_) => {
                lemma_dict_long_below(s.t, w, 0, last, 0, log, top);
            },
            Strategy::Chain(clog) => {
                crate::bits::lemma_pow2_monotone(0, clog as nat);
                vstd::arithmetic::power2::lemma2_to64();
                let c = LinkCfg { base: 0, origin: d.mode.head_origin, log, width: d.mode.width() };
                lemma_link_range_below(c, w, Heads { t: s.t, ch: s.ch }, 0, last, 1, top);
            },
            _ => {},
        }
    }
    assert(entries_below(f.store.t, top));
    assert(heads_of(f).t == f.store.t);
    assert(f.mode.head_origin == d.mode.head_origin);
}

/// A prefill on such a row writes nothing above the strip, and leaves nothing of what the
/// table held.
pub proof fn lemma_plain_filled(d: Drv, w: Seq<u8>, base: u64, start: u64)
    requires
        d.wf(),
        plain(d.mode.params.strategy),
        base + w.len() <= start,
    ensures
        ({
            let f = filled(d, w, base, FillGrid::Strip, true);
            marked(Drv { place: Place { pos: start, ..f.place }, ..f })
        }),
{
    let f = filled(d, w, base, FillGrid::Strip, true);
    let g = Drv { place: Place { pos: start, ..f.place }, ..f };
    let s = swept(d.mode, d.store, FillGrid::Strip);
    let top = start as int;
    assert(entries_below(s.t, top));
    if w.len() >= HASH_READ {
        let last = w.len() - HASH_READ;
        let log = d.mode.params.hash_log;
        let from = strip_start(d.mode.params.strategy, log, last);
        if d.mode.params.strategy is Fast {
            lemma_range_below(s.t, w, from, last, 3, base as int, log, ChainHashWidth::Five, top);
        } else {
            lemma_long_range_below(s.t, w, from, last, 3, base as int, log, top);
        }
    }
    assert(entries_below(f.store.t, top));
    assert(heads_of(g).t == f.store.t);
}

} // verus!
