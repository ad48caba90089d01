//! The hash-chain scan on windows that hold more or less of the past.

use vstd::prelude::*;
use crate::chains::{chain_slot, chain_walk, lemma_link_as, lemma_link_fills, link_as, link_covered, link_match, link_range, walk_result, Heads, LinkCfg, WalkCfg};
use crate::gates::CoveredFill;
use crate::hash::{common_len, le4, lemma_common_len, HASH_READ, MIN_MATCH};
use crate::lazy::{final_pick, finds_within, first_pick, good_pick, lemma_first_pick, lemma_lazy_walk, lemma_pick_match, pick_match, worth_storing, Pick};
use crate::parse_chain::{
    chain_begin, chain_block, chain_caught, chain_find, chain_found, chain_inv, chain_probe, chain_reps, chain_run, chain_step, chain_take, ldm_after, ldm_beats, ldm_skip, fill_stop, later, lemma_chain_caught,
    lemma_chain_find, lemma_chain_found, lemma_chain_run, lemma_chain_step, ChainCfg, ChainSt,
};
use crate::scan::{
    count_seed, emit_far, emit_seq, in_step, lemma_emit_in_step, lemma_far_is_good, lemma_rep_is_good, lemma_swap_is_good,
    resumed, spend_seed, LdmSeq, Peer, St,
};
use crate::sequence::pending_after;
use crate::shift::{lemma_common_len_moved, lemma_emit_moved, lemma_le4_moved, lemma_slot_moved, moved};
use crate::shift_double::lemma_tail_moved;
use crate::shift_lazy::{
    ample_pick, lemma_final_pick_moved, lemma_first_pick_moved, lemma_pick_match_moved, lemma_worth_moved, moved_found,
    moved_pick, near_found, rebased_pick,
};
use crate::tables::insert_limit;

verus! {

/// How positions are linked on a window that lacks the first `k` bytes.
pub open spec fn rebased_link(c: LinkCfg, k: int) -> LinkCfg {
    LinkCfg { base: (c.base + k) as u64, ..c }
}

/// A scan's constants on such a window.
pub open spec fn rebased_chain(c: ChainCfg, k: int) -> ChainCfg {
    ChainCfg { link: rebased_link(c.link, k), pick: rebased_pick(c.pick, k), ..c }
}

/// A scan and its tables on such a window.
pub open spec fn moved_chain(f: ChainSt, k: int) -> ChainSt {
    ChainSt { s: moved(f.s, k), filled: f.filled - k, ..f }
}

/// Nothing that the scan refers to lies in the first `k` bytes.
pub open spec fn ample_chain(c: ChainCfg, w: Seq<u8>, d: Peer, ldm: Seq<LdmSeq>, f: ChainSt, k: int) -> bool {
    &&& chain_inv(c, w, d, ldm, f)
    &&& 0 <= k
    &&& HASH_READ <= d.far
    &&& d.far + k <= d.start
    &&& d.bar <= MIN_MATCH
    &&& k <= f.filled
}

/// A position is linked alike.
pub proof fn lemma_link_as_moved(c: LinkCfg, w: Seq<u8>, k: int, h: Heads, at: int, i: int)
    requires
        c.base + k <= u64::MAX,
        0 <= k <= at,
        at + HASH_READ <= w.len(),
    ensures
        link_as(rebased_link(c, k), w.skip(k), h, at - k, i - k) == link_as(c, w, h, at, i),
{
    lemma_slot_moved(w, k, at, c.log, c.width);
    assert(c.base + k + (i - k) == c.base + i);
    assert(c.base + k + c.origin + (i - k) == c.base + c.origin + i);
}

/// A range is linked alike.
pub proof fn lemma_link_range_moved(c: LinkCfg, w: Seq<u8>, k: int, h: Heads, from: int, to: int, step: int)
    requires
        c.base + k <= u64::MAX,
        0 <= k,
        from < to ==> k <= from && to + HASH_READ <= w.len() + 1,
    ensures
        link_range(rebased_link(c, k), w.skip(k), h, from - k, to - k, step) == link_range(c, w, h, from, to, step),
    decreases
        if to > from {
            to - from
        } else {
            0
        },
{
    if from < to && step > 0 {
        lemma_link_as_moved(c, w, k, h, from, from);
        lemma_link_range_moved(c, w, k, link_as(c, w, h, from, from), from + step, to, step);
        assert(from - k + step == from + step - k);
    }
}

proof fn lemma_fills_moved(c: LinkCfg, w: Seq<u8>, k: int, h: Heads, start: int, ml: int, fill: CoveredFill)
    requires
        c.base + k <= u64::MAX,
        0 <= k <= start,
        0 <= ml,
        start + ml <= w.len(),
        k + HASH_READ <= w.len(),
    ensures
        link_covered(rebased_link(c, k), w.skip(k), h, start - k, ml, fill) == link_covered(c, w, h, start, ml, fill),
        link_match(rebased_link(c, k), w.skip(k), h, start - k, ml, fill) == link_match(c, w, h, start, ml, fill),
{
    let limit = insert_limit(w);
    let end = if start + ml < limit {
        start + ml
    } else {
        limit
    };
    assert(insert_limit(w.skip(k)) == limit - k);
    lemma_link_range_moved(c, w, k, h, start, end, 1);
    lemma_link_range_moved(c, w, k, h, start, end, 2);
    lemma_link_range_moved(c, w, k, h, start, end, 4);
    if ml > 16 && start + ml - 2 <= limit {
        lemma_link_as_moved(c, w, k, h, start + 2, start + 2);
        lemma_link_as_moved(c, w, k, link_as(c, w, h, start + 2, start + 2), start + ml - 2, start + ml - 2);
        assert(start - k + 2 == start + 2 - k && start - k + ml - 2 == start + ml - 2 - k);
    }
}

proof fn lemma_chain_walk_moved(
    c: LinkCfg,
    x: WalkCfg,
    w: Seq<u8>,
    k: int,
    ch: Seq<u32>,
    i: int,
    e: u32,
    tried: int,
    best: (int, int),
)
    requires
        c.base + k <= u64::MAX,
        0 <= k,
        k + x.reach <= i <= w.len(),
        walk_result(c, x, w, i, best),
    ensures
        chain_walk(rebased_link(c, k), x, w.skip(k), ch, i - k, e, tried, moved_found(best, k)) == moved_found(
            chain_walk(c, x, w, ch, i, e, tried, best),
            k,
        ),
    decreases x.depth - tried,
{
    let d = c.base + c.origin + i + 1 - e;
    assert(c.base + k + c.origin + (i - k) + 1 - e == d);
    if tried < x.depth && 1 <= d <= i && d <= x.reach {
        let q = i - d;
        let n = common_len(w, i, q);
        assert(i - k - d == q - k);
        lemma_common_len_moved(w, k, i, q);
        assert(c.base + k + (q - k) == c.base + q);
        let better = !x.ramp.shallow(c.base + q) && n >= MIN_MATCH && n > best.0;
        let next = if better {
            (n, q)
        } else {
            best
        };
        if !(better && i + n >= w.len()) {
            let e1 = ch[chain_slot(c.base + q, ch.len() as int)];
            lemma_chain_walk_moved(c, x, w, k, ch, i, e1, tried + 1, next);
        }
    }
}

/// The chain finds the same.
proof fn lemma_chain_find_moved(c: ChainCfg, w: Seq<u8>, d: Peer, k: int, h: Heads, i: int)
    requires
        c.coherent(),
        c.link.fits(w, h),
        c.walk.reach <= d.far,
        0 <= k,
        d.far + k <= i,
        i + HASH_READ <= w.len(),
    ensures
        near_found(w, d.far, i, chain_find(c, w, h)(i)),
        chain_find(rebased_chain(c, k), w.skip(k), h)(i - k) == moved_found(chain_find(c, w, h)(i), k),
{
    let e = h.t[c.link.slot(w, i)];
    lemma_chain_find(c, w, h, crate::gates::RampGate::off_gate(), i);
    lemma_slot_moved(w, k, i, c.link.log, c.link.width);
    lemma_chain_walk_moved(c.link, c.walk, w, k, h.ch, i, e, 0, (0, 0));
}

proof fn lemma_chain_reps_moved(c: ChainCfg, w: Seq<u8>, d: Peer, ldm: Seq<LdmSeq>, k: int, f: ChainSt)
    requires
        ample_chain(c, w, d, ldm, ChainSt { s: resumed(f.s), ..f }, k),
        f.s.pending == 0,
    ensures
        chain_reps(rebased_chain(c, k), w.skip(k), moved_chain(f, k)) == moved_chain(chain_reps(c, w, f), k),
    decreases w.len() - f.s.anchor,
{
    let p = f.s.anchor;
    let q = p - f.s.rep.r1;
    let n = common_len(w, p, q);
    assert(k <= q);
    assert(p - k - f.s.rep.r1 == q - k);
    assert(c.link.base + k + (q - k) == c.link.base + q);
    lemma_common_len_moved(w, k, p, q);
    if p + MIN_MATCH <= w.len() {
        lemma_le4_moved(w, k, p);
        lemma_le4_moved(w, k, q);
    }
    if p + MIN_MATCH <= w.len() && q >= 0 && !c.pick.ramp.shallow(c.link.base + q) && le4(w, q) == le4(w, p)
        && MIN_MATCH <= n <= w.len() - p {
        let r = resumed(f.s);
        let g = ChainSt { h: link_covered(c.link, w, f.h, p, n, c.fill), s: emit_seq(f.s, w, p, n, 1), ..f };
        lemma_common_len(w, p, q);
        lemma_swap_is_good(w, r, q, n);
        lemma_emit_in_step(w, d, r, p, q, n, 1);
        lemma_link_fills(c.link, w, f.h, p, n, c.fill);
        assert(resumed(g.s) =~= resumed(St { pending: pending_after(r.pending, 1), ..emit_seq(r, w, p, n, 1) }));
        lemma_emit_moved(f.s, w, k, p, n, 1);
        lemma_fills_moved(c.link, w, k, f.h, p, n, c.fill);
        lemma_chain_reps_moved(c, w, d, ldm, k, g);
    }
}

/// The catch-up fill links the same.
proof fn lemma_chain_caught_moved(c: ChainCfg, w: Seq<u8>, d: Peer, ldm: Seq<LdmSeq>, k: int, f: ChainSt, upto: int)
    requires
        ample_chain(c, w, d, ldm, f, k),
        upto <= w.len(),
    ensures
        chain_caught(rebased_chain(c, k), w.skip(k), moved_chain(f, k), upto - k) == moved_chain(
            chain_caught(c, w, f, upto),
            k,
        ),
{
    assert(insert_limit(w.skip(k)) == insert_limit(w) - k);
    lemma_link_range_moved(c.link, w, k, f.h, f.filled, fill_stop(w, upto), 1);
}

/// A choice is emitted alike, and the scan resumes alike.
#[verifier::rlimit(40)]
proof fn lemma_chain_take_moved(c: ChainCfg, w: Seq<u8>, d: Peer, ldm: Seq<LdmSeq>, k: int, x: ChainSt, p: Pick)
    requires
        ample_chain(c, w, d, ldm, x, k),
        good_pick(w, x.s, p),
        !d.ramp.shallow(c.link.base + p.cand),
        p.pos - p.cand <= d.far,
        !p.rep ==> p.pos - p.cand <= d.hop,
        p.seed ==> x.s.seed != 0,
    ensures
        chain_take(rebased_chain(c, k), w.skip(k), moved_chain(x, k), moved_pick(p, k)) == moved_chain(
            chain_take(c, w, x, p),
            k,
        ),
{
    let m = pick_match(c.pick, w, x.s, p);
    let f = chain_caught(c, w, x, m.0);
    lemma_pick_match(c.pick, w, x.s, p, d.ramp);
    lemma_chain_caught(c, w, d, ldm, x, m.0);
    lemma_chain_caught_moved(c, w, d, ldm, k, x, m.0);
    lemma_pick_match_moved(c.pick, w, d, k, f.s, p);
    let of = if p.rep {
        1
    } else {
        m.0 - m.1 + 3
    };
    if p.rep {
        lemma_rep_is_good(w, f.s, m.0, m.1, m.2);
    } else {
        lemma_far_is_good(w, f.s, m.0, m.1, m.2);
    }
    lemma_emit_in_step(w, d, f.s, m.0, m.1, m.2, of);
    lemma_link_fills(c.link, w, f.h, m.0, m.2, c.fill);
    lemma_emit_moved(f.s, w, k, m.0, m.2, of);
    assert(m.0 - k - (m.1 - k) + 3 == m.0 - m.1 + 3);
    lemma_fills_moved(c.link, w, k, f.h, m.0, m.2, c.fill);
    let e = if p.rep {
        emit_seq(f.s, w, m.0, m.2, 1)
    } else {
        emit_far(f.s, w, m.0, m.1, m.2)
    };
    assert(resumed(e) =~= resumed(St { pending: pending_after(f.s.pending, of), ..emit_seq(f.s, w, m.0, m.2, of) }));
    let g = ChainSt {
        h: link_match(c.link, w, f.h, m.0, m.2, c.fill),
        s: if p.seed {
            count_seed(e)
        } else {
            e
        },
        ..f
    };
    assert(count_seed(moved(e, k)) == moved(count_seed(e), k));
    assert(in_step(w, d, resumed(g.s)));
    if g.s.pending == 0 {
        lemma_chain_reps_moved(c, w, d, ldm, k, g);
    }
}

/// The search at the scan position finds the same.
proof fn lemma_chain_found_moved(c: ChainCfg, w: Seq<u8>, d: Peer, ldm: Seq<LdmSeq>, k: int, f: ChainSt)
    requires
        ample_chain(c, w, d, ldm, f, k),
        f.s.pos + HASH_READ <= w.len(),
    ensures
        chain_found(rebased_chain(c, k), w.skip(k), ldm, moved_chain(f, k)) == moved_found(chain_found(c, w, ldm, f), k),
        ldm_after(rebased_chain(c, k), w.skip(k), ldm, moved_chain(f, k)) == ldm_after(c, w, ldm, f),
        near_found(w, d.far, f.s.pos, chain_found(c, w, ldm, f)),
{
    let i = f.s.pos;
    let r = rebased_chain(c, k);
    lemma_chain_found(c, w, d, ldm, f);
    lemma_chain_find_moved(c, w, d, k, f.h, i);
    assert(r.link.base + (f.s.anchor - k) == c.link.base + f.s.anchor);
    assert(ldm_skip(r, ldm, moved_chain(f, k)) == ldm_skip(c, ldm, f));
    let li = ldm_skip(c, ldm, f);
    let b = chain_find(c, w, f.h)(i);
    if li < ldm.len() {
        let q = ldm[li];
        let j = i - q.offset;
        assert(q.offset <= d.far);
        assert(i - k - q.offset == j - k);
        assert(r.link.base + (i - k) == c.link.base + i);
        lemma_common_len_moved(w, k, i, j);
        lemma_le4_moved(w, k, i);
        lemma_le4_moved(w, k, j);
        assert(ldm_beats(r, w.skip(k), i - k, q, b.0) == ldm_beats(c, w, i, q, b.0));
    }
}

/// A choice that is stored is followed up alike.
#[verifier::rlimit(40)]
proof fn lemma_chain_stored_moved(
    c: ChainCfg,
    w: Seq<u8>,
    lens: Seq<u8>,
    d: Peer,
    ldm: Seq<LdmSeq>,
    k: int,
    g: ChainSt,
    p: Pick,
)
    requires
        ample_chain(c, w, d, ldm, g, k),
        good_pick(w, g.s, p),
        !d.ramp.shallow(c.link.base + p.cand),
        p.pos - p.cand <= d.far,
        !p.rep ==> p.pos - p.cand <= d.hop,
        p.seed ==> g.s.seed != 0,
    ensures
        ({
            let z = final_pick(c.pick, w, lens, g.s, chain_find(c, w, g.h), p);
            let y = final_pick(
                rebased_pick(c.pick, k),
                w.skip(k),
                lens,
                moved(g.s, k),
                chain_find(rebased_chain(c, k), w.skip(k), g.h),
                moved_pick(p, k),
            );
            chain_take(rebased_chain(c, k), w.skip(k), moved_chain(g, k), y) == moved_chain(chain_take(c, w, g, z), k)
        }),
{
    let find = chain_find(c, w, g.h);
    let also = chain_find(rebased_chain(c, k), w.skip(k), g.h);
    assert forall|i: int| d.start <= i && i + HASH_READ <= w.len() implies near_found(w, d.far, i, #[trigger] find(i))
        && also(i - k) == moved_found(find(i), k) by {
        lemma_chain_find_moved(c, w, d, k, g.h, i);
    }
    assert forall|j: int| 0 <= j && j + HASH_READ <= w.len() implies crate::lazy::found_at(w, j, #[trigger] find(j)) by {
        lemma_chain_find(c, w, g.h, d.ramp, j);
    }
    assert forall|j: int| 0 <= j && j + HASH_READ <= w.len() && (#[trigger] find(j)).0 > 0 implies !d.ramp.shallow(
        c.pick.base + find(j).1,
    ) && j - find(j).1 <= d.far && j - find(j).1 <= d.hop by {
        lemma_chain_find(c, w, g.h, d.ramp, j);
    }
    if c.pick.lazy > 0 && p.len < 64 {
        lemma_lazy_walk(c.pick, w, lens, g.s, find, p.pos, p, false, d.ramp, d.far);
        assert(finds_within(w, find, d.hop));
    }
    lemma_final_pick_moved(c.pick, w, lens, d, k, g.s, find, also, p);
    lemma_chain_take_moved(c, w, d, ldm, k, g, final_pick(c.pick, w, lens, g.s, find, p));
}

/// A probe is the same.
#[verifier::rlimit(60)]
proof fn lemma_chain_probe_moved(c: ChainCfg, w: Seq<u8>, lens: Seq<u8>, d: Peer, ldm: Seq<LdmSeq>, k: int, f: ChainSt)
    requires
        ample_chain(c, w, d, ldm, f, k),
        f.s.pos + HASH_READ <= w.len(),
    ensures
        chain_probe(rebased_chain(c, k), w.skip(k), lens, ldm, moved_chain(f, k)) == moved_chain(
            chain_probe(c, w, lens, ldm, f),
            k,
        ),
{
    let i = f.s.pos;
    let b = chain_found(c, w, ldm, f);
    let p = first_pick(c.pick, w, f.s, b);
    let r = rebased_chain(c, k);
    lemma_chain_found(c, w, d, ldm, f);
    lemma_chain_found_moved(c, w, d, ldm, k, f);
    lemma_first_pick(c.pick, w, f.s, b);
    assert(ample_pick(c.pick, w, d, f.s, k));
    lemma_first_pick_moved(c.pick, w, d, k, f.s, b);
    lemma_worth_moved(c.pick, w, lens, d, k, f.s, p);
    lemma_link_as(c.link, w, f.h, i, p.pos);
    lemma_link_as_moved(c.link, w, k, f.h, i, p.pos);
    let (li, won) = ldm_after(c, w, ldm, f);
    let s = if p.seed {
        f.s
    } else {
        spend_seed(f.s)
    };
    let g = ChainSt { h: link_as(c.link, w, f.h, i, p.pos), s, li, won, filled: later(f.filled, p.pos + 1) };
    assert(in_step(w, d, s));
    assert(spend_seed(moved(f.s, k)) == moved(spend_seed(f.s), k));
    assert(r.link.base + (i - k) == c.link.base + i);
    if worth_storing(c.pick, w, lens, i, p) {
        lemma_chain_stored_moved(c, w, lens, d, ldm, k, g, p);
    } else {
        assert(i - k - (s.anchor - k) == i - s.anchor);
    }
}

/// One step is the same.
proof fn lemma_chain_step_moved(c: ChainCfg, w: Seq<u8>, lens: Seq<u8>, d: Peer, ldm: Seq<LdmSeq>, k: int, f: ChainSt)
    requires
        ample_chain(c, w, d, ldm, f, k),
        f.s.pos + HASH_READ <= w.len(),
    ensures
        chain_step(rebased_chain(c, k), w.skip(k), lens, ldm, moved_chain(f, k)) == moved_chain(
            chain_step(c, w, lens, ldm, f),
            k,
        ),
{
    let i = f.s.pos;
    lemma_chain_caught(c, w, d, ldm, f, i);
    lemma_chain_caught_moved(c, w, d, ldm, k, f, i);
    lemma_chain_probe_moved(c, w, lens, d, ldm, k, chain_caught(c, w, f, i));
}

/// The scan is the same.
proof fn lemma_chain_run_moved(c: ChainCfg, w: Seq<u8>, lens: Seq<u8>, d: Peer, ldm: Seq<LdmSeq>, k: int, f: ChainSt)
    requires
        ample_chain(c, w, d, ldm, f, k),
    ensures
        chain_run(rebased_chain(c, k), w.skip(k), lens, ldm, moved_chain(f, k)) == moved_chain(
            chain_run(c, w, lens, ldm, f),
            k,
        ),
    decreases
        if w.len() > f.s.pos {
            w.len() - f.s.pos
        } else {
            0
        },
{
    if w.len() - f.s.pos >= HASH_READ {
        lemma_chain_step(c, w, lens, d, ldm, f);
        lemma_chain_step_moved(c, w, lens, d, ldm, k, f);
        lemma_chain_run_moved(c, w, lens, d, ldm, k, chain_step(c, w, lens, ldm, f));
    }
}

/// A block's scan emits the same and leaves the same tables behind, whether or not
/// its window holds `k` more bytes of the past, if the scan can refer to none of
/// them.
pub proof fn lemma_chain_block_moved(
    c: ChainCfg,
    w: Seq<u8>,
    lens: Seq<u8>,
    d: Peer,
    ldm: Seq<LdmSeq>,
    k: int,
    h: Heads,
    s: St,
)
    requires
        ample_chain(c, w, d, ldm, chain_begin(h, s), k),
    ensures
        chain_block(rebased_chain(c, k), w.skip(k), lens, ldm, h, moved(s, k)) == moved_chain(
            chain_block(c, w, lens, ldm, h, s),
            k,
        ),
{
    let f = chain_begin(h, s);
    assert(chain_begin(h, moved(s, k)) == moved_chain(f, k));
    lemma_chain_run_moved(c, w, lens, d, ldm, k, f);
    lemma_chain_run(c, w, lens, d, ldm, f);
    lemma_tail_moved(w, k, chain_run(c, w, lens, ldm, f).s);
}

} // verus!
