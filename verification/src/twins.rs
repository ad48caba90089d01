//! Chains that hold the same under different origins, beside entries that nothing
//! can reach any more. Searches cannot tell them apart.

use vstd::prelude::*;
use crate::chains::{chain_slot, chain_walk, lemma_link_as, lemma_link_fills, link_as, link_covered, link_match, link_range, Heads, LinkCfg, WalkCfg};
use crate::gates::CoveredFill;
use crate::hash::{common_len, le4, lemma_common_len, lemma_mul_hash_range, HASH_READ, MIN_MATCH};
use crate::lazy::{final_pick, finds_within, first_pick, good_pick, lemma_first_pick, lemma_lazy_walk, lemma_pick_match, pick_match, worth_storing, Pick};
use crate::parse_chain::{chain_begin, chain_block, chain_caught, chain_find, chain_found, chain_inv, chain_probe, chain_reps, chain_run, chain_step, chain_take, fill_stop, later, ldm_after, lemma_chain_caught, lemma_chain_find, lemma_chain_found, lemma_chain_step, ChainCfg, ChainSt};
use crate::scan::{count_seed, emit_far, emit_seq, in_step, lemma_emit_in_step, lemma_far_is_good, lemma_rep_is_good, lemma_swap_is_good, resumed, spend_seed, LdmSeq, Peer, St};
use crate::sequence::pending_after;
use crate::tables::insert_limit;

verus! {

/// Two entries, each with the origin that it was read under, stand for the same
/// position, or neither stands for any: what is not above the origin was written
/// before the origin was moved.
pub open spec fn same_entry(o: u64, x: u32, p: u64, y: u32) -> bool {
    if x > o {
        y > p && x - o == y - p
    } else {
        y <= p
    }
}

/// Whether the link of an entry's position is known to be fresh.
pub open spec fn linked(fresh: Set<int>, o: u64, x: u32, n: int) -> bool {
    x > o ==> fresh.contains(chain_slot(x - 1 - o, n))
}

/// Two chains hold the same, given the slots that have been linked since the
/// origins were moved: equal heads, equal links in those slots, and nothing that
/// leads out of them.
pub open spec fn twins(fresh: Set<int>, o: u64, h: Heads, p: u64, g: Heads) -> bool {
    let n = h.ch.len() as int;
    &&& g.t.len() == h.t.len()
    &&& g.ch.len() == n
    &&& forall|s: int|
        0 <= s < h.t.len() ==> same_entry(o, #[trigger] h.t[s], p, g.t[s]) && linked(fresh, o, h.t[s], n)
    &&& forall|j: int|
        #![trigger h.ch[j]]
        0 <= j < n && fresh.contains(j) ==> same_entry(o, h.ch[j], p, g.ch[j]) && linked(
            fresh,
            o,
            h.ch[j],
            n,
        )
}

/// Two chains hold the same.
pub open spec fn twin_heads(o: u64, h: Heads, p: u64, g: Heads) -> bool {
    exists|fresh: Set<int>| twins(fresh, o, h, p, g)
}

/// No head lies above position `top`.
pub open spec fn heads_below(o: u64, h: Heads, top: int) -> bool {
    forall|s: int| 0 <= s < h.t.len() ==> #[trigger] h.t[s] <= o + top
}

/// Configurations that differ at most in their origin, for a window whose
/// positions all have entries of their own.
pub open spec fn same_links(c: LinkCfg, b: LinkCfg, w: Seq<u8>) -> bool {
    &&& b == LinkCfg { origin: b.origin, ..c }
    &&& c.base + c.origin + w.len() + 1 < 0x1_0000_0000
    &&& c.base + b.origin + w.len() + 1 < 0x1_0000_0000
}

/// Walks along twin chains find the same.
proof fn lemma_walk_twins(
    fresh: Set<int>,
    c: LinkCfg,
    b: LinkCfg,
    k: WalkCfg,
    w: Seq<u8>,
    h: Heads,
    g: Heads,
    i: int,
    x: u32,
    y: u32,
    tried: int,
    best: (int, int),
)
    requires
        same_links(c, b, w),
        twins(fresh, c.origin, h, b.origin, g),
        h.ch.len() >= 1,
        same_entry(c.origin, x, b.origin, y),
        linked(fresh, c.origin, x, h.ch.len() as int),
    ensures
        chain_walk(c, k, w, h.ch, i, x, tried, best) == chain_walk(b, k, w, g.ch, i, y, tried, best),
    decreases k.depth - tried,
{
    let d = c.base + c.origin + i + 1 - x;
    let e = b.base + b.origin + i + 1 - y;
    if tried < k.depth && 1 <= d <= i && d <= k.reach {
        assert(x > c.origin);
        assert(d == e);
        let q = i - d;
        let n = common_len(w, i, q);
        let better = !k.ramp.shallow(c.base + q) && n >= MIN_MATCH && n > best.0;
        if !(better && i + n >= w.len()) {
            let j = chain_slot(c.base + q, h.ch.len() as int);
            vstd::arithmetic::div_mod::lemma_mod_bound(c.base + q, h.ch.len() as int);
            assert(x - 1 - c.origin == c.base + q);
            assert(fresh.contains(j));
            lemma_walk_twins(
                fresh,
                c,
                b,
                k,
                w,
                h,
                g,
                i,
                h.ch[j],
                g.ch[j],
                tried + 1,
                if better {
                    (n, q)
                } else {
                    best
                },
            );
        }
    }
}

/// Linking a position keeps twins twins.
pub proof fn lemma_link_as_twins(c: LinkCfg, b: LinkCfg, w: Seq<u8>, h: Heads, g: Heads, at: int, i: int)
    requires
        same_links(c, b, w),
        c.fits(w, h),
        b.fits(w, g),
        twin_heads(c.origin, h, b.origin, g),
        0 <= i <= w.len(),
    ensures
        twin_heads(c.origin, link_as(c, w, h, at, i), b.origin, link_as(b, w, g, at, i)),
        c.fits(w, link_as(c, w, h, at, i)),
        b.fits(w, link_as(b, w, g, at, i)),
        forall|top: int|
            heads_below(c.origin, h, top) && c.base + i + 1 <= top ==> #[trigger] heads_below(
                c.origin,
                link_as(c, w, h, at, i),
                top,
            ),
{
    let fresh = choose|fresh: Set<int>| twins(fresh, c.origin, h, b.origin, g);
    lemma_link_as(c, w, h, at, i);
    lemma_link_as(b, w, g, at, i);
    let n = h.ch.len() as int;
    let j = chain_slot(c.base + i, n);
    let more = fresh.insert(j);
    let h2 = link_as(c, w, h, at, i);
    let g2 = link_as(b, w, g, at, i);
    let s0 = c.slot(w, at);
    assert(b.slot(w, at) == s0);
    let x = c.entry(i);
    let y = b.entry(i);
    assert(x == c.base + c.origin + i + 1);
    assert(y == b.base + b.origin + i + 1);
    assert forall|s: int| 0 <= s < h2.t.len() implies same_entry(
        c.origin,
        #[trigger] h2.t[s],
        b.origin,
        g2.t[s],
    ) && linked(more, c.origin, h2.t[s], n) by {
        if s != s0 {
            assert(h2.t[s] == h.t[s] && g2.t[s] == g.t[s]);
        }
    }
    assert forall|m: int|
        #![trigger h2.ch[m]]
        0 <= m < n && more.contains(m) implies same_entry(c.origin, h2.ch[m], b.origin, g2.ch[m]) && linked(
        more,
        c.origin,
        h2.ch[m],
        n,
    ) by {
        if m == j {
            assert(h2.ch[m] == h.t[s0] && g2.ch[m] == g.t[s0]);
        } else {
            assert(h2.ch[m] == h.ch[m] && g2.ch[m] == g.ch[m]);
        }
    }
    assert(twins(more, c.origin, h2, b.origin, g2));
    assert forall|top: int| heads_below(c.origin, h, top) && c.base + i + 1 <= top implies #[trigger] heads_below(
        c.origin,
        h2,
        top,
    ) by {
        assert forall|s: int| 0 <= s < h2.t.len() implies #[trigger] h2.t[s] <= c.origin + top by {
            if s != s0 {
                assert(h2.t[s] == h.t[s]);
            }
        }
    }
}

/// Linking a range keeps twins twins.
pub proof fn lemma_link_range_twins(c: LinkCfg, b: LinkCfg, w: Seq<u8>, h: Heads, g: Heads, from: int, to: int, step: int)
    requires
        same_links(c, b, w),
        c.fits(w, h),
        b.fits(w, g),
        twin_heads(c.origin, h, b.origin, g),
        0 <= from,
        to <= w.len(),
    ensures
        twin_heads(c.origin, link_range(c, w, h, from, to, step), b.origin, link_range(b, w, g, from, to, step)),
        c.fits(w, link_range(c, w, h, from, to, step)),
        b.fits(w, link_range(b, w, g, from, to, step)),
        forall|top: int|
            heads_below(c.origin, h, top) && c.base + to <= top ==> #[trigger] heads_below(
                c.origin,
                link_range(c, w, h, from, to, step),
                top,
            ),
    decreases
        if to > from {
            to - from
        } else {
            0
        },
{
    if from < to && step > 0 {
        lemma_link_as_twins(c, b, w, h, g, from, from);
        lemma_link_range_twins(
            c,
            b,
            w,
            link_as(c, w, h, from, from),
            link_as(b, w, g, from, from),
            from + step,
            to,
            step,
        );
    }
}

/// The fills of a match keep twins twins.
proof fn lemma_fills_twins(
    c: LinkCfg,
    b: LinkCfg,
    w: Seq<u8>,
    top: int,
    h: Heads,
    g: Heads,
    start: int,
    ml: int,
    fill: CoveredFill,
)
    requires
        same_links(c, b, w),
        c.fits(w, h),
        b.fits(w, g),
        twin_heads(c.origin, h, b.origin, g),
        0 <= start,
        4 <= ml,
        start + ml <= w.len(),
        heads_below(c.origin, h, top),
        c.base + w.len() <= top,
    ensures
        twin_heads(c.origin, link_covered(c, w, h, start, ml, fill), b.origin, link_covered(b, w, g, start, ml, fill)),
        twin_heads(c.origin, link_match(c, w, h, start, ml, fill), b.origin, link_match(b, w, g, start, ml, fill)),
        heads_below(c.origin, link_covered(c, w, h, start, ml, fill), top),
        heads_below(c.origin, link_match(c, w, h, start, ml, fill), top),
{
    let limit = insert_limit(w);
    let end = if start + ml < limit {
        start + ml
    } else {
        limit
    };
    lemma_link_range_twins(c, b, w, h, g, start, end, 1);
    lemma_link_range_twins(c, b, w, h, g, start, end, 2);
    lemma_link_range_twins(c, b, w, h, g, start, end, 4);
    if ml > 16 {
        lemma_link_as_twins(c, b, w, h, g, start + 2, start + 2);
        lemma_link_as_twins(
            c,
            b,
            w,
            link_as(c, w, h, start + 2, start + 2),
            link_as(b, w, g, start + 2, start + 2),
            start + ml - 2,
            start + ml - 2,
        );
    }
}

/// Two scans of a block are at the same point on twin chains, with no head above
/// position `top`.
pub open spec fn twin_scans(c: ChainCfg, b: ChainCfg, w: Seq<u8>, top: int, f: ChainSt, g: ChainSt) -> bool {
    &&& b == ChainCfg { link: b.link, ..c }
    &&& same_links(c.link, b.link, w)
    &&& c.link.fits(w, f.h)
    &&& b.link.fits(w, g.h)
    &&& twin_heads(c.link.origin, f.h, b.link.origin, g.h)
    &&& heads_below(c.link.origin, f.h, top)
    &&& c.link.base + w.len() <= top
    &&& g == ChainSt { h: g.h, ..f }
}

/// Searches on twin chains find the same.
proof fn lemma_find_twins(c: ChainCfg, b: ChainCfg, w: Seq<u8>, top: int, f: ChainSt, g: ChainSt)
    requires
        twin_scans(c, b, w, top, f, g),
    ensures
        chain_find(c, w, f.h) == chain_find(b, w, g.h),
{
    broadcast use lemma_mul_hash_range;

    let fresh = choose|fresh: Set<int>| twins(fresh, c.link.origin, f.h, b.link.origin, g.h);
    let x = chain_find(c, w, f.h);
    let y = chain_find(b, w, g.h);
    assert forall|i: int| #[trigger] x(i) == y(i) by {
        let s = c.link.slot(w, i);
        assert(b.link.slot(w, i) == s);
        assert(0 <= s < f.h.t.len());
        assert(same_entry(c.link.origin, f.h.t[s], b.link.origin, g.h.t[s]));
        lemma_walk_twins(
            fresh,
            c.link,
            b.link,
            c.walk,
            w,
            f.h,
            g.h,
            i,
            f.h.t[s],
            g.h.t[s],
            0,
            (0, 0),
        );
    }
    assert(x =~= y);
}

/// Repeated-offset matches keep twins twins.
proof fn lemma_reps_twins(
    c: ChainCfg,
    b: ChainCfg,
    w: Seq<u8>,
    top: int,
    d: Peer,
    ldm: Seq<LdmSeq>,
    f: ChainSt,
    g: ChainSt,
)
    requires
        twin_scans(c, b, w, top, f, g),
        chain_inv(c, w, d, ldm, ChainSt { s: resumed(f.s), ..f }),
        f.s.pending == 0,
    ensures
        twin_scans(c, b, w, top, chain_reps(c, w, f), chain_reps(b, w, g)),
    decreases w.len() - f.s.anchor,
{
    let p = f.s.anchor;
    let q = p - f.s.rep.r1;
    let n = common_len(w, p, q);
    if p + MIN_MATCH <= w.len() && q >= 0 && !c.pick.ramp.shallow(c.link.base + q) && le4(w, q) == le4(
        w,
        p,
    ) && MIN_MATCH <= n <= w.len() - p {
        let r = resumed(f.s);
        let f2 = ChainSt { h: link_covered(c.link, w, f.h, p, n, c.fill), s: emit_seq(f.s, w, p, n, 1), ..f };
        let g2 = ChainSt { h: link_covered(b.link, w, g.h, p, n, b.fill), s: emit_seq(g.s, w, p, n, 1), ..g };
        lemma_common_len(w, p, q);
        lemma_swap_is_good(w, r, q, n);
        lemma_emit_in_step(w, d, r, p, q, n, 1);
        lemma_link_fills(c.link, w, f.h, p, n, c.fill);
        lemma_link_fills(b.link, w, g.h, p, n, c.fill);
        lemma_fills_twins(c.link, b.link, w, top, f.h, g.h, p, n, c.fill);
        assert(resumed(f2.s) =~= resumed(
            St { pending: pending_after(r.pending, 1), ..emit_seq(r, w, p, n, 1) },
        ));
        lemma_reps_twins(c, b, w, top, d, ldm, f2, g2);
    }
}

/// The catch-up fill keeps twins twins.
proof fn lemma_caught_twins(c: ChainCfg, b: ChainCfg, w: Seq<u8>, top: int, f: ChainSt, g: ChainSt, upto: int)
    requires
        twin_scans(c, b, w, top, f, g),
        0 <= f.filled,
        upto <= w.len(),
    ensures
        twin_scans(c, b, w, top, chain_caught(c, w, f, upto), chain_caught(b, w, g, upto)),
{
    let to = fill_stop(w, upto);
    lemma_link_range_twins(c.link, b.link, w, f.h, g.h, f.filled, to, 1);
}

/// Emitting a choice keeps twins twins.
proof fn lemma_take_twins(
    c: ChainCfg,
    b: ChainCfg,
    w: Seq<u8>,
    top: int,
    d: Peer,
    ldm: Seq<LdmSeq>,
    x: ChainSt,
    y: ChainSt,
    k: Pick,
)
    requires
        twin_scans(c, b, w, top, x, y),
        chain_inv(c, w, d, ldm, x),
        d.bar <= MIN_MATCH,
        good_pick(w, x.s, k),
        !d.ramp.shallow(c.link.base + k.cand),
        k.pos - k.cand <= d.far,
        !k.rep ==> k.pos - k.cand <= d.hop,
        k.seed ==> x.s.seed != 0,
    ensures
        twin_scans(c, b, w, top, chain_take(c, w, x, k), chain_take(b, w, y, k)),
{
    let m = pick_match(c.pick, w, x.s, k);
    let f = chain_caught(c, w, x, m.0);
    let g = chain_caught(b, w, y, m.0);
    lemma_pick_match(c.pick, w, x.s, k, d.ramp);
    lemma_chain_caught(c, w, d, ldm, x, m.0);
    lemma_caught_twins(c, b, w, top, x, y, m.0);
    let of = if k.rep {
        1
    } else {
        m.0 - m.1 + 3
    };
    if k.rep {
        lemma_rep_is_good(w, f.s, m.0, m.1, m.2);
    } else {
        lemma_far_is_good(w, f.s, m.0, m.1, m.2);
    }
    lemma_emit_in_step(w, d, f.s, m.0, m.1, m.2, of);
    lemma_link_fills(c.link, w, f.h, m.0, m.2, c.fill);
    lemma_link_fills(b.link, w, g.h, m.0, m.2, c.fill);
    lemma_fills_twins(c.link, b.link, w, top, f.h, g.h, m.0, m.2, c.fill);
    let e = if k.rep {
        emit_seq(f.s, w, m.0, m.2, 1)
    } else {
        emit_far(f.s, w, m.0, m.1, m.2)
    };
    assert(resumed(e) =~= resumed(
        St { pending: pending_after(f.s.pending, of), ..emit_seq(f.s, w, m.0, m.2, of) },
    ));
    let s = if k.seed {
        count_seed(e)
    } else {
        e
    };
    let f2 = ChainSt { h: link_match(c.link, w, f.h, m.0, m.2, c.fill), s, ..f };
    let g2 = ChainSt { h: link_match(b.link, w, g.h, m.0, m.2, b.fill), s, ..g };
    assert(in_step(w, d, resumed(f2.s)));
    if f2.s.pending == 0 {
        lemma_reps_twins(c, b, w, top, d, ldm, f2, g2);
    }
}

/// A probe keeps twins twins.
proof fn lemma_probe_twins(
    c: ChainCfg,
    b: ChainCfg,
    w: Seq<u8>,
    top: int,
    lens: Seq<u8>,
    d: Peer,
    ldm: Seq<LdmSeq>,
    f: ChainSt,
    g: ChainSt,
)
    requires
        twin_scans(c, b, w, top, f, g),
        chain_inv(c, w, d, ldm, f),
        d.bar <= MIN_MATCH,
        f.s.pos + HASH_READ <= w.len(),
    ensures
        twin_scans(c, b, w, top, chain_probe(c, w, lens, ldm, f), chain_probe(b, w, lens, ldm, g)),
{
    let i = f.s.pos;
    lemma_find_twins(c, b, w, top, f, g);
    let x = chain_found(c, w, ldm, f);
    assert(chain_found(b, w, ldm, g) == x);
    assert(ldm_after(b, w, ldm, g) == ldm_after(c, w, ldm, f));
    let k = first_pick(c.pick, w, f.s, x);
    lemma_chain_found(c, w, d, ldm, f);
    lemma_first_pick(c.pick, w, f.s, x);
    lemma_link_as(c.link, w, f.h, i, k.pos);
    lemma_link_as_twins(c.link, b.link, w, f.h, g.h, i, k.pos);
    let (li, won) = ldm_after(c, w, ldm, f);
    let s = if k.seed {
        f.s
    } else {
        spend_seed(f.s)
    };
    let f2 = ChainSt { h: link_as(c.link, w, f.h, i, k.pos), s, li, won, filled: later(f.filled, k.pos + 1) };
    let g2 = ChainSt { h: link_as(b.link, w, g.h, i, k.pos), s, li, won, filled: later(f.filled, k.pos + 1) };
    assert(in_step(w, d, s));
    assert(twin_scans(c, b, w, top, f2, g2));
    if worth_storing(c.pick, w, lens, i, k) {
        let find = chain_find(c, w, f2.h);
        lemma_find_twins(c, b, w, top, f2, g2);
        assert(good_pick(w, s, k));
        assert forall|j: int| 0 <= j && j + HASH_READ <= w.len() implies crate::lazy::found_at(
            w,
            j,
            #[trigger] find(j),
        ) by {
            lemma_chain_find(c, w, f2.h, d.ramp, j);
        }
        assert forall|j: int|
            0 <= j && j + HASH_READ <= w.len() && (#[trigger] find(j)).0 > 0 implies !d.ramp.shallow(
            c.pick.base + find(j).1,
        ) && j - find(j).1 <= d.far && j - find(j).1 <= d.hop by {
            lemma_chain_find(c, w, f2.h, d.ramp, j);
        }
        if c.pick.lazy > 0 && k.len < 64 {
            lemma_lazy_walk(c.pick, w, lens, s, find, k.pos, k, false, d.ramp, d.far);
            assert(finds_within(w, find, d.hop));
        }
        lemma_take_twins(c, b, w, top, d, ldm, f2, g2, final_pick(c.pick, w, lens, s, find, k));
    }
}

/// One step keeps twins twins.
proof fn lemma_step_twins(
    c: ChainCfg,
    b: ChainCfg,
    w: Seq<u8>,
    top: int,
    lens: Seq<u8>,
    d: Peer,
    ldm: Seq<LdmSeq>,
    f: ChainSt,
    g: ChainSt,
)
    requires
        twin_scans(c, b, w, top, f, g),
        chain_inv(c, w, d, ldm, f),
        d.bar <= MIN_MATCH,
        f.s.pos + HASH_READ <= w.len(),
    ensures
        twin_scans(c, b, w, top, chain_step(c, w, lens, ldm, f), chain_step(b, w, lens, ldm, g)),
{
    let i = f.s.pos;
    lemma_chain_caught(c, w, d, ldm, f, i);
    lemma_caught_twins(c, b, w, top, f, g, i);
    lemma_probe_twins(c, b, w, top, lens, d, ldm, chain_caught(c, w, f, i), chain_caught(b, w, g, i));
}

/// The scan of a block keeps twins twins.
proof fn lemma_run_twins(
    c: ChainCfg,
    b: ChainCfg,
    w: Seq<u8>,
    top: int,
    lens: Seq<u8>,
    d: Peer,
    ldm: Seq<LdmSeq>,
    f: ChainSt,
    g: ChainSt,
)
    requires
        twin_scans(c, b, w, top, f, g),
        chain_inv(c, w, d, ldm, f),
        d.bar <= MIN_MATCH,
    ensures
        twin_scans(c, b, w, top, chain_run(c, w, lens, ldm, f), chain_run(b, w, lens, ldm, g)),
    decreases
        if w.len() > f.s.pos {
            w.len() - f.s.pos
        } else {
            0
        },
{
    if w.len() - f.s.pos >= HASH_READ {
        lemma_chain_step(c, w, lens, d, ldm, f);
        lemma_step_twins(c, b, w, top, lens, d, ldm, f, g);
        lemma_run_twins(
            c,
            b,
            w,
            top,
            lens,
            d,
            ldm,
            chain_step(c, w, lens, ldm, f),
            chain_step(b, w, lens, ldm, g),
        );
    }
}

/// Scans of a block on twin chains emit the same, and leave twin chains.
pub proof fn lemma_block_twins(
    c: ChainCfg,
    b: ChainCfg,
    w: Seq<u8>,
    top: int,
    lens: Seq<u8>,
    d: Peer,
    ldm: Seq<LdmSeq>,
    h: Heads,
    g: Heads,
    s: St,
)
    requires
        twin_scans(
            c,
            b,
            w,
            top,
            chain_begin(h, s),
            chain_begin(g, s),
        ),
        chain_inv(c, w, d, ldm, chain_begin(h, s)),
        d.bar <= MIN_MATCH,
    ensures
        twin_scans(c, b, w, top, chain_block(c, w, lens, ldm, h, s), chain_block(b, w, lens, ldm, g, s)),
{
    lemma_run_twins(
        c,
        b,
        w,
        top,
        lens,
        d,
        ldm,
        chain_begin(h, s),
        chain_begin(g, s),
    );
}

} // verus!
