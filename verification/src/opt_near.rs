//! How far the optimal parse reaches back: no farther than its tree and its
//! long-distance candidates do.

use vstd::prelude::*;
use crate::hash::{common_len, HASH_READ};
use crate::opt_series::{dp_inv, dp_run, dp_step, first_prices, first_span, first_spans, gathered, lemma_dp_step, lemma_settle, lit_fixed, match_node, padded, relax_match, relaxed, rep_fixed, settle, spans_inv, start_node, Dp, Hunt, OptCfg, Optimal, SeriesStart, Spans};
use crate::opt_stats::Stats;
use crate::opt_tree::{compared, descend, hash3_slot, limited_len, put, rep_matches, searched, tree_search, updated, updated3, Match, Tree, TreeCfg, Walk, OPT_NUM};
use crate::scan::LdmSeq;
use crate::sequence::{wire_offset, Reps};
use crate::tables::WIN_MAX;

verus! {

/// No match by its literal offset is farther back than `far`.
pub open spec fn near_matches(ms: Seq<Match>, far: int) -> bool {
    forall|k: int| 0 <= k < ms.len() ==> (#[trigger] ms[k]).off <= far + 3
}

/// No position is reached from farther back than `far`.
pub open spec fn near_nodes(opt: Seq<Optimal>, far: int) -> bool {
    forall|k: int| 0 <= k < opt.len() ==> (#[trigger] opt[k]).off <= far + 3
}

/// No long-distance candidate is farther back than `far`.
pub open spec fn near_ldm(ldm: Seq<LdmSeq>, far: int) -> bool {
    forall|k: int| 0 <= k < ldm.len() ==> (#[trigger] ldm[k]).offset <= far
}

/// Neither is the span in use.
pub open spec fn near_span(sp: Spans, far: int) -> bool {
    sp.act matches Some(a) ==> a.off <= far
}

/// A series reaches no farther back than `far`.
pub open spec fn near_series(d: Dp, far: int) -> bool {
    &&& near_nodes(d.opt, far)
    &&& near_span(d.h.sp, far)
    &&& d.jump matches Some((_, m)) ==> m.off <= far + 3
}

proof fn lemma_near_descend(
    c: TreeCfg,
    w: Seq<u8>,
    i: int,
    limit: int,
    q: int,
    nb: int,
    sm: int,
    lg: int,
    s: Walk,
    far: int,
)
    requires
        near_matches(s.ms, far),
        0 <= q <= i <= WIN_MAX,
        i - q <= far,
        c.reach <= far,
    ensures
        near_matches(descend(c, w, i, limit, q, nb, sm, lg, s).ms, far),
    decreases nb,
{
    if q >= i || nb <= 0 {
    } else {
        let n = limited_len(w, i, q, limit);
        let z = compared(i, q, n, s);
        assert(near_matches(z.ms, far));
        if n > s.best && n > OPT_NUM || i + n >= limit {
        } else {
            let node = c.node(q);
            if w[q + n] < w[i + n] {
                let bt = put(z.bt, sm, c.entry(q));
                if !c.stale(q, i) {
                    lemma_near_descend(
                        c,
                        w,
                        i,
                        limit,
                        c.cand(bt[node + 1], i),
                        nb - 1,
                        node + 1,
                        lg,
                        Walk { bt, ..z },
                        far,
                    );
                }
            } else {
                let bt = put(z.bt, lg, c.entry(q));
                if !c.stale(q, i) {
                    lemma_near_descend(
                        c,
                        w,
                        i,
                        limit,
                        c.cand(bt[node], i),
                        nb - 1,
                        sm,
                        node,
                        Walk { bt, ..z },
                        far,
                    );
                }
            }
        }
    }
}

proof fn lemma_near_reps(c: TreeCfg, w: Seq<u8>, i: int, rep: Reps, ll0: bool, k: int, best: int, ms: Seq<Match>, far: int)
    requires
        near_matches(ms, far),
        0 <= k,
        0 <= far,
    ensures
        near_matches(rep_matches(c, w, i, rep, ll0, k, best, ms).1, far),
    decreases 3 - k,
{
    if k < 3 {
        let d = wire_offset(
            rep,
            k + 1,
            if ll0 {
                0
            } else {
                1
            },
        );
        let n = common_len(w, i, i - d);
        if 1 <= d <= i && d <= c.reach && n > best {
            let m = ms.push(Match { off: (k + 1) as u32, len: n as u32 });
            assert(near_matches(m, far));
            if n > c.sufficient_len || i + n >= w.len() {
            } else {
                lemma_near_reps(c, w, i, rep, ll0, k + 1, n, m, far);
            }
        } else {
            lemma_near_reps(c, w, i, rep, ll0, k + 1, best, ms, far);
        }
    }
}

proof fn lemma_near_tree_search(c: TreeCfg, w: Seq<u8>, s: Tree, i: int, best: int, ms: Seq<Match>, far: int)
    requires
        near_matches(ms, far),
        0 <= i <= WIN_MAX,
        c.reach <= far,
    ensures
        near_matches(tree_search(c, w, s, i, best, ms).1, far),
{
    let h = c.slot(w, i);
    lemma_near_descend(
        c,
        w,
        i,
        w.len() as int,
        c.cand(s.t[h], i),
        c.nb_compares as int,
        c.node(i),
        c.node(i) + 1,
        Walk { bt: s.bt, best, end: i + 9, ms },
        far,
    );
}

/// A search finds nothing beyond the tree's reach.
pub proof fn lemma_near_searched(c: TreeCfg, w: Seq<u8>, s: Tree, i: int, rep: Reps, ll0: bool, gated: bool, far: int)
    requires
        0 <= i <= WIN_MAX,
        c.reach <= far,
    ensures
        near_matches(searched(c, w, s, i, rep, ll0, gated).1, far),
{
    let none = Seq::<Match>::empty();
    lemma_near_reps(c, w, i, rep, ll0, 0, c.min_match - 1, none, far);
    let r = if gated {
        (c.min_match - 1, none, false)
    } else {
        rep_matches(c, w, i, rep, ll0, 0, c.min_match - 1, none)
    };
    if r.2 {
    } else if c.min_match == 3 && r.0 < 3 && s.h3.len() > 0 {
        let s3 = updated3(c, w, s, i);
        let q = c.cand(s3.h3[hash3_slot(w, i, c.hash3_log)], i);
        let n = common_len(w, i, q);
        if q < i && i - q < 0x4_0000 && n >= 3 {
            let m = r.1.push(Match { off: (i - q + 3) as u32, len: n as u32 });
            assert(near_matches(m, far));
            lemma_near_tree_search(c, w, s3, i, n, m, far);
        } else {
            lemma_near_tree_search(c, w, s3, i, r.0, r.1, far);
        }
    } else {
        lemma_near_tree_search(c, w, s, i, r.0, r.1, far);
    }
}

proof fn lemma_near_settle(ldm: Seq<LdmSeq>, sp: Spans, pos: int, far: int)
    requires
        near_ldm(ldm, far),
        near_span(sp, far),
    ensures
        near_span(settle(ldm, sp, pos), far),
    decreases ldm.len() - sp.next,
{
    if sp.act is Some && pos < sp.act.unwrap().end {
    } else if 0 <= sp.next < ldm.len() && ldm[sp.next].split <= pos {
        let q = ldm[sp.next];
        let end = q.split + q.len;
        lemma_near_settle(
            ldm,
            Spans {
                next: sp.next + 1,
                act: if pos < end {
                    Some(crate::opt_series::Span { off: q.offset as int, start: q.split as int, end })
                } else {
                    None
                },
            },
            pos,
            far,
        );
    }
}

/// What is gathered at a position comes from no farther back than `far`.
pub proof fn lemma_near_gathered(
    c: OptCfg,
    w: Seq<u8>,
    ldm: Seq<LdmSeq>,
    h: Hunt,
    at: int,
    rep: Reps,
    ll0: bool,
    gated: bool,
    far: int,
)
    requires
        near_ldm(ldm, far),
        near_span(h.sp, far),
        c.tree.reach <= far,
        0 <= at <= WIN_MAX,
        crate::opt_series::act_ok(w, c.tree.base as int, settle(ldm, h.sp, c.tree.base + at)),
        w.len() <= WIN_MAX,
    ensures
        near_matches(gathered(c, w, ldm, h, at, rep, ll0, gated).1, far),
        near_span(gathered(c, w, ldm, h, at, rep, ll0, gated).0.sp, far),
{
    let pos = c.tree.base + at;
    lemma_near_searched(c.tree, w, updated(c.tree, w, h.tree, at), at, rep, ll0, gated, far);
    lemma_near_settle(ldm, h.sp, pos, far);
}

proof fn lemma_near_first_span(st: Stats, ultra: bool, opt: Seq<Optimal>, m: Match, far: int)
    requires
        near_nodes(opt, far),
        m.off <= far + 3,
    ensures
        near_nodes(first_span(st, ultra, opt, m), far),
    decreases m.len + 1 - opt.len(),
{
    if opt.len() <= m.len {
        let k = opt.len() as int;
        let price = opt[0].price + st.match_price_of(ultra, m.off as int, k) + st.ll_price_of(ultra, 0);
        lemma_near_first_span(st, ultra, opt.push(match_node(price, m.off, k)), m, far);
    }
}

proof fn lemma_near_first_spans(st: Stats, ultra: bool, opt: Seq<Optimal>, ms: Seq<Match>, m: int, far: int)
    requires
        near_nodes(opt, far),
        near_matches(ms, far),
    ensures
        near_nodes(first_spans(st, ultra, opt, ms, m), far),
    decreases ms.len() - m,
{
    if 0 <= m < ms.len() {
        lemma_near_first_span(st, ultra, opt, ms[m], far);
        lemma_near_first_spans(st, ultra, first_span(st, ultra, opt, ms[m]), ms, m + 1, far);
    }
}

/// The first prices of a series come from its first matches.
pub proof fn lemma_near_first_prices(c: OptCfg, st: Stats, litlen: int, rep: Reps, ms: Seq<Match>, far: int)
    requires
        near_matches(ms, far),
        0 <= far,
    ensures
        near_nodes(first_prices(c, st, litlen, rep, ms), far),
{
    lemma_near_first_spans(
        st,
        c.ultra,
        padded(seq![start_node(st, c.ultra, litlen, rep)], c.tree.min_match as int),
        ms,
        0,
        far,
    );
}

proof fn lemma_near_relax(
    c: OptCfg,
    st: Stats,
    opt: Seq<Optimal>,
    cur: int,
    base: int,
    off: u32,
    mlen: int,
    least: int,
    far: int,
)
    requires
        near_nodes(opt, far),
        off <= far + 3,
        0 <= cur,
        0 <= far,
    ensures
        near_nodes(relax_match(c, st, opt, cur, base, off, mlen, least), far),
    decreases mlen,
{
    if mlen >= least && mlen >= 3 {
        let to = cur + mlen;
        let price = base + st.match_price_of(c.ultra, off as int, mlen);
        if to > opt.len() - 2 || price < opt[to].price {
            let o = padded(opt, to + 2).update(to, match_node(price, off, mlen));
            assert(near_nodes(o, far));
            lemma_near_relax(c, st, o, cur, base, off, mlen - 1, least, far);
        } else if c.ultra {
            lemma_near_relax(c, st, opt, cur, base, off, mlen - 1, least, far);
        }
    }
}

proof fn lemma_near_relaxed(c: OptCfg, st: Stats, opt: Seq<Optimal>, cur: int, base: int, ms: Seq<Match>, m: int, far: int)
    requires
        near_nodes(opt, far),
        near_matches(ms, far),
        0 <= cur,
        0 <= far,
    ensures
        near_nodes(relaxed(c, st, opt, cur, base, ms, m), far),
    decreases ms.len() - m,
{
    if 0 <= m < ms.len() {
        let least = if m > 0 {
            ms[m - 1].len + 1
        } else {
            c.tree.min_match as int
        };
        lemma_near_relax(c, st, opt, cur, base, ms[m].off, ms[m].len as int, least, far);
        lemma_near_relaxed(
            c,
            st,
            relax_match(c, st, opt, cur, base, ms[m].off, ms[m].len as int, least),
            cur,
            base,
            ms,
            m + 1,
            far,
        );
    }
}

/// Fixing a position keeps the nodes near.
proof fn lemma_near_fixed(c: OptCfg, st: Stats, w: Seq<u8>, i: int, opt: Seq<Optimal>, cur: int, far: int)
    requires
        near_nodes(opt, far),
        1 <= cur < opt.len() - 1,
        0 <= far,
    ensures
        near_nodes(rep_fixed(lit_fixed(c, st, w, i, opt, cur), cur), far),
{
    let o = lit_fixed(c, st, w, i, opt, cur);
    assert(near_nodes(o, far));
}

/// Visiting one position keeps a series near.
proof fn lemma_near_dp_step(
    c: OptCfg,
    st: Stats,
    w: Seq<u8>,
    ldm: Seq<LdmSeq>,
    x: SeriesStart,
    d: Dp,
    cur: int,
    far: int,
)
    requires
        dp_inv(c, st, w, ldm, x, d, cur),
        cur <= d.opt.len() - 2,
        !d.done,
        near_series(d, far),
        near_ldm(ldm, far),
        c.tree.reach <= far,
    ensures
        near_series(dp_step(c, st, w, ldm, x.i, x.gated, d, cur), far),
{
    reveal(dp_step);
    lemma_near_fixed(c, st, w, x.i, d.opt, cur, far);
    let o = rep_fixed(lit_fixed(c, st, w, x.i, d.opt, cur), cur);
    if x.i + cur + HASH_READ > w.len() {
    } else if cur >= o.len() - 2 {
    } else if !c.ultra && o[cur + 1].price <= o[cur].price + 128 {
    } else {
        lemma_settle(w, c.tree.base as int, ldm, d.h.sp, c.tree.base + x.i + cur);
        lemma_near_gathered(
            c,
            w,
            ldm,
            d.h,
            x.i + cur,
            o[cur].rep,
            o[cur].litlen == 0,
            x.gated,
            far,
        );
        let g = gathered(c, w, ldm, d.h, x.i + cur, o[cur].rep, o[cur].litlen == 0, x.gated);
        if g.1.len() > 0 {
            let longest = g.1.last().len as int;
            if longest > c.tree.sufficient_len || cur + longest >= OPT_NUM || x.i + cur + longest >= w.len() {
            } else {
                let price = o[cur].price + st.ll_price_of(c.ultra, 0);
                lemma_near_relaxed(c, st, o, cur, price, g.1, 0, far);
            }
        }
    }
}

/// A whole series stays near.
pub proof fn lemma_near_dp_run(
    c: OptCfg,
    st: Stats,
    w: Seq<u8>,
    ldm: Seq<LdmSeq>,
    x: SeriesStart,
    d: Dp,
    cur: int,
    far: int,
)
    requires
        dp_inv(c, st, w, ldm, x, d, cur),
        near_series(d, far),
        near_ldm(ldm, far),
        c.tree.reach <= far,
    ensures
        near_series(dp_run(c, st, w, ldm, x.i, x.gated, d, cur), far),
    decreases 2 * OPT_NUM - cur,
{
    if d.done || cur > d.opt.len() - 2 || cur >= 2 * OPT_NUM {
    } else {
        lemma_dp_step(c, st, w, ldm, x, d, cur);
        lemma_near_dp_step(c, st, w, ldm, x, d, cur, far);
        lemma_near_dp_run(
            c,
            st,
            w,
            ldm,
            x,
            dp_step(c, st, w, ldm, x.i, x.gated, d, cur),
            cur + 1,
            far,
        );
    }
}

/// Offsets that fit 32 bits are near for a decoder that keeps everything.
pub proof fn lemma_any_near(w: Seq<u8>, base: int, ldm: Seq<LdmSeq>, d: Dp, far: int)
    requires
        spans_inv(w, base, ldm, d.h.sp),
        w.len() <= WIN_MAX,
        far >= u32::MAX,
    ensures
        near_series(d, far),
{
}

} // verus!
