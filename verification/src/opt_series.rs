//! One series of the optimal parse: from a position with matches on, the
//! cheapest way to cover the following positions with literals and matches, by
//! forward relaxation.

use vstd::prelude::*;
use crate::hash::{bytes_agree, HASH_READ};
use crate::opt_stats::{lemma_ll_price, lemma_lit_price, lemma_match_price, OptState, Stats};
use crate::opt_tree::{all_far, good_matches, lemma_filled, lemma_searched, searched, true_match, updated, Match, OptTree, Tree, TreeCfg, OPT_NUM};
use crate::parse_fast::ldm_true;
use crate::scan::{LdmSeq, MAX_BLOCK_SIZE};
use crate::sequence::{reps_after, start_reps, wire_offset, wire_ok, Reps};
use crate::tables::WIN_MAX;

verus! {

/// Price of a position that nothing reaches yet.
pub const MAX_PRICE: u32 = 0x4000_0000;

/// No price grows faster than this with every position.
pub const PRICE_STEP: u32 = 20000;

/// The cheapest known way to a position: a match of `mlen` bytes followed by
/// `litlen` literals, its price, and the repeated offsets there. Without a match
/// there are only the literals since the anchor.
#[derive(Clone, Copy, PartialEq, Eq, Structural, Debug)]
pub struct Optimal {
    pub price: u32,
    pub off: u32,
    pub mlen: u32,
    pub litlen: u32,
    pub rep: Reps,
}

/// Constants of the optimal parse of one block.
#[derive(Clone, Copy, PartialEq, Eq, Structural, Debug)]
pub struct OptCfg {
    pub tree: TreeCfg,
    /// Fractional prices and a second look at matches followed by one literal.
    pub ultra: bool,
}

impl OptCfg {
    /// Series stay inside the positions they may span.
    pub open spec fn sound(self) -> bool {
        self.tree.sufficient_len + 2 <= OPT_NUM
    }
}

/// Repeated offsets after a sequence; `ll0` if no literals precede it.
pub fn new_rep(rep: Reps, off_base: u32, ll0: bool) -> (r: Reps)
    requires
        wire_ok(
            rep,
            off_base as int,
            if ll0 {
                0
            } else {
                1
            },
        ),
    ensures
        r == reps_after(
            rep,
            off_base as int,
            if ll0 {
                0
            } else {
                1
            },
        ),
{
    let mut out: Reps = rep;
    let ll: u32 = if ll0 {
        0
    } else {
        1
    };
    out.advance(off_base, ll);
    out
}

/// A long-distance span: from `start` to `end` the bytes repeat those `off` bytes
/// before.
pub struct Span {
    pub off: int,
    pub start: int,
    pub end: int,
}

/// Cursor over the long-distance candidates of a block: the next one to take
/// up, and the span that the parse may be inside.
pub struct Spans {
    pub next: int,
    pub act: Option<Span>,
}

/// The cursor moved on to the absolute position `pos`.
pub open spec fn settle(ldm: Seq<LdmSeq>, sp: Spans, pos: int) -> Spans
    decreases ldm.len() - sp.next,
{
    if sp.act is Some && pos < sp.act.unwrap().end {
        sp
    } else if 0 <= sp.next < ldm.len() && ldm[sp.next].split <= pos {
        let q = ldm[sp.next];
        let end = q.split + q.len;
        settle(
            ldm,
            Spans {
                next: sp.next + 1,
                act: if pos < end {
                    Some(Span { off: q.offset as int, start: q.split as int, end })
                } else {
                    None
                },
            },
            pos,
        )
    } else {
        Spans { act: None, ..sp }
    }
}

/// What a settled cursor offers at `pos`: inside the span the rest of it, if that
/// is longer than every match found there.
pub open spec fn offered(sp: Spans, ms: Seq<Match>, pos: int, min_match: int) -> Option<Match> {
    match sp.act {
        None => None,
        Some(a) => {
            let len = a.end - pos;
            if pos < a.start || len < min_match || ms.len() >= OPT_NUM || (ms.len() > 0 && len <= ms.last().len) {
                None
            } else {
                Some(Match { off: (a.off + 3) as u32, len: len as u32 })
            }
        },
    }
}

/// What a search works with, and whether a long-distance candidate has ever been
/// the longest match.
pub struct Hunt {
    pub tree: Tree,
    pub sp: Spans,
    pub won: bool,
}

/// All matches at index `at`: those of the tree unless the position was skipped
/// by the fill, then the long-distance candidate.
pub open spec fn gathered(
    c: OptCfg,
    w: Seq<u8>,
    ldm: Seq<LdmSeq>,
    h: Hunt,
    at: int,
    rep: Reps,
    ll0: bool,
    gated: bool,
) -> (Hunt, Seq<Match>) {
    let pos = c.tree.base + at;
    let r = if pos < h.tree.next {
        (h.tree, Seq::empty())
    } else {
        searched(c.tree, w, updated(c.tree, w, h.tree, at), at, rep, ll0, gated)
    };
    let sp = settle(ldm, h.sp, pos);
    match offered(sp, r.1, pos, c.tree.min_match as int) {
        Some(m) => (Hunt { tree: r.0, sp, won: true }, r.1.push(m)),
        None => (Hunt { tree: r.0, sp, won: h.won }, r.1),
    }
}

/// Long-distance candidates that the parse of a window may use: each repeats
/// earlier bytes of the window, or starts behind it.
pub open spec fn spans_ok(w: Seq<u8>, base: int, ldm: Seq<LdmSeq>) -> bool {
    forall|k: int|
        0 <= k < ldm.len() ==> #[trigger] ldm_true(w, base, ldm[k]) || ldm[k].split >= base + w.len()
}

/// A span in use repeats earlier bytes of the window.
pub open spec fn act_ok(w: Seq<u8>, base: int, sp: Spans) -> bool {
    sp.act matches Some(a) ==> {
        &&& base <= a.start <= a.end
        &&& 1 <= a.off <= a.start - base
        &&& a.end <= base + w.len()
        &&& bytes_agree(w, a.start - base, a.start - base - a.off, a.end - a.start)
    }
}

/// A cursor over the candidates of a block keeps its place.
pub open spec fn spans_inv(w: Seq<u8>, base: int, ldm: Seq<LdmSeq>, sp: Spans) -> bool {
    &&& 0 <= sp.next <= ldm.len()
    &&& act_ok(w, base, sp)
}

/// A settled cursor is at a true span or between spans.
pub proof fn lemma_settle(w: Seq<u8>, base: int, ldm: Seq<LdmSeq>, sp: Spans, pos: int)
    requires
        spans_ok(w, base, ldm),
        spans_inv(w, base, ldm, sp),
        base <= pos < base + w.len(),
        w.len() <= WIN_MAX,
    ensures
        spans_inv(w, base, ldm, settle(ldm, sp, pos)),
        settle(ldm, sp, pos).act matches Some(a) ==> pos < a.end,
    decreases ldm.len() - sp.next,
{
    if sp.act is Some && pos < sp.act.unwrap().end {
    } else if 0 <= sp.next < ldm.len() && ldm[sp.next].split <= pos {
        let q = ldm[sp.next];
        let end = q.split + q.len;
        let z = Spans {
            next: sp.next + 1,
            act: if pos < end {
                Some(Span { off: q.offset as int, start: q.split as int, end })
            } else {
                None
            },
        };
        assert(ldm_true(w, base, q));
        lemma_settle(w, base, ldm, z, pos);
    }
}

/// All that is gathered at a position is a true match, each longer than the one
/// before; a gated search names no repeated offset.
pub proof fn lemma_gathered(
    c: OptCfg,
    w: Seq<u8>,
    ldm: Seq<LdmSeq>,
    h: Hunt,
    at: int,
    rep: Reps,
    ll0: bool,
    gated: bool,
)
    requires
        c.tree.fits(w, h.tree),
        spans_ok(w, c.tree.base as int, ldm),
        spans_inv(w, c.tree.base as int, ldm, h.sp),
        0 <= at,
        at + HASH_READ <= w.len(),
    ensures
        ({
            let r = gathered(c, w, ldm, h, at, rep, ll0, gated);
            &&& c.tree.fits(w, r.0.tree)
            &&& spans_inv(w, c.tree.base as int, ldm, r.0.sp)
            &&& good_matches(w, at, rep, ll0, c.tree.min_match - 1, r.1)
            &&& gated ==> all_far(r.1)
        }),
{
    let pos = c.tree.base + at;
    if pos >= h.tree.next {
        let from = crate::opt_tree::fill_start(c.tree, h.tree.next, at);
        lemma_filled(c.tree, w, h.tree, from, at);
        lemma_searched(c.tree, w, updated(c.tree, w, h.tree, at), at, rep, ll0, gated);
    }
    lemma_settle(w, c.tree.base as int, ldm, h.sp, pos);
    let r = if pos < h.tree.next {
        (h.tree, Seq::empty())
    } else {
        searched(c.tree, w, updated(c.tree, w, h.tree, at), at, rep, ll0, gated)
    };
    let sp = settle(ldm, h.sp, pos);
    if let Some(m) = offered(sp, r.1, pos, c.tree.min_match as int) {
        let a = sp.act.unwrap();
        assert forall|k: int| 0 <= k < m.len implies #[trigger] w[at + k] == w[at - a.off + k] by {
            let t = pos - a.start + k;
            assert(w[a.start - c.tree.base + t] == w[a.start - c.tree.base - a.off + t]);
        }
        assert(true_match(w, at, rep, ll0, m));
        let z = r.1.push(m);
        assert forall|j: int, k: int| 0 <= j < k < z.len() implies (#[trigger] z[j]).len < (#[trigger] z[k]).len by {
            if k == r.1.len() {
                if j < r.1.len() - 1 {
                    assert(r.1[j].len < r.1[r.1.len() - 1].len);
                }
            }
        }
    }
}

/// A position that nothing reaches yet.
pub open spec fn void_node() -> Optimal {
    Optimal { price: MAX_PRICE, off: 0, mlen: 0, litlen: 1, rep: start_reps() }
}

/// A position reached by a match.
pub open spec fn match_node(price: int, off: u32, mlen: int) -> Optimal {
    Optimal { price: price as u32, off, mlen: mlen as u32, litlen: 0, rep: start_reps() }
}

/// The start of a series, `litlen` literals after the anchor.
pub open spec fn start_node(st: Stats, ultra: bool, litlen: int, rep: Reps) -> Optimal {
    Optimal { price: st.ll_price_of(ultra, litlen) as u32, off: 0, mlen: 0, litlen: litlen as u32, rep }
}

/// At least `n` positions, new ones unreached.
pub open spec fn padded(opt: Seq<Optimal>, n: int) -> Seq<Optimal> {
    if opt.len() < n {
        opt + Seq::new((n - opt.len()) as nat, |k: int| void_node())
    } else {
        opt
    }
}

/// The positions that one of the first matches reaches beyond those that the
/// shorter ones do.
pub open spec fn first_span(st: Stats, ultra: bool, opt: Seq<Optimal>, m: Match) -> Seq<Optimal>
    decreases m.len + 1 - opt.len(),
{
    if opt.len() <= m.len {
        let k = opt.len() as int;
        let price = opt[0].price + st.match_price_of(ultra, m.off as int, k) + st.ll_price_of(ultra, 0);
        first_span(st, ultra, opt.push(match_node(price, m.off, k)), m)
    } else {
        opt
    }
}

/// The positions that the first matches reach.
pub open spec fn first_spans(st: Stats, ultra: bool, opt: Seq<Optimal>, ms: Seq<Match>, m: int) -> Seq<Optimal>
    decreases ms.len() - m,
{
    if 0 <= m < ms.len() {
        first_spans(st, ultra, first_span(st, ultra, opt, ms[m]), ms, m + 1)
    } else {
        opt
    }
}

/// A series after pricing the first matches, with one unreached position behind
/// the last one reached.
pub open spec fn first_prices(
    c: OptCfg,
    st: Stats,
    litlen: int,
    rep: Reps,
    ms: Seq<Match>,
) -> Seq<Optimal> {
    first_spans(
        st,
        c.ultra,
        padded(seq![start_node(st, c.ultra, litlen, rep)], c.tree.min_match as int),
        ms,
        0,
    ).push(void_node())
}

/// What one more literal adds to the price of a run.
pub open spec fn ll_inc(st: Stats, ultra: bool, len: int) -> int {
    st.ll_price_of(ultra, len) - st.ll_price_of(ultra, len - 1)
}

/// The position `cur` once reached by one literal more than the one before, if
/// that is no dearer. A match that ended there is then tried with one literal
/// behind it, where such a literal lowers the price of the run.
pub open spec fn lit_fixed(c: OptCfg, st: Stats, w: Seq<u8>, i: int, opt: Seq<Optimal>, cur: int) -> Seq<Optimal> {
    let u = c.ultra;
    let l = opt[cur - 1].litlen + 1;
    let price = opt[cur - 1].price + st.lit_price_of(u, w[i + cur - 1]) + ll_inc(st, u, l);
    if price <= opt[cur].price {
        let prev = opt[cur];
        let o = opt.update(cur, Optimal { litlen: l as u32, price: price as u32, ..opt[cur - 1] });
        if u && prev.litlen == 0 && ll_inc(st, u, 1) < 0 && i + cur + 1 < w.len() {
            let b = st.lit_price_of(u, w[i + cur]);
            let one = prev.price + b + ll_inc(st, u, 1);
            let more = price + b + ll_inc(st, u, l + 1);
            if one < more && one < opt[cur + 1].price {
                let p = opt[cur - prev.mlen];
                padded(o, cur + 3).update(
                    cur + 1,
                    Optimal {
                        price: one as u32,
                        litlen: 1,
                        rep: reps_after(p.rep, prev.off as int, p.litlen as int),
                        ..prev
                    },
                )
            } else {
                o
            }
        } else {
            o
        }
    } else {
        opt
    }
}

/// The repeated offsets of a position that is reached by a match.
pub open spec fn rep_fixed(opt: Seq<Optimal>, cur: int) -> Seq<Optimal> {
    let n = opt[cur];
    if n.litlen == 0 {
        let p = opt[cur - n.mlen];
        opt.update(cur, Optimal { rep: reps_after(p.rep, n.off as int, p.litlen as int), ..n })
    } else {
        opt
    }
}

/// Tries a match from `cur` in the lengths from `mlen` down to `least`. The
/// faster parse gives up at the first length that does not pay.
pub open spec fn relax_match(
    c: OptCfg,
    st: Stats,
    opt: Seq<Optimal>,
    cur: int,
    base: int,
    off: u32,
    mlen: int,
    least: int,
) -> Seq<Optimal>
    decreases mlen,
{
    if mlen >= least && mlen >= 3 {
        let to = cur + mlen;
        let price = base + st.match_price_of(c.ultra, off as int, mlen);
        if to > opt.len() - 2 || price < opt[to].price {
            relax_match(
                c,
                st,
                padded(opt, to + 2).update(to, match_node(price, off, mlen)),
                cur,
                base,
                off,
                mlen - 1,
                least,
            )
        } else if !c.ultra {
            opt
        } else {
            relax_match(c, st, opt, cur, base, off, mlen - 1, least)
        }
    } else {
        opt
    }
}

/// Tries the matches from the `m`-th on, each in the lengths that the ones
/// before do not reach.
pub open spec fn relaxed(
    c: OptCfg,
    st: Stats,
    opt: Seq<Optimal>,
    cur: int,
    base: int,
    ms: Seq<Match>,
    m: int,
) -> Seq<Optimal>
    decreases ms.len() - m,
{
    if 0 <= m < ms.len() {
        let least = if m > 0 {
            ms[m - 1].len + 1
        } else {
            c.tree.min_match as int
        };
        relaxed(
            c,
            st,
            relax_match(c, st, opt, cur, base, ms[m].off, ms[m].len as int, least),
            cur,
            base,
            ms,
            m + 1,
        )
    } else {
        opt
    }
}

/// A series in progress or at its end: the positions, what its searches work
/// with, and the match that ended it early, if one did.
pub struct Dp {
    pub opt: Seq<Optimal>,
    pub h: Hunt,
    pub jump: Option<(int, Match)>,
    pub done: bool,
}

/// The series after the position `cur`.
#[verifier::opaque]
pub open spec fn dp_step(
    c: OptCfg,
    st: Stats,
    w: Seq<u8>,
    ldm: Seq<LdmSeq>,
    i: int,
    gated: bool,
    d: Dp,
    cur: int,
) -> Dp {
    let o = rep_fixed(lit_fixed(c, st, w, i, d.opt, cur), cur);
    if i + cur + HASH_READ > w.len() {
        Dp { opt: o, ..d }
    } else if cur >= o.len() - 2 {
        Dp { opt: o, done: true, ..d }
    } else if !c.ultra && o[cur + 1].price <= o[cur].price + 128 {
        Dp { opt: o, ..d }
    } else {
        let g = gathered(c, w, ldm, d.h, i + cur, o[cur].rep, o[cur].litlen == 0, gated);
        if g.1.len() == 0 {
            Dp { opt: o, h: g.0, ..d }
        } else {
            let longest = g.1.last().len as int;
            if longest > c.tree.sufficient_len || cur + longest >= OPT_NUM || i + cur + longest >= w.len() {
                Dp { opt: o, h: g.0, jump: Some((cur, g.1.last())), done: true }
            } else {
                let base = o[cur].price + st.ll_price_of(c.ultra, 0);
                Dp { opt: relaxed(c, st, o, cur, base, g.1, 0), h: g.0, ..d }
            }
        }
    }
}

/// A whole series from the position `cur` on.
pub open spec fn dp_run(
    c: OptCfg,
    st: Stats,
    w: Seq<u8>,
    ldm: Seq<LdmSeq>,
    i: int,
    gated: bool,
    d: Dp,
    cur: int,
) -> Dp
    decreases 2 * OPT_NUM - cur,
{
    if d.done || cur > d.opt.len() - 2 || cur >= 2 * OPT_NUM {
        d
    } else {
        dp_run(c, st, w, ldm, i, gated, dp_step(c, st, w, ldm, i, gated, d, cur), cur + 1)
    }
}

/// One sequence of a path: literals, then a match.
#[derive(Clone, Copy, PartialEq, Eq, Structural, Debug)]
pub struct PathStep {
    pub lit: u32,
    pub m: Match,
}

/// The sequences on the way to the position `k`.
pub open spec fn path(opt: Seq<Optimal>, k: int) -> Seq<PathStep>
    decreases k,
{
    let n = opt[k];
    let p = k - n.litlen - n.mlen;
    if n.mlen == 0 || p < 0 || k < 0 {
        Seq::empty()
    } else {
        path(opt, p).push(PathStep { lit: opt[p].litlen, m: Match { off: n.off, len: n.mlen } })
    }
}

/// The sequences of a finished series, and how many positions it passes if it
/// has none.
pub open spec fn series_steps(d: Dp) -> Seq<PathStep> {
    match d.jump {
        Some((cur, m)) => path(d.opt, cur).push(PathStep { lit: d.opt[cur].litlen, m }),
        None => path(d.opt, d.opt.len() - 2),
    }
}

/// Where a series starts: the window index, the literals since the anchor, the
/// repeated offsets, whether they are gated, and the shortest match to look for.
pub struct SeriesStart {
    pub i: int,
    pub lit: int,
    pub rep: Reps,
    pub gated: bool,
    pub least: int,
}

/// The start of a series lies in the last block of its window.
pub open spec fn from_ok(w: Seq<u8>, x: SeriesStart) -> bool {
    &&& 0 <= x.lit <= x.i <= w.len()
    &&& w.len() - (x.i - x.lit) <= MAX_BLOCK_SIZE
    &&& w.len() <= WIN_MAX
    &&& x.rep.positive()
    &&& x.least >= 3
}

/// The match that ends at `k`, less the literals behind it, is a true one at its
/// start.
pub open spec fn match_ok(w: Seq<u8>, x: SeriesStart, opt: Seq<Optimal>, k: int) -> bool {
    let n = opt[k];
    let p = k - n.litlen - n.mlen;
    &&& 0 <= p
    &&& n.mlen >= x.least
    &&& true_match(w, x.i + p, opt[p].rep, opt[p].litlen == 0, Match { off: n.off, len: n.mlen })
    &&& x.gated ==> n.off > 3
}

/// The repeated offsets after the match that ends at `k`.
pub open spec fn rep_ok(opt: Seq<Optimal>, k: int) -> bool {
    let n = opt[k];
    let p = opt[k - n.litlen - n.mlen];
    &&& n.rep == reps_after(p.rep, n.off as int, p.litlen as int)
    &&& n.rep.positive()
}

/// Range of the price of a reached position.
pub open spec fn price_ok(c: OptCfg, st: Stats, opt: Seq<Optimal>, k: int) -> bool {
    st.ll_price_of(c.ultra, opt[k].litlen as int) <= opt[k].price <= PRICE_STEP * (k + 1)
}

/// A position that has been visited: reached by literals alone, or by a true
/// match with literals behind it, with the repeated offsets that follow.
pub open spec fn done_node(c: OptCfg, st: Stats, w: Seq<u8>, x: SeriesStart, opt: Seq<Optimal>, k: int) -> bool {
    let n = opt[k];
    &&& price_ok(c, st, opt, k)
    &&& if n.mlen == 0 {
        n.litlen == x.lit + k && n.rep == x.rep
    } else {
        match_ok(w, x, opt, k) && rep_ok(opt, k)
    }
}

/// A position that has not been visited: unreached, or reached by a match from a
/// visited one with at most one literal behind it.
pub open spec fn open_node(c: OptCfg, st: Stats, w: Seq<u8>, x: SeriesStart, opt: Seq<Optimal>, cur: int, k: int) -> bool {
    let n = opt[k];
    ||| n == void_node()
    ||| {
        &&& price_ok(c, st, opt, k)
        &&& match_ok(w, x, opt, k)
        &&& k - n.litlen - n.mlen < cur
        &&& n.litlen <= 1
        &&& n.litlen > 0 ==> rep_ok(opt, k)
    }
}

/// What a series keeps, with the positions below `cur` visited.
pub open spec fn series_inv(c: OptCfg, st: Stats, w: Seq<u8>, x: SeriesStart, opt: Seq<Optimal>, cur: int) -> bool {
    &&& from_ok(w, x)
    &&& x.least <= c.tree.min_match
    &&& 1 <= cur < opt.len()
    &&& opt.len() - 2 <= OPT_NUM
    &&& opt.len() - 2 == OPT_NUM ==> opt[OPT_NUM as int].litlen > 0
    &&& x.i + opt.len() - 2 <= w.len()
    &&& opt.last() == void_node()
    &&& forall|k: int| 0 <= k < cur ==> #[trigger] done_node(c, st, w, x, opt, k)
    &&& forall|k: int| cur <= k < opt.len() ==> #[trigger] open_node(c, st, w, x, opt, cur, k)
}

/// Real distances keep the repeated offsets real.
pub proof fn lemma_reps_positive(rep: Reps, of: int, ll: int)
    requires
        rep.positive(),
        of >= 1,
        1 <= wire_offset(rep, of, ll) <= u32::MAX,
    ensures
        reps_after(rep, of, ll).positive(),
{
}

/// Bounds of a visited position.
pub proof fn lemma_done_bounds(c: OptCfg, st: Stats, w: Seq<u8>, x: SeriesStart, opt: Seq<Optimal>, cur: int, k: int)
    requires
        series_inv(c, st, w, x, opt, cur),
        0 <= k < cur,
    ensures
        opt[k].litlen <= x.lit + k,
        opt[k].rep.positive(),
        k <= OPT_NUM + 1,
{
    assert(done_node(c, st, w, x, opt, k));
}

/// Visiting a position with one literal more than the one before.
pub proof fn lemma_lit_fixed(c: OptCfg, st: Stats, w: Seq<u8>, x: SeriesStart, opt: Seq<Optimal>, cur: int)
    requires
        series_inv(c, st, w, x, opt, cur),
        cur <= opt.len() - 2,
        st.priced(c.ultra),
    ensures
        ({
            let o = rep_fixed(lit_fixed(c, st, w, x.i, opt, cur), cur);
            series_inv(c, st, w, x, o, cur + 1)
        }),
        lit_fixed(c, st, w, x.i, opt, cur)[cur].litlen == 0 ==> lit_fixed(c, st, w, x.i, opt, cur) == opt,
        opt[cur].litlen == 0 ==> match_ok(w, x, opt, cur) && opt[cur].mlen <= cur,
        opt[cur - 1].litlen + 1 <= MAX_BLOCK_SIZE,
{
    let u = c.ultra;
    assert(done_node(c, st, w, x, opt, cur - 1));
    assert(open_node(c, st, w, x, opt, cur, cur));
    assert(open_node(c, st, w, x, opt, cur, cur + 1));
    let l = opt[cur - 1].litlen + 1;
    lemma_done_bounds(c, st, w, x, opt, cur, cur - 1);
    lemma_lit_price(st, u, w[x.i + cur - 1]);
    lemma_ll_price(st, u, l);
    lemma_ll_price(st, u, l - 1);
    lemma_ll_price(st, u, 0);
    lemma_ll_price(st, u, 1);
    let price = opt[cur - 1].price + st.lit_price_of(u, w[x.i + cur - 1]) + ll_inc(st, u, l);
    let a = lit_fixed(c, st, w, x.i, opt, cur);
    let o = rep_fixed(a, cur);
    let prev = opt[cur];
    if price <= opt[cur].price {
        let f = opt.update(cur, Optimal { litlen: l as u32, price: price as u32, ..opt[cur - 1] });
        assert(done_node(c, st, w, x, f, cur));
        let extra = u && prev.litlen == 0 && ll_inc(st, u, 1) < 0 && x.i + cur + 1 < w.len();
        let b = st.lit_price_of(u, w[x.i + cur]);
        lemma_lit_price(st, u, w[x.i + cur]);
        let one = prev.price + b + ll_inc(st, u, 1);
        let more = price + b + ll_inc(st, u, l + 1);
        if extra && one < more && one < opt[cur + 1].price {
            assert(prev != void_node());
            let p = cur - prev.mlen;
            assert(done_node(c, st, w, x, opt, p));
            lemma_done_bounds(c, st, w, x, opt, cur, p);
            lemma_reps_positive(opt[p].rep, prev.off as int, opt[p].litlen as int);
            assert(a.len() == opt.len() || a.len() == cur + 3);
            assert(open_node(c, st, w, x, a, cur + 1, cur + 1));
            assert forall|k: int| cur + 1 <= k < a.len() implies #[trigger] open_node(c, st, w, x, a, cur + 1, k) by {
                if cur + 1 < k < opt.len() {
                    assert(open_node(c, st, w, x, opt, cur, k));
                    if opt[k] != void_node() {
                        let q = k - opt[k].litlen - opt[k].mlen;
                        assert(a[q] == opt[q]);
                    }
                }
            }
            assert(a.last() == void_node());
        } else {
            assert(a == f);
            assert forall|k: int| cur + 1 <= k < a.len() implies #[trigger] open_node(c, st, w, x, a, cur + 1, k) by {
                assert(open_node(c, st, w, x, opt, cur, k));
                if opt[k] != void_node() {
                    let q = k - opt[k].litlen - opt[k].mlen;
                    assert(a[q] == opt[q]);
                }
            }
        }
        assert(o == a);
        assert forall|k: int| 0 <= k < cur + 1 implies #[trigger] done_node(c, st, w, x, a, k) by {
            if k < cur {
                assert(done_node(c, st, w, x, opt, k));
                if opt[k].mlen != 0 {
                    let q = k - opt[k].litlen - opt[k].mlen;
                    assert(a[q] == opt[q]);
                }
            } else {
                let n = opt[cur - 1];
                if n.mlen != 0 {
                    let q = cur - 1 - n.litlen - n.mlen;
                    assert(a[q] == opt[q]);
                }
            }
        }
    } else {
        assert(a == opt);
        assert(prev != void_node());
        let p = cur - prev.litlen - prev.mlen;
        assert(done_node(c, st, w, x, opt, p));
        lemma_done_bounds(c, st, w, x, opt, cur, p);
        if prev.litlen == 0 {
            lemma_reps_positive(opt[p].rep, prev.off as int, opt[p].litlen as int);
        }
        assert forall|k: int| 0 <= k < cur + 1 implies #[trigger] done_node(c, st, w, x, o, k) by {
            if k < cur {
                assert(done_node(c, st, w, x, opt, k));
                if opt[k].mlen != 0 {
                    let q = k - opt[k].litlen - opt[k].mlen;
                    assert(o[q] == opt[q]);
                }
            } else {
                assert(o[p] == opt[p]);
            }
        }
        assert forall|k: int| cur + 1 <= k < o.len() implies #[trigger] open_node(c, st, w, x, o, cur + 1, k) by {
            assert(open_node(c, st, w, x, opt, cur, k));
            if opt[k] != void_node() {
                let q = k - opt[k].litlen - opt[k].mlen;
                assert(o[q] == opt[q]);
            }
        }
    }
}

/// A match may be cut short.
pub proof fn lemma_true_shorter(w: Seq<u8>, i: int, rep: Reps, ll0: bool, m: Match, len: int)
    requires
        true_match(w, i, rep, ll0, m),
        0 <= len <= m.len,
    ensures
        true_match(w, i, rep, ll0, Match { off: m.off, len: len as u32 }),
{
}

/// Reaching one position by a match from a visited one keeps what a series
/// keeps.
pub proof fn lemma_reach(
    c: OptCfg,
    st: Stats,
    w: Seq<u8>,
    x: SeriesStart,
    opt: Seq<Optimal>,
    cur: int,
    price: int,
    off: u32,
    mlen: int,
)
    requires
        series_inv(c, st, w, x, opt, cur + 1),
        st.priced(c.ultra),
        mlen >= x.least,
        cur + mlen < OPT_NUM,
        true_match(w, x.i + cur, opt[cur].rep, opt[cur].litlen == 0, Match { off, len: mlen as u32 }),
        x.gated ==> off > 3,
        price == opt[cur].price + st.ll_price_of(c.ultra, 0) + st.match_price_of(c.ultra, off as int, mlen),
    ensures
        series_inv(c, st, w, x, padded(opt, cur + mlen + 2).update(cur + mlen, match_node(price, off, mlen)), cur + 1),
        0 <= price <= PRICE_STEP * (cur + mlen + 1),
        padded(opt, cur + mlen + 2).update(cur + mlen, match_node(price, off, mlen))[cur] == opt[cur],
        padded(opt, cur + mlen + 2).update(cur + mlen, match_node(price, off, mlen)).len() >= opt.len(),
{
    let to = cur + mlen;
    let o = padded(opt, to + 2).update(to, match_node(price, off, mlen));
    assert(done_node(c, st, w, x, opt, cur));
    lemma_ll_price(st, c.ultra, 0);
    lemma_match_price(st, c.ultra, off as int, mlen);
    assert(o[cur] == opt[cur]);
    assert(open_node(c, st, w, x, o, cur + 1, to));
    assert forall|k: int| 0 <= k < cur + 1 implies #[trigger] done_node(c, st, w, x, o, k) by {
        assert(done_node(c, st, w, x, opt, k));
        if opt[k].mlen != 0 {
            let q = k - opt[k].litlen - opt[k].mlen;
            assert(o[q] == opt[q]);
        }
    }
    assert forall|k: int| cur + 1 <= k < o.len() implies #[trigger] open_node(c, st, w, x, o, cur + 1, k) by {
        if k != to && k < opt.len() {
            assert(open_node(c, st, w, x, opt, cur + 1, k));
            if opt[k] != void_node() {
                let q = k - opt[k].litlen - opt[k].mlen;
                assert(o[q] == opt[q]);
            }
        }
    }
    assert(o.last() == void_node());
}

/// Trying a match in all its lengths keeps what a series keeps.
pub proof fn lemma_relax_match(
    c: OptCfg,
    st: Stats,
    w: Seq<u8>,
    x: SeriesStart,
    opt: Seq<Optimal>,
    cur: int,
    base: int,
    m: Match,
    mlen: int,
    least: int,
)
    requires
        series_inv(c, st, w, x, opt, cur + 1),
        st.priced(c.ultra),
        mlen <= m.len,
        least >= x.least,
        cur + m.len < OPT_NUM,
        true_match(w, x.i + cur, opt[cur].rep, opt[cur].litlen == 0, m),
        x.gated ==> m.off > 3,
        base == opt[cur].price + st.ll_price_of(c.ultra, 0),
    ensures
        ({
            let o = relax_match(c, st, opt, cur, base, m.off, mlen, least);
            &&& series_inv(c, st, w, x, o, cur + 1)
            &&& o[cur] == opt[cur]
        }),
    decreases mlen,
{
    if mlen >= least && mlen >= 3 {
        let to = cur + mlen;
        let price = base + st.match_price_of(c.ultra, m.off as int, mlen);
        if to > opt.len() - 2 || price < opt[to].price {
            lemma_true_shorter(w, x.i + cur, opt[cur].rep, opt[cur].litlen == 0, m, mlen);
            lemma_reach(c, st, w, x, opt, cur, price, m.off, mlen);
            let o = padded(opt, to + 2).update(to, match_node(price, m.off, mlen));
            lemma_relax_match(c, st, w, x, o, cur, base, m, mlen - 1, least);
        } else if !c.ultra {
        } else {
            lemma_relax_match(c, st, w, x, opt, cur, base, m, mlen - 1, least);
        }
    }
}

/// Trying all matches keeps what a series keeps.
pub proof fn lemma_relaxed(
    c: OptCfg,
    st: Stats,
    w: Seq<u8>,
    x: SeriesStart,
    opt: Seq<Optimal>,
    cur: int,
    base: int,
    ms: Seq<Match>,
    m: int,
)
    requires
        series_inv(c, st, w, x, opt, cur + 1),
        st.priced(c.ultra),
        0 <= m,
        good_matches(w, x.i + cur, opt[cur].rep, opt[cur].litlen == 0, c.tree.min_match - 1, ms),
        x.gated ==> all_far(ms),
        ms.len() > 0 ==> cur + ms.last().len < OPT_NUM,
        base == opt[cur].price + st.ll_price_of(c.ultra, 0),
    ensures
        series_inv(c, st, w, x, relaxed(c, st, opt, cur, base, ms, m), cur + 1),
    decreases ms.len() - m,
{
    if m < ms.len() {
        let least = if m > 0 {
            ms[m - 1].len + 1
        } else {
            c.tree.min_match as int
        };
        if m < ms.len() - 1 {
            assert(ms[m].len < ms[ms.len() - 1].len);
        }
        assert(true_match(w, x.i + cur, opt[cur].rep, opt[cur].litlen == 0, ms[m]));
        if m > 0 {
            assert(ms[m - 1].len > c.tree.min_match - 1);
        }
        lemma_relax_match(c, st, w, x, opt, cur, base, ms[m], ms[m].len as int, least);
        lemma_relaxed(
            c,
            st,
            w,
            x,
            relax_match(c, st, opt, cur, base, ms[m].off, ms[m].len as int, least),
            cur,
            base,
            ms,
            m + 1,
        );
    }
}

/// One more position behind the last one keeps what a series keeps.
proof fn lemma_grow(c: OptCfg, st: Stats, w: Seq<u8>, x: SeriesStart, o: Seq<Optimal>, n: Optimal)
    requires
        series_inv(c, st, w, x, o.push(void_node()), 1),
        o.len() + 1 <= OPT_NUM,
        x.i + o.len() <= w.len(),
        n == void_node() || {
            &&& n.litlen == 0
            &&& n.mlen == o.len()
            &&& n.mlen >= x.least
            &&& st.ll_price_of(c.ultra, 0) <= n.price <= PRICE_STEP * (o.len() + 1)
            &&& true_match(w, x.i, x.rep, x.lit == 0, Match { off: n.off, len: n.mlen })
            &&& x.gated ==> n.off > 3
        },
    ensures
        series_inv(c, st, w, x, o.push(n).push(void_node()), 1),
{
    let a = o.push(void_node());
    let b = o.push(n).push(void_node());
    assert(done_node(c, st, w, x, a, 0));
    assert(b[0] == a[0]);
    assert(a[0].mlen == 0);
    assert(done_node(c, st, w, x, b, 0));
    assert forall|k: int| 1 <= k < b.len() implies #[trigger] open_node(c, st, w, x, b, 1, k) by {
        if k < o.len() {
            assert(open_node(c, st, w, x, a, 1, k));
            if a[k] != void_node() {
                assert(k - a[k].litlen - a[k].mlen == 0);
            }
        }
    }
}

/// Pricing one of the first matches keeps what a series keeps.
proof fn lemma_first_span(c: OptCfg, st: Stats, w: Seq<u8>, x: SeriesStart, o: Seq<Optimal>, m: Match)
    requires
        series_inv(c, st, w, x, o.push(void_node()), 1),
        st.priced(c.ultra),
        o.len() >= x.least,
        m.len + 2 <= OPT_NUM,
        true_match(w, x.i, x.rep, x.lit == 0, m),
        x.gated ==> m.off > 3,
    ensures
        ({
            let z = first_span(st, c.ultra, o, m);
            &&& series_inv(c, st, w, x, z.push(void_node()), 1)
            &&& z.len() >= o.len()
            &&& z[0] == o[0]
        }),
    decreases m.len + 1 - o.len(),
{
    if o.len() <= m.len {
        let k = o.len() as int;
        let price = o[0].price + st.match_price_of(c.ultra, m.off as int, k) + st.ll_price_of(c.ultra, 0);
        let n = match_node(price, m.off, k);
        let a = o.push(void_node());
        assert(done_node(c, st, w, x, a, 0));
        assert(a[0] == o[0]);
        lemma_ll_price(st, c.ultra, 0);
        lemma_match_price(st, c.ultra, m.off as int, k);
        lemma_true_shorter(w, x.i, x.rep, x.lit == 0, m, k);
        lemma_grow(c, st, w, x, o, n);
        lemma_first_span(c, st, w, x, o.push(n), m);
    }
}

/// Pricing the first matches keeps what a series keeps.
proof fn lemma_first_spans(c: OptCfg, st: Stats, w: Seq<u8>, x: SeriesStart, o: Seq<Optimal>, ms: Seq<Match>, m: int)
    requires
        series_inv(c, st, w, x, o.push(void_node()), 1),
        st.priced(c.ultra),
        o.len() >= x.least,
        0 <= m,
        good_matches(w, x.i, x.rep, x.lit == 0, c.tree.min_match - 1, ms),
        x.gated ==> all_far(ms),
        ms.len() > 0 ==> ms.last().len + 2 <= OPT_NUM,
    ensures
        ({
            let z = first_spans(st, c.ultra, o, ms, m);
            &&& series_inv(c, st, w, x, z.push(void_node()), 1)
            &&& z.len() >= o.len()
        }),
    decreases ms.len() - m,
{
    if m < ms.len() {
        if m < ms.len() - 1 {
            assert(ms[m].len < ms[ms.len() - 1].len);
        }
        assert(true_match(w, x.i, x.rep, x.lit == 0, ms[m]));
        lemma_first_span(c, st, w, x, o, ms[m]);
        lemma_first_spans(c, st, w, x, first_span(st, c.ultra, o, ms[m]), ms, m + 1);
    }
}

/// A series starts with what it keeps.
pub proof fn lemma_first_prices(c: OptCfg, st: Stats, w: Seq<u8>, x: SeriesStart, ms: Seq<Match>)
    requires
        from_ok(w, x),
        x.least <= c.tree.min_match,
        st.priced(c.ultra),
        3 <= c.tree.min_match <= 4,
        good_matches(w, x.i, x.rep, x.lit == 0, c.tree.min_match - 1, ms),
        x.gated ==> all_far(ms),
        ms.len() > 0,
        ms.last().len + 2 <= OPT_NUM,
    ensures
        series_inv(c, st, w, x, first_prices(c, st, x.lit, x.rep, ms), 1),
        first_prices(c, st, x.lit, x.rep, ms).len() >= 4,
{
    let n0 = start_node(st, c.ultra, x.lit, x.rep);
    lemma_ll_price(st, c.ultra, x.lit);
    let o1 = seq![n0];
    assert(true_match(w, x.i, x.rep, x.lit == 0, ms[0]));
    assert(ms[0].len >= c.tree.min_match);
    let a = o1.push(void_node());
    assert(done_node(c, st, w, x, a, 0));
    assert(open_node(c, st, w, x, a, 1, 1));
    assert(series_inv(c, st, w, x, a, 1));
    lemma_grow(c, st, w, x, o1, void_node());
    let o2 = o1.push(void_node());
    lemma_grow(c, st, w, x, o2, void_node());
    let o3 = o2.push(void_node());
    let p = padded(o1, c.tree.min_match as int);
    if c.tree.min_match == 3 {
        assert(p =~= o3);
    } else {
        lemma_grow(c, st, w, x, o3, void_node());
        assert(p =~= o3.push(void_node()));
    }
    lemma_first_spans(c, st, w, x, p, ms, 0);
}

/// What a series and its searches keep.
pub open spec fn dp_inv(
    c: OptCfg,
    st: Stats,
    w: Seq<u8>,
    ldm: Seq<LdmSeq>,
    x: SeriesStart,
    d: Dp,
    cur: int,
) -> bool {
    &&& c.tree.fits(w, d.h.tree)
    &&& c.sound()
    &&& st.priced(c.ultra)
    &&& spans_ok(w, c.tree.base as int, ldm)
    &&& spans_inv(w, c.tree.base as int, ldm, d.h.sp)
    &&& series_inv(c, st, w, x, d.opt, cur)
    &&& d.jump matches Some((k, m)) ==> {
        &&& 0 <= k < cur
        &&& m.len >= x.least
        &&& true_match(w, x.i + k, d.opt[k].rep, d.opt[k].litlen == 0, m)
        &&& x.gated ==> m.off > 3
    }
    &&& d.jump is Some ==> d.done
}

/// Visiting one position keeps what a series keeps.
pub proof fn lemma_dp_step(
    c: OptCfg,
    st: Stats,
    w: Seq<u8>,
    ldm: Seq<LdmSeq>,
    x: SeriesStart,
    d: Dp,
    cur: int,
)
    requires
        dp_inv(c, st, w, ldm, x, d, cur),
        cur <= d.opt.len() - 2,
        !d.done,
    ensures
        dp_inv(c, st, w, ldm, x, dp_step(c, st, w, ldm, x.i, x.gated, d, cur), cur + 1),
{
    reveal(dp_step);
    lemma_lit_fixed(c, st, w, x, d.opt, cur);
    let o = rep_fixed(lit_fixed(c, st, w, x.i, d.opt, cur), cur);
    if x.i + cur + HASH_READ > w.len() {
    } else if cur >= o.len() - 2 {
    } else if !c.ultra && o[cur + 1].price <= o[cur].price + 128 {
    } else {
        lemma_gathered(c, w, ldm, d.h, x.i + cur, o[cur].rep, o[cur].litlen == 0, x.gated);
        let g = gathered(c, w, ldm, d.h, x.i + cur, o[cur].rep, o[cur].litlen == 0, x.gated);
        if g.1.len() > 0 {
            let longest = g.1.last().len as int;
            assert(true_match(w, x.i + cur, o[cur].rep, o[cur].litlen == 0, g.1[g.1.len() - 1]));
            assert(g.1[g.1.len() - 1].len > c.tree.min_match - 1);
            if longest > c.tree.sufficient_len || cur + longest >= OPT_NUM || x.i + cur + longest >= w.len() {
            } else {
                let price = o[cur].price + st.ll_price_of(c.ultra, 0);
                lemma_relaxed(c, st, w, x, o, cur, price, g.1, 0);
            }
        }
    }
}

/// A whole series keeps what a series keeps, and visits every position up to
/// its end.
pub proof fn lemma_dp_run(
    c: OptCfg,
    st: Stats,
    w: Seq<u8>,
    ldm: Seq<LdmSeq>,
    x: SeriesStart,
    d: Dp,
    cur: int,
) -> (end: int)
    requires
        dp_inv(c, st, w, ldm, x, d, cur),
        d.done && d.jump is None ==> cur == d.opt.len() - 1,
    ensures
        ({
            let z = dp_run(c, st, w, ldm, x.i, x.gated, d, cur);
            &&& dp_inv(c, st, w, ldm, x, z, end)
            &&& z.jump is None ==> end == z.opt.len() - 1
            &&& z.opt.len() >= d.opt.len()
            &&& end >= cur
        }),
    decreases 2 * OPT_NUM - cur,
{
    if d.done || cur > d.opt.len() - 2 || cur >= 2 * OPT_NUM {
        cur
    } else {
        lemma_dp_step(c, st, w, ldm, x, d, cur);
        let z = dp_step(c, st, w, ldm, x.i, x.gated, d, cur);
        lemma_step_grows(c, st, w, ldm, x, d, cur);
        lemma_dp_run(c, st, w, ldm, x, z, cur + 1)
    }
}

/// Trying matches never drops positions.
proof fn lemma_relax_grows(c: OptCfg, st: Stats, opt: Seq<Optimal>, cur: int, base: int, off: u32, mlen: int, least: int)
    requires
        cur >= 0,
    ensures
        relax_match(c, st, opt, cur, base, off, mlen, least).len() >= opt.len(),
    decreases mlen,
{
    if mlen >= least && mlen >= 3 {
        let to = cur + mlen;
        let price = base + st.match_price_of(c.ultra, off as int, mlen);
        if to > opt.len() - 2 || price < opt[to].price {
            let o = padded(opt, to + 2).update(to, match_node(price, off, mlen));
            assert(o.len() >= opt.len());
            lemma_relax_grows(c, st, o, cur, base, off, mlen - 1, least);
        } else if c.ultra {
            lemma_relax_grows(c, st, opt, cur, base, off, mlen - 1, least);
        }
    }
}

/// Trying matches never drops positions.
proof fn lemma_relaxed_grows(c: OptCfg, st: Stats, opt: Seq<Optimal>, cur: int, base: int, ms: Seq<Match>, m: int)
    requires
        cur >= 0,
    ensures
        relaxed(c, st, opt, cur, base, ms, m).len() >= opt.len(),
    decreases ms.len() - m,
{
    if 0 <= m < ms.len() {
        let least = if m > 0 {
            ms[m - 1].len + 1
        } else {
            c.tree.min_match as int
        };
        lemma_relax_grows(c, st, opt, cur, base, ms[m].off, ms[m].len as int, least);
        lemma_relaxed_grows(
            c,
            st,
            relax_match(c, st, opt, cur, base, ms[m].off, ms[m].len as int, least),
            cur,
            base,
            ms,
            m + 1,
        );
    }
}

/// Visiting a position never drops positions, and ends the series without a
/// match only at its last one.
proof fn lemma_step_grows(c: OptCfg, st: Stats, w: Seq<u8>, ldm: Seq<LdmSeq>, x: SeriesStart, d: Dp, cur: int)
    requires
        !d.done,
        d.jump is None,
        1 <= cur <= d.opt.len() - 2,
    ensures
        ({
            let z = dp_step(c, st, w, ldm, x.i, x.gated, d, cur);
            &&& z.opt.len() >= d.opt.len()
            &&& z.done && z.jump is None ==> cur == z.opt.len() - 2
        }),
{
    reveal(dp_step);
    let a = lit_fixed(c, st, w, x.i, d.opt, cur);
    assert(a.len() >= d.opt.len());
    let o = rep_fixed(a, cur);
    assert(o.len() == a.len());
    if x.i + cur + HASH_READ > w.len() || cur >= o.len() - 2 || (!c.ultra && o[cur + 1].price <= o[cur].price + 128) {
    } else {
        let g = gathered(c, w, ldm, d.h, x.i + cur, o[cur].rep, o[cur].litlen == 0, x.gated);
        let base = o[cur].price + st.ll_price_of(c.ultra, 0);
        lemma_relaxed_grows(c, st, o, cur, base, g.1, 0);
    }
}

/// Cursor over the long-distance candidates of a block.
pub struct LdmCursor {
    pub next: usize,
    /// The candidate whose span the parse may be inside.
    pub active: Option<LdmSeq>,
}

impl View for LdmCursor {
    type V = Spans;

    open spec fn view(&self) -> Spans {
        Spans {
            next: self.next as int,
            act: match self.active {
                Some(q) => Some(Span { off: q.offset as int, start: q.split as int, end: q.split + q.len }),
                None => None,
            },
        }
    }
}

impl LdmCursor {
    /// A cursor before the first candidate.
    pub fn new() -> (r: Self)
        ensures
            r@ == (Spans { next: 0, act: None }),
    {
        LdmCursor { next: 0, active: None }
    }

    /// Moves on to `pos` and adds the rest of the span there to the matches if it
    /// is longer than all of them. Returns whether it was.
    pub fn add(
        &mut self,
        ldm: &Vec<LdmSeq>,
        matches: &mut Vec<Match>,
        pos: u64,
        min_match: usize,
        Ghost(w): Ghost<Seq<u8>>,
        Ghost(base): Ghost<int>,
    ) -> (won: bool)
        requires
            spans_ok(w, base, ldm@),
            spans_inv(w, base, ldm@, old(self)@),
            base <= pos < base + w.len(),
            w.len() <= WIN_MAX,
            base + w.len() <= u64::MAX,
        ensures
            final(self)@ == settle(ldm@, old(self)@, pos as int),
            match offered(final(self)@, old(matches)@, pos as int, min_match as int) {
                Some(m) => won && final(matches)@ == old(matches)@.push(m),
                None => !won && final(matches)@ == old(matches)@,
            },
    {
        let ghost sp0 = self@;
        proof {
            lemma_settle(w, base, ldm@, sp0, pos as int);
        }
        if let Some(q) = self.active {
            if pos >= q.split + q.len as u64 {
                self.active = None;
            }
        }
        while self.active.is_none() && self.next < ldm.len() && ldm[self.next].split <= pos
            invariant
                spans_ok(w, base, ldm@),
                0 <= self.next <= ldm.len(),
                base <= pos < base + w.len(),
                base + w.len() <= u64::MAX,
                settle(ldm@, self@, pos as int) == settle(ldm@, sp0, pos as int),
                self.active matches Some(q) ==> pos < q.split + q.len,
                spans_inv(w, base, ldm@, self@),
            decreases ldm.len() - self.next,
        {
            let s: LdmSeq = ldm[self.next];
            assert(ldm_true(w, base, ldm@[self.next as int]));
            self.next = self.next + 1;
            let end: u64 = s.split + s.len as u64;
            if pos < end {
                self.active = Some(s);
            }
        }
        assert(self@ == settle(ldm@, sp0, pos as int));
        match self.active {
            None => false,
            Some(q) => {
                if pos < q.split {
                    return false;
                }
                let len: u32 = (q.split + q.len as u64 - pos) as u32;
                if (len as usize) < min_match || matches.len() >= OPT_NUM {
                    return false;
                }
                if matches.len() > 0 && len <= matches[matches.len() - 1].len {
                    return false;
                }
                matches.push(Match { off: q.offset + 3, len });
                true
            },
        }
    }
}

/// What a search works with, as held by the executable parse.
pub open spec fn hunt_of(tree: OptTree, cursor: LdmCursor, won: bool) -> Hunt {
    Hunt { tree: tree@, sp: cursor@, won }
}

/// Gathers all matches at index `at`.
pub fn gather(
    c: &OptCfg,
    win: &[u8],
    ldm: &Vec<LdmSeq>,
    tree: &mut OptTree,
    cursor: &mut LdmCursor,
    won: &mut bool,
    ms: &mut Vec<Match>,
    at: usize,
    rep: &Reps,
    ll0: bool,
    gated: bool,
)
    requires
        c.tree.fits(win@, old(tree)@),
        spans_ok(win@, c.tree.base as int, ldm@),
        spans_inv(win@, c.tree.base as int, ldm@, old(cursor)@),
        at + HASH_READ <= win@.len(),
    ensures
        (hunt_of(*final(tree), *final(cursor), *final(won)), final(ms)@) == gathered(
            *c,
            win@,
            ldm@,
            hunt_of(*old(tree), *old(cursor), *old(won)),
            at as int,
            *rep,
            ll0,
            gated,
        ),
{
    assert(win@.len() == win.len());
    let pos: u64 = c.tree.base + at as u64;
    if pos < tree.next_update {
        ms.clear();
        assert(ms@ =~= Seq::empty());
    } else {
        tree.update_tree(&c.tree, win, at);
        tree.get_all_matches(&c.tree, win, ms, at, rep, ll0, gated);
    }
    if cursor.add(ldm, ms, pos, c.tree.min_match, Ghost(win@), Ghost(c.tree.base as int)) {
        *won = true;
    }
}

/// A position that nothing reaches yet.
fn void_pos() -> (r: Optimal)
    ensures
        r == void_node(),
{
    Optimal { price: MAX_PRICE, off: 0, mlen: 0, litlen: 1, rep: Reps::start() }
}

/// Adds unreached positions up to `n` positions.
fn pad(opt: &mut Vec<Optimal>, n: usize)
    ensures
        final(opt)@ == padded(old(opt)@, n as int),
{
    let ghost o = opt@;
    while opt.len() < n
        invariant
            o.len() <= opt@.len(),
            opt@.len() > o.len() ==> opt@.len() <= n,
            opt@ == o + Seq::new((opt@.len() - o.len()) as nat, |k: int| void_node()),
        decreases n - opt.len(),
    {
        opt.push(void_pos());
        assert(opt@ =~= o + Seq::new((opt@.len() - o.len()) as nat, |k: int| void_node()));
    }
    assert(opt@ =~= padded(o, n as int));
}

/// Prices the positions that the first matches reach.
fn price_first(
    c: &OptCfg,
    st: &OptState,
    ms: &Vec<Match>,
    opt: &mut Vec<Optimal>,
    litlen: u32,
    rep: Reps,
    Ghost(w): Ghost<Seq<u8>>,
    Ghost(x): Ghost<SeriesStart>,
)
    requires
        from_ok(w, x),
        x.least <= c.tree.min_match,
        st@.priced(c.ultra),
        3 <= c.tree.min_match <= 4,
        good_matches(w, x.i, x.rep, x.lit == 0, c.tree.min_match - 1, ms@),
        x.gated ==> all_far(ms@),
        ms@.len() > 0,
        ms@.last().len + 2 <= OPT_NUM,
        x.lit == litlen,
        x.rep == rep,
    ensures
        final(opt)@ == first_prices(*c, st@, litlen as int, rep, ms@),
{
    proof {
        lemma_ll_price(st@, c.ultra, litlen as int);
        lemma_ll_price(st@, c.ultra, 0);
    }
    let price0: u32 = st.lit_length_price(c.ultra, litlen);
    let run0: u32 = st.lit_length_price(c.ultra, 0);
    opt.clear();
    opt.push(Optimal { price: price0, off: 0, mlen: 0, litlen, rep });
    assert(opt@ =~= seq![start_node(st@, c.ultra, litlen as int, rep)]);
    pad(opt, c.tree.min_match);
    let ghost o0 = opt@;
    let mut m: usize = 0;
    while m < ms.len()
        invariant
            m <= ms.len(),
            st@.priced(c.ultra),
            good_matches(w, x.i, x.rep, x.lit == 0, c.tree.min_match - 1, ms@),
            from_ok(w, x),
            ms@.last().len + 2 <= OPT_NUM,
            opt@.len() >= 3,
            opt@[0].price == price0,
            price0 < 11000,
            run0 == st@.ll_price_of(c.ultra, 0),
            run0 < 11000,
            first_spans(st@, c.ultra, opt@, ms@, m as int) == first_spans(st@, c.ultra, o0, ms@, 0),
        decreases ms.len() - m,
    {
        let cand: Match = ms[m];
        let ghost o1 = opt@;
        proof {
            assert(true_match(w, x.i, x.rep, x.lit == 0, ms@[m as int]));
            if m < ms.len() - 1 {
                assert(ms@[m as int].len < ms@[ms@.len() - 1].len);
            }
        }
        while opt.len() <= cand.len as usize
            invariant
                st@.priced(c.ultra),
                opt@.len() >= 3,
                cand.len + 2 <= OPT_NUM,
                cand.off >= 1,
                opt@[0].price == price0,
                price0 < 11000,
                run0 == st@.ll_price_of(c.ultra, 0),
                run0 < 11000,
                first_span(st@, c.ultra, opt@, cand) == first_span(st@, c.ultra, o1, cand),
            decreases cand.len + 1 - opt.len(),
        {
            let k: u32 = opt.len() as u32;
            proof {
                lemma_match_price(st@, c.ultra, cand.off as int, k as int);
            }
            let price: u32 = price0 + st.match_price(c.ultra, cand.off, k) + run0;
            opt.push(Optimal { price, off: cand.off, mlen: k, litlen: 0, rep: Reps::start() });
        }
        m = m + 1;
    }
    opt.push(void_pos());
}

/// Visits the position `cur`: literals, then the repeated offsets.
fn fix_position(
    c: &OptCfg,
    st: &OptState,
    win: &[u8],
    opt: &mut Vec<Optimal>,
    i: usize,
    cur: usize,
    Ghost(x): Ghost<SeriesStart>,
)
    requires
        series_inv(*c, st@, win@, x, old(opt)@, cur as int),
        cur <= old(opt)@.len() - 2,
        st@.priced(c.ultra),
        x.i == i,
    ensures
        final(opt)@ == rep_fixed(lit_fixed(*c, st@, win@, i as int, old(opt)@, cur as int), cur as int),
        series_inv(*c, st@, win@, x, final(opt)@, cur + 1),
{
    let u: bool = c.ultra;
    let ghost o = opt@;
    proof {
        lemma_lit_fixed(*c, st@, win@, x, o, cur as int);
        lemma_done_bounds(*c, st@, win@, x, o, cur as int, cur - 1);
        assert(done_node(*c, st@, win@, x, o, cur - 1));
        assert(open_node(*c, st@, win@, x, o, cur as int, cur as int));
        assert(open_node(*c, st@, win@, x, o, cur as int, cur + 1));
        lemma_lit_price(st@, u, win@[i + cur - 1]);
        lemma_ll_price(st@, u, o[cur - 1].litlen as int);
        lemma_ll_price(st@, u, o[cur - 1].litlen + 1);
        lemma_ll_price(st@, u, 0);
        lemma_ll_price(st@, u, 1);
    }
    assert(win@.len() == win.len());
    let before: Optimal = opt[cur - 1];
    let l: u32 = before.litlen + 1;
    let price: i64 = before.price as i64 + st.lit_price(u, win[i + cur - 1]) as i64 + (st.lit_length_price(
        u,
        l,
    ) as i64 - st.lit_length_price(u, l - 1) as i64);
    let prev: Optimal = opt[cur];
    if price <= prev.price as i64 {
        opt.set(cur, Optimal { litlen: l, price: price as u32, ..before });
        if u && prev.litlen == 0 && win.len() - i > cur + 1 {
            let inc: i64 = st.lit_length_price(u, 1) as i64 - st.lit_length_price(u, 0) as i64;
            if inc < 0 {
                proof {
                    lemma_lit_price(st@, u, win@[i + cur]);
                    lemma_ll_price(st@, u, l + 1);
                }
                let b: i64 = st.lit_price(u, win[i + cur]) as i64;
                let one: i64 = prev.price as i64 + b + inc;
                let more: i64 = price + b + (st.lit_length_price(u, l + 1) as i64 - st.lit_length_price(u, l) as i64);
                if one < more && one < opt[cur + 1].price as i64 {
                    let p: usize = cur - prev.mlen as usize;
                    assert(match_ok(win@, x, o, cur as int));
                    let r: Reps = new_rep(opt[p].rep, prev.off, opt[p].litlen == 0);
                    pad(opt, cur + 3);
                    opt.set(cur + 1, Optimal { price: one as u32, litlen: 1, rep: r, ..prev });
                }
            }
        }
    }
    assert(opt@ =~= lit_fixed(*c, st@, win@, i as int, o, cur as int));
    let n: Optimal = opt[cur];
    if n.litlen == 0 {
        assert(match_ok(win@, x, o, cur as int));
        let p: usize = cur - n.mlen as usize;
        let r: Reps = new_rep(opt[p].rep, n.off, opt[p].litlen == 0);
        opt.set(cur, Optimal { rep: r, ..n });
    }
}

/// Tries all matches from the position `cur`.
fn relax(
    c: &OptCfg,
    st: &OptState,
    opt: &mut Vec<Optimal>,
    cur: usize,
    ms: &Vec<Match>,
    Ghost(w): Ghost<Seq<u8>>,
    Ghost(x): Ghost<SeriesStart>,
)
    requires
        series_inv(*c, st@, w, x, old(opt)@, cur + 1),
        st@.priced(c.ultra),
        3 <= c.tree.min_match <= 4,
        good_matches(
            w,
            x.i + cur,
            old(opt)@[cur as int].rep,
            old(opt)@[cur as int].litlen == 0,
            c.tree.min_match - 1,
            ms@,
        ),
        x.gated ==> all_far(ms@),
        ms@.len() > 0,
        cur + ms@.last().len < OPT_NUM,
    ensures
        final(opt)@ == relaxed(
            *c,
            st@,
            old(opt)@,
            cur as int,
            old(opt)@[cur as int].price + st@.ll_price_of(c.ultra, 0),
            ms@,
            0,
        ),
{
    let ghost o0 = opt@;
    let ghost n0 = opt@[cur as int];
    proof {
        assert(done_node(*c, st@, w, x, o0, cur as int));
        lemma_ll_price(st@, c.ultra, 0);
    }
    let base: u32 = opt[cur].price + st.lit_length_price(c.ultra, 0);
    let mut m: usize = 0;
    while m < ms.len()
        invariant
            m <= ms.len(),
            series_inv(*c, st@, w, x, opt@, cur + 1),
            st@.priced(c.ultra),
            3 <= c.tree.min_match <= 4,
            n0 == opt@[cur as int],
            good_matches(w, x.i + cur, n0.rep, n0.litlen == 0, c.tree.min_match - 1, ms@),
            x.gated ==> all_far(ms@),
            cur + ms@.last().len < OPT_NUM,
            base == n0.price + st@.ll_price_of(c.ultra, 0),
            n0.price <= PRICE_STEP * (cur + 1),
            base <= PRICE_STEP * (cur + 1) + 11000,
            relaxed(*c, st@, opt@, cur as int, base as int, ms@, m as int) == relaxed(
                *c,
                st@,
                o0,
                cur as int,
                base as int,
                ms@,
                0,
            ),
        decreases ms.len() - m,
    {
        let cand: Match = ms[m];
        let least: usize = if m > 0 {
            ms[m - 1].len as usize + 1
        } else {
            c.tree.min_match
        };
        let mut mlen: usize = cand.len as usize;
        let ghost o1 = opt@;
        proof {
            assert(true_match(w, x.i + cur, n0.rep, n0.litlen == 0, ms@[m as int]));
            if m < ms.len() - 1 {
                assert(ms@[m as int].len < ms@[ms@.len() - 1].len);
            }
            if m > 0 {
                assert(ms@[m - 1].len > c.tree.min_match - 1);
            }
        }
        let ghost all = relax_match(*c, st@, o1, cur as int, base as int, cand.off, cand.len as int, least as int);
        while mlen >= least
            invariant_except_break
                all == relax_match(
                    *c,
                    st@,
                    opt@,
                    cur as int,
                    base as int,
                    cand.off,
                    mlen as int,
                    least as int,
                ),
            invariant
                least >= x.least >= 3,
                mlen <= cand.len,
                cur + cand.len < OPT_NUM,
                series_inv(*c, st@, w, x, opt@, cur + 1),
                st@.priced(c.ultra),
                n0 == opt@[cur as int],
                true_match(w, x.i + cur, n0.rep, n0.litlen == 0, cand),
                x.gated ==> cand.off > 3,
                base == n0.price + st@.ll_price_of(c.ultra, 0),
                base <= PRICE_STEP * (cur + 1) + 11000,
                base >= 0,
            ensures
                all == opt@,
            decreases mlen,
        {
            let to: usize = cur + mlen;
            proof {
                lemma_match_price(st@, c.ultra, cand.off as int, mlen as int);
            }
            let price: u32 = base + st.match_price(c.ultra, cand.off, mlen as u32);
            if to + 2 > opt.len() || price < opt[to].price {
                proof {
                    lemma_true_shorter(w, x.i + cur, n0.rep, n0.litlen == 0, cand, mlen as int);
                    lemma_reach(*c, st@, w, x, opt@, cur as int, price as int, cand.off, mlen as int);
                }
                pad(opt, to + 2);
                opt.set(
                    to,
                    Optimal { price, off: cand.off, mlen: mlen as u32, litlen: 0, rep: Reps::start() },
                );
            } else if !c.ultra {
                break;
            }
            mlen = mlen - 1;
        }
        m = m + 1;
    }
}

/// Visits one position of a series. Returns whether that ends the series, and
/// the match that does if there is one.
#[verifier::rlimit(60)]
fn visit(
    c: &OptCfg,
    st: &OptState,
    win: &[u8],
    ldm: &Vec<LdmSeq>,
    tree: &mut OptTree,
    cursor: &mut LdmCursor,
    won: &mut bool,
    ms: &mut Vec<Match>,
    opt: &mut Vec<Optimal>,
    i: usize,
    cur: usize,
    gated: bool,
    Ghost(x): Ghost<SeriesStart>,
) -> (r: (bool, Option<Match>))
    requires
        x.i == i,
        x.gated == gated,
        dp_inv(
            *c,
            st@,
            win@,
            ldm@,
            x,
            (Dp { opt: old(opt)@, h: hunt_of(*old(tree), *old(cursor), *old(won)), jump: None, done: false }),
            cur as int,
        ),
        cur + 2 <= old(opt)@.len(),
    ensures
        ({
            let d = dp_step(
                *c,
                st@,
                win@,
                ldm@,
                i as int,
                gated,
                Dp {
                    opt: old(opt)@,
                    h: hunt_of(*old(tree), *old(cursor), *old(won)),
                    jump: None,
                    done: false,
                },
                cur as int,
            );
            &&& final(opt)@ == d.opt
            &&& hunt_of(*final(tree), *final(cursor), *final(won)) == d.h
            &&& r.0 == d.done
            &&& match r.1 {
                Some(m) => d.jump == Some((cur as int, m)),
                None => d.jump is None,
            }
        }),
{
    assert(win@.len() == win.len());
    let ghost h = hunt_of(*tree, *cursor, *won);
    proof {
        reveal(dp_step);
    }
    fix_position(c, st, win, opt, i, cur, Ghost(x));
    if win.len() - i < cur + HASH_READ {
        return (false, None);
    }
    if cur + 2 >= opt.len() {
        return (true, None);
    }
    let here: Optimal = opt[cur];
    proof {
        assert(done_node(*c, st@, win@, x, opt@, cur as int));
    }
    if !c.ultra && opt[cur + 1].price <= here.price + 128 {
        return (false, None);
    }
    proof {
        lemma_gathered(*c, win@, ldm@, h, i + cur, here.rep, here.litlen == 0, gated);
    }
    gather(c, win, ldm, tree, cursor, won, ms, i + cur, &here.rep, here.litlen == 0, gated);
    if ms.len() > 0 {
        let last: Match = ms[ms.len() - 1];
        let longest: usize = last.len as usize;
        proof {
            assert(true_match(win@, i + cur, here.rep, here.litlen == 0, ms@[ms@.len() - 1]));
        }
        if longest > c.tree.sufficient_len || longest >= OPT_NUM - cur || longest >= win.len() - i - cur {
            return (true, Some(last));
        }
        relax(c, st, opt, cur, ms, Ghost(win@), Ghost(x));
    }
    (false, None)
}

/// Runs a series that starts at `i`: prices the first matches, then visits the
/// positions in turn. Returns the match that ended it early, with its position.
pub fn run_series(
    c: &OptCfg,
    st: &OptState,
    win: &[u8],
    ldm: &Vec<LdmSeq>,
    tree: &mut OptTree,
    cursor: &mut LdmCursor,
    won: &mut bool,
    ms: &mut Vec<Match>,
    opt: &mut Vec<Optimal>,
    i: usize,
    litlen: u32,
    rep: Reps,
    gated: bool,
) -> (jump: Option<(usize, Match)>)
    requires
        from_ok(win@, (SeriesStart { i: i as int, lit: litlen as int, rep, gated, least: c.tree.min_match as int })),
        st@.priced(c.ultra),
        c.sound(),
        c.tree.fits(win@, old(tree)@),
        spans_ok(win@, c.tree.base as int, ldm@),
        spans_inv(win@, c.tree.base as int, ldm@, old(cursor)@),
        good_matches(win@, i as int, rep, litlen == 0, c.tree.min_match - 1, old(ms)@),
        gated ==> all_far(old(ms)@),
        old(ms)@.len() > 0,
        old(ms)@.last().len <= c.tree.sufficient_len,
    ensures
        ({
            let d = dp_run(
                *c,
                st@,
                win@,
                ldm@,
                i as int,
                gated,
                Dp {
                    opt: first_prices(*c, st@, litlen as int, rep, old(ms)@),
                    h: hunt_of(*old(tree), *old(cursor), *old(won)),
                    jump: None,
                    done: false,
                },
                1,
            );
            &&& final(opt)@ == d.opt
            &&& hunt_of(*final(tree), *final(cursor), *final(won)) == d.h
            &&& match jump {
                Some((k, m)) => d.jump == Some((k as int, m)),
                None => d.jump is None,
            }
        }),
{
    let ghost x = SeriesStart { i: i as int, lit: litlen as int, rep, gated, least: c.tree.min_match as int };
    let ghost h0 = hunt_of(*tree, *cursor, *won);
    proof {
        lemma_first_prices(*c, st@, win@, x, ms@);
    }
    price_first(c, st, ms, opt, litlen, rep, Ghost(win@), Ghost(x));
    let ghost d0 = Dp { opt: opt@, h: h0, jump: None, done: false };
    let ghost all = dp_run(*c, st@, win@, ldm@, i as int, gated, d0, 1);
    let mut cur: usize = 1;
    while cur + 2 <= opt.len()
        invariant_except_break
            all == dp_run(
                *c,
                st@,
                win@,
                ldm@,
                i as int,
                gated,
                Dp { opt: opt@, h: hunt_of(*tree, *cursor, *won), jump: None, done: false },
                cur as int,
            ),
            dp_inv(
                *c,
                st@,
                win@,
                ldm@,
                x,
                Dp { opt: opt@, h: hunt_of(*tree, *cursor, *won), jump: None, done: false },
                cur as int,
            ),
        invariant
            x == (SeriesStart { i: i as int, lit: litlen as int, rep, gated, least: c.tree.min_match as int }),
            all == dp_run(
                *c,
                st@,
                win@,
                ldm@,
                i as int,
                gated,
                Dp {
                    opt: first_prices(*c, st@, litlen as int, rep, old(ms)@),
                    h: hunt_of(*old(tree), *old(cursor), *old(won)),
                    jump: None,
                    done: false,
                },
                1,
            ),
        ensures
            all.opt == opt@,
            all.h == hunt_of(*tree, *cursor, *won),
            all.jump is None,
        decreases 2 * OPT_NUM - cur,
    {
        let ghost d = Dp { opt: opt@, h: hunt_of(*tree, *cursor, *won), jump: None, done: false };
        let ghost z = dp_step(*c, st@, win@, ldm@, i as int, gated, d, cur as int);
        proof {
            lemma_dp_step(*c, st@, win@, ldm@, x, d, cur as int);
            assert(all == dp_run(*c, st@, win@, ldm@, i as int, gated, z, cur + 1));
        }
        let (stop, jump): (bool, Option<Match>) = visit(
            c,
            st,
            win,
            ldm,
            tree,
            cursor,
            won,
            ms,
            opt,
            i,
            cur,
            gated,
            Ghost(x),
        );
        if stop {
            assert(all == z);
            match jump {
                Some(m) => {
                    return Some((cur, m));
                },
                None => {
                    break;
                },
            }
        }
        assert(z == (Dp { opt: opt@, h: hunt_of(*tree, *cursor, *won), jump: None, done: false }));
        cur = cur + 1;
    }
    None
}

} // verus!
