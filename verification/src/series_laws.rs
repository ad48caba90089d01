//! What a series of the optimal parse promises: every position is reached in the
//! cheapest of the ways that were tried, and what a way costs is the price of its
//! literals, its runs and its matches.

use vstd::prelude::*;
use crate::hash::HASH_READ;
use crate::opt_series::{done_node, dp_inv, dp_step, lemma_done_bounds, lemma_gathered, lemma_lit_fixed, open_node, series_inv, first_prices, first_span, first_spans, gathered, lit_fixed, match_node, padded, rep_fixed, relax_match, relaxed, start_node, void_node, Dp, Optimal, OptCfg, SeriesStart};
use crate::opt_stats::{lemma_lit_price, lemma_ll_price, lemma_match_price, Stats};
use crate::opt_tree::Match;
use crate::scan::LdmSeq;
use crate::sequence::Reps;

verus! {

/// Price of reaching `cur` by one literal more: the literal itself, and what the
/// longer run costs more.
pub open spec fn by_literal(c: OptCfg, st: Stats, w: Seq<u8>, i: int, opt: Seq<Optimal>, cur: int) -> int {
    let run = opt[cur - 1].litlen as int;
    opt[cur - 1].price + st.lit_price_of(c.ultra, w[i + cur - 1]) + st.ll_price_of(c.ultra, run + 1) - st.ll_price_of(
        c.ultra,
        run,
    )
}

/// A position is reached by one literal more where that is no dearer, at just that
/// price, and keeps its price where it is. No other position changes but the next,
/// which can only get cheaper.
pub proof fn lemma_literal_relaxes(c: OptCfg, st: Stats, w: Seq<u8>, i: int, opt: Seq<Optimal>, cur: int)
    requires
        1 <= cur < opt.len() - 1,
        0 <= by_literal(c, st, w, i, opt, cur) <= u32::MAX,
        opt[cur - 1].litlen < u32::MAX,
        opt[cur].litlen == 0 ==> opt[cur].price + st.lit_price_of(c.ultra, w[i + cur]) + st.ll_price_of(c.ultra, 1)
            >= st.ll_price_of(c.ultra, 0),
    ensures
        ({
            let r = rep_fixed(lit_fixed(c, st, w, i, opt, cur), cur);
            let price = by_literal(c, st, w, i, opt, cur);
            &&& r.len() >= opt.len()
            &&& price <= opt[cur].price ==> r[cur].price == price && r[cur].litlen == opt[cur - 1].litlen + 1 && r[cur].mlen
                == opt[cur - 1].mlen && r[cur].off == opt[cur - 1].off
            &&& price > opt[cur].price ==> r[cur].price == opt[cur].price && r[cur].litlen == opt[cur].litlen
                && r[cur].mlen == opt[cur].mlen && r[cur].off == opt[cur].off
            &&& r[cur + 1].price <= opt[cur + 1].price
            &&& forall|k: int| 0 <= k < opt.len() && k != cur && k != cur + 1 ==> #[trigger] r[k] == opt[k]
        }),
{
}

/// Price of a match from `cur`, whose run of literals ends.
pub open spec fn by_match(c: OptCfg, st: Stats, price: int, off: u32, len: int) -> int {
    price + st.ll_price_of(c.ultra, 0) + st.match_price_of(c.ultra, off as int, len)
}

/// One match, tried in its lengths down to the least: each position it can end at
/// gets cheaper or stays. With all lengths tried, each costs the cheaper of what
/// it did and what the match costs; the faster parse at least settles the longest.
proof fn lemma_match_relaxes(c: OptCfg, st: Stats, opt: Seq<Optimal>, cur: int, base: int, off: u32, mlen: int, least: int)
    requires
        0 <= cur < opt.len() - 1,
        least >= 3,
        mlen <= u32::MAX,
        forall|l: int|
            3 <= l <= mlen ==> 0 <= base + #[trigger] st.match_price_of(c.ultra, off as int, l) < 0x4000_0000,
    ensures
        ({
            let r = relax_match(c, st, opt, cur, base, off, mlen, least);
            &&& r.len() >= opt.len()
            &&& forall|k: int| 0 <= k < opt.len() - 1 ==> (#[trigger] r[k]).price <= opt[k].price
            &&& forall|k: int|
                0 <= k < r.len() && !(cur + least <= k <= cur + mlen) ==> #[trigger] r[k] == if k < opt.len() {
                    opt[k]
                } else {
                    void_node()
                }
            &&& forall|k: int|
                c.ultra && 0 <= k < r.len() - 1 && cur + least <= k <= cur + mlen ==> #[trigger] r[k] == match_node(
                    base + st.match_price_of(c.ultra, off as int, k - cur),
                    off,
                    k - cur,
                ) || (k < opt.len() && r[k] == opt[k])
            &&& forall|l: int|
                least <= l <= mlen && (c.ultra || l == mlen) ==> r.len() > cur + l + 1 && r[cur + l].price <= base
                    + #[trigger] st.match_price_of(c.ultra, off as int, l)
        }),
    decreases mlen,
{
    if mlen >= least && mlen >= 3 {
        let to = cur + mlen;
        let price = base + st.match_price_of(c.ultra, off as int, mlen);
        if to > opt.len() - 2 || price < opt[to].price {
            let o = padded(opt, to + 2).update(to, match_node(price, off, mlen));
            lemma_match_relaxes(c, st, o, cur, base, off, mlen - 1, least);
            let r = relax_match(c, st, opt, cur, base, off, mlen, least);
            assert(r == relax_match(c, st, o, cur, base, off, mlen - 1, least));
            assert(r[to] == o[to]);
            assert forall|k: int| c.ultra && 0 <= k < r.len() - 1 && cur + least <= k <= cur + mlen implies #[trigger] r[k]
                == match_node(base + st.match_price_of(c.ultra, off as int, k - cur), off, k - cur) || (k < opt.len()
                && r[k] == opt[k]) by {
                if k < to && k >= opt.len() && r[k] == o[k] {
                    assert(r[cur + (k - cur)].price <= base + st.match_price_of(c.ultra, off as int, k - cur));
                }
            }
            assert forall|k: int| 0 <= k < opt.len() - 1 implies (#[trigger] r[k]).price <= opt[k].price by {
                assert(r[k].price <= o[k].price);
            }
            assert forall|k: int| 0 <= k < r.len() && !(cur + least <= k <= cur + mlen) implies #[trigger] r[k] == if k
                < opt.len() {
                opt[k]
            } else {
                void_node()
            } by {
                if k < o.len() {
                    assert(r[k] == o[k]);
                }
            }
        } else if c.ultra {
            lemma_match_relaxes(c, st, opt, cur, base, off, mlen - 1, least);
            let r = relax_match(c, st, opt, cur, base, off, mlen, least);
            assert(r[to] == opt[to]);
        }
    }
}

/// Every match that starts at a position is tried in each of its lengths that no
/// earlier one has, and each position where one ends costs no more than the match
/// does; nothing gets dearer. Where every length is tried, the position is reached
/// by that match, at that price, or as it was.
pub proof fn lemma_matches_relax(c: OptCfg, st: Stats, opt: Seq<Optimal>, cur: int, base: int, ms: Seq<Match>, m: int, j: int, l: int)
    requires
        0 <= cur < opt.len() - 1,
        c.tree.min_match >= 3,
        0 <= m <= j < ms.len(),
        l <= ms[j].len,
        l > if j > 0 {
            ms[j - 1].len as int
        } else {
            c.tree.min_match - 1
        },
        c.ultra || l == ms[j].len,
        forall|a: int, b: int| 0 <= a < b < ms.len() ==> (#[trigger] ms[a]).len < (#[trigger] ms[b]).len,
        ms[0].len >= c.tree.min_match,
        forall|a: int, k: int|
            0 <= a < ms.len() && 3 <= k <= ms[a].len ==> 0 <= base + #[trigger] st.match_price_of(
                c.ultra,
                ms[a].off as int,
                k,
            ) < 0x4000_0000,
    ensures
        ({
            let r = relaxed(c, st, opt, cur, base, ms, m);
            &&& r.len() > cur + l + 1
            &&& r[cur + l].price <= base + st.match_price_of(c.ultra, ms[j].off as int, l)
            &&& cur + l < opt.len() - 1 ==> r[cur + l].price <= opt[cur + l].price
            &&& c.ultra ==> r[cur + l] == match_node(
                base + st.match_price_of(c.ultra, ms[j].off as int, l),
                ms[j].off,
                l,
            ) || cur + l < opt.len() && r[cur + l] == opt[cur + l]
        }),
    decreases ms.len() - m,
{
    let least = if m > 0 {
        ms[m - 1].len + 1
    } else {
        c.tree.min_match as int
    };
    let o = relax_match(c, st, opt, cur, base, ms[m].off, ms[m].len as int, least);
    if m > 0 {
        assert(ms[0].len <= ms[m - 1].len);
    }
    assert forall|k: int| 3 <= k <= ms[m].len implies 0 <= base + #[trigger] st.match_price_of(
        c.ultra,
        ms[m].off as int,
        k,
    ) < 0x4000_0000 by {}
    lemma_match_relaxes(c, st, opt, cur, base, ms[m].off, ms[m].len as int, least);
    if m < j {
        if m < j - 1 {
            assert(ms[m].len < ms[j - 1].len);
        }
        lemma_matches_relax(c, st, o, cur, base, ms, m + 1, j, l);
        let r = relaxed(c, st, opt, cur, base, ms, m);
        if c.ultra && cur + l < o.len() && r[cur + l] == o[cur + l] {
            assert(r[cur + l].price <= base + st.match_price_of(c.ultra, ms[j].off as int, l));
        }
    } else {
        assert(st.match_price_of(c.ultra, ms[j].off as int, l) == st.match_price_of(c.ultra, ms[m].off as int, l));
        lemma_later_matches_keep(c, st, o, cur, base, ms, m + 1, cur + l);
        assert(o[cur + l].price <= base + st.match_price_of(c.ultra, ms[m].off as int, l));
    }
}

/// Later matches make nothing dearer, and leave what the shorter ones reach.
proof fn lemma_later_matches_keep(c: OptCfg, st: Stats, opt: Seq<Optimal>, cur: int, base: int, ms: Seq<Match>, m: int, k: int)
    requires
        0 <= cur < opt.len() - 1,
        c.tree.min_match >= 3,
        0 <= m <= ms.len(),
        0 <= k < opt.len() - 1,
        forall|a: int, b: int| 0 <= a < b < ms.len() ==> (#[trigger] ms[a]).len < (#[trigger] ms[b]).len,
        ms.len() > 0 && ms[0].len >= c.tree.min_match,
        forall|a: int, k: int|
            0 <= a < ms.len() && 3 <= k <= ms[a].len ==> 0 <= base + #[trigger] st.match_price_of(
                c.ultra,
                ms[a].off as int,
                k,
            ) < 0x4000_0000,
    ensures
        relaxed(c, st, opt, cur, base, ms, m).len() >= opt.len(),
        relaxed(c, st, opt, cur, base, ms, m)[k].price <= opt[k].price,
        m > 0 && k <= cur + ms[m - 1].len ==> relaxed(c, st, opt, cur, base, ms, m)[k] == opt[k],
    decreases ms.len() - m,
{
    if m < ms.len() {
        let least = if m > 0 {
            ms[m - 1].len + 1
        } else {
            c.tree.min_match as int
        };
        if m > 0 {
            assert(ms[0].len <= ms[m - 1].len);
        }
        let o = relax_match(c, st, opt, cur, base, ms[m].off, ms[m].len as int, least);
        lemma_match_relaxes(c, st, opt, cur, base, ms[m].off, ms[m].len as int, least);
        lemma_later_matches_keep(c, st, o, cur, base, ms, m + 1, k);
        if m > 0 {
            assert(ms[m - 1].len < ms[m].len);
        }
    }
}

/// The first matches of a series price the positions they reach: each by the first
/// match that is long enough, at the price of the start, the ended run and the
/// match in that length.
pub proof fn lemma_first_matches_are_priced(c: OptCfg, st: Stats, litlen: int, rep: Reps, ms: Seq<Match>, j: int, l: int)
    requires
        c.tree.min_match >= 3,
        0 <= j < ms.len(),
        c.tree.min_match <= l <= ms[j].len,
        j > 0 ==> ms[j - 1].len < l,
        forall|a: int, b: int| 0 <= a < b < ms.len() ==> (#[trigger] ms[a]).len < (#[trigger] ms[b]).len,
    ensures
        ({
            let r = first_prices(c, st, litlen, rep, ms);
            &&& r.len() == ms.last().len + 2
            &&& r[0] == start_node(st, c.ultra, litlen, rep)
            &&& r[l] == match_node(by_match(c, st, r[0].price as int, ms[j].off, l), ms[j].off, l)
        }),
{
    let s = start_node(st, c.ultra, litlen, rep);
    let o = padded(seq![s], c.tree.min_match as int);
    assert(o[0] == s);
    assert(o.len() == c.tree.min_match);
    assert forall|t: int| 0 <= t < j implies (#[trigger] ms[t]).len < l by {
        if t < j - 1 {
            assert(ms[t].len < ms[j - 1].len);
        }
    }
    lemma_first_spans_price(c, st, o, ms, 0, j, l);
}

proof fn lemma_first_span_price(c: OptCfg, st: Stats, opt: Seq<Optimal>, m: Match, l: int)
    requires
        opt.len() >= 1,
    ensures
        ({
            let r = first_span(st, c.ultra, opt, m);
            &&& r.len() == if opt.len() > m.len {
                opt.len() as int
            } else {
                m.len + 1
            }
            &&& forall|k: int| 0 <= k < opt.len() ==> #[trigger] r[k] == opt[k]
            &&& opt.len() <= l <= m.len ==> r[l] == match_node(
                by_match(c, st, opt[0].price as int, m.off, l),
                m.off,
                l,
            )
        }),
    decreases m.len + 1 - opt.len(),
{
    if opt.len() <= m.len {
        let k = opt.len() as int;
        let price = opt[0].price + st.match_price_of(c.ultra, m.off as int, k) + st.ll_price_of(c.ultra, 0);
        let o = opt.push(match_node(price, m.off, k));
        lemma_first_span_price(c, st, o, m, l);
        assert(first_span(st, c.ultra, opt, m)[k] == o[k]);
    }
}

proof fn lemma_first_spans_price(c: OptCfg, st: Stats, opt: Seq<Optimal>, ms: Seq<Match>, m: int, j: int, l: int)
    requires
        1 <= opt.len(),
        0 <= m <= ms.len(),
        m > 0 ==> opt.len() == ms[m - 1].len + 1 || opt.len() == c.tree.min_match,
        opt.len() == c.tree.min_match || m > 0 && opt.len() == ms[m - 1].len + 1,
        0 <= j < ms.len(),
        m <= j ==> opt.len() <= l,
        c.tree.min_match <= l <= ms[j].len,
        forall|t: int| 0 <= t < j ==> (#[trigger] ms[t]).len < l,
        forall|a: int, b: int| 0 <= a < b < ms.len() ==> (#[trigger] ms[a]).len < (#[trigger] ms[b]).len,
    ensures
        ({
            let r = first_spans(st, c.ultra, opt, ms, m);
            &&& forall|k: int| 0 <= k < opt.len() ==> #[trigger] r[k] == opt[k]
            &&& r.len() >= opt.len()
            &&& m <= j ==> r[l] == match_node(by_match(c, st, opt[0].price as int, ms[j].off, l), ms[j].off, l)
            &&& m <= j ==> r.len() == ms.last().len + 1
            &&& m > j && opt.len() > ms[j].len ==> r.len() == if m < ms.len() {
                ms.last().len + 1
            } else {
                opt.len() as int
            }
        }),
    decreases ms.len() - m,
{
    if m < ms.len() {
        lemma_first_span_price(c, st, opt, ms[m], l);
        let o = first_span(st, c.ultra, opt, ms[m]);
        if m > j {
            assert(ms[j].len < ms[m].len);
        }
        if m > 0 {
            assert(ms[m - 1].len < ms[m].len);
        }
        lemma_first_spans_price(c, st, o, ms, m + 1, j, l);
        let r = first_spans(st, c.ultra, opt, ms, m);
        if m == j {
            assert(r[l] == o[l]);
        }
    }
}

/// The position `cur` of a series once it is visited, before its matches are tried.
pub open spec fn visited(c: OptCfg, st: Stats, w: Seq<u8>, x: SeriesStart, d: Dp, cur: int) -> Seq<Optimal> {
    rep_fixed(lit_fixed(c, st, w, x.i, d.opt, cur), cur)
}

/// The literal step of a series in bounds.
proof fn lemma_visit(c: OptCfg, st: Stats, w: Seq<u8>, x: SeriesStart, opt: Seq<Optimal>, cur: int)
    requires
        series_inv(c, st, w, x, opt, cur),
        cur <= opt.len() - 2,
        st.priced(c.ultra),
    ensures
        0 <= by_literal(c, st, w, x.i, opt, cur) < 0x4000_0000,
        opt[cur - 1].litlen < 131072,
        opt[cur].litlen == 0 ==> opt[cur].price + st.lit_price_of(c.ultra, w[x.i + cur]) + st.ll_price_of(c.ultra, 1)
            >= st.ll_price_of(c.ultra, 0),
{
    let u = c.ultra;
    assert(done_node(c, st, w, x, opt, cur - 1));
    assert(open_node(c, st, w, x, opt, cur, cur));
    lemma_lit_fixed(c, st, w, x, opt, cur);
    let l = opt[cur - 1].litlen + 1;
    lemma_done_bounds(c, st, w, x, opt, cur, cur - 1);
    lemma_lit_price(st, u, w[x.i + cur - 1]);
    lemma_lit_price(st, u, w[x.i + cur]);
    lemma_ll_price(st, u, l);
    lemma_ll_price(st, u, l - 1);
    lemma_ll_price(st, u, 0);
    lemma_ll_price(st, u, 1);
}

/// A step of a series settles its position: at the cheaper of what it cost and one
/// literal more than the position before, and for good, as nothing before it
/// changes.
pub proof fn lemma_step_settles(c: OptCfg, st: Stats, w: Seq<u8>, ldm: Seq<LdmSeq>, x: SeriesStart, d: Dp, cur: int)
    requires
        dp_inv(c, st, w, ldm, x, d, cur),
        cur <= d.opt.len() - 2,
        !d.done,
    ensures
        ({
            let r = dp_step(c, st, w, ldm, x.i, x.gated, d, cur);
            let price = by_literal(c, st, w, x.i, d.opt, cur);
            &&& r.opt[cur].price == if price <= d.opt[cur].price {
                price
            } else {
                d.opt[cur].price as int
            }
            &&& r.opt.len() >= d.opt.len()
            &&& forall|k: int| 0 <= k < cur ==> #[trigger] r.opt[k] == d.opt[k]
        }),
{
    reveal(dp_step);
    lemma_visit(c, st, w, x, d.opt, cur);
    lemma_literal_relaxes(c, st, w, x.i, d.opt, cur);
    let o = visited(c, st, w, x, d, cur);
    lemma_lit_fixed(c, st, w, x, d.opt, cur);
    assert(done_node(c, st, w, x, o, cur));
    let g = gathered(c, w, ldm, d.h, x.i + cur, o[cur].rep, o[cur].litlen == 0, x.gated);
    if x.i + cur + HASH_READ <= w.len() && cur < o.len() - 2 {
        lemma_gathered(c, w, ldm, d.h, x.i + cur, o[cur].rep, o[cur].litlen == 0, x.gated);
        let base = o[cur].price + st.ll_price_of(c.ultra, 0);
        lemma_relaxed_frame(c, st, o, cur, base, g.1, 0);
    }
}

/// Trying matches from `cur` leaves what lies up to it.
proof fn lemma_relaxed_frame(c: OptCfg, st: Stats, opt: Seq<Optimal>, cur: int, base: int, ms: Seq<Match>, m: int)
    requires
        0 <= cur < opt.len(),
        0 <= m,
    ensures
        relaxed(c, st, opt, cur, base, ms, m).len() >= opt.len(),
        forall|k: int| 0 <= k <= cur ==> #[trigger] relaxed(c, st, opt, cur, base, ms, m)[k] == opt[k],
    decreases ms.len() - m,
{
    if m < ms.len() {
        let least = if m > 0 {
            ms[m - 1].len + 1
        } else {
            c.tree.min_match as int
        };
        lemma_match_frame(c, st, opt, cur, base, ms[m].off, ms[m].len as int, least);
        let o = relax_match(c, st, opt, cur, base, ms[m].off, ms[m].len as int, least);
        lemma_relaxed_frame(c, st, o, cur, base, ms, m + 1);
        let r = relaxed(c, st, opt, cur, base, ms, m);
        assert forall|k: int| 0 <= k <= cur implies #[trigger] r[k] == opt[k] by {
            assert(r[k] == o[k]);
        }
    }
}

proof fn lemma_match_frame(c: OptCfg, st: Stats, opt: Seq<Optimal>, cur: int, base: int, off: u32, mlen: int, least: int)
    requires
        0 <= cur < opt.len(),
    ensures
        relax_match(c, st, opt, cur, base, off, mlen, least).len() >= opt.len(),
        forall|k: int| 0 <= k <= cur ==> #[trigger] relax_match(c, st, opt, cur, base, off, mlen, least)[k] == opt[k],
    decreases mlen,
{
    if mlen >= least && mlen >= 3 {
        let to = cur + mlen;
        let price = base + st.match_price_of(c.ultra, off as int, mlen);
        let r = relax_match(c, st, opt, cur, base, off, mlen, least);
        if to > opt.len() - 2 || price < opt[to].price {
            let o = padded(opt, to + 2).update(to, match_node(price, off, mlen));
            lemma_match_frame(c, st, o, cur, base, off, mlen - 1, least);
            assert forall|k: int| 0 <= k <= cur implies #[trigger] r[k] == opt[k] by {
                assert(r[k] == o[k]);
            }
        } else if c.ultra {
            lemma_match_frame(c, st, opt, cur, base, off, mlen - 1, least);
        }
    }
}

/// A step of the slower parse that searches its position either ends the series
/// with the longest match, which is then longer than the sufficient length or
/// leaves no room, or prices every match in every length: no position where one
/// ends costs more than the way over that match.
pub proof fn lemma_step_tries_matches(
    c: OptCfg,
    st: Stats,
    w: Seq<u8>,
    ldm: Seq<LdmSeq>,
    x: SeriesStart,
    d: Dp,
    cur: int,
    j: int,
    l: int,
)
    requires
        dp_inv(c, st, w, ldm, x, d, cur),
        cur <= d.opt.len() - 2,
        !d.done,
        c.ultra,
        x.i + cur + 8 <= w.len(),
        ({
            let o = visited(c, st, w, x, d, cur);
            let ms = gathered(c, w, ldm, d.h, x.i + cur, o[cur].rep, o[cur].litlen == 0, x.gated).1;
            &&& cur < o.len() - 2
            &&& 0 <= j < ms.len()
            &&& c.tree.min_match <= l <= ms[j].len
            &&& j > 0 ==> ms[j - 1].len < l
        }),
    ensures
        ({
            let o = visited(c, st, w, x, d, cur);
            let ms = gathered(c, w, ldm, d.h, x.i + cur, o[cur].rep, o[cur].litlen == 0, x.gated).1;
            let r = dp_step(c, st, w, ldm, x.i, x.gated, d, cur);
            let far = ms.last().len as int;
            let price = by_match(c, st, r.opt[cur].price as int, ms[j].off, l);
            &&& r.jump is Some <==> far > c.tree.sufficient_len || cur + far >= 4096 || x.i + cur + far >= w.len()
            &&& r.jump matches Some((k, m)) ==> k == cur && m == ms.last()
            &&& r.jump is None ==> r.opt.len() > cur + l + 1 && r.opt[cur + l].price <= price && (r.opt[cur + l]
                == match_node(price, ms[j].off, l) || cur + l < o.len() && r.opt[cur + l] == o[cur + l])
        }),
{
    reveal(dp_step);
    let o = visited(c, st, w, x, d, cur);
    lemma_lit_fixed(c, st, w, x, d.opt, cur);
    assert(done_node(c, st, w, x, o, cur));
    lemma_gathered(c, w, ldm, d.h, x.i + cur, o[cur].rep, o[cur].litlen == 0, x.gated);
    let ms = gathered(c, w, ldm, d.h, x.i + cur, o[cur].rep, o[cur].litlen == 0, x.gated).1;
    let far = ms.last().len as int;
    let base = o[cur].price + st.ll_price_of(c.ultra, 0);
    lemma_relaxed_frame(c, st, o, cur, base, ms, 0);
    if !(far > c.tree.sufficient_len || cur + far >= 4096 || x.i + cur + far >= w.len()) {
        lemma_ll_price(st, c.ultra, 0);
        assert forall|a: int, k: int| 0 <= a < ms.len() && 3 <= k <= ms[a].len implies 0 <= base
            + #[trigger] st.match_price_of(c.ultra, ms[a].off as int, k) < 0x4000_0000 by {
            if a < ms.len() - 1 {
                assert(ms[a].len < ms[ms.len() - 1].len);
            }
            lemma_match_price(st, c.ultra, ms[a].off as int, k);
        }
        lemma_matches_relax(c, st, o, cur, base, ms, 0, j, l);
    }
}

} // verus!
