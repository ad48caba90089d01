//! Search trees under different origins: where the live entries of two trees name
//! the same positions, every search finds the same, whatever else the tables hold.

use vstd::prelude::*;
use crate::hash::{lemma_mul_hash_range, slots};
use crate::opt_series::{dp_run, dp_step, first_prices, gathered, lit_fixed, relax_match, relaxed, rep_fixed, Dp, Hunt, OptCfg, Optimal, Spans};
use crate::opt_stats::Stats;
use crate::opt_tree::{close, compared, descend, fill_start, filled, filled3, hash3_slot, inserted, lemma_mul_hash32_range, limited_len, put, rep_matches, searched, tree_search, updated, updated3, Match, Tree, TreeCfg, Walk, OPT_NUM};
use crate::parse_opt::{
    opt_block, opt_once, opt_run, opt_seeded, opt_step, rebased, reoriginated, seed_span, seeds, series_at, OptSt,
};
use crate::scan::{LdmSeq, St};
use crate::sequence::Reps;

verus! {

/// Two entries that no search can tell apart: both lie at or below the origin of
/// their tables, or both name the same position below `top`.
pub open spec fn twin_entries(o: u32, e: u32, p: u32, f: u32, top: int) -> bool {
    ||| e <= o && f <= p
    ||| o < e && p < f && e - o == f - p && e - o <= top
}

/// Two tables of such entries.
pub open spec fn twin_tables(o: u32, a: Seq<u32>, p: u32, b: Seq<u32>, top: int) -> bool {
    &&& a.len() == b.len()
    &&& forall|j: int| 0 <= j < a.len() ==> twin_entries(o, #[trigger] a[j], p, b[j], top)
}

/// Two trees of such tables, filled equally far.
pub open spec fn twin_trees(o: u32, s: Tree, p: u32, t: Tree, top: int) -> bool {
    &&& twin_tables(o, s.t, p, t.t, top)
    &&& twin_tables(o, s.bt, p, t.bt, top)
    &&& twin_tables(o, s.h3, p, t.h3, top)
    &&& s.next == t.next
}

/// Two configurations that differ at most in their origins, and the positions of a
/// window whose entries do not wrap around.
pub open spec fn twin_cfgs(c: TreeCfg, b: TreeCfg, w: Seq<u8>, top: int) -> bool {
    &&& b == TreeCfg { origin: b.origin, ..c }
    &&& 1 <= c.table_log < 32
    &&& c.bt_log < 31
    &&& c.hash3_log < 32
    &&& c.base + w.len() <= top
    &&& c.origin + top < 0x1_0000_0000
    &&& b.origin + top < 0x1_0000_0000
}

/// Tables of the sizes that a configuration calls for.
pub open spec fn tree_sized(c: TreeCfg, s: Tree) -> bool {
    &&& s.t.len() == slots(c.table_log)
    &&& s.bt.len() == 2 * slots(c.bt_log)
    &&& s.h3.len() == if c.hash3_log == 0 {
        0
    } else {
        slots(c.hash3_log)
    }
}

/// A tree counts as a twin below any higher bound too.
pub proof fn lemma_twins_grow(o: u32, s: Tree, p: u32, t: Tree, low: int, top: int)
    requires
        twin_trees(o, s, p, t, low),
        low <= top,
    ensures
        twin_trees(o, s, p, t, top),
{
}

proof fn lemma_cand_twins(c: TreeCfg, b: TreeCfg, w: Seq<u8>, top: int, e: u32, f: u32, i: int)
    requires
        twin_cfgs(c, b, w, top),
        twin_entries(c.origin, e, b.origin, f, top),
        0 <= i < w.len(),
    ensures
        c.cand(e, i) == b.cand(f, i),
        0 <= c.cand(e, i) <= i,
{
    let m = 0x1_0000_0000int;
    if e <= c.origin {
        vstd::arithmetic::div_mod::lemma_small_mod((c.base + i + c.origin + 1 - e) as nat, m as nat);
        vstd::arithmetic::div_mod::lemma_small_mod((b.base + i + b.origin + 1 - f) as nat, m as nat);
    } else {
        assert(c.base + i + c.origin + 1 - e == b.base + i + b.origin + 1 - f);
    }
}

proof fn lemma_entry_twins(c: TreeCfg, b: TreeCfg, w: Seq<u8>, top: int, i: int)
    requires
        twin_cfgs(c, b, w, top),
        0 <= i < w.len(),
    ensures
        twin_entries(c.origin, c.entry(i), b.origin, b.entry(i), top),
{
    let m = 0x1_0000_0000int;
    vstd::arithmetic::div_mod::lemma_small_mod((c.base + i + c.origin + 1) as nat, m as nat);
    vstd::arithmetic::div_mod::lemma_small_mod((b.base + i + b.origin + 1) as nat, m as nat);
}

proof fn lemma_close_twins(o: u32, s: Walk, p: u32, t: Walk, top: int, sm: int, lg: int)
    requires
        twin_tables(o, s.bt, p, t.bt, top),
        t == (Walk { bt: t.bt, ..s }),
    ensures
        twin_tables(o, close(s, sm, lg).bt, p, close(t, sm, lg).bt, top),
        close(t, sm, lg) == (Walk { bt: close(t, sm, lg).bt, ..close(s, sm, lg) }),
        close(s, sm, lg).bt.len() == s.bt.len(),
{
}

/// A descent compares with the same candidates in both trees.
proof fn lemma_descend_twins(
    c: TreeCfg,
    b: TreeCfg,
    w: Seq<u8>,
    top: int,
    i: int,
    limit: int,
    q: int,
    nb: int,
    sm: int,
    lg: int,
    s: Walk,
    t: Walk,
)
    requires
        twin_cfgs(c, b, w, top),
        twin_tables(c.origin, s.bt, b.origin, t.bt, top),
        t == (Walk { bt: t.bt, ..s }),
        s.bt.len() == 2 * slots(c.bt_log),
        0 <= q <= i < w.len(),
    ensures
        ({
            let x = descend(c, w, i, limit, q, nb, sm, lg, s);
            let y = descend(b, w, i, limit, q, nb, sm, lg, t);
            &&& twin_tables(c.origin, x.bt, b.origin, y.bt, top)
            &&& y == (Walk { bt: y.bt, ..x })
            &&& x.bt.len() == s.bt.len()
        }),
    decreases nb,
{
    if q >= i || nb <= 0 {
        lemma_close_twins(c.origin, s, b.origin, t, top, sm, lg);
    } else {
        let n = limited_len(w, i, q, limit);
        let x = compared(i, q, n, s);
        let y = compared(i, q, n, t);
        assert(y == (Walk { bt: y.bt, ..x }));
        if n > s.best && n > OPT_NUM || i + n >= limit {
            lemma_close_twins(c.origin, x, b.origin, y, top, sm, lg);
        } else {
            let node = c.node(q);
            assert(b.node(q) == node);
            vstd::arithmetic::power2::lemma_pow2_pos(c.bt_log as nat);
            vstd::arithmetic::div_mod::lemma_mod_bound(c.base + q, c.ring());
            lemma_entry_twins(c, b, w, top, q);
            assert(c.stale(q, i) == b.stale(q, i));
            if w[q + n] < w[i + n] {
                let u = Walk { bt: put(x.bt, sm, c.entry(q)), ..x };
                let v = Walk { bt: put(y.bt, sm, b.entry(q)), ..y };
                if c.stale(q, i) {
                    lemma_close_twins(c.origin, u, b.origin, v, top, -1, lg);
                } else {
                    lemma_cand_twins(c, b, w, top, u.bt[node + 1], v.bt[node + 1], i);
                    lemma_descend_twins(c, b, w, top, i, limit, c.cand(u.bt[node + 1], i), nb - 1, node + 1, lg, u, v);
                }
            } else {
                let u = Walk { bt: put(x.bt, lg, c.entry(q)), ..x };
                let v = Walk { bt: put(y.bt, lg, b.entry(q)), ..y };
                if c.stale(q, i) {
                    lemma_close_twins(c.origin, u, b.origin, v, top, sm, -1);
                } else {
                    lemma_cand_twins(c, b, w, top, u.bt[node], v.bt[node], i);
                    lemma_descend_twins(c, b, w, top, i, limit, c.cand(u.bt[node], i), nb - 1, sm, node, u, v);
                }
            }
        }
    }
}

proof fn lemma_slot_range(c: TreeCfg, w: Seq<u8>, i: int)
    requires
        1 <= c.table_log < 32,
    ensures
        0 <= c.slot(w, i) < slots(c.table_log),
        1 <= c.hash3_log < 32 ==> 0 <= hash3_slot(w, i, c.hash3_log) < slots(c.hash3_log),
{
    broadcast use {lemma_mul_hash32_range, lemma_mul_hash_range};

}

proof fn lemma_inserted_twins(c: TreeCfg, b: TreeCfg, w: Seq<u8>, top: int, s: Tree, t: Tree, i: int)
    requires
        twin_cfgs(c, b, w, top),
        twin_trees(c.origin, s, b.origin, t, top),
        tree_sized(c, s),
        0 <= i < w.len(),
    ensures
        ({
            let x = inserted(c, w, s, i);
            let y = inserted(b, w, t, i);
            &&& twin_trees(c.origin, x.0, b.origin, y.0, top)
            &&& tree_sized(c, x.0)
            &&& x.1 == y.1
            &&& x.0.next == s.next
            &&& x.0.next3 == s.next3
            &&& y.0.next3 == t.next3
        }),
{
    let h = c.slot(w, i);
    lemma_slot_range(c, w, i);
    assert(b.slot(w, i) == h);
    assert(b.node(i) == c.node(i));
    let limit = if w.len() < i + OPT_NUM {
        w.len() as int
    } else {
        i + OPT_NUM
    };
    let q = c.cand(s.t[h], i);
    lemma_cand_twins(c, b, w, top, s.t[h], t.t[h], i);
    lemma_entry_twins(c, b, w, top, i);
    lemma_descend_twins(
        c,
        b,
        w,
        top,
        i,
        limit,
        q,
        c.insert_compares as int,
        c.node(i),
        c.node(i) + 1,
        Walk { bt: s.bt, best: 8, end: i + 9, ms: Seq::empty() },
        Walk { bt: t.bt, best: 8, end: i + 9, ms: Seq::empty() },
    );
}

proof fn lemma_filled_twins(c: TreeCfg, b: TreeCfg, w: Seq<u8>, top: int, s: Tree, t: Tree, from: int, to: int)
    requires
        twin_cfgs(c, b, w, top),
        twin_trees(c.origin, s, b.origin, t, top),
        tree_sized(c, s),
        0 <= from,
        to <= w.len(),
    ensures
        ({
            let x = filled(c, w, s, from, to);
            let y = filled(b, w, t, from, to);
            &&& twin_trees(c.origin, x, b.origin, y, top)
            &&& tree_sized(c, x)
            &&& x.next3 == s.next3
            &&& y.next3 == t.next3
        }),
    decreases
        if to > from {
            to - from
        } else {
            0
        },
{
    if from < to {
        lemma_inserted_twins(c, b, w, top, s, t, from);
        let x = inserted(c, w, s, from);
        let y = inserted(b, w, t, from);
        if x.1 >= 1 {
            lemma_filled_twins(c, b, w, top, x.0, y.0, from + x.1, to);
        }
    }
}

proof fn lemma_updated_twins(c: TreeCfg, b: TreeCfg, w: Seq<u8>, top: int, s: Tree, t: Tree, to: int)
    requires
        twin_cfgs(c, b, w, top),
        twin_trees(c.origin, s, b.origin, t, top),
        tree_sized(c, s),
        0 <= to <= w.len(),
    ensures
        ({
            let x = updated(c, w, s, to);
            let y = updated(b, w, t, to);
            &&& twin_trees(c.origin, x, b.origin, y, top)
            &&& tree_sized(c, x)
            &&& x.next3 == s.next3
            &&& y.next3 == t.next3
        }),
{
    assert(fill_start(c, s.next, to) == fill_start(b, t.next, to));
    lemma_filled_twins(c, b, w, top, s, t, fill_start(c, s.next, to), to);
}

proof fn lemma_filled3_twins(
    c: TreeCfg,
    b: TreeCfg,
    w: Seq<u8>,
    top: int,
    s: Seq<u32>,
    t: Seq<u32>,
    from: int,
    to: int,
)
    requires
        twin_cfgs(c, b, w, top),
        1 <= c.hash3_log,
        twin_tables(c.origin, s, b.origin, t, top),
        s.len() == slots(c.hash3_log),
        0 <= from,
        to <= w.len(),
    ensures
        twin_tables(c.origin, filled3(c, w, s, from, to), b.origin, filled3(b, w, t, from, to), top),
        filled3(c, w, s, from, to).len() == s.len(),
    decreases to - from,
{
    if from < to {
        lemma_slot_range(c, w, from);
        lemma_entry_twins(c, b, w, top, from);
        let h = hash3_slot(w, from, c.hash3_log);
        lemma_filled3_twins(c, b, w, top, s.update(h, c.entry(from)), t.update(h, b.entry(from)), from + 1, to);
    }
}

proof fn lemma_rep_matches_twins(
    c: TreeCfg,
    b: TreeCfg,
    w: Seq<u8>,
    i: int,
    rep: Reps,
    ll0: bool,
    k: int,
    best: int,
    ms: Seq<Match>,
)
    requires
        b == (TreeCfg { origin: b.origin, ..c }),
    ensures
        rep_matches(c, w, i, rep, ll0, k, best, ms) == rep_matches(b, w, i, rep, ll0, k, best, ms),
    decreases 3 - k,
{
    if k < 3 {
        let d = crate::sequence::wire_offset(
            rep,
            k + 1,
            if ll0 {
                0
            } else {
                1
            },
        );
        let n = crate::hash::common_len(w, i, i - d);
        if 1 <= d <= i && d <= c.reach && n > best {
            let m = ms.push(Match { off: (k + 1) as u32, len: n as u32 });
            lemma_rep_matches_twins(c, b, w, i, rep, ll0, k + 1, n, m);
        } else {
            lemma_rep_matches_twins(c, b, w, i, rep, ll0, k + 1, best, ms);
        }
    }
}

proof fn lemma_tree_search_twins(
    c: TreeCfg,
    b: TreeCfg,
    w: Seq<u8>,
    top: int,
    s: Tree,
    t: Tree,
    i: int,
    best: int,
    ms: Seq<Match>,
)
    requires
        twin_cfgs(c, b, w, top),
        twin_trees(c.origin, s, b.origin, t, top),
        tree_sized(c, s),
        s.next3 == t.next3,
        0 <= i < w.len(),
    ensures
        ({
            let x = tree_search(c, w, s, i, best, ms);
            let y = tree_search(b, w, t, i, best, ms);
            &&& twin_trees(c.origin, x.0, b.origin, y.0, top)
            &&& tree_sized(c, x.0)
            &&& x.0.next3 == y.0.next3
            &&& x.1 == y.1
        }),
{
    let h = c.slot(w, i);
    lemma_slot_range(c, w, i);
    assert(b.slot(w, i) == h);
    assert(b.node(i) == c.node(i));
    lemma_cand_twins(c, b, w, top, s.t[h], t.t[h], i);
    lemma_entry_twins(c, b, w, top, i);
    lemma_descend_twins(
        c,
        b,
        w,
        top,
        i,
        w.len() as int,
        c.cand(s.t[h], i),
        c.nb_compares as int,
        c.node(i),
        c.node(i) + 1,
        Walk { bt: s.bt, best, end: i + 9, ms },
        Walk { bt: t.bt, best, end: i + 9, ms },
    );
}

/// A search finds the same in both trees.
proof fn lemma_searched_twins(
    c: TreeCfg,
    b: TreeCfg,
    w: Seq<u8>,
    top: int,
    s: Tree,
    t: Tree,
    i: int,
    rep: Reps,
    ll0: bool,
    gated: bool,
)
    requires
        twin_cfgs(c, b, w, top),
        twin_trees(c.origin, s, b.origin, t, top),
        tree_sized(c, s),
        s.next3 == t.next3,
        0 <= i < w.len(),
    ensures
        ({
            let x = searched(c, w, s, i, rep, ll0, gated);
            let y = searched(b, w, t, i, rep, ll0, gated);
            &&& twin_trees(c.origin, x.0, b.origin, y.0, top)
            &&& tree_sized(c, x.0)
            &&& x.0.next3 == y.0.next3
            &&& x.1 == y.1
        }),
{
    let none = Seq::<Match>::empty();
    lemma_rep_matches_twins(c, b, w, i, rep, ll0, 0, c.min_match - 1, none);
    let r = if gated {
        (c.min_match - 1, none, false)
    } else {
        rep_matches(c, w, i, rep, ll0, 0, c.min_match - 1, none)
    };
    if !r.2 {
        if c.min_match == 3 && r.0 < 3 && s.h3.len() > 0 {
            let x = updated3(c, w, s, i);
            let y = updated3(b, w, t, i);
            let from = if s.next3 > c.base {
                s.next3 - c.base
            } else {
                0
            };
            lemma_filled3_twins(c, b, w, top, s.h3, t.h3, from, i);
            assert(twin_trees(c.origin, x, b.origin, y, top));
            lemma_slot_range(c, w, i);
            let h = hash3_slot(w, i, c.hash3_log);
            lemma_cand_twins(c, b, w, top, x.h3[h], y.h3[h], i);
            let q = c.cand(x.h3[h], i);
            let n = crate::hash::common_len(w, i, q);
            let m = r.1.push(Match { off: (i - q + 3) as u32, len: n as u32 });
            lemma_tree_search_twins(c, b, w, top, x, y, i, n, m);
            lemma_tree_search_twins(c, b, w, top, x, y, i, r.0, r.1);
        } else {
            lemma_tree_search_twins(c, b, w, top, s, t, i, r.0, r.1);
        }
    }
}

/// Two parses' searches in twin trees.
pub open spec fn twin_hunts(c: OptCfg, g: Hunt, b: OptCfg, h: Hunt, top: int) -> bool {
    &&& twin_trees(c.tree.origin, g.tree, b.tree.origin, h.tree, top)
    &&& tree_sized(c.tree, g.tree)
    &&& g.tree.next3 == h.tree.next3
    &&& g.sp == h.sp
    &&& g.won == h.won
}

/// Two configurations of the parse that differ at most in their origins.
pub open spec fn twin_parses(c: OptCfg, b: OptCfg, w: Seq<u8>, top: int) -> bool {
    &&& twin_cfgs(c.tree, b.tree, w, top)
    &&& c.ultra == b.ultra
}

proof fn lemma_gathered_twins(
    c: OptCfg,
    b: OptCfg,
    w: Seq<u8>,
    top: int,
    ldm: Seq<LdmSeq>,
    g: Hunt,
    h: Hunt,
    at: int,
    rep: Reps,
    ll0: bool,
    gated: bool,
)
    requires
        twin_parses(c, b, w, top),
        twin_hunts(c, g, b, h, top),
        0 <= at < w.len(),
    ensures
        ({
            let x = gathered(c, w, ldm, g, at, rep, ll0, gated);
            let y = gathered(b, w, ldm, h, at, rep, ll0, gated);
            &&& twin_hunts(c, x.0, b, y.0, top)
            &&& x.1 == y.1
        }),
{
    if c.tree.base + at >= g.tree.next {
        lemma_updated_twins(c.tree, b.tree, w, top, g.tree, h.tree, at);
        lemma_searched_twins(
            c.tree,
            b.tree,
            w,
            top,
            updated(c.tree, w, g.tree, at),
            updated(b.tree, w, h.tree, at),
            at,
            rep,
            ll0,
            gated,
        );
    }
}

proof fn lemma_relax_match_twins(
    c: OptCfg,
    b: OptCfg,
    st: Stats,
    opt: Seq<Optimal>,
    cur: int,
    base: int,
    off: u32,
    mlen: int,
    least: int,
)
    requires
        c.ultra == b.ultra,
    ensures
        relax_match(c, st, opt, cur, base, off, mlen, least) == relax_match(b, st, opt, cur, base, off, mlen, least),
    decreases mlen,
{
    if mlen >= least && mlen >= 3 {
        let to = cur + mlen;
        let price = base + st.match_price_of(c.ultra, off as int, mlen);
        let o = crate::opt_series::padded(opt, to + 2).update(
            to,
            crate::opt_series::match_node(price, off, mlen),
        );
        lemma_relax_match_twins(c, b, st, o, cur, base, off, mlen - 1, least);
        lemma_relax_match_twins(c, b, st, opt, cur, base, off, mlen - 1, least);
    }
}

proof fn lemma_relaxed_twins(
    c: OptCfg,
    b: OptCfg,
    st: Stats,
    opt: Seq<Optimal>,
    cur: int,
    base: int,
    ms: Seq<Match>,
    m: int,
)
    requires
        c.ultra == b.ultra,
        c.tree.min_match == b.tree.min_match,
    ensures
        relaxed(c, st, opt, cur, base, ms, m) == relaxed(b, st, opt, cur, base, ms, m),
    decreases ms.len() - m,
{
    if 0 <= m < ms.len() {
        let least = if m > 0 {
            ms[m - 1].len + 1
        } else {
            c.tree.min_match as int
        };
        lemma_relax_match_twins(c, b, st, opt, cur, base, ms[m].off, ms[m].len as int, least);
        let o = relax_match(c, st, opt, cur, base, ms[m].off, ms[m].len as int, least);
        lemma_relaxed_twins(c, b, st, o, cur, base, ms, m + 1);
    }
}

/// Two series whose searches are twins.
spec fn twin_series(c: OptCfg, d: Dp, b: OptCfg, e: Dp, top: int) -> bool {
    &&& e == (Dp { h: e.h, ..d })
    &&& twin_hunts(c, d.h, b, e.h, top)
}

proof fn lemma_dp_step_twins(
    c: OptCfg,
    b: OptCfg,
    st: Stats,
    w: Seq<u8>,
    top: int,
    ldm: Seq<LdmSeq>,
    i: int,
    gated: bool,
    d: Dp,
    e: Dp,
    cur: int,
)
    requires
        twin_parses(c, b, w, top),
        twin_series(c, d, b, e, top),
        0 <= i,
        0 <= cur,
    ensures
        twin_series(
            c,
            dp_step(c, st, w, ldm, i, gated, d, cur),
            b,
            dp_step(b, st, w, ldm, i, gated, e, cur),
            top,
        ),
{
    reveal(dp_step);
    assert(lit_fixed(c, st, w, i, d.opt, cur) == lit_fixed(b, st, w, i, d.opt, cur));
    let o = rep_fixed(lit_fixed(c, st, w, i, d.opt, cur), cur);
    if i + cur + crate::hash::HASH_READ <= w.len() {
        lemma_gathered_twins(c, b, w, top, ldm, d.h, e.h, i + cur, o[cur].rep, o[cur].litlen == 0, gated);
        let g = gathered(c, w, ldm, d.h, i + cur, o[cur].rep, o[cur].litlen == 0, gated);
        let base = o[cur].price + st.ll_price_of(c.ultra, 0);
        lemma_relaxed_twins(c, b, st, o, cur, base, g.1, 0);
    }
}

proof fn lemma_dp_run_twins(
    c: OptCfg,
    b: OptCfg,
    st: Stats,
    w: Seq<u8>,
    top: int,
    ldm: Seq<LdmSeq>,
    i: int,
    gated: bool,
    d: Dp,
    e: Dp,
    cur: int,
)
    requires
        twin_parses(c, b, w, top),
        twin_series(c, d, b, e, top),
        0 <= i,
        0 <= cur,
    ensures
        twin_series(
            c,
            dp_run(c, st, w, ldm, i, gated, d, cur),
            b,
            dp_run(b, st, w, ldm, i, gated, e, cur),
            top,
        ),
    decreases 2 * OPT_NUM - cur,
{
    if !(d.done || cur > d.opt.len() - 2 || cur >= 2 * OPT_NUM) {
        lemma_dp_step_twins(c, b, st, w, top, ldm, i, gated, d, e, cur);
        lemma_dp_run_twins(
            c,
            b,
            st,
            w,
            top,
            ldm,
            i,
            gated,
            dp_step(c, st, w, ldm, i, gated, d, cur),
            dp_step(b, st, w, ldm, i, gated, e, cur),
            cur + 1,
        );
    }
}

/// Two parses that have emitted the same, with twin searches.
spec fn twin_states(c: OptCfg, f: OptSt, b: OptCfg, g: OptSt, top: int) -> bool {
    &&& g == (OptSt { h: g.h, ..f })
    &&& twin_hunts(c, f.h, b, g.h, top)
}

proof fn lemma_series_twins(
    c: OptCfg,
    b: OptCfg,
    w: Seq<u8>,
    top: int,
    ldm: Seq<LdmSeq>,
    f: OptSt,
    g: OptSt,
    x: Hunt,
    y: Hunt,
    ms: Seq<Match>,
)
    requires
        twin_parses(c, b, w, top),
        twin_states(c, f, b, g, top),
        twin_hunts(c, x, b, y, top),
        0 <= f.s.pos,
    ensures
        twin_series(c, series_at(c, w, ldm, f, x, ms), b, series_at(b, w, ldm, g, y, ms), top),
{
    let lit = f.s.pos - f.s.anchor;
    let o = first_prices(c, f.st, lit, f.s.rep, ms);
    assert(first_prices(b, f.st, lit, f.s.rep, ms) == o);
    lemma_dp_run_twins(
        c,
        b,
        f.st,
        w,
        top,
        ldm,
        f.s.pos,
        f.s.pending != 0,
        Dp { opt: o, h: x, jump: None, done: false },
        Dp { opt: o, h: y, jump: None, done: false },
        1,
    );
}

proof fn lemma_opt_step_twins(
    c: OptCfg,
    b: OptCfg,
    w: Seq<u8>,
    top: int,
    ldm: Seq<LdmSeq>,
    f: OptSt,
    g: OptSt,
)
    requires
        twin_parses(c, b, w, top),
        twin_states(c, f, b, g, top),
        0 <= f.s.pos < w.len(),
    ensures
        twin_states(c, opt_step(c, w, ldm, f), b, opt_step(b, w, ldm, g), top),
{
    let i = f.s.pos;
    lemma_gathered_twins(c, b, w, top, ldm, f.h, g.h, i, f.s.rep, i == f.s.anchor, f.s.pending != 0);
    let x = gathered(c, w, ldm, f.h, i, f.s.rep, i == f.s.anchor, f.s.pending != 0);
    let y = gathered(b, w, ldm, g.h, i, f.s.rep, i == f.s.anchor, f.s.pending != 0);
    if x.1.len() > 0 {
        lemma_series_twins(c, b, w, top, ldm, f, g, x.0, y.0, x.1);
    }
}

proof fn lemma_opt_run_twins(
    c: OptCfg,
    b: OptCfg,
    w: Seq<u8>,
    top: int,
    ldm: Seq<LdmSeq>,
    f: OptSt,
    g: OptSt,
)
    requires
        twin_parses(c, b, w, top),
        twin_states(c, f, b, g, top),
        0 <= f.s.pos,
    ensures
        twin_states(c, opt_run(c, w, ldm, f), b, opt_run(b, w, ldm, g), top),
    decreases
        if w.len() > f.s.pos {
            w.len() - f.s.pos
        } else {
            0
        },
{
    if f.s.pos + crate::hash::HASH_READ < w.len() {
        lemma_opt_step_twins(c, b, w, top, ldm, f, g);
        let x = opt_step(c, w, ldm, f);
        if x.s.pos > f.s.pos {
            lemma_opt_run_twins(c, b, w, top, ldm, x, opt_step(b, w, ldm, g));
        }
    }
}

/// Two statistics that make the same of the next block: equal, or both fresh.
pub open spec fn twin_stats(a: Stats, b: Stats) -> bool {
    a == b || a.fresh() && b.fresh()
}

proof fn lemma_opt_once_twins(
    c: OptCfg,
    b: OptCfg,
    w: Seq<u8>,
    top: int,
    ldm: Seq<LdmSeq>,
    t: Tree,
    u: Tree,
    st: Stats,
    su: Stats,
    s: St,
)
    requires
        twin_parses(c, b, w, top),
        twin_trees(c.tree.origin, t, b.tree.origin, u, top),
        tree_sized(c.tree, t),
        twin_stats(st, su),
        0 <= s.anchor,
    ensures
        twin_states(c, opt_once(c, w, ldm, t, st, s), b, opt_once(b, w, ldm, u, su, s), top),
{
    let first = if c.tree.base + s.anchor == 0 {
        1int
    } else {
        0
    };
    let sp = Spans { next: 0, act: None };
    let src = w.subrange(s.anchor, w.len() as int);
    assert(st.rescaled(c.ultra, src) == su.rescaled(c.ultra, src));
    let z = St { pos: s.anchor + first, ..s };
    let f = OptSt {
        h: Hunt { tree: Tree { next3: t.next, ..t }, sp, won: false },
        st: st.rescaled(c.ultra, src),
        s: z,
    };
    let g = OptSt {
        h: Hunt { tree: Tree { next3: u.next, ..u }, sp, won: false },
        st: st.rescaled(c.ultra, src),
        s: z,
    };
    lemma_opt_run_twins(c, b, w, top, ldm, f, g);
}

/// Moving the origins past everything that was written retires it all.
pub proof fn lemma_twins_retire(o: u32, s: Tree, p: u32, t: Tree, top: int, o2: u32, p2: u32)
    requires
        twin_trees(o, s, p, t, top),
        o + top < o2,
        p + top < p2,
        0 <= top,
    ensures
        twin_trees(o2, s, p2, t, 0),
{
}

/// A seeding parse leaves twins.
proof fn lemma_seeded_twins(
    c: OptCfg,
    b: OptCfg,
    w: Seq<u8>,
    ldm: Seq<LdmSeq>,
    t: Tree,
    u: Tree,
    st: Stats,
    su: Stats,
    s: St,
)
    requires
        twin_parses(c, b, w, c.tree.base + w.len()),
        twin_trees(c.tree.origin, t, b.tree.origin, u, c.tree.base + w.len()),
        tree_sized(c.tree, t),
        twin_stats(st, su),
        0 <= s.anchor <= w.len(),
        c.tree.base + s.anchor == 0 ==> c.tree.origin + 2 * w.len() + 1 < 0x1_0000_0000,
        c.tree.base + s.anchor == 0 ==> b.tree.origin + 2 * w.len() + 1 < 0x1_0000_0000,
    ensures
        ({
            let x = opt_seeded(c, w, ldm, t, st, s);
            let y = opt_seeded(b, w, ldm, u, su, s);
            &&& twin_trees(x.2, x.0, y.2, y.0, c.tree.base + w.len())
            &&& tree_sized(c.tree, x.0)
            &&& twin_stats(x.1, y.1)
            &&& x.2 == c.tree.origin && y.2 == b.tree.origin || {
                &&& c.tree.base + s.anchor == 0
                &&& w.len() > 0
                &&& x.2 == c.tree.origin + w.len() + 1
                &&& y.2 == b.tree.origin + w.len() + 1
            }
        }),
{
    assert(seeds(b, w, su, s) == seeds(c, w, st, s));
    assert(seed_span(b, w, s) == seed_span(c, w, s));
    let top = c.tree.base + w.len();
    if seeds(c, w, st, s) {
        let (from, to) = seed_span(c, w, s);
        let v = w.subrange(from, to);
        let cs = rebased(c, from);
        let bs = rebased(b, from);
        let z = crate::parse_opt::fresh_scan(s);
        assert(twin_parses(cs, bs, v, top));
        lemma_opt_once_twins(cs, bs, v, top, ldm, t, u, st, su, z);
        if c.tree.base + s.anchor == 0 {
            let f = opt_once(cs, v, ldm, t, st, z);
            let g = opt_once(bs, v, ldm, u, su, z);
            let o2 = (c.tree.origin + w.len() + 1) as u32;
            let p2 = (b.tree.origin + w.len() + 1) as u32;
            vstd::arithmetic::div_mod::lemma_small_mod((c.tree.origin + w.len() + 1) as nat, 0x1_0000_0000);
            vstd::arithmetic::div_mod::lemma_small_mod((b.tree.origin + w.len() + 1) as nat, 0x1_0000_0000);
            lemma_twins_retire(c.tree.origin, f.h.tree, b.tree.origin, g.h.tree, top, o2, p2);
            lemma_twins_grow(o2, f.h.tree, p2, g.h.tree, 0, top);
        }
    }
}

/// The optimal parse of a block emits the same with twin trees, and leaves twins.
pub proof fn lemma_opt_block_twins(
    c: OptCfg,
    b: OptCfg,
    w: Seq<u8>,
    ldm: Seq<LdmSeq>,
    t: Tree,
    u: Tree,
    st: Stats,
    su: Stats,
    s: St,
    clamp: bool,
)
    requires
        twin_parses(c, b, w, c.tree.base + w.len()),
        twin_trees(c.tree.origin, t, b.tree.origin, u, c.tree.base + w.len()),
        tree_sized(c.tree, t),
        twin_stats(st, su),
        0 <= s.anchor <= w.len(),
        c.tree.base + s.anchor == 0 ==> c.tree.origin + 2 * w.len() + 1 < 0x1_0000_0000,
        c.tree.base + s.anchor == 0 ==> b.tree.origin + 2 * w.len() + 1 < 0x1_0000_0000,
    ensures
        ({
            let x = opt_block(c, w, ldm, t, st, s, clamp);
            let y = opt_block(b, w, ldm, u, su, s, clamp);
            &&& twin_trees(x.origin, x.tree, y.origin, y.tree, c.tree.base + w.len())
            &&& tree_sized(c.tree, x.tree)
            &&& x.s == y.s
            &&& x.st == y.st
            &&& x.won == y.won
            &&& x.origin == c.tree.origin && y.origin == b.tree.origin || {
                &&& c.tree.base + s.anchor == 0
                &&& w.len() > 0
                &&& x.origin == c.tree.origin + w.len() + 1
                &&& y.origin == b.tree.origin + w.len() + 1
            }
        }),
{
    lemma_seeded_twins(c, b, w, ldm, t, u, st, su, s);
    let p = opt_seeded(c, w, ldm, t, st, s);
    let q = opt_seeded(b, w, ldm, u, su, s);
    let top = c.tree.base + w.len();
    lemma_opt_once_twins(reoriginated(c, p.2), reoriginated(b, q.2), w, top, ldm, p.0, q.0, p.1, q.1, s);
}

} // verus!
