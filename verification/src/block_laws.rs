//! What the sequences of one block keep to, strategy by strategy: how long matches
//! are, how far back literal offsets reach, and how owed offsets are paid.

use vstd::prelude::*;
use crate::chains::Heads;
use crate::gates::RampGate;
use crate::hash::{HASH_READ, MIN_MATCH};
use crate::opt_series::{dp_run, dp_step, first_prices, gathered, lit_fixed, rep_fixed, Dp, Hunt, OptCfg, Spans};
use crate::opt_stats::Stats;
use crate::opt_tree::{Tree, OPT_NUM};
use crate::parse_chain::{chain_block, lemma_chain_block_decodes, ChainCfg};
use crate::parse_opt::{
    lemma_opt_once_decodes, opt_block, opt_once, opt_ready, opt_run, opt_seeded, opt_step, reoriginated,
    series_at, OptSt,
};
use crate::parse_row::{lemma_row_block_decodes, row_block, RowScanCfg};
use crate::rows::Rows;
use crate::scan::{in_bounds, in_step, LdmSeq, Peer, St};
use crate::seq_codes::{word_ml, word_of};
use crate::sequence::{
    far_count, is_far, lemma_far_count, lemma_far_count_joins, lemma_nothing_paid, lemma_synced_start, long_enough, near_enough, paid, replay, Reps,
};

verus! {

/// A block's scan that has not started.
pub open spec fn unstarted(w: Seq<u8>, s: St) -> bool {
    &&& in_bounds(w, s)
    &&& s.pos == s.anchor
    &&& s.lits.len() == 0
    &&& s.seqs.len() == 0
}

/// Nothing that the scan is told to try lies farther back than `hop`.
pub open spec fn offered_within(s: St, ldm: Seq<LdmSeq>, hop: int) -> bool {
    &&& s.seed <= hop
    &&& forall|k: int| 0 <= k < ldm.len() ==> (#[trigger] ldm[k]).offset <= hop
}

/// A decoder that has the offsets of a scan that has not started.
spec fn peer_of(base: u64, s: St, ramp: RampGate, hop: int, least: int, bar: int) -> Peer {
    Peer {
        start: s.anchor,
        rep0: s.rep,
        base: base as int,
        ramp,
        far: u64::MAX as int,
        owed: s.pending,
        least,
        bar,
        hop,
        same: true,
    }
}

proof fn lemma_unstarted(w: Seq<u8>, base: u64, s: St, ramp: RampGate, hop: int, least: int, bar: int)
    requires
        unstarted(w, s),
        s.seed <= hop,
    ensures
        in_step(w, peer_of(base, s, ramp, hop, least, bar), s),
{
    assert(s.lits =~= Seq::empty());
    assert(s.seqs =~= Seq::empty());
    lemma_synced_start(w, s.anchor, s.rep, s.rep, s.pending);
    lemma_nothing_paid(s.pending, least, bar);
}

/// On the chain's row every match has at least four bytes, and one by a literal offset
/// at least as many as the row stores. Whatever history the scan starts with, no
/// literal offset is longer than the row's reach and what the scan was told to try.
pub proof fn lemma_chain_matches(
    c: ChainCfg,
    w: Seq<u8>,
    lens: Seq<u8>,
    ldm: Seq<LdmSeq>,
    h: Heads,
    s: St,
    hop: int,
    k: int,
)
    requires
        c.coherent(),
        c.link.fits(w, h),
        unstarted(w, s),
        offered_within(s, ldm, hop),
        c.walk.reach <= hop,
        0 <= k < chain_block(c, w, lens, ldm, h, s).s.seqs.len(),
    ensures
        ({
            let q = chain_block(c, w, lens, ldm, h, s).s.seqs[k];
            let ml = word_ml(q.codes, q.add);
            let of = word_of(q.codes, q.add);
            &&& ml >= MIN_MATCH
            &&& of > 3 ==> ml >= c.pick.min_match && of - 3 <= hop
        }),
{
    let ramp = RampGate::off_gate();
    let d = peer_of(c.link.base, s, ramp, hop, MIN_MATCH as int, c.pick.min_match as int);
    lemma_unstarted(w, c.link.base, s, ramp, hop, MIN_MATCH as int, c.pick.min_match as int);
    lemma_chain_block_decodes(c, w, lens, d, ldm, h, s);
    reveal(long_enough);
    reveal(near_enough);
}

/// On the chain's row, without a seed and without long-distance candidates, no literal
/// offset is out of the row's reach, whatever history the scan starts with.
pub proof fn lemma_chain_reach(c: ChainCfg, w: Seq<u8>, lens: Seq<u8>, h: Heads, s: St, k: int)
    requires
        c.coherent(),
        c.link.fits(w, h),
        unstarted(w, s),
        s.seed == 0,
        0 <= k < chain_block(c, w, lens, Seq::empty(), h, s).s.seqs.len(),
    ensures
        ({
            let q = chain_block(c, w, lens, Seq::empty(), h, s).s.seqs[k];
            let of = word_of(q.codes, q.add);
            of > 3 ==> of - 3 <= c.walk.reach
        }),
{
    lemma_chain_matches(c, w, lens, Seq::empty(), h, s, c.walk.reach as int, k);
}

/// On the chain's row a decoder that starts with exactly the scan's history ends with
/// exactly the scan's, while offsets are still owed too.
pub proof fn lemma_chain_history(c: ChainCfg, w: Seq<u8>, lens: Seq<u8>, ldm: Seq<LdmSeq>, h: Heads, s: St)
    requires
        c.coherent(),
        c.link.fits(w, h),
        unstarted(w, s),
    ensures
        ({
            let z = chain_block(c, w, lens, ldm, h, s).s;
            replay(w.take(s.anchor), s.rep, z.lits, z.seqs).rep == z.rep
        }),
{
    let ramp = RampGate::off_gate();
    let hop = u64::MAX as int;
    lemma_unstarted(w, c.link.base, s, ramp, hop, 3, 3);
    lemma_chain_block_decodes(c, w, lens, peer_of(c.link.base, s, ramp, hop, 3, 3), ldm, h, s);
}

/// On the chain's row owed offsets fall by exactly the literal ones, and nothing is
/// staged for a block without sequences.
pub proof fn lemma_chain_pays(c: ChainCfg, w: Seq<u8>, lens: Seq<u8>, ldm: Seq<LdmSeq>, h: Heads, s: St)
    requires
        c.coherent(),
        c.link.fits(w, h),
        unstarted(w, s),
    ensures
        ({
            let z = chain_block(c, w, lens, ldm, h, s).s;
            &&& paid(s.pending, z.seqs, z.pending)
            &&& z.seqs.len() == 0 ==> z.lits.len() == 0
        }),
{
    let ramp = RampGate::off_gate();
    let hop = u64::MAX as int;
    let d = peer_of(c.link.base, s, ramp, hop, 3, 3);
    lemma_unstarted(w, c.link.base, s, ramp, hop, 3, 3);
    lemma_chain_block_decodes(c, w, lens, d, ldm, h, s);
}

/// On the rows of buckets every match has at least four bytes, and one by a literal
/// offset at least as many as the row stores. Whatever history the scan starts with, no
/// literal offset is longer than the row's reach and the seed.
pub proof fn lemma_row_matches(c: RowScanCfg, w: Seq<u8>, lens: Seq<u8>, r: Rows, s: St, hop: int, k: int)
    requires
        c.coherent(),
        c.row.fits(w, r),
        unstarted(w, s),
        s.seed <= hop,
        c.row.reach <= hop,
        0 <= k < row_block(c, w, lens, r, s).s.seqs.len(),
    ensures
        ({
            let q = row_block(c, w, lens, r, s).s.seqs[k];
            let ml = word_ml(q.codes, q.add);
            let of = word_of(q.codes, q.add);
            &&& ml >= MIN_MATCH
            &&& of > 3 ==> ml >= c.pick.min_match && of - 3 <= hop
        }),
{
    let ramp = c.row.ramp;
    let d = peer_of(c.row.base, s, ramp, hop, MIN_MATCH as int, c.pick.min_match as int);
    lemma_unstarted(w, c.row.base, s, ramp, hop, MIN_MATCH as int, c.pick.min_match as int);
    lemma_row_block_decodes(c, w, lens, d, r, s);
    reveal(long_enough);
    reveal(near_enough);
}

/// On the rows of buckets a decoder that starts with exactly the scan's history ends
/// with exactly the scan's, while offsets are still owed too.
pub proof fn lemma_row_history(c: RowScanCfg, w: Seq<u8>, lens: Seq<u8>, r: Rows, s: St)
    requires
        c.coherent(),
        c.row.fits(w, r),
        unstarted(w, s),
    ensures
        ({
            let z = row_block(c, w, lens, r, s).s;
            replay(w.take(s.anchor), s.rep, z.lits, z.seqs).rep == z.rep
        }),
{
    let hop = u64::MAX as int;
    lemma_unstarted(w, c.row.base, s, c.row.ramp, hop, 3, 3);
    lemma_row_block_decodes(c, w, lens, peer_of(c.row.base, s, c.row.ramp, hop, 3, 3), r, s);
}

/// An optimal parse names no literal offset longer than its tree's reach and what it was
/// told to try, whatever history it starts with.
pub proof fn lemma_opt_reach(c: OptCfg, w: Seq<u8>, ldm: Seq<LdmSeq>, tree: Tree, st: Stats, s: St, hop: int, k: int)
    requires
        opt_ready(c, w, ldm, tree, st, s),
        offered_within(s, ldm, hop),
        c.tree.reach <= hop <= u64::MAX,
        0 <= k < opt_once(c, w, ldm, tree, st, s).s.seqs.len(),
    ensures
        ({
            let q = opt_once(c, w, ldm, tree, st, s).s.seqs[k];
            let of = word_of(q.codes, q.add);
            of > 3 ==> of - 3 <= hop
        }),
{
    lemma_opt_once_decodes(c, w, ldm, s.rep, tree, st, s, u64::MAX as int, hop);
    reveal(near_enough);
}

/// After an optimal parse a decoder that started with exactly the parse's history ends
/// with exactly the parse's, while offsets are still owed too.
pub proof fn lemma_opt_history(c: OptCfg, w: Seq<u8>, ldm: Seq<LdmSeq>, tree: Tree, st: Stats, s: St)
    requires
        opt_ready(c, w, ldm, tree, st, s),
    ensures
        ({
            let z = opt_once(c, w, ldm, tree, st, s).s;
            replay(w.take(s.anchor), s.rep, z.lits, z.seqs).rep == z.rep
        }),
{
    lemma_opt_once_decodes(c, w, ldm, s.rep, tree, st, s, u64::MAX as int, u64::MAX as int);
}

/// An optimal parse emits no match shorter than its row's least.
pub proof fn lemma_opt_matches(c: OptCfg, w: Seq<u8>, ldm: Seq<LdmSeq>, tree: Tree, st: Stats, s: St, k: int)
    requires
        opt_ready(c, w, ldm, tree, st, s),
        0 <= k < opt_once(c, w, ldm, tree, st, s).s.seqs.len(),
    ensures
        ({
            let q = opt_once(c, w, ldm, tree, st, s).s.seqs[k];
            word_ml(q.codes, q.add) >= c.tree.min_match
        }),
{
    lemma_opt_once_decodes(c, w, ldm, s.rep, tree, st, s, u64::MAX as int, u64::MAX as int);
    reveal(long_enough);
}

/// An optimal parse pays owed offsets: what is owed falls by exactly the number of
/// literal offsets, and down to zero at most.
pub proof fn lemma_opt_pays(c: OptCfg, w: Seq<u8>, ldm: Seq<LdmSeq>, tree: Tree, st: Stats, s: St)
    requires
        opt_ready(c, w, ldm, tree, st, s),
    ensures
        ({
            let z = opt_once(c, w, ldm, tree, st, s).s;
            z.pending == if far_count(z.seqs) < s.pending {
                s.pending - far_count(z.seqs)
            } else {
                0
            }
        }),
{
    lemma_opt_once_decodes(c, w, ldm, s.rep, tree, st, s, u64::MAX as int, u64::MAX as int);
    reveal(paid);
}

/// An optimal parse names no repeated offset before all owed ones are paid: none at
/// all, if it has fewer literal offsets than it owes.
pub proof fn lemma_opt_gates(c: OptCfg, w: Seq<u8>, ldm: Seq<LdmSeq>, tree: Tree, st: Stats, s: St, k: int)
    requires
        opt_ready(c, w, ldm, tree, st, s),
        0 <= k < opt_once(c, w, ldm, tree, st, s).s.seqs.len(),
    ensures
        ({
            let z = opt_once(c, w, ldm, tree, st, s).s;
            let q = z.seqs[k];
            word_of(q.codes, q.add) <= 3 ==> far_count(z.seqs.take(k)) >= s.pending && far_count(z.seqs) >= s.pending
        }),
{
    lemma_opt_once_decodes(c, w, ldm, s.rep, tree, st, s, u64::MAX as int, u64::MAX as int);
    reveal(paid);
    let z = opt_once(c, w, ldm, tree, st, s).s;
    assert(is_far(z.seqs[k]) || far_count(z.seqs.take(k)) >= s.pending);
    lemma_far_count_joins(z.seqs.take(k), z.seqs.skip(k));
    lemma_far_count(z.seqs.skip(k));
    assert(z.seqs.take(k) + z.seqs.skip(k) =~= z.seqs);
}

/// No long-distance candidate is in use or has been.
spec fn quiet(h: Hunt) -> bool {
    h.sp.act is None && !h.won
}

proof fn lemma_gathered_quiet(c: OptCfg, w: Seq<u8>, h: Hunt, at: int, rep: Reps, ll0: bool, gated: bool)
    requires
        quiet(h),
    ensures
        quiet(gathered(c, w, Seq::empty(), h, at, rep, ll0, gated).0),
{
}

proof fn lemma_dp_quiet(c: OptCfg, st: Stats, w: Seq<u8>, i: int, gated: bool, d: Dp, cur: int)
    requires
        quiet(d.h),
    ensures
        quiet(dp_run(c, st, w, Seq::empty(), i, gated, d, cur).h),
    decreases 2 * OPT_NUM - cur,
{
    if d.done || cur > d.opt.len() - 2 || cur >= 2 * OPT_NUM {
    } else {
        let z = dp_step(c, st, w, Seq::empty(), i, gated, d, cur);
        assert(quiet(z.h)) by {
            reveal(dp_step);
            let o = rep_fixed(lit_fixed(c, st, w, i, d.opt, cur), cur);
            lemma_gathered_quiet(c, w, d.h, i + cur, o[cur].rep, o[cur].litlen == 0, gated);
        }
        lemma_dp_quiet(c, st, w, i, gated, z, cur + 1);
    }
}

proof fn lemma_opt_run_quiet(c: OptCfg, w: Seq<u8>, f: OptSt)
    requires
        quiet(f.h),
    ensures
        quiet(opt_run(c, w, Seq::empty(), f).h),
    decreases
        if w.len() > f.s.pos {
            w.len() - f.s.pos
        } else {
            0
        },
{
    if f.s.pos + HASH_READ < w.len() {
        let i = f.s.pos;
        let none: Seq<LdmSeq> = Seq::empty();
        let gated = f.s.pending != 0;
        let g = gathered(c, w, none, f.h, i, f.s.rep, i == f.s.anchor, gated);
        lemma_gathered_quiet(c, w, f.h, i, f.s.rep, i == f.s.anchor, gated);
        if g.1.len() > 0 {
            let lit = i - f.s.anchor;
            let d0 = Dp {
                opt: first_prices(c, f.st, lit, f.s.rep, g.1),
                h: g.0,
                jump: None,
                done: false,
            };
            lemma_dp_quiet(c, f.st, w, i, gated, d0, 1);
            assert(quiet(series_at(c, w, none, f, g.0, g.1).h));
        }
        let z = opt_step(c, w, none, f);
        assert(quiet(z.h));
        if z.s.pos > f.s.pos {
            lemma_opt_run_quiet(c, w, z);
        }
    }
}

/// Without long-distance candidates none wins.
pub proof fn lemma_opt_none_wins(c: OptCfg, w: Seq<u8>, tree: Tree, st: Stats, s: St, clamp: bool)
    ensures
        !opt_once(c, w, Seq::empty(), tree, st, s).h.won,
        !opt_block(c, w, Seq::empty(), tree, st, s, clamp).won,
{
    lemma_once_quiet(c, w, tree, st, s);
    let q = opt_seeded(c, w, Seq::empty(), tree, st, s);
    lemma_once_quiet(reoriginated(c, q.2), w, q.0, q.1, s);
}

proof fn lemma_once_quiet(c: OptCfg, w: Seq<u8>, tree: Tree, st: Stats, s: St)
    ensures
        !opt_once(c, w, Seq::empty(), tree, st, s).h.won,
{
    let first = if c.tree.base + s.anchor == 0 {
        1int
    } else {
        0
    };
    lemma_opt_run_quiet(
        c,
        w,
        OptSt {
            h: Hunt {
                tree: Tree { next3: tree.next, ..tree },
                sp: Spans { next: 0, act: None },
                won: false,
            },
            st: st.rescaled(c.ultra, w.subrange(s.anchor, w.len() as int)),
            s: St { pos: s.anchor + first, ..s },
        },
    );
}

} // verus!
