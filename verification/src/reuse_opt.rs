//! Matchers of the optimal rows that are used again: the next frame's origin lies
//! past everything that was written, and a job emits the same whatever its matcher
//! did before.

use vstd::prelude::*;
use crate::driver::{Drv, Mode, NO_GAP};
use crate::driver_blocks::{
    alphabet_gated, block_parsed, caught_up, first_indexed, gate_table, gated, generated, gives_up, left_out,
    lemma_prepared, lemma_settled, sampled, settled, skipped, usable, usable_among,
};
use crate::driver_fill::{filled, FillGrid};
use crate::driver_scan::{begin, clamps, lemma_begin, noted_block, opt_cfg, past, scan_ready, scanned, scanned_opt};
use crate::frame::{costed, handled, lemma_costed, lemma_offered, lemma_sampled_ready, put_back, screen_handled, BlockUse};
use crate::gates::RampGate;
use crate::job::{job_end_of, job_handled, lemma_job_works, lemma_on_piece, on_piece, pieces_fit, works, Piece};
use crate::level::{InputShape, Level};
use crate::mt::job_prepared;
use crate::opt_tree::Tree;
use crate::opt_twins::{lemma_opt_block_twins, lemma_twins_grow, tree_sized, twin_parses, twin_stats, twin_trees};
use crate::params::{LdmArming, ReachChoice, Strategy};
use crate::parse_opt::{opt_block, OptKnobs};
use crate::reuse::{lemma_prepared_alike, lemma_sampled_shell, lemma_settled_shell, same_mode, same_shell};
use crate::scan::{LdmSeq, St, MAX_BLOCK_SIZE};
use crate::store::Store;

verus! {

/// Two matchers of an optimal row that parse alike from here on, with no entry at
/// or above position `top`.
pub open spec fn opt_alike(d: Drv, e: Drv, top: int) -> bool {
    &&& d.mode.params.strategy is Opt
    &&& same_shell(d, e)
    &&& twin_trees(d.mode.opt_origin, d.store.tree, e.mode.opt_origin, e.store.tree, top)
    &&& twin_stats(d.st, e.st)
}

/// The entries of the block's positions do not wrap around, nor do those of a
/// first block that is parsed twice.
pub open spec fn has_room(d: Drv) -> bool {
    &&& d.mode.opt_origin + d.place.block_end < 0x1_0000_0000
    &&& d.place.block_start == 0 ==> d.mode.opt_origin + 2 * d.place.block_end + 1 < 0x1_0000_0000
}

/// Both matchers have a block of an optimal row waiting.
spec fn both_wait(d: Drv, e: Drv) -> bool {
    &&& opt_alike(d, e, d.place.block_end as int)
    &&& scan_ready(d)
    &&& scan_ready(e)
    &&& has_room(d)
    &&& has_room(e)
}

/// An origin after a block: it moves on only past a frame's first block.
pub open spec fn origin_moves(d: Drv, f: Drv) -> bool {
    ||| f.mode.opt_origin == d.mode.opt_origin
    ||| {
        &&& d.place.block_start == 0
        &&& d.place.block_end > 0
        &&& f.mode.opt_origin == d.mode.opt_origin + d.place.block_end + 1
    }
}

proof fn lemma_past_alike(d: Drv, e: Drv, top: int, won: bool, s: St)
    requires
        opt_alike(d, e, top),
    ensures
        opt_alike(past(noted_block(d, won), s), past(noted_block(e, won), s), top),
        opt_alike(noted_block(d, won), noted_block(e, won), top),
        past(noted_block(d, won), s).mode.opt_origin == d.mode.opt_origin,
        noted_block(d, won).mode.opt_origin == d.mode.opt_origin,
        past(noted_block(e, won), s).mode.opt_origin == e.mode.opt_origin,
        noted_block(e, won).mode.opt_origin == e.mode.opt_origin,
{
}

/// The blocks' parses are the same.
proof fn lemma_block_alike(d: Drv, e: Drv, k: OptKnobs)
    requires
        both_wait(d, e),
        d.mode.params.strategy == Strategy::Opt(k),
    ensures
        ({
            let x = opt_block(opt_cfg(d, k), d.cut(), d.ldm, d.store.tree, d.st, begin(d), clamps(d));
            let y = opt_block(opt_cfg(e, k), e.cut(), e.ldm, e.store.tree, e.st, begin(e), clamps(e));
            &&& twin_trees(x.origin, x.tree, y.origin, y.tree, d.place.block_end as int)
            &&& x.s == y.s
            &&& x.st == y.st
            &&& x.won == y.won
            &&& x.origin == d.mode.opt_origin && y.origin == e.mode.opt_origin || {
                &&& d.place.block_start == 0
                &&& d.place.block_end > 0
                &&& x.origin == d.mode.opt_origin + d.place.block_end + 1
                &&& y.origin == e.mode.opt_origin + d.place.block_end + 1
            }
        }),
{
    let c = opt_cfg(d, k);
    let b = opt_cfg(e, k);
    let w = d.cut();
    assert(e.cut() == w);
    assert(begin(e) == begin(d));
    lemma_begin(d, d.carry.rep, RampGate::off_gate(), u64::MAX as int, 3);
    assert(c.tree.base + w.len() == d.place.block_end);
    assert(twin_parses(c, b, w, d.place.block_end as int));
    assert(tree_sized(c.tree, d.store.tree));
    lemma_opt_block_twins(c, b, w, d.ldm, d.store.tree, e.store.tree, d.st, e.st, begin(d), clamps(d));
}

proof fn lemma_scanned_alike(d: Drv, e: Drv)
    requires
        both_wait(d, e),
    ensures
        opt_alike(scanned(d).d, scanned(e).d, d.place.block_end as int),
        scanned(d).lits == scanned(e).lits,
        scanned(d).seqs == scanned(e).seqs,
        origin_moves(d, scanned(d).d),
        origin_moves(e, scanned(e).d),
{
    if let Strategy::Opt(k) = d.mode.params.strategy {
        assert(scanned(d) == scanned_opt(d, k) && scanned(e) == scanned_opt(e, k)) by {
            reveal(scanned);
        }
        let top = d.place.block_end as int;
        assert(e.cut() == d.cut() && e.at() == d.at());
        if d.at() == d.cut().len() {
            let a = Drv { ldm: Seq::empty(), ..d };
            let b = Drv { ldm: Seq::empty(), ..e };
            assert(opt_alike(a, b, top));
            lemma_past_alike(a, b, top, false, begin(d));
        } else {
            lemma_block_alike(d, e, k);
            let x = opt_block(opt_cfg(d, k), d.cut(), d.ldm, d.store.tree, d.st, begin(d), clamps(d));
            let y = opt_block(opt_cfg(e, k), e.cut(), e.ldm, e.store.tree, e.st, begin(e), clamps(e));
            let a = Drv {
                store: Store { tree: x.tree, ..d.store },
                st: x.st,
                mode: Mode { opt_origin: x.origin, ..d.mode },
                ldm: Seq::empty(),
                ..d
            };
            let b = Drv {
                store: Store { tree: y.tree, ..e.store },
                st: y.st,
                mode: Mode { opt_origin: y.origin, ..e.mode },
                ldm: Seq::empty(),
                ..e
            };
            assert(same_mode(a.mode, b.mode));
            assert(opt_alike(a, b, top));
            lemma_past_alike(a, b, top, x.won, x.s);
        }
    }
}

proof fn lemma_alphabet_alike(d: Drv, e: Drv, top: int)
    requires
        opt_alike(d, e, top),
    ensures
        opt_alike(alphabet_gated(d), alphabet_gated(e), top),
        alphabet_gated(d).mode.opt_origin == d.mode.opt_origin,
        alphabet_gated(e).mode.opt_origin == e.mode.opt_origin,
        alphabet_gated(d).place == d.place,
        alphabet_gated(e).place == e.place,
{
}

proof fn lemma_parsed_alike(d: Drv, e: Drv)
    requires
        both_wait(d, e),
    ensures
        opt_alike(block_parsed(d).d, block_parsed(e).d, d.place.block_end as int),
        block_parsed(d).lits == block_parsed(e).lits,
        block_parsed(d).seqs == block_parsed(e).seqs,
        origin_moves(d, block_parsed(d).d),
        origin_moves(e, block_parsed(e).d),
{
    let a = settled(d);
    let b = settled(e);
    lemma_settled_shell(d, e);
    lemma_settled(d);
    lemma_settled(e);
    assert(caught_up(a) == a && caught_up(b) == b);
    lemma_prepared(a);
    lemma_prepared(b);
    lemma_alphabet_alike(a, b, d.place.block_end as int);
    lemma_scanned_alike(alphabet_gated(a), alphabet_gated(b));
}

proof fn lemma_usable_alike(d: Drv, e: Drv, found: Seq<LdmSeq>, n: int)
    requires
        same_shell(d, e),
    ensures
        usable_among(d, found, n) == usable_among(e, found, n),
    decreases n,
{
    if n > 0 {
        lemma_usable_alike(d, e, found, n - 1);
        assert(d.cut() == e.cut());
        assert(usable(d, found[n - 1]) == usable(e, found[n - 1]));
    }
}

proof fn lemma_generated_alike(d: Drv, e: Drv, top: int, found: Seq<LdmSeq>)
    requires
        opt_alike(d, e, top),
    ensures
        opt_alike(generated(d, found), generated(e, found), top),
        generated(d, found).mode.opt_origin == d.mode.opt_origin,
        generated(e, found).mode.opt_origin == e.mode.opt_origin,
        generated(d, found).place == d.place,
        generated(e, found).place == e.place,
{
    lemma_usable_alike(d, e, found, found.len() as int);
}

proof fn lemma_offered_alike(d: Drv, e: Drv, found: Seq<LdmSeq>)
    requires
        both_wait(d, e),
        d.ldm.len() == 0,
    ensures
        ({
            let x = block_parsed(generated(alphabet_gated(d), found));
            let y = block_parsed(generated(alphabet_gated(e), found));
            &&& opt_alike(x.d, y.d, d.place.block_end as int)
            &&& x.lits == y.lits
            &&& x.seqs == y.seqs
            &&& origin_moves(d, x.d)
            &&& origin_moves(e, y.d)
        }),
{
    let a = alphabet_gated(d);
    let b = alphabet_gated(e);
    let top = d.place.block_end as int;
    lemma_alphabet_alike(d, e, top);
    lemma_generated_alike(a, b, top, found);
    lemma_offered(d, found);
    lemma_offered(e, found);
    lemma_parsed_alike(generated(a, found), generated(b, found));
}

proof fn lemma_skipped_alike(d: Drv, e: Drv, top: int)
    requires
        opt_alike(d, e, top),
    ensures
        opt_alike(skipped(d), skipped(e), top),
        origin_moves(d, skipped(d)),
        origin_moves(e, skipped(e)),
{
    assert(first_indexed(d) == d && first_indexed(e) == e);
    lemma_alphabet_alike(d, e, top);
}

proof fn lemma_sampled_alike(d: Drv, e: Drv, dense: bool)
    requires
        both_wait(d, e),
        d.ldm.len() == 0,
    ensures
        both_wait(sampled(d, dense), sampled(e, dense)),
        gated(d).1 == gated(e).1,
        sampled(d, dense).ldm.len() == 0,
        sampled(d, dense).place == d.place,
        sampled(e, dense).place == e.place,
        sampled(d, dense).mode.opt_origin == d.mode.opt_origin,
        sampled(e, dense).mode.opt_origin == e.mode.opt_origin,
{
    lemma_sampled_shell(d, e, dense);
    lemma_sampled_ready(d, dense);
    lemma_sampled_ready(e, dense);
}

#[verifier::rlimit(40)]
proof fn lemma_left_out_alike(d: Drv, e: Drv, top: int)
    requires
        opt_alike(d, e, top),
    ensures
        opt_alike(left_out(d), left_out(e), top),
        origin_moves(d, left_out(d)),
        origin_moves(e, left_out(e)),
{
    let gap_start = if d.mode.gap_start == NO_GAP {
        d.place.block_start
    } else {
        d.mode.gap_start
    };
    let a = Drv { mode: Mode { gap_start, ..d.mode }, ..d };
    let b = Drv { mode: Mode { gap_start, ..e.mode }, ..e };
    assert(opt_alike(a, b, top));
    lemma_alphabet_alike(a, b, top);
}

#[verifier::rlimit(40)]
proof fn lemma_screened_alike(d: Drv, e: Drv, dense: bool, found: Seq<LdmSeq>)
    requires
        opt_alike(d, e, d.place.block_end as int),
        scan_ready(d),
        scan_ready(e),
        d.ldm.len() == 0,
        has_room(d),
        has_room(e),
    ensures
        screen_handled(d, dense, found).1 == screen_handled(e, dense, found).1,
        opt_alike(screen_handled(d, dense, found).0, screen_handled(e, dense, found).0, d.place.block_end as int),
        origin_moves(d, screen_handled(d, dense, found).0),
        origin_moves(e, screen_handled(e, dense, found).0),
{
    assert(d.block() == e.block());
    lemma_sampled_alike(d, e, dense);
    let a = sampled(d, dense);
    let b = sampled(e, dense);
    if gives_up(gated(d).1, dense) {
        lemma_left_out_alike(a, b, d.place.block_end as int);
    } else {
        lemma_offered_alike(a, b, found);
    }
}

proof fn lemma_costed_alike(d: Drv, e: Drv, costs: Option<Seq<u8>>)
    requires
        opt_alike(d, e, d.place.block_end as int),
        scan_ready(d),
        scan_ready(e),
        has_room(d),
        has_room(e),
    ensures
        opt_alike(costed(d, costs), costed(e, costs), d.place.block_end as int),
        scan_ready(costed(d, costs)),
        scan_ready(costed(e, costs)),
        has_room(costed(d, costs)),
        has_room(costed(e, costs)),
        costed(d, costs) == (Drv { lit_lens: costed(d, costs).lit_lens, ..d }),
        costed(e, costs) == (Drv { lit_lens: costed(e, costs).lit_lens, ..e }),
        costed(d, costs).block() == d.block(),
        costed(e, costs).block() == e.block(),
{
    lemma_costed(d, costs);
    lemma_costed(e, costs);
}

proof fn lemma_put_back_alike(f: Drv, g: Drv, d: Drv, e: Drv, top: int)
    requires
        opt_alike(f, g, top),
        d.carry == e.carry,
    ensures
        opt_alike(put_back(f, d), put_back(g, e), top),
{
}

/// Matchers that are alike do the same with a block, and stay alike.
#[verifier::rlimit(40)]
pub proof fn lemma_opt_handled_alike(d: Drv, e: Drv, how: BlockUse)
    requires
        opt_alike(d, e, d.place.block_end as int),
        scan_ready(d),
        scan_ready(e),
        d.ldm.len() == 0,
        has_room(d),
        has_room(e),
    ensures
        handled(d, how).1 == handled(e, how).1,
        opt_alike(handled(d, how).0, handled(e, how).0, d.place.block_end as int),
        origin_moves(d, handled(d, how).0),
        origin_moves(e, handled(e, how).0),
{
    reveal(handled);
    assert(d.block() == e.block());
    let top = d.place.block_end as int;
    match how {
        BlockUse::Parsed => {
            lemma_parsed_alike(d, e);
        },
        BlockUse::Offered { found } => {
            lemma_offered_alike(d, e, found);
        },
        BlockUse::Skipped => {
            lemma_skipped_alike(d, e, top);
        },
        BlockUse::LeftOut => {
            lemma_left_out_alike(d, e, top);
        },
        BlockUse::Screened { costs, dense, found } => {
            lemma_costed_alike(d, e, costs);
            lemma_screened_alike(costed(d, costs), costed(e, costs), dense, found);
        },
        BlockUse::Dropped { costs, dense, found } => {
            let a = costed(d, costs);
            let b = costed(e, costs);
            lemma_costed_alike(d, e, costs);
            lemma_screened_alike(a, b, dense, found);
            lemma_put_back_alike(screen_handled(a, dense, found).0, screen_handled(b, dense, found).0, d, e, top);
        },
    }
}

proof fn lemma_parsed_pos(d: Drv)
    requires
        d.mode.params.strategy is Opt,
        d.ready(),
    ensures
        block_parsed(d).d.place.pos == d.place.block_end,
{
    lemma_settled(d);
    let g = alphabet_gated(caught_up(settled(d)));
    assert(g.place == d.place && g.win == d.win);
    assert(g.mode.params == d.mode.params);
    if let Strategy::Opt(k) = d.mode.params.strategy {
        assert(scanned(g) == scanned_opt(g, k)) by {
            reveal(scanned);
        }
    }
}

proof fn lemma_screened_pos(d: Drv, dense: bool, found: Seq<LdmSeq>)
    requires
        d.mode.params.strategy is Opt,
        scan_ready(d),
        d.ldm.len() == 0,
    ensures
        screen_handled(d, dense, found).0.place.pos == d.place.block_end,
{
    lemma_sampled_ready(d, dense);
    lemma_offered(sampled(d, dense), found);
    lemma_parsed_pos(generated(alphabet_gated(sampled(d, dense)), found));
}

/// A handled block is behind the matcher.
pub proof fn lemma_handled_pos(d: Drv, how: BlockUse)
    requires
        d.mode.params.strategy is Opt,
        scan_ready(d),
        d.ldm.len() == 0,
    ensures
        handled(d, how).0.place.pos == d.place.block_end,
{
    reveal(handled);
    lemma_parsed_pos(d);
    if let BlockUse::Offered { found } = how {
        lemma_offered(d, found);
        lemma_parsed_pos(generated(alphabet_gated(d), found));
    }
    if let BlockUse::Screened { costs, dense, found } = how {
        lemma_costed(d, costs);
        lemma_screened_pos(costed(d, costs), dense, found);
    }
    if let BlockUse::Dropped { costs, dense, found } = how {
        lemma_costed(d, costs);
        lemma_screened_pos(costed(d, costs), dense, found);
    }
}

/// How far a job may move its origin on by parsing a frame's first block twice.
pub open spec fn origin_room(at: int) -> int {
    if at == 0 {
        0
    } else {
        MAX_BLOCK_SIZE + 1
    }
}

/// Matchers of an optimal row that are alike emit the same job.
pub proof fn lemma_opt_job_alike(d: Drv, e: Drv, src: Seq<u8>, start: int, pieces: Seq<Piece>)
    requires
        works(d),
        works(e),
        opt_alike(d, e, start),
        0 <= start <= src.len(),
        d.mode.opt_origin + MAX_BLOCK_SIZE + src.len() + 1 < 0x1_0000_0000,
        e.mode.opt_origin + MAX_BLOCK_SIZE + src.len() + 1 < 0x1_0000_0000,
        pieces_fit(src, start, pieces),
    ensures
        job_handled(d, src, start, pieces).1 == job_handled(e, src, start, pieces).1,
        opt_alike(
            job_handled(d, src, start, pieces).0,
            job_handled(e, src, start, pieces).0,
            job_end_of(start, pieces),
        ),
        pieces.len() > 0 ==> job_handled(d, src, start, pieces).0.place.pos == job_end_of(start, pieces),
        job_handled(d, src, start, pieces).0.mode.opt_origin <= d.mode.opt_origin + origin_room(
            job_end_of(start, pieces),
        ),
        job_handled(e, src, start, pieces).0.mode.opt_origin <= e.mode.opt_origin + origin_room(
            job_end_of(start, pieces),
        ),
    decreases pieces.len(),
{
    if pieces.len() > 0 {
        let before = pieces.drop_last();
        lemma_opt_job_alike(d, e, src, start, before);
        lemma_job_works(d, src, start, before);
        lemma_job_works(e, src, start, before);
        let f = job_handled(d, src, start, before).0;
        let g = job_handled(e, src, start, before).0;
        let at = job_end_of(start, before);
        let p = pieces.last();
        let a = on_piece(f, src, at, p);
        let b = on_piece(g, src, at, p);
        lemma_on_piece(f, src, at, p);
        lemma_on_piece(g, src, at, p);
        lemma_twins_grow(f.mode.opt_origin, f.store.tree, g.mode.opt_origin, g.store.tree, at, p.end);
        assert(opt_alike(a, b, p.end));
        assert(has_room(a) && has_room(b));
        lemma_opt_handled_alike(a, b, p.how);
        lemma_handled_pos(a, p.how);
    }
}

/// No entry of the tree lies above `top`.
pub open spec fn tree_below(s: Tree, top: int) -> bool {
    &&& forall|j: int| 0 <= j < s.t.len() ==> #[trigger] s.t[j] <= top
    &&& forall|j: int| 0 <= j < s.bt.len() ==> #[trigger] s.bt[j] <= top
    &&& forall|j: int| 0 <= j < s.h3.len() ==> #[trigger] s.h3[j] <= top
}

/// All that a matcher has written lies behind it.
pub open spec fn tree_behind(d: Drv) -> bool {
    tree_below(d.store.tree, d.mode.opt_origin + d.place.pos)
}

/// Nothing that a matcher has written can be found any more.
pub open spec fn tree_retired(d: Drv) -> bool {
    &&& tree_below(d.store.tree, d.mode.opt_origin as int)
    &&& d.store.tree.next == 0
    &&& d.st.fresh()
}

/// A prefill after such a preparation leaves matchers that are alike.
pub proof fn lemma_opt_fill_forgets(d: Drv, e: Drv, w: Seq<u8>, base: u64)
    requires
        d.wf(),
        e.wf(),
        d.mode.params.strategy is Opt,
        same_mode(d.mode, e.mode),
        d.win == e.win,
        d.place == e.place,
        d.carry == e.carry,
        d.lit_lens == e.lit_lens,
        d.ldm == e.ldm,
        tree_retired(d),
        tree_retired(e),
    ensures
        opt_alike(
            filled(d, w, base, FillGrid::Strip, true),
            filled(e, w, base, FillGrid::Strip, true),
            0,
        ),
        filled(d, w, base, FillGrid::Strip, true).mode.opt_origin == d.mode.opt_origin,
        filled(e, w, base, FillGrid::Strip, true).mode.opt_origin == e.mode.opt_origin,
{
    let f = filled(d, w, base, FillGrid::Strip, true);
    let g = filled(e, w, base, FillGrid::Strip, true);
    assert(gate_table(f) =~= gate_table(g));
    assert(f.mode.params == d.mode.params);
    assert(same_shell(f, g));
    assert(f.store.tree == d.store.tree && g.store.tree == e.store.tree);
}

/// A job's output does not depend on what its matcher did before, on the optimal
/// rows either: prepared for the job and prefilled with its strip, any two matchers
/// whose old entries are retired emit the same. What they write lies behind them,
/// so that the next job can rely on it.
pub proof fn lemma_opt_job_forgets(
    d: Drv,
    e: Drv,
    level: Level,
    shape: InputShape,
    choice: ReachChoice,
    arming: LdmArming,
    src: Seq<u8>,
    from: u64,
    start: u64,
    depth: u64,
    pieces: Seq<Piece>,
)
    requires
        from <= start <= src.len(),
        pieces_fit(src, start as int, pieces),
        pieces.len() > 0,
        ({
            let strip = src.subrange(from as int, start as int);
            let a = job_prepared(d, level, shape, choice, arming, start, depth);
            let b = job_prepared(e, level, shape, choice, arming, start, depth);
            &&& a.wf() && works(filled(a, strip, from, FillGrid::Strip, true))
            &&& b.wf() && works(filled(b, strip, from, FillGrid::Strip, true))
            &&& a.mode.params.strategy is Opt
            &&& tree_retired(a)
            &&& tree_retired(b)
            &&& a.mode.opt_origin + MAX_BLOCK_SIZE + src.len() + 1 < 0x1_0000_0000
            &&& b.mode.opt_origin + MAX_BLOCK_SIZE + src.len() + 1 < 0x1_0000_0000
        }),
    ensures
        ({
            let strip = src.subrange(from as int, start as int);
            let a = job_prepared(d, level, shape, choice, arming, start, depth);
            let b = job_prepared(e, level, shape, choice, arming, start, depth);
            let x = job_handled(filled(a, strip, from, FillGrid::Strip, true), src, start as int, pieces);
            let y = job_handled(filled(b, strip, from, FillGrid::Strip, true), src, start as int, pieces);
            x.1 == y.1 && tree_behind(x.0)
        }),
{
    let strip = src.subrange(from as int, start as int);
    let a = job_prepared(d, level, shape, choice, arming, start, depth);
    let b = job_prepared(e, level, shape, choice, arming, start, depth);
    lemma_prepared_alike(d, e, level, shape, choice, arming, start, depth);
    lemma_opt_fill_forgets(a, b, strip, from);
    let f = filled(a, strip, from, FillGrid::Strip, true);
    let g = filled(b, strip, from, FillGrid::Strip, true);
    lemma_twins_grow(f.mode.opt_origin, f.store.tree, g.mode.opt_origin, g.store.tree, 0, start as int);
    lemma_opt_job_alike(f, g, src, start as int, pieces);
}

} // verus!
