//! Matchers that are used again and again: what every one of them has kept, whichever
//! calls brought it where it is, and that the next job cannot tell them apart.

use vstd::prelude::*;
use crate::chains::{link_range, Heads};
use crate::driver::{fresh, frame_params, framed, later, reset_to, told, Carry, Drv, Mode, Place, HEAD_ORIGIN_CAP, POS_MAX};
use crate::driver_blocks::{alphabet_gated, block_parsed, caught_up, generated, lemma_settled, sampled, settled};
use crate::driver_fill::{adopted, committed, dict_mode, dict_tail, filled, swap_fits, swapped, with_dict, FillGrid, SmallDictRow};
use crate::driver_plan::{reach_decided, shrunk, table_cleared, window_seen};
use crate::driver_scan::{block_waits, scanned};
use crate::frame::{
    block_handled, costed, handled, lemma_committed, lemma_handled, parses, screen_handled, streams, BlockUse,
};
use crate::hash::{slots, HASH_READ};
use crate::job::{job_end_of, job_handled, lemma_job_works, lemma_on_piece, on_piece, pieces_fit, works, Piece};
use crate::level::{InputShape, Level};
use crate::mt::job_prepared;
use crate::opt_tree::Tree;
use crate::opt_twins::twin_trees;
use crate::params::{LdmArming, LevelParams, ReachChoice, Strategy};
use crate::plain_tables::{entries_below, lemma_dict_filled, lemma_link_range_below, lemma_plain_filled, lemma_plain_handled, plain};
use crate::reuse::{clearing, lemma_job_forgets, lemma_prepared_alike};
use crate::reuse_chain::{chain_alike, heads_of, lemma_chain_fill_forgets, lemma_chain_handled_alike, lemma_chain_job_forgets, marked, small};
use crate::reuse_opt::{has_room, lemma_opt_handled_alike, lemma_opt_job_forgets, opt_alike, tree_behind, tree_retired};
use crate::scan::{LdmSeq, MAX_BLOCK_SIZE};
use crate::sequence::Reps;
use crate::strip::{grid_filled, on_snapshot, resume, snapshot_adopted, strip_link};
use crate::tables::WIN_MAX;
use crate::tree_frame::{for_tree, tree_taken, TreeParse};
use crate::twins::{heads_below, twin_heads, twins};

verus! {

/// A tree without tables.
pub open spec fn treeless(t: Tree) -> bool {
    t.t.len() == 0 && t.bt.len() == 0 && t.h3.len() == 0
}

/// A row whose table holds positions.
pub open spec fn positional(s: Strategy) -> bool {
    s is Chain || plain(s)
}

/// No head lies above the matcher's mark, on the rows whose table holds positions.
pub open spec fn head_accounted(d: Drv) -> bool {
    positional(d.mode.params.strategy) ==> marked(d)
}

/// No entry of the tree lies ahead of the matcher on the optimal rows, and on the others
/// there is no tree.
pub open spec fn tree_accounted(d: Drv) -> bool {
    &&& d.mode.params.strategy is Opt ==> tree_behind(d)
    &&& !(d.mode.params.strategy is Opt) ==> treeless(d.store.tree)
}

/// What a matcher keeps of all that it has written.
pub open spec fn accounted(d: Drv) -> bool {
    head_accounted(d) && tree_accounted(d)
}

/// A matcher at position `pos`.
pub open spec fn moved_to(d: Drv, pos: u64) -> Drv {
    Drv { place: Place { pos, ..d.place }, ..d }
}

/// The table that a row of positions takes over holds positions, or is made anew. One of
/// the rows of buckets would not do: what its entries hold above the position counts for
/// the other rows as position too.
pub open spec fn takes_over(d: Drv, p: LevelParams) -> bool {
    positional(p.strategy) ==> positional(d.mode.params.strategy) || d.store.t.len() != slots(p.hash_log)
}

/// A new matcher has written nothing.
pub proof fn lemma_fresh_accounted(slice_size: usize)
    ensures
        accounted(fresh(slice_size)),
{
}

/// Calls that write nothing keep what is accounted for, as long as the matcher does not go
/// back: declaring repeated offsets unknown, handing a window over and declaring a block
/// in it, adding a block.
pub proof fn lemma_moves_accounted(d: Drv, w: Seq<u8>, base: u64, start: u64, end: u64, data: Seq<u8>)
    requires
        accounted(d),
    ensures
        accounted(Drv { carry: Carry { pending: 3, ..d.carry }, ..d }),
        accounted(adopted(d, w, base)),
        d.place.pos <= start ==> accounted(
            Drv { place: Place { pos: start, block_start: start, block_end: end, ..d.place }, ..d },
        ),
        d.place.pos <= d.place.base + d.win.len() <= u64::MAX ==> accounted(committed(d, data)),
{
    let g = Drv { carry: Carry { pending: 3, ..d.carry }, ..d };
    assert(heads_of(g) == heads_of(d));
    let a = adopted(d, w, base);
    assert(heads_of(a) == heads_of(d));
    let b = Drv { place: Place { pos: start, block_start: start, block_end: end, ..d.place }, ..d };
    assert(heads_of(b) == heads_of(d));
    let e = committed(d, data);
    assert(heads_of(e) == heads_of(d));
}

/// A reset keeps what is accounted for: the mark takes in how far the matcher got, and the
/// tree's origin moves past all that was written, as long as it does not wrap around.
pub proof fn lemma_reset_accounted(d: Drv, level: Level)
    requires
        accounted(d),
        frame_params(level, framed(d.mode)).strategy is Opt ==> d.mode.opt_origin + d.place.pos + 1 < 0x1_0000_0000,
    ensures
        tree_accounted(reset_to(d, level)),
        takes_over(d, frame_params(level, framed(d.mode))) ==> head_accounted(reset_to(d, level)),
        reset_to(d, level).mode.params.strategy is Opt ==> tree_retired(reset_to(d, level)),
{
    let e = reset_to(d, level);
    let p = frame_params(level, framed(d.mode));
    let old = positional(d.mode.params.strategy);
    assert(e.mode.params == p);
    if positional(p.strategy) && takes_over(d, p) {
        assert(e.store.t == d.store.t && old || e.store.t == crate::store::zeros(slots(p.hash_log)));
        assert(e.mode.head_origin == d.mode.head_origin);
        assert(e.mode.strip_mark == later(d.mode.strip_mark, d.place.pos));
        assert forall|s: int| 0 <= s < e.store.t.len() implies #[trigger] e.store.t[s] <= e.mode.head_origin + (later(
            e.mode.strip_mark,
            e.place.pos,
        ) + 1) by {
            if e.store.t == d.store.t && old {
                assert(heads_of(d).t[s] == d.store.t[s]);
            }
        }
    }
    if p.strategy is Opt {
        let o = d.mode.opt_origin + d.place.pos;
        vstd::arithmetic::div_mod::lemma_small_mod((o + 1) as nat, 0x1_0000_0000);
        assert(crate::reuse_opt::tree_below(e.store.tree, o));
    }
}

/// A prefill right after a reset keeps what is accounted for, once the matcher stands
/// behind the strip.
pub proof fn lemma_prefill_accounted(d: Drv, w: Seq<u8>, base: u64, start: u64)
    requires
        d.wf(),
        tree_accounted(d),
        d.mode.params.strategy is Chain ==> marked(d),
        d.place.pos == 0,
        w.len() <= WIN_MAX,
        base + w.len() <= start,
        base + w.len() + HEAD_ORIGIN_CAP + 1 < 0x1_0000_0000,
    ensures
        accounted(moved_to(filled(d, w, base, FillGrid::Strip, true), start)),
        d.mode.params.strategy is Chain || d.mode.params.strategy is Opt ==> accounted(
            filled(d, w, base, FillGrid::Strip, true),
        ),
{
    let f = filled(d, w, base, FillGrid::Strip, true);
    let g = moved_to(f, start);
    assert(f.mode.params == d.mode.params);
    assert(heads_of(g) == heads_of(f));
    if d.mode.params.strategy is Chain {
        lemma_chain_fill_forgets(d, d, w, base);
    }
    if plain(d.mode.params.strategy) {
        lemma_plain_filled(d, w, base, start);
    }
}

/// Loading a dictionary at the start of a frame keeps what is accounted for, on the row
/// that it takes for the frame.
pub proof fn lemma_dict_accounted(d: Drv, content: Seq<u8>, rep: Reps, swap: Option<SmallDictRow>)
    requires
        d.wf(),
        tree_accounted(d),
        d.place.pos == 0,
        !d.mode.dict_row,
        rep.positive(),
        swap_fits(d, swap),
    ensures
        accounted(with_dict(d, content, rep, swap)),
{
    let w = dict_tail(content, d.mode.params.window);
    let n = w.len() as u64;
    let y = Drv {
        win: w,
        place: Place { base: 0, pos: n, block_start: n, block_end: n },
        carry: Carry { rep, pending: 0, ..d.carry },
        mode: dict_mode(d.mode),
        ..d
    };
    assert(y.wf());
    assert(tree_accounted(y));
    let x = swapped(y, content.len() as int, swap);
    assert(x.wf());
    assert(tree_accounted(x));
    let f = filled(x, w, 0, FillGrid::Dictionary, true);
    assert(f.mode.params == x.mode.params);
    if positional(x.mode.params.strategy) {
        lemma_dict_filled(x, w);
    }
}

/// Continuing a strip keeps what is accounted for: the mark moves with it.
pub proof fn lemma_strip_accounted(d: Drv, w: Seq<u8>, base: u64, from: int, last: int)
    requires
        d.wf(),
        d.mode.params.strategy is Chain,
        accounted(d),
        0 <= from,
        0 <= last,
        last + HASH_READ <= w.len() <= WIN_MAX,
        base + w.len() <= POS_MAX,
    ensures
        accounted(grid_filled(d, w, base, from, last)),
{
    let f = grid_filled(d, w, base, from, last);
    let top = d.mode.head_origin + later(f.mode.strip_mark, d.place.pos) + 1;
    let c = strip_link(d.mode, base);
    let h = heads_of(d);
    if let Strategy::Chain(log) = d.mode.params.strategy {
        crate::bits::lemma_pow2_monotone(0, log as nat);
        vstd::arithmetic::power2::lemma2_to64();
    }
    assert(f.mode.strip_mark == later(d.mode.strip_mark, (base + last) as u64));
    assert(entries_below(h.t, top));
    lemma_link_range_below(c, w, h, resume(from), last, 3, top);
    assert(heads_of(f).t == link_range(c, w, h, resume(from), last, 3).t);
}

/// Taking over a captured strip keeps what is accounted for, if the capture holds nothing
/// above the prefix that it was taken of.
pub proof fn lemma_snapshot_accounted(d: Drv, t: Seq<u32>, ch: Seq<u32>, origin: u64, from: int, w: Seq<u8>, base: u64)
    requires
        d.wf(),
        d.mode.params.strategy is Chain,
        tree_accounted(d),
        t.len() == d.store.t.len(),
        ch.len() == d.store.ch.len(),
        origin <= HEAD_ORIGIN_CAP,
        0 <= from <= w.len(),
        HASH_READ <= w.len() <= WIN_MAX,
        base + w.len() <= POS_MAX,
        heads_below(origin, Heads { t, ch }, base + w.len() - HASH_READ + 1),
    ensures
        accounted(snapshot_adopted(d, t, ch, origin, from, w, base)),
{
    let last = w.len() - HASH_READ;
    let a = on_snapshot(d, t, ch, origin);
    let b = Drv { mode: Mode { strip_mark: later(d.mode.strip_mark, (base + last) as u64), ..a.mode }, ..a };
    assert(b.wf());
    assert(heads_of(b).t == t);
    assert(accounted(b));
    lemma_strip_accounted(b, w, base, from, last);
    let f = snapshot_adopted(d, t, ch, origin, from, w, base);
    let g = grid_filled(b, w, base, from, last);
    assert(strip_link(b.mode, base) == strip_link(a.mode, base));
    assert(heads_of(f) == heads_of(g));
}

/// Emptied tables, a frame that is started over and a window that only the sampler sees
/// keep what is accounted for.
pub proof fn lemma_restarts_accounted(d: Drv, level: Level, w: Seq<u8>)
    requires
        accounted(d),
        frame_params(
            level,
            framed(Mode { input: told(d.mode.input.shape), reach_choice: ReachChoice::Shrink, ..d.mode }),
        ).strategy is Opt ==> d.mode.opt_origin + d.place.pos + 1 < 0x1_0000_0000,
    ensures
        accounted(table_cleared(d)),
        accounted(shrunk(d, level)),
        accounted(window_seen(d, w)),
{
    let e = Drv { mode: Mode { input: told(d.mode.input.shape), reach_choice: ReachChoice::Shrink, ..d.mode }, ..d };
    assert(heads_of(e) == heads_of(d));
    lemma_reset_accounted(e, level);
    let v = window_seen(d, w);
    assert(heads_of(v) == heads_of(d));
}

/// Giving a frame its reach keeps what is accounted for.
pub proof fn lemma_reach_accounted(d: Drv, choice: ReachChoice, level: Level)
    requires
        accounted(d),
        takes_over(d, frame_params(level, Mode { reach_choice: choice, ..d.mode })),
    ensures
        accounted(reach_decided(d, choice, level)),
{
    let e = reach_decided(d, choice, level);
    let p = frame_params(level, Mode { reach_choice: choice, ..d.mode });
    let old = positional(d.mode.params.strategy);
    if choice != d.mode.reach_choice && positional(p.strategy) {
        assert(e.store.t == d.store.t && old || e.store.t == crate::store::zeros(slots(p.hash_log)));
        if e.store.t == d.store.t && old {
            assert(heads_of(e).t == heads_of(d).t);
        }
    }
}

/// Only the optimal rows write into a tree.
proof fn lemma_handled_tree(e: Drv, how: BlockUse)
    requires
        !(e.mode.params.strategy is Opt),
    ensures
        treeless(e.store.tree) ==> treeless(handled(e, how).0.store.tree),
{
    reveal(handled);
    match how {
        BlockUse::Parsed => {
            lemma_parsed_tree(e);
        },
        BlockUse::Offered { found } => {
            lemma_parsed_tree(generated(alphabet_gated(e), found));
        },
        BlockUse::Skipped => {
            lemma_indexed_tree(e, e.at(), e.at() + 1);
        },
        BlockUse::LeftOut => {},
        BlockUse::Screened { costs, dense, found } => {
            lemma_screened_tree(costed(e, costs), dense, found);
        },
        BlockUse::Dropped { costs, dense, found } => {
            lemma_screened_tree(costed(e, costs), dense, found);
        },
    }
}

proof fn lemma_indexed_tree(e: Drv, from: int, to: int)
    ensures
        crate::store::indexed(e.keys(), e.win, e.store, from, to, 1).tree == e.store.tree,
{
}

proof fn lemma_parsed_tree(e: Drv)
    requires
        !(e.mode.params.strategy is Opt),
    ensures
        block_parsed(e).d.store.tree == e.store.tree,
{
    lemma_settled(e);
    let s = settled(e);
    lemma_indexed_tree(s, crate::driver_blocks::gap_index(s), crate::driver_blocks::gap_limit(s));
    let g = alphabet_gated(caught_up(s));
    assert(g.store.tree == e.store.tree);
    assert(g.mode.params == e.mode.params);
    reveal(scanned);
}

proof fn lemma_screened_tree(e: Drv, dense: bool, found: Seq<LdmSeq>)
    requires
        !(e.mode.params.strategy is Opt),
    ensures
        screen_handled(e, dense, found).0.store.tree == e.store.tree,
{
    let g = sampled(e, dense);
    assert(g.store == e.store && g.mode.params == e.mode.params);
    lemma_parsed_tree(generated(alphabet_gated(g), found));
}

/// A block can be accounted for: on the rows that number their entries they do not wrap around.
pub open spec fn accountable(e: Drv) -> bool {
    &&& e.mode.params.strategy is Chain ==> small(e)
    &&& e.mode.params.strategy is Opt ==> has_room(e)
}

/// Whatever becomes of a block, what is accounted for is kept.
pub proof fn lemma_handled_accounted(e: Drv, how: BlockUse)
    requires
        accounted(e),
        block_waits(e),
        e.ldm.len() == 0,
        parses(e, how) ==> !(e.mode.params.strategy is BtLazy),
        accountable(e),
    ensures
        accounted(handled(e, how).0),
        positional(e.mode.params.strategy) || e.mode.params.strategy is Opt ==> handled(e, how).0.place.pos
            == e.place.block_end,
{
    let f = handled(e, how).0;
    lemma_handled(e, Seq::empty(), e.carry.rep, how);
    assert(f.mode.params == e.mode.params);
    if !(e.mode.params.strategy is Opt) {
        lemma_handled_tree(e, how);
    }
    if plain(e.mode.params.strategy) {
        lemma_plain_handled(e, how);
    }
    if e.mode.params.strategy is Chain {
        let top = later(e.mode.strip_mark, e.place.block_end) + 1;
        let h = heads_of(e);
        let o = e.mode.head_origin;
        let all = Set::new(|s: int| 0 <= s < h.ch.len());
        assert(e.store.ch.len() > 0) by {
            if let crate::params::Strategy::Chain(log) = e.mode.params.strategy {
                crate::bits::lemma_pow2_monotone(0, log as nat);
                vstd::arithmetic::power2::lemma2_to64();
            }
        }
        assert forall|x: int| 0 <= #[trigger] crate::chains::chain_slot(x, h.ch.len() as int) < h.ch.len() by {
            vstd::arithmetic::div_mod::lemma_mod_bound(x, h.ch.len() as int);
        }
        assert(twins(all, o, h, o, h));
        assert(twin_heads(o, h, o, h));
        assert(heads_below(o, h, top));
        assert(chain_alike(e, e, top));
        lemma_chain_handled_alike(e, e, top, how);
        crate::reuse_chain::lemma_handled_pos(e, how);
    }
    if e.mode.params.strategy is Opt {
        let top = e.place.block_end as int;
        assert(twin_trees(e.mode.opt_origin, e.store.tree, e.mode.opt_origin, e.store.tree, top));
        assert(opt_alike(e, e, top));
        lemma_opt_handled_alike(e, e, how);
        crate::reuse_opt::lemma_handled_pos(e, how);
    }
}

/// A job keeps what is accounted for.
pub proof fn lemma_job_accounted(d: Drv, src: Seq<u8>, start: int, pieces: Seq<Piece>)
    requires
        works(d),
        0 <= start <= src.len() <= POS_MAX,
        accounted(moved_to(d, start as u64)),
        pieces_fit(src, start, pieces),
        d.mode.params.strategy is Chain ==> src.len() + HEAD_ORIGIN_CAP + 1 < 0x1_0000_0000,
        d.mode.params.strategy is Opt ==> d.mode.opt_origin + MAX_BLOCK_SIZE + src.len() + 1 < 0x1_0000_0000,
    ensures
        accounted(moved_to(job_handled(d, src, start, pieces).0, job_end_of(start, pieces) as u64)),
        pieces.len() > 0 ==> accounted(job_handled(d, src, start, pieces).0),
        d.mode.params.strategy is Opt ==> job_handled(d, src, start, pieces).0.mode.opt_origin <= d.mode.opt_origin
            + crate::reuse_opt::origin_room(job_end_of(start, pieces)),
    decreases pieces.len(),
{
    if pieces.len() > 0 {
        let before = pieces.drop_last();
        lemma_job_accounted(d, src, start, before);
        lemma_job_works(d, src, start, before);
        let e = job_handled(d, src, start, before).0;
        let at = job_end_of(start, before);
        let p = pieces.last();
        let a = on_piece(e, src, at, p);
        lemma_on_piece(e, src, at, p);
        assert(heads_of(a) == heads_of(moved_to(e, at as u64)));
        assert(accounted(a));
        lemma_handled_accounted(a, p.how);
        if d.mode.params.strategy is Opt {
            let top = a.place.block_end as int;
            assert(opt_alike(a, a, top));
            lemma_opt_handled_alike(a, a, p.how);
        }
        let f = handled(a, p.how).0;
        lemma_handled(a, Seq::empty(), a.carry.rep, p.how);
        assert(heads_of(moved_to(f, p.end as u64)) == heads_of(f));
    }
}

/// A block that a tree parse has taken keeps what is accounted for.
pub proof fn lemma_tree_accounted(e: Drv, t: TreeParse)
    requires
        accounted(e),
        e.place.pos <= e.place.block_end,
        !(e.mode.params.strategy is Opt),
        for_tree(e),
    ensures
        accounted(tree_taken(e, t)),
{
    lemma_settled(e);
    let f = tree_taken(e, t);
    assert(f.store == e.store);
    assert(f.place.pos == e.place.block_end);
    assert(heads_of(f) == heads_of(e));
}

/// A block of a streamed frame keeps what is accounted for, if its row's entries do not
/// wrap around.
pub proof fn lemma_block_accounted(d: Drv, block: Seq<u8>, how: BlockUse)
    requires
        streams(d),
        accounted(d),
        d.place.pos <= d.place.base + d.win.len(),
        block.len() <= d.mode.slice_size,
        d.place.base + d.win.len() + block.len() <= POS_MAX,
        parses(committed(d, block), how) ==> !(d.mode.params.strategy is BtLazy),
        accountable(committed(d, block)),
    ensures
        accounted(block_handled(d, block, how).0),
{
    lemma_committed(d, block);
    lemma_moves_accounted(d, Seq::empty(), 0, 0, 0, block);
    lemma_handled_accounted(committed(d, block), how);
}

/// One law for all rows that parse their blocks themselves: reset for a job, with its
/// repeated offsets declared unknown, prefilled with its strip, and handed the windows and
/// blocks of the job, any two matchers emit the same, whatever they did before. They stay
/// fit for the next job in the same way.
pub proof fn lemma_pooled_job(
    d: Drv,
    e: Drv,
    level: Level,
    shape: InputShape,
    choice: ReachChoice,
    arming: LdmArming,
    src: Seq<u8>,
    from: u64,
    start: u64,
    depth: u64,
    pieces: Seq<Piece>,
)
    requires
        accounted(d),
        accounted(e),
        from <= start <= src.len() <= POS_MAX,
        start - from <= WIN_MAX,
        src.len() + HEAD_ORIGIN_CAP + 1 < 0x1_0000_0000,
        pieces_fit(src, start as int, pieces),
        pieces.len() > 0,
        ({
            let strip = src.subrange(from as int, start as int);
            let a = job_prepared(d, level, shape, choice, arming, start, depth);
            let b = job_prepared(e, level, shape, choice, arming, start, depth);
            &&& a.wf() && works(filled(a, strip, from, FillGrid::Strip, true))
            &&& b.wf() && works(filled(b, strip, from, FillGrid::Strip, true))
            &&& a.mode.params.strategy is Chain ==> takes_over(d, a.mode.params) && takes_over(e, a.mode.params)
            &&& a.mode.params.strategy is Opt ==> {
                &&& d.mode.opt_origin + d.place.pos + 1 + MAX_BLOCK_SIZE + src.len() + 1 < 0x1_0000_0000
                &&& e.mode.opt_origin + e.place.pos + 1 + MAX_BLOCK_SIZE + src.len() + 1 < 0x1_0000_0000
            }
        }),
    ensures
        ({
            let strip = src.subrange(from as int, start as int);
            let a = job_prepared(d, level, shape, choice, arming, start, depth);
            let b = job_prepared(e, level, shape, choice, arming, start, depth);
            let x = job_handled(filled(a, strip, from, FillGrid::Strip, true), src, start as int, pieces);
            let y = job_handled(filled(b, strip, from, FillGrid::Strip, true), src, start as int, pieces);
            x.1 == y.1 && accounted(x.0) && accounted(y.0)
        }),
{
    let strip = src.subrange(from as int, start as int);
    let a = job_prepared(d, level, shape, choice, arming, start, depth);
    let b = job_prepared(e, level, shape, choice, arming, start, depth);
    lemma_prepared_alike(d, e, level, shape, choice, arming, start, depth);
    lemma_job_prepared_accounted(d, level, shape, choice, arming, start, depth);
    lemma_job_prepared_accounted(e, level, shape, choice, arming, start, depth);
    lemma_prefill_accounted(a, strip, from, start);
    lemma_prefill_accounted(b, strip, from, start);
    let f = filled(a, strip, from, FillGrid::Strip, true);
    let g = filled(b, strip, from, FillGrid::Strip, true);
    assert(f.mode.params == a.mode.params && g.mode.params == b.mode.params);
    lemma_job_accounted(f, src, start as int, pieces);
    lemma_job_accounted(g, src, start as int, pieces);
    if clearing(a.mode.params.strategy) {
        lemma_job_forgets(d, e, level, shape, choice, arming, src, from, start, depth, pieces);
    } else if a.mode.params.strategy is Chain {
        lemma_chain_job_forgets(d, e, level, shape, choice, arming, src, from, start, depth, pieces);
    } else {
        lemma_opt_job_forgets(d, e, level, shape, choice, arming, src, from, start, depth, pieces);
    }
}

/// Preparing a matcher for a job keeps what is accounted for.
pub proof fn lemma_job_prepared_accounted(
    d: Drv,
    level: Level,
    shape: InputShape,
    choice: ReachChoice,
    arming: LdmArming,
    start: u64,
    depth: u64,
)
    requires
        accounted(d),
        job_prepared(d, level, shape, choice, arming, start, depth).mode.params.strategy is Opt ==> d.mode.opt_origin
            + d.place.pos + 1 < 0x1_0000_0000,
    ensures
        ({
            let a = job_prepared(d, level, shape, choice, arming, start, depth);
            &&& tree_accounted(a)
            &&& takes_over(d, a.mode.params) ==> head_accounted(a)
            &&& a.mode.params.strategy is Opt ==> tree_retired(a) && a.mode.opt_origin == d.mode.opt_origin + d.place.pos
                + 1
            &&& a.place.pos == 0
        }),
{
    let m = Mode { input: told(shape), reach_choice: choice, arming, ..d.mode };
    let d1 = Drv { mode: m, ..d };
    assert(heads_of(d1) == heads_of(d));
    assert(accounted(d1));
    let r = reset_to(d1, level);
    let a = job_prepared(d, level, shape, choice, arming, start, depth);
    assert(r.mode.params == frame_params(level, framed(m)));
    lemma_reset_accounted(d1, level);
    assert(heads_of(a) == heads_of(r));
    if a.mode.params.strategy is Opt {
        vstd::arithmetic::div_mod::lemma_small_mod((d.mode.opt_origin + d.place.pos + 1) as nat, 0x1_0000_0000);
    }
}

} // verus!
