//! Frames in which a tree parse takes blocks: those of a frame's head, and all of the
//! deferred tree rows. If what the tree parse makes of a block decodes, so does the
//! frame.

use vstd::prelude::*;
use crate::driver::{reset_to, Carry, Drv, Place, POS_MAX};
use crate::driver_blocks::{alphabet_gated, block_decided, generated, head_clear, lemma_settled, settled};
use crate::driver_fill::{committed, compacted, dict_tail, swap_fits, with_dict, SmallDictRow};
use crate::driver_plan::{head_finished, step_decided};
use crate::driver_scan::{block_waits, lemma_noted, noted_block};
use crate::frame::{
    block_decoded, block_handled, follows, frame_decoded, handled, joined, lemma_block_handled, lemma_committed, lemma_dict_starts,
    lemma_frame_starts, lemma_handled, lemma_offered, lemma_spliced, may_handle, same_frame, streams, BlockUse, Emitted,
};
use crate::job::{job_end_of, lemma_on_piece, on_piece, pieces_fit, Piece};
use crate::level::Level;
use crate::params::BlockAction;
use crate::scan::LdmSeq;
use crate::seq_codes::SeqWord;
use crate::sequence::{
    decodes_to, lemma_paid_bounds, lemma_replay_more_history, lemma_replay_owed, paid, replay, reps_agree, start_reps, Reps,
};

verus! {

/// What a tree parse makes of a block: the long-distance candidates that it was offered,
/// what it emits, the repeated offsets behind it with how many of them are still owed,
/// and whether a candidate was used.
pub struct TreeParse {
    pub found: Option<Seq<LdmSeq>>,
    pub lits: Seq<u8>,
    pub seqs: Seq<SeqWord>,
    pub rep: Reps,
    pub pending: u8,
    pub won: bool,
}

/// A matcher that has taken over what a tree parse leaves.
pub open spec fn tree_ended(g: Drv, t: TreeParse) -> Drv {
    Drv {
        place: Place { pos: g.place.block_end, ..g.place },
        carry: Carry { rep: t.rep, pending: t.pending, ..g.carry },
        ..g
    }
}

/// A matcher after a block that a tree parse has taken.
pub open spec fn tree_taken(e: Drv, t: TreeParse) -> Drv {
    let (g, who) = block_decided(e);
    match who {
        BlockAction::Head => head_finished(tree_ended(g, t)),
        BlockAction::Tree(_) => {
            let h = match t.found {
                Some(found) => generated(alphabet_gated(g), found),
                None => g,
            };
            noted_block(Drv { ldm: Seq::empty(), ..tree_ended(h, t) }, t.won)
        },
        BlockAction::Row => g,
    }
}

/// What a tree parse makes of a block decodes, for a decoder with the matcher's offsets:
/// it comes back with those that the parse hands on, and what is owed is paid before a
/// repeated offset is named.
pub open spec fn tree_sound(e: Drv, t: TreeParse) -> bool {
    let hist = e.cut().take(e.at());
    &&& decodes_to(hist, e.carry.rep, t.lits, t.seqs, e.cut())
    &&& replay(hist, e.carry.rep, t.lits, t.seqs).rep == t.rep
    &&& t.rep.positive()
    &&& paid(e.carry.pending as int, t.seqs, t.pending as int)
}

/// What becomes of a block of any row.
pub enum Turn {
    /// It is handled without a tree parse.
    Plain(BlockUse),
    /// A tree parse takes it.
    Treed(TreeParse),
}

/// A block is meant for a tree parse. One of the head is, as long as no offsets are owed.
pub open spec fn for_tree(e: Drv) -> bool {
    match block_decided(e).1 {
        BlockAction::Head => e.carry.pending == 0,
        BlockAction::Tree(_) => true,
        BlockAction::Row => false,
    }
}

/// A block may take this turn: a tree parse only takes blocks that are meant for one, and
/// decodes.
pub open spec fn may_turn(e: Drv, turn: Turn) -> bool {
    match turn {
        Turn::Plain(how) => may_handle(e, how),
        Turn::Treed(t) => for_tree(e) && tree_sound(e, t),
    }
}

/// A matcher after one more block, and what the frame holds of it.
pub open spec fn turned(d: Drv, block: Seq<u8>, turn: Turn) -> (Drv, Emitted) {
    match turn {
        Turn::Plain(how) => block_handled(d, block, how),
        Turn::Treed(t) => (tree_taken(committed(d, block), t), Emitted { block, lits: t.lits, seqs: t.seqs }),
    }
}

/// A matcher after a frame's blocks, and what the frame holds of them.
pub open spec fn all_turned(d: Drv, blocks: Seq<Seq<u8>>, turns: Seq<Turn>) -> (Drv, Seq<Emitted>)
    decreases blocks.len(),
{
    if blocks.len() == 0 {
        (d, Seq::empty())
    } else {
        let (e, out) = all_turned(d, blocks.drop_last(), turns);
        let (f, x) = turned(e, blocks.last(), turns[blocks.len() - 1]);
        (f, out.push(x))
    }
}

/// All blocks of a frame may take their turns.
pub open spec fn all_may_turn(d: Drv, blocks: Seq<Seq<u8>>, turns: Seq<Turn>) -> bool
    decreases blocks.len(),
{
    blocks.len() > 0 ==> {
        let before = blocks.drop_last();
        &&& all_may_turn(d, before, turns)
        &&& may_turn(committed(all_turned(d, before, turns).0, blocks.last()), turns[blocks.len() - 1])
    }
}

/// A matcher that has taken over a tree's block keeps its frame.
proof fn lemma_tree_taken(e: Drv, t: TreeParse)
    requires
        block_waits(e),
        e.ldm.len() == 0,
        head_clear(e),
        for_tree(e),
        t.rep.positive(),
        t.pending <= e.carry.pending,
    ensures
        same_frame(e, tree_taken(e, t)),
        tree_taken(e, t).carry.rep == t.rep,
        tree_taken(e, t).carry.pending == t.pending,
        head_clear(tree_taken(e, t)),
{
    lemma_settled(e);
    let s = settled(e);
    reveal(crate::driver_plan::head_decided);
    if block_decided(e).1 is Head {
        let g = block_decided(e).0;
        assert(g.wf());
        assert(tree_ended(g, t).wf());
    } else {
        let g = step_decided(s).0;
        assert(g.wf() && g.ready());
        assert(block_waits(g)) by {
            assert(g.ldm.len() == 0);
        }
        let h = match t.found {
            Some(found) => generated(alphabet_gated(g), found),
            None => g,
        };
        if let Some(found) = t.found {
            lemma_offered(g, found);
        }
        let x = Drv { ldm: Seq::empty(), ..tree_ended(h, t) };
        assert(x.wf());
        lemma_noted(x, t.won);
    }
}

/// A decoder whose output ends with the history in the window of `e` gains exactly the
/// block from a tree parse that decodes, and its offsets stay in agreement with the
/// matcher's.
proof fn lemma_tree_gains(e: Drv, pre: Seq<u8>, rep: Reps, t: TreeParse)
    requires
        block_waits(e),
        e.ldm.len() == 0,
        head_clear(e),
        reps_agree(rep, e.carry.rep, 3 - e.carry.pending),
        for_tree(e),
        tree_sound(e, t),
    ensures
        ({
            let f = tree_taken(e, t);
            let (o, r) = block_decoded(
                pre + e.cut().take(e.at()),
                rep,
                Emitted { block: e.block(), lits: t.lits, seqs: t.seqs },
            );
            &&& o == pre + e.cut()
            &&& same_frame(e, f)
            &&& head_clear(f)
            &&& reps_agree(r, f.carry.rep, 3 - f.carry.pending)
            &&& rep == e.carry.rep ==> r == f.carry.rep
            &&& f.carry.pending == t.pending
        }),
{
    let hist = e.cut().take(e.at());
    lemma_paid_bounds(e.carry.pending as int, t.seqs, t.pending as int);
    lemma_tree_taken(e, t);
    lemma_replay_owed(hist, rep, e.carry.rep, t.lits, t.seqs, e.carry.pending as int, t.pending as int);
    let a = replay(hist, rep, t.lits, t.seqs);
    if t.seqs.len() > 0 {
        lemma_replay_more_history(pre, hist, rep, t.lits, t.seqs);
        let tail = t.lits.subrange(a.used, t.lits.len() as int);
        assert((pre + a.out) + tail =~= pre + (a.out + tail));
    } else {
        assert(a.rep == rep);
        assert(pre + hist + e.block() =~= pre + e.cut());
    }
}

/// A block that a tree parse takes decodes like any other, if what the tree parse made of
/// it does: the matcher that takes over follows the decoder.
pub proof fn lemma_tree_block_decodes(d: Drv, out: Seq<u8>, rep: Reps, block: Seq<u8>, t: TreeParse)
    requires
        streams(d),
        follows(d, out, rep),
        block.len() <= d.mode.slice_size,
        out.len() + block.len() <= POS_MAX,
        for_tree(committed(d, block)),
        tree_sound(committed(d, block), t),
    ensures
        ({
            let (o, r) = block_decoded(out, rep, Emitted { block, lits: t.lits, seqs: t.seqs });
            let f = tree_taken(committed(d, block), t);
            &&& o == out + block
            &&& streams(f)
            &&& follows(f, o, r)
            &&& rep == d.carry.rep ==> r == f.carry.rep
            &&& f.carry.pending == t.pending
            &&& f.mode.slice_size == d.mode.slice_size
            &&& f.mode.params == d.mode.params
        }),
{
    lemma_committed(d, block);
    lemma_spliced(d, out, block);
    lemma_tree_gains(committed(d, block), out.take(d.place.base + compacted(d)), rep, t);
}

/// Frames decode on every row, whoever parses their blocks: if what the tree parse makes
/// of the blocks that are its own decodes, the decoder adds exactly the blocks to the
/// history that it starts with, and its offsets stay in agreement with the matcher's. One
/// that starts with exactly the matcher's offsets ends with exactly those.
pub proof fn lemma_any_frame_decodes(d: Drv, out: Seq<u8>, rep: Reps, blocks: Seq<Seq<u8>>, turns: Seq<Turn>)
    requires
        streams(d),
        follows(d, out, rep),
        forall|k: int| 0 <= k < blocks.len() ==> (#[trigger] blocks[k]).len() <= d.mode.slice_size,
        out.len() + joined(blocks).len() <= POS_MAX,
        all_may_turn(d, blocks, turns),
    ensures
        ({
            let (e, xs) = all_turned(d, blocks, turns);
            let (o, r) = frame_decoded(out, rep, xs);
            &&& o == out + joined(blocks)
            &&& streams(e)
            &&& follows(e, o, r)
            &&& rep == d.carry.rep ==> r == e.carry.rep
            &&& e.mode.slice_size == d.mode.slice_size
            &&& e.mode.params == d.mode.params
        }),
    decreases blocks.len(),
{
    if blocks.len() == 0 {
        assert(out + joined(blocks) =~= out);
    } else {
        let bs = blocks.drop_last();
        assert forall|k: int| 0 <= k < bs.len() implies (#[trigger] bs[k]).len() <= d.mode.slice_size by {
            assert(bs[k] == blocks[k]);
        }
        lemma_any_frame_decodes(d, out, rep, bs, turns);
        let (e, xs) = all_turned(d, bs, turns);
        let (o, r) = frame_decoded(out, rep, xs);
        let turn = turns[blocks.len() - 1];
        assert(blocks[blocks.len() - 1] == blocks.last());
        match turn {
            Turn::Plain(how) => {
                lemma_block_handled(e, o, r, blocks.last(), how);
            },
            Turn::Treed(t) => {
                lemma_tree_block_decodes(e, o, r, blocks.last(), t);
            },
        }
        let x = turned(e, blocks.last(), turn).1;
        assert(xs.push(x).drop_last() =~= xs);
        assert(out + joined(blocks) =~= (out + joined(bs)) + blocks.last());
    }
}

/// A matcher that is reset, whatever it did before, starts a frame that decodes from
/// nothing, whoever parses its blocks, and behind it the matcher's offsets are the
/// decoder's.
pub proof fn lemma_any_reset_frame_decodes(d: Drv, level: Level, blocks: Seq<Seq<u8>>, turns: Seq<Turn>)
    requires
        d.wf(),
        reset_to(d, level).wf(),
        forall|k: int| 0 <= k < blocks.len() ==> (#[trigger] blocks[k]).len() <= reset_to(d, level).mode.slice_size,
        joined(blocks).len() <= POS_MAX,
        all_may_turn(reset_to(d, level), blocks, turns),
    ensures
        ({
            let (e, xs) = all_turned(reset_to(d, level), blocks, turns);
            let (o, r) = frame_decoded(Seq::empty(), start_reps(), xs);
            o == joined(blocks) && r == e.carry.rep
        }),
{
    lemma_frame_starts(d, level);
    lemma_any_frame_decodes(reset_to(d, level), Seq::empty(), start_reps(), blocks, turns);
    assert(Seq::<u8>::empty() + joined(blocks) =~= joined(blocks));
}

/// The blocks of a frame behind a dictionary decode over what the window keeps of it,
/// whoever parses them, and the decoder ends with the matcher's offsets.
pub proof fn lemma_any_dict_frame_decodes(
    d: Drv,
    content: Seq<u8>,
    rep: Reps,
    swap: Option<SmallDictRow>,
    blocks: Seq<Seq<u8>>,
    turns: Seq<Turn>,
)
    requires
        !d.mode.direct,
        d.ldm.len() == 0,
        with_dict(d, content, rep, swap).wf(),
        swap_fits(d, swap),
        forall|k: int| 0 <= k < blocks.len() ==> (#[trigger] blocks[k]).len() <= d.mode.slice_size,
        dict_tail(content, d.mode.params.window).len() + joined(blocks).len() <= POS_MAX,
        all_may_turn(with_dict(d, content, rep, swap), blocks, turns),
    ensures
        ({
            let dict = dict_tail(content, d.mode.params.window);
            let (e, xs) = all_turned(with_dict(d, content, rep, swap), blocks, turns);
            let (o, r) = frame_decoded(dict, rep, xs);
            o == dict + joined(blocks) && r == e.carry.rep
        }),
{
    lemma_dict_starts(d, content, rep, swap);
    lemma_any_frame_decodes(
        with_dict(d, content, rep, swap),
        dict_tail(content, d.mode.params.window),
        rep,
        blocks,
        turns,
    );
}

/// A matcher after a job's pieces, each with its turn, and what the frame holds of them.
pub open spec fn job_turned(d: Drv, src: Seq<u8>, start: int, pieces: Seq<Piece>, turns: Seq<Turn>) -> (Drv, Seq<Emitted>)
    decreases pieces.len(),
{
    if pieces.len() == 0 {
        (d, Seq::empty())
    } else {
        let before = pieces.drop_last();
        let (e, xs) = job_turned(d, src, start, before, turns);
        let p = on_piece(e, src, job_end_of(start, before), pieces.last());
        let (f, x) = match turns[pieces.len() - 1] {
            Turn::Plain(how) => handled(p, how),
            Turn::Treed(t) => (tree_taken(p, t), Emitted { block: p.block(), lits: t.lits, seqs: t.seqs }),
        };
        (f, xs.push(x))
    }
}

/// All pieces of a job may take their turns.
pub open spec fn job_may_turn(d: Drv, src: Seq<u8>, start: int, pieces: Seq<Piece>, turns: Seq<Turn>) -> bool
    decreases pieces.len(),
{
    pieces.len() > 0 ==> {
        let before = pieces.drop_last();
        &&& job_may_turn(d, src, start, before, turns)
        &&& may_turn(
            on_piece(job_turned(d, src, start, before, turns).0, src, job_end_of(start, before), pieces.last()),
            turns[pieces.len() - 1],
        )
    }
}

/// Jobs decode on every row, whoever parses their blocks: after the input before the job
/// the decoder gains exactly the job's part of it, whatever offsets it remembers, if what
/// the tree parse makes of the blocks that are its own decodes.
pub proof fn lemma_any_job_decodes(d: Drv, src: Seq<u8>, start: int, pieces: Seq<Piece>, turns: Seq<Turn>, rep: Reps)
    requires
        d.wf(),
        d.ldm.len() == 0,
        0 <= start <= src.len() <= POS_MAX,
        pieces_fit(src, start, pieces),
        job_may_turn(d, src, start, pieces, turns),
        reps_agree(rep, d.carry.rep, 3 - d.carry.pending),
        head_clear(d),
    ensures
        ({
            let (e, xs) = job_turned(d, src, start, pieces, turns);
            let (o, r) = frame_decoded(src.take(start), rep, xs);
            &&& o == src.take(job_end_of(start, pieces))
            &&& e.wf()
            &&& e.ldm.len() == 0
            &&& reps_agree(r, e.carry.rep, 3 - e.carry.pending)
            &&& rep == d.carry.rep ==> r == e.carry.rep
            &&& head_clear(e)
        }),
        start <= job_end_of(start, pieces) <= src.len(),
    decreases pieces.len(),
{
    if pieces.len() > 0 {
        let before = pieces.drop_last();
        lemma_any_job_decodes(d, src, start, before, turns, rep);
        let (e, xs) = job_turned(d, src, start, before, turns);
        let (o, r) = frame_decoded(src.take(start), rep, xs);
        let at = job_end_of(start, before);
        let last = pieces.last();
        let p = on_piece(e, src, at, last);
        let pre = src.take(last.from);
        lemma_on_piece(e, src, at, last);
        match turns[pieces.len() - 1] {
            Turn::Plain(how) => {
                lemma_handled(p, pre, r, how);
            },
            Turn::Treed(t) => {
                lemma_tree_gains(p, pre, r, t);
            },
        }
        assert(pre + p.cut().take(p.at()) =~= src.take(at));
        assert(pre + p.cut() =~= src.take(last.end));
        let x = job_turned(d, src, start, pieces, turns).1.last();
        assert(xs.push(x).drop_last() =~= xs);
    }
}

} // verus!
