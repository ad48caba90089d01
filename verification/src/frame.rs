//! A frame as a decoder sees it: the blocks that a matcher was handed, one after
//! the other, come back.

use vstd::prelude::*;
use crate::driver::{noted, Carry, Drv, Mode, POS_MAX};
use crate::driver_blocks::{
    alphabet_gated, block_parsed, caught_up, first_indexed, gated, generated, gives_up, head_clear, left_out, lemma_prepared,
    lemma_sampled, lemma_settled, lemma_usable_among, sampled, settled, skipped, usable,
};
use crate::driver_fill::{committed, compacted, dict_tail, swap_fits, with_dict, SmallDictRow};
use crate::driver_plan::{head_decided, lemma_same_head};
use crate::driver_scan::{block_waits, lemma_scanned, scan_ready, scanned};
use crate::gates::{lemma_seed_below, RampGate};
use crate::hash::{le8, HASH_READ};
use crate::level::Level;
use crate::opt_near::near_ldm;
use crate::params::HeadPhase;
use crate::parse_fast::ldm_true;
use crate::scan::{legal_reads, LdmSeq, Peer};
use crate::seq_codes::{decode_packed, encodable, pack_seq, seq_word, word_ml, word_of, SeqWord};
use crate::sequence::{lemma_long_enough_joins, lemma_nothing_paid, lemma_paid_bounds, lemma_paid_joins, lemma_replay_len, lemma_replay_more_history, lemma_replay_readable, lit_total, long_enough, match_total, paid, readable, replay, reps_agree, start_reps, EncodedSequence, Reps, Sequence};

verus! {

/// What becomes of a block.
pub enum BlockUse {
    /// It is parsed.
    Parsed,
    /// It is parsed with long-distance candidates on offer.
    Offered { found: Seq<LdmSeq> },
    /// It is passed over, as one byte repeated.
    Skipped,
    /// It is left out, as incompressible.
    LeftOut,
    /// It is looked at first, left out if it is incompressible, and else parsed
    /// with long-distance candidates on offer. The code lengths of the literals may
    /// have been noted before.
    Screened { costs: Option<Seq<u8>>, dense: bool, found: Seq<LdmSeq> },
    /// The same, but the frame takes the block as it stands: what it was parsed into
    /// is dropped, and the repeated offsets are put back.
    Dropped { costs: Option<Seq<u8>>, dense: bool, found: Seq<LdmSeq> },
}

/// What a frame holds of a block: the emitted parse, or the block as it stands if
/// there are no sequences.
pub struct Emitted {
    pub block: Seq<u8>,
    pub lits: Seq<u8>,
    pub seqs: Seq<SeqWord>,
}

/// A matcher that has noted the code lengths of literals.
pub open spec fn costed(e: Drv, costs: Option<Seq<u8>>) -> Drv {
    match costs {
        Some(lengths) => Drv { lit_lens: noted(lengths), ..e },
        None => e,
    }
}

/// A matcher after a block that was looked at first, and what it emitted.
pub open spec fn screen_handled(e: Drv, dense: bool, found: Seq<LdmSeq>) -> (Drv, Emitted) {
    let g = sampled(e, dense);
    if gives_up(gated(e).1, dense) {
        (left_out(g), Emitted { block: e.block(), lits: Seq::empty(), seqs: Seq::empty() })
    } else {
        let p = block_parsed(generated(alphabet_gated(g), found));
        (p.d, Emitted { block: e.block(), lits: p.lits, seqs: p.seqs })
    }
}

/// The matcher `f` with the repeated offsets that `e` has.
pub open spec fn put_back(f: Drv, e: Drv) -> Drv {
    Drv { carry: Carry { rep: e.carry.rep, ..f.carry }, ..f }
}

/// A matcher after the block that waited in it, and what the frame holds of it.
#[verifier::opaque]
pub open spec fn handled(e: Drv, how: BlockUse) -> (Drv, Emitted) {
    let block = e.block();
    match how {
        BlockUse::Parsed => {
            let p = block_parsed(e);
            (p.d, Emitted { block, lits: p.lits, seqs: p.seqs })
        },
        BlockUse::Offered { found } => {
            let p = block_parsed(generated(alphabet_gated(e), found));
            (p.d, Emitted { block, lits: p.lits, seqs: p.seqs })
        },
        BlockUse::Skipped => (
            skipped(e),
            Emitted { block, lits: Seq::empty(), seqs: Seq::empty() },
        ),
        BlockUse::LeftOut => (
            left_out(e),
            Emitted { block, lits: Seq::empty(), seqs: Seq::empty() },
        ),
        BlockUse::Screened { costs, dense, found } => screen_handled(costed(e, costs), dense, found),
        BlockUse::Dropped { costs, dense, found } => (
            put_back(screen_handled(costed(e, costs), dense, found).0, e),
            Emitted { block, lits: Seq::empty(), seqs: Seq::empty() },
        ),
    }
}

/// Whether a block is parsed.
pub open spec fn parses(e: Drv, how: BlockUse) -> bool {
    match how {
        BlockUse::Parsed => true,
        BlockUse::Offered { .. } => true,
        BlockUse::Skipped => false,
        BlockUse::LeftOut => false,
        BlockUse::Screened { costs, dense, .. } => !gives_up(gated(costed(e, costs)).1, dense),
        BlockUse::Dropped { costs, dense, .. } => !gives_up(gated(costed(e, costs)).1, dense),
    }
}

/// A block that belongs to the frame's head or to a deferred tree row is not for the
/// row's own parse. What a block is parsed into may be dropped only where the matcher knows all of the decoder's
/// offsets: offsets that a dropped block paid are owed again.
pub open spec fn may_handle(e: Drv, how: BlockUse) -> bool {
    &&& parses(e, how) ==> !head_decided(e).1 && !(e.mode.params.strategy is BtLazy)
    &&& how is Dropped ==> e.carry.pending == 0
}

/// A matcher after one more block, and what the frame holds of it.
pub open spec fn block_handled(d: Drv, block: Seq<u8>, how: BlockUse) -> (Drv, Emitted) {
    handled(committed(d, block), how)
}

/// A matcher after a frame's blocks, and what the frame holds of them.
pub open spec fn frame_handled(d: Drv, blocks: Seq<Seq<u8>>, hows: Seq<BlockUse>) -> (Drv, Seq<Emitted>)
    decreases blocks.len(),
{
    if blocks.len() == 0 {
        (d, Seq::empty())
    } else {
        let (e, out) = frame_handled(d, blocks.drop_last(), hows);
        let (f, x) = block_handled(e, blocks.last(), hows[blocks.len() - 1]);
        (f, out.push(x))
    }
}

/// All blocks of a frame may be handled as they are.
pub open spec fn frame_allowed(d: Drv, blocks: Seq<Seq<u8>>, hows: Seq<BlockUse>) -> bool
    decreases blocks.len(),
{
    blocks.len() > 0 ==> {
        let before = blocks.drop_last();
        &&& frame_allowed(d, before, hows)
        &&& may_handle(committed(frame_handled(d, before, hows).0, blocks.last()), hows[blocks.len() - 1])
    }
}

/// The sequences of a frame, one after the other.
pub open spec fn all_seqs(xs: Seq<Emitted>) -> Seq<SeqWord>
    decreases xs.len(),
{
    if xs.len() == 0 {
        Seq::empty()
    } else {
        all_seqs(xs.drop_last()) + xs.last().seqs
    }
}

/// A decoder after one more block.
pub open spec fn block_decoded(out: Seq<u8>, rep: Reps, x: Emitted) -> (Seq<u8>, Reps) {
    if x.seqs.len() == 0 {
        (out + x.block, rep)
    } else {
        let r = replay(out, rep, x.lits, x.seqs);
        (r.out + x.lits.subrange(r.used, x.lits.len() as int), r.rep)
    }
}

/// A decoder after a frame.
pub open spec fn frame_decoded(out: Seq<u8>, rep: Reps, xs: Seq<Emitted>) -> (Seq<u8>, Reps)
    decreases xs.len(),
{
    if xs.len() == 0 {
        (out, rep)
    } else {
        let (o, r) = frame_decoded(out, rep, xs.drop_last());
        block_decoded(o, r, xs.last())
    }
}

/// All blocks of a frame, one after the other.
pub open spec fn joined(blocks: Seq<Seq<u8>>) -> Seq<u8>
    decreases blocks.len(),
{
    if blocks.len() == 0 {
        Seq::empty()
    } else {
        joined(blocks.drop_last()) + blocks.last()
    }
}

/// A matcher that takes the blocks of a frame one after the other.
pub open spec fn streams(d: Drv) -> bool {
    &&& d.wf()
    &&& !d.mode.direct
    &&& d.ldm.len() == 0
}

/// The matcher keeps up with a decoder: its window is the end of what the decoder
/// holds, and their repeated offsets agree, all of them while the frame's head runs.
pub open spec fn follows(d: Drv, out: Seq<u8>, rep: Reps) -> bool {
    &&& head_clear(d)
    &&& d.place.base + d.win.len() == out.len()
    &&& out.subrange(d.place.base as int, out.len() as int) == d.win
    &&& reps_agree(rep, d.carry.rep, 3 - d.carry.pending)
}

/// A block that fits is ready once it is added, and history keeps its place.
pub proof fn lemma_committed(d: Drv, data: Seq<u8>)
    requires
        streams(d),
        data.len() <= d.mode.slice_size,
        d.place.base + d.win.len() + data.len() <= POS_MAX,
    ensures
        ({
            let e = committed(d, data);
            &&& block_waits(e)
            &&& e.block() == data
            &&& e.cut() == e.win
            &&& e.cut().take(e.at()) == d.win.skip(compacted(d))
            &&& 0 <= compacted(d) <= d.win.len()
        }),
{
    let e = committed(d, data);
    let drop = compacted(d);
    assert(e.win =~= d.win.skip(drop) + data);
    assert(e.cut() =~= e.win);
    assert(e.block() =~= data);
    assert(e.cut().take(e.at()) =~= d.win.skip(drop));
}

/// Passing over a block keeps the matcher fit, its window and its offsets. The block
/// stays the last one.
pub proof fn lemma_passed(e: Drv)
    requires
        block_waits(e),
        e.ldm.len() == 0,
    ensures
        same_frame(e, skipped(e)),
        skipped(e).carry == e.carry,
        same_frame(e, left_out(e)),
        left_out(e).carry == e.carry,
        skipped(e).block() == e.block(),
        left_out(e).block() == e.block(),
        head_clear(skipped(e)) == head_clear(e),
        head_clear(left_out(e)) == head_clear(e),
{
    crate::store::lemma_indexed_sized(e.keys(), e.win, e.store, e.at(), e.at() + 1, 1);
    assert(first_indexed(e).wf());
}

/// A matcher with a block added still holds the end of what the decoder will.
pub proof fn lemma_spliced(d: Drv, out: Seq<u8>, block: Seq<u8>)
    requires
        d.place.base + d.win.len() == out.len(),
        out.subrange(d.place.base as int, out.len() as int) == d.win,
        0 <= compacted(d) <= d.win.len(),
        out.len() + block.len() <= POS_MAX,
    ensures
        ({
            let e = committed(d, block);
            let pre = out.take(d.place.base + compacted(d));
            &&& pre + d.win.skip(compacted(d)) == out
            &&& pre + e.win == out + block
            &&& e.place.base + e.win.len() == out.len() + block.len()
            &&& (out + block).subrange(e.place.base as int, (out + block).len() as int) == e.win
        }),
{
    let e = committed(d, block);
    let drop = compacted(d);
    let pre = out.take(d.place.base + drop);
    let hist = d.win.skip(drop);
    assert forall|k: int| 0 <= k < out.len() implies (pre + hist)[k] == out[k] by {
        if k >= pre.len() {
            assert(d.win[k - d.place.base] == out[k]);
        }
    }
    assert(pre + hist =~= out);
    assert(out + block =~= pre + e.win);
    assert((out + block).subrange(e.place.base as int, (out + block).len() as int) =~= e.win);
}

/// The matcher stays inside its window: its search does, and so does all that it
/// carries.
pub open spec fn keeps_window(d: Drv) -> bool {
    let window = d.mode.params.window as int;
    &&& d.mode.params.reach_of() <= window
    &&& d.carry.rep.within(window)
    &&& d.carry.seed <= window
}

/// No match of a block is copied from farther back than `far`.
pub open spec fn block_near(out: Seq<u8>, rep: Reps, x: Emitted, far: int) -> bool {
    let offs = replay(out, rep, x.lits, x.seqs).offs;
    forall|k: int| 0 <= k < offs.len() ==> #[trigger] offs[k] <= far
}

/// No match of a frame is.
pub open spec fn frame_near(out: Seq<u8>, rep: Reps, xs: Seq<Emitted>, far: int) -> bool
    decreases xs.len(),
{
    xs.len() > 0 ==> {
        let (o, r) = frame_decoded(out, rep, xs.drop_last());
        &&& frame_near(out, rep, xs.drop_last(), far)
        &&& block_near(o, r, xs.last(), far)
    }
}

/// What a matcher keeps over a block.
pub open spec fn same_frame(d: Drv, e: Drv) -> bool {
    &&& e.wf()
    &&& e.win == d.win
    &&& e.place.base == d.place.base
    &&& e.ldm.len() == 0
    &&& e.mode.params == d.mode.params
    &&& e.mode.slice_size == d.mode.slice_size
    &&& e.mode.direct == d.mode.direct
    &&& e.carry.pending <= d.carry.pending
}

/// A parse leaves the head of the frame alone.
proof fn lemma_scanned_head(g: Drv)
    ensures
        scanned(g).d.mode.head == g.mode.head,
{
    reveal(scanned);
}

/// A parsed block is decoded after any history that ends with the matcher's.
#[verifier::rlimit(60)]
proof fn lemma_parsed(e: Drv, pre: Seq<u8>, rep: Reps)
    requires
        scan_ready(e),
        reps_agree(rep, e.carry.rep, 3 - e.carry.pending),
        head_clear(e) || rep == e.carry.rep,
    ensures
        ({
            let p = block_parsed(e);
            let hist = e.cut().take(e.at());
            let (o, r) = block_decoded(
                pre + hist,
                rep,
                Emitted { block: e.block(), lits: p.lits, seqs: p.seqs },
            );
            &&& o == pre + e.cut()
            &&& same_frame(e, p.d)
            &&& reps_agree(r, p.d.carry.rep, 3 - p.d.carry.pending)
            &&& rep == e.carry.rep ==> r == p.d.carry.rep
            &&& head_clear(e) ==> paid(e.carry.pending as int, p.seqs, p.d.carry.pending as int)
            &&& long_enough(3, e.mode.params.bar(), p.seqs)
            &&& !head_decided(e).1 ==> head_clear(p.d)
            &&& p.seqs.len() == 0 ==> p.lits.len() == 0
            &&& p.seqs.len() > 0 ==> {
                &&& lit_total(p.seqs, p.seqs.len() as int) <= p.lits.len()
                &&& match_total(p.seqs) + p.lits.len() == e.block().len()
            }
        }),
        keeps_window(e) && near_ldm(e.ldm, e.mode.params.window as int) ==> {
            let p = block_parsed(e);
            &&& keeps_window(p.d)
            &&& block_near(
                pre + e.cut().take(e.at()),
                rep,
                Emitted { block: e.block(), lits: p.lits, seqs: p.seqs },
                e.mode.params.window as int,
            )
        },
{
    lemma_settled(e);
    lemma_prepared(settled(e));
    let g = alphabet_gated(caught_up(settled(e)));
    let z = settled(e);
    assert(g.win == e.win && g.place == e.place && g.mode.params == e.mode.params);
    assert(g.mode.slice_size == e.mode.slice_size && g.mode.direct == e.mode.direct);
    assert(z.carry.rep == e.carry.rep && z.carry.seed == e.carry.seed && z.ldm == e.ldm);
    assert(g.carry == z.carry);
    let far = if keeps_window(e) && near_ldm(e.ldm, e.mode.params.window as int) {
        e.mode.params.window as int
    } else {
        u64::MAX as int
    };
    lemma_scanned(g, rep, RampGate::off_gate(), far);
    let p = block_parsed(e);
    let hist = e.cut().take(e.at());
    assert(g.cut() == e.cut() && g.at() == e.at());
    assert(p.d.mode.head == settled(e).mode.head) by {
        lemma_scanned_head(g);
    }
    lemma_paid_bounds(g.carry.pending as int, p.seqs, p.d.carry.pending as int);
    let a = replay(hist, rep, p.lits, p.seqs);
    let peer = Peer { start: g.at(), rep0: rep, base: g.place.base as int, ramp: RampGate::off_gate(), far, owed: g.carry.pending as int, least: 3, bar: 3, hop: far, same: rep == g.carry.rep };
    assert(legal_reads(g.cut(), peer, p.lits, p.seqs));
    assert(g.cut().take(peer.start) == hist);
    assert forall|k: int| 0 <= k < a.offs.len() implies #[trigger] a.offs[k] <= far by {
        let b = replay(g.cut().take(peer.start), peer.rep0, p.lits, p.seqs);
        assert(a == b);
        assert(b.offs[k] <= peer.far);
    }
    lemma_replay_more_history(pre, hist, rep, p.lits, p.seqs);
    if p.seqs.len() > 0 {
        let tail = p.lits.subrange(a.used, p.lits.len() as int);
        assert((pre + a.out) + tail =~= pre + (a.out + tail));
        lemma_replay_readable(hist, rep, p.lits, p.seqs);
        lemma_replay_len(hist, rep, p.lits, p.seqs);
        assert(e.cut().len() == hist.len() + e.block().len());
    } else {
        assert(pre + hist + e.block() =~= pre + e.cut());
    }
}

/// Candidates that are kept leave the block ready.
pub proof fn lemma_offered(e: Drv, found: Seq<LdmSeq>)
    requires
        block_waits(e),
        e.ldm.len() == 0,
    ensures
        ({
            let g = generated(alphabet_gated(e), found);
            &&& block_waits(g)
            &&& g.win == e.win
            &&& g.place == e.place
            &&& g.carry == e.carry
            &&& g.mode.params == e.mode.params
            &&& g.mode.slice_size == e.mode.slice_size
            &&& g.mode.direct == e.mode.direct
            &&& near_ldm(g.ldm, e.mode.params.window as int)
        }),
{
    let a = alphabet_gated(e);
    let g = generated(a, found);
    lemma_usable_among(a, found, found.len() as int);
    assert(g.cut() == a.cut());
    assert forall|k: int| 0 <= k < g.ldm.len() implies {
        &&& #[trigger] ldm_true(g.cut(), g.place.base as int, g.ldm[k])
        &&& g.ldm[k].split >= g.place.block_start
    } by {
        assert(usable(a, g.ldm[k]));
    }
}

/// A look at the block leaves it ready.
pub proof fn lemma_sampled_ready(e: Drv, dense: bool)
    requires
        block_waits(e),
        e.ldm.len() == 0,
    ensures
        ({
            let g = sampled(e, dense);
            &&& block_waits(g)
            &&& g == (Drv { probe: g.probe, mode: Mode { gate_hold: g.mode.gate_hold, ..e.mode }, ..e })
            &&& g.cut() == e.cut()
            &&& g.at() == e.at()
            &&& g.block() == e.block()
        }),
{
    lemma_sampled(e, dense);
}

/// Noting code lengths leaves the block ready.
pub proof fn lemma_costed(e: Drv, costs: Option<Seq<u8>>)
    ensures
        ({
            let f = costed(e, costs);
            &&& block_waits(e) ==> block_waits(f)
            &&& f == (Drv { lit_lens: f.lit_lens, ..e })
            &&& f.cut() == e.cut()
            &&& f.at() == e.at()
            &&& f.block() == e.block()
        }),
{
    let f = costed(e, costs);
    assert(f.cut() == e.cut());
    if block_waits(e) {
        assert forall|k: int| 0 <= k < f.ldm.len() implies {
            &&& #[trigger] ldm_true(f.cut(), f.place.base as int, f.ldm[k])
            &&& f.ldm[k].split >= f.place.block_start
        } by {
            assert(ldm_true(e.cut(), e.place.base as int, e.ldm[k]));
        }
    }
}

/// A decoder whose output ends with the history in the window of `e` gains exactly the
/// block from what the frame holds of it, and reads no farther back than the window;
/// the matcher is `f` then. Offsets that were equal stay equal. If it `agrees`, their offsets stay in agreement, and those
/// that are owed are paid by the block's literal ones.
pub open spec fn gained(e: Drv, pre: Seq<u8>, rep: Reps, f: Drv, x: Emitted, agrees: bool) -> bool {
    let (o, r) = block_decoded(pre + e.cut().take(e.at()), rep, x);
    &&& o == pre + e.cut()
    &&& same_frame(e, f)
    &&& long_enough(3, e.mode.params.bar(), x.seqs)
    &&& rep == e.carry.rep ==> r == f.carry.rep
    &&& agrees ==> {
        &&& reps_agree(r, f.carry.rep, 3 - f.carry.pending)
        &&& paid(e.carry.pending as int, x.seqs, f.carry.pending as int)
        &&& head_clear(f)
    }
    &&& keeps_window(e) ==> keeps_window(f) && block_near(
        pre + e.cut().take(e.at()),
        rep,
        x,
        e.mode.params.window as int,
    )
}

/// A block that was looked at first and found worth it is decoded like any other.
#[verifier::rlimit(60)]
proof fn lemma_screen_parsed(e: Drv, pre: Seq<u8>, rep: Reps, dense: bool, found: Seq<LdmSeq>)
    requires
        scan_ready(e),
        e.ldm.len() == 0,
        reps_agree(rep, e.carry.rep, 3 - e.carry.pending),
        head_clear(e) || rep == e.carry.rep,
    ensures
        ({
            let p = block_parsed(generated(alphabet_gated(sampled(e, dense)), found));
            gained(
                e,
                pre,
                rep,
                p.d,
                Emitted { block: e.block(), lits: p.lits, seqs: p.seqs },
                head_clear(e) && !head_decided(e).1,
            )
        }),
{
    lemma_sampled_ready(e, dense);
    let g = sampled(e, dense);
    lemma_offered(g, found);
    let f = generated(alphabet_gated(g), found);
    assert(f.cut() == e.cut() && f.at() == e.at() && f.block() == e.block());
    assert(f.mode.head == e.mode.head);
    lemma_same_head(e, f);
    lemma_parsed(f, pre, rep);
}

/// A block that was looked at first is decoded like any other.
#[verifier::rlimit(60)]
proof fn lemma_screen_handled(e: Drv, pre: Seq<u8>, rep: Reps, dense: bool, found: Seq<LdmSeq>)
    requires
        block_waits(e),
        gives_up(gated(e).1, dense) || scan_ready(e),
        e.ldm.len() == 0,
        reps_agree(rep, e.carry.rep, 3 - e.carry.pending),
        head_clear(e) || rep == e.carry.rep,
    ensures
        gained(
            e,
            pre,
            rep,
            screen_handled(e, dense, found).0,
            screen_handled(e, dense, found).1,
            head_clear(e) && (gives_up(gated(e).1, dense) || !head_decided(e).1),
        ),
{
    lemma_nothing_paid(e.carry.pending as int, 3, e.mode.params.bar());
    lemma_sampled_ready(e, dense);
    let g = sampled(e, dense);
    if gives_up(gated(e).1, dense) {
        lemma_passed(g);
        assert(pre + e.cut().take(e.at()) + e.block() =~= pre + e.cut());
    } else {
        lemma_screen_parsed(e, pre, rep, dense, found);
    }
}

proof fn lemma_screened(e: Drv, pre: Seq<u8>, rep: Reps, costs: Option<Seq<u8>>, dense: bool, found: Seq<LdmSeq>)
    requires
        block_waits(e),
        gives_up(gated(costed(e, costs)).1, dense) || scan_ready(e),
        e.ldm.len() == 0,
        reps_agree(rep, e.carry.rep, 3 - e.carry.pending),
        head_clear(e) || rep == e.carry.rep,
    ensures
        ({
            let (f, x) = screen_handled(costed(e, costs), dense, found);
            gained(e, pre, rep, f, x, head_clear(e) && (gives_up(gated(costed(e, costs)).1, dense) || !head_decided(e).1))
        }),
{
    lemma_costed(e, costs);
    lemma_same_head(e, costed(e, costs));
    lemma_screen_handled(costed(e, costs), pre, rep, dense, found);
}

proof fn lemma_dropped(e: Drv, pre: Seq<u8>, rep: Reps, costs: Option<Seq<u8>>, dense: bool, found: Seq<LdmSeq>)
    requires
        block_waits(e),
        gives_up(gated(costed(e, costs)).1, dense) || scan_ready(e),
        e.ldm.len() == 0,
        reps_agree(rep, e.carry.rep, 3 - e.carry.pending),
        head_clear(e) || rep == e.carry.rep,
    ensures
        gained(
            e,
            pre,
            rep,
            put_back(screen_handled(costed(e, costs), dense, found).0, e),
            Emitted { block: e.block(), lits: Seq::empty(), seqs: Seq::empty() },
            head_clear(e) && may_handle(e, BlockUse::Dropped { costs, dense, found }),
        ),
{
    lemma_screened(e, pre, rep, costs, dense, found);
    lemma_nothing_paid(0, 3, e.mode.params.bar());
    assert(pre + e.cut().take(e.at()) + e.block() =~= pre + e.cut());
}

proof fn lemma_passed_over(e: Drv, pre: Seq<u8>, rep: Reps)
    requires
        block_waits(e),
        e.ldm.len() == 0,
        reps_agree(rep, e.carry.rep, 3 - e.carry.pending),
        head_clear(e) || rep == e.carry.rep,
    ensures
        ({
            let x = Emitted { block: e.block(), lits: Seq::empty(), seqs: Seq::empty() };
            gained(e, pre, rep, skipped(e), x, head_clear(e)) && gained(e, pre, rep, left_out(e), x, head_clear(e))
        }),
{
    lemma_passed(e);
    lemma_nothing_paid(e.carry.pending as int, 3, e.mode.params.bar());
    assert(pre + e.cut().take(e.at()) + e.block() =~= pre + e.cut());
}

/// Whatever becomes of a block, a decoder whose output ends with the history in
/// the matcher's window gains exactly the block, and its offsets stay in agreement
/// with the matcher's. It reads no farther back than the window.
pub proof fn lemma_handled(e: Drv, pre: Seq<u8>, rep: Reps, how: BlockUse)
    requires
        block_waits(e),
        parses(e, how) ==> scan_ready(e),
        e.ldm.len() == 0,
        reps_agree(rep, e.carry.rep, 3 - e.carry.pending),
        head_clear(e) || rep == e.carry.rep,
    ensures
        gained(e, pre, rep, handled(e, how).0, handled(e, how).1, head_clear(e) && may_handle(e, how)),
{
    reveal(handled);
    match how {
        BlockUse::Parsed => {
            lemma_parsed(e, pre, rep);
        },
        BlockUse::Offered { found } => {
            lemma_offered(e, found);
            let g = generated(alphabet_gated(e), found);
            assert(g.cut() == e.cut() && g.at() == e.at() && g.block() == e.block());
            lemma_same_head(e, g);
            lemma_parsed(g, pre, rep);
        },
        BlockUse::Skipped => {
            lemma_passed_over(e, pre, rep);
        },
        BlockUse::LeftOut => {
            lemma_passed_over(e, pre, rep);
        },
        BlockUse::Screened { costs, dense, found } => {
            lemma_screened(e, pre, rep, costs, dense, found);
        },
        BlockUse::Dropped { costs, dense, found } => {
            lemma_dropped(e, pre, rep, costs, dense, found);
        },
    }
}

/// One more block keeps the matcher with the decoder, which has gained the block.
pub proof fn lemma_block_handled(d: Drv, out: Seq<u8>, rep: Reps, block: Seq<u8>, how: BlockUse)
    requires
        streams(d),
        follows(d, out, rep),
        block.len() <= d.mode.slice_size,
        out.len() + block.len() <= POS_MAX,
        may_handle(committed(d, block), how),
    ensures
        ({
            let (e, x) = block_handled(d, block, how);
            let (o, r) = block_decoded(out, rep, x);
            &&& o == out + block
            &&& streams(e)
            &&& follows(e, o, r)
            &&& rep == d.carry.rep ==> r == e.carry.rep
            &&& paid(d.carry.pending as int, x.seqs, e.carry.pending as int)
            &&& long_enough(3, d.mode.params.bar(), x.seqs)
            &&& e.mode.slice_size == d.mode.slice_size
            &&& e.mode.params == d.mode.params
            &&& keeps_window(d) ==> keeps_window(e) && block_near(out, rep, x, d.mode.params.window as int)
        }),
{
    let e = committed(d, block);
    lemma_committed(d, block);
    lemma_spliced(d, out, block);
    lemma_handled(e, out.take(d.place.base + compacted(d)), rep, how);
}

/// What a frame's blocks are parsed into decodes back to the blocks, on every row (on the
/// deferred trees, which leave their parse to others, as far as blocks are not parsed),
/// and whichever blocks were passed over, left out or dropped: to the history that it starts with (none, or a
/// dictionary's end) the decoder adds exactly the blocks, and it never reads farther
/// back than the window that the frame declares. Offsets that were owed at the start are
/// paid by literal ones before any repeated one is named, and no match is shorter than
/// the row stores. A decoder that starts with exactly the matcher's offsets ends with
/// exactly those, while some are still owed too.
pub proof fn lemma_frame_decodes(d: Drv, out: Seq<u8>, rep: Reps, blocks: Seq<Seq<u8>>, hows: Seq<BlockUse>)
    requires
        streams(d),
        follows(d, out, rep),
        forall|k: int| 0 <= k < blocks.len() ==> (#[trigger] blocks[k]).len() <= d.mode.slice_size,
        out.len() + joined(blocks).len() <= POS_MAX,
        frame_allowed(d, blocks, hows),
    ensures
        ({
            let (e, xs) = frame_handled(d, blocks, hows);
            let (o, r) = frame_decoded(out, rep, xs);
            &&& o == out + joined(blocks)
            &&& streams(e)
            &&& follows(e, o, r)
            &&& rep == d.carry.rep ==> r == e.carry.rep
            &&& paid(d.carry.pending as int, all_seqs(xs), e.carry.pending as int)
            &&& long_enough(3, d.mode.params.bar(), all_seqs(xs))
            &&& e.mode.slice_size == d.mode.slice_size
            &&& e.mode.params == d.mode.params
            &&& keeps_window(d) ==> keeps_window(e) && frame_near(out, rep, xs, d.mode.params.window as int)
        }),
    decreases blocks.len(),
{
    if blocks.len() == 0 {
        assert(out + joined(blocks) =~= out);
        lemma_nothing_paid(d.carry.pending as int, 3, d.mode.params.bar());
    } else {
        let bs = blocks.drop_last();
        assert forall|k: int| 0 <= k < bs.len() implies (#[trigger] bs[k]).len() <= d.mode.slice_size by {
            assert(bs[k] == blocks[k]);
        }
        lemma_frame_decodes(d, out, rep, bs, hows);
        let (e, xs) = frame_handled(d, bs, hows);
        let (o, r) = frame_decoded(out, rep, xs);
        lemma_block_handled(e, o, r, blocks.last(), hows[blocks.len() - 1]);
        let (f, x) = block_handled(e, blocks.last(), hows[blocks.len() - 1]);
        assert(xs.push(x).drop_last() =~= xs);
        lemma_paid_joins(d.carry.pending as int, all_seqs(xs), e.carry.pending as int, x.seqs, f.carry.pending as int);
        lemma_long_enough_joins(3, d.mode.params.bar(), all_seqs(xs), x.seqs);
        assert(out + joined(blocks) =~= (out + joined(bs)) + blocks.last());
    }
}

/// A job that starts inside a frame decodes whatever offsets the decoder remembers
/// there.
pub proof fn lemma_job_start_decodes(d: Drv, rep: Reps)
    requires
        scan_ready(d),
        d.carry.pending == 3,
        head_clear(d),
    ensures
        crate::driver_scan::rebuilds(
            alphabet_gated(caught_up(settled(d))),
            rep,
            RampGate::off_gate(),
            u64::MAX as int,
            block_parsed(d),
        ),
{
    lemma_settled(d);
    lemma_prepared(settled(d));
    lemma_scanned(alphabet_gated(caught_up(settled(d))), rep, RampGate::off_gate(), u64::MAX as int);
}

/// A parsed block is covered: the sequences take no more literals than there are, and
/// the literals and the matches make up the block. A block without sequences stages
/// nothing.
pub proof fn lemma_block_covered(d: Drv)
    requires
        scan_ready(d),
    ensures
        ({
            let p = block_parsed(d);
            &&& p.seqs.len() == 0 ==> p.lits.len() == 0
            &&& p.seqs.len() > 0 ==> {
                &&& lit_total(p.seqs, p.seqs.len() as int) <= p.lits.len()
                &&& match_total(p.seqs) + p.lits.len() == d.block().len()
            }
        }),
{
    lemma_parsed(d, Seq::empty(), d.carry.rep);
}

/// A matcher with nothing to pay and no head to come handles blocks in any way, on a row
/// that parses them itself.
pub proof fn lemma_frame_allowed(d: Drv, out: Seq<u8>, rep: Reps, blocks: Seq<Seq<u8>>, hows: Seq<BlockUse>)
    requires
        streams(d),
        follows(d, out, rep),
        forall|k: int| 0 <= k < blocks.len() ==> (#[trigger] blocks[k]).len() <= d.mode.slice_size,
        out.len() + joined(blocks).len() <= POS_MAX,
        d.carry.pending == 0,
        d.mode.head == HeadPhase::Off || d.mode.head == HeadPhase::Done,
        !(d.mode.params.strategy is BtLazy),
    ensures
        frame_allowed(d, blocks, hows),
        frame_handled(d, blocks, hows).0.mode.head == d.mode.head,
    decreases blocks.len(),
{
    if blocks.len() > 0 {
        let bs = blocks.drop_last();
        assert forall|k: int| 0 <= k < bs.len() implies (#[trigger] bs[k]).len() <= d.mode.slice_size by {
            assert(bs[k] == blocks[k]);
        }
        lemma_frame_allowed(d, out, rep, bs, hows);
        lemma_frame_decodes(d, out, rep, bs, hows);
        let (e, xs) = frame_handled(d, bs, hows);
        lemma_paid_bounds(0, all_seqs(xs), e.carry.pending as int);
        lemma_committed(e, blocks.last());
        lemma_settled(committed(e, blocks.last()));
        lemma_handled_head(committed(e, blocks.last()), hows[blocks.len() - 1]);
    }
}

/// No head starts behind a frame's start.
#[verifier::rlimit(60)]
proof fn lemma_handled_head(e: Drv, how: BlockUse)
    requires
        e.mode.head == HeadPhase::Off || e.mode.head == HeadPhase::Done,
    ensures
        handled(e, how).0.mode.head == e.mode.head,
{
    reveal(handled);
    match how {
        BlockUse::Parsed => {
            lemma_parsed_head(e);
        },
        BlockUse::Offered { found } => {
            lemma_parsed_head(generated(alphabet_gated(e), found));
        },
        BlockUse::Skipped => {},
        BlockUse::LeftOut => {},
        BlockUse::Screened { costs, dense, found } => {
            lemma_screened_head(costed(e, costs), dense, found);
        },
        BlockUse::Dropped { costs, dense, found } => {
            lemma_screened_head(costed(e, costs), dense, found);
        },
    }
}

proof fn lemma_parsed_head(e: Drv)
    requires
        e.mode.head == HeadPhase::Off || e.mode.head == HeadPhase::Done,
    ensures
        block_parsed(e).d.mode.head == e.mode.head,
{
    lemma_settled(e);
    lemma_scanned_head(alphabet_gated(caught_up(e)));
}

proof fn lemma_screened_head(e: Drv, dense: bool, found: Seq<LdmSeq>)
    requires
        e.mode.head == HeadPhase::Off || e.mode.head == HeadPhase::Done,
    ensures
        screen_handled(e, dense, found).0.mode.head == e.mode.head,
{
    let g = sampled(e, dense);
    assert(g.mode.head == e.mode.head);
    lemma_parsed_head(generated(alphabet_gated(g), found));
}

/// A matcher at the start of a frame follows a decoder that has nothing yet. If
/// its row searches no farther than the window, it stays inside the window.
pub proof fn lemma_frame_starts(d: Drv, level: Level)
    requires
        d.wf(),
        crate::driver::reset_to(d, level).wf(),
    ensures
        follows(
            crate::driver::reset_to(d, level),
            Seq::empty(),
            start_reps(),
        ),
        ({
            let e = crate::driver::reset_to(d, level);
            e.mode.params.reach_of() <= e.mode.params.window ==> keeps_window(e)
        }),
{
    let e = crate::driver::reset_to(d, level);
    assert(Seq::<u8>::empty().subrange(0, 0) =~= e.win);
}

/// A matcher that is reset, whatever it did before, starts a frame that decodes from
/// nothing: no history, and the offsets that every decoder starts with. Behind it the
/// matcher's offsets are the decoder's.
pub proof fn lemma_reset_frame_decodes(d: Drv, level: Level, blocks: Seq<Seq<u8>>, hows: Seq<BlockUse>)
    requires
        d.wf(),
        crate::driver::reset_to(d, level).wf(),
        forall|k: int|
            0 <= k < blocks.len() ==> (#[trigger] blocks[k]).len() <= crate::driver::reset_to(d, level).mode.slice_size,
        joined(blocks).len() <= POS_MAX,
        frame_allowed(crate::driver::reset_to(d, level), blocks, hows),
    ensures
        ({
            let e = crate::driver::reset_to(d, level);
            let xs = frame_handled(e, blocks, hows).1;
            &&& frame_decoded(Seq::empty(), start_reps(), xs).0 == joined(blocks)
            &&& frame_decoded(Seq::empty(), start_reps(), xs).1 == frame_handled(e, blocks, hows).0.carry.rep
            &&& e.mode.params.reach_of() <= e.mode.params.window ==> frame_near(
                Seq::empty(),
                start_reps(),
                xs,
                e.mode.params.window as int,
            )
        }),
{
    let e = crate::driver::reset_to(d, level);
    lemma_frame_starts(d, level);
    lemma_frame_decodes(e, Seq::empty(), start_reps(), blocks, hows);
    let (f, xs) = frame_handled(e, blocks, hows);
    lemma_paid_bounds(0, all_seqs(xs), f.carry.pending as int);
    assert(Seq::<u8>::empty() + joined(blocks) =~= joined(blocks));
}

/// A matcher that has loaded a dictionary follows a decoder that holds what the window
/// keeps of it, with the dictionary's offsets.
pub proof fn lemma_dict_starts(d: Drv, content: Seq<u8>, rep: Reps, swap: Option<SmallDictRow>)
    requires
        !d.mode.direct,
        d.ldm.len() == 0,
        with_dict(d, content, rep, swap).wf(),
        swap_fits(d, swap),
    ensures
        streams(with_dict(d, content, rep, swap)),
        follows(with_dict(d, content, rep, swap), dict_tail(content, d.mode.params.window), rep),
        with_dict(d, content, rep, swap).carry.pending == 0,
        with_dict(d, content, rep, swap).mode.params.window == d.mode.params.window,
        with_dict(d, content, rep, swap).mode.slice_size == d.mode.slice_size,
        ({
            let e = with_dict(d, content, rep, swap);
            let window = e.mode.params.window as int;
            e.mode.params.reach_of() <= window && rep.within(window) && d.carry.seed <= window ==> keeps_window(e)
        }),
{
    let e = with_dict(d, content, rep, swap);
    let w = dict_tail(content, d.mode.params.window);
    assert(w.subrange(0, w.len() as int) =~= w);
    let last = w.len() - HASH_READ;
    lemma_seed_below(w, last, last, le8(w, last) as u64);
}

/// The blocks of a frame behind a dictionary decode over what the window keeps of it:
/// the decoder that holds the dictionary's end, and starts with its offsets, adds
/// exactly the blocks, and ends with the matcher's offsets.
pub proof fn lemma_dict_frame_decodes(
    d: Drv,
    content: Seq<u8>,
    rep: Reps,
    swap: Option<SmallDictRow>,
    blocks: Seq<Seq<u8>>,
    hows: Seq<BlockUse>,
)
    requires
        !d.mode.direct,
        d.ldm.len() == 0,
        with_dict(d, content, rep, swap).wf(),
        swap_fits(d, swap),
        forall|k: int| 0 <= k < blocks.len() ==> (#[trigger] blocks[k]).len() <= d.mode.slice_size,
        dict_tail(content, d.mode.params.window).len() + joined(blocks).len() <= POS_MAX,
        frame_allowed(with_dict(d, content, rep, swap), blocks, hows),
    ensures
        ({
            let e = with_dict(d, content, rep, swap);
            let dict = dict_tail(content, d.mode.params.window);
            let xs = frame_handled(e, blocks, hows).1;
            &&& frame_decoded(dict, rep, xs).0 == dict + joined(blocks)
            &&& frame_decoded(dict, rep, xs).1 == frame_handled(e, blocks, hows).0.carry.rep
            &&& keeps_window(e) ==> frame_near(dict, rep, xs, e.mode.params.window as int)
        }),
{
    lemma_dict_starts(d, content, rep, swap);
    lemma_frame_decodes(
        with_dict(d, content, rep, swap),
        dict_tail(content, d.mode.params.window),
        rep,
        blocks,
        hows,
    );
    let (f, xs) = frame_handled(with_dict(d, content, rep, swap), blocks, hows);
    lemma_paid_bounds(0, all_seqs(xs), f.carry.pending as int);
}

/// Step `k` of a parsed block as a decoder reads it.
pub open spec fn step_at(s: Sequence<'_>, lits: Seq<u8>, seqs: Seq<SeqWord>, k: int) -> bool {
    let w = seqs[k];
    match s {
        Sequence::Triple { literals, offset, match_len } => {
            &&& literals@ == lits.subrange(lit_total(seqs, k), lit_total(seqs, k + 1))
            &&& offset == word_of(w.codes, w.add) % 0x1_0000_0000
            &&& match_len == word_ml(w.codes, w.add)
        },
        Sequence::Literals { .. } => false,
    }
}

/// The steps of a parsed block in the decoder's order: each sequence with the
/// literals before it, then the literals that are left, which are the whole block
/// if there are no sequences.
pub fn sequences<'data>(literals: &'data [u8], seqs: &[SeqWord], block: &'data [u8]) -> (r: Vec<Sequence<'data>>)
    requires
        readable(literals@, seqs@),
    ensures
        r@.len() == seqs@.len() + 1,
        forall|k: int| 0 <= k < seqs@.len() ==> #[trigger] step_at(r@[k], literals@, seqs@, k),
        match r@[seqs@.len() as int] {
            Sequence::Literals { literals: rest } => rest@ == if seqs@.len() == 0 {
                block@
            } else {
                literals@.skip(lit_total(seqs@, seqs@.len() as int))
            },
            Sequence::Triple { .. } => false,
        },
{
    let mut r: Vec<Sequence<'data>> = Vec::new();
    let mut used: usize = 0;
    let mut k: usize = 0;
    assert(literals@.len() == literals.len());
    while k < seqs.len()
        invariant
            k <= seqs@.len(),
            readable(literals@, seqs@),
            literals@.len() == literals.len(),
            used == lit_total(seqs@, k as int),
            used <= literals@.len(),
            r@.len() == k,
            forall|j: int| 0 <= j < k ==> #[trigger] step_at(r@[j], literals@, seqs@, j),
        decreases seqs@.len() - k,
    {
        let w: SeqWord = seqs[k];
        let (ll, ml, of): (u32, u32, u32) = decode_packed(w.codes, w.add);
        assert(lit_total(seqs@, k + 1) == used + ll);
        let next: usize = used + ll as usize;
        let lits: &'data [u8] = vstd::slice::slice_subrange(literals, used, next);
        let s: Sequence<'data> = Sequence::Triple {
            literals: lits,
            offset: of as usize,
            match_len: ml as usize,
        };
        assert(step_at(s, literals@, seqs@, k as int));
        r.push(s);
        used = next;
        k = k + 1;
    }
    let rest: &'data [u8] = if seqs.len() == 0 {
        block
    } else {
        vstd::slice::slice_subrange(literals, used, literals.len())
    };
    assert(seqs@.len() > 0 ==> rest@ =~= literals@.skip(used as int));
    r.push(Sequence::Literals { literals: rest });
    r
}

/// Literals of a step.
pub open spec fn step_literals(s: Sequence<'_>) -> Seq<u8> {
    match s {
        Sequence::Triple { literals, .. } => literals@,
        Sequence::Literals { literals } => literals@,
    }
}

/// Literals of the first `n` steps.
pub open spec fn all_literals(steps: Seq<Sequence<'_>>, n: int) -> Seq<u8>
    decreases n,
{
    if n <= 0 {
        Seq::empty()
    } else {
        all_literals(steps, n - 1) + step_literals(steps[n - 1])
    }
}

/// Sequences among the first `n` steps.
pub open spec fn all_sequences(steps: Seq<Sequence<'_>>, n: int) -> Seq<EncodedSequence>
    decreases n,
{
    if n <= 0 {
        Seq::empty()
    } else {
        let before = all_sequences(steps, n - 1);
        match steps[n - 1] {
            Sequence::Triple { literals, offset, match_len } => before.push(
                EncodedSequence {
                    ll: literals@.len() as u32,
                    ml: match_len as u32,
                    of: offset as u32,
                },
            ),
            Sequence::Literals { .. } => before,
        }
    }
}

/// A step in numbers that fit.
pub open spec fn step_fits(s: Sequence<'_>) -> bool {
    match s {
        Sequence::Triple { literals, offset, match_len } => {
            &&& literals@.len() <= u32::MAX
            &&& offset <= u32::MAX
            &&& match_len <= u32::MAX
        },
        Sequence::Literals { .. } => true,
    }
}

/// Collects the steps of a block: all literals in one buffer, and the sequences,
/// each with the number of literals before it.
pub fn start_matching_into(
    steps: &[Sequence<'_>],
    literals: &mut Vec<u8>,
    sequences: &mut Vec<EncodedSequence>,
)
    requires
        forall|k: int| 0 <= k < steps@.len() ==> step_fits(#[trigger] steps@[k]),
    ensures
        final(literals)@ == old(literals)@ + all_literals(steps@, steps@.len() as int),
        final(sequences)@ == old(sequences)@ + all_sequences(steps@, steps@.len() as int),
{
    let mut k: usize = 0;
    assert(literals@ =~= old(literals)@ + all_literals(steps@, 0));
    assert(sequences@ =~= old(sequences)@ + all_sequences(steps@, 0));
    while k < steps.len()
        invariant
            k <= steps@.len(),
            forall|j: int| 0 <= j < steps@.len() ==> step_fits(#[trigger] steps@[j]),
            literals@ == old(literals)@ + all_literals(steps@, k as int),
            sequences@ == old(sequences)@ + all_sequences(steps@, k as int),
        decreases steps@.len() - k,
    {
        assert(step_fits(steps@[k as int]));
        let ghost l0 = literals@;
        let ghost q0 = sequences@;
        match &steps[k] {
            Sequence::Triple { literals: lits, offset, match_len } => {
                crate::tables::append(literals, lits, 0, lits.len());
                assert(lits@.subrange(0, lits@.len() as int) =~= lits@);
                assert(lits@.len() == lits.len());
                sequences.push(
                    EncodedSequence {
                        ll: lits.len() as u32,
                        ml: *match_len as u32,
                        of: *offset as u32,
                    },
                );
            },
            Sequence::Literals { literals: lits } => {
                crate::tables::append(literals, lits, 0, lits.len());
                assert(lits@.subrange(0, lits@.len() as int) =~= lits@);
            },
        }
        k = k + 1;
        assert(literals@ =~= old(literals)@ + all_literals(steps@, k as int));
        assert(sequences@ =~= old(sequences)@ + all_sequences(steps@, k as int));
    }
}

/// Packs sequences into words.
pub fn pack_sequences(sequences: &[EncodedSequence], seqs: &mut Vec<SeqWord>)
    requires
        forall|k: int|
            0 <= k < sequences@.len() ==> encodable(
                (#[trigger] sequences@[k]).ll as int,
                sequences@[k].ml as int,
                sequences@[k].of as int,
            ),
    ensures
        final(seqs)@ == old(seqs)@ + Seq::new(
            sequences@.len(),
            |k: int|
                seq_word(
                    sequences@[k].ll as int,
                    sequences@[k].ml as int,
                    sequences@[k].of as int,
                ),
        ),
{
    let ghost words = Seq::new(
        sequences@.len(),
        |k: int|
            seq_word(sequences@[k].ll as int, sequences@[k].ml as int, sequences@[k].of as int),
    );
    let mut k: usize = 0;
    assert(seqs@ =~= old(seqs)@ + words.take(0));
    while k < sequences.len()
        invariant
            k <= sequences@.len(),
            words.len() == sequences@.len(),
            forall|j: int|
                0 <= j < sequences@.len() ==> #[trigger] words[j] == seq_word(
                    sequences@[j].ll as int,
                    sequences@[j].ml as int,
                    sequences@[j].of as int,
                ),
            forall|j: int|
                0 <= j < sequences@.len() ==> encodable(
                    (#[trigger] sequences@[j]).ll as int,
                    sequences@[j].ml as int,
                    sequences@[j].of as int,
                ),
            seqs@ == old(seqs)@ + words.take(k as int),
        decreases sequences@.len() - k,
    {
        let s: EncodedSequence = sequences[k];
        assert(encodable(sequences@[k as int].ll as int, s.ml as int, s.of as int));
        let w: SeqWord = pack_seq(s.ll, s.ml, s.of);
        seqs.push(w);
        k = k + 1;
        assert(words.take(k as int) =~= words.take(k - 1).push(words[k - 1]));
        assert(seqs@ =~= old(seqs)@ + words.take(k as int));
    }
    assert(words.take(k as int) =~= words);
}

} // verus!
