//! Jobs as a decoder sees them: parts of an input that were parsed apart from each
//! other, on windows handed over whole, come back one after the other.

use vstd::prelude::*;
use crate::driver::{Drv, Place, POS_MAX};
use crate::driver_blocks::head_clear;
use crate::driver_fill::adopted;
use crate::driver_scan::block_waits;
use crate::frame::{
    all_seqs, block_decoded, block_near, frame_decoded, frame_near, handled, keeps_window, lemma_handled, may_handle, BlockUse, Emitted,
};
use crate::scan::MAX_BLOCK_SIZE;
use crate::seq_codes::word_of;
use crate::sequence::{far_count, is_far, lemma_long_enough_joins, lemma_nothing_paid, lemma_paid_joins, long_enough, paid, reps_agree, start_reps, Reps};
use crate::tables::WIN_MAX;

verus! {

/// One block of a job: it ends at `end`, and is parsed on the window from `from`
/// to `upto`.
pub struct Piece {
    pub from: int,
    pub upto: int,
    pub end: int,
    pub how: BlockUse,
}

/// Where the pieces of a job that starts at `start` end.
pub open spec fn job_end_of(start: int, pieces: Seq<Piece>) -> int {
    if pieces.len() == 0 {
        start
    } else {
        pieces.last().end
    }
}

/// A piece that starts at `start` lies in its window, and the window in the input.
pub open spec fn piece_fits(src: Seq<u8>, start: int, p: Piece) -> bool {
    &&& 0 <= p.from <= start <= p.end <= p.upto <= src.len()
    &&& p.end - start <= MAX_BLOCK_SIZE
    &&& p.upto - p.from <= WIN_MAX
}

/// The pieces of a job follow each other.
pub open spec fn pieces_fit(src: Seq<u8>, start: int, pieces: Seq<Piece>) -> bool
    decreases pieces.len(),
{
    pieces.len() > 0 ==> {
        &&& pieces_fit(src, start, pieces.drop_last())
        &&& piece_fits(src, job_end_of(start, pieces.drop_last()), pieces.last())
    }
}

/// A matcher on the piece that starts at `start`.
pub open spec fn on_piece(d: Drv, src: Seq<u8>, start: int, p: Piece) -> Drv {
    let e = adopted(d, src.subrange(p.from, p.upto), p.from as u64);
    Drv {
        place: Place {
            pos: start as u64,
            block_start: start as u64,
            block_end: p.end as u64,
            ..e.place
        },
        ..e
    }
}

/// A matcher after a job's pieces, and what the frame holds of them.
pub open spec fn job_handled(d: Drv, src: Seq<u8>, start: int, pieces: Seq<Piece>) -> (Drv, Seq<Emitted>)
    decreases pieces.len(),
{
    if pieces.len() == 0 {
        (d, Seq::empty())
    } else {
        let before = pieces.drop_last();
        let (e, xs) = job_handled(d, src, start, before);
        let (f, x) = handled(on_piece(e, src, job_end_of(start, before), pieces.last()), pieces.last().how);
        (f, xs.push(x))
    }
}

/// All pieces of a job may be handled as they are.
pub open spec fn pieces_allowed(d: Drv, src: Seq<u8>, start: int, pieces: Seq<Piece>) -> bool
    decreases pieces.len(),
{
    pieces.len() > 0 ==> {
        let before = pieces.drop_last();
        &&& pieces_allowed(d, src, start, before)
        &&& may_handle(
            on_piece(job_handled(d, src, start, before).0, src, job_end_of(start, before), pieces.last()),
            pieces.last().how,
        )
    }
}

/// A matcher that parses blocks of windows handed over whole, on a row that parses them
/// itself.
pub open spec fn works(d: Drv) -> bool {
    &&& d.wf()
    &&& d.ldm.len() == 0
    &&& !(d.mode.params.strategy is BtLazy)
}

/// A matcher on a piece that fits is ready for it.
pub proof fn lemma_on_piece(d: Drv, src: Seq<u8>, start: int, p: Piece)
    requires
        d.wf(),
        d.ldm.len() == 0,
        src.len() <= POS_MAX,
        piece_fits(src, start, p),
    ensures
        block_waits(on_piece(d, src, start, p)),
        on_piece(d, src, start, p).cut() == src.subrange(p.from, p.end),
        on_piece(d, src, start, p).at() == start - p.from,
{
    let e = on_piece(d, src, start, p);
    assert(e.win == src.subrange(p.from, p.upto));
    assert(e.wf());
    assert(e.cut() =~= src.subrange(p.from, p.end));
}

/// A job leaves its matcher fit for the next one.
pub proof fn lemma_job_works(d: Drv, src: Seq<u8>, start: int, pieces: Seq<Piece>)
    requires
        works(d),
        0 <= start <= src.len() <= POS_MAX,
        pieces_fit(src, start, pieces),
    ensures
        works(job_handled(d, src, start, pieces).0),
        job_handled(d, src, start, pieces).0.mode.params == d.mode.params,
        start <= job_end_of(start, pieces) <= src.len(),
    decreases pieces.len(),
{
    if pieces.len() > 0 {
        let before = pieces.drop_last();
        lemma_job_works(d, src, start, before);
        let e = job_handled(d, src, start, before).0;
        let at = job_end_of(start, before);
        lemma_on_piece(e, src, at, pieces.last());
        lemma_handled(on_piece(e, src, at, pieces.last()), Seq::empty(), e.carry.rep, pieces.last().how);
    }
}

/// One more piece: the decoder gains exactly its bytes.
proof fn lemma_piece(d: Drv, src: Seq<u8>, start: int, p: Piece, rep: Reps)
    requires
        works(d),
        src.len() <= POS_MAX,
        piece_fits(src, start, p),
        reps_agree(rep, d.carry.rep, 3 - d.carry.pending),
        head_clear(d),
        may_handle(on_piece(d, src, start, p), p.how),
    ensures
        ({
            let (f, x) = handled(on_piece(d, src, start, p), p.how);
            let (o, r) = block_decoded(src.take(start), rep, x);
            &&& o == src.take(p.end)
            &&& works(f)
            &&& reps_agree(r, f.carry.rep, 3 - f.carry.pending)
            &&& rep == d.carry.rep ==> r == f.carry.rep
            &&& head_clear(f)
            &&& paid(d.carry.pending as int, x.seqs, f.carry.pending as int)
            &&& long_enough(3, d.mode.params.bar(), x.seqs)
            &&& f.mode.params == d.mode.params
            &&& keeps_window(d) ==> keeps_window(f) && block_near(
                src.take(start),
                rep,
                x,
                d.mode.params.window as int,
            )
        }),
{
    let e = on_piece(d, src, start, p);
    let pre = src.take(p.from);
    lemma_on_piece(d, src, start, p);
    lemma_handled(e, pre, rep, p.how);
    assert(pre + e.cut().take(e.at()) =~= src.take(start));
    assert(pre + e.cut() =~= src.take(p.end));
}

/// What a job's pieces are parsed into, decoded after the input before the job,
/// is the job's part of the input: on every row that parses its blocks itself, whatever
/// the windows, and the blocks that were passed over, left out or dropped. The decoder
/// reads no farther back than the window. Offsets that are owed at the job's start are
/// paid by literal ones before any repeated one is named, and no match is shorter than
/// the row stores. A decoder that starts with exactly the matcher's offsets ends with
/// exactly those.
pub proof fn lemma_job_decodes(d: Drv, src: Seq<u8>, start: int, pieces: Seq<Piece>, rep: Reps)
    requires
        works(d),
        0 <= start <= src.len() <= POS_MAX,
        pieces_fit(src, start, pieces),
        pieces_allowed(d, src, start, pieces),
        reps_agree(rep, d.carry.rep, 3 - d.carry.pending),
        head_clear(d),
    ensures
        ({
            let (e, xs) = job_handled(d, src, start, pieces);
            let (o, r) = frame_decoded(src.take(start), rep, xs);
            &&& o == src.take(job_end_of(start, pieces))
            &&& works(e)
            &&& reps_agree(r, e.carry.rep, 3 - e.carry.pending)
            &&& rep == d.carry.rep ==> r == e.carry.rep
            &&& head_clear(e)
            &&& paid(d.carry.pending as int, all_seqs(xs), e.carry.pending as int)
            &&& long_enough(3, d.mode.params.bar(), all_seqs(xs))
            &&& e.mode.params == d.mode.params
            &&& keeps_window(d) ==> keeps_window(e) && frame_near(
                src.take(start),
                rep,
                xs,
                d.mode.params.window as int,
            )
        }),
        start <= job_end_of(start, pieces) <= src.len(),
    decreases pieces.len(),
{
    if pieces.len() > 0 {
        let before = pieces.drop_last();
        lemma_job_decodes(d, src, start, before, rep);
        let (e, xs) = job_handled(d, src, start, before);
        let (o, r) = frame_decoded(src.take(start), rep, xs);
        let at = job_end_of(start, before);
        lemma_piece(e, src, at, pieces.last(), r);
        let (f, x) = handled(on_piece(e, src, at, pieces.last()), pieces.last().how);
        assert(xs.push(x).drop_last() =~= xs);
        lemma_paid_joins(d.carry.pending as int, all_seqs(xs), e.carry.pending as int, x.seqs, f.carry.pending as int);
        lemma_long_enough_joins(3, d.mode.params.bar(), all_seqs(xs), x.seqs);
    } else {
        lemma_nothing_paid(d.carry.pending as int, 3, d.mode.params.bar());
    }
}

/// A job whose matcher takes no repeated offset for granted names none before three
/// literal ones, whatever its blocks are: the decoder's own history does not matter.
pub proof fn lemma_gated_job(d: Drv, src: Seq<u8>, start: int, pieces: Seq<Piece>, k: int)
    requires
        works(d),
        0 <= start <= src.len() <= POS_MAX,
        pieces_fit(src, start, pieces),
        pieces_allowed(d, src, start, pieces),
        d.carry.pending == 3,
        head_clear(d),
        0 <= k < all_seqs(job_handled(d, src, start, pieces).1).len(),
    ensures
        ({
            let seqs = all_seqs(job_handled(d, src, start, pieces).1);
            word_of(seqs[k].codes, seqs[k].add) <= 3 ==> far_count(seqs.take(k)) >= 3
        }),
{
    lemma_job_decodes(d, src, start, pieces, d.carry.rep);
    reveal(paid);
    let seqs = all_seqs(job_handled(d, src, start, pieces).1);
    assert(is_far(seqs[k]) || far_count(seqs.take(k)) >= 3);
}

/// A job: its matcher, prepared and with its history, and its pieces.
pub struct Job {
    pub d: Drv,
    pub pieces: Seq<Piece>,
}

/// Where the last of the jobs ends.
pub open spec fn jobs_end(jobs: Seq<Job>) -> int
    decreases jobs.len(),
{
    if jobs.len() == 0 {
        0
    } else {
        job_end_of(jobs_end(jobs.drop_last()), jobs.last().pieces)
    }
}

/// The jobs follow each other. Only at the start of the frame does a matcher know
/// the decoder's offsets; everywhere else it takes none for granted.
pub open spec fn jobs_fit(src: Seq<u8>, jobs: Seq<Job>) -> bool
    decreases jobs.len(),
{
    jobs.len() > 0 ==> {
        let start = jobs_end(jobs.drop_last());
        let d = jobs.last().d;
        &&& jobs_fit(src, jobs.drop_last())
        &&& works(d)
        &&& pieces_fit(src, start, jobs.last().pieces)
        &&& pieces_allowed(d, src, start, jobs.last().pieces)
        &&& head_clear(d)
        &&& d.carry.pending == 3 || jobs.len() == 1 && d.carry.rep == start_reps()
    }
}

/// What the frame holds of all jobs.
pub open spec fn jobs_emitted(src: Seq<u8>, jobs: Seq<Job>) -> Seq<Emitted>
    decreases jobs.len(),
{
    if jobs.len() == 0 {
        Seq::empty()
    } else {
        let before = jobs.drop_last();
        jobs_emitted(src, before) + job_handled(jobs.last().d, src, jobs_end(before), jobs.last().pieces).1
    }
}

/// A decoder takes the parts of a frame one after the other.
pub proof fn lemma_frame_decoded_joins(out: Seq<u8>, rep: Reps, a: Seq<Emitted>, b: Seq<Emitted>)
    ensures
        ({
            let (o, r) = frame_decoded(out, rep, a);
            frame_decoded(out, rep, a + b) == frame_decoded(o, r, b)
        }),
    decreases b.len(),
{
    if b.len() == 0 {
        assert(a + b =~= a);
    } else {
        lemma_frame_decoded_joins(out, rep, a, b.drop_last());
        assert((a + b).drop_last() =~= a + b.drop_last());
    }
}

/// So do the reads of its parts.
proof fn lemma_frame_near_joins(out: Seq<u8>, rep: Reps, a: Seq<Emitted>, b: Seq<Emitted>, far: int)
    requires
        frame_near(out, rep, a, far),
        ({
            let (o, r) = frame_decoded(out, rep, a);
            frame_near(o, r, b, far)
        }),
    ensures
        frame_near(out, rep, a + b, far),
    decreases b.len(),
{
    if b.len() == 0 {
        assert(a + b =~= a);
    } else {
        lemma_frame_near_joins(out, rep, a, b.drop_last(), far);
        lemma_frame_decoded_joins(out, rep, a, b.drop_last());
        assert((a + b).drop_last() =~= a + b.drop_last());
        assert((a + b).last() == b.last());
    }
}

/// Every job stays inside a window of `far` bytes.
pub open spec fn jobs_near(jobs: Seq<Job>, far: int) -> bool {
    forall|k: int| 0 <= k < jobs.len() ==> {
        &&& keeps_window((#[trigger] jobs[k]).d)
        &&& jobs[k].d.mode.params.window == far
    }
}

/// A frame that several matchers have parsed job by job, each knowing nothing of
/// what the others did, decodes to the input, and a decoder that keeps the frame's
/// window can read it.
pub proof fn lemma_jobs_decode(src: Seq<u8>, jobs: Seq<Job>)
    requires
        src.len() <= POS_MAX,
        jobs_fit(src, jobs),
    ensures
        frame_decoded(Seq::empty(), start_reps(), jobs_emitted(src, jobs)).0 == src.take(jobs_end(jobs)),
        0 <= jobs_end(jobs) <= src.len(),
        forall|far: int| #[trigger] jobs_near(jobs, far) ==> frame_near(
            Seq::empty(),
            start_reps(),
            jobs_emitted(src, jobs),
            far,
        ),
    decreases jobs.len(),
{
    if jobs.len() == 0 {
        assert(src.take(0) =~= Seq::<u8>::empty());
    } else {
        let before = jobs.drop_last();
        lemma_jobs_decode(src, before);
        let start = jobs_end(before);
        let j = jobs.last();
        let xs = jobs_emitted(src, before);
        let ys = job_handled(j.d, src, start, j.pieces).1;
        let (o, r) = frame_decoded(Seq::empty(), start_reps(), xs);
        lemma_job_decodes(j.d, src, start, j.pieces, r);
        lemma_frame_decoded_joins(Seq::empty(), start_reps(), xs, ys);
        assert forall|far: int| #[trigger] jobs_near(jobs, far) implies frame_near(
            Seq::empty(),
            start_reps(),
            xs + ys,
            far,
        ) by {
            assert(jobs[jobs.len() - 1] == j);
            assert forall|k: int| 0 <= k < before.len() implies {
                &&& keeps_window((#[trigger] before[k]).d)
                &&& before[k].d.mode.params.window == far
            } by {
                assert(before[k] == jobs[k]);
            }
            assert(jobs_near(before, far));
            lemma_frame_near_joins(Seq::empty(), start_reps(), xs, ys, far);
        }
    }
}

} // verus!
