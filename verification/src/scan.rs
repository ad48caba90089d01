//! What the table-driven scans share: the state of a scan, the test of one
//! candidate, and the emission of one sequence.

use vstd::prelude::*;
use crate::gates::{lemma_back_floor_legal, RampGate, SEED_MATCHES};
use crate::hash::{back_len, bytes_agree, common_len, extend_back, extend_match, lemma_back_len, lemma_common_len};
use crate::seq_codes::{encodable, seq_word, SeqWord};
use crate::sequence::{decodes_to, good_seq, lemma_block_tail, lemma_near_push, lemma_paid_push, long_enough, near_enough, paid, lemma_replay_more_literals, lemma_push_seq, pending_after, replay, reps_after, reps_agree, synced, wire_ok, Reps};
use crate::tables::{push_seq_packed, WIN_MAX};

verus! {

/// Largest block.
pub const MAX_BLOCK_SIZE: usize = 131072;

/// A long-distance candidate: `len` bytes from the absolute position `split` on
/// repeat those `offset` bytes before.
#[derive(Clone, Copy, PartialEq, Eq, Structural, Debug)]
pub struct LdmSeq {
    pub split: u64,
    pub offset: u32,
    pub len: u32,
}

/// Cursors of a scan, as window indices, with the state that it carries from
/// block to block.
#[derive(Clone, Copy, PartialEq, Eq, Structural, Debug)]
pub struct Scan {
    /// Next position to probe.
    pub pos: usize,
    /// Start of the literals that no sequence covers yet.
    pub anchor: usize,
    /// Length of the current run of misses.
    pub miss: u64,
    /// Repeated-offset history.
    pub rep: Reps,
    /// Literal offsets still owed before repeated offsets may be named.
    pub pending: u8,
    /// Offset probed directly at a job start; zero while there is none.
    pub seed: u32,
    /// Matches that the seed has given.
    pub hits: u8,
    /// Probes left to an unused seed.
    pub budget: u32,
}

/// A scan together with what it has emitted.
#[verifier::ext_equal]
pub struct St {
    pub lits: Seq<u8>,
    pub seqs: Seq<SeqWord>,
    pub rep: Reps,
    pub pos: int,
    pub anchor: int,
    pub miss: int,
    pub pending: int,
    pub seed: int,
    pub hits: int,
    pub budget: int,
}

/// The scan `sc` with the literals and sequences emitted so far.
pub open spec fn scan_state(lits: Seq<u8>, seqs: Seq<SeqWord>, sc: Scan) -> St {
    St {
        lits,
        seqs,
        rep: sc.rep,
        pos: sc.pos as int,
        anchor: sc.anchor as int,
        miss: sc.miss as int,
        pending: sc.pending as int,
        seed: sc.seed as int,
        hits: sc.hits as int,
        budget: sc.budget as int,
    }
}

/// Bounds that every scan keeps: the anchor inside the last `MAX_BLOCK_SIZE`
/// bytes of the window, real repeated offsets, and a seed that still has probes
/// and matches left.
pub open spec fn in_bounds(w: Seq<u8>, s: St) -> bool {
    &&& w.len() <= WIN_MAX
    &&& 0 <= s.anchor <= w.len()
    &&& w.len() - s.anchor <= MAX_BLOCK_SIZE
    &&& s.anchor <= s.pos
    &&& carry_ok(s)
}

/// What a scan hands on: real repeated offsets, and a seed that still has probes
/// and matches left.
pub open spec fn carry_ok(s: St) -> bool {
    &&& 0 <= s.miss <= u64::MAX
    &&& s.rep.positive()
    &&& 0 <= s.pending <= 3
    &&& 0 <= s.seed <= u32::MAX
    &&& 0 <= s.hits <= u8::MAX
    &&& 0 <= s.budget <= u32::MAX
    &&& s.seed != 0 ==> s.hits < SEED_MATCHES && s.budget >= 1
}

/// Where the decoder of a block stands: the window bytes before the block, the
/// history it starts with, the ramp that its crossing reads must respect, how far
/// back it can read, how many of its offsets are unknown, how short its matches
/// can be, at all and by a literal offset, how long a literal offset can be, and
/// whether its history is exactly the scan's.
#[derive(Clone, Copy)]
pub struct Peer {
    pub start: int,
    pub rep0: Reps,
    pub base: int,
    pub ramp: RampGate,
    pub far: int,
    pub owed: int,
    pub least: int,
    pub bar: int,
    pub hop: int,
    pub same: bool,
}

/// Every match that a decoder copies from respects the ramp, and lies within the
/// decoder's reach.
pub open spec fn legal_reads(w: Seq<u8>, d: Peer, lits: Seq<u8>, seqs: Seq<SeqWord>) -> bool {
    let r = replay(w.take(d.start), d.rep0, lits, seqs);
    &&& forall|k: int| 0 <= k < r.srcs.len() ==> !d.ramp.shallow(d.base + #[trigger] r.srcs[k])
    &&& forall|k: int| 0 <= k < r.offs.len() ==> #[trigger] r.offs[k] <= d.far
}

/// The scan agrees with the decoder of its block.
pub open spec fn in_step(w: Seq<u8>, d: Peer, s: St) -> bool {
    &&& in_bounds(w, s)
    &&& 0 <= d.start <= s.anchor
    &&& synced(w, d.start, d.rep0, s.lits, s.seqs, s.anchor, s.rep, s.pending)
    &&& legal_reads(w, d, s.lits, s.seqs)
    &&& s.rep.within(d.far)
    &&& s.seed <= d.far
    &&& paid(d.owed, s.seqs, s.pending)
    &&& long_enough(d.least, d.bar, s.seqs)
    &&& near_enough(d.hop, s.seqs)
    &&& s.seed <= d.hop
    &&& d.same ==> replay(w.take(d.start), d.rep0, s.lits, s.seqs).rep == s.rep
}

/// A candidate source for a position, tested: the match as long as the bytes
/// agree but no longer than `bound`, dropped if it is shorter than `min_len` or
/// a shallow crossing read, and extended backwards down to `floor`. The parts
/// are the start of the match, its source and its length.
pub open spec fn try_match(
    w: Seq<u8>,
    ramp: RampGate,
    base: int,
    at: int,
    cand: int,
    bound: int,
    min_len: int,
    floor: int,
) -> Option<(int, int, int)> {
    let n = bounded_len(w, at, cand, bound);
    if n >= min_len && !ramp.shallow(base + cand) {
        let k = back_len(w, at, cand, floor, ramp.back_floor(cand, base));
        Some((at - k, cand - k, n + k))
    } else {
        None
    }
}

/// Length of a match, no longer than `bound`.
pub open spec fn bounded_len(w: Seq<u8>, at: int, cand: int, bound: int) -> int {
    let n = common_len(w, at, cand);
    if n < bound {
        n
    } else {
        bound
    }
}

/// An accepted candidate is a real match that ends where the test started plus
/// its length, and whose source is not a shallow crossing read.
pub proof fn lemma_try_match(
    w: Seq<u8>,
    ramp: RampGate,
    base: int,
    at: int,
    cand: int,
    bound: int,
    min_len: int,
    floor: int,
)
    requires
        0 <= cand < at <= w.len(),
        0 <= floor <= at,
        base >= 0,
        0 <= bound,
    ensures
        match try_match(w, ramp, base, at, cand, bound, min_len, floor) {
            Some(m) => {
                &&& floor <= m.0 <= at
                &&& 0 <= m.1 < m.0
                &&& m.0 - m.1 == at - cand
                &&& m.2 >= min_len
                &&& m.0 + m.2 <= w.len()
                &&& m.0 + m.2 == at + bounded_len(w, at, cand, bound)
                &&& m.0 + m.2 <= at + bound
                &&& bytes_agree(w, m.0, m.1, m.2)
                &&& !ramp.shallow(base + m.1)
            },
            None => true,
        },
{
    let n = bounded_len(w, at, cand, bound);
    lemma_common_len(w, at, cand);
    if n >= min_len && !ramp.shallow(base + cand) {
        let cf = ramp.back_floor(cand, base);
        let k = back_len(w, at, cand, floor, cf);
        lemma_back_len(w, at, cand, floor, cf);
        if k > 0 {
            lemma_back_floor_legal(ramp, base, cand, cand - k);
        }
        assert forall|t: int| 0 <= t < n + k implies #[trigger] w[at - k + t] == w[cand - k + t] by {
            if t >= k {
                assert(w[at + (t - k)] == w[cand + (t - k)]);
            }
        }
    }
}

/// Tests a candidate source for a position.
pub fn test_match(
    win: &[u8],
    ramp: RampGate,
    base: u64,
    at: usize,
    cand: usize,
    bound: usize,
    min_len: usize,
    floor: usize,
) -> (r: Option<(usize, usize, usize)>)
    requires
        cand < at <= win@.len(),
        floor <= at,
        base + win@.len() <= u64::MAX,
        win@.len() <= WIN_MAX,
    ensures
        match try_match(
            win@,
            ramp,
            base as int,
            at as int,
            cand as int,
            bound as int,
            min_len as int,
            floor as int,
        ) {
            Some(m) => r matches Some(x) && x.0 == m.0 && x.1 == m.1 && x.2 == m.2,
            None => r is None,
        },
{
    let mut n: usize = extend_match(win, at, cand);
    if n >= bound {
        n = bound;
    }
    if n >= min_len && !ramp.blocks(base + cand as u64) {
        let cf: usize = ramp.ext_floor(cand, base);
        let k: usize = extend_back(win, at, cand, floor, cf);
        proof {
            lemma_common_len(win@, at as int, cand as int);
        }
        Some((at - k, cand - k, n + k))
    } else {
        None
    }
}

/// The scan after emitting a match of `ml` bytes at `start` under the wire
/// offset value `of`.
pub open spec fn emit_seq(s: St, w: Seq<u8>, start: int, ml: int, of: int) -> St {
    St {
        lits: s.lits + w.subrange(s.anchor, start),
        seqs: s.seqs.push(seq_word(start - s.anchor, ml, of)),
        rep: reps_after(s.rep, of, start - s.anchor),
        anchor: start + ml,
        ..s
    }
}

/// The scan after emitting a match by its literal offset.
pub open spec fn emit_far(s: St, w: Seq<u8>, start: int, cand: int, ml: int) -> St {
    St { pending: pending_after(s.pending, 4), ..emit_seq(s, w, start, ml, start - cand + 3) }
}

/// The scan after a seed probe that found nothing to emit.
pub open spec fn spend_seed(s: St) -> St {
    if s.seed == 0 {
        s
    } else {
        St {
            budget: s.budget - 1,
            seed: if s.budget - 1 == 0 {
                0
            } else {
                s.seed
            },
            ..s
        }
    }
}

/// The scan after a seed match.
pub open spec fn count_seed(s: St) -> St {
    St {
        hits: s.hits + 1,
        seed: if s.hits + 1 >= SEED_MATCHES {
            0
        } else {
            s.seed
        },
        ..s
    }
}

/// The scan with its next probe at the anchor and a fresh run of misses.
pub open spec fn resumed(s: St) -> St {
    St { pos: s.anchor, miss: 0, ..s }
}

/// The scan after staging the literals behind the last match. A block without
/// sequences stages nothing.
pub open spec fn with_tail(s: St, w: Seq<u8>) -> St {
    if s.seqs.len() > 0 && s.anchor < w.len() {
        St { lits: s.lits + w.subrange(s.anchor, w.len() as int), ..s }
    } else {
        s
    }
}

/// Emits a match of `ml` bytes at `start` under the wire offset value `of`.
pub fn emit(
    win: &[u8],
    sc: &mut Scan,
    literals: &mut Vec<u8>,
    seqs: &mut Vec<SeqWord>,
    start: usize,
    ml: usize,
    of: u32,
)
    requires
        old(sc).anchor <= start,
        start + ml <= win@.len(),
        encodable(start - old(sc).anchor, ml as int, of as int),
        wire_ok(old(sc).rep, of as int, start - old(sc).anchor),
    ensures
        scan_state(final(literals)@, final(seqs)@, *final(sc)) == emit_seq(
            scan_state(old(literals)@, old(seqs)@, *old(sc)),
            win@,
            start as int,
            ml as int,
            of as int,
        ),
{
    let anchor: usize = sc.anchor;
    let mut rep: Reps = sc.rep;
    let end: usize = push_seq_packed(win, anchor, start, ml, of, &mut rep, literals, seqs);
    sc.rep = rep;
    sc.anchor = end;
}

/// Counts a literal offset towards the ones still owed.
pub fn pay_pending(sc: &mut Scan)
    ensures
        *final(sc) == (Scan {
            pending: pending_after(old(sc).pending as int, 4) as u8,
            ..*old(sc)
        }),
{
    if sc.pending > 0 {
        sc.pending = sc.pending - 1;
    }
}

/// Counts a seed probe that found nothing to emit.
pub fn spend(sc: &mut Scan)
    requires
        old(sc).seed != 0 ==> old(sc).budget >= 1,
    ensures
        forall|l: Seq<u8>, q: Seq<SeqWord>|
            #[trigger] scan_state(l, q, *final(sc)) == spend_seed(scan_state(l, q, *old(sc))),
        final(sc).anchor == old(sc).anchor,
        final(sc).pos == old(sc).pos,
{
    if sc.seed != 0 {
        sc.budget = sc.budget - 1;
        if sc.budget == 0 {
            sc.seed = 0;
        }
    }
}

/// Counts a seed match.
pub fn count_hit(sc: &mut Scan)
    requires
        old(sc).hits < SEED_MATCHES,
    ensures
        forall|l: Seq<u8>, q: Seq<SeqWord>|
            #[trigger] scan_state(l, q, *final(sc)) == count_seed(scan_state(l, q, *old(sc))),
        final(sc).anchor == old(sc).anchor,
        final(sc).pos == old(sc).pos,
{
    sc.hits = sc.hits + 1;
    if sc.hits >= SEED_MATCHES {
        sc.seed = 0;
    }
}

/// Emitting a real match keeps the scan in agreement with the decoder.
pub proof fn lemma_emit_in_step(
    w: Seq<u8>,
    d: Peer,
    s: St,
    start: int,
    cand: int,
    ml: int,
    of: int,
)
    requires
        in_step(w, d, s),
        good_seq(w, s.anchor, start, cand, ml, of, s.rep, s.pending),
        !d.ramp.shallow(d.base + cand),
        start - cand <= d.far,
        ml >= d.least,
        of > 3 ==> ml >= d.bar && of - 3 <= d.hop,
    ensures
        in_step(
            w,
            d,
            resumed(St { pending: pending_after(s.pending, of), ..emit_seq(s, w, start, ml, of) }),
        ),
        emit_seq(s, w, start, ml, of).rep.positive(),
{
    lemma_push_seq(
        w,
        d.start,
        d.rep0,
        s.lits,
        s.seqs,
        s.anchor,
        s.rep,
        s.pending,
        start,
        cand,
        ml,
        of,
    );
    lemma_paid_push(d.owed, s.seqs, s.pending, start - s.anchor, ml, of, d.least, d.bar);
    lemma_near_push(d.hop, s.seqs, start - s.anchor, ml, of);
}

/// A match above the anchor by its literal offset is a good sequence.
pub proof fn lemma_far_is_good(w: Seq<u8>, s: St, start: int, cand: int, ml: int)
    requires
        in_bounds(w, s),
        s.anchor <= start,
        0 <= cand < start,
        ml >= 3,
        start + ml <= w.len(),
        bytes_agree(w, start, cand, ml),
    ensures
        good_seq(w, s.anchor, start, cand, ml, start - cand + 3, s.rep, s.pending),
        wire_ok(s.rep, start - cand + 3, start - s.anchor),
{
}

/// A match by the newest repeated offset with literals before it is a good
/// sequence.
pub proof fn lemma_rep_is_good(w: Seq<u8>, s: St, start: int, cand: int, ml: int)
    requires
        in_bounds(w, s),
        s.anchor < start,
        0 <= cand < start,
        start - cand == s.rep.r0,
        s.pending == 0,
        ml >= 3,
        start + ml <= w.len(),
        bytes_agree(w, start, cand, ml),
    ensures
        good_seq(w, s.anchor, start, cand, ml, 1, s.rep, s.pending),
        wire_ok(s.rep, 1, start - s.anchor),
{
}

/// A match by the second repeated offset right at the anchor is a good sequence
/// under the wire value of the newest.
pub proof fn lemma_swap_is_good(w: Seq<u8>, s: St, cand: int, ml: int)
    requires
        in_bounds(w, s),
        0 <= cand < s.anchor,
        s.anchor - cand == s.rep.r1,
        s.pending == 0,
        ml >= 3,
        s.anchor + ml <= w.len(),
        bytes_agree(w, s.anchor, cand, ml),
    ensures
        good_seq(w, s.anchor, s.anchor, cand, ml, 1, s.rep, s.pending),
        wire_ok(s.rep, 1, 0),
{
}

/// A scan in agreement with the decoder finishes its block by staging the
/// literals behind the last match.
pub proof fn lemma_block_done(w: Seq<u8>, d: Peer, s: St)
    requires
        in_step(w, d, s),
    ensures
        ({
            let z = with_tail(s, w);
            let r = replay(w.take(d.start), d.rep0, z.lits, z.seqs);
            &&& decodes_to(w.take(d.start), d.rep0, z.lits, z.seqs, w)
            &&& reps_agree(r.rep, z.rep, 3 - z.pending)
            &&& legal_reads(w, d, z.lits, z.seqs)
            &&& paid(d.owed, z.seqs, z.pending)
            &&& long_enough(d.least, d.bar, z.seqs)
            &&& near_enough(d.hop, z.seqs)
            &&& d.same ==> r.rep == z.rep
        }),
{
    if s.seqs.len() > 0 {
        let tail = w.subrange(s.anchor, w.len() as int);
        lemma_block_tail(
            w,
            d.start,
            d.rep0,
            s.lits,
            s.seqs,
            s.anchor,
            s.rep,
            s.pending,
            w.len() as int,
        );
        lemma_replay_more_literals(w.take(d.start), d.rep0, s.lits, s.seqs, tail);
        assert(w.take(w.len() as int) =~= w);
        if s.anchor == w.len() {
            assert(s.lits + tail =~= s.lits);
        }
    }
}

} // verus!
