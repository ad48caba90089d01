//! Sequences, the repeated-offset history they share with the decoder, and what
//! a decoder makes of a block: the replay that every parse is measured against.

use vstd::prelude::*;
use crate::hash::bytes_agree;
use crate::seq_codes::{encodable, lemma_packed_roundtrip, lemma_word_ml, lemma_word_unpackable, seq_word, unpackable, word_ll, word_ml, word_of, SeqWord};

verus! {

/// The three most recent offsets, newest first.
#[derive(Clone, Copy, PartialEq, Eq, Structural, Debug)]
pub struct Reps {
    pub r0: u32,
    pub r1: u32,
    pub r2: u32,
}

/// One sequence in plain numbers: literal length, match length, and the wire
/// offset value (1 to 3 name a repeated offset, larger values an offset plus 3).
#[derive(Clone, Copy, PartialEq, Eq, Structural, Debug)]
pub struct EncodedSequence {
    pub ll: u32,
    pub ml: u32,
    pub of: u32,
}

/// One step of a parsed block as a decoder reads it.
#[derive(Clone, Copy, PartialEq, Eq, Debug)]
pub enum Sequence<'data> {
    /// Literals, then a match with its wire offset value.
    Triple { literals: &'data [u8], offset: usize, match_len: usize },
    /// The literals after the last match.
    Literals { literals: &'data [u8] },
}

/// The history a frame starts with.
pub open spec fn start_reps() -> Reps {
    Reps { r0: 1, r1: 4, r2: 8 }
}

/// The distance that a wire offset value stands for after `ll` literals.
pub open spec fn wire_offset(rep: Reps, of: int, ll: int) -> int {
    if of > 3 {
        of - 3
    } else if ll > 0 {
        if of == 1 {
            rep.r0 as int
        } else if of == 2 {
            rep.r1 as int
        } else {
            rep.r2 as int
        }
    } else {
        if of == 1 {
            rep.r1 as int
        } else if of == 2 {
            rep.r2 as int
        } else {
            rep.r0 - 1
        }
    }
}

/// The history after a sequence.
pub open spec fn reps_after(rep: Reps, of: int, ll: int) -> Reps {
    let off = wire_offset(rep, of, ll) as u32;
    if of > 3 {
        Reps { r0: off, r1: rep.r0, r2: rep.r1 }
    } else {
        // Index of the repeated offset that is named, counting from the newest.
        let k = if ll > 0 {
            of
        } else {
            of + 1
        };
        if k == 1 {
            rep
        } else if k == 2 {
            Reps { r0: off, r1: rep.r0, r2: rep.r2 }
        } else {
            Reps { r0: off, r1: rep.r0, r2: rep.r1 }
        }
    }
}

/// Whether a wire offset value stands for a real distance under a history.
pub open spec fn wire_ok(rep: Reps, of: int, ll: int) -> bool {
    of >= 1 && 0 <= wire_offset(rep, of, ll) <= u32::MAX
}

impl Reps {
    /// The history a frame starts with.
    pub fn start() -> (r: Self)
        ensures
            r == start_reps(),
    {
        Reps { r0: 1, r1: 4, r2: 8 }
    }

    /// Every remembered offset is a real distance.
    pub open spec fn positive(self) -> bool {
        self.r0 >= 1 && self.r1 >= 1 && self.r2 >= 1
    }

    /// No remembered offset is farther than `far`.
    pub open spec fn within(self, far: int) -> bool {
        self.r0 <= far && self.r1 <= far && self.r2 <= far
    }

    /// Moves the history past one sequence and returns the sequence's distance.
    pub fn advance(&mut self, of: u32, ll: u32) -> (off: u32)
        requires
            wire_ok(*old(self), of as int, ll as int),
        ensures
            off == wire_offset(*old(self), of as int, ll as int),
            *final(self) == reps_after(*old(self), of as int, ll as int),
    {
        let rep: Reps = *self;
        if of > 3 {
            *self = Reps { r0: of - 3, r1: rep.r0, r2: rep.r1 };
            return of - 3;
        }
        let k: u32 = if ll > 0 {
            of
        } else {
            of + 1
        };
        if k == 1 {
            rep.r0
        } else if k == 2 {
            *self = Reps { r0: rep.r1, r1: rep.r0, r2: rep.r2 };
            rep.r1
        } else if k == 3 {
            *self = Reps { r0: rep.r2, r1: rep.r0, r2: rep.r1 };
            rep.r2
        } else {
            *self = Reps { r0: rep.r0 - 1, r1: rep.r0, r2: rep.r1 };
            rep.r0 - 1
        }
    }

    /// The history as an array, newest first.
    pub fn to_array(self) -> (r: [u32; 3])
        ensures
            r@ == seq![self.r0, self.r1, self.r2],
    {
        let r: [u32; 3] = [self.r0, self.r1, self.r2];
        assert(r@ =~= seq![self.r0, self.r1, self.r2]);
        r
    }

    /// The history held by an array, newest first.
    pub open spec fn of_seq(a: Seq<u32>) -> Reps {
        Reps { r0: a[0], r1: a[1], r2: a[2] }
    }

    /// The history held by an array, newest first.
    pub fn from_array(a: [u32; 3]) -> (r: Self)
        ensures
            r == Reps::of_seq(a@),
    {
        Reps { r0: a[0], r1: a[1], r2: a[2] }
    }
}

/// Decoder side of the history: resolves a wire offset value after `ll` literals
/// and moves the history past the sequence.
pub fn do_offset_history(of: u32, ll: u32, hist: &mut [u32; 3]) -> (off: u32)
    requires
        wire_ok(Reps::of_seq(old(hist)@), of as int, ll as int),
    ensures
        off == wire_offset(Reps::of_seq(old(hist)@), of as int, ll as int),
        Reps::of_seq(final(hist)@) == reps_after(Reps::of_seq(old(hist)@), of as int, ll as int),
{
    let mut rep: Reps = Reps::from_array(*hist);
    let off: u32 = rep.advance(of, ll);
    *hist = rep.to_array();
    off
}

/// Histories that agree on their `k` newest offsets.
pub open spec fn reps_agree(a: Reps, b: Reps, k: int) -> bool {
    &&& k >= 1 ==> a.r0 == b.r0
    &&& k >= 2 ==> a.r1 == b.r1
    &&& k >= 3 ==> a.r2 == b.r2
}

/// Appends `n` bytes, each copied from `off` bytes before it.
pub open spec fn copy_match(out: Seq<u8>, off: int, n: int) -> Seq<u8>
    decreases n,
{
    if n <= 0 {
        out
    } else {
        let o = copy_match(out, off, n - 1);
        o.push(o[o.len() - off])
    }
}

/// State of a decoder between two sequences.
#[verifier::ext_equal]
pub struct Replay {
    /// Everything decoded so far, history included.
    pub out: Seq<u8>,
    /// The repeated-offset history.
    pub rep: Reps,
    /// Literals consumed so far.
    pub used: int,
    /// Whether every sequence so far could be unpacked, and had its literals and a
    /// source inside what had been decoded.
    pub ok: bool,
    /// Where each match was copied from.
    pub srcs: Seq<int>,
    /// How far back that was.
    pub offs: Seq<int>,
}

/// One decoder step.
pub open spec fn replay_step(p: Replay, lits: Seq<u8>, ll: int, ml: int, of: int) -> Replay {
    let at = p.out + lits.subrange(p.used, p.used + ll);
    let off = wire_offset(p.rep, of, ll);
    Replay {
        out: copy_match(at, off, ml),
        rep: reps_after(p.rep, of, ll),
        used: p.used + ll,
        ok: p.ok && 0 <= ll && p.used + ll <= lits.len() && 1 <= off <= at.len(),
        srcs: p.srcs.push(at.len() - off),
        offs: p.offs.push(off),
    }
}

/// What a decoder holds after the sequences `seqs`, given the bytes before the
/// block and the history at its start.
pub open spec fn replay(hist: Seq<u8>, rep: Reps, lits: Seq<u8>, seqs: Seq<SeqWord>) -> Replay
    decreases seqs.len(),
{
    if seqs.len() == 0 {
        Replay { out: hist, rep, used: 0, ok: true, srcs: Seq::empty(), offs: Seq::empty() }
    } else {
        let w = seqs.last();
        let r = replay_step(
            replay(hist, rep, lits, seqs.drop_last()),
            lits,
            word_ll(w.codes, w.add),
            word_ml(w.codes, w.add),
            word_of(w.codes, w.add),
        );
        Replay { ok: r.ok && unpackable(w.codes, w.add), ..r }
    }
}

/// Whether a parsed block decodes to `whole`: after the last sequence come the
/// literals that are left. A block without sequences stages nothing and is
/// handed over as it stands.
pub open spec fn decodes_to(
    hist: Seq<u8>,
    rep: Reps,
    lits: Seq<u8>,
    seqs: Seq<SeqWord>,
    whole: Seq<u8>,
) -> bool {
    if seqs.len() == 0 {
        lits.len() == 0
    } else {
        let r = replay(hist, rep, lits, seqs);
        &&& r.ok
        &&& r.used <= lits.len()
        &&& r.out + lits.subrange(r.used, lits.len() as int) == whole
    }
}

/// A parse in progress agrees with the decoder: what it has emitted decodes to
/// the window up to `anchor`, uses all literals staged so far, and leaves the
/// decoder with a history that agrees with `rep` on all but the `pending`
/// oldest offsets.
pub open spec fn synced(
    win: Seq<u8>,
    block_start: int,
    rep0: Reps,
    lits: Seq<u8>,
    seqs: Seq<SeqWord>,
    anchor: int,
    rep: Reps,
    pending: int,
) -> bool {
    let r = replay(win.take(block_start), rep0, lits, seqs);
    &&& r.ok
    &&& r.out == win.take(anchor)
    &&& r.used == lits.len()
    &&& reps_agree(r.rep, rep, 3 - pending)
}

/// A replay looks only at the literals that its sequences consume.
pub proof fn lemma_replay_more_literals(
    hist: Seq<u8>,
    rep: Reps,
    lits: Seq<u8>,
    seqs: Seq<SeqWord>,
    more: Seq<u8>,
)
    requires
        replay(hist, rep, lits, seqs).ok,
    ensures
        replay(hist, rep, lits + more, seqs) == replay(hist, rep, lits, seqs),
        0 <= replay(hist, rep, lits, seqs).used <= lits.len(),
    decreases seqs.len(),
{
    if seqs.len() > 0 {
        let w = seqs.last();
        let ll = word_ll(w.codes, w.add);
        lemma_replay_more_literals(hist, rep, lits, seqs.drop_last(), more);
        let p = replay(hist, rep, lits, seqs.drop_last());
        assert((lits + more).subrange(p.used, p.used + ll) =~= lits.subrange(p.used, p.used + ll));
    }
}

/// Copying a match whose bytes agree with its source rebuilds the window.
pub proof fn lemma_copy_match(win: Seq<u8>, start: int, off: int, n: int)
    requires
        1 <= off <= start,
        0 <= n,
        start + n <= win.len(),
        bytes_agree(win, start, start - off, n),
    ensures
        copy_match(win.take(start), off, n) == win.take(start + n),
    decreases n,
{
    if n > 0 {
        lemma_copy_match(win, start, off, n - 1);
        let o = win.take(start + n - 1);
        assert(win[start + (n - 1)] == win[start - off + (n - 1)]);
        assert(o.push(o[o.len() - off]) =~= win.take(start + n));
    } else {
        assert(win.take(start + n) =~= win.take(start));
    }
}

/// How many literal offsets a parse still owes after a sequence: each one
/// shifts a known offset into the history.
pub open spec fn pending_after(pending: int, of: int) -> int {
    if of > 3 && pending > 0 {
        pending - 1
    } else {
        pending
    }
}

/// Whether a sequence names its offset literally.
pub open spec fn is_far(w: SeqWord) -> bool {
    word_of(w.codes, w.add) > 3
}

/// How many of the sequences name their offsets literally.
pub open spec fn far_count(seqs: Seq<SeqWord>) -> int
    decreases seqs.len(),
{
    if seqs.len() == 0 {
        0
    } else {
        far_count(seqs.drop_last()) + if is_far(seqs.last()) {
            1int
        } else {
            0
        }
    }
}

/// The sequences of a parse that started with `owed` literal offsets to pay: each
/// literal offset pays one, `pending` are left, and none names a repeated offset
/// before all are paid.
#[verifier::opaque]
pub open spec fn paid(owed: int, seqs: Seq<SeqWord>, pending: int) -> bool {
    &&& pending == if far_count(seqs) < owed {
        owed - far_count(seqs)
    } else {
        0
    }
    &&& forall|k: int| 0 <= k < seqs.len() && !is_far(#[trigger] seqs[k]) ==> far_count(seqs.take(k)) >= owed
}

/// Every match has at least `least` bytes, and at least `bar` where its offset is
/// named literally.
#[verifier::opaque]
pub open spec fn long_enough(least: int, bar: int, seqs: Seq<SeqWord>) -> bool {
    forall|k: int|
        0 <= k < seqs.len() ==> {
            let ml = word_ml((#[trigger] seqs[k]).codes, seqs[k].add);
            ml >= least && (is_far(seqs[k]) ==> ml >= bar)
        }
}

/// No offset that is named literally is longer than `hop`.
#[verifier::opaque]
pub open spec fn near_enough(hop: int, seqs: Seq<SeqWord>) -> bool {
    forall|k: int| 0 <= k < seqs.len() && is_far(#[trigger] seqs[k]) ==> word_of(seqs[k].codes, seqs[k].add) - 3 <= hop
}

/// One more sequence keeps the literal offsets near enough.
pub proof fn lemma_near_push(hop: int, seqs: Seq<SeqWord>, ll: int, ml: int, of: int)
    requires
        near_enough(hop, seqs),
        encodable(ll, ml, of),
        of > 3 ==> of - 3 <= hop,
    ensures
        near_enough(hop, seqs.push(seq_word(ll, ml, of))),
{
    reveal(near_enough);
    lemma_packed_roundtrip(ll, ml, of);
    let more = seqs.push(seq_word(ll, ml, of));
    assert forall|k: int| 0 <= k < more.len() && is_far(#[trigger] more[k]) implies word_of(more[k].codes, more[k].add) - 3
        <= hop by {
        if k < seqs.len() {
            assert(more[k] == seqs[k]);
        }
    }
}

/// A count of literal offsets is never negative.
pub proof fn lemma_far_count(seqs: Seq<SeqWord>)
    ensures
        far_count(seqs) >= 0,
    decreases seqs.len(),
{
    if seqs.len() > 0 {
        lemma_far_count(seqs.drop_last());
    }
}

/// Nothing emitted pays nothing.
pub proof fn lemma_nothing_paid(owed: int, least: int, bar: int)
    requires
        owed >= 0,
    ensures
        paid(owed, Seq::empty(), owed),
        long_enough(least, bar, Seq::empty()),
        forall|hop: int| #[trigger] near_enough(hop, Seq::empty()),
{
    reveal(paid);
    reveal(long_enough);
    reveal(near_enough);
}

/// What is left to pay is never more than what was owed.
pub proof fn lemma_paid_bounds(owed: int, seqs: Seq<SeqWord>, pending: int)
    requires
        paid(owed, seqs, pending),
        owed >= 0,
    ensures
        0 <= pending <= owed,
        pending < owed || far_count(seqs) == 0 || owed == 0,
{
    reveal(paid);
    lemma_far_count(seqs);
}

/// Lower bounds ask less.
pub proof fn lemma_long_enough_for(least: int, bar: int, less: int, low: int, seqs: Seq<SeqWord>)
    requires
        long_enough(least, bar, seqs),
        less <= least,
        low <= bar,
    ensures
        long_enough(less, low, seqs),
{
    reveal(long_enough);
}

/// Two parts with long enough matches make one.
pub proof fn lemma_long_enough_joins(least: int, bar: int, a: Seq<SeqWord>, b: Seq<SeqWord>)
    requires
        long_enough(least, bar, a),
        long_enough(least, bar, b),
    ensures
        long_enough(least, bar, a + b),
{
    reveal(long_enough);
    let s = a + b;
    assert forall|k: int| 0 <= k < s.len() implies {
        let l = word_ml((#[trigger] s[k]).codes, s[k].add);
        l >= least && (is_far(s[k]) ==> l >= bar)
    } by {
        if k < a.len() {
            assert(s[k] == a[k]);
        } else {
            assert(s[k] == b[k - a.len()]);
        }
    }
}

/// One more sequence pays what it owes.
pub proof fn lemma_paid_push(owed: int, seqs: Seq<SeqWord>, pending: int, ll: int, ml: int, of: int, least: int, bar: int)
    requires
        paid(owed, seqs, pending),
        long_enough(least, bar, seqs),
        encodable(ll, ml, of),
        of > 3 || pending == 0,
        ml >= least,
        of > 3 ==> ml >= bar,
    ensures
        paid(owed, seqs.push(seq_word(ll, ml, of)), pending_after(pending, of)),
        long_enough(least, bar, seqs.push(seq_word(ll, ml, of))),
{
    reveal(paid);
    reveal(long_enough);
    let w = seq_word(ll, ml, of);
    let more = seqs.push(w);
    lemma_packed_roundtrip(ll, ml, of);
    assert(more.drop_last() =~= seqs);
    assert forall|k: int| 0 <= k < more.len() && !is_far(#[trigger] more[k]) implies far_count(more.take(k)) >= owed by {
        assert(more.take(k) =~= seqs.take(k));
        if k < seqs.len() {
            assert(more[k] == seqs[k]);
        } else {
            assert(seqs.take(k) =~= seqs);
        }
    }
    assert forall|k: int| 0 <= k < more.len() implies {
        let l = word_ml((#[trigger] more[k]).codes, more[k].add);
        l >= least && (is_far(more[k]) ==> l >= bar)
    } by {
        if k < seqs.len() {
            assert(more[k] == seqs[k]);
        }
    }
}

/// The literal offsets of two parts add up.
pub proof fn lemma_far_count_joins(a: Seq<SeqWord>, b: Seq<SeqWord>)
    ensures
        far_count(a + b) == far_count(a) + far_count(b),
    decreases b.len(),
{
    if b.len() == 0 {
        assert(a + b =~= a);
    } else {
        lemma_far_count_joins(a, b.drop_last());
        assert((a + b).drop_last() =~= a + b.drop_last());
    }
}

/// What one part leaves to pay, the next one pays.
pub proof fn lemma_paid_joins(owed: int, a: Seq<SeqWord>, mid: int, b: Seq<SeqWord>, pending: int)
    requires
        paid(owed, a, mid),
        paid(mid, b, pending),
        owed >= 0,
    ensures
        paid(owed, a + b, pending),
{
    reveal(paid);
    lemma_far_count_joins(a, b);
    lemma_far_count(a);
    lemma_far_count(b);
    let s = a + b;
    assert forall|k: int| 0 <= k < s.len() && !is_far(#[trigger] s[k]) implies far_count(s.take(k)) >= owed by {
        if k < a.len() {
            assert(s[k] == a[k]);
            assert(s.take(k) =~= a.take(k));
        } else {
            let j = k - a.len();
            assert(s[k] == b[j]);
            assert(s.take(k) =~= a + b.take(j));
            lemma_far_count_joins(a, b.take(j));
            lemma_far_count(b.take(j));
        }
    }
}

/// A decoder that knows all but the `owed` oldest offsets rebuilds what one that knows
/// them all does, if those are paid before a repeated offset is named.
pub proof fn lemma_replay_owed(hist: Seq<u8>, a: Reps, b: Reps, lits: Seq<u8>, seqs: Seq<SeqWord>, owed: int, pending: int)
    requires
        reps_agree(a, b, 3 - owed),
        0 <= owed <= 3,
        paid(owed, seqs, pending),
    ensures
        ({
            let x = replay(hist, a, lits, seqs);
            let y = replay(hist, b, lits, seqs);
            &&& x.out == y.out
            &&& x.used == y.used
            &&& x.ok == y.ok
            &&& x.offs == y.offs
            &&& reps_agree(x.rep, y.rep, 3 - pending)
        }),
    decreases seqs.len(),
{
    reveal(paid);
    if seqs.len() > 0 {
        let q = seqs.drop_last();
        let before: int = if far_count(q) < owed {
            owed - far_count(q)
        } else {
            0
        };
        lemma_far_count(q);
        assert(paid(owed, q, before)) by {
            assert forall|k: int| 0 <= k < q.len() && !is_far(#[trigger] q[k]) implies far_count(q.take(k)) >= owed by {
                assert(q[k] == seqs[k]);
                assert(q.take(k) =~= seqs.take(k));
            }
        }
        lemma_replay_owed(hist, a, b, lits, q, owed, before);
        let n = seqs.len() - 1;
        assert(seqs.take(n) =~= q);
        if !is_far(seqs.last()) {
            assert(!is_far(seqs[n]));
            assert(before == 0);
        }
    }
}

/// What a sequence must be for the decoder to rebuild the window with it: a
/// match that agrees with an earlier source, an encodable triple, and a wire
/// offset value that names the source's distance. Repeated offsets may be named
/// only where the history is known.
pub open spec fn good_seq(
    win: Seq<u8>,
    anchor: int,
    start: int,
    cand: int,
    ml: int,
    of: int,
    rep: Reps,
    pending: int,
) -> bool {
    &&& 0 <= anchor <= start
    &&& 0 <= cand < start
    &&& start + ml <= win.len()
    &&& bytes_agree(win, start, cand, ml)
    &&& encodable(start - anchor, ml, of)
    &&& wire_offset(rep, of, start - anchor) == start - cand
    &&& of > 3 || pending == 0
}

/// Emitting a good sequence keeps the parse in agreement with the decoder.
pub proof fn lemma_push_seq(
    win: Seq<u8>,
    block_start: int,
    rep0: Reps,
    lits: Seq<u8>,
    seqs: Seq<SeqWord>,
    anchor: int,
    rep: Reps,
    pending: int,
    start: int,
    cand: int,
    ml: int,
    of: int,
)
    requires
        synced(win, block_start, rep0, lits, seqs, anchor, rep, pending),
        good_seq(win, anchor, start, cand, ml, of, rep, pending),
        0 <= pending <= 3,
    ensures
        synced(
            win,
            block_start,
            rep0,
            lits + win.subrange(anchor, start),
            seqs.push(seq_word(start - anchor, ml, of)),
            start + ml,
            reps_after(rep, of, start - anchor),
            pending_after(pending, of),
        ),
        replay(
            win.take(block_start),
            rep0,
            lits + win.subrange(anchor, start),
            seqs.push(seq_word(start - anchor, ml, of)),
        ).srcs == replay(win.take(block_start), rep0, lits, seqs).srcs.push(cand),
        replay(
            win.take(block_start),
            rep0,
            lits + win.subrange(anchor, start),
            seqs.push(seq_word(start - anchor, ml, of)),
        ).offs == replay(win.take(block_start), rep0, lits, seqs).offs.push(start - cand),
        replay(
            win.take(block_start),
            rep0,
            lits + win.subrange(anchor, start),
            seqs.push(seq_word(start - anchor, ml, of)),
        ).rep == reps_after(replay(win.take(block_start), rep0, lits, seqs).rep, of, start - anchor),
{
    let more = win.subrange(anchor, start);
    let w = seq_word(start - anchor, ml, of);
    let hist = win.take(block_start);
    lemma_replay_more_literals(hist, rep0, lits, seqs, more);
    lemma_packed_roundtrip(start - anchor, ml, of);
    lemma_word_unpackable(start - anchor, ml, of);
    assert(seqs.push(w).drop_last() =~= seqs);
    let p = replay(hist, rep0, lits, seqs);
    let ll = start - anchor;
    assert((lits + more).subrange(p.used, p.used + ll) =~= more);
    assert(p.out + more =~= win.take(start));
    assert(wire_offset(p.rep, of, ll) == start - cand);
    lemma_copy_match(win, start, start - cand, ml);
}

/// Staging the literals after the last match completes the block.
pub proof fn lemma_block_tail(
    win: Seq<u8>,
    block_start: int,
    rep0: Reps,
    lits: Seq<u8>,
    seqs: Seq<SeqWord>,
    anchor: int,
    rep: Reps,
    pending: int,
    block_end: int,
)
    requires
        synced(win, block_start, rep0, lits, seqs, anchor, rep, pending),
        0 <= anchor <= block_end <= win.len(),
        seqs.len() > 0,
    ensures
        decodes_to(
            win.take(block_start),
            rep0,
            lits + win.subrange(anchor, block_end),
            seqs,
            win.take(block_end),
        ),
{
    let more = win.subrange(anchor, block_end);
    lemma_replay_more_literals(win.take(block_start), rep0, lits, seqs, more);
    let r = replay(win.take(block_start), rep0, lits, seqs);
    assert((lits + more).subrange(r.used, (lits + more).len() as int) =~= more);
    assert(r.out + more =~= win.take(block_end));
}

/// A parse that has emitted nothing agrees with a decoder at the block start.
pub proof fn lemma_synced_start(win: Seq<u8>, block_start: int, rep0: Reps, rep: Reps, pending: int)
    requires
        reps_agree(rep0, rep, 3 - pending),
    ensures
        synced(
            win,
            block_start,
            rep0,
            Seq::empty(),
            Seq::empty(),
            block_start,
            rep,
            pending,
        ),
{
}

/// Literals that the first `n` sequences consume.
pub open spec fn lit_total(seqs: Seq<SeqWord>, n: int) -> int
    decreases n,
{
    if n <= 0 {
        0
    } else {
        lit_total(seqs, n - 1) + word_ll(seqs[n - 1].codes, seqs[n - 1].add)
    }
}

/// Bytes that the sequences copy.
pub open spec fn match_total(seqs: Seq<SeqWord>) -> int
    decreases seqs.len(),
{
    if seqs.len() == 0 {
        0
    } else {
        match_total(seqs.drop_last()) + word_ml(seqs.last().codes, seqs.last().add)
    }
}

/// A copy has its length.
proof fn lemma_copy_len(out: Seq<u8>, off: int, n: int)
    requires
        n >= 0,
    ensures
        copy_match(out, off, n).len() == out.len() + n,
    decreases n,
{
    if n > 0 {
        lemma_copy_len(out, off, n - 1);
    }
}

/// What a decoder adds is what the sequences take of the literals, and what they
/// copy.
pub proof fn lemma_replay_len(hist: Seq<u8>, rep: Reps, lits: Seq<u8>, seqs: Seq<SeqWord>)
    requires
        replay(hist, rep, lits, seqs).ok,
    ensures
        replay(hist, rep, lits, seqs).out.len() == hist.len() + replay(hist, rep, lits, seqs).used + match_total(seqs),
    decreases seqs.len(),
{
    if seqs.len() > 0 {
        let w = seqs.last();
        let p = replay(hist, rep, lits, seqs.drop_last());
        lemma_replay_len(hist, rep, lits, seqs.drop_last());
        lemma_replay_readable(hist, rep, lits, seqs.drop_last());
        let ll = word_ll(w.codes, w.add);
        let at = p.out + lits.subrange(p.used, p.used + ll);
        lemma_word_ml(w.codes, w.add);
        lemma_copy_len(at, wire_offset(p.rep, word_of(w.codes, w.add), ll), word_ml(w.codes, w.add) as int);
    }
}

/// A parsed block can be read back: every word unpacks, and the literals are
/// there.
pub open spec fn readable(lits: Seq<u8>, seqs: Seq<SeqWord>) -> bool {
    &&& forall|k: int| 0 <= k < seqs.len() ==> unpackable((#[trigger] seqs[k]).codes, seqs[k].add)
    &&& forall|n: int| 0 <= n <= seqs.len() ==> 0 <= #[trigger] lit_total(seqs, n) <= lits.len()
}

/// What decodes can be read back.
pub proof fn lemma_replay_readable(hist: Seq<u8>, rep: Reps, lits: Seq<u8>, seqs: Seq<SeqWord>)
    requires
        replay(hist, rep, lits, seqs).ok,
    ensures
        readable(lits, seqs),
        replay(hist, rep, lits, seqs).used == lit_total(seqs, seqs.len() as int),
    decreases seqs.len(),
{
    if seqs.len() > 0 {
        let a = seqs.drop_last();
        let m = a.len() as int;
        lemma_replay_readable(hist, rep, lits, a);
        assert forall|n: int| 0 <= n <= m implies lit_total(seqs, n) == lit_total(a, n) by {
            lemma_lit_total(seqs, a, n);
        }
        assert forall|n: int| 0 <= n <= seqs.len() implies 0 <= #[trigger] lit_total(seqs, n) <= lits.len() by {
            if n <= m {
                assert(lit_total(seqs, n) == lit_total(a, n));
            }
        }
        assert forall|k: int| 0 <= k < seqs.len() implies unpackable((#[trigger] seqs[k]).codes, seqs[k].add) by {
            if k < m {
                assert(a[k] == seqs[k]);
            }
        }
    }
}

/// A prefix of the sequences consumes the same literals.
proof fn lemma_lit_total(seqs: Seq<SeqWord>, a: Seq<SeqWord>, n: int)
    requires
        0 <= n <= a.len() <= seqs.len(),
        forall|k: int| 0 <= k < a.len() ==> seqs[k] == a[k],
    ensures
        lit_total(seqs, n) == lit_total(a, n),
    decreases n,
{
    if n > 0 {
        lemma_lit_total(seqs, a, n - 1);
    }
}

/// More history before the window changes nothing: the decoder's copies stay the
/// same distances back.
pub proof fn lemma_copy_more_history(pre: Seq<u8>, out: Seq<u8>, off: int, n: int)
    requires
        1 <= off <= out.len(),
    ensures
        copy_match(pre + out, off, n) == pre + copy_match(out, off, n),
        copy_match(out, off, n).len() >= out.len(),
    decreases n,
{
    if n > 0 {
        lemma_copy_more_history(pre, out, off, n - 1);
        let o = copy_match(out, off, n - 1);
        assert((pre + o)[(pre + o).len() - off] == o[o.len() - off]);
        assert((pre + o).push(o[o.len() - off]) =~= pre + o.push(o[o.len() - off]));
    }
}

/// A decoder with more history than a block's window holds rebuilds the same
/// block after it.
pub proof fn lemma_replay_more_history(
    pre: Seq<u8>,
    hist: Seq<u8>,
    rep: Reps,
    lits: Seq<u8>,
    seqs: Seq<SeqWord>,
)
    requires
        replay(hist, rep, lits, seqs).ok,
    ensures
        ({
            let a = replay(hist, rep, lits, seqs);
            let b = replay(pre + hist, rep, lits, seqs);
            &&& b.ok
            &&& b.out == pre + a.out
            &&& b.rep == a.rep
            &&& b.used == a.used
            &&& b.offs == a.offs
        }),
    decreases seqs.len(),
{
    if seqs.len() > 0 {
        let w = seqs.last();
        let ll = word_ll(w.codes, w.add);
        let of = word_of(w.codes, w.add);
        lemma_replay_more_history(pre, hist, rep, lits, seqs.drop_last());
        let p = replay(hist, rep, lits, seqs.drop_last());
        let q = replay(pre + hist, rep, lits, seqs.drop_last());
        let piece = lits.subrange(p.used, p.used + ll);
        assert(q.out + piece =~= pre + (p.out + piece));
        lemma_copy_more_history(pre, p.out + piece, wire_offset(p.rep, of, ll), word_ml(w.codes, w.add));
    }
}

} // verus!
