//! The double-hash scan: an eight-byte and a short hash probe per position, no
//! chain walk and no deferral.

use vstd::prelude::*;
use crate::gates::RampGate;
use crate::hash::{bytes_agree, common_len, extend_back, extend_match, hash8_at_log, hash_at_width, le4, le8, lemma_common_len, lemma_common_len_skip, lemma_le4_eq, lemma_le8_eq, lemma_mul_hash_range, long_slot, read4, read8, short_slot, slots, ChainHashWidth, HASH_READ, MIN_MATCH};
use crate::parse_fast::{ldm_fit, ldm_match, ldm_true, lemma_ldm_match, lemma_skip_covered, segment_end, skip_covered};
use crate::price::{pays_flat, pays_for_offset};
use crate::scan::{count_hit, count_seed, emit, emit_far, emit_seq, in_bounds, in_step, legal_reads, lemma_block_done, lemma_emit_in_step, lemma_far_is_good, lemma_rep_is_good, lemma_swap_is_good, lemma_try_match, pay_pending, resumed, scan_state, spend, spend_seed, test_match, try_match, with_tail, LdmSeq, Peer, Scan, St, MAX_BLOCK_SIZE};
use crate::seq_codes::SeqWord;
use crate::sequence::{decodes_to, long_enough, near_enough, paid, pending_after, replay, reps_agree};
use crate::tables::{append, candidate, insert_at, insert_limit, pack_pos, put_long, put_short, resolve, WIN_MAX};

verus! {

/// Constants of one block's scan.
#[derive(Clone, Copy, PartialEq, Eq, Structural, Debug)]
pub struct DfastCfg {
    /// Absolute position of the window's first byte.
    pub base: u64,
    /// Log of the table of the eight-byte hash.
    pub long_log: u32,
    /// Log of the table of the short hash.
    pub small_log: u32,
    /// Input width of the short hash.
    pub width: ChainHashWidth,
    /// Farthest distance of a table candidate.
    pub reach: usize,
    /// Job-start ramp.
    pub ramp: RampGate,
}

/// A scan with its two tables, and the position that is probed after the current
/// one.
#[verifier::ext_equal]
pub struct DfastSt {
    pub long: Seq<u32>,
    pub small: Seq<u32>,
    pub s: St,
    pub next: int,
}

impl DfastCfg {
    /// The configuration fits a window.
    pub open spec fn fits(self, w: Seq<u8>) -> bool {
        &&& 1 <= self.long_log < 32
        &&& 1 <= self.small_log < 32
        &&& w.len() <= WIN_MAX
        &&& self.base + w.len() < u64::MAX
    }
}

/// Both tables with the position at `i` inserted.
pub open spec fn put_both(c: DfastCfg, w: Seq<u8>, f: DfastSt, i: int) -> DfastSt {
    DfastSt {
        long: put_long(f.long, w, i, c.base as int, c.long_log),
        small: put_short(f.small, w, i, c.base as int, c.small_log, c.width),
        ..f
    }
}

/// Both tables after a match was emitted from position `cur`, ending at `end`:
/// the position two past `cur` in both, the one two before the end in the long
/// table, the one before the end in the short one, each where it can be hashed.
pub open spec fn dfast_anchors(c: DfastCfg, w: Seq<u8>, f: DfastSt, cur: int, end: int) -> DfastSt {
    let limit = insert_limit(w);
    let f1 = if cur + 2 <= limit {
        put_both(c, w, f, cur + 2)
    } else {
        f
    };
    let f2 = if 2 <= end <= limit + 2 {
        DfastSt { long: put_long(f1.long, w, end - 2, c.base as int, c.long_log), ..f1 }
    } else {
        f1
    };
    if 1 <= end <= limit + 1 {
        DfastSt { small: put_short(f2.small, w, end - 1, c.base as int, c.small_log, c.width), ..f2 }
    } else {
        f2
    }
}

/// Matches by the second repeated offset that follow each other right at the
/// anchor; each position consumed enters both tables.
pub open spec fn dfast_chain(c: DfastCfg, w: Seq<u8>, f: DfastSt) -> DfastSt
    decreases w.len() - f.s.anchor,
{
    let p = f.s.anchor;
    let q = p - f.s.rep.r1;
    let n = common_len(w, p, q);
    if p <= insert_limit(w) && q >= 0 && !c.ramp.shallow(c.base + q) && le4(w, q) == le4(w, p)
        && MIN_MATCH <= n <= w.len() - p {
        dfast_chain(c, w, DfastSt { s: emit_seq(f.s, w, p, n, 1), ..put_both(c, w, f, p) })
    } else {
        f
    }
}

/// The scan after an emission.
pub open spec fn dfast_resume(c: DfastCfg, w: Seq<u8>, f: DfastSt) -> DfastSt {
    let g = if f.s.pending == 0 {
        dfast_chain(c, w, f)
    } else {
        f
    };
    DfastSt { s: St { pos: g.s.anchor, ..g.s }, next: g.s.anchor + 1, ..g }
}

/// The scan after emitting the match `m` by its literal offset from position
/// `cur`; with `ahead`, the following position enters the long table if the
/// match covers it.
pub open spec fn dfast_take(
    c: DfastCfg,
    w: Seq<u8>,
    f: DfastSt,
    m: (int, int, int),
    ahead: Option<int>,
) -> DfastSt {
    let g = dfast_anchors(
        c,
        w,
        DfastSt { s: emit_far(f.s, w, m.0, m.1, m.2), ..f },
        f.s.pos,
        m.0 + m.2,
    );
    dfast_resume(
        c,
        w,
        match ahead {
            Some(i) => if i < m.0 + m.2 {
                DfastSt { long: put_long(g.long, w, i, c.base as int, c.long_log), ..g }
            } else {
                g
            },
            None => g,
        },
    )
}

/// Whether the newest repeated offset matches one byte ahead, legally.
pub open spec fn dfast_rep(c: DfastCfg, w: Seq<u8>, s: St) -> bool {
    let p = s.pos + 1;
    let q = p - s.rep.r0;
    s.pending == 0 && q >= 0 && le4(w, q) == le4(w, p) && !c.ramp.shallow(c.base + q)
}

/// A match by the seed offset at the scan position.
pub open spec fn dfast_seed(c: DfastCfg, w: Seq<u8>, s: St) -> Option<(int, int, int)> {
    let i = s.pos;
    let q = i - s.seed;
    if s.seed != 0 && q >= 0 && le4(w, q) == le4(w, i) && pays_flat(common_len(w, i, q), s.seed) {
        try_match(w, c.ramp, c.base as int, i, q, w.len() - i, 6, s.anchor)
    } else {
        None
    }
}

/// A match by the long table's entry.
pub open spec fn dfast_long(c: DfastCfg, w: Seq<u8>, s: St, e: u32) -> Option<(int, int, int)> {
    let i = s.pos;
    let q = candidate(e, c.base + i, i, c.reach as int);
    if q != i && le8(w, q) == le8(w, i) {
        try_match(w, c.ramp, c.base as int, i, q, w.len() - i, 0, s.anchor)
    } else {
        None
    }
}

/// A match by the short table's entry, upgraded to the long table's match at the
/// next position where that one is longer.
pub open spec fn dfast_short(c: DfastCfg, w: Seq<u8>, s: St, e: u32, next: int, e1: u32) -> Option<
    (int, int, int),
> {
    let i = s.pos;
    let q = candidate(e, c.base + i, i, c.reach as int);
    if q != i && le4(w, q) == le4(w, i) {
        let q1 = candidate(e1, c.base + next, next, c.reach as int);
        if q1 != next && le8(w, q1) == le8(w, next) && common_len(w, next, q1) > common_len(w, i, q) {
            try_match(w, c.ramp, c.base as int, next, q1, w.len() - next, 0, s.anchor)
        } else {
            try_match(w, c.ramp, c.base as int, i, q, w.len() - i, 0, s.anchor)
        }
    } else {
        None
    }
}

/// The scan after probing one position: it enters both tables; then the newest
/// repeated offset is tried one byte ahead, the seed, the long entry, and the
/// short entry. A miss moves on, faster the longer the pending literals are.
pub open spec fn dfast_step(c: DfastCfg, w: Seq<u8>, f: DfastSt) -> DfastSt {
    let s = f.s;
    let i = s.pos;
    let el = f.long[long_slot(w, i, c.long_log)];
    let es = f.small[short_slot(w, i, c.small_log, c.width)];
    let g = put_both(c, w, f, i);
    if dfast_rep(c, w, s) {
        let p = i + 1;
        let n = common_len(w, p, p - s.rep.r0);
        dfast_resume(
            c,
            w,
            dfast_anchors(c, w, DfastSt { s: emit_seq(s, w, p, n, 1), ..g }, i, p + n),
        )
    } else {
        match dfast_seed(c, w, s) {
            Some(m) => dfast_take(c, w, DfastSt { s: count_seed(s), ..g }, m, None),
            None => {
                let z = DfastSt { s: spend_seed(s), ..g };
                match dfast_long(c, w, z.s, el) {
                    Some(m) => dfast_take(c, w, z, m, Some(f.next)),
                    None => {
                        let e1 = g.long[long_slot(w, f.next, c.long_log)];
                        match dfast_short(c, w, z.s, es, f.next, e1) {
                            Some(m) => dfast_take(c, w, z, m, Some(f.next)),
                            None => DfastSt {
                                s: St { pos: f.next, ..z.s },
                                next: f.next + 1 + (f.next - s.anchor) / 256,
                                ..z
                            },
                        }
                    },
                }
            },
        }
    }
}

/// The scan still carries what a job starts with: offsets that are owed, or a seed.
pub open spec fn at_job_start(s: St) -> bool {
    s.pending != 0 || s.seed != 0
}

/// The scan up to the block's end. The flag says whether all its matches left it in
/// the state of a job start.
pub open spec fn dfast_run(c: DfastCfg, w: Seq<u8>, f: DfastSt, starting: bool) -> (DfastSt, bool)
    decreases
        if w.len() > f.s.pos {
            w.len() - f.s.pos
        } else {
            0
        },
{
    if f.next <= insert_limit(w) {
        let g = dfast_step(c, w, f);
        let still = starting && (g.s.seqs.len() == f.s.seqs.len() || at_job_start(g.s));
        if f.s.pos < g.s.pos && f.s.pos < w.len() {
            dfast_run(c, w, g, still)
        } else {
            (g, still)
        }
    } else {
        (f, starting)
    }
}

/// A scan that starts over at its position, without its seed.
pub open spec fn dfast_restarted(f: DfastSt) -> DfastSt {
    DfastSt { s: St { seed: 0, ..f.s }, next: f.s.pos + 1, ..f }
}

/// The scan of a block. One that is in the state of a job start to the end looks
/// once more at the positions that its last step passed over, this time without
/// the seed.
pub open spec fn dfast_scan(c: DfastCfg, w: Seq<u8>, f: DfastSt) -> DfastSt {
    let (g, starting) = dfast_run(c, w, f, at_job_start(f.s));
    if starting {
        let h = dfast_run(c, w, dfast_restarted(g), false).0;
        DfastSt { s: St { seed: g.s.seed, ..h.s }, ..h }
    } else {
        g
    }
}

/// A scan that goes on at `at`.
pub open spec fn dfast_from(f: DfastSt, at: int) -> DfastSt {
    DfastSt { s: St { pos: at, ..f.s }, next: at + 1, ..f }
}

/// End of the bytes that a match ending at `end` and what follows it right behind
/// can cover: the next split, unless the match ends behind it.
pub open spec fn far_end(base: int, w: Seq<u8>, ldm: Seq<LdmSeq>, i: int, end: int) -> int {
    if segment_end(base, w, ldm, i + 1) > end {
        segment_end(base, w, ldm, i + 1)
    } else {
        end
    }
}

/// The scan of a block in segments, from candidate `i` on: each candidate ends a
/// segment at its split, whose bytes are scanned as if the window ended there, and is
/// emitted there whole, unless an emission already covers the split or the candidate
/// is too short. The flag says whether any was emitted.
pub open spec fn dfast_segments(c: DfastCfg, w: Seq<u8>, ldm: Seq<LdmSeq>, i: int, f: DfastSt, won: bool) -> (DfastSt, bool)
    decreases ldm.len() - i,
{
    let end = segment_end(c.base as int, w, ldm, i);
    if i >= ldm.len() {
        (dfast_scan(c, w, f), won)
    } else if f.s.anchor > end {
        dfast_segments(c, w, ldm, i + 1, f, won)
    } else {
        let g = dfast_from(dfast_scan(c, w.take(end), f), end);
        if ldm[i].len < MIN_MATCH {
            dfast_segments(c, w, ldm, i + 1, g, won)
        } else {
            let m = ldm_match(c.base as int, c.ramp, w, g.s, ldm[i]);
            let h = dfast_take(c, w.take(far_end(c.base as int, w, ldm, i, m.0 + m.2)), g, m, None);
            let j = skip_covered(ldm, i + 1, c.base + h.s.anchor);
            if i < j <= ldm.len() {
                dfast_segments(c, w, ldm, j, h, true)
            } else {
                (h, true)
            }
        }
    }
}

/// The scan of a whole block: its segments, then the literals behind the last match.
/// The cursors end at the block's end.
pub open spec fn dfast_block(c: DfastCfg, w: Seq<u8>, ldm: Seq<LdmSeq>, long: Seq<u32>, small: Seq<u32>, s: St) -> (DfastSt, bool) {
    let (g, won) = dfast_segments(c, w, ldm, 0, DfastSt { long, small, s, next: s.pos + 1 }, false);
    (DfastSt { s: St { pos: w.len() as int, anchor: w.len() as int, ..with_tail(g.s, w) }, ..g }, won)
}

/// What a scan keeps.
pub open spec fn dfast_inv(c: DfastCfg, w: Seq<u8>, d: Peer, f: DfastSt) -> bool {
    &&& c.fits(w)
    &&& f.long.len() == slots(c.long_log)
    &&& f.small.len() == slots(c.small_log)
    &&& in_step(w, d, f.s)
    &&& f.s.pos < f.next
    &&& d.base == c.base
    &&& d.least <= 3 && d.bar <= 3
    &&& d.ramp == c.ramp || d.ramp.end == 0
    &&& c.reach <= d.far <= d.hop
}

/// A scan with its next probe at the anchor.
pub open spec fn dfast_at_anchor(f: DfastSt) -> DfastSt {
    DfastSt { s: St { pos: f.s.anchor, ..f.s }, next: f.s.anchor + 1, ..f }
}

/// The chain of repeated offsets keeps what a scan keeps.
pub proof fn lemma_dfast_chain(c: DfastCfg, w: Seq<u8>, d: Peer, f: DfastSt)
    requires
        dfast_inv(c, w, d, dfast_at_anchor(f)),
        f.s.pending == 0,
    ensures
        dfast_inv(c, w, d, dfast_at_anchor(dfast_chain(c, w, f))),
        dfast_chain(c, w, f).s.anchor >= f.s.anchor,
    decreases w.len() - f.s.anchor,
{
    broadcast use lemma_mul_hash_range;

    let p = f.s.anchor;
    let q = p - f.s.rep.r1;
    let n = common_len(w, p, q);
    if p <= insert_limit(w) && q >= 0 && !c.ramp.shallow(c.base + q) && le4(w, q) == le4(w, p)
        && MIN_MATCH <= n <= w.len() - p {
        let r = dfast_at_anchor(f).s;
        let g = DfastSt { s: emit_seq(f.s, w, p, n, 1), ..put_both(c, w, f, p) };
        lemma_common_len(w, p, q);
        lemma_swap_is_good(w, r, q, n);
        lemma_emit_in_step(w, d, r, p, q, n, 1);
        lemma_same_but_cursors(
            w,
            d,
            resumed(St { pending: pending_after(r.pending, 1), ..emit_seq(r, w, p, n, 1) }),
            dfast_at_anchor(g).s,
        );
        lemma_dfast_chain(c, w, d, g);
    }
}

/// Agreement with the decoder does not depend on the run of misses.
pub proof fn lemma_same_but_cursors(w: Seq<u8>, d: Peer, a: St, b: St)
    requires
        in_step(w, d, a),
        b == (St { miss: b.miss, pos: b.pos, ..a }),
        0 <= b.miss <= u64::MAX,
        b.anchor <= b.pos,
    ensures
        in_step(w, d, b),
{
}

/// Inserting the anchors of a match keeps the sizes of both tables and the scan.
pub proof fn lemma_dfast_anchors(c: DfastCfg, w: Seq<u8>, f: DfastSt, cur: int, end: int)
    requires
        c.fits(w),
        f.long.len() == slots(c.long_log),
        f.small.len() == slots(c.small_log),
    ensures
        dfast_anchors(c, w, f, cur, end).long.len() == slots(c.long_log),
        dfast_anchors(c, w, f, cur, end).small.len() == slots(c.small_log),
        dfast_anchors(c, w, f, cur, end).s == f.s,
{
    broadcast use lemma_mul_hash_range;

}

/// Emitting a match by its literal offset keeps what a scan keeps.
pub proof fn lemma_dfast_take(
    c: DfastCfg,
    w: Seq<u8>,
    d: Peer,
    f: DfastSt,
    m: (int, int, int),
    ahead: Option<int>,
)
    requires
        dfast_inv(c, w, d, f),
        f.s.anchor <= m.0,
        0 <= m.1 < m.0,
        m.2 >= 3,
        m.0 + m.2 <= w.len(),
        bytes_agree(w, m.0, m.1, m.2),
        !c.ramp.shallow(c.base + m.1) || d.ramp.end == 0,
        m.0 - m.1 <= d.far,
    ensures
        dfast_inv(c, w, d, dfast_take(c, w, f, m, ahead)),
        dfast_take(c, w, f, m, ahead).s.pos >= m.0 + m.2,
{
    broadcast use lemma_mul_hash_range;

    let of = m.0 - m.1 + 3;
    lemma_far_is_good(w, f.s, m.0, m.1, m.2);
    lemma_emit_in_step(w, d, f.s, m.0, m.1, m.2, of);
    let e = DfastSt { s: emit_far(f.s, w, m.0, m.1, m.2), ..f };
    lemma_dfast_anchors(c, w, e, f.s.pos, m.0 + m.2);
    let g = dfast_anchors(c, w, e, f.s.pos, m.0 + m.2);
    let h = match ahead {
        Some(i) => if i < m.0 + m.2 {
            DfastSt { long: put_long(g.long, w, i, c.base as int, c.long_log), ..g }
        } else {
            g
        },
        None => g,
    };
    lemma_same_but_cursors(
        w,
        d,
        resumed(St { pending: pending_after(f.s.pending, of), ..emit_seq(f.s, w, m.0, m.2, of) }),
        dfast_at_anchor(h).s,
    );
    if h.s.pending == 0 {
        lemma_dfast_chain(c, w, d, h);
    }
}

/// A real match above the anchor that reaches past the scan position.
pub open spec fn is_found(c: DfastCfg, w: Seq<u8>, s: St, m: (int, int, int)) -> bool {
    &&& s.anchor <= m.0
    &&& 0 <= m.1 < m.0
    &&& m.2 >= 4
    &&& m.0 + m.2 <= w.len()
    &&& m.0 + m.2 > s.pos
    &&& bytes_agree(w, m.0, m.1, m.2)
    &&& !c.ramp.shallow(c.base + m.1)
    &&& m.0 - m.1 <= c.reach || m.0 - m.1 == s.seed
}

/// What the tests of a step accept are real matches.
pub proof fn lemma_dfast_found(c: DfastCfg, w: Seq<u8>, s: St, e: u32, next: int, e1: u32)
    requires
        c.fits(w),
        in_bounds(w, s),
        s.pos < next <= insert_limit(w),
        s.pos + HASH_READ <= w.len(),
    ensures
        dfast_seed(c, w, s) matches Some(m) ==> is_found(c, w, s, m),
        dfast_long(c, w, s, e) matches Some(m) ==> is_found(c, w, s, m),
        dfast_short(c, w, s, e, next, e1) matches Some(m) ==> is_found(c, w, s, m),
        dfast_rep(c, w, s) ==> common_len(w, s.pos + 1, s.pos + 1 - s.rep.r0) >= 4,
{
    let i = s.pos;
    if s.seed != 0 && i - s.seed >= 0 {
        lemma_try_match(w, c.ramp, c.base as int, i, i - s.seed, w.len() - i, 6, s.anchor);
    }
    let q = candidate(e, c.base + i, i, c.reach as int);
    if q != i {
        lemma_try_match(w, c.ramp, c.base as int, i, q, w.len() - i, 0, s.anchor);
        lemma_common_len(w, i, q);
        if le4(w, q) == le4(w, i) {
            lemma_agree_len(w, i, q, 4);
        }
        if le8(w, q) == le8(w, i) {
            lemma_agree_len(w, i, q, 8);
        }
    }
    let q1 = candidate(e1, c.base + next, next, c.reach as int);
    if q1 != next {
        lemma_try_match(w, c.ramp, c.base as int, next, q1, w.len() - next, 0, s.anchor);
        lemma_common_len(w, next, q1);
    }
    if dfast_rep(c, w, s) {
        lemma_agree_len(w, i + 1, i + 1 - s.rep.r0, 4);
    }
}

/// A read that agrees makes the match at least as long as the read.
pub proof fn lemma_agree_len(w: Seq<u8>, i: int, j: int, n: int)
    requires
        n == 4 && le4(w, j) == le4(w, i) || n == 8 && le8(w, j) == le8(w, i),
        i + n <= w.len(),
    ensures
        common_len(w, i, j) >= n,
{
    lemma_le4_eq(w, i, j);
    lemma_le8_eq(w, i, j);
    lemma_common_len_skip(w, i, j, n);
    lemma_common_len(w, i + n, j + n);
}

/// One step keeps what a scan keeps, and moves the scan forwards.
pub proof fn lemma_dfast_step(c: DfastCfg, w: Seq<u8>, d: Peer, f: DfastSt)
    requires
        dfast_inv(c, w, d, f),
        f.next <= insert_limit(w),
    ensures
        dfast_inv(c, w, d, dfast_step(c, w, f)),
        dfast_step(c, w, f).s.pos > f.s.pos,
{
    broadcast use lemma_mul_hash_range;

    let s = f.s;
    let i = s.pos;
    let el = f.long[long_slot(w, i, c.long_log)];
    let es = f.small[short_slot(w, i, c.small_log, c.width)];
    let g = put_both(c, w, f, i);
    let e1 = g.long[long_slot(w, f.next, c.long_log)];
    lemma_dfast_found(c, w, s, el, f.next, e1);
    let z = DfastSt { s: spend_seed(s), ..g };
    if dfast_rep(c, w, s) {
        let p = i + 1;
        let q = p - s.rep.r0;
        let n = common_len(w, p, q);
        lemma_common_len(w, p, q);
        lemma_rep_is_good(w, s, p, q, n);
        lemma_emit_in_step(w, d, s, p, q, n, 1);
        let e = DfastSt { s: emit_seq(s, w, p, n, 1), ..g };
        lemma_dfast_anchors(c, w, e, i, p + n);
        let h = dfast_anchors(c, w, e, i, p + n);
        lemma_same_but_cursors(
            w,
            d,
            resumed(St { pending: pending_after(s.pending, 1), ..emit_seq(s, w, p, n, 1) }),
            dfast_at_anchor(h).s,
        );
        lemma_dfast_chain(c, w, d, h);
    } else if dfast_seed(c, w, s) is Some {
        lemma_dfast_take(c, w, d, DfastSt { s: count_seed(s), ..g }, dfast_seed(c, w, s)->0, None);
    } else {
        assert(in_step(w, d, z.s));
        lemma_dfast_found(c, w, z.s, el, f.next, e1);
        lemma_dfast_found(c, w, z.s, es, f.next, e1);
        if dfast_long(c, w, z.s, el) is Some {
            lemma_dfast_take(c, w, d, z, dfast_long(c, w, z.s, el)->0, Some(f.next));
        } else if dfast_short(c, w, z.s, es, f.next, e1) is Some {
            lemma_dfast_take(c, w, d, z, dfast_short(c, w, z.s, es, f.next, e1)->0, Some(f.next));
        }
    }
}

/// The scan up to the block's end keeps what a scan keeps.
pub proof fn lemma_dfast_run(c: DfastCfg, w: Seq<u8>, d: Peer, f: DfastSt, starting: bool)
    requires
        dfast_inv(c, w, d, f),
    ensures
        dfast_inv(c, w, d, dfast_run(c, w, f, starting).0),
    decreases
        if w.len() > f.s.pos {
            w.len() - f.s.pos
        } else {
            0
        },
{
    if f.next <= insert_limit(w) {
        lemma_dfast_step(c, w, d, f);
        let g = dfast_step(c, w, f);
        let still = starting && (g.s.seqs.len() == f.s.seqs.len() || at_job_start(g.s));
        lemma_dfast_run(c, w, d, g, still);
    }
}

/// A scan without a seed leaves the seed's counts alone.
pub open spec fn same_seed(a: St, b: St) -> bool {
    a.seed == b.seed && a.hits == b.hits && a.budget == b.budget
}

proof fn lemma_dfast_chain_seed(c: DfastCfg, w: Seq<u8>, f: DfastSt)
    ensures
        same_seed(dfast_chain(c, w, f).s, f.s),
    decreases w.len() - f.s.anchor,
{
    let p = f.s.anchor;
    let q = p - f.s.rep.r1;
    let n = common_len(w, p, q);
    if p <= insert_limit(w) && q >= 0 && !c.ramp.shallow(c.base + q) && le4(w, q) == le4(w, p)
        && MIN_MATCH <= n <= w.len() - p {
        lemma_dfast_chain_seed(c, w, DfastSt { s: emit_seq(f.s, w, p, n, 1), ..put_both(c, w, f, p) });
    }
}

proof fn lemma_dfast_take_seed(c: DfastCfg, w: Seq<u8>, f: DfastSt, m: (int, int, int), ahead: Option<int>)
    ensures
        same_seed(dfast_take(c, w, f, m, ahead).s, f.s),
{
    let g = dfast_anchors(
        c,
        w,
        DfastSt { s: emit_far(f.s, w, m.0, m.1, m.2), ..f },
        f.s.pos,
        m.0 + m.2,
    );
    let h = match ahead {
        Some(i) => if i < m.0 + m.2 {
            DfastSt { long: put_long(g.long, w, i, c.base as int, c.long_log), ..g }
        } else {
            g
        },
        None => g,
    };
    assert(same_seed(h.s, f.s));
    lemma_dfast_chain_seed(c, w, h);
}

proof fn lemma_dfast_run_seed(c: DfastCfg, w: Seq<u8>, f: DfastSt, starting: bool)
    requires
        f.s.seed == 0,
    ensures
        same_seed(dfast_run(c, w, f, starting).0.s, f.s),
    decreases
        if w.len() > f.s.pos {
            w.len() - f.s.pos
        } else {
            0
        },
{
    if f.next <= insert_limit(w) {
        let s = f.s;
        let i = s.pos;
        let el = f.long[long_slot(w, i, c.long_log)];
        let es = f.small[short_slot(w, i, c.small_log, c.width)];
        let g = put_both(c, w, f, i);
        let e1 = g.long[long_slot(w, f.next, c.long_log)];
        if dfast_rep(c, w, s) {
            let p = i + 1;
            let n = common_len(w, p, p - s.rep.r0);
            lemma_dfast_chain_seed(c, w, dfast_anchors(c, w, DfastSt { s: emit_seq(s, w, p, n, 1), ..g }, i, p + n));
        } else if let Some(m) = dfast_long(c, w, s, el) {
            lemma_dfast_take_seed(c, w, g, m, Some(f.next));
        } else if let Some(m) = dfast_short(c, w, s, es, f.next, e1) {
            lemma_dfast_take_seed(c, w, g, m, Some(f.next));
        }
        let h = dfast_step(c, w, f);
        assert(same_seed(h.s, s));
        if f.s.pos < h.s.pos && f.s.pos < w.len() {
            let still = starting && (h.s.seqs.len() == f.s.seqs.len() || at_job_start(h.s));
            lemma_dfast_run_seed(c, w, h, still);
        }
    }
}

/// The scan of a block keeps what a scan keeps.
pub proof fn lemma_dfast_scan(c: DfastCfg, w: Seq<u8>, d: Peer, f: DfastSt)
    requires
        dfast_inv(c, w, d, f),
    ensures
        dfast_inv(c, w, d, dfast_scan(c, w, f)),
{
    lemma_dfast_run(c, w, d, f, at_job_start(f.s));
    let (g, starting) = dfast_run(c, w, f, at_job_start(f.s));
    if starting {
        let r = dfast_restarted(g);
        assert(in_step(w, d, r.s));
        lemma_dfast_run(c, w, d, r, false);
        lemma_dfast_run_seed(c, w, r, false);
        let h = dfast_run(c, w, r, false).0;
        assert(in_step(w, d, St { seed: g.s.seed, ..h.s }));
    }
}

/// A scan on a window that ends early agrees with its decoder as on the whole one.
pub proof fn lemma_dfast_prefix(c: DfastCfg, w: Seq<u8>, d: Peer, f: DfastSt, end: int)
    requires
        c.fits(w),
        w.len() - d.start <= MAX_BLOCK_SIZE,
        0 <= d.start <= f.s.anchor <= end <= w.len(),
    ensures
        dfast_inv(c, w.take(end), d, f) == dfast_inv(c, w, d, f),
{
    let v = w.take(end);
    assert(v.take(d.start) =~= w.take(d.start));
    assert(v.take(f.s.anchor) =~= w.take(f.s.anchor));
}

/// The scan of a gap keeps what a scan keeps, and goes on where the gap ends.
pub proof fn lemma_dfast_gap(c: DfastCfg, w: Seq<u8>, d: Peer, f: DfastSt, end: int)
    requires
        dfast_inv(c, w, d, f),
        w.len() - d.start <= MAX_BLOCK_SIZE,
        f.s.anchor <= end <= w.len(),
    ensures
        dfast_inv(c, w, d, dfast_from(dfast_scan(c, w.take(end), f), end)),
        dfast_inv(c, w.take(end), d, f),
        dfast_inv(c, w.take(end), d, dfast_scan(c, w.take(end), f)),
{
    lemma_dfast_prefix(c, w, d, f, end);
    lemma_dfast_scan(c, w.take(end), d, f);
    let g = dfast_scan(c, w.take(end), f);
    lemma_dfast_prefix(c, w, d, g, end);
}

/// Emitting a candidate keeps what a scan keeps, and moves the scan behind it.
pub proof fn lemma_dfast_far(c: DfastCfg, w: Seq<u8>, d: Peer, ldm: Seq<LdmSeq>, i: int, g: DfastSt)
    requires
        dfast_inv(c, w, d, g),
        w.len() - d.start <= MAX_BLOCK_SIZE,
        ldm_fit(c.base as int, c.ramp, w, d, ldm),
        0 <= i < ldm.len(),
        g.s.anchor <= ldm[i].split - c.base,
        ldm[i].len >= MIN_MATCH,
    ensures
        ({
            let m = ldm_match(c.base as int, c.ramp, w, g.s, ldm[i]);
            let e = far_end(c.base as int, w, ldm, i, m.0 + m.2);
            &&& g.s.anchor <= m.0
            &&& 0 <= m.1 < m.0
            &&& m.2 >= MIN_MATCH
            &&& m.0 + m.2 <= e <= w.len()
            &&& m.0 - m.1 == ldm[i].offset
            &&& m.0 + m.2 >= ldm[i].split - c.base
            &&& bytes_agree(w.take(e), m.0, m.1, m.2)
            &&& !c.ramp.shallow(c.base + m.1) || d.ramp.end == 0
            &&& dfast_inv(c, w.take(e), d, g)
            &&& dfast_inv(c, w.take(e), d, dfast_take(c, w.take(e), g, m, None))
            &&& dfast_inv(c, w, d, dfast_take(c, w.take(e), g, m, None))
        }),
{
    let b = c.base as int;
    assert(ldm_true(w, b, ldm[i]));
    if i + 1 < ldm.len() {
        assert(ldm_true(w, b, ldm[i + 1]));
    }
    let m = ldm_match(b, c.ramp, w, g.s, ldm[i]);
    let e = far_end(b, w, ldm, i, m.0 + m.2);
    lemma_ldm_match(b, c.ramp, w, g.s, ldm[i]);
    let v = w.take(e);
    assert forall|t: int| 0 <= t < m.2 implies #[trigger] v[m.0 + t] == v[m.1 + t] by {
        assert(w[m.0 + t] == w[m.1 + t]);
    }
    lemma_dfast_prefix(c, w, d, g, e);
    lemma_dfast_take(c, v, d, g, m, None);
    lemma_dfast_prefix(c, w, d, dfast_take(c, v, g, m, None), e);
}

/// The scan in segments keeps what a scan keeps.
pub proof fn lemma_dfast_segments(c: DfastCfg, w: Seq<u8>, d: Peer, ldm: Seq<LdmSeq>, i: int, f: DfastSt, won: bool)
    requires
        dfast_inv(c, w, d, f),
        w.len() - d.start <= MAX_BLOCK_SIZE,
        ldm_fit(c.base as int, c.ramp, w, d, ldm),
        0 <= i <= ldm.len(),
    ensures
        dfast_inv(c, w, d, dfast_segments(c, w, ldm, i, f, won).0),
    decreases ldm.len() - i,
{
    let end = segment_end(c.base as int, w, ldm, i);
    if i >= ldm.len() {
        lemma_dfast_scan(c, w, d, f);
    } else if f.s.anchor > end {
        lemma_dfast_segments(c, w, d, ldm, i + 1, f, won);
    } else {
        assert(ldm_true(w, c.base as int, ldm[i]));
        lemma_dfast_gap(c, w, d, f, end);
        let g = dfast_from(dfast_scan(c, w.take(end), f), end);
        if ldm[i].len < MIN_MATCH {
            lemma_dfast_segments(c, w, d, ldm, i + 1, g, won);
        } else {
            lemma_dfast_far(c, w, d, ldm, i, g);
            let m = ldm_match(c.base as int, c.ramp, w, g.s, ldm[i]);
            let h = dfast_take(c, w.take(far_end(c.base as int, w, ldm, i, m.0 + m.2)), g, m, None);
            lemma_skip_covered(ldm, i + 1, c.base + h.s.anchor);
            lemma_dfast_segments(c, w, d, ldm, skip_covered(ldm, i + 1, c.base + h.s.anchor), h, true);
        }
    }
}

/// A scanned block decodes back to itself, and leaves the decoder's history in
/// agreement with the scan's; every source respects the ramp, if every long-distance
/// candidate does.
pub proof fn lemma_dfast_block_decodes(
    c: DfastCfg,
    w: Seq<u8>,
    d: Peer,
    ldm: Seq<LdmSeq>,
    long: Seq<u32>,
    small: Seq<u32>,
    s: St,
)
    requires
        dfast_inv(c, w, d, DfastSt { long, small, s, next: s.pos + 1 }),
        w.len() - d.start <= MAX_BLOCK_SIZE,
        ldm_fit(c.base as int, c.ramp, w, d, ldm),
    ensures
        ({
            let z = dfast_block(c, w, ldm, long, small, s).0.s;
            let r = replay(w.take(d.start), d.rep0, z.lits, z.seqs);
            &&& decodes_to(w.take(d.start), d.rep0, z.lits, z.seqs, w)
            &&& reps_agree(r.rep, z.rep, 3 - z.pending)
            &&& crate::scan::carry_ok(z)
            &&& legal_reads(w, d, z.lits, z.seqs)
            &&& z.rep.within(d.far) && z.seed <= d.far
            &&& paid(d.owed, z.seqs, z.pending)
            &&& long_enough(d.least, d.bar, z.seqs)
            &&& near_enough(d.hop, z.seqs)
            &&& d.same ==> r.rep == z.rep
        }),
        dfast_block(c, w, ldm, long, small, s).0.long.len() == slots(c.long_log),
        dfast_block(c, w, ldm, long, small, s).0.small.len() == slots(c.small_log),
{
    let f = DfastSt { long, small, s, next: s.pos + 1 };
    lemma_dfast_segments(c, w, d, ldm, 0, f, false);
    lemma_block_done(w, d, dfast_segments(c, w, ldm, 0, f, false).0.s);
}

/// A scan with its tables, as held by the executable scan.
pub open spec fn dfast_view(long: Seq<u32>, small: Seq<u32>, lits: Seq<u8>, seqs: Seq<SeqWord>, sc: Scan, next: int) -> DfastSt {
    DfastSt { long, small, s: scan_state(lits, seqs, sc), next }
}

/// Inserts the position at `idx` into both tables.
fn insert_both(c: &DfastCfg, win: &[u8], long: &mut Vec<u32>, small: &mut Vec<u32>, idx: usize)
    requires
        c.fits(win@),
        old(long)@.len() == slots(c.long_log),
        old(small)@.len() == slots(c.small_log),
        idx + HASH_READ <= win@.len(),
    ensures
        final(long)@ == put_long(old(long)@, win@, idx as int, c.base as int, c.long_log),
        final(small)@ == put_short(old(small)@, win@, idx as int, c.base as int, c.small_log, c.width),
        final(long)@.len() == old(long)@.len(),
        final(small)@.len() == old(small)@.len(),
{
    insert_long(c, win, long, idx);
    insert_at(win, small, idx, c.base, c.small_log, c.width);
}

/// Inserts the position at `idx` into the long table.
fn insert_long(c: &DfastCfg, win: &[u8], long: &mut Vec<u32>, idx: usize)
    requires
        c.fits(win@),
        old(long)@.len() == slots(c.long_log),
        idx + HASH_READ <= win@.len(),
    ensures
        final(long)@ == put_long(old(long)@, win@, idx as int, c.base as int, c.long_log),
        final(long)@.len() == old(long)@.len(),
{
    let h: u64 = hash8_at_log(win, idx, c.long_log);
    assert(long@.len() == long.len());
    long.set(h as usize, pack_pos(c.base + idx as u64));
}

/// The last index that can be hashed, or zero.
fn hash_limit(win: &[u8]) -> (r: usize)
    ensures
        r == insert_limit(win@),
{
    if win.len() >= HASH_READ {
        win.len() - HASH_READ
    } else {
        0
    }
}

/// Inserts the anchors of a match.
fn insert_anchors(c: &DfastCfg, win: &[u8], long: &mut Vec<u32>, small: &mut Vec<u32>, cur: usize, end: usize, Ghost(f): Ghost<DfastSt>)
    requires
        f.long == old(long)@,
        f.small == old(small)@,
        c.fits(win@),
        win@.len() >= HASH_READ || end >= 3,
        old(long)@.len() == slots(c.long_log),
        old(small)@.len() == slots(c.small_log),
        cur <= end <= win@.len(),
    ensures
        dfast_anchors(*c, win@, f, cur as int, end as int) == (DfastSt {
            long: final(long)@,
            small: final(small)@,
            ..f
        }),
        final(long)@.len() == old(long)@.len(),
        final(small)@.len() == old(small)@.len(),
{
    let limit: usize = hash_limit(win);
    if cur + 2 <= limit {
        insert_both(c, win, long, small, cur + 2);
    }
    if end >= 2 && end - 2 <= limit {
        insert_long(c, win, long, end - 2);
    }
    if end >= 1 && end - 1 <= limit {
        insert_at(win, small, end - 1, c.base, c.small_log, c.width);
    }
}

/// Emits matches by the second repeated offset as long as they follow each
/// other right at the anchor.
fn chain_dfast(
    c: &DfastCfg,
    win: &[u8],
    long: &mut Vec<u32>,
    small: &mut Vec<u32>,
    literals: &mut Vec<u8>,
    seqs: &mut Vec<SeqWord>,
    sc: &mut Scan,
    Ghost(d): Ghost<Peer>,
    Ghost(next): Ghost<int>,
)
    requires
        dfast_inv(
            *c,
            win@,
            d,
            dfast_at_anchor(
                dfast_view(old(long)@, old(small)@, old(literals)@, old(seqs)@, *old(sc), next),
            ),
        ),
        old(sc).pending == 0,
        win@.len() >= HASH_READ || old(sc).anchor >= 1,
    ensures
        dfast_view(final(long)@, final(small)@, final(literals)@, final(seqs)@, *final(sc), next)
            == dfast_chain(
            *c,
            win@,
            dfast_view(old(long)@, old(small)@, old(literals)@, old(seqs)@, *old(sc), next),
        ),
{
    let ghost f0 = dfast_view(long@, small@, literals@, seqs@, *sc, next);
    let limit: usize = hash_limit(win);
    loop
        invariant
            ({
                let f = dfast_view(long@, small@, literals@, seqs@, *sc, next);
                &&& dfast_inv(*c, win@, d, dfast_at_anchor(f))
                &&& dfast_chain(*c, win@, f) == dfast_chain(*c, win@, f0)
            }),
            sc.pending == 0,
            win@.len() >= HASH_READ || sc.anchor >= 1,
            limit == insert_limit(win@),
        ensures
            dfast_view(long@, small@, literals@, seqs@, *sc, next) == dfast_chain(*c, win@, f0),
        decreases win@.len() - sc.anchor,
    {
        let ghost f = dfast_view(long@, small@, literals@, seqs@, *sc, next);
        let p: usize = sc.anchor;
        if p > limit || sc.rep.r1 as usize > p {
            break;
        }
        let q: usize = p - sc.rep.r1 as usize;
        if c.ramp.blocks(c.base + q as u64) || read4(win, q) != read4(win, p) {
            break;
        }
        let n: usize = extend_match(win, p, q);
        proof {
            lemma_agree_len(win@, p as int, q as int, 4);
            lemma_common_len(win@, p as int, q as int);
            let r = dfast_at_anchor(f).s;
            lemma_swap_is_good(win@, r, q as int, n as int);
            lemma_emit_in_step(win@, d, r, p as int, q as int, n as int, 1);
        }
        insert_both(c, win, long, small, p);
        emit(win, sc, literals, seqs, p, n, 1);
        proof {
            let r = dfast_at_anchor(f).s;
            let g = dfast_view(long@, small@, literals@, seqs@, *sc, next);
            lemma_same_but_cursors(
                win@,
                d,
                resumed(St { pending: pending_after(r.pending, 1), ..emit_seq(r, win@, p as int, n as int, 1) }),
                dfast_at_anchor(g).s,
            );
        }
    }
}

/// Emits a match and resumes the scan behind it. Returns the position that is
/// probed after the next one.
#[verifier::rlimit(30)]
fn take_dfast(
    c: &DfastCfg,
    win: &[u8],
    long: &mut Vec<u32>,
    small: &mut Vec<u32>,
    literals: &mut Vec<u8>,
    seqs: &mut Vec<SeqWord>,
    sc: &mut Scan,
    m: (usize, usize, usize),
    ahead: Option<usize>,
    Ghost(d): Ghost<Peer>,
    Ghost(next): Ghost<int>,
) -> (nx: usize)
    requires
        dfast_inv(
            *c,
            win@,
            d,
            dfast_view(old(long)@, old(small)@, old(literals)@, old(seqs)@, *old(sc), next),
        ),
        old(sc).pos <= m.0 + m.2,
        old(sc).anchor <= m.0,
        m.1 < m.0,
        m.2 >= 3,
        m.0 + m.2 <= win@.len(),
        bytes_agree(win@, m.0 as int, m.1 as int, m.2 as int),
        !c.ramp.shallow(c.base + m.1) || d.ramp.end == 0,
        m.0 - m.1 <= d.far,
        ahead matches Some(i) ==> i + HASH_READ <= win@.len(),
    ensures
        dfast_view(
            final(long)@,
            final(small)@,
            final(literals)@,
            final(seqs)@,
            *final(sc),
            nx as int,
        ) == dfast_take(
            *c,
            win@,
            dfast_view(old(long)@, old(small)@, old(literals)@, old(seqs)@, *old(sc), next),
            (m.0 as int, m.1 as int, m.2 as int),
            match ahead {
                Some(i) => Some(i as int),
                None => None,
            },
        ),
{
    let ghost f = dfast_view(long@, small@, literals@, seqs@, *sc, next);
    let ghost s = f.s;
    let of: u32 = (m.0 - m.1 + 3) as u32;
    let cur: usize = sc.pos;
    let end: usize = m.0 + m.2;
    proof {
        lemma_far_is_good(win@, s, m.0 as int, m.1 as int, m.2 as int);
        lemma_emit_in_step(win@, d, s, m.0 as int, m.1 as int, m.2 as int, of as int);
        let e = DfastSt { s: emit_far(s, win@, m.0 as int, m.1 as int, m.2 as int), ..f };
        lemma_dfast_anchors(*c, win@, e, cur as int, end as int);
    }
    emit(win, sc, literals, seqs, m.0, m.2, of);
    pay_pending(sc);
    let ghost e = emit_far(s, win@, m.0 as int, m.1 as int, m.2 as int);
    assert(scan_state(literals@, seqs@, *sc) =~= e);
    insert_anchors(c, win, long, small, cur, end, Ghost(DfastSt { s: e, ..f }));
    assert(dfast_anchors(*c, win@, DfastSt { s: e, ..f }, cur as int, end as int) == (DfastSt {
        long: long@,
        small: small@,
        s: e,
        next,
    }));
    if let Some(i) = ahead {
        if i < end {
            insert_long(c, win, long, i);
        }
    }
    proof {
        let h = dfast_view(long@, small@, literals@, seqs@, *sc, next);
        lemma_same_but_cursors(
            win@,
            d,
            resumed(
                St {
                    pending: pending_after(s.pending, of as int),
                    ..emit_seq(s, win@, m.0 as int, m.2 as int, of as int)
                },
            ),
            dfast_at_anchor(h).s,
        );
        if h.s.pending == 0 {
            lemma_dfast_chain(*c, win@, d, h);
        }
    }
    if sc.pending == 0 {
        chain_dfast(c, win, long, small, literals, seqs, sc, Ghost(d), Ghost(next));
    }
    sc.pos = sc.anchor;
    sc.anchor + 1
}

/// Tries a match by the seed offset at the scan position.
fn try_seed(c: &DfastCfg, win: &[u8], sc: &Scan) -> (r: Option<(usize, usize, usize)>)
    requires
        c.fits(win@),
        sc.anchor <= sc.pos,
        sc.pos + 4 <= win@.len(),
        win@.len() - sc.anchor <= MAX_BLOCK_SIZE,
    ensures
        forall|l: Seq<u8>, q: Seq<SeqWord>|
            match dfast_seed(*c, win@, #[trigger] scan_state(l, q, *sc)) {
                Some(m) => r matches Some(x) && x.0 == m.0 && x.1 == m.1 && x.2 == m.2,
                None => r is None,
            },
{
    let i: usize = sc.pos;
    if sc.seed == 0 || sc.seed as usize > i {
        return None;
    }
    let q: usize = i - sc.seed as usize;
    if read4(win, q) != read4(win, i) {
        return None;
    }
    let n: usize = extend_match(win, i, q);
    if !pays_for_offset(n, i, q, false) {
        return None;
    }
    test_match(win, c.ramp, c.base, i, q, win.len() - i, 6, sc.anchor)
}

/// Tries a match by the long table's entry.
fn try_long(c: &DfastCfg, win: &[u8], sc: &Scan, e: u32) -> (r: Option<(usize, usize, usize)>)
    requires
        c.fits(win@),
        sc.anchor <= sc.pos,
        sc.pos + HASH_READ <= win@.len(),
    ensures
        forall|l: Seq<u8>, q: Seq<SeqWord>|
            match dfast_long(*c, win@, #[trigger] scan_state(l, q, *sc), e) {
                Some(m) => r matches Some(x) && x.0 == m.0 && x.1 == m.1 && x.2 == m.2,
                None => r is None,
            },
{
    let i: usize = sc.pos;
    let q: usize = resolve(e, c.base + i as u64, i, c.reach);
    if q == i || read8(win, q) != read8(win, i) {
        return None;
    }
    test_match(win, c.ramp, c.base, i, q, win.len() - i, 0, sc.anchor)
}

/// Tries a match by the short table's entry, or the longer one that the long
/// table's entry gives at the next position.
fn try_short(c: &DfastCfg, win: &[u8], sc: &Scan, e: u32, next: usize, e1: u32) -> (r: Option<
    (usize, usize, usize),
>)
    requires
        c.fits(win@),
        sc.anchor <= sc.pos < next,
        next + HASH_READ <= win@.len(),
    ensures
        forall|l: Seq<u8>, q: Seq<SeqWord>|
            match dfast_short(*c, win@, #[trigger] scan_state(l, q, *sc), e, next as int, e1) {
                Some(m) => r matches Some(x) && x.0 == m.0 && x.1 == m.1 && x.2 == m.2,
                None => r is None,
            },
{
    let i: usize = sc.pos;
    let q: usize = resolve(e, c.base + i as u64, i, c.reach);
    if q == i || read4(win, q) != read4(win, i) {
        return None;
    }
    let q1: usize = resolve(e1, c.base + next as u64, next, c.reach);
    if q1 != next && read8(win, q1) == read8(win, next) && extend_match(win, next, q1) > extend_match(
        win,
        i,
        q,
    ) {
        test_match(win, c.ramp, c.base, next, q1, win.len() - next, 0, sc.anchor)
    } else {
        test_match(win, c.ramp, c.base, i, q, win.len() - i, 0, sc.anchor)
    }
}

/// Probes one position. Returns the position that is probed after the next one.
#[verifier::rlimit(60)]
fn step_dfast(
    c: &DfastCfg,
    win: &[u8],
    long: &mut Vec<u32>,
    small: &mut Vec<u32>,
    literals: &mut Vec<u8>,
    seqs: &mut Vec<SeqWord>,
    sc: &mut Scan,
    next: usize,
    Ghost(d): Ghost<Peer>,
) -> (nx: usize)
    requires
        dfast_inv(
            *c,
            win@,
            d,
            dfast_view(old(long)@, old(small)@, old(literals)@, old(seqs)@, *old(sc), next as int),
        ),
        next <= insert_limit(win@),
    ensures
        dfast_view(final(long)@, final(small)@, final(literals)@, final(seqs)@, *final(sc), nx as int)
            == dfast_step(
            *c,
            win@,
            dfast_view(old(long)@, old(small)@, old(literals)@, old(seqs)@, *old(sc), next as int),
        ),
{
    broadcast use lemma_mul_hash_range;

    let ghost f = dfast_view(long@, small@, literals@, seqs@, *sc, next as int);
    assert(long@.len() == long.len());
    assert(small@.len() == small.len());
    let i: usize = sc.pos;
    let hl: u64 = hash8_at_log(win, i, c.long_log);
    let hs: u64 = hash_at_width(win, i, c.small_log, c.width);
    let el: u32 = long[hl as usize];
    let es: u32 = small[hs as usize];
    insert_both(c, win, long, small, i);
    let ghost g = put_both(*c, win@, f, i as int);
    let h1: u64 = hash8_at_log(win, next, c.long_log);
    assert(long@.len() == long.len());
    let e1: u32 = long[h1 as usize];
    proof {
        assert(dfast_inv(*c, win@, d, g));
        lemma_dfast_found(*c, win@, f.s, el, next as int, e1);
    }
    if sc.pending == 0 && sc.rep.r0 as usize <= i + 1 {
        let p: usize = i + 1;
        let q: usize = p - sc.rep.r0 as usize;
        if read4(win, q) == read4(win, p) && !c.ramp.blocks(c.base + q as u64) {
            let n: usize = extend_match(win, p, q);
            let ghost s = f.s;
            proof {
                lemma_common_len(win@, p as int, q as int);
                lemma_rep_is_good(win@, s, p as int, q as int, n as int);
                lemma_emit_in_step(win@, d, s, p as int, q as int, n as int, 1);
                let e = DfastSt { s: emit_seq(s, win@, p as int, n as int, 1), ..g };
                lemma_dfast_anchors(*c, win@, e, i as int, p + n);
            }
            emit(win, sc, literals, seqs, p, n, 1);
            insert_anchors(
                c,
                win,
                long,
                small,
                i,
                p + n,
                Ghost(DfastSt { s: emit_seq(s, win@, p as int, n as int, 1), ..g }),
            );
            proof {
                let h = dfast_view(long@, small@, literals@, seqs@, *sc, next as int);
                lemma_same_but_cursors(
                    win@,
                    d,
                    resumed(St { pending: pending_after(s.pending, 1), ..emit_seq(s, win@, p as int, n as int, 1) }),
                    dfast_at_anchor(h).s,
                );
                lemma_dfast_chain(*c, win@, d, h);
            }
            chain_dfast(c, win, long, small, literals, seqs, sc, Ghost(d), Ghost(next as int));
            sc.pos = sc.anchor;
            return sc.anchor + 1;
        }
    }
    assert(!dfast_rep(*c, win@, f.s));
    if let Some(m) = try_seed(c, win, sc) {
        count_hit(sc);
        return take_dfast(c, win, long, small, literals, seqs, sc, m, None, Ghost(d), Ghost(next as int));
    }
    spend(sc);
    let ghost z = DfastSt { s: spend_seed(f.s), ..g };
    proof {
        assert(scan_state(literals@, seqs@, *sc) == z.s);
        assert(dfast_inv(*c, win@, d, z));
        lemma_dfast_found(*c, win@, z.s, el, next as int, e1);
        lemma_dfast_found(*c, win@, z.s, es, next as int, e1);
    }
    if let Some(m) = try_long(c, win, sc, el) {
        return take_dfast(c, win, long, small, literals, seqs, sc, m, Some(next), Ghost(d), Ghost(next as int));
    }
    if let Some(m) = try_short(c, win, sc, es, next, e1) {
        return take_dfast(c, win, long, small, literals, seqs, sc, m, Some(next), Ghost(d), Ghost(next as int));
    }
    sc.pos = next;
    next + 1 + (next - sc.anchor) / 256
}

/// Scans up to the block's end. Returns whether all matches left the scan in the
/// state of a job start.
fn run_dfast(
    c: &DfastCfg,
    win: &[u8],
    long: &mut Vec<u32>,
    small: &mut Vec<u32>,
    literals: &mut Vec<u8>,
    seqs: &mut Vec<SeqWord>,
    sc: &mut Scan,
    starting: bool,
    Ghost(d): Ghost<Peer>,
) -> (r: (bool, Ghost<int>))
    requires
        dfast_inv(
            *c,
            win@,
            d,
            dfast_view(old(long)@, old(small)@, old(literals)@, old(seqs)@, *old(sc), old(sc).pos + 1),
        ),
        old(sc).pos < usize::MAX,
    ensures
        (dfast_view(final(long)@, final(small)@, final(literals)@, final(seqs)@, *final(sc), r.1@), r.0)
            == dfast_run(
            *c,
            win@,
            dfast_view(old(long)@, old(small)@, old(literals)@, old(seqs)@, *old(sc), old(sc).pos + 1),
            starting,
        ),
        dfast_inv(
            *c,
            win@,
            d,
            dfast_view(final(long)@, final(small)@, final(literals)@, final(seqs)@, *final(sc), r.1@),
        ),
        final(sc).pos <= win@.len() || final(sc).pos == old(sc).pos,
{
    let mut next: usize = sc.pos + 1;
    let mut still: bool = starting;
    let ghost all = dfast_run(
        *c,
        win@,
        dfast_view(long@, small@, literals@, seqs@, *sc, next as int),
        starting,
    );
    let limit: usize = hash_limit(win);
    while next <= limit
        invariant
            dfast_inv(*c, win@, d, dfast_view(long@, small@, literals@, seqs@, *sc, next as int)),
            limit == insert_limit(win@),
            dfast_run(*c, win@, dfast_view(long@, small@, literals@, seqs@, *sc, next as int), still) == all,
            sc.pos <= win@.len() || sc.pos == old(sc).pos,
        decreases
            if win@.len() > sc.pos {
                win@.len() - sc.pos
            } else {
                0
            },
    {
        proof {
            lemma_dfast_step(*c, win@, d, dfast_view(long@, small@, literals@, seqs@, *sc, next as int));
        }
        let before: usize = seqs.len();
        next = step_dfast(c, win, long, small, literals, seqs, sc, next, Ghost(d));
        if seqs.len() != before && sc.pending == 0 && sc.seed == 0 {
            still = false;
        }
    }
    (still, Ghost(next as int))
}

/// Scans up to the window's end.
fn scan_dfast(
    c: &DfastCfg,
    win: &[u8],
    long: &mut Vec<u32>,
    small: &mut Vec<u32>,
    literals: &mut Vec<u8>,
    seqs: &mut Vec<SeqWord>,
    sc: &mut Scan,
    Ghost(d): Ghost<Peer>,
) -> (next: Ghost<int>)
    requires
        dfast_inv(
            *c,
            win@,
            d,
            dfast_view(old(long)@, old(small)@, old(literals)@, old(seqs)@, *old(sc), old(sc).pos + 1),
        ),
        old(sc).pos < usize::MAX,
    ensures
        dfast_view(final(long)@, final(small)@, final(literals)@, final(seqs)@, *final(sc), next@) == dfast_scan(
            *c,
            win@,
            dfast_view(old(long)@, old(small)@, old(literals)@, old(seqs)@, *old(sc), old(sc).pos + 1),
        ),
{
    let starting: bool = sc.pending != 0 || sc.seed != 0;
    let (still, Ghost(next)): (bool, Ghost<int>) = run_dfast(
        c,
        win,
        long,
        small,
        literals,
        seqs,
        sc,
        starting,
        Ghost(d),
    );
    if still {
        let ghost g = dfast_view(long@, small@, literals@, seqs@, *sc, next);
        let seed: u32 = sc.seed;
        sc.seed = 0;
        assert(dfast_view(long@, small@, literals@, seqs@, *sc, sc.pos + 1) == dfast_restarted(g));
        assert(in_step(win@, d, dfast_restarted(g).s));
        let (_, last): (bool, Ghost<int>) = run_dfast(c, win, long, small, literals, seqs, sc, false, Ghost(d));
        sc.seed = seed;
        return last;
    }
    Ghost(next)
}

/// Scans one block: emits its sequences and the literals behind the last one,
/// and leaves the cursors at its end. Returns whether a long-distance candidate
/// was emitted.
#[verifier::rlimit(40)]
pub fn start_matching_dfast(
    c: &DfastCfg,
    win: &[u8],
    ldm: &Vec<LdmSeq>,
    long: &mut Vec<u32>,
    small: &mut Vec<u32>,
    literals: &mut Vec<u8>,
    seqs: &mut Vec<SeqWord>,
    sc: &mut Scan,
) -> (won: bool)
    requires
        c.fits(win@),
        old(long)@.len() == slots(c.long_log),
        old(small)@.len() == slots(c.small_log),
        old(literals)@.len() == 0,
        old(seqs)@.len() == 0,
        in_bounds(win@, scan_state(old(literals)@, old(seqs)@, *old(sc))),
        old(sc).pos == old(sc).anchor,
        forall|k: int| 0 <= k < ldm@.len() ==> #[trigger] ldm_true(win@, c.base as int, ldm@[k]),
    ensures
        ({
            let (f, ldm_won) = dfast_block(
                *c,
                win@,
                ldm@,
                old(long)@,
                old(small)@,
                scan_state(old(literals)@, old(seqs)@, *old(sc)),
            );
            &&& final(long)@ == f.long
            &&& final(small)@ == f.small
            &&& scan_state(final(literals)@, final(seqs)@, *final(sc)) == f.s
            &&& won == ldm_won
        }),
{
    let ghost d = Peer { start: sc.anchor as int, rep0: sc.rep, base: c.base as int, ramp: RampGate::off_gate(), far: u64::MAX as int, owed: sc.pending as int, least: 3, bar: 3, hop: u64::MAX as int, same: true };
    let ghost f0 = dfast_view(long@, small@, literals@, seqs@, *sc, sc.pos + 1);
    proof {
        assert(literals@ =~= Seq::empty());
        assert(seqs@ =~= Seq::empty());
        crate::sequence::lemma_synced_start(win@, d.start, d.rep0, sc.rep, sc.pending as int);
        crate::sequence::lemma_nothing_paid(d.owed, d.least, d.bar);
    }
    let mut won: bool = false;
    let mut i: usize = 0;
    assert(win@.len() == win.len());
    while i < ldm.len()
        invariant
            i <= ldm@.len(),
            dfast_inv(*c, win@, d, dfast_view(long@, small@, literals@, seqs@, *sc, sc.pos + 1)),
            sc.pos <= win@.len(),
            win@.len() - d.start <= MAX_BLOCK_SIZE,
            ldm_fit(c.base as int, c.ramp, win@, d, ldm@),
            win@.len() == win.len(),
            dfast_segments(
                *c,
                win@,
                ldm@,
                i as int,
                dfast_view(long@, small@, literals@, seqs@, *sc, sc.pos + 1),
                won,
            ) == dfast_segments(*c, win@, ldm@, 0, f0, false),
        decreases ldm@.len() - i,
    {
        let q: LdmSeq = ldm[i];
        assert(ldm_true(win@, c.base as int, ldm@[i as int]));
        let end: usize = (q.split - c.base) as usize;
        if sc.anchor > end {
            i = i + 1;
            continue;
        }
        let gap: &[u8] = vstd::slice::slice_subrange(win, 0, end);
        let ghost f = dfast_view(long@, small@, literals@, seqs@, *sc, sc.pos + 1);
        proof {
            assert(gap@ =~= win@.take(end as int));
            lemma_dfast_gap(*c, win@, d, f, end as int);
        }
        let Ghost(next) = scan_dfast(c, gap, long, small, literals, seqs, sc, Ghost(d));
        sc.pos = end;
        let ghost g = dfast_view(long@, small@, literals@, seqs@, *sc, sc.pos + 1);
        assert(g == dfast_from(dfast_scan(*c, win@.take(end as int), f), end as int));
        if (q.len as usize) < MIN_MATCH {
            i = i + 1;
            continue;
        }
        let cand: usize = end - q.offset as usize;
        proof {
            lemma_dfast_far(*c, win@, d, ldm@, i as int, g);
        }
        let k: usize = extend_back(win, end, cand, sc.anchor, c.ramp.ext_floor(cand, c.base));
        let m: (usize, usize, usize) = (end - k, cand - k, q.len as usize + k);
        assert(ldm_match(c.base as int, c.ramp, win@, g.s, q) == (m.0 as int, m.1 as int, m.2 as int));
        let mut upto: usize = win.len();
        if i + 1 < ldm.len() {
            assert(ldm_true(win@, c.base as int, ldm@[i + 1]));
            upto = (ldm[i + 1].split - c.base) as usize;
        }
        if upto <= m.0 + m.2 {
            upto = m.0 + m.2;
        }
        assert(upto == far_end(c.base as int, win@, ldm@, i as int, m.0 + m.2));
        let span: &[u8] = vstd::slice::slice_subrange(win, 0, upto);
        assert(span@ =~= win@.take(upto as int));
        take_dfast(c, span, long, small, literals, seqs, sc, m, None, Ghost(d), Ghost(g.next));
        won = true;
        i = i + 1;
        let ghost j0 = i as int;
        proof {
            lemma_skip_covered(ldm@, j0, c.base + sc.anchor);
        }
        while i < ldm.len() && ldm[i].split < c.base + sc.anchor as u64
            invariant
                j0 <= i <= ldm@.len(),
                c.base + sc.anchor <= u64::MAX,
                skip_covered(ldm@, i as int, c.base + sc.anchor) == skip_covered(
                    ldm@,
                    j0,
                    c.base + sc.anchor,
                ),
            decreases ldm@.len() - i,
        {
            i = i + 1;
        }
    }
    scan_dfast(c, win, long, small, literals, seqs, sc, Ghost(d));
    if seqs.len() > 0 && sc.anchor < win.len() {
        append(literals, win, sc.anchor, win.len());
    }
    sc.pos = win.len();
    sc.anchor = win.len();
    won
}

} // verus!
