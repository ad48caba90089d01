//! The single-probe scan: one hash table, two positions probed together, and
//! repeated offsets tried before the table.

use vstd::prelude::*;
use crate::gates::{CoveredFill, RampGate, DENSE_BAR_MIN_DIST, DENSE_STEP_AFTER};
use crate::hash::{bytes_agree, common_len, extend_back, extend_match, hash_at_log, le4, lemma_common_len, lemma_common_len_skip, lemma_le4_eq, lemma_mul_hash_range, read4, short_slot, slots, ChainHashWidth, HASH_READ, MIN_MATCH, back_len, lemma_back_len};
use crate::price::{pays_flat, pays_for_offset, pays_for_offset_lit, pays_lit};
use crate::scan::{bounded_len, count_hit, count_seed, emit, emit_far, emit_seq, in_bounds, in_step, lemma_emit_in_step, lemma_far_is_good, lemma_rep_is_good, lemma_swap_is_good, lemma_try_match, pay_pending, resumed, scan_state, spend, Peer, spend_seed, test_match, try_match, with_tail, LdmSeq, Scan, St, MAX_BLOCK_SIZE, legal_reads, lemma_block_done};
use crate::seq_codes::SeqWord;
use crate::sequence::{decodes_to, long_enough, near_enough, paid, pending_after, replay, reps_agree};
use crate::tables::{append, candidate, covered, insert_at, insert_covered, insert_limit, lemma_covered_len, put_short, resolve, WIN_MAX};

verus! {

/// Constants of one block's scan.
#[derive(Clone, Copy, PartialEq, Eq, Structural, Debug)]
pub struct FastCfg {
    /// Absolute position of the window's first byte.
    pub base: u64,
    /// Log of the table.
    pub log: u32,
    /// Farthest distance of a table candidate.
    pub reach: usize,
    /// Which positions of a match are indexed.
    pub fill: CoveredFill,
    /// Job-start ramp.
    pub ramp: RampGate,
    /// Whether far matches are priced and long runs of misses stepped over.
    pub dense: bool,
    /// Whether the small-input policy applies: shorter matches, slower steps.
    pub small_wide: bool,
}

/// A scan with its table.
#[verifier::ext_equal]
pub struct FastSt {
    pub t: Seq<u32>,
    pub s: St,
}

impl FastCfg {
    /// The configuration fits a window.
    pub open spec fn fits(self, w: Seq<u8>) -> bool {
        &&& 1 <= self.log < 32
        &&& w.len() <= WIN_MAX
        &&& self.base + w.len() < u64::MAX
    }

    /// Shortest table match that is accepted.
    pub open spec fn min_len(self) -> int {
        if self.small_wide {
            4
        } else {
            6
        }
    }

    /// How far a pair of misses moves the scan, per position of the pair.
    pub open spec fn step(self, miss: int) -> int {
        let m = if self.small_wide {
            miss / 128
        } else {
            miss / 4
        };
        let step = 1 + if m < 255 {
            m
        } else {
            255
        };
        if self.dense && miss > DENSE_STEP_AFTER {
            2 * step
        } else {
            step
        }
    }
}

/// The scan after emitting a match and indexing what it covers.
pub open spec fn fast_emit(c: FastCfg, w: Seq<u8>, t: Seq<u32>, s: St, start: int, ml: int) -> FastSt {
    FastSt {
        t: covered(t, w, start, ml, insert_limit(w), c.base as int, c.log, c.fill),
        s,
    }
}

/// Matches by the second repeated offset that follow each other right at the
/// anchor, as long as there are any before `end`.
pub open spec fn fast_chain(c: FastCfg, w: Seq<u8>, f: FastSt, end: int) -> FastSt
    decreases w.len() - f.s.anchor,
{
    let p = f.s.anchor;
    let q = p - f.s.rep.r1;
    let n = common_len(w, p, q);
    if p + MIN_MATCH <= end && q >= 0 && !c.ramp.shallow(c.base + q) && le4(w, q) == le4(w, p)
        && MIN_MATCH <= n <= w.len() - p {
        fast_chain(c, w, fast_emit(c, w, f.t, emit_seq(f.s, w, p, n, 1), p, n), end)
    } else {
        f
    }
}

/// The scan after an emission: the chain of repeated offsets where they may be
/// named, and the next probe at the anchor.
pub open spec fn fast_resume(c: FastCfg, w: Seq<u8>, f: FastSt, end: int) -> FastSt {
    let g = if f.s.pending == 0 {
        fast_chain(c, w, f, end)
    } else {
        f
    };
    FastSt { s: resumed(g.s), ..g }
}

/// Position at which the newest repeated offset is tried: one byte ahead if no
/// literal is pending, so that one is.
pub open spec fn rep_probe(s: St) -> int {
    if s.pos == s.anchor {
        s.pos + 1
    } else {
        s.pos
    }
}

/// Whether four bytes at `i` repeat those `r` bytes before, with repeated
/// offsets allowed.
pub open spec fn rep_agrees(w: Seq<u8>, s: St, i: int) -> bool {
    s.pending == 0 && s.rep.r0 <= i && le4(w, i - s.rep.r0) == le4(w, i)
}

/// A match by the newest repeated offset at `i`.
pub open spec fn fast_rep(c: FastCfg, w: Seq<u8>, s: St, i: int, end: int) -> Option<(int, int, int)> {
    try_match(w, c.ramp, c.base as int, i, i - s.rep.r0, end - i, MIN_MATCH as int, s.anchor + 1)
}

/// A match by the seed offset at the scan position.
pub open spec fn fast_seed(c: FastCfg, w: Seq<u8>, s: St, end: int) -> Option<(int, int, int)> {
    let i = s.pos;
    let q = i - s.seed;
    if s.seed != 0 && q >= 0 && le4(w, q) == le4(w, i) && pays_flat(
        bounded_len(w, i, q, end - i),
        s.seed,
    ) {
        try_match(w, c.ramp, c.base as int, i, q, end - i, 6, s.anchor)
    } else {
        None
    }
}

/// A match by the table entry `e` at `i`.
pub open spec fn fast_hash(
    c: FastCfg,
    w: Seq<u8>,
    lens: Seq<u8>,
    s: St,
    e: u32,
    i: int,
    end: int,
) -> Option<(int, int, int)> {
    let q = candidate(e, c.base + i, i, c.reach as int);
    if q != i && le4(w, q) == le4(w, i) {
        match try_match(w, c.ramp, c.base as int, i, q, end - i, c.min_len(), s.anchor) {
            Some(m) => if !c.dense || m.0 - m.1 < DENSE_BAR_MIN_DIST || pays_lit(
                w,
                m.0,
                m.2,
                m.0 - m.1,
                lens,
            ) {
                Some(m)
            } else {
                None
            },
            None => None,
        }
    } else {
        None
    }
}

/// The scan after emitting the table or seed match `m`.
pub open spec fn fast_take(c: FastCfg, w: Seq<u8>, t: Seq<u32>, s: St, m: (int, int, int), end: int) -> FastSt {
    fast_resume(c, w, fast_emit(c, w, t, emit_far(s, w, m.0, m.1, m.2), m.0, m.2), end)
}

/// The scan after emitting the repeated-offset match `m`.
pub open spec fn fast_take_rep(c: FastCfg, w: Seq<u8>, t: Seq<u32>, s: St, m: (int, int, int), end: int) -> FastSt {
    fast_resume(c, w, fast_emit(c, w, t, emit_seq(s, w, m.0, m.2, 1), m.0, m.2), end)
}

/// The scan after probing one pair of positions, with the segment ending at
/// `end`. Both positions enter the table. Tried in turn: the newest repeated
/// offset, the seed, the first position's entry, the repeated offset at the
/// second position, and the second position's entry; a pair without a match is
/// stepped over.
pub open spec fn fast_step(c: FastCfg, w: Seq<u8>, lens: Seq<u8>, f: FastSt, end: int) -> FastSt {
    let s = f.s;
    let i0 = s.pos;
    let pair = end - i0 > HASH_READ;
    let i1 = if pair {
        i0 + 1
    } else {
        i0
    };
    let five = ChainHashWidth::Five;
    let e0 = f.t[short_slot(w, i0, c.log, five)];
    let e1 = f.t[short_slot(w, i1, c.log, five)];
    let t1 = put_short(f.t, w, i0, c.base as int, c.log, five);
    let t = if pair {
        put_short(t1, w, i1, c.base as int, c.log, five)
    } else {
        t1
    };
    let p = rep_probe(s);
    let first = rep_agrees(w, s, p);
    let second = s.rep.r0 <= p && !first && pair && rep_agrees(w, s, i1);
    match (if first {
        fast_rep(c, w, s, p, end)
    } else {
        None
    }) {
        Some(m) => fast_take_rep(c, w, t, s, m, end),
        None => match fast_seed(c, w, s, end) {
            Some(m) => fast_take(c, w, t, count_seed(s), m, end),
            None => {
                let s = spend_seed(s);
                match fast_hash(c, w, lens, s, e0, i0, end) {
                    Some(m) => fast_take(c, w, t, s, m, end),
                    None => match (if second {
                        fast_rep(c, w, s, i1, end)
                    } else {
                        None
                    }) {
                        Some(m) => fast_take_rep(c, w, t, s, m, end),
                        None => match fast_hash(c, w, lens, s, e1, i1, end) {
                            Some(m) => fast_take(c, w, t, s, m, end),
                            None => {
                                let miss = add_miss(s.miss, if pair {
                                    2
                                } else {
                                    1
                                });
                                let pos = if pair {
                                    i0 + 2 * c.step(miss)
                                } else {
                                    i0 + c.step(miss)
                                };
                                FastSt { t, s: St { miss, pos, ..s } }
                            },
                        },
                    },
                }
            },
        },
    }
}

/// A run of misses, longer by `n`.
pub open spec fn add_miss(miss: int, n: int) -> int {
    if miss + n <= u64::MAX {
        miss + n
    } else {
        u64::MAX as int
    }
}

/// The scan of a segment up to `end`.
pub open spec fn fast_run(c: FastCfg, w: Seq<u8>, lens: Seq<u8>, f: FastSt, end: int) -> FastSt
    decreases
        if end > f.s.pos {
            end - f.s.pos
        } else {
            0
        },
{
    if end - f.s.pos >= HASH_READ {
        let g = fast_step(c, w, lens, f, end);
        if g.s.pos > f.s.pos {
            fast_run(c, w, lens, g, end)
        } else {
            g
        }
    } else {
        f
    }
}

/// What a scan keeps, besides its table: agreement with a decoder whose ramp is
/// the scan's own or off.
pub open spec fn fast_inv(c: FastCfg, w: Seq<u8>, d: Peer, f: FastSt) -> bool {
    &&& c.fits(w)
    &&& f.t.len() == slots(c.log)
    &&& in_step(w, d, f.s)
    &&& d.base == c.base
    &&& d.least <= 3 && d.bar <= 3
    &&& d.ramp == c.ramp || d.ramp.end == 0
    &&& c.reach <= d.far <= d.hop
}

/// The chain of repeated offsets keeps what a scan keeps, and moves the anchor
/// forwards.
pub proof fn lemma_fast_chain(c: FastCfg, w: Seq<u8>, d: Peer, f: FastSt, end: int)
    requires
        fast_inv(c, w, d, FastSt { s: resumed(f.s), ..f }),
        f.s.pending == 0,
    ensures
        fast_inv(c, w, d, FastSt { s: resumed(fast_chain(c, w, f, end).s), ..fast_chain(c, w, f, end) }),
        fast_chain(c, w, f, end).s.anchor >= f.s.anchor,
        fast_chain(c, w, f, end).s.pending == 0,
    decreases w.len() - f.s.anchor,
{
    let p = f.s.anchor;
    let q = p - f.s.rep.r1;
    let n = common_len(w, p, q);
    if p + MIN_MATCH <= end && q >= 0 && !c.ramp.shallow(c.base + q) && le4(w, q) == le4(w, p)
        && MIN_MATCH <= n <= w.len() - p {
        let r = resumed(f.s);
        let g = fast_emit(c, w, f.t, emit_seq(f.s, w, p, n, 1), p, n);
        lemma_common_len(w, p, q);
        lemma_swap_is_good(w, r, q, n);
        lemma_emit_in_step(w, d, r, p, q, n, 1);
        lemma_covered_len(f.t, w, p, n, insert_limit(w), c.base as int, c.log, c.fill);
        assert(resumed(g.s) =~= resumed(St { pending: pending_after(r.pending, 1), ..emit_seq(r, w, p, n, 1) }));
        lemma_fast_chain(c, w, d, g, end);
    }
}

/// Emitting a match by its literal offset keeps what a scan keeps.
pub proof fn lemma_fast_take(c: FastCfg, w: Seq<u8>, d: Peer, t: Seq<u32>, s: St, m: (int, int, int), end: int)
    requires
        fast_inv(c, w, d, FastSt { t, s }),
        s.anchor <= m.0,
        0 <= m.1 < m.0,
        m.2 >= 3,
        m.0 + m.2 <= w.len(),
        bytes_agree(w, m.0, m.1, m.2),
        !c.ramp.shallow(c.base + m.1) || d.ramp.end == 0,
        m.0 - m.1 <= d.far,
    ensures
        fast_inv(c, w, d, fast_take(c, w, t, s, m, end)),
        fast_take(c, w, t, s, m, end).s.pos >= m.0 + m.2,
        fast_take(c, w, t, s, m, end).s.pos == fast_take(c, w, t, s, m, end).s.anchor,
{
    let of = m.0 - m.1 + 3;
    lemma_far_is_good(w, s, m.0, m.1, m.2);
    lemma_emit_in_step(w, d, s, m.0, m.1, m.2, of);
    lemma_covered_len(t, w, m.0, m.2, insert_limit(w), c.base as int, c.log, c.fill);
    let g = fast_emit(c, w, t, emit_far(s, w, m.0, m.1, m.2), m.0, m.2);
    assert(resumed(g.s) =~= resumed(St { pending: pending_after(s.pending, of), ..emit_seq(s, w, m.0, m.2, of) }));
    if g.s.pending == 0 {
        lemma_fast_chain(c, w, d, g, end);
    }
}

/// Emitting a match by the newest repeated offset keeps what a scan keeps.
pub proof fn lemma_fast_take_rep(c: FastCfg, w: Seq<u8>, d: Peer, t: Seq<u32>, s: St, m: (int, int, int), end: int)
    requires
        fast_inv(c, w, d, FastSt { t, s }),
        s.anchor < m.0,
        0 <= m.1 < m.0,
        m.0 - m.1 == s.rep.r0,
        s.pending == 0,
        m.2 >= 3,
        m.0 + m.2 <= w.len(),
        bytes_agree(w, m.0, m.1, m.2),
        !c.ramp.shallow(c.base + m.1),
    ensures
        fast_inv(c, w, d, fast_take_rep(c, w, t, s, m, end)),
        fast_take_rep(c, w, t, s, m, end).s.pos >= m.0 + m.2,
{
    lemma_rep_is_good(w, s, m.0, m.1, m.2);
    lemma_emit_in_step(w, d, s, m.0, m.1, m.2, 1);
    lemma_covered_len(t, w, m.0, m.2, insert_limit(w), c.base as int, c.log, c.fill);
    let g = fast_emit(c, w, t, emit_seq(s, w, m.0, m.2, 1), m.0, m.2);
    assert(resumed(g.s) =~= resumed(St { pending: pending_after(s.pending, 1), ..emit_seq(s, w, m.0, m.2, 1) }));
    lemma_fast_chain(c, w, d, g, end);
}

/// What the tests of a step accept are real matches above the anchor.
pub proof fn lemma_fast_found(c: FastCfg, w: Seq<u8>, lens: Seq<u8>, s: St, e: u32, i: int, end: int)
    requires
        c.fits(w),
        in_bounds(w, s),
        s.pos <= i <= s.pos + 1,
        i + 4 <= end <= w.len(),
    ensures
        fast_hash(c, w, lens, s, e, i, end) matches Some(m) ==> {
            &&& s.anchor <= m.0 <= i
            &&& 0 <= m.1 < m.0
            &&& m.0 - m.1 <= c.reach
            &&& m.2 >= 4
            &&& m.0 + m.2 <= w.len()
            &&& m.0 + m.2 > s.pos
            &&& bytes_agree(w, m.0, m.1, m.2)
            &&& !c.ramp.shallow(c.base + m.1)
        },
        i == s.pos && fast_seed(c, w, s, end) is Some ==> {
            let m = fast_seed(c, w, s, end)->0;
            &&& s.anchor <= m.0 <= i
            &&& 0 <= m.1 < m.0
            &&& m.0 - m.1 == s.seed
            &&& m.2 >= 4
            &&& m.0 + m.2 <= w.len()
            &&& m.0 + m.2 > s.pos
            &&& bytes_agree(w, m.0, m.1, m.2)
            &&& !c.ramp.shallow(c.base + m.1)
        },
        s.anchor < i && rep_agrees(w, s, i) && fast_rep(c, w, s, i, end) is Some ==> {
            let m = fast_rep(c, w, s, i, end)->0;
            &&& s.anchor < m.0 <= i
            &&& 0 <= m.1 < m.0
            &&& m.0 - m.1 == s.rep.r0
            &&& m.2 >= 4
            &&& m.0 + m.2 <= w.len()
            &&& m.0 + m.2 > s.pos
            &&& bytes_agree(w, m.0, m.1, m.2)
            &&& !c.ramp.shallow(c.base + m.1)
        },
{
    let q = candidate(e, c.base + i, i, c.reach as int);
    if q != i {
        lemma_try_match(w, c.ramp, c.base as int, i, q, end - i, c.min_len(), s.anchor);
    }
    if s.seed != 0 && s.pos - s.seed >= 0 {
        lemma_try_match(w, c.ramp, c.base as int, s.pos, s.pos - s.seed, end - s.pos, 6, s.anchor);
    }
    if s.anchor < i && s.rep.r0 <= i {
        lemma_try_match(w, c.ramp, c.base as int, i, i - s.rep.r0, end - i, MIN_MATCH as int, s.anchor + 1);
    }
}

/// One step keeps what a scan keeps, and moves the scan forwards.
pub proof fn lemma_fast_step(c: FastCfg, w: Seq<u8>, lens: Seq<u8>, d: Peer, f: FastSt, end: int)
    requires
        fast_inv(c, w, d, f),
        f.s.pos + HASH_READ <= end <= w.len(),
    ensures
        fast_inv(c, w, d, fast_step(c, w, lens, f, end)),
        fast_step(c, w, lens, f, end).s.pos > f.s.pos,
        fast_step(c, w, lens, f, end).s.pos <= w.len() + 1024,
{
    broadcast use lemma_mul_hash_range;

    let s = f.s;
    let i0 = s.pos;
    let pair = end - i0 > HASH_READ;
    let i1 = if pair {
        i0 + 1
    } else {
        i0
    };
    let five = ChainHashWidth::Five;
    let e0 = f.t[short_slot(w, i0, c.log, five)];
    let e1 = f.t[short_slot(w, i1, c.log, five)];
    let t1 = put_short(f.t, w, i0, c.base as int, c.log, five);
    let t = if pair {
        put_short(t1, w, i1, c.base as int, c.log, five)
    } else {
        t1
    };
    let p = rep_probe(s);
    assert(fast_inv(c, w, d, FastSt { t, s }));
    assert(in_step(w, d, count_seed(s)) || s.seed == 0);
    lemma_fast_found(c, w, lens, s, e0, i0, end);
    lemma_fast_found(c, w, lens, s, e0, p, end);
    if rep_agrees(w, s, p) && fast_rep(c, w, s, p, end) is Some {
        lemma_fast_take_rep(c, w, d, t, s, fast_rep(c, w, s, p, end)->0, end);
    } else if fast_seed(c, w, s, end) is Some {
        lemma_fast_take(c, w, d, t, count_seed(s), fast_seed(c, w, s, end)->0, end);
    } else {
        let z = spend_seed(s);
        assert(in_step(w, d, z));
        lemma_fast_found(c, w, lens, z, e0, i0, end);
        lemma_fast_found(c, w, lens, z, e1, i1, end);
        if fast_hash(c, w, lens, z, e0, i0, end) is Some {
            lemma_fast_take(c, w, d, t, z, fast_hash(c, w, lens, z, e0, i0, end)->0, end);
        } else {
            if fast_hash(c, w, lens, z, e1, i1, end) is Some {
                lemma_fast_take(c, w, d, t, z, fast_hash(c, w, lens, z, e1, i1, end)->0, end);
            }
            if pair && rep_agrees(w, z, i1) && fast_rep(c, w, z, i1, end) is Some {
                lemma_fast_take_rep(c, w, d, t, z, fast_rep(c, w, z, i1, end)->0, end);
            }
        }
    }
}

/// A scan with its table, as held by the executable scan.
pub open spec fn fast_view(t: Seq<u32>, lits: Seq<u8>, seqs: Seq<SeqWord>, sc: Scan) -> FastSt {
    FastSt { t, s: scan_state(lits, seqs, sc) }
}

/// Emits matches by the second repeated offset as long as they follow each
/// other right at the anchor.
fn chain_fast(
    c: &FastCfg,
    win: &[u8],
    table: &mut Vec<u32>,
    literals: &mut Vec<u8>,
    seqs: &mut Vec<SeqWord>,
    sc: &mut Scan,
    end: usize,
    Ghost(d): Ghost<Peer>,
)
    requires
        ({
            let f = fast_view(old(table)@, old(literals)@, old(seqs)@, *old(sc));
            fast_inv(*c, win@, d, FastSt { s: resumed(f.s), ..f })
        }),
        old(sc).pending == 0,
        end <= win@.len(),
    ensures
        fast_view(final(table)@, final(literals)@, final(seqs)@, *final(sc)) == fast_chain(
            *c,
            win@,
            fast_view(old(table)@, old(literals)@, old(seqs)@, *old(sc)),
            end as int,
        ),
{
    let ghost f0 = fast_view(table@, literals@, seqs@, *sc);
    loop
        invariant
            ({
                let f = fast_view(table@, literals@, seqs@, *sc);
                &&& fast_inv(*c, win@, d, FastSt { s: resumed(f.s), ..f })
                &&& fast_chain(*c, win@, f, end as int) == fast_chain(*c, win@, f0, end as int)
            }),
            sc.pending == 0,
            end <= win@.len(),
        ensures
            fast_view(table@, literals@, seqs@, *sc) == fast_chain(*c, win@, f0, end as int),
        decreases win@.len() - sc.anchor,
    {
        let ghost f = fast_view(table@, literals@, seqs@, *sc);
        let p: usize = sc.anchor;
        if end < p || end - p < MIN_MATCH || sc.rep.r1 as usize > p {
            break;
        }
        let q: usize = p - sc.rep.r1 as usize;
        if c.ramp.blocks(c.base + q as u64) || read4(win, q) != read4(win, p) {
            break;
        }
        let n: usize = extend_match(win, p, q);
        proof {
            lemma_le4_eq(win@, p as int, q as int);
            lemma_common_len_skip(win@, p as int, q as int, 4);
            lemma_common_len(win@, p as int, q as int);
            lemma_common_len(win@, p + 4, q + 4);
            let r = resumed(f.s);
            lemma_swap_is_good(win@, r, q as int, n as int);
            lemma_emit_in_step(win@, d, r, p as int, q as int, n as int, 1);
            lemma_covered_len(table@, win@, p as int, n as int, insert_limit(win@), c.base as int, c.log, c.fill);
        }
        emit(win, sc, literals, seqs, p, n, 1);
        insert_covered(win, table, p, n, c.base, c.log, c.fill);
        proof {
            let r = resumed(f.s);
            let g = fast_view(table@, literals@, seqs@, *sc);
            assert(resumed(g.s) =~= resumed(
                St { pending: pending_after(r.pending, 1), ..emit_seq(r, win@, p as int, n as int, 1) },
            ));
        }
    }
}

/// Emits a match and resumes the scan behind it.
fn take_fast(
    c: &FastCfg,
    win: &[u8],
    table: &mut Vec<u32>,
    literals: &mut Vec<u8>,
    seqs: &mut Vec<SeqWord>,
    sc: &mut Scan,
    m: (usize, usize, usize),
    rep: bool,
    end: usize,
    Ghost(d): Ghost<Peer>,
)
    requires
        fast_inv(*c, win@, d, fast_view(old(table)@, old(literals)@, old(seqs)@, *old(sc))),
        end <= win@.len(),
        old(sc).anchor <= m.0,
        m.1 < m.0,
        m.2 >= 3,
        m.0 + m.2 <= win@.len(),
        bytes_agree(win@, m.0 as int, m.1 as int, m.2 as int),
        !c.ramp.shallow(c.base + m.1) || (d.ramp.end == 0 && !rep),
        m.0 - m.1 <= d.far,
        rep ==> old(sc).anchor < m.0 && m.0 - m.1 == old(sc).rep.r0 && old(sc).pending == 0,
    ensures
        ({
            let s = scan_state(old(literals)@, old(seqs)@, *old(sc));
            let x = (m.0 as int, m.1 as int, m.2 as int);
            fast_view(final(table)@, final(literals)@, final(seqs)@, *final(sc)) == if rep {
                fast_take_rep(*c, win@, old(table)@, s, x, end as int)
            } else {
                fast_take(*c, win@, old(table)@, s, x, end as int)
            }
        }),
{
    let ghost s = scan_state(literals@, seqs@, *sc);
    let of: u32 = if rep {
        1
    } else {
        (m.0 - m.1 + 3) as u32
    };
    proof {
        if rep {
            lemma_rep_is_good(win@, s, m.0 as int, m.1 as int, m.2 as int);
        } else {
            lemma_far_is_good(win@, s, m.0 as int, m.1 as int, m.2 as int);
        }
        lemma_emit_in_step(win@, d, s, m.0 as int, m.1 as int, m.2 as int, of as int);
        lemma_covered_len(table@, win@, m.0 as int, m.2 as int, insert_limit(win@), c.base as int, c.log, c.fill);
    }
    emit(win, sc, literals, seqs, m.0, m.2, of);
    insert_covered(win, table, m.0, m.2, c.base, c.log, c.fill);
    if !rep {
        pay_pending(sc);
    }
    proof {
        let g = fast_view(table@, literals@, seqs@, *sc);
        let e = emit_seq(s, win@, m.0 as int, m.2 as int, of as int);
        assert(g.s =~= (if rep {
            e
        } else {
            emit_far(s, win@, m.0 as int, m.1 as int, m.2 as int)
        }));
        assert(resumed(g.s) =~= resumed(St { pending: pending_after(s.pending, of as int), ..e }));
    }
    if sc.pending == 0 {
        chain_fast(c, win, table, literals, seqs, sc, end, Ghost(d));
    }
    sc.pos = sc.anchor;
    sc.miss = 0;
}

/// Tries a match by the newest repeated offset at `i`, which must agree there.
fn try_rep(c: &FastCfg, win: &[u8], sc: &Scan, i: usize, end: usize) -> (r: Option<(usize, usize, usize)>)
    requires
        c.fits(win@),
        1 <= sc.rep.r0 <= i,
        sc.anchor < i,
        i <= end <= win@.len(),
    ensures
        forall|s: St|
            s.rep == sc.rep && s.anchor == sc.anchor ==> match #[trigger] fast_rep(*c, win@, s, i as int, end as int) {
                Some(m) => r matches Some(x) && x.0 == m.0 && x.1 == m.1 && x.2 == m.2,
                None => r is None,
            },
{
    test_match(win, c.ramp, c.base, i, i - sc.rep.r0 as usize, end - i, MIN_MATCH, sc.anchor + 1)
}

/// Tries a match by the seed offset at the scan position.
fn try_seed(c: &FastCfg, win: &[u8], sc: &Scan, end: usize) -> (r: Option<(usize, usize, usize)>)
    requires
        c.fits(win@),
        sc.anchor <= sc.pos,
        sc.pos + 4 <= end <= win@.len(),
        end - sc.anchor <= MAX_BLOCK_SIZE,
    ensures
        forall|l: Seq<u8>, q: Seq<SeqWord>|
            match fast_seed(*c, win@, #[trigger] scan_state(l, q, *sc), end as int) {
                Some(m) => r matches Some(x) && x.0 == m.0 && x.1 == m.1 && x.2 == m.2,
                None => r is None,
            },
{
    let i: usize = sc.pos;
    if sc.seed == 0 || sc.seed as usize > i {
        return None;
    }
    let q: usize = i - sc.seed as usize;
    if read4(win, q) != read4(win, i) {
        return None;
    }
    let mut n: usize = extend_match(win, i, q);
    if n >= end - i {
        n = end - i;
    }
    if !pays_for_offset(n, i, q, false) {
        return None;
    }
    test_match(win, c.ramp, c.base, i, q, end - i, 6, sc.anchor)
}

/// Tries a match by the table entry `e` at `i`.
fn try_hash(c: &FastCfg, win: &[u8], lit_lens: &[u8; 256], sc: &Scan, e: u32, i: usize, end: usize) -> (r: Option<
    (usize, usize, usize),
>)
    requires
        c.fits(win@),
        sc.anchor <= i,
        i + 4 <= end <= win@.len(),
        end - sc.anchor <= MAX_BLOCK_SIZE,
    ensures
        forall|s: St|
            s.anchor == sc.anchor ==> match #[trigger] fast_hash(*c, win@, lit_lens@, s, e, i as int, end as int) {
                Some(m) => r matches Some(x) && x.0 == m.0 && x.1 == m.1 && x.2 == m.2,
                None => r is None,
            },
{
    let q: usize = resolve(e, c.base + i as u64, i, c.reach);
    if q == i || read4(win, q) != read4(win, i) {
        return None;
    }
    let min: usize = if c.small_wide {
        4
    } else {
        6
    };
    proof {
        lemma_try_match(win@, c.ramp, c.base as int, i as int, q as int, end - i, min as int, sc.anchor as int);
    }
    match test_match(win, c.ramp, c.base, i, q, end - i, min, sc.anchor) {
        Some(m) => {
            if !c.dense || m.0 - m.1 < DENSE_BAR_MIN_DIST || pays_for_offset_lit(
                win,
                m.0,
                m.2,
                m.1,
                false,
                lit_lens,
            ) {
                Some(m)
            } else {
                None
            }
        },
        None => None,
    }
}

/// Probes one pair of positions.
#[verifier::rlimit(40)]
fn step_fast(
    c: &FastCfg,
    win: &[u8],
    lit_lens: &[u8; 256],
    table: &mut Vec<u32>,
    literals: &mut Vec<u8>,
    seqs: &mut Vec<SeqWord>,
    sc: &mut Scan,
    end: usize,
    Ghost(d): Ghost<Peer>,
)
    requires
        fast_inv(*c, win@, d, fast_view(old(table)@, old(literals)@, old(seqs)@, *old(sc))),
        old(sc).pos + HASH_READ <= end <= win@.len(),
    ensures
        fast_view(final(table)@, final(literals)@, final(seqs)@, *final(sc)) == fast_step(
            *c,
            win@,
            lit_lens@,
            fast_view(old(table)@, old(literals)@, old(seqs)@, *old(sc)),
            end as int,
        ),
{
    broadcast use lemma_mul_hash_range;

    let ghost f = fast_view(table@, literals@, seqs@, *sc);
    assert(table@.len() == table.len());
    let i0: usize = sc.pos;
    let pair: bool = end - i0 > HASH_READ;
    let i1: usize = if pair {
        i0 + 1
    } else {
        i0
    };
    let h0: u64 = hash_at_log(win, i0, c.log);
    let h1: u64 = hash_at_log(win, i1, c.log);
    let e0: u32 = table[h0 as usize];
    let e1: u32 = table[h1 as usize];
    insert_at(win, table, i0, c.base, c.log, ChainHashWidth::Five);
    if pair {
        insert_at(win, table, i1, c.base, c.log, ChainHashWidth::Five);
    }
    let ghost t = table@;
    let r: usize = sc.rep.r0 as usize;
    let p: usize = if i0 == sc.anchor {
        i0 + 1
    } else {
        i0
    };
    let open: bool = sc.pending == 0 && r <= p;
    let first: bool = open && read4(win, p - r) == read4(win, p);
    let second: bool = open && !first && pair && r <= i1 && read4(win, i1 - r) == read4(win, i1);
    proof {
        assert(fast_inv(*c, win@, d, FastSt { t, s: f.s }));
        lemma_fast_found(*c, win@, lit_lens@, f.s, e0, i0 as int, end as int);
        lemma_fast_found(*c, win@, lit_lens@, f.s, e0, p as int, end as int);
    }
    if first {
        if let Some(m) = try_rep(c, win, sc, p, end) {
            take_fast(c, win, table, literals, seqs, sc, m, true, end, Ghost(d));
            return;
        }
    }
    if let Some(m) = try_seed(c, win, sc, end) {
        count_hit(sc);
        take_fast(c, win, table, literals, seqs, sc, m, false, end, Ghost(d));
        return;
    }
    spend(sc);
    let ghost z = spend_seed(f.s);
    proof {
        assert(scan_state(literals@, seqs@, *sc) == z);
        assert(fast_inv(*c, win@, d, FastSt { t, s: z }));
        lemma_fast_found(*c, win@, lit_lens@, z, e0, i0 as int, end as int);
        lemma_fast_found(*c, win@, lit_lens@, z, e1, i1 as int, end as int);
    }
    if let Some(m) = try_hash(c, win, lit_lens, sc, e0, i0, end) {
        take_fast(c, win, table, literals, seqs, sc, m, false, end, Ghost(d));
        return;
    }
    if second {
        if let Some(m) = try_rep(c, win, sc, i1, end) {
            take_fast(c, win, table, literals, seqs, sc, m, true, end, Ghost(d));
            return;
        }
    }
    if let Some(m) = try_hash(c, win, lit_lens, sc, e1, i1, end) {
        take_fast(c, win, table, literals, seqs, sc, m, false, end, Ghost(d));
        return;
    }
    let n: u64 = if pair {
        2
    } else {
        1
    };
    sc.miss = sc.miss.saturating_add(n);
    let m: u64 = if c.small_wide {
        sc.miss / 128
    } else {
        sc.miss / 4
    };
    let mut step: usize = 1 + if m < 255 {
        m as usize
    } else {
        255
    };
    if c.dense && sc.miss > DENSE_STEP_AFTER as u64 {
        step = 2 * step;
    }
    if pair {
        sc.pos = i0 + 2 * step;
    } else {
        sc.pos = i0 + step;
    }
}

/// The scan of a segment keeps what a scan keeps.
pub proof fn lemma_fast_run(c: FastCfg, w: Seq<u8>, lens: Seq<u8>, d: Peer, f: FastSt, end: int)
    requires
        fast_inv(c, w, d, f),
        end <= w.len(),
        f.s.pos <= w.len() + 1024,
    ensures
        fast_inv(c, w, d, fast_run(c, w, lens, f, end)),
        fast_run(c, w, lens, f, end).s.pos <= w.len() + 1024,
    decreases
        if end > f.s.pos {
            end - f.s.pos
        } else {
            0
        },
{
    if end - f.s.pos >= HASH_READ {
        lemma_fast_step(c, w, lens, d, f, end);
        lemma_fast_run(c, w, lens, d, fast_step(c, w, lens, f, end), end);
    }
}

/// Scans a segment up to `end`.
fn run_fast(
    c: &FastCfg,
    win: &[u8],
    lit_lens: &[u8; 256],
    table: &mut Vec<u32>,
    literals: &mut Vec<u8>,
    seqs: &mut Vec<SeqWord>,
    sc: &mut Scan,
    end: usize,
    Ghost(d): Ghost<Peer>,
)
    requires
        fast_inv(*c, win@, d, fast_view(old(table)@, old(literals)@, old(seqs)@, *old(sc))),
        end <= win@.len(),
    ensures
        fast_view(final(table)@, final(literals)@, final(seqs)@, *final(sc)) == fast_run(
            *c,
            win@,
            lit_lens@,
            fast_view(old(table)@, old(literals)@, old(seqs)@, *old(sc)),
            end as int,
        ),
{
    let ghost f0 = fast_view(table@, literals@, seqs@, *sc);
    while sc.pos <= end && end - sc.pos >= HASH_READ
        invariant
            fast_inv(*c, win@, d, fast_view(table@, literals@, seqs@, *sc)),
            end <= win@.len(),
            fast_run(
                *c,
                win@,
                lit_lens@,
                fast_view(table@, literals@, seqs@, *sc),
                end as int,
            ) == fast_run(*c, win@, lit_lens@, f0, end as int),
        decreases
            if end > sc.pos {
                end - sc.pos
            } else {
                0
            },
    {
        proof {
            lemma_fast_step(*c, win@, lit_lens@, d, fast_view(table@, literals@, seqs@, *sc), end as int);
        }
        step_fast(c, win, lit_lens, table, literals, seqs, sc, end, Ghost(d));
    }
}

/// A long-distance candidate that is what it says: inside the window, with a
/// source before it whose bytes agree.
pub open spec fn ldm_true(w: Seq<u8>, base: int, q: LdmSeq) -> bool {
    let i = q.split - base;
    &&& 0 <= i
    &&& i + q.len <= w.len()
    &&& 1 <= q.offset <= i
    &&& bytes_agree(w, i, i - q.offset, q.len as int)
}

/// The match that a long-distance candidate gives: its span, extended backwards
/// into the pending literals.
pub open spec fn ldm_match(base: int, ramp: RampGate, w: Seq<u8>, s: St, q: LdmSeq) -> (int, int, int) {
    let i = q.split - base;
    let k = back_len(w, i, i - q.offset, s.anchor, ramp.back_floor(i - q.offset, base));
    (i - k, i - q.offset - k, q.len + k)
}

/// First candidate at or after `i` whose split is not behind `at`.
pub open spec fn skip_covered(ldm: Seq<LdmSeq>, i: int, at: int) -> int
    decreases ldm.len() - i,
{
    if i < ldm.len() && ldm[i].split < at {
        skip_covered(ldm, i + 1, at)
    } else {
        i
    }
}

/// End of the segment that the candidate `i` closes.
pub open spec fn segment_end(base: int, w: Seq<u8>, ldm: Seq<LdmSeq>, i: int) -> int {
    if i < ldm.len() {
        ldm[i].split - base
    } else {
        w.len() as int
    }
}

/// The scan of a block in segments, from candidate `i` on: each candidate ends a
/// segment at its split and is emitted there whole, unless an emission already
/// covers the split or the candidate is too short. The flag says whether any was
/// emitted.
pub open spec fn fast_segments(
    c: FastCfg,
    w: Seq<u8>,
    lens: Seq<u8>,
    ldm: Seq<LdmSeq>,
    i: int,
    f: FastSt,
    won: bool,
) -> (FastSt, bool)
    decreases ldm.len() - i,
{
    let end = segment_end(c.base as int, w, ldm, i);
    let g = fast_run(c, w, lens, f, end);
    if i >= ldm.len() {
        (g, won)
    } else if g.s.anchor > end {
        fast_segments(c, w, lens, ldm, i + 1, g, won)
    } else if ldm[i].len < MIN_MATCH {
        fast_segments(c, w, lens, ldm, i + 1, FastSt { s: St { pos: end, ..g.s }, ..g }, won)
    } else {
        let m = ldm_match(c.base as int, c.ramp, w, g.s, ldm[i]);
        let h = fast_take(c, w, g.t, g.s, m, segment_end(c.base as int, w, ldm, i + 1));
        let j = skip_covered(ldm, i + 1, c.base + h.s.anchor);
        if i < j <= ldm.len() {
            fast_segments(c, w, lens, ldm, j, h, true)
        } else {
            (h, true)
        }
    }
}

/// The scan of a whole block: its segments, then the literals behind the last
/// match. The cursors end at the block's end.
pub open spec fn fast_block(c: FastCfg, w: Seq<u8>, lens: Seq<u8>, ldm: Seq<LdmSeq>, f: FastSt) -> (
    FastSt,
    bool,
) {
    let (g, won) = fast_segments(c, w, lens, ldm, 0, f, false);
    (FastSt { s: St { pos: w.len() as int, anchor: w.len() as int, ..with_tail(g.s, w) }, ..g }, won)
}

/// Skipping covered candidates never goes back.
pub proof fn lemma_skip_covered(ldm: Seq<LdmSeq>, i: int, at: int)
    ensures
        skip_covered(ldm, i, at) >= i,
        i <= ldm.len() ==> skip_covered(ldm, i, at) <= ldm.len(),
    decreases ldm.len() - i,
{
    if i < ldm.len() && ldm[i].split < at {
        lemma_skip_covered(ldm, i + 1, at);
    }
}

/// A true candidate gives a real match above the anchor.
pub proof fn lemma_ldm_match(base: int, ramp: RampGate, w: Seq<u8>, s: St, q: LdmSeq)
    requires
        base >= 0,
        ldm_true(w, base, q),
        s.anchor <= q.split - base,
        0 <= s.anchor,
    ensures
        ({
            let m = ldm_match(base, ramp, w, s, q);
            &&& s.anchor <= m.0
            &&& 0 <= m.1 < m.0
            &&& m.2 >= q.len
            &&& m.0 + m.2 <= w.len()
            &&& m.0 - m.1 == q.offset
            &&& bytes_agree(w, m.0, m.1, m.2)
            &&& !ramp.shallow(q.split - q.offset) ==> !ramp.shallow(base + m.1)
        }),
{
    let i = q.split - base;
    let cand = i - q.offset;
    let cf = ramp.back_floor(cand, base);
    let k = back_len(w, i, cand, s.anchor, cf);
    lemma_back_len(w, i, cand, s.anchor, cf);
    if k > 0 && !ramp.shallow(base + cand) {
        crate::gates::lemma_back_floor_legal(ramp, base, cand, cand - k);
    }
    assert forall|t: int| 0 <= t < q.len + k implies #[trigger] w[i - k + t] == w[cand - k + t] by {
        if t >= k {
            assert(w[i + (t - k)] == w[cand + (t - k)]);
        }
    }
}

/// What a scan in segments needs of its candidates: they are true, within the
/// decoder's reach, and legal reads where a ramp counts.
pub open spec fn ldm_fit(base: int, ramp: RampGate, w: Seq<u8>, d: Peer, ldm: Seq<LdmSeq>) -> bool {
    &&& forall|k: int| 0 <= k < ldm.len() ==> #[trigger] ldm_true(w, base, ldm[k])
    &&& forall|k: int| 0 <= k < ldm.len() ==> (#[trigger] ldm[k]).offset <= d.far
    &&& d.ramp.end == 0 || forall|k: int|
        0 <= k < ldm.len() ==> !ramp.shallow((#[trigger] ldm[k]).split - ldm[k].offset)
}

/// The scan in segments keeps what a scan keeps.
pub proof fn lemma_fast_segments(
    c: FastCfg,
    w: Seq<u8>,
    lens: Seq<u8>,
    d: Peer,
    ldm: Seq<LdmSeq>,
    i: int,
    f: FastSt,
    won: bool,
)
    requires
        fast_inv(c, w, d, f),
        f.s.pos <= w.len() + 1024,
        ldm_fit(c.base as int, c.ramp, w, d, ldm),
        0 <= i <= ldm.len(),
    ensures
        fast_inv(c, w, d, fast_segments(c, w, lens, ldm, i, f, won).0),
    decreases ldm.len() - i,
{
    let end = segment_end(c.base as int, w, ldm, i);
    if i < ldm.len() {
        assert(ldm_true(w, c.base as int, ldm[i]));
    }
    lemma_fast_run(c, w, lens, d, f, end);
    let g = fast_run(c, w, lens, f, end);
    if i < ldm.len() {
        if g.s.anchor > end {
            lemma_fast_segments(c, w, lens, d, ldm, i + 1, g, won);
        } else if ldm[i].len < MIN_MATCH {
            lemma_fast_segments(c, w, lens, d, ldm, i + 1, FastSt { s: St { pos: end, ..g.s }, ..g }, won);
        } else {
            let m = ldm_match(c.base as int, c.ramp, w, g.s, ldm[i]);
            lemma_ldm_match(c.base as int, c.ramp, w, g.s, ldm[i]);
            lemma_fast_take(c, w, d, g.t, g.s, m, segment_end(c.base as int, w, ldm, i + 1));
            let h = fast_take(c, w, g.t, g.s, m, segment_end(c.base as int, w, ldm, i + 1));
            lemma_skip_covered(ldm, i + 1, c.base + h.s.anchor);
            lemma_fast_segments(c, w, lens, d, ldm, skip_covered(ldm, i + 1, c.base + h.s.anchor), h, true);
        }
    }
}

/// A scanned block decodes back to itself: whatever the decoder's history was,
/// as long as it agrees with the scan's where repeated offsets may be named, the
/// emitted literals and sequences rebuild the window up to the block's end, and
/// leave the decoder's history in agreement with the scan's. Every source
/// respects the ramp, if every long-distance candidate does.
pub proof fn lemma_fast_block_decodes(
    c: FastCfg,
    w: Seq<u8>,
    lens: Seq<u8>,
    d: Peer,
    ldm: Seq<LdmSeq>,
    f: FastSt,
)
    requires
        fast_inv(c, w, d, f),
        f.s.pos <= w.len(),
        ldm_fit(c.base as int, c.ramp, w, d, ldm),
    ensures
        ({
            let s = fast_block(c, w, lens, ldm, f).0.s;
            let r = replay(w.take(d.start), d.rep0, s.lits, s.seqs);
            &&& decodes_to(w.take(d.start), d.rep0, s.lits, s.seqs, w)
            &&& reps_agree(r.rep, s.rep, 3 - s.pending)
            &&& crate::scan::carry_ok(s)
            &&& legal_reads(w, d, s.lits, s.seqs)
            &&& s.rep.within(d.far) && s.seed <= d.far
            &&& paid(d.owed, s.seqs, s.pending)
            &&& long_enough(d.least, d.bar, s.seqs)
            &&& near_enough(d.hop, s.seqs)
            &&& d.same ==> r.rep == s.rep
        }),
        fast_block(c, w, lens, ldm, f).0.t.len() == slots(c.log),
{
    lemma_fast_segments(c, w, lens, d, ldm, 0, f, false);
    let g = fast_segments(c, w, lens, ldm, 0, f, false).0;
    lemma_block_done(w, d, g.s);
}

/// Scans one block: emits its sequences and the literals behind the last one,
/// and leaves the cursors at its end. Returns whether a long-distance candidate
/// was emitted.
pub fn start_matching_fast(
    c: &FastCfg,
    win: &[u8],
    lit_lens: &[u8; 256],
    ldm: &Vec<LdmSeq>,
    table: &mut Vec<u32>,
    literals: &mut Vec<u8>,
    seqs: &mut Vec<SeqWord>,
    sc: &mut Scan,
) -> (won: bool)
    requires
        c.fits(win@),
        old(table)@.len() == slots(c.log),
        old(literals)@.len() == 0,
        old(seqs)@.len() == 0,
        in_bounds(win@, scan_state(old(literals)@, old(seqs)@, *old(sc))),
        old(sc).pos == old(sc).anchor,
        forall|k: int| 0 <= k < ldm@.len() ==> #[trigger] ldm_true(win@, c.base as int, ldm@[k]),
    ensures
        ({
            let (f, ldm_won) = fast_block(
                *c,
                win@,
                lit_lens@,
                ldm@,
                fast_view(old(table)@, old(literals)@, old(seqs)@, *old(sc)),
            );
            &&& fast_view(final(table)@, final(literals)@, final(seqs)@, *final(sc)) == f
            &&& won == ldm_won
        }),
{
    let ghost d = Peer { start: sc.anchor as int, rep0: sc.rep, base: c.base as int, ramp: RampGate::off_gate(), far: u64::MAX as int, owed: sc.pending as int, least: 3, bar: 3, hop: u64::MAX as int, same: true };
    let ghost f0 = fast_view(table@, literals@, seqs@, *sc);
    proof {
        assert(literals@ =~= Seq::empty());
        assert(seqs@ =~= Seq::empty());
        crate::sequence::lemma_synced_start(win@, d.start, d.rep0, sc.rep, sc.pending as int);
        crate::sequence::lemma_nothing_paid(d.owed, d.least, d.bar);
    }
    let mut won: bool = false;
    let mut i: usize = 0;
    assert(win@.len() == win.len());
    while i < ldm.len()
        invariant
            i <= ldm@.len(),
            fast_inv(*c, win@, d, fast_view(table@, literals@, seqs@, *sc)),
            sc.pos <= win@.len() + 1024,
            d.ramp.end == 0,
            ldm_fit(c.base as int, c.ramp, win@, d, ldm@),
            win@.len() == win.len(),
            fast_segments(
                *c,
                win@,
                lit_lens@,
                ldm@,
                i as int,
                fast_view(table@, literals@, seqs@, *sc),
                won,
            ) == fast_segments(*c, win@, lit_lens@, ldm@, 0, f0, false),
        decreases ldm@.len() - i,
    {
        let q: LdmSeq = ldm[i];
        assert(ldm_true(win@, c.base as int, ldm@[i as int]));
        let end: usize = (q.split - c.base) as usize;
        proof {
            lemma_fast_run(*c, win@, lit_lens@, d, fast_view(table@, literals@, seqs@, *sc), end as int);
        }
        run_fast(c, win, lit_lens, table, literals, seqs, sc, end, Ghost(d));
        if sc.anchor > end {
            i = i + 1;
        } else if (q.len as usize) < MIN_MATCH {
            sc.pos = end;
            i = i + 1;
        } else {
            let ghost s = scan_state(literals@, seqs@, *sc);
            let cand: usize = end - q.offset as usize;
            let k: usize = extend_back(win, end, cand, sc.anchor, c.ramp.ext_floor(cand, c.base));
            proof {
                lemma_ldm_match(c.base as int, c.ramp, win@, s, q);
            }
            let m: (usize, usize, usize) = (end - k, cand - k, q.len as usize + k);
            let mut bound: usize = win.len();
            if i + 1 < ldm.len() {
                assert(ldm_true(win@, c.base as int, ldm@[i + 1]));
                bound = (ldm[i + 1].split - c.base) as usize;
            }
            proof {
                lemma_fast_take(
                    *c,
                    win@,
                    d,
                    table@,
                    s,
                    (m.0 as int, m.1 as int, m.2 as int),
                    bound as int,
                );
            }
            take_fast(c, win, table, literals, seqs, sc, m, false, bound, Ghost(d));
            won = true;
            i = i + 1;
            let ghost j0 = i as int;
            while i < ldm.len() && ldm[i].split < c.base + sc.anchor as u64
                invariant
                    j0 <= i <= ldm@.len(),
                    c.base + sc.anchor <= u64::MAX,
                    skip_covered(ldm@, i as int, c.base + sc.anchor) == skip_covered(
                        ldm@,
                        j0,
                        c.base + sc.anchor,
                    ),
                decreases ldm@.len() - i,
            {
                i = i + 1;
            }
        }
    }
    proof {
        lemma_fast_run(
            *c,
            win@,
            lit_lens@,
            d,
            fast_view(table@, literals@, seqs@, *sc),
            win@.len() as int,
        );
    }
    run_fast(c, win, lit_lens, table, literals, seqs, sc, win.len(), Ghost(d));
    if seqs.len() > 0 && sc.anchor < win.len() {
        append(literals, win, sc.anchor, win.len());
    }
    sc.pos = win.len();
    sc.anchor = win.len();
    won
}

} // verus!
