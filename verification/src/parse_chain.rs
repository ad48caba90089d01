//! The hash-chain scan: candidates along the chain of a position's hash, with
//! deferred selection.

use vstd::prelude::*;
use crate::chains::{chain_best, chain_search, insert_linked_at, insert_linked_covered, insert_linked_match, insert_linked_range, lemma_chain_walk, lemma_link_as, lemma_link_fills, lemma_link_range, link_as, link_covered, link_match, link_range, Heads, LinkCfg, WalkCfg};
use crate::gates::{CoveredFill, RampGate};
use crate::hash::{common_len, extend_match, hash_at_width, le4, lemma_common_len, read4, HASH_READ, MIN_MATCH};
use crate::lazy::{choose_final, choose_first, final_pick, finds_within, first_pick, found_at, good_pick, is_worth_storing, lemma_agree4, lemma_first_pick, lemma_lazy_walk, lemma_pick_match, pick_match, widen, worth_storing, Choice, Finder, Pick, PickCfg};
use crate::parse_fast::{add_miss, lemma_skip_covered, skip_covered};
use crate::scan::{count_hit, count_seed, emit, emit_far, emit_seq, in_bounds, in_step, legal_reads, lemma_block_done, lemma_emit_in_step, lemma_far_is_good, lemma_rep_is_good, lemma_swap_is_good, pay_pending, resumed, scan_state, spend, spend_seed, with_tail, LdmSeq, Peer, Scan, St, MAX_BLOCK_SIZE};
use crate::seq_codes::SeqWord;
use crate::sequence::{decodes_to, long_enough, near_enough, paid, pending_after, replay, reps_agree};
use crate::tables::{append, insert_limit};

verus! {

/// Constants of one block's scan.
#[derive(Clone, Copy, PartialEq, Eq, Structural, Debug)]
pub struct ChainCfg {
    pub link: LinkCfg,
    pub walk: WalkCfg,
    pub pick: PickCfg,
    /// Which positions of a match are linked.
    pub fill: CoveredFill,
}

/// A scan with its tables, the first long-distance candidate not passed yet,
/// whether one has beaten the chain's match, and the first position that the
/// dictionary rows' catch-up fill has not linked.
#[verifier::ext_equal]
pub struct ChainSt {
    pub h: Heads,
    pub s: St,
    pub li: int,
    pub won: bool,
    pub filled: int,
}

impl ChainCfg {
    /// The parts of the configuration agree with each other.
    pub open spec fn coherent(self) -> bool {
        &&& self.pick.base == self.link.base
        &&& self.pick.ramp == self.walk.ramp
        &&& self.pick.min_match >= 1
    }
}

/// The chain's best match for a position.
pub open spec fn chain_find(c: ChainCfg, w: Seq<u8>, h: Heads) -> spec_fn(int) -> (int, int) {
    |i: int| chain_best(c.link, c.walk, w, h.ch, i, h.t[c.link.slot(w, i)])
}

/// Whether the candidate `q` sits at the scan position, and its length there
/// beats the length `n`.
pub open spec fn ldm_beats(c: ChainCfg, w: Seq<u8>, i: int, q: LdmSeq, n: int) -> bool {
    let j = i - q.offset;
    q.split == c.link.base + i && 0 <= j < i && le4(w, j) == le4(w, i) && common_len(w, i, j) > n
}

/// The scan after moving past the candidates behind the anchor.
pub open spec fn ldm_skip(c: ChainCfg, ldm: Seq<LdmSeq>, f: ChainSt) -> int {
    skip_covered(ldm, f.li, c.link.base + f.s.anchor)
}

/// The search result at the scan position, with a long-distance candidate that
/// starts there in competition.
pub open spec fn chain_found(c: ChainCfg, w: Seq<u8>, ldm: Seq<LdmSeq>, f: ChainSt) -> (int, int) {
    let i = f.s.pos;
    let b = chain_find(c, w, f.h)(i);
    let li = ldm_skip(c, ldm, f);
    if li < ldm.len() && ldm_beats(c, w, i, ldm[li], b.0) {
        (common_len(w, i, i - ldm[li].offset), i - ldm[li].offset)
    } else {
        b
    }
}

/// First candidate not passed after the scan position, and whether one has won.
pub open spec fn ldm_after(c: ChainCfg, w: Seq<u8>, ldm: Seq<LdmSeq>, f: ChainSt) -> (int, bool) {
    let i = f.s.pos;
    let li = ldm_skip(c, ldm, f);
    if li < ldm.len() {
        (
            if ldm[li].split == c.link.base + i {
                li + 1
            } else {
                li
            },
            f.won || ldm_beats(c, w, i, ldm[li], chain_find(c, w, f.h)(i).0),
        )
    } else {
        (li, f.won)
    }
}

/// Matches by the second repeated offset that follow each other right at the
/// anchor.
pub open spec fn chain_reps(c: ChainCfg, w: Seq<u8>, f: ChainSt) -> ChainSt
    decreases w.len() - f.s.anchor,
{
    let p = f.s.anchor;
    let q = p - f.s.rep.r1;
    let n = common_len(w, p, q);
    if p + MIN_MATCH <= w.len() && q >= 0 && !c.pick.ramp.shallow(c.link.base + q) && le4(w, q) == le4(
        w,
        p,
    ) && MIN_MATCH <= n <= w.len() - p {
        chain_reps(
            c,
            w,
            ChainSt {
                h: link_covered(c.link, w, f.h, p, n, c.fill),
                s: emit_seq(f.s, w, p, n, 1),
                ..f
            },
        )
    } else {
        f
    }
}

/// The later of two positions.
pub open spec fn later(a: int, b: int) -> int {
    if a < b {
        b
    } else {
        a
    }
}

/// How far a fill up to `upto` gets: the tail that is too short to hash stays out.
pub open spec fn fill_stop(w: Seq<u8>, upto: int) -> int {
    if upto < insert_limit(w) {
        upto
    } else {
        insert_limit(w)
    }
}

/// The scan after the catch-up fill below `upto`: a dictionary row links, in this
/// order and once, every position that the scan has stepped over. The other rows
/// keep what their steps and fills have linked.
pub open spec fn chain_caught(c: ChainCfg, w: Seq<u8>, f: ChainSt, upto: int) -> ChainSt {
    if c.pick.dict_row {
        ChainSt {
            h: link_range(c.link, w, f.h, f.filled, fill_stop(w, upto), 1),
            filled: later(f.filled, fill_stop(w, upto)),
            ..f
        }
    } else {
        f
    }
}

/// The scan after emitting the choice `k`. A choice that was deferred has positions
/// before it that nothing has linked, and the catch-up fill takes those first; what
/// the matches cover is then linked too.
pub open spec fn chain_take(c: ChainCfg, w: Seq<u8>, x: ChainSt, k: Pick) -> ChainSt {
    let m = pick_match(c.pick, w, x.s, k);
    let f = chain_caught(c, w, x, m.0);
    let e = if k.rep {
        emit_seq(f.s, w, m.0, m.2, 1)
    } else {
        emit_far(f.s, w, m.0, m.1, m.2)
    };
    let g = ChainSt {
        h: link_match(c.link, w, f.h, m.0, m.2, c.fill),
        s: if k.seed {
            count_seed(e)
        } else {
            e
        },
        ..f
    };
    let z = if g.s.pending == 0 {
        chain_reps(c, w, g)
    } else {
        g
    };
    ChainSt { s: resumed(z.s), filled: later(z.filled, fill_stop(w, z.s.anchor)), ..z }
}

/// Step over a miss: the dictionary rows' grows with the pending literals, the
/// others' with the run of misses.
pub open spec fn miss_step(dict_row: bool, literals: int, miss: int) -> int {
    if dict_row {
        1 + literals / 256
    } else if miss / 4 < 255 {
        1 + miss / 4
    } else {
        256
    }
}

/// The scan after probing one position: the catch-up fill below it, and the probe.
pub open spec fn chain_step(c: ChainCfg, w: Seq<u8>, lens: Seq<u8>, ldm: Seq<LdmSeq>, f: ChainSt) -> ChainSt {
    chain_probe(c, w, lens, ldm, chain_caught(c, w, f, f.s.pos))
}

/// The scan after the probe of one position: search, first choice, insertion, and
/// either a step over the miss, which never passes a candidate's split, or the
/// emission of the final choice.
pub open spec fn chain_probe(c: ChainCfg, w: Seq<u8>, lens: Seq<u8>, ldm: Seq<LdmSeq>, f: ChainSt) -> ChainSt {
    let i = f.s.pos;
    let k = first_pick(c.pick, w, f.s, chain_found(c, w, ldm, f));
    let (li, won) = ldm_after(c, w, ldm, f);
    let s = if k.seed {
        f.s
    } else {
        spend_seed(f.s)
    };
    let g = ChainSt { h: link_as(c.link, w, f.h, i, k.pos), s, li, won, filled: later(f.filled, k.pos + 1) };
    if worth_storing(c.pick, w, lens, i, k) {
        chain_take(c, w, g, final_pick(c.pick, w, lens, s, chain_find(c, w, g.h), k))
    } else {
        let miss = add_miss(s.miss, 1);
        let to = i + miss_step(c.pick.dict_row, i - s.anchor, miss);
        let pos = if li < ldm.len() && c.link.base + i < ldm[li].split < c.link.base + to {
            ldm[li].split - c.link.base
        } else {
            to
        };
        ChainSt { s: St { miss, pos, ..s }, ..g }
    }
}

/// The scan of a block.
pub open spec fn chain_run(c: ChainCfg, w: Seq<u8>, lens: Seq<u8>, ldm: Seq<LdmSeq>, f: ChainSt) -> ChainSt
    decreases
        if w.len() > f.s.pos {
            w.len() - f.s.pos
        } else {
            0
        },
{
    if w.len() - f.s.pos >= HASH_READ {
        let g = chain_step(c, w, lens, ldm, f);
        if g.s.pos > f.s.pos {
            chain_run(c, w, lens, ldm, g)
        } else {
            g
        }
    } else {
        f
    }
}

/// A block's scan before its first probe. The catch-up fill starts a hash's read
/// before the block: whatever lies further back is linked already.
pub open spec fn chain_begin(h: Heads, s: St) -> ChainSt {
    ChainSt {
        h,
        s,
        li: 0,
        won: false,
        filled: if s.anchor > HASH_READ {
            s.anchor - HASH_READ
        } else {
            0
        },
    }
}

/// The scan of a whole block, with the literals behind the last match. The
/// cursors end at the block's end.
pub open spec fn chain_block(c: ChainCfg, w: Seq<u8>, lens: Seq<u8>, ldm: Seq<LdmSeq>, h: Heads, s: St) -> ChainSt {
    let g = chain_run(c, w, lens, ldm, chain_begin(h, s));
    ChainSt { s: St { pos: w.len() as int, anchor: w.len() as int, ..with_tail(g.s, w) }, ..g }
}

/// What a scan keeps: tables that fit, agreement with a decoder whose ramp is
/// the scan's own or off, and long-distance candidates that respect that ramp.
pub open spec fn chain_inv(c: ChainCfg, w: Seq<u8>, d: Peer, ldm: Seq<LdmSeq>, f: ChainSt) -> bool {
    &&& c.coherent()
    &&& c.link.fits(w, f.h)
    &&& in_step(w, d, f.s)
    &&& 0 <= f.li <= ldm.len()
    &&& d.base == c.link.base
    &&& d.least <= MIN_MATCH
    &&& d.bar <= MIN_MATCH || d.bar <= c.pick.min_match
    &&& d.ramp == c.walk.ramp || d.ramp.end == 0
    &&& c.walk.reach <= d.far && c.walk.reach <= d.hop
    &&& 0 <= f.filled <= w.len()
    &&& forall|k: int|
        0 <= k < ldm.len() ==> !d.ramp.shallow((#[trigger] ldm[k]).split - ldm[k].offset) && ldm[k].offset
            <= d.far && ldm[k].offset <= d.hop
}

/// The chain's matches are whole matches that respect the ramp.
pub proof fn lemma_chain_find(c: ChainCfg, w: Seq<u8>, h: Heads, ramp: RampGate, i: int)
    requires
        c.coherent(),
        ramp == c.walk.ramp || ramp.end == 0,
    ensures
        found_at(w, i, chain_find(c, w, h)(i)),
        chain_find(c, w, h)(i).0 > 0 ==> !ramp.shallow(c.link.base + chain_find(c, w, h)(i).1),
        chain_find(c, w, h)(i).0 > 0 ==> i - chain_find(c, w, h)(i).1 <= c.walk.reach,
{
    lemma_chain_walk(c.link, c.walk, w, h.ch, i, h.t[c.link.slot(w, i)], 0, (0, 0));
}

/// The repeated-offset matches keep what a scan keeps.
pub proof fn lemma_chain_reps(c: ChainCfg, w: Seq<u8>, d: Peer, ldm: Seq<LdmSeq>, f: ChainSt)
    requires
        chain_inv(c, w, d, ldm, ChainSt { s: resumed(f.s), ..f }),
        f.s.pending == 0,
    ensures
        chain_inv(c, w, d, ldm, ChainSt { s: resumed(chain_reps(c, w, f).s), ..chain_reps(c, w, f) }),
        chain_reps(c, w, f).s.anchor >= f.s.anchor,
        chain_reps(c, w, f).h.ch.len() == f.h.ch.len(),
        chain_reps(c, w, f).filled == f.filled,
    decreases w.len() - f.s.anchor,
{
    let p = f.s.anchor;
    let q = p - f.s.rep.r1;
    let n = common_len(w, p, q);
    if p + MIN_MATCH <= w.len() && q >= 0 && !c.pick.ramp.shallow(c.link.base + q) && le4(w, q) == le4(
        w,
        p,
    ) && MIN_MATCH <= n <= w.len() - p {
        let r = resumed(f.s);
        let g = ChainSt {
            h: link_covered(c.link, w, f.h, p, n, c.fill),
            s: emit_seq(f.s, w, p, n, 1),
            ..f
        };
        lemma_common_len(w, p, q);
        lemma_swap_is_good(w, r, q, n);
        lemma_emit_in_step(w, d, r, p, q, n, 1);
        lemma_link_fills(c.link, w, f.h, p, n, c.fill);
        assert(resumed(g.s) =~= resumed(
            St { pending: pending_after(r.pending, 1), ..emit_seq(r, w, p, n, 1) },
        ));
        lemma_chain_reps(c, w, d, ldm, g);
    }
}

/// The catch-up fill keeps what a scan keeps.
pub proof fn lemma_chain_caught(c: ChainCfg, w: Seq<u8>, d: Peer, ldm: Seq<LdmSeq>, f: ChainSt, upto: int)
    requires
        chain_inv(c, w, d, ldm, f),
    ensures
        chain_inv(c, w, d, ldm, chain_caught(c, w, f, upto)),
        chain_caught(c, w, f, upto) == (ChainSt {
            h: chain_caught(c, w, f, upto).h,
            filled: chain_caught(c, w, f, upto).filled,
            ..f
        }),
        chain_caught(c, w, f, upto).h.ch.len() == f.h.ch.len(),
        chain_caught(c, w, f, upto).filled >= f.filled,
{
    lemma_link_range(c.link, w, f.h, f.filled, fill_stop(w, upto), 1);
}

/// Emitting a choice keeps what a scan keeps, and moves the scan behind it.
pub proof fn lemma_chain_take(c: ChainCfg, w: Seq<u8>, d: Peer, ldm: Seq<LdmSeq>, x: ChainSt, k: Pick)
    requires
        chain_inv(c, w, d, ldm, x),
        good_pick(w, x.s, k),
        !k.rep ==> k.len >= c.pick.min_match,
        !d.ramp.shallow(c.link.base + k.cand),
        k.pos - k.cand <= d.far,
        !k.rep ==> k.pos - k.cand <= d.hop,
        k.seed ==> x.s.seed != 0,
    ensures
        chain_inv(c, w, d, ldm, chain_take(c, w, x, k)),
        chain_take(c, w, x, k).s.pos >= k.pos + k.len,
        chain_take(c, w, x, k).h.ch.len() == x.h.ch.len(),
        chain_take(c, w, x, k).filled >= x.filled,
{
    let m = pick_match(c.pick, w, x.s, k);
    let f = chain_caught(c, w, x, m.0);
    lemma_chain_caught(c, w, d, ldm, x, m.0);
    lemma_pick_match(c.pick, w, f.s, k, d.ramp);
    let of = if k.rep {
        1
    } else {
        m.0 - m.1 + 3
    };
    if k.rep {
        lemma_rep_is_good(w, f.s, m.0, m.1, m.2);
    } else {
        lemma_far_is_good(w, f.s, m.0, m.1, m.2);
    }
    lemma_emit_in_step(w, d, f.s, m.0, m.1, m.2, of);
    lemma_link_fills(c.link, w, f.h, m.0, m.2, c.fill);
    let e = if k.rep {
        emit_seq(f.s, w, m.0, m.2, 1)
    } else {
        emit_far(f.s, w, m.0, m.1, m.2)
    };
    assert(resumed(e) =~= resumed(
        St { pending: pending_after(f.s.pending, of), ..emit_seq(f.s, w, m.0, m.2, of) },
    ));
    let g = ChainSt {
        h: link_match(c.link, w, f.h, m.0, m.2, c.fill),
        s: if k.seed {
            count_seed(e)
        } else {
            e
        },
        ..f
    };
    assert(in_step(w, d, resumed(g.s)));
    if g.s.pending == 0 {
        lemma_chain_reps(c, w, d, ldm, g);
    }
}

/// What the search finds at the scan position is a whole match that respects the
/// ramp.
pub proof fn lemma_chain_found(c: ChainCfg, w: Seq<u8>, d: Peer, ldm: Seq<LdmSeq>, f: ChainSt)
    requires
        chain_inv(c, w, d, ldm, f),
        f.s.pos + HASH_READ <= w.len(),
    ensures
        found_at(w, f.s.pos, chain_found(c, w, ldm, f)),
        chain_found(c, w, ldm, f).0 > 0 ==> !d.ramp.shallow(c.link.base + chain_found(c, w, ldm, f).1),
        chain_found(c, w, ldm, f).0 > 0 ==> f.s.pos - chain_found(c, w, ldm, f).1 <= d.far,
        chain_found(c, w, ldm, f).0 > 0 ==> f.s.pos - chain_found(c, w, ldm, f).1 <= d.hop,
        0 <= ldm_skip(c, ldm, f) <= ldm.len(),
        0 <= ldm_after(c, w, ldm, f).0 <= ldm.len(),
{
    let i = f.s.pos;
    lemma_chain_find(c, w, f.h, d.ramp, i);
    lemma_skip_covered(ldm, f.li, c.link.base + f.s.anchor);
    let li = ldm_skip(c, ldm, f);
    if li < ldm.len() && ldm_beats(c, w, i, ldm[li], chain_find(c, w, f.h)(i).0) {
        lemma_agree4(w, i, i - ldm[li].offset);
    }
}

/// A probe keeps what a scan keeps, and moves the scan forwards.
pub proof fn lemma_chain_probe(c: ChainCfg, w: Seq<u8>, lens: Seq<u8>, d: Peer, ldm: Seq<LdmSeq>, f: ChainSt)
    requires
        chain_inv(c, w, d, ldm, f),
        f.s.pos + HASH_READ <= w.len(),
    ensures
        chain_inv(c, w, d, ldm, chain_probe(c, w, lens, ldm, f)),
        chain_probe(c, w, lens, ldm, f).s.pos > f.s.pos,
        chain_probe(c, w, lens, ldm, f).h.ch.len() == f.h.ch.len(),
        chain_probe(c, w, lens, ldm, f).filled >= f.filled,
{
    let i = f.s.pos;
    let b = chain_found(c, w, ldm, f);
    let k = first_pick(c.pick, w, f.s, b);
    lemma_chain_found(c, w, d, ldm, f);
    lemma_first_pick(c.pick, w, f.s, b);
    lemma_link_as(c.link, w, f.h, i, k.pos);
    let (li, won) = ldm_after(c, w, ldm, f);
    let s = if k.seed {
        f.s
    } else {
        spend_seed(f.s)
    };
    let g = ChainSt { h: link_as(c.link, w, f.h, i, k.pos), s, li, won, filled: later(f.filled, k.pos + 1) };
    assert(in_step(w, d, s));
    if worth_storing(c.pick, w, lens, i, k) {
        let find = chain_find(c, w, g.h);
        assert(good_pick(w, s, k));
        assert forall|j: int| 0 <= j && j + HASH_READ <= w.len() implies found_at(w, j, #[trigger] find(j)) by {
            lemma_chain_find(c, w, g.h, d.ramp, j);
        }
        assert forall|j: int|
            0 <= j && j + HASH_READ <= w.len() && (#[trigger] find(j)).0 > 0 implies !d.ramp.shallow(
            c.pick.base + find(j).1,
        ) && j - find(j).1 <= d.far && j - find(j).1 <= d.hop by {
            lemma_chain_find(c, w, g.h, d.ramp, j);
        }
        if c.pick.lazy > 0 && k.len < 64 {
            lemma_lazy_walk(c.pick, w, lens, s, find, k.pos, k, false, d.ramp, d.far);
            assert(finds_within(w, find, d.hop));
        }
        lemma_chain_take(c, w, d, ldm, g, final_pick(c.pick, w, lens, s, find, k));
    }
}

/// One step keeps what a scan keeps, and moves the scan forwards.
pub proof fn lemma_chain_step(c: ChainCfg, w: Seq<u8>, lens: Seq<u8>, d: Peer, ldm: Seq<LdmSeq>, f: ChainSt)
    requires
        chain_inv(c, w, d, ldm, f),
        f.s.pos + HASH_READ <= w.len(),
    ensures
        chain_inv(c, w, d, ldm, chain_step(c, w, lens, ldm, f)),
        chain_step(c, w, lens, ldm, f).s.pos > f.s.pos,
        chain_step(c, w, lens, ldm, f).h.ch.len() == f.h.ch.len(),
        chain_step(c, w, lens, ldm, f).filled >= f.filled,
{
    lemma_chain_caught(c, w, d, ldm, f, f.s.pos);
    lemma_chain_probe(c, w, lens, d, ldm, chain_caught(c, w, f, f.s.pos));
}

/// The scan of a block keeps what a scan keeps.
pub proof fn lemma_chain_run(c: ChainCfg, w: Seq<u8>, lens: Seq<u8>, d: Peer, ldm: Seq<LdmSeq>, f: ChainSt)
    requires
        chain_inv(c, w, d, ldm, f),
    ensures
        chain_inv(c, w, d, ldm, chain_run(c, w, lens, ldm, f)),
        chain_run(c, w, lens, ldm, f).h.ch.len() == f.h.ch.len(),
    decreases
        if w.len() > f.s.pos {
            w.len() - f.s.pos
        } else {
            0
        },
{
    if w.len() - f.s.pos >= HASH_READ {
        lemma_chain_step(c, w, lens, d, ldm, f);
        lemma_chain_run(c, w, lens, d, ldm, chain_step(c, w, lens, ldm, f));
    }
}

/// A scanned block decodes back to itself, and leaves the decoder's history in
/// agreement with the scan's; every source respects the ramp, if every
/// long-distance candidate does.
pub proof fn lemma_chain_block_decodes(
    c: ChainCfg,
    w: Seq<u8>,
    lens: Seq<u8>,
    d: Peer,
    ldm: Seq<LdmSeq>,
    h: Heads,
    s: St,
)
    requires
        chain_inv(c, w, d, ldm, chain_begin(h, s)),
    ensures
        ({
            let z = chain_block(c, w, lens, ldm, h, s).s;
            let r = replay(w.take(d.start), d.rep0, z.lits, z.seqs);
            &&& decodes_to(w.take(d.start), d.rep0, z.lits, z.seqs, w)
            &&& reps_agree(r.rep, z.rep, 3 - z.pending)
            &&& crate::scan::carry_ok(z)
            &&& legal_reads(w, d, z.lits, z.seqs)
            &&& z.rep.within(d.far) && z.seed <= d.far
            &&& paid(d.owed, z.seqs, z.pending)
            &&& long_enough(d.least, d.bar, z.seqs)
            &&& near_enough(d.hop, z.seqs)
            &&& d.same ==> r.rep == z.rep
        }),
        c.link.fits(w, chain_block(c, w, lens, ldm, h, s).h),
        chain_block(c, w, lens, ldm, h, s).h.ch.len() == h.ch.len(),
{
    let f = chain_begin(h, s);
    lemma_chain_run(c, w, lens, d, ldm, f);
    lemma_block_done(w, d, chain_run(c, w, lens, ldm, f).s);
}

/// A head table and its chain as a source of candidates.
pub struct ChainFinder<'a> {
    pub c: ChainCfg,
    pub table: &'a Vec<u32>,
    pub chain: &'a Vec<u32>,
}

impl<'a> Finder for ChainFinder<'a> {
    open spec fn fits(&self, w: Seq<u8>) -> bool {
        self.c.coherent() && self.c.link.fits(w, Heads { t: self.table@, ch: self.chain@ })
    }

    open spec fn best(&self, w: Seq<u8>, i: int) -> (int, int) {
        chain_find(self.c, w, Heads { t: self.table@, ch: self.chain@ })(i)
    }

    fn search(&self, win: &[u8], i: usize) -> (r: (usize, usize)) {
        let h: usize = hash_at_width(win, i, self.c.link.log, self.c.link.width) as usize;
        assert(self.table@.len() == self.table.len());
        proof {
            lemma_chain_find(
                self.c,
                win@,
                Heads { t: self.table@, ch: self.chain@ },
                RampGate::off_gate(),
                i as int,
            );
        }
        chain_search(&self.c.link, &self.c.walk, win, self.chain, i, self.table[h])
    }
}

/// A scan with its tables, as held by the executable scan.
pub open spec fn chain_view(t: Seq<u32>, ch: Seq<u32>, lits: Seq<u8>, seqs: Seq<SeqWord>, sc: Scan, li: int, won: bool, filled: int) -> ChainSt {
    ChainSt { h: Heads { t, ch }, s: scan_state(lits, seqs, sc), li, won, filled }
}

/// Emits matches by the second repeated offset as long as they follow each
/// other right at the anchor.
fn reps_chain(
    c: &ChainCfg,
    win: &[u8],
    table: &mut Vec<u32>,
    chain: &mut Vec<u32>,
    literals: &mut Vec<u8>,
    seqs: &mut Vec<SeqWord>,
    sc: &mut Scan,
    Ghost(d): Ghost<Peer>,
    Ghost(ldm): Ghost<Seq<LdmSeq>>,
    Ghost(li): Ghost<int>,
    Ghost(won): Ghost<bool>,
    Ghost(filled): Ghost<int>,
)
    requires
        ({
            let f = chain_view(old(table)@, old(chain)@, old(literals)@, old(seqs)@, *old(sc), li, won, filled);
            chain_inv(*c, win@, d, ldm, ChainSt { s: resumed(f.s), ..f })
        }),
        old(sc).pending == 0,
    ensures
        chain_view(final(table)@, final(chain)@, final(literals)@, final(seqs)@, *final(sc), li, won, filled)
            == chain_reps(
            *c,
            win@,
            chain_view(old(table)@, old(chain)@, old(literals)@, old(seqs)@, *old(sc), li, won, filled),
        ),
{
    let ghost f0 = chain_view(table@, chain@, literals@, seqs@, *sc, li, won, filled);
    loop
        invariant
            ({
                let f = chain_view(table@, chain@, literals@, seqs@, *sc, li, won, filled);
                &&& chain_inv(*c, win@, d, ldm, ChainSt { s: resumed(f.s), ..f })
                &&& chain_reps(*c, win@, f) == chain_reps(*c, win@, f0)
            }),
            sc.pending == 0,
        ensures
            chain_view(table@, chain@, literals@, seqs@, *sc, li, won, filled) == chain_reps(*c, win@, f0),
        decreases win@.len() - sc.anchor,
    {
        let ghost f = chain_view(table@, chain@, literals@, seqs@, *sc, li, won, filled);
        let p: usize = sc.anchor;
        if win.len() - p < MIN_MATCH || sc.rep.r1 as usize > p {
            break;
        }
        let q: usize = p - sc.rep.r1 as usize;
        if c.pick.ramp.blocks(c.link.base + q as u64) || read4(win, q) != read4(win, p) {
            break;
        }
        let n: usize = extend_match(win, p, q);
        proof {
            lemma_agree4(win@, p as int, q as int);
            lemma_common_len(win@, p as int, q as int);
            let r = resumed(f.s);
            lemma_swap_is_good(win@, r, q as int, n as int);
            lemma_emit_in_step(win@, d, r, p as int, q as int, n as int, 1);
            lemma_link_fills(c.link, win@, f.h, p as int, n as int, c.fill);
        }
        emit(win, sc, literals, seqs, p, n, 1);
        insert_linked_covered(&c.link, win, table, chain, p, n, c.fill);
        proof {
            let r = resumed(f.s);
            let g = chain_view(table@, chain@, literals@, seqs@, *sc, li, won, filled);
            assert(resumed(g.s) =~= resumed(
                St { pending: pending_after(r.pending, 1), ..emit_seq(r, win@, p as int, n as int, 1) },
            ));
        }
    }
}

/// How far a fill up to `upto` gets.
fn stop_of(win: &[u8], upto: usize) -> (r: usize)
    ensures
        r == fill_stop(win@, upto as int),
{
    assert(win@.len() == win.len());
    let limit: usize = if win.len() >= HASH_READ {
        win.len() - HASH_READ
    } else {
        0
    };
    if upto < limit {
        upto
    } else {
        limit
    }
}

/// Links what a dictionary row's scan has stepped over below `upto`. Returns the
/// first position that the fill has left.
fn catch_up_linked(
    c: &ChainCfg,
    win: &[u8],
    table: &mut Vec<u32>,
    chain: &mut Vec<u32>,
    filled: usize,
    upto: usize,
) -> (r: usize)
    requires
        c.link.fits(win@, Heads { t: old(table)@, ch: old(chain)@ }),
    ensures
        forall|f: ChainSt|
            f.h == (Heads { t: old(table)@, ch: old(chain)@ }) && f.filled == filled ==> #[trigger] chain_caught(
                *c,
                win@,
                f,
                upto as int,
            ) == (ChainSt { h: Heads { t: final(table)@, ch: final(chain)@ }, filled: r as int, ..f }),
        c.link.fits(win@, Heads { t: final(table)@, ch: final(chain)@ }),
        final(chain)@.len() == old(chain)@.len(),
{
    if !c.pick.dict_row {
        return filled;
    }
    let stop: usize = stop_of(win, upto);
    insert_linked_range(&c.link, win, table, chain, filled, stop, 1);
    if filled < stop {
        stop
    } else {
        filled
    }
}

/// Emits a choice and resumes the scan behind it. Returns the first position that
/// the catch-up fill has left.
#[verifier::rlimit(40)]
fn take_chain(
    c: &ChainCfg,
    win: &[u8],
    table: &mut Vec<u32>,
    chain: &mut Vec<u32>,
    literals: &mut Vec<u8>,
    seqs: &mut Vec<SeqWord>,
    sc: &mut Scan,
    k: &Choice,
    Ghost(d): Ghost<Peer>,
    Ghost(ldm): Ghost<Seq<LdmSeq>>,
    Ghost(li): Ghost<int>,
    Ghost(won): Ghost<bool>,
    filled0: usize,
) -> (filled: usize)
    requires
        ({
            let f = chain_view(old(table)@, old(chain)@, old(literals)@, old(seqs)@, *old(sc), li, won, filled0 as int);
            &&& chain_inv(*c, win@, d, ldm, f)
            &&& good_pick(win@, f.s, k.pick())
            &&& !k.rep ==> k.len >= c.pick.min_match
        }),
        !d.ramp.shallow(c.link.base + k.cand),
        k.pos - k.cand <= d.far,
        !k.rep ==> k.pos - k.cand <= d.hop,
        k.seed ==> old(sc).seed != 0,
    ensures
        chain_view(final(table)@, final(chain)@, final(literals)@, final(seqs)@, *final(sc), li, won, filled as int)
            == chain_take(
            *c,
            win@,
            chain_view(old(table)@, old(chain)@, old(literals)@, old(seqs)@, *old(sc), li, won, filled0 as int),
            k.pick(),
        ),
{
    let ghost x = chain_view(table@, chain@, literals@, seqs@, *sc, li, won, filled0 as int);
    let ghost s = x.s;
    proof {
        lemma_common_len(win@, k.pos as int, k.cand as int);
        lemma_pick_match(c.pick, win@, s, k.pick(), d.ramp);
    }
    let m: (usize, usize, usize) = widen(&c.pick, win, sc, k);
    assert(pick_match(c.pick, win@, s, k.pick()) == (m.0 as int, m.1 as int, m.2 as int));
    let caught: usize = catch_up_linked(c, win, table, chain, filled0, m.0);
    let ghost f = chain_caught(*c, win@, x, m.0 as int);
    proof {
        lemma_chain_caught(*c, win@, d, ldm, x, m.0 as int);
    }
    assert(chain_view(table@, chain@, literals@, seqs@, *sc, li, won, caught as int) == f);
    let of: u32 = if k.rep {
        1
    } else {
        (m.0 - m.1 + 3) as u32
    };
    proof {
        if k.rep {
            lemma_rep_is_good(win@, s, m.0 as int, m.1 as int, m.2 as int);
        } else {
            lemma_far_is_good(win@, s, m.0 as int, m.1 as int, m.2 as int);
        }
        lemma_emit_in_step(win@, d, s, m.0 as int, m.1 as int, m.2 as int, of as int);
        lemma_link_fills(c.link, win@, f.h, m.0 as int, m.2 as int, c.fill);
    }
    emit(win, sc, literals, seqs, m.0, m.2, of);
    insert_linked_match(&c.link, win, table, chain, m.0, m.2, c.fill);
    if !k.rep {
        pay_pending(sc);
    }
    let ghost e = if k.rep {
        emit_seq(s, win@, m.0 as int, m.2 as int, 1)
    } else {
        emit_far(s, win@, m.0 as int, m.1 as int, m.2 as int)
    };
    assert(scan_state(literals@, seqs@, *sc) =~= e);
    proof {
        assert(resumed(e) =~= resumed(
            St { pending: pending_after(s.pending, of as int), ..emit_seq(s, win@, m.0 as int, m.2 as int, of as int) },
        ));
    }
    if k.seed {
        count_hit(sc);
    }
    proof {
        let g = chain_view(table@, chain@, literals@, seqs@, *sc, li, won, caught as int);
        assert(in_step(win@, d, resumed(g.s)));
    }
    if sc.pending == 0 {
        reps_chain(
            c,
            win,
            table,
            chain,
            literals,
            seqs,
            sc,
            Ghost(d),
            Ghost(ldm),
            Ghost(li),
            Ghost(won),
            Ghost(caught as int),
        );
    }
    sc.pos = sc.anchor;
    sc.miss = 0;
    let stop: usize = stop_of(win, sc.anchor);
    if caught < stop {
        stop
    } else {
        caught
    }
}

/// Step over a miss.
pub fn step_over(dict_row: bool, literals: usize, miss: u64) -> (r: usize)
    requires
        literals <= MAX_BLOCK_SIZE,
    ensures
        r == miss_step(dict_row, literals as int, miss as int),
        1 <= r <= 513,
{
    if dict_row {
        1 + literals / 256
    } else if miss / 4 < 255 {
        1 + (miss / 4) as usize
    } else {
        256
    }
}

/// Probes one position. Returns the first long-distance candidate not passed
/// yet, whether one has beaten the chain's match, and the first position that the
/// catch-up fill has left.
#[verifier::rlimit(60)]
fn step_chain(
    c: &ChainCfg,
    win: &[u8],
    lit_lens: &[u8; 256],
    ldm: &Vec<LdmSeq>,
    table: &mut Vec<u32>,
    chain: &mut Vec<u32>,
    literals: &mut Vec<u8>,
    seqs: &mut Vec<SeqWord>,
    sc: &mut Scan,
    li0: usize,
    won0: bool,
    filled0: usize,
    Ghost(d): Ghost<Peer>,
) -> (r: (usize, bool, usize))
    requires
        chain_inv(
            *c,
            win@,
            d,
            ldm@,
            chain_view(old(table)@, old(chain)@, old(literals)@, old(seqs)@, *old(sc), li0 as int, won0, filled0 as int),
        ),
        old(sc).pos + HASH_READ <= win@.len(),
    ensures
        chain_view(
            final(table)@,
            final(chain)@,
            final(literals)@,
            final(seqs)@,
            *final(sc),
            r.0 as int,
            r.1,
            r.2 as int,
        ) == chain_step(
            *c,
            win@,
            lit_lens@,
            ldm@,
            chain_view(old(table)@, old(chain)@, old(literals)@, old(seqs)@, *old(sc), li0 as int, won0, filled0 as int),
        ),
{
    let ghost x = chain_view(table@, chain@, literals@, seqs@, *sc, li0 as int, won0, filled0 as int);
    let i: usize = sc.pos;
    let caught: usize = catch_up_linked(c, win, table, chain, filled0, i);
    let ghost f = chain_caught(*c, win@, x, i as int);
    proof {
        lemma_chain_caught(*c, win@, d, ldm@, x, i as int);
    }
    assert(chain_view(table@, chain@, literals@, seqs@, *sc, li0 as int, won0, caught as int) == f);
    let mut li: usize = li0;
    let mut won: bool = won0;
    let mut b: (usize, usize);
    proof {
        lemma_chain_found(*c, win@, d, ldm@, f);
    }
    {
        let finder = ChainFinder { c: *c, table: &*table, chain: &*chain };
        b = finder.search(win, i);
    }
    assert((b.0 as int, b.1 as int) == chain_find(*c, win@, f.h)(i as int));
    let at: u64 = c.link.base + sc.anchor as u64;
    while li < ldm.len() && ldm[li].split < at
        invariant
            li0 <= li <= ldm@.len(),
            skip_covered(ldm@, li as int, at as int) == skip_covered(ldm@, li0 as int, at as int),
        decreases ldm@.len() - li,
    {
        li = li + 1;
    }
    if li < ldm.len() && ldm[li].split == c.link.base + i as u64 {
        let q: LdmSeq = ldm[li];
        if 1 <= q.offset && q.offset as usize <= i {
            let j: usize = i - q.offset as usize;
            if read4(win, j) == read4(win, i) {
                let n: usize = extend_match(win, i, j);
                if n > b.0 {
                    b = (n, j);
                    won = true;
                }
            }
        }
        li = li + 1;
    }
    assert((b.0 as int, b.1 as int) == chain_found(*c, win@, ldm@, f));
    assert((li as int, won) == ldm_after(*c, win@, ldm@, f));
    proof {
        lemma_first_pick(c.pick, win@, f.s, (b.0 as int, b.1 as int));
        lemma_common_len(win@, i as int, b.1 as int);
    }
    let k: Choice = choose_first(&c.pick, win, sc, b);
    assert(k.pick() == first_pick(c.pick, win@, f.s, (b.0 as int, b.1 as int)));
    if !k.seed {
        spend(sc);
    }
    let ghost s = if k.seed {
        f.s
    } else {
        spend_seed(f.s)
    };
    assert(scan_state(literals@, seqs@, *sc) == s);
    proof {
        lemma_link_as(c.link, win@, f.h, i as int, k.pos as int);
    }
    insert_linked_at(&c.link, win, table, chain, i, k.pos);
    let mut filled: usize = if caught < k.pos + 1 {
        k.pos + 1
    } else {
        caught
    };
    let ghost g = ChainSt { h: Heads { t: table@, ch: chain@ }, s, li: li as int, won, filled: filled as int };
    assert(chain_inv(*c, win@, d, ldm@, g));
    if is_worth_storing(&c.pick, win, lit_lens, i, &k) {
        let ghost find = chain_find(*c, win@, g.h);
        let z: Choice;
        {
            let finder = ChainFinder { c: *c, table: &*table, chain: &*chain };
            z = choose_final(&c.pick, win, lit_lens, sc, &finder, k, Ghost(s));
            assert((|p: int| finder.best(win@, p)) =~= find);
        }
        proof {
            assert forall|p: int| 0 <= p && p + HASH_READ <= win@.len() implies found_at(win@, p, #[trigger] find(p)) by {
                lemma_chain_find(*c, win@, g.h, d.ramp, p);
            }
            assert forall|p: int|
                0 <= p && p + HASH_READ <= win@.len() && (#[trigger] find(p)).0 > 0 implies !d.ramp.shallow(
                c.pick.base + find(p).1,
            ) && p - find(p).1 <= d.far && p - find(p).1 <= d.hop by {
                lemma_chain_find(*c, win@, g.h, d.ramp, p);
            }
            if c.pick.lazy > 0 && k.len < 64 {
                lemma_lazy_walk(c.pick, win@, lit_lens@, s, find, k.pos as int, k.pick(), false, d.ramp, d.far);
                assert(finds_within(win@, find, d.hop));
            }
        }
        filled = take_chain(
            c,
            win,
            table,
            chain,
            literals,
            seqs,
            sc,
            &z,
            Ghost(d),
            Ghost(ldm@),
            Ghost(li as int),
            Ghost(won),
            filled,
        );
    } else {
        sc.miss = sc.miss.saturating_add(1);
        let step: usize = step_over(c.pick.dict_row, i - sc.anchor, sc.miss);
        let mut to: usize = i + step;
        if li < ldm.len() {
            let split: u64 = ldm[li].split;
            let here: u64 = c.link.base + i as u64;
            if here < split && split - here < step as u64 {
                to = i + (split - here) as usize;
            }
        }
        sc.pos = to;
    }
    (li, won, filled)
}

/// Scans one block: emits its sequences and the literals behind the last one,
/// and leaves the cursors at its end. Returns whether a long-distance candidate
/// beat the chain's match anywhere.
pub fn start_matching_chain(
    c: &ChainCfg,
    win: &[u8],
    lit_lens: &[u8; 256],
    ldm: &Vec<LdmSeq>,
    table: &mut Vec<u32>,
    chain: &mut Vec<u32>,
    literals: &mut Vec<u8>,
    seqs: &mut Vec<SeqWord>,
    sc: &mut Scan,
) -> (ldm_won: bool)
    requires
        c.coherent(),
        c.link.fits(win@, Heads { t: old(table)@, ch: old(chain)@ }),
        old(literals)@.len() == 0,
        old(seqs)@.len() == 0,
        in_bounds(win@, scan_state(old(literals)@, old(seqs)@, *old(sc))),
        old(sc).pos == old(sc).anchor,
    ensures
        ({
            let f = chain_block(
                *c,
                win@,
                lit_lens@,
                ldm@,
                Heads { t: old(table)@, ch: old(chain)@ },
                scan_state(old(literals)@, old(seqs)@, *old(sc)),
            );
            &&& final(table)@ == f.h.t
            &&& final(chain)@ == f.h.ch
            &&& scan_state(final(literals)@, final(seqs)@, *final(sc)) == f.s
            &&& ldm_won == f.won
        }),
{
    let ghost d = Peer {
        start: sc.anchor as int,
        rep0: sc.rep,
        base: c.link.base as int,
        ramp: RampGate::off_gate(),
        far: u64::MAX as int,
        owed: sc.pending as int,
        least: 3,
        bar: 3,
        hop: u64::MAX as int,
        same: true,
    };
    let mut li: usize = 0;
    let mut won: bool = false;
    let mut filled: usize = if sc.anchor > HASH_READ {
        sc.anchor - HASH_READ
    } else {
        0
    };
    let ghost f0 = chain_view(table@, chain@, literals@, seqs@, *sc, 0, false, filled as int);
    proof {
        assert(literals@ =~= Seq::empty());
        assert(seqs@ =~= Seq::empty());
        crate::sequence::lemma_synced_start(win@, d.start, d.rep0, sc.rep, sc.pending as int);
        crate::sequence::lemma_nothing_paid(d.owed, d.least, d.bar);
    }
    while sc.pos <= win.len() && win.len() - sc.pos >= HASH_READ
        invariant
            chain_inv(
                *c,
                win@,
                d,
                ldm@,
                chain_view(table@, chain@, literals@, seqs@, *sc, li as int, won, filled as int),
            ),
            chain_run(
                *c,
                win@,
                lit_lens@,
                ldm@,
                chain_view(table@, chain@, literals@, seqs@, *sc, li as int, won, filled as int),
            ) == chain_run(*c, win@, lit_lens@, ldm@, f0),
        decreases
            if win@.len() > sc.pos {
                win@.len() - sc.pos
            } else {
                0
            },
    {
        proof {
            lemma_chain_step(
                *c,
                win@,
                lit_lens@,
                d,
                ldm@,
                chain_view(table@, chain@, literals@, seqs@, *sc, li as int, won, filled as int),
            );
        }
        let r: (usize, bool, usize) = step_chain(
            c,
            win,
            lit_lens,
            ldm,
            table,
            chain,
            literals,
            seqs,
            sc,
            li,
            won,
            filled,
            Ghost(d),
        );
        li = r.0;
        won = r.1;
        filled = r.2;
    }
    if seqs.len() > 0 && sc.anchor < win.len() {
        append(literals, win, sc.anchor, win.len());
    }
    sc.pos = win.len();
    sc.anchor = win.len();
    won
}

} // verus!
