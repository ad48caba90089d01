//! The row scan: candidates from the tagged row of a position's hash, with
//! deferred selection.

use vstd::prelude::*;
use crate::hash::{common_len, extend_match, le4, lemma_common_len, read4, HASH_READ, MIN_MATCH};
use crate::lazy::{choose_final, choose_first, final_pick, finds_within, first_pick, found_at, good_pick, is_worth_storing, lemma_agree4, lemma_first_pick, lemma_lazy_walk, lemma_pick_match, pick_match, widen, worth_storing, Choice, Finder, Pick, PickCfg};
use crate::parse_chain::{miss_step, step_over};
use crate::parse_fast::add_miss;
use crate::rows::{lemma_row_covered, lemma_row_put, lemma_row_walk, row_best, row_covered, row_insert, row_insert_covered, row_put, row_search, RowCfg, Rows};
use crate::scan::{count_hit, count_seed, emit, emit_far, emit_seq, in_bounds, in_step, legal_reads, lemma_block_done, lemma_emit_in_step, lemma_far_is_good, lemma_rep_is_good, lemma_swap_is_good, pay_pending, resumed, scan_state, spend, spend_seed, with_tail, Peer, Scan, St};
use crate::seq_codes::SeqWord;
use crate::sequence::{decodes_to, long_enough, near_enough, paid, pending_after, replay, reps_agree};
use crate::tables::append;

verus! {

/// Constants of one block's scan.
#[derive(Clone, Copy, PartialEq, Eq, Structural, Debug)]
pub struct RowScanCfg {
    pub row: RowCfg,
    pub pick: PickCfg,
}

/// A scan with its rows.
#[verifier::ext_equal]
pub struct RowSt {
    pub r: Rows,
    pub s: St,
}

impl RowScanCfg {
    /// The parts of the configuration agree with each other.
    pub open spec fn coherent(self) -> bool {
        &&& self.pick.base == self.row.base
        &&& self.pick.ramp == self.row.ramp
        &&& self.pick.min_match >= 1
    }
}

/// The rows' best match for a position.
pub open spec fn row_find(c: RowScanCfg, w: Seq<u8>, r: Rows) -> spec_fn(int) -> (int, int) {
    |i: int| row_best(c.row, w, r, i)
}

/// Matches by the second repeated offset that follow each other right at the
/// anchor; each position consumed enters its row before its match does.
pub open spec fn row_reps(c: RowScanCfg, w: Seq<u8>, f: RowSt) -> RowSt
    decreases w.len() - f.s.anchor,
{
    let p = f.s.anchor;
    let q = p - f.s.rep.r1;
    let n = common_len(w, p, q);
    if p + MIN_MATCH <= w.len() && q >= 0 && !c.pick.ramp.shallow(c.row.base + q) && le4(w, q) == le4(
        w,
        p,
    ) && MIN_MATCH <= n <= w.len() - p {
        let r = if p + HASH_READ <= w.len() {
            row_put(c.row, w, f.r, p, p)
        } else {
            f.r
        };
        row_reps(
            c,
            w,
            RowSt { r: row_covered(c.row, w, r, p, n), s: emit_seq(f.s, w, p, n, 1) },
        )
    } else {
        f
    }
}

/// The scan after emitting the choice `k`.
pub open spec fn row_take(c: RowScanCfg, w: Seq<u8>, f: RowSt, k: Pick) -> RowSt {
    let m = pick_match(c.pick, w, f.s, k);
    let e = if k.rep {
        emit_seq(f.s, w, m.0, m.2, 1)
    } else {
        emit_far(f.s, w, m.0, m.1, m.2)
    };
    let g = RowSt {
        r: row_covered(c.row, w, f.r, m.0, m.2),
        s: if k.seed {
            count_seed(e)
        } else {
            e
        },
    };
    let z = if g.s.pending == 0 {
        row_reps(c, w, g)
    } else {
        g
    };
    RowSt { s: resumed(z.s), ..z }
}

/// The scan after probing one position: search, first choice, insertion, and
/// either a step over the miss or the emission of the final choice.
pub open spec fn row_step(c: RowScanCfg, w: Seq<u8>, lens: Seq<u8>, f: RowSt) -> RowSt {
    let i = f.s.pos;
    let k = first_pick(c.pick, w, f.s, row_best(c.row, w, f.r, i));
    let s = if k.seed {
        f.s
    } else {
        spend_seed(f.s)
    };
    let g = RowSt { r: row_put(c.row, w, f.r, i, k.pos), s };
    if worth_storing(c.pick, w, lens, i, k) {
        row_take(c, w, g, final_pick(c.pick, w, lens, s, row_find(c, w, g.r), k))
    } else {
        let miss = add_miss(s.miss, 1);
        RowSt { s: St { miss, pos: i + miss_step(false, 0, miss), ..s }, ..g }
    }
}

/// The scan of a block.
pub open spec fn row_run(c: RowScanCfg, w: Seq<u8>, lens: Seq<u8>, f: RowSt) -> RowSt
    decreases
        if w.len() > f.s.pos {
            w.len() - f.s.pos
        } else {
            0
        },
{
    if w.len() - f.s.pos >= HASH_READ {
        let g = row_step(c, w, lens, f);
        if g.s.pos > f.s.pos {
            row_run(c, w, lens, g)
        } else {
            g
        }
    } else {
        f
    }
}

/// The scan of a whole block, with the literals behind the last match. The
/// cursors end at the block's end.
pub open spec fn row_block(c: RowScanCfg, w: Seq<u8>, lens: Seq<u8>, r: Rows, s: St) -> RowSt {
    let g = row_run(c, w, lens, RowSt { r, s });
    RowSt { s: St { pos: w.len() as int, anchor: w.len() as int, ..with_tail(g.s, w) }, ..g }
}

/// What a scan keeps: rows that fit, and agreement with a decoder.
pub open spec fn row_inv(c: RowScanCfg, w: Seq<u8>, d: Peer, f: RowSt) -> bool {
    &&& c.coherent()
    &&& c.row.fits(w, f.r)
    &&& in_step(w, d, f.s)
    &&& d.base == c.row.base
    &&& d.least <= MIN_MATCH
    &&& d.bar <= MIN_MATCH || d.bar <= c.pick.min_match
    &&& d.ramp == c.row.ramp
    &&& c.row.reach <= d.far && c.row.reach <= d.hop
}

/// The rows' matches are whole matches that respect the ramp.
pub proof fn lemma_row_find(c: RowScanCfg, w: Seq<u8>, r: Rows, i: int)
    ensures
        found_at(w, i, row_find(c, w, r)(i)),
        row_find(c, w, r)(i).0 > 0 ==> !c.row.ramp.shallow(c.row.base + row_find(c, w, r)(i).1),
        row_find(c, w, r)(i).0 > 0 ==> i - row_find(c, w, r)(i).1 <= c.row.reach,
{
    lemma_row_walk(c.row, w, r, i, c.row.hash(w, i), 0, c.row.attempts as int, (0, 0));
}

/// The repeated-offset matches keep what a scan keeps.
pub proof fn lemma_row_reps(c: RowScanCfg, w: Seq<u8>, d: Peer, f: RowSt)
    requires
        row_inv(c, w, d, RowSt { s: resumed(f.s), ..f }),
        f.s.pending == 0,
    ensures
        row_inv(c, w, d, RowSt { s: resumed(row_reps(c, w, f).s), ..row_reps(c, w, f) }),
        row_reps(c, w, f).s.anchor >= f.s.anchor,
    decreases w.len() - f.s.anchor,
{
    let p = f.s.anchor;
    let q = p - f.s.rep.r1;
    let n = common_len(w, p, q);
    if p + MIN_MATCH <= w.len() && q >= 0 && !c.pick.ramp.shallow(c.row.base + q) && le4(w, q) == le4(
        w,
        p,
    ) && MIN_MATCH <= n <= w.len() - p {
        let x = resumed(f.s);
        let r = if p + HASH_READ <= w.len() {
            row_put(c.row, w, f.r, p, p)
        } else {
            f.r
        };
        let g = RowSt { r: row_covered(c.row, w, r, p, n), s: emit_seq(f.s, w, p, n, 1) };
        lemma_common_len(w, p, q);
        lemma_swap_is_good(w, x, q, n);
        lemma_emit_in_step(w, d, x, p, q, n, 1);
        lemma_row_put(c.row, w, f.r, p, p);
        lemma_row_covered(c.row, w, r, p, n);
        assert(resumed(g.s) =~= resumed(
            St { pending: pending_after(x.pending, 1), ..emit_seq(x, w, p, n, 1) },
        ));
        lemma_row_reps(c, w, d, g);
    }
}

/// Emitting a choice keeps what a scan keeps, and moves the scan behind it.
pub proof fn lemma_row_take(c: RowScanCfg, w: Seq<u8>, d: Peer, f: RowSt, k: Pick)
    requires
        row_inv(c, w, d, f),
        good_pick(w, f.s, k),
        !k.rep ==> k.len >= c.pick.min_match,
        !d.ramp.shallow(c.row.base + k.cand),
        k.pos - k.cand <= d.far,
        !k.rep ==> k.pos - k.cand <= d.hop,
        k.seed ==> f.s.seed != 0,
    ensures
        row_inv(c, w, d, row_take(c, w, f, k)),
        row_take(c, w, f, k).s.pos >= k.pos + k.len,
{
    let m = pick_match(c.pick, w, f.s, k);
    lemma_pick_match(c.pick, w, f.s, k, d.ramp);
    let of = if k.rep {
        1
    } else {
        m.0 - m.1 + 3
    };
    if k.rep {
        lemma_rep_is_good(w, f.s, m.0, m.1, m.2);
    } else {
        lemma_far_is_good(w, f.s, m.0, m.1, m.2);
    }
    lemma_emit_in_step(w, d, f.s, m.0, m.1, m.2, of);
    lemma_row_covered(c.row, w, f.r, m.0, m.2);
    let e = if k.rep {
        emit_seq(f.s, w, m.0, m.2, 1)
    } else {
        emit_far(f.s, w, m.0, m.1, m.2)
    };
    assert(resumed(e) =~= resumed(
        St { pending: pending_after(f.s.pending, of), ..emit_seq(f.s, w, m.0, m.2, of) },
    ));
    let g = RowSt {
        r: row_covered(c.row, w, f.r, m.0, m.2),
        s: if k.seed {
            count_seed(e)
        } else {
            e
        },
    };
    assert(in_step(w, d, resumed(g.s)));
    if g.s.pending == 0 {
        lemma_row_reps(c, w, d, g);
    }
}

/// One step keeps what a scan keeps, and moves the scan forwards.
pub proof fn lemma_row_step(c: RowScanCfg, w: Seq<u8>, lens: Seq<u8>, d: Peer, f: RowSt)
    requires
        row_inv(c, w, d, f),
        f.s.pos + HASH_READ <= w.len(),
    ensures
        row_inv(c, w, d, row_step(c, w, lens, f)),
        row_step(c, w, lens, f).s.pos > f.s.pos,
{
    let i = f.s.pos;
    let b = row_best(c.row, w, f.r, i);
    let k = first_pick(c.pick, w, f.s, b);
    lemma_row_find(c, w, f.r, i);
    lemma_first_pick(c.pick, w, f.s, b);
    lemma_row_put(c.row, w, f.r, i, k.pos);
    let s = if k.seed {
        f.s
    } else {
        spend_seed(f.s)
    };
    let g = RowSt { r: row_put(c.row, w, f.r, i, k.pos), s };
    assert(in_step(w, d, s));
    if worth_storing(c.pick, w, lens, i, k) {
        let find = row_find(c, w, g.r);
        assert(good_pick(w, s, k));
        assert forall|j: int| 0 <= j && j + HASH_READ <= w.len() implies found_at(w, j, #[trigger] find(j)) by {
            lemma_row_find(c, w, g.r, j);
        }
        assert forall|j: int|
            0 <= j && j + HASH_READ <= w.len() && (#[trigger] find(j)).0 > 0 implies !d.ramp.shallow(
            c.pick.base + find(j).1,
        ) && j - find(j).1 <= d.far && j - find(j).1 <= d.hop by {
            lemma_row_find(c, w, g.r, j);
        }
        if c.pick.lazy > 0 && k.len < 64 {
            lemma_lazy_walk(c.pick, w, lens, s, find, k.pos, k, false, d.ramp, d.far);
            assert(finds_within(w, find, d.hop));
        }
        lemma_row_take(c, w, d, g, final_pick(c.pick, w, lens, s, find, k));
    }
}

/// The scan of a block keeps what a scan keeps.
pub proof fn lemma_row_run(c: RowScanCfg, w: Seq<u8>, lens: Seq<u8>, d: Peer, f: RowSt)
    requires
        row_inv(c, w, d, f),
    ensures
        row_inv(c, w, d, row_run(c, w, lens, f)),
    decreases
        if w.len() > f.s.pos {
            w.len() - f.s.pos
        } else {
            0
        },
{
    if w.len() - f.s.pos >= HASH_READ {
        lemma_row_step(c, w, lens, d, f);
        lemma_row_run(c, w, lens, d, row_step(c, w, lens, f));
    }
}

/// A scanned block decodes back to itself, and leaves the decoder's history in
/// agreement with the scan's; every source respects the ramp.
pub proof fn lemma_row_block_decodes(c: RowScanCfg, w: Seq<u8>, lens: Seq<u8>, d: Peer, r: Rows, s: St)
    requires
        row_inv(c, w, d, RowSt { r, s }),
    ensures
        ({
            let z = row_block(c, w, lens, r, s).s;
            let p = replay(w.take(d.start), d.rep0, z.lits, z.seqs);
            &&& decodes_to(w.take(d.start), d.rep0, z.lits, z.seqs, w)
            &&& reps_agree(p.rep, z.rep, 3 - z.pending)
            &&& crate::scan::carry_ok(z)
            &&& legal_reads(w, d, z.lits, z.seqs)
            &&& z.rep.within(d.far) && z.seed <= d.far
            &&& paid(d.owed, z.seqs, z.pending)
            &&& long_enough(d.least, d.bar, z.seqs)
            &&& near_enough(d.hop, z.seqs)
            &&& d.same ==> p.rep == z.rep
        }),
        c.row.fits(w, row_block(c, w, lens, r, s).r),
{
    lemma_row_run(c, w, lens, d, RowSt { r, s });
    lemma_block_done(w, d, row_run(c, w, lens, RowSt { r, s }).s);
}

/// Rows as a source of candidates.
pub struct RowFinder<'a> {
    pub c: RowScanCfg,
    pub table: &'a Vec<u32>,
    pub heads: &'a Vec<u8>,
}

impl<'a> Finder for RowFinder<'a> {
    open spec fn fits(&self, w: Seq<u8>) -> bool {
        self.c.row.fits(w, Rows { t: self.table@, hd: self.heads@ })
    }

    open spec fn best(&self, w: Seq<u8>, i: int) -> (int, int) {
        row_find(self.c, w, Rows { t: self.table@, hd: self.heads@ })(i)
    }

    fn search(&self, win: &[u8], i: usize) -> (r: (usize, usize)) {
        proof {
            lemma_row_find(self.c, win@, Rows { t: self.table@, hd: self.heads@ }, i as int);
        }
        row_search(&self.c.row, win, self.table, self.heads, i)
    }
}

/// A scan with its rows, as held by the executable scan.
pub open spec fn row_view(t: Seq<u32>, hd: Seq<u8>, lits: Seq<u8>, seqs: Seq<SeqWord>, sc: Scan) -> RowSt {
    RowSt { r: Rows { t, hd }, s: scan_state(lits, seqs, sc) }
}

/// Emits matches by the second repeated offset as long as they follow each
/// other right at the anchor.
fn rep1_row(
    c: &RowScanCfg,
    win: &[u8],
    table: &mut Vec<u32>,
    heads: &mut Vec<u8>,
    literals: &mut Vec<u8>,
    seqs: &mut Vec<SeqWord>,
    sc: &mut Scan,
    Ghost(d): Ghost<Peer>,
)
    requires
        ({
            let f = row_view(old(table)@, old(heads)@, old(literals)@, old(seqs)@, *old(sc));
            row_inv(*c, win@, d, RowSt { s: resumed(f.s), ..f })
        }),
        old(sc).pending == 0,
    ensures
        row_view(final(table)@, final(heads)@, final(literals)@, final(seqs)@, *final(sc)) == row_reps(
            *c,
            win@,
            row_view(old(table)@, old(heads)@, old(literals)@, old(seqs)@, *old(sc)),
        ),
{
    let ghost f0 = row_view(table@, heads@, literals@, seqs@, *sc);
    loop
        invariant
            ({
                let f = row_view(table@, heads@, literals@, seqs@, *sc);
                &&& row_inv(*c, win@, d, RowSt { s: resumed(f.s), ..f })
                &&& row_reps(*c, win@, f) == row_reps(*c, win@, f0)
            }),
            sc.pending == 0,
        ensures
            row_view(table@, heads@, literals@, seqs@, *sc) == row_reps(*c, win@, f0),
        decreases win@.len() - sc.anchor,
    {
        let ghost f = row_view(table@, heads@, literals@, seqs@, *sc);
        let p: usize = sc.anchor;
        if win.len() - p < MIN_MATCH || sc.rep.r1 as usize > p {
            break;
        }
        let q: usize = p - sc.rep.r1 as usize;
        if c.pick.ramp.blocks(c.row.base + q as u64) || read4(win, q) != read4(win, p) {
            break;
        }
        let n: usize = extend_match(win, p, q);
        proof {
            lemma_agree4(win@, p as int, q as int);
            lemma_common_len(win@, p as int, q as int);
            let x = resumed(f.s);
            lemma_swap_is_good(win@, x, q as int, n as int);
            lemma_emit_in_step(win@, d, x, p as int, q as int, n as int, 1);
        }
        if win.len() - p >= HASH_READ {
            row_insert(&c.row, win, table, heads, p, p);
        }
        emit(win, sc, literals, seqs, p, n, 1);
        row_insert_covered(&c.row, win, table, heads, p, n);
        proof {
            let x = resumed(f.s);
            let g = row_view(table@, heads@, literals@, seqs@, *sc);
            assert(resumed(g.s) =~= resumed(
                St { pending: pending_after(x.pending, 1), ..emit_seq(x, win@, p as int, n as int, 1) },
            ));
        }
    }
}

/// Emits a choice and resumes the scan behind it.
#[verifier::rlimit(40)]
fn take_row(
    c: &RowScanCfg,
    win: &[u8],
    table: &mut Vec<u32>,
    heads: &mut Vec<u8>,
    literals: &mut Vec<u8>,
    seqs: &mut Vec<SeqWord>,
    sc: &mut Scan,
    k: &Choice,
    Ghost(d): Ghost<Peer>,
)
    requires
        ({
            let f = row_view(old(table)@, old(heads)@, old(literals)@, old(seqs)@, *old(sc));
            &&& row_inv(*c, win@, d, f)
            &&& good_pick(win@, f.s, k.pick())
            &&& !k.rep ==> k.len >= c.pick.min_match
        }),
        !d.ramp.shallow(c.row.base + k.cand),
        k.pos - k.cand <= d.far,
        !k.rep ==> k.pos - k.cand <= d.hop,
        k.seed ==> old(sc).seed != 0,
    ensures
        row_view(final(table)@, final(heads)@, final(literals)@, final(seqs)@, *final(sc)) == row_take(
            *c,
            win@,
            row_view(old(table)@, old(heads)@, old(literals)@, old(seqs)@, *old(sc)),
            k.pick(),
        ),
{
    let ghost f = row_view(table@, heads@, literals@, seqs@, *sc);
    let ghost s = f.s;
    proof {
        lemma_common_len(win@, k.pos as int, k.cand as int);
        lemma_pick_match(c.pick, win@, s, k.pick(), d.ramp);
    }
    let m: (usize, usize, usize) = widen(&c.pick, win, sc, k);
    assert(pick_match(c.pick, win@, s, k.pick()) == (m.0 as int, m.1 as int, m.2 as int));
    let of: u32 = if k.rep {
        1
    } else {
        (m.0 - m.1 + 3) as u32
    };
    proof {
        if k.rep {
            lemma_rep_is_good(win@, s, m.0 as int, m.1 as int, m.2 as int);
        } else {
            lemma_far_is_good(win@, s, m.0 as int, m.1 as int, m.2 as int);
        }
        lemma_emit_in_step(win@, d, s, m.0 as int, m.1 as int, m.2 as int, of as int);
    }
    emit(win, sc, literals, seqs, m.0, m.2, of);
    row_insert_covered(&c.row, win, table, heads, m.0, m.2);
    if !k.rep {
        pay_pending(sc);
    }
    let ghost e = if k.rep {
        emit_seq(s, win@, m.0 as int, m.2 as int, 1)
    } else {
        emit_far(s, win@, m.0 as int, m.1 as int, m.2 as int)
    };
    assert(scan_state(literals@, seqs@, *sc) =~= e);
    proof {
        assert(resumed(e) =~= resumed(
            St { pending: pending_after(s.pending, of as int), ..emit_seq(s, win@, m.0 as int, m.2 as int, of as int) },
        ));
    }
    if k.seed {
        count_hit(sc);
    }
    proof {
        let g = row_view(table@, heads@, literals@, seqs@, *sc);
        assert(in_step(win@, d, resumed(g.s)));
    }
    if sc.pending == 0 {
        rep1_row(c, win, table, heads, literals, seqs, sc, Ghost(d));
    }
    sc.pos = sc.anchor;
    sc.miss = 0;
}

/// Probes one position.
#[verifier::rlimit(60)]
fn step_row(
    c: &RowScanCfg,
    win: &[u8],
    lit_lens: &[u8; 256],
    table: &mut Vec<u32>,
    heads: &mut Vec<u8>,
    literals: &mut Vec<u8>,
    seqs: &mut Vec<SeqWord>,
    sc: &mut Scan,
    Ghost(d): Ghost<Peer>,
)
    requires
        row_inv(*c, win@, d, row_view(old(table)@, old(heads)@, old(literals)@, old(seqs)@, *old(sc))),
        old(sc).pos + HASH_READ <= win@.len(),
    ensures
        row_view(final(table)@, final(heads)@, final(literals)@, final(seqs)@, *final(sc)) == row_step(
            *c,
            win@,
            lit_lens@,
            row_view(old(table)@, old(heads)@, old(literals)@, old(seqs)@, *old(sc)),
        ),
{
    let ghost f = row_view(table@, heads@, literals@, seqs@, *sc);
    let i: usize = sc.pos;
    let b: (usize, usize) = row_search(&c.row, win, table, heads, i);
    proof {
        lemma_row_find(*c, win@, f.r, i as int);
        lemma_first_pick(c.pick, win@, f.s, (b.0 as int, b.1 as int));
        lemma_common_len(win@, i as int, b.1 as int);
    }
    let k: Choice = choose_first(&c.pick, win, sc, b);
    assert(k.pick() == first_pick(c.pick, win@, f.s, (b.0 as int, b.1 as int)));
    if !k.seed {
        spend(sc);
    }
    let ghost s = if k.seed {
        f.s
    } else {
        spend_seed(f.s)
    };
    assert(scan_state(literals@, seqs@, *sc) == s);
    row_insert(&c.row, win, table, heads, i, k.pos);
    let ghost g = RowSt { r: Rows { t: table@, hd: heads@ }, s };
    assert(row_inv(*c, win@, d, g));
    if is_worth_storing(&c.pick, win, lit_lens, i, &k) {
        let ghost find = row_find(*c, win@, g.r);
        let z: Choice;
        {
            let finder = RowFinder { c: *c, table: &*table, heads: &*heads };
            z = choose_final(&c.pick, win, lit_lens, sc, &finder, k, Ghost(s));
            assert((|p: int| finder.best(win@, p)) =~= find);
        }
        proof {
            assert forall|p: int| 0 <= p && p + HASH_READ <= win@.len() implies found_at(win@, p, #[trigger] find(p)) by {
                lemma_row_find(*c, win@, g.r, p);
            }
            assert forall|p: int|
                0 <= p && p + HASH_READ <= win@.len() && (#[trigger] find(p)).0 > 0 implies !d.ramp.shallow(
                c.pick.base + find(p).1,
            ) && p - find(p).1 <= d.far && p - find(p).1 <= d.hop by {
                lemma_row_find(*c, win@, g.r, p);
            }
            if c.pick.lazy > 0 && k.len < 64 {
                lemma_lazy_walk(c.pick, win@, lit_lens@, s, find, k.pos as int, k.pick(), false, d.ramp, d.far);
                assert(finds_within(win@, find, d.hop));
            }
        }
        take_row(c, win, table, heads, literals, seqs, sc, &z, Ghost(d));
    } else {
        sc.miss = sc.miss.saturating_add(1);
        sc.pos = i + step_over(false, 0, sc.miss);
    }
}

/// Scans one block: emits its sequences and the literals behind the last one,
/// and leaves the cursors at its end.
pub fn start_matching_row(
    c: &RowScanCfg,
    win: &[u8],
    lit_lens: &[u8; 256],
    table: &mut Vec<u32>,
    heads: &mut Vec<u8>,
    literals: &mut Vec<u8>,
    seqs: &mut Vec<SeqWord>,
    sc: &mut Scan,
)
    requires
        c.coherent(),
        c.row.fits(win@, Rows { t: old(table)@, hd: old(heads)@ }),
        old(literals)@.len() == 0,
        old(seqs)@.len() == 0,
        in_bounds(win@, scan_state(old(literals)@, old(seqs)@, *old(sc))),
        old(sc).pos == old(sc).anchor,
    ensures
        ({
            let f = row_block(
                *c,
                win@,
                lit_lens@,
                Rows { t: old(table)@, hd: old(heads)@ },
                scan_state(old(literals)@, old(seqs)@, *old(sc)),
            );
            &&& final(table)@ == f.r.t
            &&& final(heads)@ == f.r.hd
            &&& scan_state(final(literals)@, final(seqs)@, *final(sc)) == f.s
        }),
{
    let ghost d = Peer { start: sc.anchor as int, rep0: sc.rep, base: c.row.base as int, ramp: c.row.ramp, far: u64::MAX as int, owed: sc.pending as int, least: 3, bar: 3, hop: u64::MAX as int, same: true };
    let ghost f0 = row_view(table@, heads@, literals@, seqs@, *sc);
    proof {
        assert(literals@ =~= Seq::empty());
        assert(seqs@ =~= Seq::empty());
        crate::sequence::lemma_synced_start(win@, d.start, d.rep0, sc.rep, sc.pending as int);
        crate::sequence::lemma_nothing_paid(d.owed, d.least, d.bar);
    }
    while sc.pos <= win.len() && win.len() - sc.pos >= HASH_READ
        invariant
            row_inv(*c, win@, d, row_view(table@, heads@, literals@, seqs@, *sc)),
            row_run(*c, win@, lit_lens@, row_view(table@, heads@, literals@, seqs@, *sc)) == row_run(
                *c,
                win@,
                lit_lens@,
                f0,
            ),
        decreases
            if win@.len() > sc.pos {
                win@.len() - sc.pos
            } else {
                0
            },
    {
        proof {
            lemma_row_step(*c, win@, lit_lens@, d, row_view(table@, heads@, literals@, seqs@, *sc));
        }
        step_row(c, win, lit_lens, table, heads, literals, seqs, sc, Ghost(d));
    }
    if seqs.len() > 0 && sc.anchor < win.len() {
        append(literals, win, sc.anchor, win.len());
    }
    sc.pos = win.len();
    sc.anchor = win.len();
}

} // verus!
