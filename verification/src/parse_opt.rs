//! The optimal parse of a block: series after series, each emitted as the
//! cheapest path through it, with statistics that follow what is emitted.

use vstd::prelude::*;
use crate::gates::RampGate;
use crate::hash::HASH_READ;
use crate::opt_series::{dp_inv, dp_run, done_node, first_prices, gather, gathered, hunt_of, lemma_dp_run, lemma_first_prices, lemma_gathered, lemma_settle, path, run_series, series_inv, series_steps, spans_inv, spans_ok, start_node, Dp, Hunt, LdmCursor, OptCfg, Optimal, PathStep, SeriesStart, Spans};
use crate::opt_near::{lemma_any_near, lemma_near_dp_run, lemma_near_first_prices, lemma_near_gathered, near_ldm, near_nodes, near_series, near_span};
use crate::opt_stats::{lemma_counted, lemma_rescaled, OptState, Stats, PREDEF_THRESHOLD};
use crate::opt_tree::{true_match, Match, OptTree, Tree, TreeCfg};
use crate::scan::{emit, emit_seq, in_bounds, in_step, lemma_block_done, lemma_emit_in_step, resumed, scan_state, with_tail, LdmSeq, Peer, Scan, St};
use crate::seq_codes::{encodable, SeqWord};
use crate::sequence::{decodes_to, good_seq, long_enough, near_enough, paid, pending_after, replay, Reps, reps_agree, wire_offset, wire_ok};
use crate::tables::append;

verus! {

/// Bytes before a job that its statistics are gathered from.
pub const SEED_SPAN: usize = 131072;

/// A parse with its statistics and what its searches work with.
pub struct OptSt {
    pub h: Hunt,
    pub st: Stats,
    pub s: St,
}

/// A parse and its statistics after emitting the sequences of a path.
pub open spec fn emitted(s: St, st: Stats, w: Seq<u8>, steps: Seq<PathStep>) -> (St, Stats)
    decreases steps.len(),
{
    if steps.len() == 0 {
        (s, st)
    } else {
        let r = emitted(s, st, w, steps.drop_last());
        let x = steps.last();
        let start = r.0.anchor + x.lit;
        let of = x.m.off as int;
        let ml = x.m.len as int;
        (
            St {
                pos: start + ml,
                pending: pending_after(r.0.pending, of),
                ..emit_seq(r.0, w, start, ml, of)
            },
            r.1.counted(w.subrange(r.0.anchor, start), of, ml),
        )
    }
}

/// The series at the parse's position, given the matches there: none is needed
/// where the longest match is sufficient.
pub open spec fn series_at(c: OptCfg, w: Seq<u8>, ldm: Seq<LdmSeq>, f: OptSt, h: Hunt, ms: Seq<Match>) -> Dp {
    let lit = f.s.pos - f.s.anchor;
    if ms.last().len > c.tree.sufficient_len {
        Dp {
            opt: seq![start_node(f.st, c.ultra, lit, f.s.rep)],
            h,
            jump: Some((0, ms.last())),
            done: true,
        }
    } else {
        dp_run(
            c,
            f.st,
            w,
            ldm,
            f.s.pos,
            f.s.pending != 0,
            Dp { opt: first_prices(c, f.st, lit, f.s.rep, ms), h, jump: None, done: false },
            1,
        )
    }
}

/// The parse after one position or one series. A series whose cheapest path has
/// no match is passed over as literals.
pub open spec fn opt_step(c: OptCfg, w: Seq<u8>, ldm: Seq<LdmSeq>, f: OptSt) -> OptSt {
    let i = f.s.pos;
    let g = gathered(c, w, ldm, f.h, i, f.s.rep, i == f.s.anchor, f.s.pending != 0);
    if g.1.len() == 0 {
        OptSt { h: g.0, s: St { pos: i + 1, ..f.s }, ..f }
    } else {
        let d = series_at(c, w, ldm, f, g.0, g.1);
        let steps = series_steps(d);
        if steps.len() == 0 {
            OptSt { h: d.h, s: St { pos: i + d.opt.len() - 2, ..f.s }, ..f }
        } else {
            let e = emitted(f.s, f.st, w, steps);
            OptSt { h: d.h, st: e.1.based(c.ultra), s: e.0 }
        }
    }
}

/// The parse of a block from its position on.
pub open spec fn opt_run(c: OptCfg, w: Seq<u8>, ldm: Seq<LdmSeq>, f: OptSt) -> OptSt
    decreases
        if w.len() > f.s.pos {
            w.len() - f.s.pos
        } else {
            0
        },
{
    if f.s.pos + HASH_READ < w.len() {
        let g = opt_step(c, w, ldm, f);
        if g.s.pos > f.s.pos {
            opt_run(c, w, ldm, g)
        } else {
            g
        }
    } else {
        f
    }
}

/// A whole block: statistics made ready, the first position of a frame left out
/// as it has nothing behind it, and the literals behind the last match staged.
/// The cursors end at the block's end.
pub open spec fn opt_once(c: OptCfg, w: Seq<u8>, ldm: Seq<LdmSeq>, tree: Tree, st: Stats, s: St) -> OptSt {
    let first = if c.tree.base + s.anchor == 0 {
        1int
    } else {
        0
    };
    let f = OptSt {
        h: Hunt {
            tree: Tree { next3: tree.next, ..tree },
            sp: Spans { next: 0, act: None },
            won: false,
        },
        st: st.rescaled(c.ultra, w.subrange(s.anchor, w.len() as int)),
        s: St { pos: s.anchor + first, ..s },
    };
    let g = opt_run(c, w, ldm, f);
    OptSt { s: St { pos: w.len() as int, anchor: w.len() as int, ..with_tail(g.s, w) }, ..g }
}

/// What a parse keeps: tables that fit, true long-distance candidates,
/// statistics with room for the rest of the block, and agreement with a decoder.
pub open spec fn opt_inv(c: OptCfg, w: Seq<u8>, ldm: Seq<LdmSeq>, d: Peer, f: OptSt) -> bool {
    &&& c.tree.fits(w, f.h.tree)
    &&& c.sound()
    &&& spans_ok(w, c.tree.base as int, ldm)
    &&& spans_inv(w, c.tree.base as int, ldm, f.h.sp)
    &&& f.st.priced(c.ultra)
    &&& f.st.room(w.len() - f.s.anchor)
    &&& in_step(w, d, f.s)
    &&& d.ramp.end == 0
    &&& f.s.pos <= w.len()
    &&& c.tree.reach <= d.hop <= d.far
    &&& near_ldm(ldm, d.hop)
    &&& near_span(f.h.sp, d.hop)
    &&& d.least <= c.tree.min_match && d.bar <= c.tree.min_match
}

/// Emitting one true match keeps agreement with the decoder and room in the
/// statistics.
proof fn lemma_emit_one(w: Seq<u8>, d: Peer, s: St, st: Stats, x: PathStep)
    requires
        in_step(w, d, s),
        d.ramp.end == 0,
        d.hop <= d.far,
        st.wf(),
        st.summed(),
        st.room(w.len() - s.anchor),
        x.m.len >= 3,
        x.m.len >= d.least,
        x.m.len >= d.bar,
        true_match(w, s.anchor + x.lit, s.rep, x.lit == 0, x.m),
        s.pending != 0 ==> x.m.off > 3,
        x.m.off <= d.hop + 3,
    ensures
        ({
            let start = s.anchor + x.lit;
            let z = St {
                pos: start + x.m.len,
                pending: pending_after(s.pending, x.m.off as int),
                ..emit_seq(s, w, start, x.m.len as int, x.m.off as int)
            };
            let t = st.counted(w.subrange(s.anchor, start), x.m.off as int, x.m.len as int);
            &&& in_step(w, d, z)
            &&& t.wf()
            &&& t.summed()
            &&& t.room(w.len() - z.anchor)
        }),
        encodable(x.lit as int, x.m.len as int, x.m.off as int),
        wire_ok(s.rep, x.m.off as int, x.lit as int),
{
    let start = s.anchor + x.lit;
    let of = x.m.off as int;
    let ml = x.m.len as int;
    let dist = wire_offset(s.rep, of, x.lit as int);
    let cand = start - dist;
    assert(good_seq(w, s.anchor, start, cand, ml, of, s.rep, s.pending));
    lemma_emit_in_step(w, d, s, start, cand, ml, of);
    let z = St { pos: start + ml, pending: pending_after(s.pending, of), ..emit_seq(s, w, start, ml, of) };
    let r = resumed(St { pending: pending_after(s.pending, of), ..emit_seq(s, w, start, ml, of) });
    assert(z =~= (St { miss: s.miss, ..r }));
    lemma_counted(st, w.subrange(s.anchor, start), of, ml, w.len() - s.anchor);
}

/// Emitting the way to a visited position keeps agreement with the decoder, and
/// ends behind the last match on it with the repeated offsets of the position.
pub proof fn lemma_path(
    c: OptCfg,
    st: Stats,
    w: Seq<u8>,
    x: SeriesStart,
    opt: Seq<Optimal>,
    cur: int,
    k: int,
    d: Peer,
    s: St,
    sts: Stats,
)
    requires
        series_inv(c, st, w, x, opt, cur),
        near_nodes(opt, d.hop),
        0 <= k < cur,
        in_step(w, d, s),
        d.ramp.end == 0,
        d.hop <= d.far,
        x.i == s.anchor + x.lit,
        x.rep == s.rep,
        x.gated == (s.pending != 0),
        d.least <= x.least && d.bar <= x.least,
        sts.wf(),
        sts.summed(),
        sts.room(w.len() - s.anchor),
    ensures
        ({
            let e = emitted(s, sts, w, path(opt, k));
            &&& in_step(w, d, e.0)
            &&& path(opt, k).len() > 0 ==> e.0.pos == e.0.anchor
            &&& e.0.anchor == x.i + k - opt[k].litlen
            &&& e.0.rep == opt[k].rep
            &&& e.1.wf()
            &&& e.1.summed()
            &&& e.1.room(w.len() - e.0.anchor)
            &&& s.pending == 0 ==> e.0.pending == 0
        }),
        opt[k].mlen != 0 <==> path(opt, k).len() > 0,
    decreases k,
{
    let n = opt[k];
    assert(done_node(c, st, w, x, opt, k));
    if n.mlen != 0 {
        let p = k - n.litlen - n.mlen;
        lemma_path(c, st, w, x, opt, cur, p, d, s, sts);
        let e = emitted(s, sts, w, path(opt, p));
        let step = PathStep { lit: opt[p].litlen, m: Match { off: n.off, len: n.mlen } };
        assert(path(opt, k) == path(opt, p).push(step));
        assert(path(opt, k).drop_last() =~= path(opt, p));
        lemma_emit_one(w, d, e.0, e.1, step);
    }
}

/// What the sequences of a finished series keep.
pub proof fn lemma_series_steps(
    c: OptCfg,
    st: Stats,
    w: Seq<u8>,
    ldm: Seq<LdmSeq>,
    x: SeriesStart,
    z: Dp,
    end: int,
    d: Peer,
    s: St,
    sts: Stats,
)
    requires
        dp_inv(c, st, w, ldm, x, z, end),
        near_series(z, d.hop),
        z.jump is None ==> end == z.opt.len() - 1,
        in_step(w, d, s),
        d.ramp.end == 0,
        d.hop <= d.far,
        x.i == s.anchor + x.lit,
        x.rep == s.rep,
        x.gated == (s.pending != 0),
        d.least <= x.least && d.bar <= x.least,
        sts.wf(),
        sts.summed(),
        sts.room(w.len() - s.anchor),
    ensures
        ({
            let steps = series_steps(z);
            let e = emitted(s, sts, w, steps);
            &&& in_step(w, d, e.0)
            &&& steps.len() > 0 ==> e.0.pos == e.0.anchor
            &&& e.1.wf()
            &&& e.1.summed()
            &&& e.1.room(w.len() - e.0.anchor)
            &&& steps.len() > 0 ==> e.0.anchor > x.i
        }),
        z.jump is Some ==> series_steps(z).len() > 0,
        z.jump is None ==> (series_steps(z).len() > 0 <==> z.opt[z.opt.len() - 2].mlen != 0),
{
    match z.jump {
        Some((k, m)) => {
            lemma_path(c, st, w, x, z.opt, end, k, d, s, sts);
            let e = emitted(s, sts, w, path(z.opt, k));
            let step = PathStep { lit: z.opt[k].litlen, m };
            let steps = path(z.opt, k).push(step);
            assert(steps.drop_last() =~= path(z.opt, k));
            lemma_emit_one(w, d, e.0, e.1, step);
        },
        None => {
            let k = z.opt.len() - 2;
            lemma_path(c, st, w, x, z.opt, end, k, d, s, sts);
            assert(done_node(c, st, w, x, z.opt, k));
        },
    }
}

/// One step keeps what a parse keeps, and moves it forwards.
pub proof fn lemma_opt_step(c: OptCfg, w: Seq<u8>, ldm: Seq<LdmSeq>, d: Peer, f: OptSt)
    requires
        opt_inv(c, w, ldm, d, f),
        f.s.pos + HASH_READ < w.len(),
    ensures
        opt_inv(c, w, ldm, d, opt_step(c, w, ldm, f)),
        opt_step(c, w, ldm, f).s.pos > f.s.pos,
{
    let i = f.s.pos;
    let gated = f.s.pending != 0;
    let lit = i - f.s.anchor;
    lemma_gathered(c, w, ldm, f.h, i, f.s.rep, i == f.s.anchor, gated);
    lemma_settle(w, c.tree.base as int, ldm, f.h.sp, c.tree.base + i);
    lemma_near_gathered(c, w, ldm, f.h, i, f.s.rep, i == f.s.anchor, gated, d.hop);
    let g = gathered(c, w, ldm, f.h, i, f.s.rep, i == f.s.anchor, gated);
    if g.1.len() == 0 {
    } else {
        let ms = g.1;
        let x = SeriesStart { i, lit, rep: f.s.rep, gated, least: c.tree.min_match as int };
        let z = series_at(c, w, ldm, f, g.0, ms);
        assert(true_match(w, i, f.s.rep, lit == 0, ms[ms.len() - 1]));
        assert(ms[ms.len() - 1].len > c.tree.min_match - 1);
        if ms.last().len > c.tree.sufficient_len {
            let step = PathStep { lit: z.opt[0].litlen, m: ms.last() };
            assert(path(z.opt, 0).len() == 0);
            assert(series_steps(z) =~= seq![step]);
            assert(series_steps(z).drop_last() =~= Seq::empty());
            lemma_emit_one(w, d, f.s, f.st, step);
            let e = emitted(f.s, f.st, w, series_steps(z));
            assert(emitted(f.s, f.st, w, Seq::empty()) == (f.s, f.st));
        } else {
            lemma_first_prices(c, f.st, w, x, ms);
            let d0 = Dp { opt: first_prices(c, f.st, lit, f.s.rep, ms), h: g.0, jump: None, done: false };
            let end = lemma_dp_run(c, f.st, w, ldm, x, d0, 1);
            lemma_near_first_prices(c, f.st, lit, f.s.rep, ms, d.hop);
            lemma_near_dp_run(c, f.st, w, ldm, x, d0, 1, d.hop);
            lemma_series_steps(c, f.st, w, ldm, x, z, end, d, f.s, f.st);
            let steps = series_steps(z);
            let e = emitted(f.s, f.st, w, steps);
        }
    }
}

/// The parse of a block keeps what a parse keeps.
pub proof fn lemma_opt_run(c: OptCfg, w: Seq<u8>, ldm: Seq<LdmSeq>, d: Peer, f: OptSt)
    requires
        opt_inv(c, w, ldm, d, f),
    ensures
        opt_inv(c, w, ldm, d, opt_run(c, w, ldm, f)),
    decreases
        if w.len() > f.s.pos {
            w.len() - f.s.pos
        } else {
            0
        },
{
    if f.s.pos + HASH_READ < w.len() {
        lemma_opt_step(c, w, ldm, d, f);
        lemma_opt_run(c, w, ldm, d, opt_step(c, w, ldm, f));
    }
}

/// What the parse of a whole block needs.
pub open spec fn opt_ready(c: OptCfg, w: Seq<u8>, ldm: Seq<LdmSeq>, tree: Tree, st: Stats, s: St) -> bool {
    &&& c.tree.fits(w, tree)
    &&& c.sound()
    &&& spans_ok(w, c.tree.base as int, ldm)
    &&& st.wf()
    &&& in_bounds(w, s)
    &&& s.pos == s.anchor
    &&& s.anchor < w.len()
    &&& s.lits.len() == 0
    &&& s.seqs.len() == 0
}

/// A parsed block decodes back to itself, and leaves the decoder's history in
/// agreement with the parse's.
pub proof fn lemma_opt_once_decodes(
    c: OptCfg,
    w: Seq<u8>,
    ldm: Seq<LdmSeq>,
    rep0: Reps,
    tree: Tree,
    st: Stats,
    s: St,
    far: int,
    hop: int,
)
    requires
        opt_ready(c, w, ldm, tree, st, s),
        reps_agree(rep0, s.rep, 3 - s.pending),
        c.tree.reach <= hop <= far,
        near_ldm(ldm, hop),
        s.rep.within(far),
        s.seed <= hop,
    ensures
        ({
            let f = opt_once(c, w, ldm, tree, st, s);
            let z = f.s;
            let p = replay(w.take(s.anchor), rep0, z.lits, z.seqs);
            &&& decodes_to(w.take(s.anchor), rep0, z.lits, z.seqs, w)
            &&& reps_agree(p.rep, z.rep, 3 - z.pending)
            &&& rep0 == s.rep ==> p.rep == z.rep
            &&& crate::scan::carry_ok(z)
            &&& forall|k: int| 0 <= k < p.offs.len() ==> #[trigger] p.offs[k] <= far
            &&& z.rep.within(far) && z.seed <= far
            &&& paid(s.pending, z.seqs, z.pending)
            &&& long_enough(c.tree.min_match as int, c.tree.min_match as int, z.seqs)
            &&& near_enough(hop, z.seqs)
            &&& c.tree.fits(w, f.h.tree)
            &&& f.st.wf()
        }),
{
    let d = Peer { start: s.anchor, rep0, base: c.tree.base as int, ramp: RampGate { start: 0, end: 0, depth: 0 }, far, owed: s.pending, least: c.tree.min_match as int, bar: c.tree.min_match as int, hop, same: rep0 == s.rep };
    lemma_opt_start(c, w, ldm, d, tree, st, s);
    let first = if c.tree.base + s.anchor == 0 {
        1int
    } else {
        0
    };
    let f = OptSt {
        h: Hunt {
            tree: Tree { next3: tree.next, ..tree },
            sp: Spans { next: 0, act: None },
            won: false,
        },
        st: st.rescaled(c.ultra, w.subrange(s.anchor, w.len() as int)),
        s: St { pos: s.anchor + first, ..s },
    };
    lemma_opt_run(c, w, ldm, d, f);
    lemma_block_done(w, d, opt_run(c, w, ldm, f).s);
}

/// A parse starts with what it keeps.
proof fn lemma_opt_start(c: OptCfg, w: Seq<u8>, ldm: Seq<LdmSeq>, d: Peer, tree: Tree, st: Stats, s: St)
    requires
        opt_ready(c, w, ldm, tree, st, s),
        reps_agree(d.rep0, s.rep, 3 - s.pending),
        d.start == s.anchor,
        d.ramp.end == 0,
        d.hop <= d.far,
        c.tree.reach <= d.hop,
        near_ldm(ldm, d.hop),
        s.rep.within(d.far),
        s.seed <= d.hop,
        s.pending == d.owed,
        d.same ==> d.rep0 == s.rep,
        d.least <= c.tree.min_match,
        d.bar <= c.tree.min_match,
    ensures
        ({
            let first = if c.tree.base + s.anchor == 0 {
                1int
            } else {
                0
            };
            opt_inv(
                c,
                w,
                ldm,
                d,
                OptSt {
                    h: Hunt {
                        tree: Tree { next3: tree.next, ..tree },
                        sp: Spans { next: 0, act: None },
                        won: false,
                    },
                    st: st.rescaled(c.ultra, w.subrange(s.anchor, w.len() as int)),
                    s: St { pos: s.anchor + first, ..s },
                },
            )
        }),
{
    lemma_rescaled(st, c.ultra, w.subrange(s.anchor, w.len() as int));
    assert(s.lits =~= Seq::empty());
    assert(s.seqs =~= Seq::empty());
    crate::sequence::lemma_synced_start(w, d.start, d.rep0, s.rep, s.pending);
    crate::sequence::lemma_nothing_paid(d.owed, d.least, d.bar);
}

/// Emits the sequences on the way to the position `k`, and behind it the match
/// `jump` if there is one.
fn emit_path(
    win: &[u8],
    opt: &Vec<Optimal>,
    k: usize,
    jump: Option<Match>,
    st: &mut OptState,
    literals: &mut Vec<u8>,
    seqs: &mut Vec<SeqWord>,
    sc: &mut Scan,
    Ghost(c): Ghost<OptCfg>,
    Ghost(pst): Ghost<Stats>,
    Ghost(x): Ghost<SeriesStart>,
    Ghost(cur): Ghost<int>,
    Ghost(d): Ghost<Peer>,
)
    requires
        series_inv(c, pst, win@, x, opt@, cur),
        k < cur,
        in_step(win@, d, scan_state(old(literals)@, old(seqs)@, *old(sc))),
        d.ramp.end == 0,
        d.hop <= d.far,
        d.hop >= u32::MAX,
        x.i == old(sc).anchor + x.lit,
        x.rep == old(sc).rep,
        x.gated == (old(sc).pending != 0),
        d.least <= x.least && d.bar <= x.least,
        old(st)@.wf(),
        old(st)@.summed(),
        old(st)@.room(win@.len() - old(sc).anchor),
        jump matches Some(m) ==> {
            &&& m.len >= x.least
            &&& true_match(win@, x.i + k, opt@[k as int].rep, opt@[k as int].litlen == 0, m)
            &&& x.gated ==> m.off > 3
        },
    ensures
        ({
            let steps = match jump {
                Some(m) => path(opt@, k as int).push(PathStep { lit: opt@[k as int].litlen, m }),
                None => path(opt@, k as int),
            };
            (scan_state(final(literals)@, final(seqs)@, *final(sc)), final(st)@) == emitted(
                scan_state(old(literals)@, old(seqs)@, *old(sc)),
                old(st)@,
                win@,
                steps,
            )
        }),
{
    let ghost s0 = scan_state(literals@, seqs@, *sc);
    let ghost st0 = st@;
    let ghost steps = match jump {
        Some(m) => path(opt@, k as int).push(PathStep { lit: opt@[k as int].litlen, m }),
        None => path(opt@, k as int),
    };
    // The steps, last one first.
    let mut back: Vec<PathStep> = Vec::new();
    if let Some(m) = jump {
        back.push(PathStep { lit: opt[k].litlen, m });
    }
    assert(path(opt@, k as int) + back@.reverse() =~= steps);
    let mut at: usize = k;
    while opt[at].mlen != 0
        invariant
            series_inv(c, pst, win@, x, opt@, cur),
            0 <= at < cur,
            path(opt@, at as int) + back@.reverse() == steps,
        decreases at,
    {
        proof {
            assert(done_node(c, pst, win@, x, opt@, at as int));
        }
        let n: Optimal = opt[at];
        let p: usize = at - n.litlen as usize - n.mlen as usize;
        let step: PathStep = PathStep { lit: opt[p].litlen, m: Match { off: n.off, len: n.mlen } };
        let ghost b0 = back@;
        back.push(step);
        assert(path(opt@, p as int) + back@.reverse() =~= path(opt@, at as int) + b0.reverse());
        at = p;
    }
    assert(path(opt@, at as int).len() == 0);
    assert(back@.reverse() =~= steps);
    let mut j: usize = back.len();
    assert(steps.take(0) =~= Seq::empty());
    while j > 0
        invariant
            j <= back@.len(),
            back@.reverse() == steps,
            steps.len() == back@.len(),
            (scan_state(literals@, seqs@, *sc), st@) == emitted(s0, st0, win@, steps.take(steps.len() - j)),
            d.ramp.end == 0,
            d.hop <= d.far,
            d.hop >= u32::MAX,
            series_inv(c, pst, win@, x, opt@, cur),
            k < cur,
            in_step(win@, d, s0),
            s0.anchor + x.lit == x.i,
            x.rep == s0.rep,
            x.gated == (s0.pending != 0),
            d.least <= x.least && d.bar <= x.least,
            st0.wf(),
            st0.summed(),
            st0.room(win@.len() - s0.anchor),
            steps == match jump {
                Some(m) => path(opt@, k as int).push(PathStep { lit: opt@[k as int].litlen, m }),
                None => path(opt@, k as int),
            },
            jump matches Some(m) ==> {
                &&& m.len >= x.least
                &&& true_match(win@, x.i + k, opt@[k as int].rep, opt@[k as int].litlen == 0, m)
                &&& x.gated ==> m.off > 3
            },
        decreases j,
    {
        let ghost done = steps.len() - j;
        j = j - 1;
        let y: PathStep = back[j];
        proof {
            assert(y == steps[done]);
            assert(steps.take(done + 1).drop_last() =~= steps.take(done));
            assert(steps.take(done + 1).last() == y);
            lemma_step_good(c, pst, win@, x, opt@, cur, k as int, jump, d, s0, st0, done);
            lemma_emit_one(win@, d, scan_state(literals@, seqs@, *sc), st@, y);
        }
        assert(win@.len() == win.len());
        let anchor: usize = sc.anchor;
        let start: usize = anchor + y.lit as usize;
        let lits: &[u8] = vstd::slice::slice_subrange(win, anchor, start);
        st.update_stats(lits, y.m.off, y.m.len);
        emit(win, sc, literals, seqs, start, y.m.len as usize, y.m.off);
        if sc.pending > 0 && y.m.off > 3 {
            sc.pending = sc.pending - 1;
        }
        sc.pos = sc.anchor;
    }
    assert(steps.take(steps.len() as int) =~= steps);
}

/// Every step on the way to a visited position is a true match for the parse
/// that has emitted the steps before it.
proof fn lemma_step_good(
    c: OptCfg,
    pst: Stats,
    w: Seq<u8>,
    x: SeriesStart,
    opt: Seq<Optimal>,
    cur: int,
    k: int,
    jump: Option<Match>,
    d: Peer,
    s: St,
    st: Stats,
    j: int,
)
    requires
        series_inv(c, pst, w, x, opt, cur),
        0 <= k < cur,
        in_step(w, d, s),
        d.ramp.end == 0,
        d.hop <= d.far,
        d.hop >= u32::MAX,
        x.i == s.anchor + x.lit,
        x.rep == s.rep,
        x.gated == (s.pending != 0),
        d.least <= x.least && d.bar <= x.least,
        st.wf(),
        st.summed(),
        st.room(w.len() - s.anchor),
        jump matches Some(m) ==> {
            &&& m.len >= x.least
            &&& true_match(w, x.i + k, opt[k].rep, opt[k].litlen == 0, m)
            &&& x.gated ==> m.off > 3
        },
        0 <= j,
        j < path(opt, k).len() + if jump is Some {
            1int
        } else {
            0
        },
    ensures
        ({
            let steps = match jump {
                Some(m) => path(opt, k).push(PathStep { lit: opt[k].litlen, m }),
                None => path(opt, k),
            };
            let e = emitted(s, st, w, steps.take(j));
            let y = steps[j];
            &&& in_step(w, d, e.0)
            &&& e.1.wf()
            &&& e.1.summed()
            &&& e.1.room(w.len() - e.0.anchor)
            &&& y.m.len >= x.least
            &&& true_match(w, e.0.anchor + y.lit, e.0.rep, y.lit == 0, y.m)
            &&& e.0.pending != 0 ==> y.m.off > 3
        }),
    decreases k,
{
    let steps = match jump {
        Some(m) => path(opt, k).push(PathStep { lit: opt[k].litlen, m }),
        None => path(opt, k),
    };
    lemma_path(c, pst, w, x, opt, cur, k, d, s, st);
    if j == path(opt, k).len() {
        assert(steps.take(j) =~= path(opt, k));
    } else {
        // The step belongs to the way there, whose last match plays the part of
        // the jump.
        let n = opt[k];
        assert(done_node(c, pst, w, x, opt, k));
        let p = k - n.litlen - n.mlen;
        let m = Match { off: n.off, len: n.mlen };
        lemma_step_good(c, pst, w, x, opt, cur, p, Some(m), d, s, st, j);
        assert(steps.take(j) =~= path(opt, k).take(j));
        assert(path(opt, k) == path(opt, p).push(PathStep { lit: opt[p].litlen, m }));
    }
}

/// Reusable buffers of the optimal parse.
pub struct OptScratch {
    pub opt: Vec<Optimal>,
    pub matches: Vec<Match>,
}

impl OptScratch {
    /// Empty buffers.
    pub fn new() -> (r: Self)
        ensures
            r.opt@.len() == 0,
            r.matches@.len() == 0,
    {
        OptScratch { opt: Vec::new(), matches: Vec::new() }
    }
}

/// A parse as held by the executable one.
pub open spec fn opt_view(
    tree: OptTree,
    cursor: LdmCursor,
    won: bool,
    st: OptState,
    lits: Seq<u8>,
    seqs: Seq<SeqWord>,
    sc: Scan,
) -> OptSt {
    OptSt { h: hunt_of(tree, cursor, won), st: st@, s: scan_state(lits, seqs, sc) }
}

/// Parses one position or one series.
#[verifier::rlimit(60)]
fn step_opt(
    c: &OptCfg,
    win: &[u8],
    ldm: &Vec<LdmSeq>,
    tree: &mut OptTree,
    cursor: &mut LdmCursor,
    won: &mut bool,
    st: &mut OptState,
    scratch: &mut OptScratch,
    literals: &mut Vec<u8>,
    seqs: &mut Vec<SeqWord>,
    sc: &mut Scan,
    Ghost(d): Ghost<Peer>,
)
    requires
        opt_inv(
            *c,
            win@,
            ldm@,
            d,
            opt_view(*old(tree), *old(cursor), *old(won), *old(st), old(literals)@, old(seqs)@, *old(sc)),
        ),
        old(sc).pos + HASH_READ < win@.len(),
        d.hop >= u32::MAX,
    ensures
        opt_view(
            *final(tree),
            *final(cursor),
            *final(won),
            *final(st),
            final(literals)@,
            final(seqs)@,
            *final(sc),
        ) == opt_step(
            *c,
            win@,
            ldm@,
            opt_view(*old(tree), *old(cursor), *old(won), *old(st), old(literals)@, old(seqs)@, *old(sc)),
        ),
{
    let ghost f = opt_view(*tree, *cursor, *won, *st, literals@, seqs@, *sc);
    let i: usize = sc.pos;
    let litlen: u32 = (i - sc.anchor) as u32;
    let gated: bool = sc.pending != 0;
    proof {
        lemma_gathered(*c, win@, ldm@, f.h, i as int, f.s.rep, litlen == 0, gated);
    }
    gather(c, win, ldm, tree, cursor, won, &mut scratch.matches, i, &sc.rep, litlen == 0, gated);
    if scratch.matches.len() == 0 {
        sc.pos = i + 1;
        return;
    }
    let ghost h = hunt_of(*tree, *cursor, *won);
    let ghost ms = scratch.matches@;
    let ghost x = SeriesStart { i: i as int, lit: litlen as int, rep: sc.rep, gated, least: c.tree.min_match as int };
    let last: Match = scratch.matches[scratch.matches.len() - 1];
    let ghost z = series_at(*c, win@, ldm@, f, h, ms);
    proof {
        assert(true_match(win@, i as int, f.s.rep, litlen == 0, ms[ms.len() - 1]));
        assert(ms[ms.len() - 1].len > c.tree.min_match - 1);
    }
    if last.len as usize > c.tree.sufficient_len {
        proof {
            let step = PathStep { lit: litlen, m: last };
            assert(path(z.opt, 0).len() == 0);
            assert(series_steps(z) =~= seq![step]);
            assert(series_steps(z).drop_last() =~= Seq::empty());
            assert(emitted(f.s, f.st, win@, Seq::empty()) == (f.s, f.st));
            lemma_emit_one(win@, d, f.s, f.st, step);
        }
        assert(win@.len() == win.len());
        let anchor: usize = sc.anchor;
        st.update_stats(vstd::slice::slice_subrange(win, anchor, i), last.off, last.len);
        emit(win, sc, literals, seqs, i, last.len as usize, last.off);
        if sc.pending > 0 && last.off > 3 {
            sc.pending = sc.pending - 1;
        }
        sc.pos = sc.anchor;
        st.set_base_prices(c.ultra);
        return;
    }
    let ghost end: int;
    proof {
        lemma_first_prices(*c, f.st, win@, x, ms);
        let d0 = Dp { opt: first_prices(*c, f.st, litlen as int, f.s.rep, ms), h, jump: None, done: false };
        end = lemma_dp_run(*c, f.st, win@, ldm@, x, d0, 1);
        lemma_any_near(win@, c.tree.base as int, ldm@, z, d.hop);
        lemma_series_steps(*c, f.st, win@, ldm@, x, z, end, d, f.s, f.st);
    }
    let jump: Option<(usize, Match)> = run_series(
        c,
        st,
        win,
        ldm,
        tree,
        cursor,
        won,
        &mut scratch.matches,
        &mut scratch.opt,
        i,
        litlen,
        sc.rep,
        gated,
    );
    assert(scratch.opt@ == z.opt);
    match jump {
        Some((k, m)) => {
            emit_path(
                win,
                &scratch.opt,
                k,
                Some(m),
                st,
                literals,
                seqs,
                sc,
                Ghost(*c),
                Ghost(f.st),
                Ghost(x),
                Ghost(end),
                Ghost(d),
            );
            st.set_base_prices(c.ultra);
        },
        None => {
            let k: usize = scratch.opt.len() - 2;
            if scratch.opt[k].mlen == 0 {
                sc.pos = i + k;
            } else {
                emit_path(
                    win,
                    &scratch.opt,
                    k,
                    None,
                    st,
                    literals,
                    seqs,
                    sc,
                    Ghost(*c),
                    Ghost(f.st),
                    Ghost(x),
                    Ghost(end),
                    Ghost(d),
                );
                st.set_base_prices(c.ultra);
            }
        },
    }
}

/// Parses one block: emits its sequences and the literals behind the last one,
/// and leaves the cursors at its end. Returns whether a long-distance candidate
/// was ever the longest match.
pub fn run_once(
    c: &OptCfg,
    win: &[u8],
    ldm: &Vec<LdmSeq>,
    tree: &mut OptTree,
    st: &mut OptState,
    scratch: &mut OptScratch,
    literals: &mut Vec<u8>,
    seqs: &mut Vec<SeqWord>,
    sc: &mut Scan,
) -> (won: bool)
    requires
        opt_ready(
            *c,
            win@,
            ldm@,
            old(tree)@,
            old(st)@,
            scan_state(old(literals)@, old(seqs)@, *old(sc)),
        ),
    ensures
        ({
            let f = opt_once(
                *c,
                win@,
                ldm@,
                old(tree)@,
                old(st)@,
                scan_state(old(literals)@, old(seqs)@, *old(sc)),
            );
            &&& final(tree)@ == f.h.tree
            &&& final(st)@ == f.st
            &&& scan_state(final(literals)@, final(seqs)@, *final(sc)) == f.s
            &&& won == f.h.won
        }),
{
    let ghost d = Peer {
        start: sc.anchor as int,
        rep0: sc.rep,
        base: c.tree.base as int,
        ramp: RampGate { start: 0, end: 0, depth: 0 },
        far: u64::MAX as int,
        owed: sc.pending as int,
        least: 3,
        bar: 3,
        hop: u64::MAX as int,
        same: true,
    };
    proof {
        lemma_opt_start(*c, win@, ldm@, d, tree@, st@, scan_state(literals@, seqs@, *sc));
    }
    assert(win@.len() == win.len());
    st.rescale_freqs(c.ultra, vstd::slice::slice_subrange(win, sc.anchor, win.len()));
    tree.next_update3 = tree.next_update;
    let mut cursor: LdmCursor = LdmCursor::new();
    let mut won: bool = false;
    if c.tree.base == 0 && sc.anchor == 0 {
        sc.pos = sc.anchor + 1;
    }
    let ghost f0 = opt_view(*tree, cursor, won, *st, literals@, seqs@, *sc);
    while sc.pos < win.len() && win.len() - sc.pos > HASH_READ
        invariant
            d.hop >= u32::MAX,
            opt_inv(*c, win@, ldm@, d, opt_view(*tree, cursor, won, *st, literals@, seqs@, *sc)),
            opt_run(*c, win@, ldm@, opt_view(*tree, cursor, won, *st, literals@, seqs@, *sc)) == opt_run(
                *c,
                win@,
                ldm@,
                f0,
            ),
        decreases
            if win@.len() > sc.pos {
                win@.len() - sc.pos
            } else {
                0
            },
    {
        proof {
            lemma_opt_step(*c, win@, ldm@, d, opt_view(*tree, cursor, won, *st, literals@, seqs@, *sc));
        }
        step_opt(c, win, ldm, tree, &mut cursor, &mut won, st, scratch, literals, seqs, sc, Ghost(d));
    }
    if seqs.len() > 0 && sc.anchor < win.len() {
        append(literals, win, sc.anchor, win.len());
    }
    sc.pos = win.len();
    sc.anchor = win.len();
    won
}

/// Parameters of the optimal parse.
#[derive(Clone, Copy, PartialEq, Eq, Structural, Debug)]
pub struct OptKnobs {
    /// Compares of a search, as a power of two.
    pub search_log: u32,
    /// Matches longer than this are encoded at once.
    pub sufficient_len: u32,
    /// Shortest match, three or four bytes.
    pub min_match: u32,
    /// Bytes that the bucket hash covers.
    pub mls: u32,
    /// Bits of the ring of positions.
    pub bt_log: u32,
    /// Compares of an insertion, as a power of two.
    pub insert_log: u32,
    /// Bits of the three-byte table, or zero without one.
    pub hash3_log: u32,
    /// Fractional prices and seeded statistics.
    pub ultra: bool,
}

impl OptKnobs {
    /// Parameters that make a configuration.
    pub open spec fn wf(self) -> bool {
        &&& self.search_log < 31
        &&& self.insert_log < 31
        &&& self.sufficient_len + 2 <= crate::opt_tree::OPT_NUM
        &&& 3 <= self.min_match <= 4
        &&& self.bt_log < 31
        &&& self.hash3_log < 32
    }

    /// The configuration of a parse.
    pub open spec fn config_of(self, base: u64, origin: u32, reach: usize, table_log: u32) -> OptCfg {
        OptCfg {
            tree: TreeCfg {
                base,
                origin,
                reach,
                table_log,
                bt_log: self.bt_log,
                hash3_log: self.hash3_log,
                min_match: self.min_match as usize,
                mls: self.mls as usize,
                nb_compares: vstd::arithmetic::power2::pow2(self.search_log as nat) as usize,
                insert_compares: vstd::arithmetic::power2::pow2(self.insert_log as nat) as usize,
                sufficient_len: self.sufficient_len as usize,
            },
            ultra: self.ultra,
        }
    }

    /// The configuration of a parse.
    pub fn config(&self, base: u64, origin: u32, reach: usize, table_log: u32) -> (c: OptCfg)
        requires
            self.wf(),
        ensures
            c == self.config_of(base, origin, reach, table_log),
            c.sound(),
    {
        let nb: usize = crate::hash::slot_count(self.search_log);
        let ins: usize = crate::hash::slot_count(self.insert_log);
        OptCfg {
            tree: TreeCfg {
                base,
                origin,
                reach,
                table_log,
                bt_log: self.bt_log,
                hash3_log: self.hash3_log,
                min_match: self.min_match as usize,
                mls: self.mls as usize,
                nb_compares: nb,
                insert_compares: ins,
                sufficient_len: self.sufficient_len as usize,
            },
            ultra: self.ultra,
        }
    }
}

/// A block after its parse, with the origin that its entries are under.
pub struct OptEnd {
    pub tree: Tree,
    pub st: Stats,
    pub s: St,
    pub origin: u32,
    pub won: bool,
}

/// The span whose parse seeds fresh statistics: at the start of a frame the
/// first block itself, at the start of a job the bytes before it.
pub open spec fn seed_span(c: OptCfg, w: Seq<u8>, s: St) -> (int, int) {
    if c.tree.base + s.anchor == 0 {
        (s.anchor, w.len() as int)
    } else if s.anchor > SEED_SPAN {
        (s.anchor - SEED_SPAN, s.anchor)
    } else {
        (0, s.anchor)
    }
}

/// Whether a parse seeds its statistics first.
pub open spec fn seeds(c: OptCfg, w: Seq<u8>, st: Stats, s: St) -> bool {
    let (from, to) = seed_span(c, w, s);
    &&& c.ultra
    &&& st.fresh()
    &&& w.len() - s.anchor > PREDEF_THRESHOLD
    &&& to - from > PREDEF_THRESHOLD
}

/// A configuration for the window cut at `from`.
pub open spec fn rebased(c: OptCfg, from: int) -> OptCfg {
    OptCfg { tree: TreeCfg { base: (c.tree.base + from) as u64, ..c.tree }, ..c }
}

/// A configuration under another origin.
pub open spec fn reoriginated(c: OptCfg, origin: u32) -> OptCfg {
    OptCfg { tree: TreeCfg { origin, ..c.tree }, ..c }
}

/// A parse at the start of a window of its own.
pub open spec fn fresh_scan(s: St) -> St {
    St { lits: Seq::empty(), seqs: Seq::empty(), pos: 0, anchor: 0, ..s }
}

/// The tables, statistics and origin that a block's parse starts with. A seeding
/// parse sees nothing but its span. At the start of a frame its tree is dropped
/// by moving the origin on; at the start of a job the fill starts over.
pub open spec fn opt_seeded(c: OptCfg, w: Seq<u8>, ldm: Seq<LdmSeq>, tree: Tree, st: Stats, s: St) -> (
    Tree,
    Stats,
    u32,
) {
    if seeds(c, w, st, s) {
        let (from, to) = seed_span(c, w, s);
        let f = opt_once(rebased(c, from), w.subrange(from, to), ldm, tree, st, fresh_scan(s));
        if c.tree.base + s.anchor == 0 {
            (
                Tree { next: 0, ..f.h.tree },
                f.st,
                ((c.tree.origin + w.len() + 1) % 0x1_0000_0000) as u32,
            )
        } else {
            (Tree { next: c.tree.base as int, ..f.h.tree }, f.st, c.tree.origin)
        }
    } else {
        (tree, st, c.tree.origin)
    }
}

/// Where the fill resumes behind a block that ends at `end`: at most 192
/// positions back where the lag is clamped.
pub open spec fn clamped_next(next: int, end: int, clamp: bool) -> int {
    if clamp && end > next + 384 {
        let lag = end - next - 384;
        end - if lag < 192 {
            lag
        } else {
            192
        }
    } else {
        next
    }
}

/// A block's parse with its seeding and the clamp on the fill's lag.
pub open spec fn opt_block(
    c: OptCfg,
    w: Seq<u8>,
    ldm: Seq<LdmSeq>,
    tree: Tree,
    st: Stats,
    s: St,
    clamp: bool,
) -> OptEnd {
    let q = opt_seeded(c, w, ldm, tree, st, s);
    let f = opt_once(reoriginated(c, q.2), w, ldm, q.0, q.1, s);
    let t = f.h.tree;
    OptEnd {
        tree: Tree { next: clamped_next(t.next, c.tree.base + w.len(), clamp), ..t },
        st: f.st,
        s: f.s,
        origin: q.2,
        won: f.h.won,
    }
}

/// What a block's parse needs: the long-distance candidates lie in the block.
pub open spec fn block_ready(c: OptCfg, w: Seq<u8>, ldm: Seq<LdmSeq>, tree: Tree, st: Stats, s: St) -> bool {
    &&& opt_ready(c, w, ldm, tree, st, s)
    &&& forall|k: int| 0 <= k < ldm.len() ==> (#[trigger] ldm[k]).split >= c.tree.base + s.anchor
}

/// A seeding parse can run, and leaves what the block's parse needs.
pub proof fn lemma_seeded(c: OptCfg, w: Seq<u8>, ldm: Seq<LdmSeq>, tree: Tree, st: Stats, s: St)
    requires
        block_ready(c, w, ldm, tree, st, s),
    ensures
        ({
            let q = opt_seeded(c, w, ldm, tree, st, s);
            opt_ready(reoriginated(c, q.2), w, ldm, q.0, q.1, s)
        }),
        seeds(c, w, st, s) ==> {
            let (from, to) = seed_span(c, w, s);
            opt_ready(rebased(c, from), w.subrange(from, to), ldm, tree, st, fresh_scan(s))
        },
{
    if seeds(c, w, st, s) {
        let (from, to) = seed_span(c, w, s);
        let v = w.subrange(from, to);
        let cs = rebased(c, from);
        let fs = fresh_scan(s);
        if c.tree.base + s.anchor == 0 {
            assert(v =~= w);
        } else {
            assert forall|k: int| 0 <= k < ldm.len() implies #[trigger] crate::parse_fast::ldm_true(
                v,
                cs.tree.base as int,
                ldm[k],
            ) || ldm[k].split >= cs.tree.base + v.len() by {
                assert(ldm[k].split >= c.tree.base + s.anchor);
            }
        }
        assert(opt_ready(cs, v, ldm, tree, st, fs));
        lemma_opt_once_decodes(cs, v, ldm, fs.rep, tree, st, fs, u64::MAX as int, u64::MAX as int);
    }
}

/// A parsed block decodes back to itself, leaves the decoder's history in
/// agreement with the parse's, and reads no farther back than its tree and its
/// candidates reach. Seeding changes prices, never this.
pub proof fn lemma_opt_block_decodes(
    c: OptCfg,
    w: Seq<u8>,
    ldm: Seq<LdmSeq>,
    rep0: Reps,
    tree: Tree,
    st: Stats,
    s: St,
    clamp: bool,
    far: int,
)
    requires
        block_ready(c, w, ldm, tree, st, s),
        reps_agree(rep0, s.rep, 3 - s.pending),
        c.tree.reach <= far,
        near_ldm(ldm, far),
        s.rep.within(far),
        s.seed <= far,
    ensures
        ({
            let f = opt_block(c, w, ldm, tree, st, s, clamp);
            let z = f.s;
            let p = replay(w.take(s.anchor), rep0, z.lits, z.seqs);
            &&& decodes_to(w.take(s.anchor), rep0, z.lits, z.seqs, w)
            &&& reps_agree(p.rep, z.rep, 3 - z.pending)
            &&& rep0 == s.rep ==> p.rep == z.rep
            &&& crate::scan::carry_ok(z)
            &&& forall|k: int| 0 <= k < p.offs.len() ==> #[trigger] p.offs[k] <= far
            &&& z.rep.within(far) && z.seed <= far
            &&& paid(s.pending, z.seqs, z.pending)
            &&& long_enough(c.tree.min_match as int, c.tree.min_match as int, z.seqs)
            &&& c.tree.fits(w, f.tree)
            &&& f.st.wf()
        }),
{
    lemma_seeded(c, w, ldm, tree, st, s);
    let q = opt_seeded(c, w, ldm, tree, st, s);
    lemma_opt_once_decodes(reoriginated(c, q.2), w, ldm, rep0, q.0, q.1, s, far, far);
}

/// Parses one block, seeding fresh statistics first where the slower parse
/// starts. The origin moves on where the seeding tree is dropped. Returns whether
/// a long-distance candidate was ever the longest match.
pub fn run_block(
    c: &OptCfg,
    win: &[u8],
    ldm: &Vec<LdmSeq>,
    origin: &mut u32,
    tree: &mut OptTree,
    st: &mut OptState,
    scratch: &mut OptScratch,
    literals: &mut Vec<u8>,
    seqs: &mut Vec<SeqWord>,
    sc: &mut Scan,
    clamp_lag: bool,
) -> (won: bool)
    requires
        block_ready(
            *c,
            win@,
            ldm@,
            old(tree)@,
            old(st)@,
            scan_state(old(literals)@, old(seqs)@, *old(sc)),
        ),
        c.tree.origin == *old(origin),
    ensures
        ({
            let f = opt_block(
                *c,
                win@,
                ldm@,
                old(tree)@,
                old(st)@,
                scan_state(old(literals)@, old(seqs)@, *old(sc)),
                clamp_lag,
            );
            &&& final(tree)@ == f.tree
            &&& final(st)@ == f.st
            &&& scan_state(final(literals)@, final(seqs)@, *final(sc)) == f.s
            &&& *final(origin) == f.origin
            &&& won == f.won
        }),
{
    let ghost s0 = scan_state(literals@, seqs@, *sc);
    let ghost t0 = tree@;
    let ghost st0 = st@;
    proof {
        lemma_seeded(*c, win@, ldm@, tree@, st@, s0);
        assert(s0.lits =~= Seq::empty());
        assert(s0.seqs =~= Seq::empty());
    }
    assert(win@.len() == win.len());
    let mut cfg: OptCfg = *c;
    if c.ultra && st.lit_length_sum == 0 && win.len() - sc.anchor > PREDEF_THRESHOLD {
        let frame_start: bool = c.tree.base == 0 && sc.anchor == 0;
        let from: usize = if frame_start {
            sc.anchor
        } else if sc.anchor > SEED_SPAN {
            sc.anchor - SEED_SPAN
        } else {
            0
        };
        let to: usize = if frame_start {
            win.len()
        } else {
            sc.anchor
        };
        if to - from > PREDEF_THRESHOLD {
            let span: &[u8] = vstd::slice::slice_subrange(win, from, to);
            let sub: OptCfg = OptCfg { tree: TreeCfg { base: c.tree.base + from as u64, ..c.tree }, ..*c };
            let mut probe: Scan = Scan { pos: 0, anchor: 0, ..*sc };
            assert(scan_state(literals@, seqs@, probe) =~= fresh_scan(s0));
            run_once(&sub, span, ldm, tree, st, scratch, literals, seqs, &mut probe);
            literals.clear();
            seqs.clear();
            if frame_start {
                let o: u32 = ((*origin as u64 + win.len() as u64 + 1) % 0x1_0000_0000) as u32;
                *origin = o;
                cfg.tree.origin = o;
                tree.next_update = 0;
            } else {
                tree.next_update = c.tree.base;
            }
            assert(scan_state(literals@, seqs@, *sc) =~= s0);
        }
    }
    let ghost q = opt_seeded(*c, win@, ldm@, t0, st0, s0);
    assert(cfg == reoriginated(*c, q.2));
    assert(tree@ =~= q.0);
    proof {
        lemma_opt_once_decodes(cfg, win@, ldm@, s0.rep, q.0, q.1, s0, u64::MAX as int, u64::MAX as int);
    }
    let won: bool = run_once(&cfg, win, ldm, tree, st, scratch, literals, seqs, sc);
    let end: u64 = c.tree.base + win.len() as u64;
    if clamp_lag && end > 384 && end - 384 > tree.next_update {
        let lag: u64 = end - tree.next_update - 384;
        tree.next_update = if lag < 192 {
            end - lag
        } else {
            end - 192
        };
    }
    won
}

} // verus!
