//! Matchers that are used again: on the rows whose tables a prefill clears, a job
//! emits the same whatever its matcher did before.

use vstd::prelude::*;
use crate::driver::{frame_params, framed, reset_to, told, Drv, Mode, Place, NO_GAP};
use crate::driver_blocks::{alphabet_gated, block_parsed, caught_up, first_indexed, gate_table, gated, generated, gives_up, left_out, sampled, settled, skipped, usable, usable_among};
use crate::driver_plan::head_decided;
use crate::driver_fill::{filled, FillGrid};
use crate::driver_scan::{begin, dfast_cfg, fast_cfg, noted_block, past, row_cfg, scanned, scanned_dfast, scanned_fast, scanned_row};
use crate::frame::{costed, handled, put_back, screen_handled, BlockUse};
use crate::gates::{count_below, next_density, next_fill};
use crate::job::{job_end_of, job_handled, on_piece, Piece};
use crate::level::{InputShape, Level};
use crate::mt::job_prepared;
use crate::params::{LdmArming, ReachChoice, Strategy};
use crate::parse_dfast::dfast_block;
use crate::parse_fast::{fast_block, FastSt};
use crate::parse_row::row_block;
use crate::rows::Rows;
use crate::scan::{LdmSeq, St};
use crate::store::Store;

verus! {

/// A row whose tables a prefill clears.
pub open spec fn clearing(s: Strategy) -> bool {
    s is Fast || s is Dfast || s is Row
}

/// Two modes that parse alike: they differ at most in what only other rows or
/// streamed windows use.
pub open spec fn same_mode(a: Mode, b: Mode) -> bool {
    b == Mode {
        strip_mark: b.strip_mark,
        opt_origin: b.opt_origin,
        head_origin: b.head_origin,
        slice_size: b.slice_size,
        win_cap: b.win_cap,
        ..a
    }
}

/// The tables of the row hold the same.
pub open spec fn same_tables(d: Drv, e: Drv) -> bool {
    &&& d.store.t == e.store.t
    &&& d.mode.params.strategy is Dfast ==> d.store.ch == e.store.ch
    &&& d.mode.params.strategy is Row ==> d.store.hd == e.store.hd
}

/// All but the tables is the same.
pub open spec fn same_shell(d: Drv, e: Drv) -> bool {
    &&& same_mode(d.mode, e.mode)
    &&& d.win == e.win
    &&& d.place == e.place
    &&& d.carry == e.carry
    &&& d.lit_lens == e.lit_lens
    &&& d.ldm == e.ldm
    &&& gate_table(d) == gate_table(e)
}

/// Two matchers that parse alike from here on.
pub open spec fn alike(d: Drv, e: Drv) -> bool {
    &&& clearing(d.mode.params.strategy)
    &&& same_tables(d, e)
    &&& same_shell(d, e)
}

#[verifier::rlimit(40)]
proof fn lemma_caught_up_alike(d: Drv, e: Drv)
    requires
        alike(d, e),
    ensures
        alike(caught_up(d), caught_up(e)),
        alike(first_indexed(d), first_indexed(e)),
        alike(alphabet_gated(d), alphabet_gated(e)),
{
}

proof fn lemma_past_alike(d: Drv, e: Drv, won: bool, s: St)
    requires
        alike(d, e),
    ensures
        alike(past(d, s), past(e, s)),
        alike(past(noted_block(d, won), s), past(noted_block(e, won), s)),
{
}

proof fn lemma_fast_alike(d: Drv, e: Drv)
    requires
        alike(d, e),
        d.mode.params.strategy is Fast,
    ensures
        alike(scanned_fast(d).d, scanned_fast(e).d),
        scanned_fast(d).lits == scanned_fast(e).lits,
        scanned_fast(d).seqs == scanned_fast(e).seqs,
{
    assert(d.cut() == e.cut());
    assert(fast_cfg(d) == fast_cfg(e));
    let (f, won) = fast_block(fast_cfg(d), d.cut(), d.lit_lens, d.ldm, FastSt { t: d.store.t, s: begin(d) });
    let fill = next_fill(f.s.seqs.len() as int, f.s.lits.len() as int);
    let density = next_density(f.s.seqs.len() as int, f.s.lits.len() as int, count_below(d.lit_lens, 256, 11));
    let a = Drv {
        store: Store { t: f.t, ..d.store },
        mode: Mode { fill, density, ..d.mode },
        ldm: Seq::empty(),
        ..d
    };
    let b = Drv {
        store: Store { t: f.t, ..e.store },
        mode: Mode { fill, density, ..e.mode },
        ldm: Seq::empty(),
        ..e
    };
    assert(alike(a, b));
    lemma_past_alike(a, b, won, f.s);
}

proof fn lemma_dfast_alike(d: Drv, e: Drv, log: u32)
    requires
        alike(d, e),
        d.mode.params.strategy == Strategy::Dfast(log),
    ensures
        alike(scanned_dfast(d, log).d, scanned_dfast(e, log).d),
        scanned_dfast(d, log).lits == scanned_dfast(e, log).lits,
        scanned_dfast(d, log).seqs == scanned_dfast(e, log).seqs,
{
    assert(d.cut() == e.cut());
    assert(dfast_cfg(d, log) == dfast_cfg(e, log));
    let (f, won) = dfast_block(dfast_cfg(d, log), d.cut(), d.ldm, d.store.t, d.store.ch, begin(d));
    let a = Drv { store: Store { t: f.long, ch: f.small, ..d.store }, ldm: Seq::empty(), ..d };
    let b = Drv { store: Store { t: f.long, ch: f.small, ..e.store }, ldm: Seq::empty(), ..e };
    assert(alike(a, b));
    lemma_past_alike(a, b, won, f.s);
}

proof fn lemma_row_alike(d: Drv, e: Drv, log: u32)
    requires
        alike(d, e),
        d.mode.params.strategy == Strategy::Row(log),
    ensures
        alike(scanned_row(d, log).d, scanned_row(e, log).d),
        scanned_row(d, log).lits == scanned_row(e, log).lits,
        scanned_row(d, log).seqs == scanned_row(e, log).seqs,
{
    assert(d.cut() == e.cut());
    assert(row_cfg(d, log) == row_cfg(e, log));
    let f = row_block(
        row_cfg(d, log),
        d.cut(),
        d.lit_lens,
        Rows { t: d.store.t, hd: d.store.hd },
        begin(d),
    );
    let a = Drv { store: Store { t: f.r.t, hd: f.r.hd, ..d.store }, ldm: Seq::empty(), ..d };
    let b = Drv { store: Store { t: f.r.t, hd: f.r.hd, ..e.store }, ldm: Seq::empty(), ..e };
    assert(alike(a, b));
    lemma_past_alike(a, b, false, f.s);
}

proof fn lemma_scanned_alike(d: Drv, e: Drv)
    requires
        alike(d, e),
    ensures
        alike(scanned(d).d, scanned(e).d),
        scanned(d).lits == scanned(e).lits,
        scanned(d).seqs == scanned(e).seqs,
{
    assert(e.mode.params == d.mode.params);
    match d.mode.params.strategy {
        Strategy::Fast => {
            assert(scanned(d) == scanned_fast(d) && scanned(e) == scanned_fast(e)) by {
                reveal(scanned);
            }
            lemma_fast_alike(d, e);
        },
        Strategy::Dfast(log) => {
            assert(scanned(d) == scanned_dfast(d, log) && scanned(e) == scanned_dfast(e, log)) by {
                reveal(scanned);
            }
            lemma_dfast_alike(d, e, log);
        },
        Strategy::Row(log) => {
            assert(scanned(d) == scanned_row(d, log) && scanned(e) == scanned_row(e, log)) by {
                reveal(scanned);
            }
            lemma_row_alike(d, e, log);
        },
        _ => {},
    }
}

proof fn lemma_usable_alike(d: Drv, e: Drv, found: Seq<LdmSeq>, n: int)
    requires
        alike(d, e),
    ensures
        usable_among(d, found, n) == usable_among(e, found, n),
    decreases n,
{
    if n > 0 {
        lemma_usable_alike(d, e, found, n - 1);
        assert(d.cut() == e.cut());
        assert(usable(d, found[n - 1]) == usable(e, found[n - 1]));
    }
}

/// Matchers that are alike settle the head alike, and leave their tables alone.
pub proof fn lemma_settled_shell(d: Drv, e: Drv)
    requires
        same_shell(d, e),
    ensures
        same_shell(settled(d), settled(e)),
        settled(d).store == d.store,
        settled(e).store == e.store,
        settled(d).st == d.st,
        settled(e).st == e.st,
        settled(d).mode.params == d.mode.params,
        settled(d).mode.head_origin == d.mode.head_origin,
        settled(e).mode.head_origin == e.mode.head_origin,
        settled(d).mode.opt_origin == d.mode.opt_origin,
        settled(e).mode.opt_origin == e.mode.opt_origin,
{
    reveal(head_decided);
}

proof fn lemma_parsed_alike(d: Drv, e: Drv)
    requires
        alike(d, e),
    ensures
        alike(block_parsed(d).d, block_parsed(e).d),
        block_parsed(d).lits == block_parsed(e).lits,
        block_parsed(d).seqs == block_parsed(e).seqs,
{
    lemma_settled_shell(d, e);
    let a = settled(d);
    let b = settled(e);
    lemma_caught_up_alike(a, b);
    lemma_caught_up_alike(caught_up(a), caught_up(b));
    lemma_scanned_alike(alphabet_gated(caught_up(a)), alphabet_gated(caught_up(b)));
}

proof fn lemma_generated_alike(d: Drv, e: Drv, found: Seq<LdmSeq>)
    requires
        alike(d, e),
    ensures
        alike(generated(d, found), generated(e, found)),
{
    lemma_usable_alike(d, e, found, found.len() as int);
}

proof fn lemma_offered_alike(d: Drv, e: Drv, found: Seq<LdmSeq>)
    requires
        alike(d, e),
    ensures
        ({
            let x = block_parsed(generated(alphabet_gated(d), found));
            let y = block_parsed(generated(alphabet_gated(e), found));
            &&& alike(x.d, y.d)
            &&& x.lits == y.lits
            &&& x.seqs == y.seqs
        }),
{
    let a = alphabet_gated(d);
    let b = alphabet_gated(e);
    lemma_caught_up_alike(d, e);
    lemma_generated_alike(a, b, found);
    lemma_parsed_alike(generated(a, found), generated(b, found));
}

proof fn lemma_ended_alike(d: Drv, e: Drv, pos: u64)
    requires
        alike(d, e),
    ensures
        alike(Drv { place: Place { pos, ..d.place }, ..d }, Drv { place: Place { pos, ..e.place }, ..e }),
{
}

proof fn lemma_skipped_alike(d: Drv, e: Drv)
    requires
        alike(d, e),
    ensures
        alike(skipped(d), skipped(e)),
{
    let a = first_indexed(d);
    let b = first_indexed(e);
    lemma_caught_up_alike(d, e);
    lemma_caught_up_alike(a, b);
    assert(alphabet_gated(a).place == d.place && alphabet_gated(b).place == e.place);
    lemma_ended_alike(alphabet_gated(a), alphabet_gated(b), d.place.block_end);
}

proof fn lemma_left_out_alike(d: Drv, e: Drv)
    requires
        alike(d, e),
    ensures
        alike(left_out(d), left_out(e)),
{
    let gap_start = if d.mode.gap_start == NO_GAP {
        d.place.block_start
    } else {
        d.mode.gap_start
    };
    let a = Drv { mode: Mode { gap_start, ..d.mode }, ..d };
    let b = Drv { mode: Mode { gap_start, ..e.mode }, ..e };
    assert(alike(a, b));
    lemma_caught_up_alike(a, b);
    assert(alphabet_gated(a).place == d.place && alphabet_gated(b).place == e.place);
    lemma_ended_alike(alphabet_gated(a), alphabet_gated(b), d.place.block_end);
}

/// Matchers that differ at most in their tables see the same in a block.
pub proof fn lemma_sampled_shell(d: Drv, e: Drv, dense: bool)
    requires
        same_shell(d, e),
    ensures
        same_shell(sampled(d, dense), sampled(e, dense)),
        gated(d).1 == gated(e).1,
        sampled(d, dense).store == d.store,
        sampled(e, dense).store == e.store,
        sampled(d, dense).st == d.st,
        sampled(e, dense).st == e.st,
{
    assert(d.block() == e.block());
}

proof fn lemma_screened_alike(d: Drv, e: Drv, dense: bool, found: Seq<LdmSeq>)
    requires
        alike(d, e),
    ensures
        screen_handled(d, dense, found).1 == screen_handled(e, dense, found).1,
        alike(screen_handled(d, dense, found).0, screen_handled(e, dense, found).0),
{
    assert(d.block() == e.block());
    lemma_sampled_shell(d, e, dense);
    let a = sampled(d, dense);
    let b = sampled(e, dense);
    assert(alike(a, b));
    if gives_up(gated(d).1, dense) {
        lemma_left_out_alike(a, b);
    } else {
        lemma_offered_alike(a, b, found);
    }
}

proof fn lemma_costed_alike(d: Drv, e: Drv, costs: Option<Seq<u8>>)
    requires
        alike(d, e),
    ensures
        alike(costed(d, costs), costed(e, costs)),
{
}

proof fn lemma_put_back_alike(f: Drv, g: Drv, d: Drv, e: Drv)
    requires
        alike(f, g),
        d.carry == e.carry,
    ensures
        alike(put_back(f, d), put_back(g, e)),
{
}

/// Matchers that are alike do the same with a block, and stay alike.
#[verifier::rlimit(40)]
pub proof fn lemma_handled_alike(d: Drv, e: Drv, how: BlockUse)
    requires
        alike(d, e),
    ensures
        handled(d, how).1 == handled(e, how).1,
        alike(handled(d, how).0, handled(e, how).0),
{
    reveal(handled);
    assert(d.block() == e.block());
    match how {
        BlockUse::Parsed => {
            lemma_parsed_alike(d, e);
        },
        BlockUse::Offered { found } => {
            lemma_offered_alike(d, e, found);
        },
        BlockUse::Skipped => {
            lemma_skipped_alike(d, e);
        },
        BlockUse::LeftOut => {
            lemma_left_out_alike(d, e);
        },
        BlockUse::Screened { costs, dense, found } => {
            lemma_costed_alike(d, e, costs);
            lemma_screened_alike(costed(d, costs), costed(e, costs), dense, found);
        },
        BlockUse::Dropped { costs, dense, found } => {
            let a = costed(d, costs);
            let b = costed(e, costs);
            lemma_costed_alike(d, e, costs);
            lemma_screened_alike(a, b, dense, found);
            lemma_put_back_alike(screen_handled(a, dense, found).0, screen_handled(b, dense, found).0, d, e);
        },
    }
}

/// A prefill leaves nothing of what the tables held.
pub proof fn lemma_fill_forgets(d: Drv, e: Drv, w: Seq<u8>, base: u64)
    requires
        d.wf(),
        e.wf(),
        clearing(d.mode.params.strategy),
        same_mode(d.mode, e.mode),
        d.win == e.win,
        d.place == e.place,
        d.carry == e.carry,
        d.lit_lens == e.lit_lens,
        d.ldm == e.ldm,
    ensures
        alike(
            filled(d, w, base, FillGrid::Strip, true),
            filled(e, w, base, FillGrid::Strip, true),
        ),
{
    let f = filled(d, w, base, FillGrid::Strip, true);
    let g = filled(e, w, base, FillGrid::Strip, true);
    assert(f.store.t =~= g.store.t);
    assert(d.mode.params.strategy is Dfast ==> f.store.ch =~= g.store.ch);
    assert(d.mode.params.strategy is Row ==> f.store.hd =~= g.store.hd);
    assert(gate_table(f) =~= gate_table(g));
}

/// Preparing a matcher for a job leaves nothing of its last frame but the tables.
pub proof fn lemma_prepared_alike(
    d: Drv,
    e: Drv,
    level: Level,
    shape: InputShape,
    choice: ReachChoice,
    arming: LdmArming,
    start: u64,
    depth: u64,
)
    ensures
        ({
            let a = job_prepared(d, level, shape, choice, arming, start, depth);
            let b = job_prepared(e, level, shape, choice, arming, start, depth);
            &&& same_mode(a.mode, b.mode)
            &&& a.win == b.win
            &&& a.place == b.place
            &&& a.carry == b.carry
            &&& a.lit_lens == b.lit_lens
            &&& a.ldm == b.ldm
        }),
{
    let m = Mode { input: told(shape), reach_choice: choice, arming, ..d.mode };
    let n = Mode { input: told(shape), reach_choice: choice, arming, ..e.mode };
    assert(frame_params(level, framed(m)) == frame_params(level, framed(n))) by {
        reveal(frame_params);
    }
    let a = reset_to(Drv { mode: m, ..d }, level);
    let b = reset_to(Drv { mode: n, ..e }, level);
    assert(a.mode.params == b.mode.params);
    assert(a.mode.ldm == b.mode.ldm);
    assert(same_mode(a.mode, b.mode));
}

/// Matchers that are alike emit the same job.
pub proof fn lemma_job_alike(d: Drv, e: Drv, src: Seq<u8>, start: int, pieces: Seq<Piece>)
    requires
        alike(d, e),
    ensures
        job_handled(d, src, start, pieces).1 == job_handled(e, src, start, pieces).1,
        alike(job_handled(d, src, start, pieces).0, job_handled(e, src, start, pieces).0),
    decreases pieces.len(),
{
    if pieces.len() > 0 {
        let before = pieces.drop_last();
        lemma_job_alike(d, e, src, start, before);
        let f = job_handled(d, src, start, before).0;
        let g = job_handled(e, src, start, before).0;
        let at = job_end_of(start, before);
        let a = on_piece(f, src, at, pieces.last());
        let b = on_piece(g, src, at, pieces.last());
        assert(alike(a, b));
        lemma_handled_alike(a, b, pieces.last().how);
    }
}

/// A job's output does not depend on what its matcher did before: prepared for the
/// job and prefilled with its strip, any two matchers emit the same.
pub proof fn lemma_job_forgets(
    d: Drv,
    e: Drv,
    level: Level,
    shape: InputShape,
    choice: ReachChoice,
    arming: LdmArming,
    src: Seq<u8>,
    from: u64,
    start: u64,
    depth: u64,
    pieces: Seq<Piece>,
)
    requires
        from <= start <= src.len(),
        ({
            let a = job_prepared(d, level, shape, choice, arming, start, depth);
            let b = job_prepared(e, level, shape, choice, arming, start, depth);
            &&& a.wf()
            &&& b.wf()
            &&& clearing(a.mode.params.strategy)
        }),
    ensures
        ({
            let strip = src.subrange(from as int, start as int);
            let a = job_prepared(d, level, shape, choice, arming, start, depth);
            let b = job_prepared(e, level, shape, choice, arming, start, depth);
            job_handled(filled(a, strip, from, FillGrid::Strip, true), src, start as int, pieces).1 == job_handled(
                filled(b, strip, from, FillGrid::Strip, true),
                src,
                start as int,
                pieces,
            ).1
        }),
{
    let strip = src.subrange(from as int, start as int);
    let a = job_prepared(d, level, shape, choice, arming, start, depth);
    let b = job_prepared(e, level, shape, choice, arming, start, depth);
    lemma_prepared_alike(d, e, level, shape, choice, arming, start, depth);
    lemma_fill_forgets(a, b, strip, from);
    lemma_job_alike(
        filled(a, strip, from, FillGrid::Strip, true),
        filled(b, strip, from, FillGrid::Strip, true),
        src,
        start as int,
        pieces,
    );
}

} // verus!
