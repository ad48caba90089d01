//! The parse of a block: every strategy over the matcher's window and tables,
//! with what it carries into the next block.

use vstd::prelude::*;
use crate::chains::{Heads, LinkCfg, WalkCfg};
use crate::driver::{Carry, Drv, LdmUse, MatchGeneratorDriver, Mode, Place};
use crate::gates::{count_below, covered_lit_symbols, is_small_dense_wide, next_density, next_fill, small_dense_wide, CoveredFill, RampGate, ScanDensity, SMALL_DENSE_TINY_MAX};
use crate::hash::{slots, ChainHashWidth};
use crate::lazy::PickCfg;
use crate::opt_series::OptCfg;
use crate::params::{Strategy, LDM_QUIET};
use crate::parse_chain::{chain_block, start_matching_chain, ChainCfg};
use crate::parse_dfast::{dfast_block, start_matching_dfast, DfastCfg};
use crate::parse_fast::{fast_block, ldm_true, start_matching_fast, FastCfg, FastSt};
use crate::parse_opt::{block_ready, opt_block, run_block, OptKnobs};
use crate::parse_row::{row_block, start_matching_row, RowScanCfg};
use crate::rows::{RowCfg, Rows};
use crate::scan::{in_bounds, in_step, legal_reads, scan_state, Peer, Scan, St};
use crate::seq_codes::SeqWord;
use crate::sequence::{decodes_to, lemma_long_enough_for, lemma_nothing_paid, lemma_synced_start, long_enough, paid, replay, reps_agree, Reps};
use crate::store::Store;

verus! {

/// A parsed block: the matcher after it, and what it emitted.
#[verifier::ext_equal]
pub struct Parse {
    pub d: Drv,
    pub lits: Seq<u8>,
    pub seqs: Seq<SeqWord>,
}

/// The scan that a block starts with.
pub open spec fn begin(d: Drv) -> St {
    St {
        lits: Seq::empty(),
        seqs: Seq::empty(),
        rep: d.carry.rep,
        pos: d.at(),
        anchor: d.at(),
        miss: d.carry.miss as int,
        pending: d.carry.pending as int,
        seed: d.carry.seed as int,
        hits: d.carry.hits as int,
        budget: d.carry.budget as int,
    }
}

/// What a finished scan hands on.
pub open spec fn carried(s: St) -> Carry {
    Carry {
        rep: s.rep,
        pending: s.pending as u8,
        miss: s.miss as u64,
        seed: s.seed as u32,
        hits: s.hits as u8,
        budget: s.budget as u32,
    }
}

/// A matcher after the scan `s` of its block.
pub open spec fn past(d: Drv, s: St) -> Drv {
    Drv { carry: carried(s), place: Place { pos: d.place.block_end, ..d.place }, ..d }
}

/// The small-input policy of the one-table and two-table strategies: a wide
/// alphabet, or very few bytes.
pub open spec fn small_wide(d: Drv) -> bool {
    d.mode.params.small_src && (is_small_dense_wide(d.win) || d.win.len() <= SMALL_DENSE_TINY_MAX)
}

/// Configuration of the one-table strategy.
pub open spec fn fast_cfg(d: Drv) -> FastCfg {
    let m = d.mode;
    FastCfg {
        base: d.place.base,
        log: m.params.hash_log,
        reach: m.params.reach_of(),
        fill: m.fill,
        ramp: m.ramp,
        dense: m.density is Dense,
        small_wide: m.density is Plain && small_wide(d),
    }
}

/// Configuration of the two-table strategy.
pub open spec fn dfast_cfg(d: Drv, log: u32) -> DfastCfg {
    let m = d.mode;
    DfastCfg {
        base: d.place.base,
        long_log: m.params.hash_log,
        small_log: log,
        width: if m.dict_row || small_wide(d) {
            ChainHashWidth::Four
        } else {
            ChainHashWidth::Five
        },
        reach: m.params.reach_of(),
        ramp: m.ramp,
    }
}

/// How a chain or a row chooses among its matches.
pub open spec fn pick_cfg(d: Drv) -> PickCfg {
    PickCfg {
        base: d.place.base,
        ramp: d.mode.ramp,
        lazy: d.mode.params.lazy_depth as u8,
        min_match: d.mode.params.min_match,
        dict_row: d.mode.dict_row,
    }
}

/// Configuration of the chain strategy.
pub open spec fn chain_cfg(d: Drv) -> ChainCfg {
    let m = d.mode;
    ChainCfg {
        link: LinkCfg {
            base: d.place.base,
            origin: m.head_origin,
            log: m.params.hash_log,
            width: m.width(),
        },
        walk: WalkCfg { depth: m.params.search_depth, reach: m.params.reach_of(), ramp: m.ramp },
        pick: pick_cfg(d),
        fill: if m.dict_row {
            CoveredFill::DictDense
        } else {
            CoveredFill::Dense
        },
    }
}

/// Configuration of the row strategy: no more candidates than a row has besides
/// its newest.
pub open spec fn row_cfg(d: Drv, log: u32) -> RowScanCfg {
    let m = d.mode;
    RowScanCfg {
        row: RowCfg {
            base: d.place.base,
            log: m.params.hash_log,
            row_log: log,
            width: m.width(),
            attempts: if m.params.search_depth < slots(log) - 1 {
                m.params.search_depth as usize
            } else {
                (slots(log) - 1) as usize
            },
            reach: m.params.reach_of(),
            ramp: m.ramp,
        },
        pick: pick_cfg(d),
    }
}

/// Configuration of the optimal parse.
pub open spec fn opt_cfg(d: Drv, k: OptKnobs) -> OptCfg {
    k.config_of(d.place.base, d.mode.opt_origin, d.mode.params.reach_of(), d.mode.params.hash_log)
}

/// Bookkeeping of long-distance matching after a block: a win starts the count of
/// quiet blocks anew, too many of them shut the generation off. Blocks count once
/// the window could hold a far repeat.
pub open spec fn noted_block(d: Drv, won: bool) -> Drv {
    let u = d.mode.ldm;
    let quiet: u8 = if won {
        0
    } else if d.place.block_end - d.place.base > d.mode.params.window && u.quiet < 255 {
        (u.quiet + 1) as u8
    } else {
        u.quiet
    };
    let counts = !won && d.place.block_end - d.place.base > d.mode.params.window;
    if u.on {
        Drv {
            mode: Mode {
                ldm: LdmUse { quiet, dead: u.dead || (counts && quiet >= LDM_QUIET), ..u },
                ..d.mode
            },
            ..d
        }
    } else {
        d
    }
}

/// The parse of a block with one table.
pub open spec fn scanned_fast(d: Drv) -> Parse {
    let (f, won) = fast_block(
        fast_cfg(d),
        d.cut(),
        d.lit_lens,
        d.ldm,
        FastSt { t: d.store.t, s: begin(d) },
    );
    let nseqs = f.s.seqs.len() as int;
    let nlits = f.s.lits.len() as int;
    let e = Drv {
        store: Store { t: f.t, ..d.store },
        mode: Mode {
            fill: next_fill(nseqs, nlits),
            density: next_density(nseqs, nlits, count_below(d.lit_lens, 256, 11)),
            ..d.mode
        },
        ldm: Seq::empty(),
        ..d
    };
    Parse { d: past(noted_block(e, won), f.s), lits: f.s.lits, seqs: f.s.seqs }
}

/// The parse of a block with two tables.
pub open spec fn scanned_dfast(d: Drv, log: u32) -> Parse {
    let (f, won) = dfast_block(dfast_cfg(d, log), d.cut(), d.ldm, d.store.t, d.store.ch, begin(d));
    let e = Drv { store: Store { t: f.long, ch: f.small, ..d.store }, ldm: Seq::empty(), ..d };
    Parse { d: past(noted_block(e, won), f.s), lits: f.s.lits, seqs: f.s.seqs }
}

/// The parse of a block with a chain.
pub open spec fn scanned_chain(d: Drv) -> Parse {
    let h = Heads { t: d.store.t, ch: d.store.ch };
    let f = chain_block(chain_cfg(d), d.cut(), d.lit_lens, d.ldm, h, begin(d));
    let e = Drv { store: Store { t: f.h.t, ch: f.h.ch, ..d.store }, ldm: Seq::empty(), ..d };
    Parse { d: past(noted_block(e, f.won), f.s), lits: f.s.lits, seqs: f.s.seqs }
}

/// The parse of a block with rows.
pub open spec fn scanned_row(d: Drv, log: u32) -> Parse {
    let r = Rows { t: d.store.t, hd: d.store.hd };
    let f = row_block(row_cfg(d, log), d.cut(), d.lit_lens, r, begin(d));
    let e = Drv { store: Store { t: f.r.t, hd: f.r.hd, ..d.store }, ldm: Seq::empty(), ..d };
    Parse { d: past(e, f.s), lits: f.s.lits, seqs: f.s.seqs }
}

/// Whether the optimal parse catches up with what its tree has not indexed: only
/// where long-distance matching was given up for a poor alphabet.
pub open spec fn clamps(d: Drv) -> bool {
    d.mode.ldm.checked && !d.mode.ldm.on && !d.mode.strip_parse
}

/// The optimal parse of a block.
pub open spec fn scanned_opt(d: Drv, k: OptKnobs) -> Parse {
    if d.at() == d.cut().len() {
        Parse {
            d: noted_block(Drv { ldm: Seq::empty(), ..d }, false),
            lits: Seq::empty(),
            seqs: Seq::empty(),
        }
    } else {
        let f = opt_block(opt_cfg(d, k), d.cut(), d.ldm, d.store.tree, d.st, begin(d), clamps(d));
        let e = Drv {
            store: Store { tree: f.tree, ..d.store },
            st: f.st,
            mode: Mode { opt_origin: f.origin, ..d.mode },
            ldm: Seq::empty(),
            ..d
        };
        Parse { d: past(noted_block(e, f.won), f.s), lits: f.s.lits, seqs: f.s.seqs }
    }
}

/// The parse of a block by its row's strategy: what a block emits and how it
/// leaves the tables is that of the strategy's scan over the window up to the
/// block's end.
#[verifier::opaque]
pub open spec fn scanned(d: Drv) -> Parse {
    match d.mode.params.strategy {
        Strategy::Fast => scanned_fast(d),
        Strategy::Dfast(log) => scanned_dfast(d, log),
        Strategy::Chain(_) => scanned_chain(d),
        Strategy::Row(log) => scanned_row(d, log),
        Strategy::Opt(k) => scanned_opt(d, k),
        Strategy::BtLazy(_) => Parse { d, lits: Seq::empty(), seqs: Seq::empty() },
    }
}

/// The long-distance candidates belong to the block and repeat earlier bytes.
pub open spec fn ldm_fits(d: Drv) -> bool {
    forall|k: int|
        0 <= k < d.ldm.len() ==> {
            &&& #[trigger] ldm_true(d.cut(), d.place.base as int, d.ldm[k])
            &&& d.ldm[k].split >= d.place.block_start
        }
}

/// A block waits, with candidates that belong to it.
pub open spec fn block_waits(d: Drv) -> bool {
    &&& d.ready()
    &&& ldm_fits(d)
}

/// A block waits to be parsed by its row.
pub open spec fn scan_ready(d: Drv) -> bool {
    &&& block_waits(d)
    &&& !(d.mode.params.strategy is BtLazy)
}

/// Which reads a decoder of the block may count on: with a ramp, every candidate
/// of the block must respect it, and the strategy must follow it.
pub open spec fn ramp_holds(d: Drv, ramp: RampGate) -> bool {
    ramp.end == 0 || {
        &&& ramp == d.mode.ramp
        &&& !(d.mode.params.strategy is Opt)
        &&& forall|k: int|
            0 <= k < d.ldm.len() ==> !ramp.shallow((#[trigger] d.ldm[k]).split - d.ldm[k].offset)
    }
}

/// Nothing that the block's parse can refer to is farther back than `far`.
pub open spec fn far_holds(d: Drv, far: int) -> bool {
    &&& d.mode.params.reach_of() <= far
    &&& d.carry.rep.within(far)
    &&& d.carry.seed <= far
    &&& forall|k: int| 0 <= k < d.ldm.len() ==> (#[trigger] d.ldm[k]).offset <= far
}

/// What a decoder makes of a parsed block: with the window before the block as
/// its history, it rebuilds the block, its repeated offsets stay in agreement with
/// the matcher's, and its reads respect the ramp and lie no farther back than
/// `far`.
pub open spec fn rebuilds(d: Drv, rep0: Reps, ramp: RampGate, far: int, p: Parse) -> bool {
    let w = d.cut();
    let hist = w.take(d.at());
    let r = replay(hist, rep0, p.lits, p.seqs);
    &&& decodes_to(hist, rep0, p.lits, p.seqs, w)
    &&& reps_agree(r.rep, p.d.carry.rep, 3 - p.d.carry.pending)
    &&& rep0 == d.carry.rep ==> r.rep == p.d.carry.rep
    &&& legal_reads(w, Peer { start: d.at(), rep0, base: d.place.base as int, ramp, far, owed: d.carry.pending as int, least: 3, bar: 3, hop: far, same: rep0 == d.carry.rep }, p.lits, p.seqs)
}

/// A block starts in agreement with its decoder.
pub proof fn lemma_begin(d: Drv, rep0: Reps, ramp: RampGate, far: int, bar: int)
    requires
        d.ready(),
        reps_agree(rep0, d.carry.rep, 3 - d.carry.pending),
        d.carry.rep.within(far),
        d.carry.seed <= far,
    ensures
        in_step(d.cut(), Peer { start: d.at(), rep0, base: d.place.base as int, ramp, far, owed: d.carry.pending as int, least: 3, bar, hop: far, same: rep0 == d.carry.rep }, begin(d)),
        d.cut().len() == d.place.block_end - d.place.base,
        0 <= d.at() <= d.cut().len(),
{
    lemma_synced_start(d.cut(), d.at(), rep0, d.carry.rep, d.carry.pending as int);
    lemma_nothing_paid(d.carry.pending as int, 3, bar);
}

/// What a finished scan leaves is what the next block needs.
proof fn lemma_carried(s: St)
    requires
        crate::scan::carry_ok(s),
    ensures
        carried(s).wf(),
        carried(s).rep == s.rep,
        carried(s).pending == s.pending,
{
}

/// What every strategy's parse keeps.
pub open spec fn parse_keeps(d: Drv, rep0: Reps, ramp: RampGate, far: int, p: Parse) -> bool {
    &&& p.d.wf()
    &&& p.d.win == d.win
    &&& p.d.place == (Place { pos: d.place.block_end, ..d.place })
    &&& p.d.ldm.len() == 0
    &&& p.d.mode.params == d.mode.params
    &&& p.d.mode.slice_size == d.mode.slice_size
    &&& p.d.mode.win_cap == d.mode.win_cap
    &&& p.d.mode.direct == d.mode.direct
    &&& rebuilds(d, rep0, ramp, far, p)
    &&& p.d.carry.rep.within(far)
    &&& p.d.carry.seed <= far
    &&& paid(d.carry.pending as int, p.seqs, p.d.carry.pending as int)
    &&& long_enough(3, d.mode.params.bar(), p.seqs)
}

/// Bookkeeping of long-distance matching keeps the rest.
pub proof fn lemma_noted(d: Drv, won: bool)
    ensures
        ({
            let e = noted_block(d, won);
            &&& d.wf() ==> e.wf()
            &&& e == (Drv { mode: Mode { ldm: e.mode.ldm, ..d.mode }, ..d })
        }),
{
}

/// A finished scan leaves a matcher that fits.
proof fn lemma_past(d: Drv, s: St)
    requires
        crate::scan::carry_ok(s),
        d.has_block(),
        d.wf(),
    ensures
        past(d, s).wf(),
        past(d, s).carry.rep == s.rep,
        past(d, s).carry.pending == s.pending,
{
    lemma_carried(s);
}

proof fn lemma_scanned_fast(d: Drv, rep0: Reps, ramp: RampGate, far: int)
    requires
        scan_ready(d),
        d.mode.params.strategy is Fast,
        reps_agree(rep0, d.carry.rep, 3 - d.carry.pending),
        ramp_holds(d, ramp),
        far_holds(d, far),
    ensures
        parse_keeps(d, rep0, ramp, far, scanned_fast(d)),
{
    let w = d.cut();
    let peer = Peer { start: d.at(), rep0, base: d.place.base as int, ramp, far, owed: d.carry.pending as int, least: 3, bar: d.mode.params.bar(), hop: far, same: rep0 == d.carry.rep };
    lemma_begin(d, rep0, ramp, far, d.mode.params.bar());
    let f = FastSt { t: d.store.t, s: begin(d) };
    crate::parse_fast::lemma_fast_block_decodes(fast_cfg(d), w, d.lit_lens, peer, d.ldm, f);
    let (g, won) = fast_block(fast_cfg(d), w, d.lit_lens, d.ldm, f);
    let nseqs = g.s.seqs.len() as int;
    let nlits = g.s.lits.len() as int;
    let e = Drv {
        store: Store { t: g.t, ..d.store },
        mode: Mode {
            fill: next_fill(nseqs, nlits),
            density: next_density(nseqs, nlits, count_below(d.lit_lens, 256, 11)),
            ..d.mode
        },
        ldm: Seq::empty(),
        ..d
    };
    assert(e.wf());
    lemma_noted(e, won);
    lemma_past(noted_block(e, won), g.s);
}

proof fn lemma_scanned_dfast(d: Drv, log: u32, rep0: Reps, ramp: RampGate, far: int)
    requires
        scan_ready(d),
        d.mode.params.strategy == Strategy::Dfast(log),
        reps_agree(rep0, d.carry.rep, 3 - d.carry.pending),
        ramp_holds(d, ramp),
        far_holds(d, far),
    ensures
        parse_keeps(d, rep0, ramp, far, scanned_dfast(d, log)),
{
    let w = d.cut();
    let peer = Peer { start: d.at(), rep0, base: d.place.base as int, ramp, far, owed: d.carry.pending as int, least: 3, bar: d.mode.params.bar(), hop: far, same: rep0 == d.carry.rep };
    lemma_begin(d, rep0, ramp, far, d.mode.params.bar());
    let c = dfast_cfg(d, log);
    crate::parse_dfast::lemma_dfast_block_decodes(c, w, peer, d.ldm, d.store.t, d.store.ch, begin(d));
    let (f, won) = dfast_block(c, w, d.ldm, d.store.t, d.store.ch, begin(d));
    let e = Drv { store: Store { t: f.long, ch: f.small, ..d.store }, ldm: Seq::empty(), ..d };
    assert(e.wf());
    lemma_noted(e, won);
    lemma_past(noted_block(e, won), f.s);
}

proof fn lemma_scanned_chain(d: Drv, log: u32, rep0: Reps, ramp: RampGate, far: int)
    requires
        scan_ready(d),
        d.mode.params.strategy == Strategy::Chain(log),
        reps_agree(rep0, d.carry.rep, 3 - d.carry.pending),
        ramp_holds(d, ramp),
        far_holds(d, far),
    ensures
        parse_keeps(d, rep0, ramp, far, scanned_chain(d)),
{
    let w = d.cut();
    let peer = Peer { start: d.at(), rep0, base: d.place.base as int, ramp, far, owed: d.carry.pending as int, least: 3, bar: d.mode.params.bar(), hop: far, same: rep0 == d.carry.rep };
    lemma_begin(d, rep0, ramp, far, d.mode.params.bar());
    let c = chain_cfg(d);
    let h = Heads { t: d.store.t, ch: d.store.ch };
    crate::bits::lemma_pow2_monotone(0, log as nat);
    vstd::arithmetic::power2::lemma2_to64();
    crate::parse_chain::lemma_chain_block_decodes(c, w, d.lit_lens, peer, d.ldm, h, begin(d));
    let f = chain_block(c, w, d.lit_lens, d.ldm, h, begin(d));
    let e = Drv { store: Store { t: f.h.t, ch: f.h.ch, ..d.store }, ldm: Seq::empty(), ..d };
    assert(e.wf());
    lemma_noted(e, f.won);
    lemma_past(noted_block(e, f.won), f.s);
}

proof fn lemma_scanned_row(d: Drv, log: u32, rep0: Reps, ramp: RampGate, far: int)
    requires
        scan_ready(d),
        d.mode.params.strategy == Strategy::Row(log),
        reps_agree(rep0, d.carry.rep, 3 - d.carry.pending),
        ramp_holds(d, ramp),
        far_holds(d, far),
    ensures
        parse_keeps(d, rep0, ramp, far, scanned_row(d, log)),
{
    let w = d.cut();
    let peer = Peer { start: d.at(), rep0, base: d.place.base as int, ramp: d.mode.ramp, far, owed: d.carry.pending as int, least: 3, bar: d.mode.params.bar(), hop: far, same: rep0 == d.carry.rep };
    lemma_begin(d, rep0, d.mode.ramp, far, d.mode.params.bar());
    let c = row_cfg(d, log);
    let r = Rows { t: d.store.t, hd: d.store.hd };
    crate::parse_row::lemma_row_block_decodes(c, w, d.lit_lens, peer, r, begin(d));
    let f = row_block(c, w, d.lit_lens, r, begin(d));
    let e = Drv { store: Store { t: f.r.t, hd: f.r.hd, ..d.store }, ldm: Seq::empty(), ..d };
    assert(e.wf());
    lemma_past(e, f.s);
}

/// A block that waits is fit for the optimal parse.
proof fn lemma_opt_ready(d: Drv, k: OptKnobs)
    requires
        scan_ready(d),
        d.mode.params.strategy == Strategy::Opt(k),
        d.at() < d.cut().len(),
    ensures
        block_ready(opt_cfg(d, k), d.cut(), d.ldm, d.store.tree, d.st, begin(d)),
{
    let c = opt_cfg(d, k);
    lemma_begin(d, d.carry.rep, RampGate::off_gate(), u64::MAX as int, d.mode.params.bar());
    assert(c.tree.fits(d.cut(), d.store.tree));
    assert(c.sound());
    assert forall|i: int| 0 <= i < d.ldm.len() implies (#[trigger] d.ldm[i]).split >= c.tree.base + begin(d).anchor by {
        assert(ldm_true(d.cut(), d.place.base as int, d.ldm[i]));
    }
}

proof fn lemma_scanned_opt(d: Drv, k: OptKnobs, rep0: Reps, ramp: RampGate, far: int)
    requires
        scan_ready(d),
        d.mode.params.strategy == Strategy::Opt(k),
        reps_agree(rep0, d.carry.rep, 3 - d.carry.pending),
        ramp_holds(d, ramp),
        far_holds(d, far),
    ensures
        parse_keeps(d, rep0, ramp, far, scanned_opt(d, k)),
{
    let w = d.cut();
    lemma_begin(d, rep0, ramp, far, d.mode.params.bar());
    let c = opt_cfg(d, k);
    if d.at() < w.len() {
        lemma_opt_ready(d, k);
        crate::parse_opt::lemma_opt_block_decodes(
            c,
            w,
            d.ldm,
            rep0,
            d.store.tree,
            d.st,
            begin(d),
            clamps(d),
            far,
        );
        let f = opt_block(c, w, d.ldm, d.store.tree, d.st, begin(d), clamps(d));
        let e = Drv {
            store: Store { tree: f.tree, ..d.store },
            st: f.st,
            mode: Mode { opt_origin: f.origin, ..d.mode },
            ldm: Seq::empty(),
            ..d
        };
        assert(e.wf());
        lemma_noted(e, f.won);
        lemma_past(noted_block(e, f.won), f.s);
        lemma_long_enough_for(k.min_match as int, k.min_match as int, 3, k.min_match as int, f.s.seqs);
    } else {
        let e = Drv { ldm: Seq::empty(), ..d };
        lemma_noted(e, false);
        lemma_nothing_paid(d.carry.pending as int, 3, k.min_match as int);
    }
}

/// A parsed block decodes back to itself whatever its strategy, leaves the decoder
/// in agreement with the matcher, and respects the ramp and the decoder's reach.
pub proof fn lemma_scanned(d: Drv, rep0: Reps, ramp: RampGate, far: int)
    requires
        scan_ready(d),
        reps_agree(rep0, d.carry.rep, 3 - d.carry.pending),
        ramp_holds(d, ramp),
        far_holds(d, far),
    ensures
        parse_keeps(d, rep0, ramp, far, scanned(d)),
{
    reveal(scanned);
    match d.mode.params.strategy {
        Strategy::Fast => lemma_scanned_fast(d, rep0, ramp, far),
        Strategy::Dfast(log) => lemma_scanned_dfast(d, log, rep0, ramp, far),
        Strategy::Chain(log) => lemma_scanned_chain(d, log, rep0, ramp, far),
        Strategy::Row(log) => lemma_scanned_row(d, log, rep0, ramp, far),
        Strategy::Opt(k) => lemma_scanned_opt(d, k, rep0, ramp, far),
        Strategy::BtLazy(_) => {},
    }
}

impl Drv {
    /// The scan `sc` is the one that the block starts with.
    pub open spec fn starts_with(self, sc: Scan) -> bool {
        scan_state(Seq::empty(), Seq::empty(), sc) == begin(self)
    }
}

impl MatchGeneratorDriver {
    /// The scan that the block starts with.
    fn scan_start(&self) -> (sc: Scan)
        requires
            self@.ready(),
        ensures
            self@.starts_with(sc),
            in_bounds(self@.cut(), scan_state(Seq::empty(), Seq::empty(), sc)),
            sc.pos == sc.anchor,
    {
        assert(self.win@.len() == self.win.len());
        let at: usize = (self.place.block_start - self.place.base) as usize;
        let c: Carry = self.carry;
        let sc: Scan = Scan {
            pos: at,
            anchor: at,
            miss: c.miss,
            rep: c.rep,
            pending: c.pending,
            seed: c.seed,
            hits: c.hits,
            budget: c.budget,
        };
        assert(scan_state(Seq::empty(), Seq::empty(), sc) =~= begin(self@));
        sc
    }

    /// Index of the block's end.
    fn cut_end(&self) -> (r: usize)
        requires
            self@.has_block(),
        ensures
            r == self@.place.block_end - self@.place.base,
            r <= self@.win.len(),
            self@.cut() == self@.win.subrange(0, r as int),
    {
        assert(self.win@.len() == self.win.len());
        (self.place.block_end - self.place.base) as usize
    }

    /// Hands on what a finished scan leaves.
    fn finish_scan(&mut self, sc: &Scan, Ghost(s): Ghost<St>)
        requires
            s.rep == sc.rep,
            s.pending == sc.pending,
            s.miss == sc.miss,
            s.seed == sc.seed,
            s.hits == sc.hits,
            s.budget == sc.budget,
        ensures
            final(self)@ == past(old(self)@, s),
    {
        self.carry = Carry {
            rep: sc.rep,
            pending: sc.pending,
            miss: sc.miss,
            seed: sc.seed,
            hits: sc.hits,
            budget: sc.budget,
        };
        self.place.pos = self.place.block_end;
    }

    /// Whether the small-input policy applies.
    fn win_small_wide_fast(&self) -> (r: bool)
        requires
            self@.wf(),
        ensures
            r == small_wide(self@),
    {
        self.mode.params.small_src && (small_dense_wide(&self.win) || self.win.len() <= SMALL_DENSE_TINY_MAX)
    }

    /// Bookkeeping of long-distance matching after a block.
    pub(crate) fn ldm_note_block(&mut self, won: bool)
        requires
            old(self)@.has_block(),
        ensures
            final(self)@ == noted_block(old(self)@, won),
    {
        let ghost d0 = self@;
        if !self.mode.ldm.on {
            return;
        }
        let u: LdmUse = self.mode.ldm;
        if won {
            self.mode.ldm = LdmUse { quiet: 0, ..u };
        } else if self.place.block_end - self.place.base > self.mode.params.window as u64 {
            let quiet: u8 = if u.quiet < 255 {
                u.quiet + 1
            } else {
                u.quiet
            };
            self.mode.ldm = LdmUse { quiet, dead: u.dead || quiet >= LDM_QUIET, ..u };
        }
        assert(self@.mode == noted_block(d0, won).mode);
    }

    /// Parses the block with one table.
    fn scan_fast(&mut self, literals: &mut Vec<u8>, seqs: &mut Vec<SeqWord>)
        requires
            scan_ready(old(self)@),
            old(self)@.mode.params.strategy is Fast,
            old(literals)@.len() == 0,
            old(seqs)@.len() == 0,
        ensures
            (Parse { d: final(self)@, lits: final(literals)@, seqs: final(seqs)@ }) == scanned_fast(
                old(self)@,
            ),
    {
        let ghost d0 = self@;
        let mut sc: Scan = self.scan_start();
        assert(literals@ =~= Seq::empty() && seqs@ =~= Seq::empty());
        let wide: bool = self.win_small_wide_fast();
        let dense: bool = match self.mode.density {
            ScanDensity::Dense => true,
            ScanDensity::Plain => false,
        };
        let c: FastCfg = FastCfg {
            base: self.place.base,
            log: self.mode.params.hash_log,
            reach: self.mode.params.reach(),
            fill: self.mode.fill,
            ramp: self.mode.ramp,
            dense,
            small_wide: !dense && wide,
        };
        let end: usize = self.cut_end();
        let win: &[u8] = vstd::slice::slice_subrange(self.win.as_slice(), 0, end);
        let won: bool = start_matching_fast(
            &c,
            win,
            &self.lit_lens,
            &self.ldm_seqs,
            &mut self.tables.table,
            literals,
            seqs,
            &mut sc,
        );
        let ghost f = fast_block(fast_cfg(d0), d0.cut(), d0.lit_lens, d0.ldm, FastSt { t: d0.store.t, s: begin(d0) }).0;
        assert(scan_state(literals@, seqs@, sc) == f.s);
        let symbols: usize = covered_lit_symbols(&self.lit_lens);
        let fill: CoveredFill = fill_after(seqs.len(), literals.len());
        let density: ScanDensity = density_after(seqs.len(), literals.len(), symbols);
        self.mode.fill = fill;
        self.mode.density = density;
        self.ldm_seqs.clear();
        self.ldm_note_block(won);
        self.finish_scan(&sc, Ghost(f.s));
        assert(self@ =~= scanned_fast(d0).d);
    }

    /// Parses the block with two tables.
    fn scan_dfast(&mut self, log: u32, literals: &mut Vec<u8>, seqs: &mut Vec<SeqWord>)
        requires
            scan_ready(old(self)@),
            old(self)@.mode.params.strategy == Strategy::Dfast(log),
            old(literals)@.len() == 0,
            old(seqs)@.len() == 0,
        ensures
            (Parse { d: final(self)@, lits: final(literals)@, seqs: final(seqs)@ }) == scanned_dfast(
                old(self)@,
                log,
            ),
    {
        let ghost d0 = self@;
        let mut sc: Scan = self.scan_start();
        assert(literals@ =~= Seq::empty() && seqs@ =~= Seq::empty());
        let short: bool = self.mode.dict_row || self.win_small_wide_fast();
        let c: DfastCfg = DfastCfg {
            base: self.place.base,
            long_log: self.mode.params.hash_log,
            small_log: log,
            width: ChainHashWidth::of(short),
            reach: self.mode.params.reach(),
            ramp: self.mode.ramp,
        };
        let end: usize = self.cut_end();
        let win: &[u8] = vstd::slice::slice_subrange(self.win.as_slice(), 0, end);
        let won: bool = start_matching_dfast(
            &c,
            win,
            &self.ldm_seqs,
            &mut self.tables.table,
            &mut self.tables.chain,
            literals,
            seqs,
            &mut sc,
        );
        let ghost f = dfast_block(dfast_cfg(d0, log), d0.cut(), d0.ldm, d0.store.t, d0.store.ch, begin(d0)).0;
        assert(scan_state(literals@, seqs@, sc) == f.s);
        self.ldm_seqs.clear();
        self.ldm_note_block(won);
        self.finish_scan(&sc, Ghost(f.s));
        assert(self@ =~= scanned_dfast(d0, log).d);
    }

    /// How a chain or a row chooses among its matches.
    fn pick_of(&self) -> (c: PickCfg)
        requires
            self@.wf(),
        ensures
            c == pick_cfg(self@),
    {
        PickCfg {
            base: self.place.base,
            ramp: self.mode.ramp,
            lazy: self.mode.params.lazy_depth as u8,
            min_match: self.mode.params.min_match,
            dict_row: self.mode.dict_row,
        }
    }

    /// Parses the block with a chain.
    fn scan_chain(&mut self, literals: &mut Vec<u8>, seqs: &mut Vec<SeqWord>)
        requires
            scan_ready(old(self)@),
            old(self)@.mode.params.strategy is Chain,
            old(literals)@.len() == 0,
            old(seqs)@.len() == 0,
        ensures
            (Parse { d: final(self)@, lits: final(literals)@, seqs: final(seqs)@ }) == scanned_chain(
                old(self)@,
            ),
    {
        let ghost d0 = self@;
        let mut sc: Scan = self.scan_start();
        assert(literals@ =~= Seq::empty() && seqs@ =~= Seq::empty());
        let m: Mode = self.mode;
        let c: ChainCfg = ChainCfg {
            link: LinkCfg {
                base: self.place.base,
                origin: m.head_origin,
                log: m.params.hash_log,
                width: m.hash_width(),
            },
            walk: WalkCfg { depth: m.params.search_depth, reach: m.params.reach(), ramp: m.ramp },
            pick: self.pick_of(),
            fill: if m.dict_row {
                CoveredFill::DictDense
            } else {
                CoveredFill::Dense
            },
        };
        proof {
            if let Strategy::Chain(log) = d0.mode.params.strategy {
                crate::bits::lemma_pow2_monotone(0, log as nat);
                vstd::arithmetic::power2::lemma2_to64();
            }
        }
        let end: usize = self.cut_end();
        let win: &[u8] = vstd::slice::slice_subrange(self.win.as_slice(), 0, end);
        let won: bool = start_matching_chain(
            &c,
            win,
            &self.lit_lens,
            &self.ldm_seqs,
            &mut self.tables.table,
            &mut self.tables.chain,
            literals,
            seqs,
            &mut sc,
        );
        let ghost h = Heads { t: d0.store.t, ch: d0.store.ch };
        let ghost f = chain_block(chain_cfg(d0), d0.cut(), d0.lit_lens, d0.ldm, h, begin(d0));
        assert(scan_state(literals@, seqs@, sc) == f.s);
        self.ldm_seqs.clear();
        self.ldm_note_block(won);
        self.finish_scan(&sc, Ghost(f.s));
        assert(self@ =~= scanned_chain(d0).d);
    }

    /// Parses the block with rows.
    fn scan_row(&mut self, log: u32, literals: &mut Vec<u8>, seqs: &mut Vec<SeqWord>)
        requires
            scan_ready(old(self)@),
            old(self)@.mode.params.strategy == Strategy::Row(log),
            old(literals)@.len() == 0,
            old(seqs)@.len() == 0,
        ensures
            (Parse { d: final(self)@, lits: final(literals)@, seqs: final(seqs)@ }) == scanned_row(
                old(self)@,
                log,
            ),
    {
        let ghost d0 = self@;
        let mut sc: Scan = self.scan_start();
        assert(literals@ =~= Seq::empty() && seqs@ =~= Seq::empty());
        let m: Mode = self.mode;
        proof {
            crate::bits::lemma_pow2_monotone(0, log as nat);
            vstd::arithmetic::power2::lemma2_to64();
        }
        let others: usize = crate::hash::slot_count(log) - 1;
        let depth: usize = m.params.search_depth as usize;
        let c: RowScanCfg = RowScanCfg {
            row: RowCfg {
                base: self.place.base,
                log: m.params.hash_log,
                row_log: log,
                width: m.hash_width(),
                attempts: if depth < others {
                    depth
                } else {
                    others
                },
                reach: m.params.reach(),
                ramp: m.ramp,
            },
            pick: self.pick_of(),
        };
        let end: usize = self.cut_end();
        let win: &[u8] = vstd::slice::slice_subrange(self.win.as_slice(), 0, end);
        start_matching_row(
            &c,
            win,
            &self.lit_lens,
            &mut self.tables.table,
            &mut self.tables.row_heads,
            literals,
            seqs,
            &mut sc,
        );
        let ghost r = Rows { t: d0.store.t, hd: d0.store.hd };
        let ghost f = row_block(row_cfg(d0, log), d0.cut(), d0.lit_lens, r, begin(d0));
        assert(scan_state(literals@, seqs@, sc) == f.s);
        self.ldm_seqs.clear();
        self.finish_scan(&sc, Ghost(f.s));
        assert(self@ =~= scanned_row(d0, log).d);
    }

    /// Parses the block optimally.
    fn scan_opt(&mut self, k: OptKnobs, literals: &mut Vec<u8>, seqs: &mut Vec<SeqWord>)
        requires
            scan_ready(old(self)@),
            old(self)@.mode.params.strategy == Strategy::Opt(k),
            old(literals)@.len() == 0,
            old(seqs)@.len() == 0,
        ensures
            (Parse { d: final(self)@, lits: final(literals)@, seqs: final(seqs)@ }) == scanned_opt(
                old(self)@,
                k,
            ),
    {
        let ghost d0 = self@;
        assert(literals@ =~= Seq::empty() && seqs@ =~= Seq::empty());
        if self.place.block_start == self.place.block_end {
            self.ldm_seqs.clear();
            assert(self@ =~= (Drv { ldm: Seq::empty(), ..d0 }));
            self.ldm_note_block(false);
            return;
        }
        proof {
            lemma_opt_ready(d0, k);
        }
        let mut sc: Scan = self.scan_start();
        let m: Mode = self.mode;
        let c: OptCfg = k.config(self.place.base, m.opt_origin, m.params.reach(), m.params.hash_log);
        let clamp: bool = m.ldm.checked && !m.ldm.on && !m.strip_parse;
        let end: usize = self.cut_end();
        let win: &[u8] = vstd::slice::slice_subrange(self.win.as_slice(), 0, end);
        let mut origin: u32 = m.opt_origin;
        let won: bool = run_block(
            &c,
            win,
            &self.ldm_seqs,
            &mut origin,
            &mut self.tables.tree,
            &mut self.opt_state,
            &mut self.scratch,
            literals,
            seqs,
            &mut sc,
            clamp,
        );
        let ghost f = opt_block(
            opt_cfg(d0, k),
            d0.cut(),
            d0.ldm,
            d0.store.tree,
            d0.st,
            begin(d0),
            clamps(d0),
        );
        assert(scan_state(literals@, seqs@, sc) == f.s);
        self.mode.opt_origin = origin;
        self.ldm_seqs.clear();
        self.ldm_note_block(won);
        self.finish_scan(&sc, Ghost(f.s));
        assert(self@ =~= scanned_opt(d0, k).d);
    }

    /// Parses the block by its row's strategy.
    pub(crate) fn scan_block(&mut self, literals: &mut Vec<u8>, seqs: &mut Vec<SeqWord>)
        requires
            scan_ready(old(self)@),
            old(literals)@.len() == 0,
            old(seqs)@.len() == 0,
        ensures
            (Parse { d: final(self)@, lits: final(literals)@, seqs: final(seqs)@ }) == scanned(
                old(self)@,
            ),
            parse_keeps(
                old(self)@,
                old(self)@.carry.rep,
                RampGate::off_gate(),
                u64::MAX as int,
                Parse { d: final(self)@, lits: final(literals)@, seqs: final(seqs)@ },
            ),
    {
        proof {
            reveal(scanned);
            lemma_scanned(self@, self@.carry.rep, RampGate::off_gate(), u64::MAX as int);
        }
        match self.mode.params.strategy {
            Strategy::Fast => self.scan_fast(literals, seqs),
            Strategy::Dfast(log) => self.scan_dfast(log, literals, seqs),
            Strategy::Chain(_) => self.scan_chain(literals, seqs),
            Strategy::Row(log) => self.scan_row(log, literals, seqs),
            Strategy::Opt(k) => self.scan_opt(k, literals, seqs),
            Strategy::BtLazy(_) => {},
        }
    }
}

/// How the next block's matches are indexed.
fn fill_after(nseqs: usize, nlits: usize) -> (r: CoveredFill)
    ensures
        r == next_fill(nseqs as int, nlits as int),
{
    if nseqs >= crate::gates::COVERED_GATE_MIN_SEQS && nlits / crate::gates::COVERED_GATE_AVG_LL >= nseqs {
        CoveredFill::Strided
    } else {
        CoveredFill::Dense
    }
}

/// How the next block is scanned.
fn density_after(nseqs: usize, nlits: usize, symbols: usize) -> (r: ScanDensity)
    ensures
        r == next_density(nseqs as int, nlits as int, symbols as int),
{
    if nseqs >= crate::gates::DENSE_GATE_MIN_SEQS && nlits / crate::gates::DENSE_GATE_MAX_AVG_LL < nseqs && symbols
        < crate::gates::DENSE_GATE_SYMS_MAX {
        ScanDensity::Dense
    } else {
        ScanDensity::Plain
    }
}

} // verus!
