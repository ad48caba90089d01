//! An input that is handed over whole and one that is streamed block by block give
//! the same frame.

use vstd::prelude::*;
use crate::chains::Heads;
use crate::driver::{frame_params, fresh, held, reset_to, told, Carry, Drv, Mode, Place, NO_GAP, POS_MAX};
use crate::driver_blocks::{
    alphabet_gated, block_parsed, caught_up, first_indexed, gap_index, gap_limit, gate_table, gated, generated, gives_up,
    left_out, lemma_prepared, lemma_settled, sampled, settled, skipped, usable, usable_among,
};
use crate::driver_plan::{head_decided, head_symbols, HEAD_SAMPLE};
use crate::driver_fill::committed;
use crate::driver_scan::{
    begin, carried, chain_cfg, clamps, dfast_cfg, fast_cfg, lemma_begin, noted_block, opt_cfg, past, row_cfg, scan_ready, scanned,
    scanned_chain, scanned_dfast, scanned_fast, scanned_opt, scanned_row, Parse,
};
use crate::frame::{costed, frame_handled, handled, joined, keeps_window, lemma_committed, lemma_costed, lemma_handled, lemma_offered, lemma_sampled_ready, put_back, screen_handled, streams, BlockUse};
use crate::gates::{count_below, distinct_count, next_density, next_fill, sampled_set, RampGate};
use crate::hash::{ChainHashWidth, HASH_READ};
use crate::job::{job_end_of, job_handled, lemma_on_piece, on_piece, works, Piece};
use crate::level::{InputShape, Level};
use crate::opt_near::near_ldm;
use crate::params::{least, HeadPhase, Strategy};
use crate::parse_chain::chain_block;
use crate::parse_dfast::dfast_block;
use crate::parse_fast::{fast_block, ldm_fit, ldm_true, FastSt};
use crate::parse_opt::{opt_block, OptKnobs};
use crate::parse_row::row_block;
use crate::rows::Rows;
use crate::scan::{LdmSeq, Peer, St};
use crate::shift::{lemma_fast_block_moved, lemma_put_range_moved, moved, moved_fast, rebased};
use crate::shift_chain::{lemma_chain_block_moved, lemma_link_range_moved, moved_chain, rebased_chain, rebased_link};
use crate::shift_double::{lemma_dfast_block_moved, lemma_put_long_range_moved, moved_dfast, rebased_dfast};
use crate::shift_rows::{lemma_row_block_moved, lemma_row_put_range_moved, rebased_rows, rebased_scan};
use crate::store::{indexed, Store};

verus! {

/// Two modes that parse alike: they differ at most in what only other rows use,
/// and in how windows come.
pub open spec fn kin_mode(a: Mode, b: Mode) -> bool {
    b == Mode {
        strip_mark: b.strip_mark,
        opt_origin: b.opt_origin,
        head_origin: b.head_origin,
        slice_size: b.slice_size,
        win_cap: b.win_cap,
        direct: b.direct,
        ..a
    }
}

/// The tables that the row searches hold the same.
pub open spec fn kin_tables(d: Drv, e: Drv) -> bool {
    match d.mode.params.strategy {
        Strategy::Fast => d.store.t == e.store.t,
        Strategy::Dfast(_) => d.store.t == e.store.t && d.store.ch == e.store.ch,
        Strategy::Chain(_) => {
            &&& d.store.t == e.store.t
            &&& d.store.ch == e.store.ch
            &&& d.mode.head_origin == e.mode.head_origin
        },
        Strategy::Row(_) => d.store.t == e.store.t && d.store.hd == e.store.hd,
        Strategy::Opt(_) => {
            &&& d.store.tree == e.store.tree
            &&& d.st == e.st
            &&& d.mode.opt_origin == e.mode.opt_origin
        },
        Strategy::BtLazy(_) => false,
    }
}

/// Two matchers that differ at most in their windows.
pub open spec fn kin(d: Drv, e: Drv) -> bool {
    &&& kin_mode(d.mode, e.mode)
    &&& d.carry == e.carry
    &&& d.lit_lens == e.lit_lens
    &&& d.ldm == e.ldm
    &&& kin_tables(d, e)
    &&& gate_table(d) == gate_table(e)
}

/// The matchers have the same block before them, and the window of the second
/// lacks the first `k` bytes, none of which is in reach.
pub open spec fn trimmed(d: Drv, e: Drv, k: int) -> bool {
    &&& kin(d, e)
    &&& 0 <= k <= d.win.len()
    &&& e.win == d.win.skip(k)
    &&& e.place == Place { base: (d.place.base + k) as u64, ..d.place }
    &&& k == 0 || {
        &&& k + d.mode.params.window <= d.at()
        &&& !d.mode.params.small_src
        &&& !(d.mode.params.strategy is Opt)
        &&& d.place.block_start < d.place.block_end
    }
}

proof fn lemma_sampled_moved(w: Seq<u8>, k: int, from: int, to: int, stride: int)
    requires
        0 <= k <= from,
        to <= w.len(),
    ensures
        sampled_set(w.skip(k), from - k, to - k, stride) == sampled_set(w, from, to, stride),
    decreases
        if to > from {
            to - from
        } else {
            0
        },
{
    if from < to && stride > 0 {
        lemma_sampled_moved(w, k, from + stride, to, stride);
        assert(from - k + stride == from + stride - k);
        assert(w.skip(k)[from - k] == w[from]);
    }
}

proof fn lemma_untrimmed(d: Drv, e: Drv)
    requires
        trimmed(d, e, 0),
    ensures
        e.win == d.win,
        e.place == d.place,
{
    assert(d.win.skip(0) =~= d.win);
}

proof fn lemma_cut_trimmed(d: Drv, e: Drv, k: int)
    requires
        trimmed(d, e, k),
        d.ready(),
    ensures
        e.cut() == d.cut().skip(k),
        e.at() == d.at() - k,
        e.block() == d.block(),
        k <= d.at(),
{
    assert(e.cut() =~= d.cut().skip(k));
    assert(e.block() =~= d.block());
}

/// A range of the windows is indexed alike.
proof fn lemma_indexed_trimmed(d: Drv, e: Drv, k: int, from: int, to: int)
    requires
        trimmed(d, e, k),
        d.ready(),
        from < to ==> k <= from && to + HASH_READ <= d.win.len() + 1,
    ensures
        trimmed(
            Drv { store: indexed(d.keys(), d.win, d.store, from, to, 1), ..d },
            Drv { store: indexed(e.keys(), e.win, e.store, from - k, to - k, 1), ..e },
            k,
        ),
{
    let log = d.mode.params.hash_log;
    let base = d.place.base as int;
    let width = d.mode.width();
    let x = d.keys();
    assert(e.place.base == base + k);
    match d.mode.params.strategy {
        Strategy::Fast => {
            lemma_put_range_moved(d.store.t, d.win, k, from, to, 1, base, log, ChainHashWidth::Five);
        },
        Strategy::Dfast(small) => {
            lemma_put_long_range_moved(d.store.t, d.win, k, from, to, 1, base, log);
            lemma_put_range_moved(d.store.ch, d.win, k, from, to, 1, base, small, width);
        },
        Strategy::Chain(_) => {
            let h = Heads { t: d.store.t, ch: d.store.ch };
            lemma_link_range_moved(x.link(), d.win, k, h, from, to, 1);
            assert(e.keys().link() == rebased_link(x.link(), k));
        },
        Strategy::Row(row_log) => {
            let r = Rows { t: d.store.t, hd: d.store.hd };
            lemma_row_put_range_moved(x.row(row_log), d.win, k, r, from, to, 1);
            assert(e.keys().row(row_log) == rebased_rows(x.row(row_log), k));
        },
        _ => {},
    }
}

#[verifier::rlimit(40)]
proof fn lemma_caught_up_trimmed(d: Drv, e: Drv, k: int)
    requires
        trimmed(d, e, k),
        d.ready(),
    ensures
        trimmed(caught_up(d), caught_up(e), k),
{
    lemma_cut_trimmed(d, e, k);
    if k == 0 {
        lemma_untrimmed(d, e);
    }
    if d.mode.gap_start != NO_GAP && !(d.mode.params.strategy is Opt) {
        assert(gap_index(e) == gap_index(d) - k);
        assert(k > 0 ==> gap_limit(e) == gap_limit(d) - k);
        lemma_indexed_trimmed(d, e, k, gap_index(d), gap_limit(d));
        let a = Drv { store: indexed(d.keys(), d.win, d.store, gap_index(d), gap_limit(d), 1), ..d };
        let b = Drv { store: indexed(e.keys(), e.win, e.store, gap_index(e), gap_limit(e), 1), ..e };
        lemma_gap_closed(a, b, k);
    }
}

proof fn lemma_gap_closed(a: Drv, b: Drv, k: int)
    requires
        trimmed(a, b, k),
    ensures
        trimmed(
            Drv { mode: Mode { gap_start: NO_GAP, ..a.mode }, ..a },
            Drv { mode: Mode { gap_start: NO_GAP, ..b.mode }, ..b },
            k,
        ),
{
}

proof fn lemma_first_indexed_trimmed(d: Drv, e: Drv, k: int)
    requires
        trimmed(d, e, k),
        d.ready(),
    ensures
        trimmed(first_indexed(d), first_indexed(e), k),
{
    lemma_cut_trimmed(d, e, k);
    if d.at() + HASH_READ <= d.win.len() {
        lemma_indexed_trimmed(d, e, k, d.at(), d.at() + 1);
        assert(d.at() - k + 1 == d.at() + 1 - k);
    }
}

#[verifier::rlimit(40)]
proof fn lemma_alphabet_trimmed(d: Drv, e: Drv, k: int)
    requires
        trimmed(d, e, k),
        d.ready(),
    ensures
        trimmed(alphabet_gated(d), alphabet_gated(e), k),
{
    lemma_cut_trimmed(d, e, k);
    let from = d.at();
    let to = d.place.block_end - d.place.base;
    let stride = crate::probe::odd_stride(to - from);
    assert(e.place.block_end - e.place.base == to - k);
    assert(to - k - (from - k) == to - from);
    lemma_sampled_moved(d.win, k, from, to, stride);
    assert(distinct_count(e.win, from - k, to - k, stride) == distinct_count(d.win, from, to, stride));
}

proof fn lemma_usable_trimmed(d: Drv, e: Drv, k: int, q: LdmSeq)
    requires
        trimmed(d, e, k),
        d.ready(),
    ensures
        usable(d, q) == usable(e, q),
{
    lemma_cut_trimmed(d, e, k);
    let w = d.cut();
    let v = w.skip(k);
    let i = q.split - d.place.base;
    assert(q.split - e.place.base == i - k);
    if q.split >= d.place.block_start && 1 <= q.offset <= d.mode.params.window && i + q.len <= w.len() && k
        > 0 {
        assert forall|t: int| 0 <= t < q.len implies (#[trigger] v[i - k + t] == v[i - k - q.offset + t]) == (
        w[i + t] == w[i - q.offset + t]) by {
            assert(v[i - k + t] == w[i + t]);
            assert(v[i - k - q.offset + t] == w[i - q.offset + t]);
        }
        let a = crate::hash::bytes_agree(w, i, i - q.offset, q.len as int);
        let b = crate::hash::bytes_agree(v, i - k, i - k - q.offset, q.len as int);
        if a {
            assert forall|t: int| 0 <= t < q.len implies #[trigger] v[i - k + t] == v[i - k - q.offset + t] by {
                assert(w[i + t] == w[i - q.offset + t]);
            }
        }
        if b {
            assert forall|t: int| 0 <= t < q.len implies #[trigger] w[i + t] == w[i - q.offset + t] by {
                assert(v[i - k + t] == v[i - k - q.offset + t]);
            }
        }
        assert(a == b);
    } else if k == 0 {
        lemma_untrimmed(d, e);
    }
}

proof fn lemma_usable_among_trimmed(d: Drv, e: Drv, k: int, found: Seq<LdmSeq>, n: int)
    requires
        trimmed(d, e, k),
        d.ready(),
    ensures
        usable_among(d, found, n) == usable_among(e, found, n),
    decreases n,
{
    if n > 0 {
        lemma_usable_among_trimmed(d, e, k, found, n - 1);
        lemma_usable_trimmed(d, e, k, found[n - 1]);
    }
}

#[verifier::rlimit(40)]
proof fn lemma_generated_trimmed(d: Drv, e: Drv, k: int, found: Seq<LdmSeq>)
    requires
        trimmed(d, e, k),
        d.ready(),
    ensures
        trimmed(generated(d, found), generated(e, found), k),
{
    lemma_usable_among_trimmed(d, e, k, found, found.len() as int);
}

/// A block's scan on the window that was cut shorter.
#[verifier::rlimit(40)]
proof fn lemma_block_trimmed(d: Drv, e: Drv, k: int)
    requires
        trimmed(d, e, k),
        scan_ready(d),
        keeps_window(d),
        near_ldm(d.ldm, d.mode.params.window as int),
        d.mode.params.strategy is Fast,
        k > 0,
    ensures
        ({
            let (g, won) = fast_block(fast_cfg(d), d.cut(), d.lit_lens, d.ldm, FastSt { t: d.store.t, s: begin(d) });
            fast_block(fast_cfg(e), e.cut(), e.lit_lens, e.ldm, FastSt { t: e.store.t, s: begin(e) }) == (
                moved_fast(g, k),
                won,
            )
        }),
{
    lemma_cut_trimmed(d, e, k);
    let c = fast_cfg(d);
    let f = FastSt { t: d.store.t, s: begin(d) };
    let far = d.mode.params.window as int;
    let ramp = RampGate::off_gate();
    let peer = Peer { start: d.at(), rep0: d.carry.rep, base: d.place.base as int, ramp, far, owed: d.carry.pending as int, least: 3, bar: 3, hop: far, same: true };
    lemma_begin(d, d.carry.rep, ramp, far, 3);
    assert(ldm_fit(c.base as int, c.ramp, d.cut(), peer, d.ldm)) by {
        assert forall|j: int| 0 <= j < d.ldm.len() implies #[trigger] ldm_true(d.cut(), c.base as int, d.ldm[j]) by {
            assert(ldm_true(d.cut(), d.place.base as int, d.ldm[j]));
        }
    }
    lemma_fast_block_moved(c, d.cut(), d.lit_lens, peer, k, d.ldm, f);
    assert(fast_cfg(e) == rebased(c, k));
    assert(begin(e) == moved(begin(d), k));
}

proof fn lemma_noted_kin(a: Drv, b: Drv, won: bool)
    requires
        kin(a, b),
        (a.place.block_end - a.place.base > a.mode.params.window) == (b.place.block_end - b.place.base
            > a.mode.params.window),
    ensures
        kin(noted_block(a, won), noted_block(b, won)),
{
}

proof fn lemma_past_kin(a: Drv, b: Drv, s: St, t: St)
    requires
        kin(a, b),
        carried(s) == carried(t),
    ensures
        kin(past(a, s), past(b, t)),
{
}

/// Two parses that emit the same and leave akin matchers.
pub open spec fn same_parse(x: Parse, y: Parse) -> bool {
    &&& kin(x.d, y.d)
    &&& x.lits == y.lits
    &&& x.seqs == y.seqs
}

#[verifier::rlimit(40)]
proof fn lemma_fast_trimmed(d: Drv, e: Drv, k: int)
    requires
        trimmed(d, e, k),
        scan_ready(d),
        keeps_window(d),
        near_ldm(d.ldm, d.mode.params.window as int),
        d.mode.params.strategy is Fast,
    ensures
        same_parse(scanned_fast(d), scanned_fast(e)),
{
    let (g, won) = fast_block(fast_cfg(d), d.cut(), d.lit_lens, d.ldm, FastSt { t: d.store.t, s: begin(d) });
    let (h, also) = fast_block(fast_cfg(e), e.cut(), e.lit_lens, e.ldm, FastSt { t: e.store.t, s: begin(e) });
    if k == 0 {
        lemma_untrimmed(d, e);
        assert(fast_cfg(e) == fast_cfg(d));
    } else {
        lemma_block_trimmed(d, e, k);
    }
    let fill = next_fill(g.s.seqs.len() as int, g.s.lits.len() as int);
    let density = next_density(g.s.seqs.len() as int, g.s.lits.len() as int, count_below(d.lit_lens, 256, 11));
    let a = Drv {
        store: Store { t: g.t, ..d.store },
        mode: Mode { fill, density, ..d.mode },
        ldm: Seq::empty(),
        ..d
    };
    let b = Drv {
        store: Store { t: h.t, ..e.store },
        mode: Mode { fill, density, ..e.mode },
        ldm: Seq::empty(),
        ..e
    };
    assert(kin(a, b));
    lemma_noted_kin(a, b, won);
    lemma_past_kin(noted_block(a, won), noted_block(b, won), g.s, h.s);
}

/// A block's two-table scan on the window that was cut shorter.
#[verifier::rlimit(40)]
proof fn lemma_dfast_scan_trimmed(d: Drv, e: Drv, k: int, log: u32)
    requires
        trimmed(d, e, k),
        scan_ready(d),
        keeps_window(d),
        near_ldm(d.ldm, d.mode.params.window as int),
        d.mode.params.strategy == Strategy::Dfast(log),
        k > 0,
    ensures
        ({
            let (f, won) = dfast_block(dfast_cfg(d, log), d.cut(), d.ldm, d.store.t, d.store.ch, begin(d));
            dfast_block(dfast_cfg(e, log), e.cut(), e.ldm, e.store.t, e.store.ch, begin(e)) == (moved_dfast(f, k), won)
        }),
{
    let c = dfast_cfg(d, log);
    lemma_cut_trimmed(d, e, k);
    let far = d.mode.params.window as int;
    let ramp = RampGate::off_gate();
    let peer = Peer { start: d.at(), rep0: d.carry.rep, base: d.place.base as int, ramp, far, owed: d.carry.pending as int, least: 3, bar: 3, hop: far, same: true };
    lemma_begin(d, d.carry.rep, ramp, far, 3);
    assert(ldm_fit(c.base as int, c.ramp, d.cut(), peer, d.ldm)) by {
        assert forall|j: int| 0 <= j < d.ldm.len() implies #[trigger] ldm_true(d.cut(), c.base as int, d.ldm[j]) by {
            assert(ldm_true(d.cut(), d.place.base as int, d.ldm[j]));
        }
    }
    lemma_dfast_block_moved(c, d.cut(), peer, k, d.ldm, d.store.t, d.store.ch, begin(d));
    assert(dfast_cfg(e, log) == rebased_dfast(c, k));
    assert(begin(e) == moved(begin(d), k));
}

#[verifier::rlimit(40)]
proof fn lemma_dfast_trimmed(d: Drv, e: Drv, k: int, log: u32)
    requires
        trimmed(d, e, k),
        scan_ready(d),
        keeps_window(d),
        near_ldm(d.ldm, d.mode.params.window as int),
        d.mode.params.strategy == Strategy::Dfast(log),
    ensures
        same_parse(scanned_dfast(d, log), scanned_dfast(e, log)),
{
    let c = dfast_cfg(d, log);
    let (f, won) = dfast_block(c, d.cut(), d.ldm, d.store.t, d.store.ch, begin(d));
    let (g, also) = dfast_block(dfast_cfg(e, log), e.cut(), e.ldm, e.store.t, e.store.ch, begin(e));
    if k == 0 {
        lemma_untrimmed(d, e);
        assert(dfast_cfg(e, log) == c);
    } else {
        lemma_dfast_scan_trimmed(d, e, k, log);
    }
    let a = Drv { store: Store { t: f.long, ch: f.small, ..d.store }, ldm: Seq::empty(), ..d };
    let b = Drv { store: Store { t: g.long, ch: g.small, ..e.store }, ldm: Seq::empty(), ..e };
    assert(kin(a, b));
    lemma_noted_kin(a, b, won);
    lemma_past_kin(noted_block(a, won), noted_block(b, won), f.s, g.s);
}

/// A block's chain scan on the window that was cut shorter.
#[verifier::rlimit(40)]
proof fn lemma_chain_scan_trimmed(d: Drv, e: Drv, k: int, log: u32)
    requires
        trimmed(d, e, k),
        scan_ready(d),
        keeps_window(d),
        near_ldm(d.ldm, d.mode.params.window as int),
        d.mode.params.strategy == Strategy::Chain(log),
        k > 0,
    ensures
        ({
            let x = Heads { t: d.store.t, ch: d.store.ch };
            let f = chain_block(chain_cfg(d), d.cut(), d.lit_lens, d.ldm, x, begin(d));
            chain_block(chain_cfg(e), e.cut(), e.lit_lens, e.ldm, x, begin(e)) == moved_chain(f, k)
        }),
{
    lemma_cut_trimmed(d, e, k);
    let c = chain_cfg(d);
    let x = Heads { t: d.store.t, ch: d.store.ch };
    let far = d.mode.params.window as int;
    let ramp = RampGate::off_gate();
    let peer = Peer { start: d.at(), rep0: d.carry.rep, base: d.place.base as int, ramp, far, owed: d.carry.pending as int, least: 3, bar: 3, hop: far, same: true };
    lemma_begin(d, d.carry.rep, ramp, far, 3);
    crate::bits::lemma_pow2_monotone(0, log as nat);
    vstd::arithmetic::power2::lemma2_to64();
    assert(c.link.fits(d.cut(), x));
    lemma_chain_block_moved(c, d.cut(), d.lit_lens, peer, d.ldm, k, x, begin(d));
    assert(chain_cfg(e) == rebased_chain(c, k));
    assert(begin(e) == moved(begin(d), k));
}

#[verifier::rlimit(40)]
proof fn lemma_chain_trimmed(d: Drv, e: Drv, k: int, log: u32)
    requires
        trimmed(d, e, k),
        scan_ready(d),
        keeps_window(d),
        near_ldm(d.ldm, d.mode.params.window as int),
        d.mode.params.strategy == Strategy::Chain(log),
    ensures
        same_parse(scanned_chain(d), scanned_chain(e)),
{
    let x = Heads { t: d.store.t, ch: d.store.ch };
    let f = chain_block(chain_cfg(d), d.cut(), d.lit_lens, d.ldm, x, begin(d));
    let g = chain_block(chain_cfg(e), e.cut(), e.lit_lens, e.ldm, x, begin(e));
    if k == 0 {
        lemma_untrimmed(d, e);
        assert(chain_cfg(e) == chain_cfg(d));
    } else {
        lemma_chain_scan_trimmed(d, e, k, log);
    }
    let a = Drv { store: Store { t: f.h.t, ch: f.h.ch, ..d.store }, ldm: Seq::empty(), ..d };
    let b = Drv { store: Store { t: g.h.t, ch: g.h.ch, ..e.store }, ldm: Seq::empty(), ..e };
    assert(kin(a, b));
    lemma_noted_kin(a, b, f.won);
    lemma_past_kin(noted_block(a, f.won), noted_block(b, f.won), f.s, g.s);
}

#[verifier::rlimit(40)]
proof fn lemma_row_trimmed(d: Drv, e: Drv, k: int, log: u32)
    requires
        trimmed(d, e, k),
        scan_ready(d),
        keeps_window(d),
        d.mode.params.strategy == Strategy::Row(log),
    ensures
        same_parse(scanned_row(d, log), scanned_row(e, log)),
{
    let c = row_cfg(d, log);
    let x = Rows { t: d.store.t, hd: d.store.hd };
    let f = row_block(c, d.cut(), d.lit_lens, x, begin(d));
    let g = row_block(row_cfg(e, log), e.cut(), e.lit_lens, x, begin(e));
    if k == 0 {
        lemma_untrimmed(d, e);
        assert(row_cfg(e, log) == c);
    } else {
        lemma_cut_trimmed(d, e, k);
        let far = d.mode.params.window as int;
        let ramp = d.mode.ramp;
        let peer = Peer { start: d.at(), rep0: d.carry.rep, base: d.place.base as int, ramp, far, owed: d.carry.pending as int, least: 3, bar: 3, hop: far, same: true };
        lemma_begin(d, d.carry.rep, ramp, far, 3);
        lemma_row_block_moved(c, d.cut(), d.lit_lens, peer, k, x, begin(d));
        assert(row_cfg(e, log) == rebased_scan(c, k));
        assert(begin(e) == moved(begin(d), k));
    }
    let a = Drv { store: Store { t: f.r.t, hd: f.r.hd, ..d.store }, ldm: Seq::empty(), ..d };
    let b = Drv { store: Store { t: g.r.t, hd: g.r.hd, ..e.store }, ldm: Seq::empty(), ..e };
    assert(kin(a, b));
    lemma_past_kin(a, b, f.s, g.s);
}

#[verifier::rlimit(40)]
proof fn lemma_opt_trimmed(d: Drv, e: Drv, k: OptKnobs)
    requires
        trimmed(d, e, 0),
        d.mode.params.strategy == Strategy::Opt(k),
    ensures
        same_parse(scanned_opt(d, k), scanned_opt(e, k)),
{
    lemma_untrimmed(d, e);
    assert(opt_cfg(e, k) == opt_cfg(d, k));
    assert(clamps(e) == clamps(d));
    if d.at() == d.cut().len() {
        let a = Drv { ldm: Seq::empty(), ..d };
        let b = Drv { ldm: Seq::empty(), ..e };
        lemma_noted_kin(a, b, false);
    } else {
        let f = opt_block(opt_cfg(d, k), d.cut(), d.ldm, d.store.tree, d.st, begin(d), clamps(d));
        let a = Drv {
            store: Store { tree: f.tree, ..d.store },
            st: f.st,
            mode: Mode { opt_origin: f.origin, ..d.mode },
            ldm: Seq::empty(),
            ..d
        };
        let b = Drv {
            store: Store { tree: f.tree, ..e.store },
            st: f.st,
            mode: Mode { opt_origin: f.origin, ..e.mode },
            ldm: Seq::empty(),
            ..e
        };
        assert(kin(a, b));
        lemma_noted_kin(a, b, f.won);
        lemma_past_kin(noted_block(a, f.won), noted_block(b, f.won), f.s, f.s);
    }
}

/// The scans of such a block emit the same.
proof fn lemma_scanned_trimmed(d: Drv, e: Drv, k: int)
    requires
        trimmed(d, e, k),
        scan_ready(d),
        keeps_window(d),
        near_ldm(d.ldm, d.mode.params.window as int),
    ensures
        same_parse(scanned(d), scanned(e)),
{
    reveal(scanned);
    match d.mode.params.strategy {
        Strategy::Fast => {
            lemma_fast_trimmed(d, e, k);
        },
        Strategy::Dfast(log) => {
            lemma_dfast_trimmed(d, e, k, log);
        },
        Strategy::Chain(log) => {
            lemma_chain_trimmed(d, e, k, log);
        },
        Strategy::Row(log) => {
            lemma_row_trimmed(d, e, k, log);
        },
        Strategy::Opt(x) => {
            lemma_opt_trimmed(d, e, x);
        },
        Strategy::BtLazy(_) => {},
    }
}

/// A matcher with another phase of the head, gap, run of misses and count of owed offsets.
spec fn rephased(d: Drv, head: HeadPhase, gap_start: u64, miss: u64, pending: u8) -> Drv {
    Drv {
        mode: Mode { head, gap_start, ..d.mode },
        carry: Carry { miss, pending, ..d.carry },
        ..d
    }
}

#[verifier::rlimit(40)]
proof fn lemma_rephased_trimmed(d: Drv, e: Drv, k: int, head: HeadPhase, gap_start: u64, miss: u64, pending: u8)
    requires
        trimmed(d, e, k),
    ensures
        trimmed(rephased(d, head, gap_start, miss, pending), rephased(e, head, gap_start, miss, pending), k),
{
}

/// The head is settled alike.
#[verifier::rlimit(40)]
proof fn lemma_settled_trimmed(d: Drv, e: Drv, k: int)
    requires
        trimmed(d, e, k),
        d.ready(),
    ensures
        trimmed(settled(d), settled(e), k),
{
    let from = d.at();
    let to = least(from + HEAD_SAMPLE, d.win.len() as int);
    lemma_sampled_moved(d.win, k, from, to, 1);
    assert(head_symbols(e) == head_symbols(d));
    let z = settled(d);
    let m = z.mode;
    let c = z.carry;
    lemma_rephased_trimmed(d, e, k, m.head, m.gap_start, c.miss, c.pending);
    assert(z == rephased(d, m.head, m.gap_start, c.miss, c.pending)) by {
        reveal(head_decided);
    }
    assert(settled(e) == rephased(e, m.head, m.gap_start, c.miss, c.pending)) by {
        reveal(head_decided);
    }
}

proof fn lemma_parsed_trimmed(d: Drv, e: Drv, k: int)
    requires
        trimmed(d, e, k),
        scan_ready(d),
        keeps_window(d),
        near_ldm(d.ldm, d.mode.params.window as int),
    ensures
        same_parse(block_parsed(d), block_parsed(e)),
{
    let a = settled(d);
    let b = settled(e);
    lemma_settled(d);
    lemma_settled_trimmed(d, e, k);
    lemma_prepared(a);
    lemma_caught_up_trimmed(a, b, k);
    assert(caught_up(a).ready());
    lemma_alphabet_trimmed(caught_up(a), caught_up(b), k);
    lemma_scanned_trimmed(alphabet_gated(caught_up(a)), alphabet_gated(caught_up(b)), k);
}

proof fn lemma_offered_trimmed(d: Drv, e: Drv, k: int, found: Seq<LdmSeq>)
    requires
        trimmed(d, e, k),
        scan_ready(d),
        keeps_window(d),
        d.ldm.len() == 0,
    ensures
        same_parse(
            block_parsed(generated(alphabet_gated(d), found)),
            block_parsed(generated(alphabet_gated(e), found)),
        ),
{
    lemma_offered(d, found);
    lemma_alphabet_trimmed(d, e, k);
    lemma_generated_trimmed(alphabet_gated(d), alphabet_gated(e), k, found);
    lemma_parsed_trimmed(generated(alphabet_gated(d), found), generated(alphabet_gated(e), found), k);
}

proof fn lemma_ended_kin(a: Drv, b: Drv, pos: u64)
    requires
        kin(a, b),
    ensures
        kin(Drv { place: Place { pos, ..a.place }, ..a }, Drv { place: Place { pos, ..b.place }, ..b }),
{
}

#[verifier::rlimit(40)]
proof fn lemma_skipped_trimmed(d: Drv, e: Drv, k: int)
    requires
        trimmed(d, e, k),
        scan_ready(d),
    ensures
        kin(skipped(d), skipped(e)),
{
    lemma_first_indexed_trimmed(d, e, k);
    assert(first_indexed(d).ready()) by {
        crate::store::lemma_indexed_sized(d.keys(), d.win, d.store, d.at(), d.at() + 1, 1);
    }
    let a = first_indexed(d);
    let b = first_indexed(e);
    lemma_alphabet_trimmed(a, b, k);
    assert(b.place.block_end == a.place.block_end);
    lemma_ended_kin(alphabet_gated(a), alphabet_gated(b), d.place.block_end);
    assert(alphabet_gated(a).place == d.place && alphabet_gated(b).place == e.place);
}

#[verifier::rlimit(40)]
proof fn lemma_left_out_trimmed(d: Drv, e: Drv, k: int)
    requires
        trimmed(d, e, k),
        scan_ready(d),
    ensures
        kin(left_out(d), left_out(e)),
{
    let gap_start = if d.mode.gap_start == NO_GAP {
        d.place.block_start
    } else {
        d.mode.gap_start
    };
    let a = Drv { mode: Mode { gap_start, ..d.mode }, ..d };
    let b = Drv { mode: Mode { gap_start, ..e.mode }, ..e };
    assert(trimmed(a, b, k));
    assert(a.ready());
    lemma_alphabet_trimmed(a, b, k);
    lemma_ended_kin(alphabet_gated(a), alphabet_gated(b), d.place.block_end);
    assert(alphabet_gated(a).place == d.place && alphabet_gated(b).place == e.place);
}

/// Such matchers see the same in their block.
proof fn lemma_sampled_trimmed(d: Drv, e: Drv, k: int, dense: bool)
    requires
        trimmed(d, e, k),
        d.ready(),
    ensures
        trimmed(sampled(d, dense), sampled(e, dense), k),
        gated(d).1 == gated(e).1,
{
    lemma_cut_trimmed(d, e, k);
}

#[verifier::rlimit(40)]
proof fn lemma_screened_trimmed(d: Drv, e: Drv, k: int, dense: bool, found: Seq<LdmSeq>)
    requires
        trimmed(d, e, k),
        scan_ready(d),
        keeps_window(d),
        d.ldm.len() == 0,
    ensures
        screen_handled(d, dense, found).1 == screen_handled(e, dense, found).1,
        kin(screen_handled(d, dense, found).0, screen_handled(e, dense, found).0),
{
    lemma_cut_trimmed(d, e, k);
    lemma_sampled_trimmed(d, e, k, dense);
    lemma_sampled_ready(d, dense);
    let a = sampled(d, dense);
    let b = sampled(e, dense);
    if gives_up(gated(d).1, dense) {
        lemma_left_out_trimmed(a, b, k);
    } else {
        lemma_offered_trimmed(a, b, k, found);
    }
}

#[verifier::rlimit(40)]
proof fn lemma_costed_trimmed(d: Drv, e: Drv, k: int, costs: Option<Seq<u8>>)
    requires
        trimmed(d, e, k),
        scan_ready(d),
        keeps_window(d),
    ensures
        trimmed(costed(d, costs), costed(e, costs), k),
        scan_ready(costed(d, costs)),
        keeps_window(costed(d, costs)),
        costed(d, costs).ldm == d.ldm,
{
    lemma_costed(d, costs);
    lemma_costed(e, costs);
}

#[verifier::rlimit(40)]
proof fn lemma_put_back_kin(f: Drv, g: Drv, d: Drv, e: Drv)
    requires
        kin(f, g),
        d.carry == e.carry,
    ensures
        kin(put_back(f, d), put_back(g, e)),
{
}

/// Whatever becomes of such a block, it becomes the same of it.
#[verifier::rlimit(40)]
pub proof fn lemma_handled_trimmed(d: Drv, e: Drv, k: int, how: BlockUse)
    requires
        trimmed(d, e, k),
        scan_ready(d),
        keeps_window(d),
        d.ldm.len() == 0,
    ensures
        handled(d, how).1 == handled(e, how).1,
        kin(handled(d, how).0, handled(e, how).0),
{
    reveal(handled);
    lemma_cut_trimmed(d, e, k);
    match how {
        BlockUse::Parsed => {
            lemma_parsed_trimmed(d, e, k);
        },
        BlockUse::Offered { found } => {
            lemma_offered_trimmed(d, e, k, found);
        },
        BlockUse::Skipped => {
            lemma_skipped_trimmed(d, e, k);
        },
        BlockUse::LeftOut => {
            lemma_left_out_trimmed(d, e, k);
        },
        BlockUse::Screened { costs, dense, found } => {
            lemma_costed_trimmed(d, e, k, costs);
            lemma_screened_trimmed(costed(d, costs), costed(e, costs), k, dense, found);
        },
        BlockUse::Dropped { costs, dense, found } => {
            let a = costed(d, costs);
            let b = costed(e, costs);
            lemma_costed_trimmed(d, e, k, costs);
            lemma_screened_trimmed(a, b, k, dense, found);
            lemma_put_back_kin(screen_handled(a, dense, found).0, screen_handled(b, dense, found).0, d, e);
        },
    }
}

/// The blocks of an input, each with the window before it.
pub open spec fn slice_pieces(blocks: Seq<Seq<u8>>, hows: Seq<BlockUse>, window: int) -> Seq<Piece>
    decreases blocks.len(),
{
    if blocks.len() == 0 {
        Seq::empty()
    } else {
        let before = blocks.drop_last();
        let start = joined(before).len() as int;
        let end = joined(blocks).len() as int;
        let from = if start > window {
            start - window
        } else {
            0
        };
        slice_pieces(before, hows, window).push(
            Piece { from, upto: end, end, how: hows[blocks.len() - 1] },
        )
    }
}

/// A matcher at the start of a frame.
pub open spec fn at_start(d: Drv) -> bool {
    d.place.base == 0 && d.win.len() == 0
}

/// How far the streaming matcher `d` has come in the input `src`.
pub open spec fn come_to(d: Drv, src: Seq<u8>, at: int) -> bool {
    let window = d.mode.params.window as int;
    &&& d.place.base + d.win.len() == at
    &&& d.win == src.subrange(d.place.base as int, at)
    &&& d.place.base == 0 || d.place.base + window <= at
}

/// One more block keeps the two matchers akin.
#[verifier::rlimit(40)]
proof fn lemma_block_kin(d: Drv, e: Drv, src: Seq<u8>, start: int, block: Seq<u8>, p: Piece)
    requires
        streams(d),
        works(e),
        kin(d, e),
        keeps_window(d),
        0 <= start,
        come_to(d, src, start),
        0 < block.len() <= d.mode.slice_size,
        start + block.len() <= src.len() <= POS_MAX,
        block == src.subrange(start, start + block.len()),
        d.mode.params.small_src ==> src.len() <= d.mode.params.window,
        d.mode.params.strategy is Opt ==> src.len() <= d.mode.params.window,
        p.end == start + block.len(),
        p.upto == p.end,
        p.from == if start > d.mode.params.window {
            start - d.mode.params.window
        } else {
            0
        },
    ensures
        ({
            let (f, x) = handled(committed(d, block), p.how);
            let (g, y) = handled(on_piece(e, src, start, p), p.how);
            &&& x == y
            &&& kin(f, g)
            &&& streams(f)
            &&& works(g)
            &&& keeps_window(f)
            &&& come_to(f, src, p.end)
            &&& f.mode.slice_size == d.mode.slice_size
            &&& f.mode.params == d.mode.params
        }),
{
    let a = committed(d, block);
    let b = on_piece(e, src, start, p);
    lemma_committed(d, block);
    lemma_on_piece(e, src, start, p);
    let k = p.from - a.place.base;
    assert(a.win =~= src.subrange(a.place.base as int, p.end));
    assert(b.win == src.subrange(p.from, p.end));
    assert(0 <= k <= a.at());
    assert(b.win =~= a.win.skip(k));
    assert(trimmed(a, b, k));
    lemma_handled_trimmed(a, b, k, p.how);
    lemma_handled(a, Seq::empty(), a.carry.rep, p.how);
    lemma_handled(b, Seq::empty(), b.carry.rep, p.how);
}

/// Streamed block by block or handed over whole, an input gives the same frame,
/// whatever becomes of its blocks: each block needs no more of the past than the
/// window before it. The trees of the optimal rows are compared with what lies one
/// window behind the block, so their inputs are those that the window holds.
pub proof fn lemma_slice_matches_stream(
    d: Drv,
    e: Drv,
    src: Seq<u8>,
    blocks: Seq<Seq<u8>>,
    hows: Seq<BlockUse>,
)
    requires
        streams(d),
        works(e),
        kin(d, e),
        keeps_window(d),
        at_start(d),
        joined(blocks).len() <= src.len() <= POS_MAX,
        joined(blocks) == src.take(joined(blocks).len() as int),
        forall|j: int| 0 <= j < blocks.len() ==> 0 < (#[trigger] blocks[j]).len() <= d.mode.slice_size,
        d.mode.params.small_src ==> src.len() <= d.mode.params.window,
        d.mode.params.strategy is Opt ==> src.len() <= d.mode.params.window,
    ensures
        ({
            let pieces = slice_pieces(blocks, hows, d.mode.params.window as int);
            let (f, xs) = frame_handled(d, blocks, hows);
            let (g, ys) = job_handled(e, src, 0, pieces);
            &&& xs == ys
            &&& kin(f, g)
            &&& streams(f)
            &&& works(g)
            &&& keeps_window(f)
            &&& come_to(f, src, joined(blocks).len() as int)
            &&& f.mode.slice_size == d.mode.slice_size
            &&& f.mode.params == d.mode.params
            &&& job_end_of(0, pieces) == joined(blocks).len()
        }),
    decreases blocks.len(),
{
    let window = d.mode.params.window as int;
    if blocks.len() == 0 {
        assert(src.subrange(0, 0) =~= d.win);
    } else {
        let before = blocks.drop_last();
        let start = joined(before).len() as int;
        let block = blocks.last();
        let n = joined(blocks).len() as int;
        assert(joined(before) =~= src.take(start)) by {
            assert(joined(before) =~= joined(blocks).take(start));
        }
        assert(block =~= src.subrange(start, n)) by {
            assert(block =~= joined(blocks).subrange(start, n));
        }
        assert forall|j: int| 0 <= j < before.len() implies 0 < (#[trigger] before[j]).len() <= d.mode.slice_size by {
            assert(before[j] == blocks[j]);
        }
        lemma_slice_matches_stream(d, e, src, before, hows);
        let pieces = slice_pieces(blocks, hows, window);
        assert(pieces.drop_last() =~= slice_pieces(before, hows, window));
        let (f, xs) = frame_handled(d, before, hows);
        let (g, ys) = job_handled(e, src, 0, pieces.drop_last());
        assert(block == blocks[blocks.len() - 1]);
        lemma_block_kin(f, g, src, start, block, pieces.last());
    }
}

/// New matchers are akin at the start of a frame, whether their windows are streamed
/// or handed over.
pub proof fn lemma_fresh_kin(level: Level, shape: InputShape, slice_size: usize)
    requires
        ({
            let m = fresh(slice_size).mode;
            !(frame_params(level, Mode { input: held(shape), ..m }).strategy is BtLazy)
        }),
    ensures
        ({
            let m = fresh(slice_size).mode;
            let d = reset_to(Drv { mode: Mode { input: told(shape), ..m }, ..fresh(slice_size) }, level);
            let e = reset_to(Drv { mode: Mode { input: told(shape), ..fresh(0).mode }, ..fresh(0) }, level);
            kin(d, e) && at_start(d)
        }),
{
    reveal(frame_params);
}

} // verus!
