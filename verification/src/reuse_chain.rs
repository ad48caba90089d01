//! Matchers of the chain's row that are used again: a prefill moves the origin of
//! the entries past everything that was written, and a job emits the same whatever
//! its matcher did before.

use vstd::prelude::*;
use crate::chains::{Heads, LinkCfg};
use crate::driver::{later, Drv, Mode, HEAD_ORIGIN_CAP};
use crate::driver_blocks::{alphabet_gated, block_parsed, caught_up, first_indexed, gap_index, gap_limit, gate_table, gated, generated, gives_up, left_out, lemma_prepared, lemma_sampled, lemma_settled, sampled, settled, skipped, usable, usable_among};
use crate::driver_fill::{filled, swept, warmed, FillGrid};
use crate::driver_scan::{begin, chain_cfg, lemma_begin, noted_block, past, scan_ready, scanned, scanned_chain};
use crate::frame::{costed, handled, lemma_costed, lemma_offered, lemma_sampled_ready, put_back, screen_handled, BlockUse};
use crate::gates::RampGate;
use crate::job::{job_end_of, job_handled, lemma_job_works, lemma_on_piece, on_piece, pieces_fit, works, Piece};
use crate::level::{InputShape, Level};
use crate::mt::job_prepared;
use crate::params::{LdmArming, ReachChoice, Strategy};
use crate::parse_chain::{chain_begin, chain_block, chain_inv, ChainSt};
use crate::reuse::{lemma_prepared_alike, lemma_sampled_shell, lemma_settled_shell, same_mode, same_shell};
use crate::scan::{LdmSeq, Peer};
use crate::store::{indexed, Store};
use crate::tables::WIN_MAX;
use crate::twins::{heads_below, lemma_block_twins, lemma_link_range_twins, same_links, twin_heads, twins};

verus! {

/// Head table and links of a matcher.
pub open spec fn heads_of(d: Drv) -> Heads {
    Heads { t: d.store.t, ch: d.store.ch }
}

/// Two matchers of the chain's row that parse alike from here on, with no head
/// above position `top`.
pub open spec fn chain_alike(d: Drv, e: Drv, top: int) -> bool {
    &&& d.mode.params.strategy is Chain
    &&& same_shell(d, e)
    &&& twin_heads(d.mode.head_origin, heads_of(d), e.mode.head_origin, heads_of(e))
    &&& heads_below(d.mode.head_origin, heads_of(d), top)
}

/// All positions of the window have entries of their own.
pub open spec fn small(d: Drv) -> bool {
    d.place.base + d.win.len() + HEAD_ORIGIN_CAP + 1 < 0x1_0000_0000
}

/// Both matchers have a block of a chain's row waiting.
spec fn both_ready(d: Drv, e: Drv, top: int) -> bool {
    &&& chain_alike(d, e, top)
    &&& scan_ready(d)
    &&& scan_ready(e)
    &&& small(d)
    &&& d.place.block_end + 1 <= top
}

proof fn lemma_indexed_alike(d: Drv, e: Drv, top: int, from: int, to: int)
    requires
        both_ready(d, e, top),
        0 <= from,
        to <= d.win.len(),
        d.place.base + to <= top,
    ensures
        ({
            let f = Drv { store: indexed(d.keys(), d.win, d.store, from, to, 1), ..d };
            let g = Drv { store: indexed(e.keys(), e.win, e.store, from, to, 1), ..e };
            chain_alike(f, g, top)
        }),
{
    if let Strategy::Chain(log) = d.mode.params.strategy {
        crate::bits::lemma_pow2_monotone(0, log as nat);
        vstd::arithmetic::power2::lemma2_to64();
    }
    let c = d.keys().link();
    let b = e.keys().link();
    assert(same_links(c, b, d.win));
    lemma_link_range_twins(c, b, d.win, heads_of(d), heads_of(e), from, to, 1);
}

proof fn lemma_alphabet_alike(d: Drv, e: Drv, top: int)
    requires
        chain_alike(d, e, top),
    ensures
        chain_alike(alphabet_gated(d), alphabet_gated(e), top),
        heads_of(alphabet_gated(d)) == heads_of(d),
{
}

proof fn lemma_caught_alike(d: Drv, e: Drv, top: int)
    requires
        both_ready(d, e, top),
    ensures
        chain_alike(caught_up(d), caught_up(e), top),
{
    if d.mode.gap_start != crate::driver::NO_GAP {
        assert(gap_index(d) == gap_index(e) && gap_limit(d) == gap_limit(e));
        lemma_indexed_alike(d, e, top, gap_index(d), gap_limit(d));
    }
}

proof fn lemma_prepared_blocks(d: Drv, e: Drv, top: int)
    requires
        both_ready(d, e, top),
    ensures
        both_ready(alphabet_gated(caught_up(d)), alphabet_gated(caught_up(e)), top),
{
    lemma_caught_alike(d, e, top);
    lemma_alphabet_alike(caught_up(d), caught_up(e), top);
    lemma_prepared(d);
    lemma_prepared(e);
}

proof fn lemma_scanned_alike(d: Drv, e: Drv, top: int)
    requires
        both_ready(d, e, top),
    ensures
        chain_alike(scanned(d).d, scanned(e).d, top),
        scanned(d).lits == scanned(e).lits,
        scanned(d).seqs == scanned(e).seqs,
{
    let w = d.cut();
    assert(e.cut() == w);
    let c = chain_cfg(d);
    let b = chain_cfg(e);
    let h = heads_of(d);
    let g = heads_of(e);
    let s = begin(d);
    assert(begin(e) == s);
    let ramp = RampGate::off_gate();
    let peer = Peer { start: d.at(), rep0: d.carry.rep, base: d.place.base as int, ramp, far: u64::MAX as int, owed: d.carry.pending as int, least: 3, bar: 3, hop: u64::MAX as int, same: true };
    lemma_begin(d, d.carry.rep, ramp, u64::MAX as int, 3);
    if let Strategy::Chain(log) = d.mode.params.strategy {
        crate::bits::lemma_pow2_monotone(0, log as nat);
        vstd::arithmetic::power2::lemma2_to64();
    }
    assert(chain_inv(c, w, peer, d.ldm, chain_begin(h, s)));
    assert(same_links(c.link, b.link, w));
    lemma_block_twins(c, b, w, top, d.lit_lens, peer, d.ldm, h, g, s);
    let f = chain_block(c, w, d.lit_lens, d.ldm, h, s);
    let k = chain_block(b, w, d.lit_lens, d.ldm, g, s);
    assert(k == ChainSt { h: k.h, ..f });
    let d2 = Drv { store: Store { t: f.h.t, ch: f.h.ch, ..d.store }, ldm: Seq::empty(), ..d };
    let e2 = Drv { store: Store { t: k.h.t, ch: k.h.ch, ..e.store }, ldm: Seq::empty(), ..e };
    assert(heads_of(d2) == f.h && heads_of(e2) == k.h);
    assert(chain_alike(d2, e2, top));
    lemma_past_alike(d2, e2, top, f.won, f.s);
    assert(scanned(d) == scanned_chain(d) && scanned(e) == scanned_chain(e)) by {
        reveal(scanned);
    }
}

proof fn lemma_past_alike(d: Drv, e: Drv, top: int, won: bool, s: crate::scan::St)
    requires
        chain_alike(d, e, top),
    ensures
        chain_alike(past(noted_block(d, won), s), past(noted_block(e, won), s), top),
{
}

proof fn lemma_usable_alike(d: Drv, e: Drv, found: Seq<LdmSeq>, n: int)
    requires
        same_shell(d, e),
    ensures
        usable_among(d, found, n) == usable_among(e, found, n),
    decreases n,
{
    if n > 0 {
        lemma_usable_alike(d, e, found, n - 1);
        assert(d.cut() == e.cut());
        assert(usable(d, found[n - 1]) == usable(e, found[n - 1]));
    }
}

proof fn lemma_generated_alike(d: Drv, e: Drv, top: int, found: Seq<LdmSeq>)
    requires
        chain_alike(d, e, top),
    ensures
        chain_alike(generated(d, found), generated(e, found), top),
{
    lemma_usable_alike(d, e, found, found.len() as int);
}

proof fn lemma_parsed_alike(d: Drv, e: Drv, top: int)
    requires
        both_ready(d, e, top),
    ensures
        chain_alike(block_parsed(d).d, block_parsed(e).d, top),
        block_parsed(d).lits == block_parsed(e).lits,
        block_parsed(d).seqs == block_parsed(e).seqs,
{
    let a = settled(d);
    let b = settled(e);
    lemma_settled_shell(d, e);
    lemma_settled(d);
    lemma_settled(e);
    assert(heads_of(a) == heads_of(d) && heads_of(b) == heads_of(e));
    lemma_prepared_blocks(a, b, top);
    lemma_scanned_alike(alphabet_gated(caught_up(a)), alphabet_gated(caught_up(b)), top);
}

proof fn lemma_offered_alike(d: Drv, e: Drv, top: int, found: Seq<LdmSeq>)
    requires
        both_ready(d, e, top),
        d.ldm.len() == 0,
    ensures
        ({
            let x = block_parsed(generated(alphabet_gated(d), found));
            let y = block_parsed(generated(alphabet_gated(e), found));
            &&& chain_alike(x.d, y.d, top)
            &&& x.lits == y.lits
            &&& x.seqs == y.seqs
        }),
{
    let a = alphabet_gated(d);
    let b = alphabet_gated(e);
    lemma_alphabet_alike(d, e, top);
    lemma_generated_alike(a, b, top, found);
    lemma_offered(d, found);
    lemma_offered(e, found);
    lemma_parsed_alike(generated(a, found), generated(b, found), top);
}

proof fn lemma_skipped_alike(d: Drv, e: Drv, top: int)
    requires
        both_ready(d, e, top),
    ensures
        chain_alike(skipped(d), skipped(e), top),
{
    if d.at() + crate::hash::HASH_READ <= d.win.len() {
        lemma_indexed_alike(d, e, top, d.at(), d.at() + 1);
    }
    assert(chain_alike(first_indexed(d), first_indexed(e), top));
    lemma_alphabet_alike(first_indexed(d), first_indexed(e), top);
}

proof fn lemma_left_out_alike(d: Drv, e: Drv, top: int)
    requires
        chain_alike(d, e, top),
    ensures
        chain_alike(left_out(d), left_out(e), top),
{
    let a = Drv { mode: Mode { gap_start: left_out(d).mode.gap_start, ..d.mode }, ..d };
    let b = Drv { mode: Mode { gap_start: left_out(d).mode.gap_start, ..e.mode }, ..e };
    assert(chain_alike(a, b, top));
    lemma_alphabet_alike(a, b, top);
}

proof fn lemma_screened_alike(d: Drv, e: Drv, top: int, dense: bool, found: Seq<LdmSeq>)
    requires
        chain_alike(d, e, top),
        scan_ready(d),
        scan_ready(e),
        d.ldm.len() == 0,
        small(d),
        d.place.block_end + 1 <= top,
    ensures
        screen_handled(d, dense, found).1 == screen_handled(e, dense, found).1,
        chain_alike(screen_handled(d, dense, found).0, screen_handled(e, dense, found).0, top),
{
    assert(d.block() == e.block());
    lemma_sampled_shell(d, e, dense);
    lemma_sampled_ready(d, dense);
    lemma_sampled_ready(e, dense);
    let a = sampled(d, dense);
    let b = sampled(e, dense);
    assert(heads_of(a) == heads_of(d) && heads_of(b) == heads_of(e));
    assert(chain_alike(a, b, top));
    if gives_up(gated(d).1, dense) {
        lemma_left_out_alike(a, b, top);
    } else {
        lemma_offered_alike(a, b, top, found);
    }
}

proof fn lemma_costed_alike(d: Drv, e: Drv, top: int, costs: Option<Seq<u8>>)
    requires
        chain_alike(d, e, top),
        scan_ready(d),
        scan_ready(e),
        small(d),
    ensures
        chain_alike(costed(d, costs), costed(e, costs), top),
        scan_ready(costed(d, costs)),
        scan_ready(costed(e, costs)),
        small(costed(d, costs)),
        costed(d, costs).place == d.place,
        costed(d, costs).ldm == d.ldm,
        costed(d, costs).block() == d.block(),
        costed(e, costs).block() == e.block(),
{
    lemma_costed(d, costs);
    lemma_costed(e, costs);
    assert(heads_of(costed(d, costs)) == heads_of(d) && heads_of(costed(e, costs)) == heads_of(e));
}

proof fn lemma_put_back_alike(f: Drv, g: Drv, d: Drv, e: Drv, top: int)
    requires
        chain_alike(f, g, top),
        d.carry == e.carry,
    ensures
        chain_alike(put_back(f, d), put_back(g, e), top),
{
    assert(heads_of(put_back(f, d)) == heads_of(f) && heads_of(put_back(g, e)) == heads_of(g));
}

/// Matchers that are alike do the same with a block, and stay alike.
#[verifier::rlimit(40)]
pub proof fn lemma_chain_handled_alike(d: Drv, e: Drv, top: int, how: BlockUse)
    requires
        chain_alike(d, e, top),
        scan_ready(d),
        scan_ready(e),
        d.ldm.len() == 0,
        small(d),
        d.place.block_end + 1 <= top,
    ensures
        handled(d, how).1 == handled(e, how).1,
        chain_alike(handled(d, how).0, handled(e, how).0, top),
{
    reveal(handled);
    assert(d.block() == e.block());
    match how {
        BlockUse::Parsed => {
            lemma_parsed_alike(d, e, top);
        },
        BlockUse::Offered { found } => {
            lemma_offered_alike(d, e, top, found);
        },
        BlockUse::Skipped => {
            lemma_skipped_alike(d, e, top);
        },
        BlockUse::LeftOut => {
            lemma_left_out_alike(d, e, top);
        },
        BlockUse::Screened { costs, dense, found } => {
            lemma_costed_alike(d, e, top, costs);
            lemma_screened_alike(costed(d, costs), costed(e, costs), top, dense, found);
        },
        BlockUse::Dropped { costs, dense, found } => {
            let a = costed(d, costs);
            let b = costed(e, costs);
            lemma_costed_alike(d, e, top, costs);
            lemma_screened_alike(a, b, top, dense, found);
            lemma_put_back_alike(screen_handled(a, dense, found).0, screen_handled(b, dense, found).0, d, e, top);
        },
    }
}

/// No head lies above what the matcher has marked as written.
pub open spec fn marked(d: Drv) -> bool {
    heads_below(d.mode.head_origin, heads_of(d), later(d.mode.strip_mark, d.place.pos) + 1)
}

/// A prefill moves the origin past everything that was written: nothing of it can
/// be found any more.
pub proof fn lemma_chain_fill_forgets(d: Drv, e: Drv, w: Seq<u8>, base: u64)
    requires
        d.wf(),
        e.wf(),
        d.mode.params.strategy is Chain,
        same_mode(d.mode, e.mode),
        d.win == e.win,
        d.place == e.place,
        d.carry == e.carry,
        d.lit_lens == e.lit_lens,
        d.ldm == e.ldm,
        d.place.pos == 0,
        marked(d),
        marked(e),
        w.len() <= WIN_MAX,
        base + w.len() + HEAD_ORIGIN_CAP + 1 < 0x1_0000_0000,
    ensures
        chain_alike(
            filled(d, w, base, FillGrid::Strip, true),
            filled(e, w, base, FillGrid::Strip, true),
            base + w.len(),
        ),
        marked(filled(d, w, base, FillGrid::Strip, true)),
{
    let f = filled(d, w, base, FillGrid::Strip, true);
    let g = filled(e, w, base, FillGrid::Strip, true);
    let m = warmed(d.mode, w.len() == 0, FillGrid::Strip, true);
    let n = warmed(e.mode, w.len() == 0, FillGrid::Strip, true);
    let s = swept(d.mode, d.store, FillGrid::Strip);
    let t = swept(e.mode, e.store, FillGrid::Strip);
    let h = Heads { t: s.t, ch: s.ch };
    let k = Heads { t: t.t, ch: t.ch };
    assert(heads_below(m.head_origin, h, 0));
    assert(heads_below(n.head_origin, k, 0));
    assert(twins(Set::empty(), m.head_origin, h, n.head_origin, k));
    assert(twin_heads(m.head_origin, h, n.head_origin, k));
    assert(gate_table(f) =~= gate_table(g));
    if let Strategy::Chain(log) = d.mode.params.strategy {
        crate::bits::lemma_pow2_monotone(0, log as nat);
        vstd::arithmetic::power2::lemma2_to64();
    }
    if w.len() >= crate::hash::HASH_READ {
        let last = w.len() - crate::hash::HASH_READ;
        let c = LinkCfg { base, origin: m.head_origin, log: m.params.hash_log, width: m.width() };
        let b = LinkCfg { base, origin: n.head_origin, log: n.params.hash_log, width: n.width() };
        assert(same_links(c, b, w));
        lemma_link_range_twins(c, b, w, h, k, 0, last, 3);
        assert(heads_below(m.head_origin, h, base + last));
        assert(heads_below(m.head_origin, heads_of(f), base + last));
    }
}

proof fn lemma_parsed_pos(d: Drv)
    requires
        d.mode.params.strategy is Chain,
    ensures
        block_parsed(d).d.place.pos == d.place.block_end,
        block_parsed(d).d.mode.strip_mark == d.mode.strip_mark,
{
    lemma_settled(d);
    let g = alphabet_gated(caught_up(settled(d)));
    assert(g.place == d.place);
    assert(g.mode.params == d.mode.params);
    assert(scanned(g) == scanned_chain(g)) by {
        reveal(scanned);
    }
}

proof fn lemma_screened_pos(d: Drv, dense: bool, found: Seq<LdmSeq>)
    requires
        d.mode.params.strategy is Chain,
        d.wf(),
    ensures
        screen_handled(d, dense, found).0.place.pos == d.place.block_end,
        screen_handled(d, dense, found).0.mode.strip_mark == d.mode.strip_mark,
{
    lemma_sampled(d, dense);
    let g = generated(alphabet_gated(sampled(d, dense)), found);
    assert(g.place == d.place);
    assert(g.mode.params == d.mode.params);
    lemma_parsed_pos(g);
}

/// A handled block is behind the matcher, and its mark is where it was.
pub proof fn lemma_handled_pos(d: Drv, how: BlockUse)
    requires
        d.mode.params.strategy is Chain,
        d.wf(),
    ensures
        handled(d, how).0.place.pos == d.place.block_end,
        handled(d, how).0.mode.strip_mark == d.mode.strip_mark,
{
    reveal(handled);
    lemma_parsed_pos(d);
    if let BlockUse::Offered { found } = how {
        let g = generated(alphabet_gated(d), found);
        assert(g.place == d.place);
        assert(g.mode.params == d.mode.params);
        lemma_parsed_pos(g);
    }
    if let BlockUse::Screened { costs, dense, found } = how {
        lemma_screened_pos(costed(d, costs), dense, found);
    }
    if let BlockUse::Dropped { costs, dense, found } = how {
        lemma_screened_pos(costed(d, costs), dense, found);
    }
}

/// Matchers of the chain's row that are alike emit the same job.
pub proof fn lemma_chain_job_alike(d: Drv, e: Drv, src: Seq<u8>, start: int, pieces: Seq<Piece>)
    requires
        works(d),
        works(e),
        chain_alike(d, e, start + 1),
        0 <= start <= src.len(),
        src.len() + HEAD_ORIGIN_CAP + 1 < 0x1_0000_0000,
        pieces_fit(src, start, pieces),
    ensures
        job_handled(d, src, start, pieces).1 == job_handled(e, src, start, pieces).1,
        chain_alike(
            job_handled(d, src, start, pieces).0,
            job_handled(e, src, start, pieces).0,
            job_end_of(start, pieces) + 1,
        ),
        pieces.len() > 0 ==> job_handled(d, src, start, pieces).0.place.pos == job_end_of(start, pieces),
    decreases pieces.len(),
{
    if pieces.len() > 0 {
        let before = pieces.drop_last();
        lemma_chain_job_alike(d, e, src, start, before);
        lemma_job_works(d, src, start, before);
        lemma_job_works(e, src, start, before);
        let f = job_handled(d, src, start, before).0;
        let g = job_handled(e, src, start, before).0;
        let at = job_end_of(start, before);
        let p = pieces.last();
        let a = on_piece(f, src, at, p);
        let b = on_piece(g, src, at, p);
        lemma_on_piece(f, src, at, p);
        lemma_on_piece(g, src, at, p);
        assert(heads_of(a) == heads_of(f) && heads_of(b) == heads_of(g));
        assert(heads_below(f.mode.head_origin, heads_of(f), p.end + 1));
        assert(chain_alike(a, b, p.end + 1));
        lemma_chain_handled_alike(a, b, p.end + 1, p.how);
        lemma_handled_pos(a, p.how);
    }
}

/// A job's output does not depend on what its matcher did before, on the chain's
/// row either: prepared for the job and prefilled with its strip, any two matchers
/// that have marked what they wrote emit the same. The mark is kept, so that the
/// next job can rely on it.
pub proof fn lemma_chain_job_forgets(
    d: Drv,
    e: Drv,
    level: Level,
    shape: InputShape,
    choice: ReachChoice,
    arming: LdmArming,
    src: Seq<u8>,
    from: u64,
    start: u64,
    depth: u64,
    pieces: Seq<Piece>,
)
    requires
        from <= start <= src.len(),
        start - from <= WIN_MAX,
        src.len() + HEAD_ORIGIN_CAP + 1 < 0x1_0000_0000,
        pieces_fit(src, start as int, pieces),
        ({
            let strip = src.subrange(from as int, start as int);
            let a = job_prepared(d, level, shape, choice, arming, start, depth);
            let b = job_prepared(e, level, shape, choice, arming, start, depth);
            &&& a.wf() && works(filled(a, strip, from, FillGrid::Strip, true))
            &&& b.wf() && works(filled(b, strip, from, FillGrid::Strip, true))
            &&& a.mode.params.strategy is Chain
            &&& marked(a)
            &&& marked(b)
        }),
    ensures
        ({
            let strip = src.subrange(from as int, start as int);
            let a = job_prepared(d, level, shape, choice, arming, start, depth);
            let b = job_prepared(e, level, shape, choice, arming, start, depth);
            let x = job_handled(filled(a, strip, from, FillGrid::Strip, true), src, start as int, pieces);
            let y = job_handled(filled(b, strip, from, FillGrid::Strip, true), src, start as int, pieces);
            x.1 == y.1 && marked(x.0)
        }),
{
    let strip = src.subrange(from as int, start as int);
    let a = job_prepared(d, level, shape, choice, arming, start, depth);
    let b = job_prepared(e, level, shape, choice, arming, start, depth);
    lemma_prepared_alike(d, e, level, shape, choice, arming, start, depth);
    lemma_chain_fill_forgets(a, b, strip, from);
    lemma_chain_fill_forgets(b, a, strip, from);
    let f = filled(a, strip, from, FillGrid::Strip, true);
    let g = filled(b, strip, from, FillGrid::Strip, true);
    assert(chain_alike(f, g, start + 1));
    lemma_chain_job_alike(f, g, src, start as int, pieces);
}

} // verus!
