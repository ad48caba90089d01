//! What the parts of a parse are given: each strategy runs on its row's numbers,
//! far candidates are taken, and what a match covers is remembered.

use vstd::prelude::*;
use vstd::arithmetic::power2::{lemma2_to64, pow2};
use crate::bits::{lemma_log2_u32, lemma_pow2_monotone};
use crate::chains::{link_match, link_range, Heads, LinkCfg};
use crate::driver::Drv;
use crate::driver_scan::{chain_cfg, dfast_cfg, fast_cfg, opt_cfg, pick_cfg, row_cfg, small_wide};
use crate::gate_laws::search_reach;
use crate::gates::CoveredFill;
use crate::hash::{bytes_agree, common_len, le4, lemma_common_len, lemma_le4_eq, lemma_mul_hash_range, long_slot, short_slot, slots, ChainHashWidth};
use crate::history_laws::lemma_range_is_linked;
use crate::lazy::lemma_agree4;
use crate::opt_series::{offered, settle, Span, Spans};
use crate::opt_tree::Match;
use crate::parse_chain::{chain_find, chain_found, ldm_skip, ChainCfg, ChainSt};
use crate::parse_dfast::{dfast_anchors, dfast_scan, dfast_segments, DfastCfg, DfastSt};
use crate::parse_fast::{fast_chain, fast_run, fast_segments, segment_end, FastCfg, FastSt};
use crate::parse_opt::OptKnobs;
use crate::price_laws::lemma_log2_is;
use crate::rows::{lemma_row_index, row_put, RowCfg, Rows};
use crate::scan::{LdmSeq, St};
use crate::search_laws::aged;
use crate::seq_codes::{encodable, lemma_ll_code, lemma_ml_code, lemma_packed_roundtrip, ll_base, ll_bits, ll_code, ml_base, ml_bits, ml_code, seq_word, word_ll, word_ml, word_of};
use crate::tables::entry_of;

verus! {

/// Every strategy is run with its row's table logs, depth, deferral, shortest
/// match and reach, at the window's place and under the job's ramp. Rows try no
/// more candidates than they hold besides the newest.
pub proof fn lemma_strategies_run_their_row(d: Drv, log: u32)
    requires
        d.mode.params.lazy_depth <= 2,
        log <= 6,
    ensures
        ({
            let p = d.mode.params;
            let pick = pick_cfg(d);
            let f = fast_cfg(d);
            let t = dfast_cfg(d, log);
            let c = chain_cfg(d);
            let r = row_cfg(d, log);
            &&& f.base == d.place.base && f.log == p.hash_log && f.reach == search_reach(d) && f.ramp == d.mode.ramp
            &&& t.base == d.place.base && t.long_log == p.hash_log && t.small_log == log && t.reach == search_reach(d) && t.ramp
                == d.mode.ramp
            &&& pick.base == d.place.base && pick.ramp == d.mode.ramp && pick.lazy == p.lazy_depth && pick.min_match
                == p.min_match && pick.dict_row == d.mode.dict_row
            &&& c.pick == pick && r.pick == pick
            &&& c.link.base == d.place.base && c.link.log == p.hash_log && c.link.origin == d.mode.head_origin
            &&& c.walk.depth == p.search_depth && c.walk.reach == search_reach(d) && c.walk.ramp == d.mode.ramp
            &&& r.row.base == d.place.base && r.row.log == p.hash_log && r.row.row_log == log && r.row.reach == search_reach(d)
                && r.row.ramp == d.mode.ramp
            &&& r.row.attempts <= p.search_depth && r.row.attempts < pow2(log as nat)
            &&& r.row.attempts == p.search_depth || r.row.attempts == pow2(log as nat) - 1
            &&& d.mode.dict_row ==> c.link.width == ChainHashWidth::Four && r.row.width == ChainHashWidth::Four && t.width
                == ChainHashWidth::Four && c.fill == CoveredFill::DictDense
            &&& !d.mode.dict_row ==> c.link.width == ChainHashWidth::Five && r.row.width == ChainHashWidth::Five && c.fill
                == CoveredFill::Dense
            &&& !d.mode.dict_row && !d.mode.params.small_src ==> t.width == ChainHashWidth::Five && !f.small_wide
        }),
{
    lemma2_to64();
    lemma_pow2_monotone(0, log as nat);
    lemma_pow2_monotone(log as nat, 6);
}

/// The optimal parse compares two to the search log positions, and is run with
/// its row's other numbers as they are.
pub proof fn lemma_optimal_parse_runs_its_row(d: Drv, k: OptKnobs)
    requires
        k.wf(),
    ensures
        ({
            let c = opt_cfg(d, k);
            &&& c.ultra == k.ultra
            &&& c.tree.base == d.place.base && c.tree.reach == search_reach(d) && c.tree.table_log == d.mode.params.hash_log
            &&& c.tree.bt_log == k.bt_log && c.tree.hash3_log == k.hash3_log
            &&& c.tree.min_match == k.min_match && c.tree.mls == k.mls && c.tree.sufficient_len == k.sufficient_len
            &&& c.tree.nb_compares == pow2(k.search_log as nat) && c.tree.insert_compares == pow2(k.insert_log as nat)
        }),
{
    lemma2_to64();
    lemma_pow2_monotone(k.search_log as nat, 30);
    lemma_pow2_monotone(k.insert_log as nat, 30);
}

/// The single-probe scan takes the first far candidate of a block, unless what it
/// found by itself already covers the candidate's start.
pub proof fn lemma_fast_takes_far(c: FastCfg, w: Seq<u8>, lens: Seq<u8>, ldm: Seq<LdmSeq>, i: int, f: FastSt)
    requires
        0 <= i < ldm.len(),
        ldm[i].len >= 4,
        fast_run(c, w, lens, f, ldm[i].split - c.base).s.anchor <= ldm[i].split - c.base,
    ensures
        fast_segments(c, w, lens, ldm, i, f, false).1,
{
    let end = segment_end(c.base as int, w, ldm, i);
    let g = fast_run(c, w, lens, f, end);
    let m = crate::parse_fast::ldm_match(c.base as int, c.ramp, w, g.s, ldm[i]);
    let h = crate::parse_fast::fast_take(c, w, g.t, g.s, m, segment_end(c.base as int, w, ldm, i + 1));
    lemma_fast_won(c, w, lens, ldm, crate::parse_fast::skip_covered(ldm, i + 1, c.base + h.s.anchor), h);
}

proof fn lemma_fast_won(c: FastCfg, w: Seq<u8>, lens: Seq<u8>, ldm: Seq<LdmSeq>, i: int, f: FastSt)
    ensures
        fast_segments(c, w, lens, ldm, i, f, true).1,
    decreases ldm.len() - i,
{
    let end = segment_end(c.base as int, w, ldm, i);
    let g = fast_run(c, w, lens, f, end);
    if i < ldm.len() {
        if g.s.anchor > end {
            lemma_fast_won(c, w, lens, ldm, i + 1, g);
        } else if ldm[i].len < 4 {
            lemma_fast_won(c, w, lens, ldm, i + 1, FastSt { s: St { pos: end, ..g.s }, ..g });
        } else {
            let m = crate::parse_fast::ldm_match(c.base as int, c.ramp, w, g.s, ldm[i]);
            let h = crate::parse_fast::fast_take(c, w, g.t, g.s, m, segment_end(c.base as int, w, ldm, i + 1));
            let j = crate::parse_fast::skip_covered(ldm, i + 1, c.base + h.s.anchor);
            if i < j <= ldm.len() {
                lemma_fast_won(c, w, lens, ldm, j, h);
            }
        }
    }
}

/// The two-table scan takes the first far candidate of a block, unless what it
/// emitted before covers the candidate's start.
pub proof fn lemma_dfast_takes_far(c: DfastCfg, w: Seq<u8>, ldm: Seq<LdmSeq>, i: int, f: DfastSt)
    requires
        0 <= i < ldm.len(),
        ldm[i].len >= 4,
        f.s.anchor <= ldm[i].split - c.base,
    ensures
        dfast_segments(c, w, ldm, i, f, false).1,
{
    let end = segment_end(c.base as int, w, ldm, i);
    let g = crate::parse_dfast::dfast_from(dfast_scan(c, w.take(end), f), end);
    let m = crate::parse_fast::ldm_match(c.base as int, c.ramp, w, g.s, ldm[i]);
    let h = crate::parse_dfast::dfast_take(
        c,
        w.take(crate::parse_dfast::far_end(c.base as int, w, ldm, i, m.0 + m.2)),
        g,
        m,
        None,
    );
    lemma_dfast_won(c, w, ldm, crate::parse_fast::skip_covered(ldm, i + 1, c.base + h.s.anchor), h);
}

proof fn lemma_dfast_won(c: DfastCfg, w: Seq<u8>, ldm: Seq<LdmSeq>, i: int, f: DfastSt)
    ensures
        dfast_segments(c, w, ldm, i, f, true).1,
    decreases ldm.len() - i,
{
    if i < ldm.len() {
        let end = segment_end(c.base as int, w, ldm, i);
        if f.s.anchor > end {
            lemma_dfast_won(c, w, ldm, i + 1, f);
        } else {
            let g = crate::parse_dfast::dfast_from(dfast_scan(c, w.take(end), f), end);
            if ldm[i].len < 4 {
                lemma_dfast_won(c, w, ldm, i + 1, g);
            } else {
                let m = crate::parse_fast::ldm_match(c.base as int, c.ramp, w, g.s, ldm[i]);
                let h = crate::parse_dfast::dfast_take(
                    c,
                    w.take(crate::parse_dfast::far_end(c.base as int, w, ldm, i, m.0 + m.2)),
                    g,
                    m,
                    None,
                );
                let j = crate::parse_fast::skip_covered(ldm, i + 1, c.base + h.s.anchor);
                if i < j <= ldm.len() {
                    lemma_dfast_won(c, w, ldm, j, h);
                }
            }
        }
    }
}

/// The chain scan weighs a far candidate that starts at its position: what it
/// finds is as long as the longer of the candidate and the chain's own match.
pub proof fn lemma_chain_weighs_far(c: ChainCfg, w: Seq<u8>, ldm: Seq<LdmSeq>, f: ChainSt, q: LdmSeq)
    requires
        f.s.pos <= w.len(),
        ldm_skip(c, ldm, f) < ldm.len(),
        q == ldm[ldm_skip(c, ldm, f)],
        q.split == c.link.base + f.s.pos,
        1 <= q.offset <= f.s.pos,
        f.s.pos + 4 <= w.len(),
        bytes_agree(w, f.s.pos, f.s.pos - q.offset, 4),
    ensures
        ({
            let own = chain_find(c, w, f.h)(f.s.pos).0;
            let far = common_len(w, f.s.pos, f.s.pos - q.offset);
            chain_found(c, w, ldm, f).0 == if far > own {
                far
            } else {
                own
            }
        }),
{
    let i = f.s.pos;
    let j = i - q.offset;
    lemma_le4_eq(w, j, i);
    assert forall|k: int| 0 <= k < 4 implies #[trigger] w[j + k] == w[i + k] by {
        assert(w[i + k] == w[j + k]);
    }
}

/// The optimal parse is offered the rest of a far span that it is inside of, where
/// that is longer than what its tree found.
pub proof fn lemma_optimal_parse_is_offered_far(sp: Spans, ms: Seq<Match>, pos: int, min_match: int, a: Span)
    requires
        sp.act == Some(a),
        a.start <= pos,
        a.end - pos >= min_match,
        a.end - pos <= u32::MAX,
        0 <= a.off <= u32::MAX - 3,
        ms.len() < 4096,
        forall|k: int| 0 <= k < ms.len() ==> (#[trigger] ms[k]).len < a.end - pos,
    ensures
        offered(sp, ms, pos, min_match) == Some(Match { off: (a.off + 3) as u32, len: (a.end - pos) as u32 }),
{
}

/// A cursor that reaches a candidate's start takes it up, if it is in no other and
/// the candidate is the next.
pub proof fn lemma_cursor_takes_span(ldm: Seq<LdmSeq>, sp: Spans, pos: int)
    requires
        sp.act is None,
        0 <= sp.next < ldm.len(),
        ldm[sp.next].split <= pos < ldm[sp.next].split + ldm[sp.next].len,
    ensures
        settle(ldm, sp, pos).act == Some(
            Span {
                off: ldm[sp.next].offset as int,
                start: ldm[sp.next].split as int,
                end: ldm[sp.next].split + ldm[sp.next].len,
            },
        ),
{
    let q = ldm[sp.next];
    let z = Spans {
        next: sp.next + 1,
        act: Some(Span { off: q.offset as int, start: q.split as int, end: q.split + q.len }),
    };
    assert(settle(ldm, z, pos) == z);
}

/// Right behind a match the single-probe scan takes one by the second newest
/// offset, where there is one of four bytes.
pub proof fn lemma_fast_takes_swaps(c: FastCfg, w: Seq<u8>, f: FastSt, end: int)
    requires
        f.s.rep.r1 <= f.s.anchor,
        f.s.anchor + 4 <= end <= w.len(),
        bytes_agree(w, f.s.anchor, f.s.anchor - f.s.rep.r1, 4),
        !c.ramp.shallow(c.base + f.s.anchor - f.s.rep.r1),
    ensures
        fast_chain(c, w, f, end).s.seqs.len() > f.s.seqs.len(),
{
    let p = f.s.anchor;
    let q = p - f.s.rep.r1;
    lemma_le4_eq(w, q, p);
    assert forall|k: int| 0 <= k < 4 implies #[trigger] w[q + k] == w[p + k] by {
        assert(w[p + k] == w[q + k]);
    }
    lemma_agree4(w, p, q);
    lemma_common_len(w, p, q);
    let n = common_len(w, p, q);
    let g = crate::parse_fast::fast_emit(c, w, f.t, crate::scan::emit_seq(f.s, w, p, n, 1), p, n);
    lemma_chain_keeps(c, w, g, end);
}

proof fn lemma_chain_keeps(c: FastCfg, w: Seq<u8>, f: FastSt, end: int)
    ensures
        fast_chain(c, w, f, end).s.seqs.len() >= f.s.seqs.len(),
    decreases w.len() - f.s.anchor,
{
    let p = f.s.anchor;
    let q = p - f.s.rep.r1;
    let n = common_len(w, p, q);
    if p + 4 <= end && q >= 0 && !c.ramp.shallow(c.base + q) && le4(w, q) == le4(w, p) && 4 <= n <= w.len() - p {
        lemma_chain_keeps(
            c,
            w,
            crate::parse_fast::fast_emit(c, w, f.t, crate::scan::emit_seq(f.s, w, p, n, 1), p, n),
            end,
        );
    }
}

/// Distance between the positions that are linked of a match of the chain's: every
/// one up to 64 bytes or under the dense dictionary policy, every fourth beyond.
pub open spec fn link_spacing(ml: int, fill: CoveredFill) -> int {
    if ml <= 64 || fill == CoveredFill::DictDense {
        1
    } else {
        4
    }
}

/// What a match of the chain's covers is linked: each position at the spacing
/// leaves its slot to itself or to a later one.
pub proof fn lemma_match_is_linked(c: LinkCfg, w: Seq<u8>, h: Heads, start: int, ml: int, fill: CoveredFill, n: int)
    requires
        c.fits(w, h),
        start >= 0,
        start + ml + 8 <= w.len(),
        n >= 0,
        n * link_spacing(ml, fill) < ml,
    ensures
        exists|m: int|
            n <= m && m * link_spacing(ml, fill) < ml && link_match(c, w, h, start, ml, fill).t[c.slot(
                w,
                start + n * link_spacing(ml, fill),
            )] == c.entry(#[trigger] (start + m * link_spacing(ml, fill))),
{
    let step = link_spacing(ml, fill);
    lemma_range_is_linked(c, w, h, start, start + ml, step, n);
    let z = link_range(c, w, h, start, start + ml, step);
    assert(z == link_match(c, w, h, start, ml, fill));
    let m = choose|m: int|
        n <= m && start + m * step < start + ml && z.t[c.slot(w, start + n * step)] == c.entry(
            #[trigger] (start + m * step),
        );
    assert(m * step < ml);
}

/// After a match the two-table scan has indexed the position two past the probe in
/// the long table, unless a later one took its slot, the one two before the
/// match's end there, and the one before its end in the short table.
pub proof fn lemma_match_ends_are_indexed(c: DfastCfg, w: Seq<u8>, f: DfastSt, cur: int, end: int)
    requires
        1 <= c.long_log < 32,
        1 <= c.small_log < 32,
        f.long.len() == slots(c.long_log),
        f.small.len() == slots(c.small_log),
        0 <= cur,
        cur + 3 <= end,
        end + 8 <= w.len(),
    ensures
        ({
            let g = dfast_anchors(c, w, f, cur, end);
            &&& g.long[long_slot(w, end - 2, c.long_log)] == entry_of(c.base + end - 2)
            &&& g.small[short_slot(w, end - 1, c.small_log, c.width)] == entry_of(c.base + end - 1)
            &&& long_slot(w, cur + 2, c.long_log) != long_slot(w, end - 2, c.long_log) ==> g.long[long_slot(
                w,
                cur + 2,
                c.long_log,
            )] == entry_of(c.base + cur + 2)
            &&& short_slot(w, cur + 2, c.small_log, c.width) != short_slot(w, end - 1, c.small_log, c.width)
                ==> g.small[short_slot(w, cur + 2, c.small_log, c.width)] == entry_of(c.base + cur + 2)
        }),
{
    broadcast use lemma_mul_hash_range;

}

/// The slot before the newest becomes the newest: ages grow by one.
proof fn lemma_ring_turns(n: int, old: int, a: int)
    requires
        n == 16 || n == 32 || n == 64,
        0 <= old < n,
        0 <= a < n - 1,
    ensures
        ({
            let slot = (old + 255) % n;
            (slot + a + 1) % n == (old + a) % n && (slot + a + 1) % n != slot
        }),
{
    let slot = (old + 255) % n;
    if n == 16 {
        assert(slot == if old == 0 {
            15
        } else {
            old - 1
        });
    } else if n == 32 {
        assert(slot == if old == 0 {
            31
        } else {
            old - 1
        });
    } else {
        assert((old + 255) % 64 == if old == 0 {
            63
        } else {
            old - 1
        });
    }
    if old == 0 {
        vstd::arithmetic::div_mod::lemma_mod_add_multiples_vanish(a, n);
    }
    vstd::arithmetic::div_mod::lemma_small_mod(a as nat, n as nat);
    if old + a < n {
        vstd::arithmetic::div_mod::lemma_small_mod((old + a) as nat, n as nat);
    } else {
        vstd::arithmetic::div_mod::lemma_mod_add_multiples_vanish(old + a - n, n);
        vstd::arithmetic::div_mod::lemma_small_mod((old + a - n) as nat, n as nat);
    }
}

/// A row remembers its entries: the newest comes first, and each insertion moves
/// the others back by one until they drop out. Other rows stay as they are.
pub proof fn lemma_row_remembers(c: RowCfg, w: Seq<u8>, r: Rows, j: int, h: int, a: int)
    requires
        c.fits(w, r),
        0 <= a < c.row_len() - 1,
        0 <= h / 0x100 < r.hd.len(),
        r.hd[h / 0x100] < c.row_len(),
    ensures
        h / 0x100 == c.hash(w, j) / 0x100 ==> aged(c, row_put(c, w, r, j, j), h, a + 1) == aged(c, r, h, a),
{
    lemma_row_index(c, w, r, j);
    let row = c.hash(w, j) / 0x100;
    if h / 0x100 == row {
        let n = c.row_len();
        lemma2_to64();
        let old = r.hd[row] as int;
        let slot = (old + 255) % n;
        assert(n == 16 || n == 32 || n == 64) by {
            assert(c.row_log == 4 || c.row_log == 5 || c.row_log == 6);
        }
        let g = row_put(c, w, r, j, j);
        assert(g.hd[row] == slot);
        let x = (slot + a + 1) % n;
        lemma_ring_turns(n, old, a);
        assert(0 <= row * n + slot < r.t.len());
        assert(0 <= row * n + x < r.t.len());
    }
}

/// A packed word holds the three codes one byte each, literal run first, and their
/// extra bits in the same order from the lowest, as many as it says.
pub proof fn lemma_word_layout(ll: int, ml: int, of: int, k: nat)
    requires
        0 <= ll <= 131071,
        3 <= ml <= 131074,
        pow2(k) <= of < pow2((k + 1) as nat),
        of <= u32::MAX,
    ensures
        ({
            let w = seq_word(ll, ml, of);
            let (lc, mc) = (ll_code(ll), ml_code(ml));
            let (a, b) = (pow2(ll_bits(lc) as nat) as int, pow2((ll_bits(lc) + ml_bits(mc)) as nat) as int);
            &&& w.codes == lc + 256 * mc + 65536 * k
            &&& w.add_nb == ll_bits(lc) + ml_bits(mc) + k
            &&& w.add as int % a == ll - ll_base(lc)
            &&& w.add as int / a % (pow2(ml_bits(mc) as nat) as int) == ml - ml_base(mc)
            &&& w.add as int / b == of - pow2(k)
        }),
{
    lemma_word_codes(ll, ml, of, k);
    lemma_packed_roundtrip(ll, ml, of);
    let w = seq_word(ll, ml, of);
    let (lc, mc) = (ll_code(ll), ml_code(ml));
    assert(word_ll(w.codes, w.add) == ll_base(lc) + w.add as int % (pow2(ll_bits(lc) as nat) as int));
    assert(word_ml(w.codes, w.add) == ml_base(mc) + w.add as int / (pow2(ll_bits(lc) as nat) as int) % (pow2(
        ml_bits(mc) as nat,
    ) as int));
    assert(word_of(w.codes, w.add) == pow2(k) + w.add as int / (pow2((ll_bits(lc) + ml_bits(mc)) as nat) as int));
}

proof fn lemma_word_codes(ll: int, ml: int, of: int, k: nat)
    requires
        0 <= ll <= 131071,
        3 <= ml <= 131074,
        pow2(k) <= of < pow2((k + 1) as nat),
        of <= u32::MAX,
    ensures
        ({
            let w = seq_word(ll, ml, of);
            let (lc, mc) = (ll_code(ll), ml_code(ml));
            &&& w.codes == lc + 256 * mc + 65536 * k
            &&& w.add_nb == ll_bits(lc) + ml_bits(mc) + k
            &&& w.codes as int % 0x100 == lc
            &&& w.codes as int / 0x100 % 0x100 == mc
            &&& w.codes as int / 0x1_0000 == k
        }),
        encodable(ll, ml, of),
{
    lemma_log2_is(of, k);
    lemma_log2_u32(of as u32);
    lemma_ll_code(ll);
    lemma_ml_code(ml);
}

/// How many extra bits the codes have, in numbers.
pub proof fn lemma_extra_bits_in_numbers(c: int)
    ensures
        0 <= c < 36 ==> ll_bits(c) == seq![0int, 0, 0, 0, 0, 0, 0, 0, 0, 0, 0, 0, 0, 0, 0, 0, 1, 1, 1, 1, 2, 2, 3, 3, 4, 6, 7, 8, 9, 10, 11, 12, 13, 14, 15, 16][c],
        0 <= c < 53 ==> ml_bits(c) == seq![0int, 0, 0, 0, 0, 0, 0, 0, 0, 0, 0, 0, 0, 0, 0, 0, 0, 0, 0, 0, 0, 0, 0, 0, 0, 0, 0, 0, 0, 0, 0, 0, 1, 1, 1, 1, 2, 2, 3, 3, 4, 4, 5, 7, 8, 9, 10, 11, 12, 13, 14, 15, 16][c],
{
}

} // verus!
