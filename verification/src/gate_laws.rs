//! What the gates promise: which reads a ramp forbids, when a block is left out,
//! and how a frame's blocks shape what follows.

use vstd::prelude::*;
use crate::driver::{armed_ramp, frame_params, ldm_wanted, noted, Drv, Mode};
use crate::driver_blocks::{gated, generated, gives_up, screened, sampled, usable, usable_among, GateVerdict};
use crate::driver_fill::seeded;
use crate::driver_plan::{head_decided, step_decided};
use crate::driver_scan::noted_block;
use crate::gates::{agrees_before, confirms_all, is_seed, next_density, next_fill, sampled_set, seed_below, stride_for, CoveredFill, ScanDensity};
use crate::hash::{bytes_agree, le8, lemma_le8_eq, lemma_mul_hash_range};
use crate::level::Level;
use crate::params::{shaped, BtStepPhase, HeadPhase, LazyStep, LdmArming, LevelParams, ReachChoice};
use crate::probe::{gate_pass, head_parses, odd_stride, repeats, tag_of, tag_slot, word_hash};
use crate::scan::LdmSeq;

verus! {

/// The ramp of a job that starts at `start` forbids sources in the `depth` bytes
/// before it, the deepest excepted, and no others; a ramp of depth zero forbids
/// none.
pub proof fn lemma_ramp_forbids(start: u64, depth: u64, cand: int)
    requires
        start + depth >= 1,
    ensures
        armed_ramp(start, depth).shallow(cand) <==> start - depth < cand < start,
{
}

/// A source at or past the job's start is never extended back across it, and one
/// below the forbidden band may be extended freely.
pub proof fn lemma_ramp_bounds_extension(start: u64, depth: u64, cand: int, base: int)
    requires
        depth >= 1,
        base >= 0,
        cand >= 0,
    ensures
        base + cand >= start ==> base + armed_ramp(start, depth).back_floor(cand, base) >= if start > base {
            start as int
        } else {
            base
        },
        base + cand < start ==> armed_ramp(start, depth).back_floor(cand, base) == 0,
        armed_ramp(start, depth).back_floor(cand, base) <= cand,
{
}

/// After a block with at least 64 sequences, and four literals or more to each,
/// the next block's matches are indexed at every second position, else at every
/// one. After one with at least 512 sequences, less than four literals to each and
/// fewer than 32 literal symbols, the next block is scanned densely.
pub proof fn lemma_next_policies(nseqs: int, nlits: int, symbols: int)
    ensures
        next_fill(nseqs, nlits) == CoveredFill::Strided <==> nseqs >= 64 && nlits >= 4 * nseqs,
        next_fill(nseqs, nlits) != CoveredFill::Strided ==> next_fill(nseqs, nlits) == CoveredFill::Dense,
        next_density(nseqs, nlits, symbols) == ScanDensity::Dense <==> nseqs >= 512 && nlits < 4 * nseqs && symbols < 32,
{
}

/// A sample holds just the bytes at every `stride`-th position.
pub proof fn lemma_sample_holds(w: Seq<u8>, from: int, to: int, stride: int, b: u8)
    requires
        stride >= 1,
    ensures
        sampled_set(w, from, to, stride).contains(b) <==> exists|k: int|
            0 <= k && from + k * stride < to && #[trigger] w[from + k * stride] == b,
    decreases
        if to > from {
            to - from
        } else {
            0
        },
{
    if from < to {
        lemma_sample_holds(w, from + stride, to, stride, b);
        if w[from] == b {
            assert(from + 0 * stride == from);
            assert(w[from + 0 * stride] == b);
        }
        if sampled_set(w, from + stride, to, stride).contains(b) {
            let k = choose|k: int|
                0 <= k && from + stride + k * stride < to && #[trigger] w[from + stride + k * stride] == b;
            assert(from + stride + k * stride == from + (k + 1) * stride) by (nonlinear_arith);
            assert(w[from + (k + 1) * stride] == b);
        }
        if exists|k: int| 0 <= k && from + k * stride < to && #[trigger] w[from + k * stride] == b {
            let k = choose|k: int| 0 <= k && from + k * stride < to && #[trigger] w[from + k * stride] == b;
            if k > 0 {
                assert(from + stride + (k - 1) * stride == from + k * stride) by (nonlinear_arith);
                assert(w[from + stride + (k - 1) * stride] == b);
            } else {
                assert(k * stride == 0) by (nonlinear_arith)
                    requires
                        k == 0,
                ;
            }
        }
    } else {
        assert forall|k: int| 0 <= k implies !(from + k * stride < to && #[trigger] w[from + k * stride] == b) by {
            assert(k * stride >= 0) by (nonlinear_arith)
                requires
                    k >= 0,
                    stride >= 1,
            ;
        }
    }
}

/// Samples are spread over the whole range: their spacing is odd, and about two
/// thousand of them fit.
pub proof fn lemma_sample_spacing(n: int)
    requires
        n >= 0,
    ensures
        odd_stride(n) % 2 == 1,
        2048 * (odd_stride(n) - 1) <= n < 2048 * (odd_stride(n) + 1),
{
}

/// Reads are spread so that about as many as asked for fit.
pub proof fn lemma_read_spacing(n: int, samples: int)
    requires
        n >= 0,
        samples >= 1,
    ensures
        stride_for(n, samples) >= 1,
        stride_for(n, samples) > 1 ==> stride_for(n, samples) * samples <= n,
        n < (stride_for(n, samples) + 1) * samples,
{
    let q = n / samples;
    vstd::arithmetic::div_mod::lemma_fundamental_div_mod(n, samples);
    let s = stride_for(n, samples);
    assert(q * samples <= n < (q + 1) * samples) by (nonlinear_arith)
        requires
            n == samples * q + n % samples,
            0 <= n % samples < samples,
    ;
    if q < 1 {
        assert(n < (s + 1) * samples) by (nonlinear_arith)
            requires
                n < (q + 1) * samples,
                q <= 0,
                s == 1,
                samples >= 1,
        ;
    }
}

proof fn lemma_same_tag(w: Seq<u8>, i: int, j: int, log: u32)
    requires
        bytes_agree(w, i, j, 8),
    ensures
        tag_slot(w, i, log) == tag_slot(w, j, log),
        tag_of(w, i) == tag_of(w, j),
{
    lemma_le8_eq(w, i, j);
    reveal(word_hash);
}

proof fn lemma_pass_keeps_repeats(t: Seq<u32>, w: Seq<u8>, seen: Set<u8>, i: int, stride: int, n: int)
    requires
        t.len() == crate::hash::slots(15),
        stride >= 1,
        i >= 0,
        n >= 0,
        i + (n + 1) * stride + 8 <= w.len(),
        bytes_agree(w, i + n * stride, i + (n + 1) * stride, 8),
    ensures
        gate_pass(t, w, seen, i, stride).seen is None,
    decreases n,
{
    broadcast use lemma_mul_hash_range;

    let k = tag_slot(w, i, 15);
    let u = t.update(k, tag_of(w, i));
    let s = seen.insert(crate::probe::low_byte(w, i));
    assert(n * stride >= 0 && (n + 1) * stride == n * stride + stride) by (nonlinear_arith)
        requires
            n >= 0,
            stride >= 1,
    ;
    if t[k] != tag_of(w, i) {
        if n > 0 {
            assert((i + stride) + (n - 1) * stride == i + n * stride) by (nonlinear_arith);
            assert((i + stride) + (n - 1 + 1) * stride == i + (n + 1) * stride) by (nonlinear_arith);
            lemma_pass_keeps_repeats(u, w, s, i + stride, stride, n - 1);
        } else {
            assert(n * stride == 0) by (nonlinear_arith)
                requires
                    n == 0,
            ;
            lemma_same_tag(w, i, i + stride, 15);
            assert(gate_pass(u, w, s, i + stride, stride).seen is None);
        }
    }
}

/// A block with two neighbouring samples that hold the same eight bytes is worth
/// parsing, and so is any block of less than sixteen kilobytes: neither is left
/// out, however dense its bytes are.
pub proof fn lemma_repeats_are_parsed(d: Drv, n: int, dense: bool)
    requires
        d.probe.len() == 0 || d.probe.len() == crate::hash::slots(15),
        d.block().len() < 16384 || {
            let stride = odd_stride(d.block().len() as int);
            &&& n >= 0
            &&& (n + 1) * stride + 8 <= d.block().len()
            &&& bytes_agree(d.block(), n * stride, (n + 1) * stride, 8)
        },
    ensures
        gated(d).1 == GateVerdict::Parse,
        !gives_up(gated(d).1, dense),
        screened(d, dense).place.pos == d.place.pos,
{
    if d.block().len() >= 16384 {
        let w = d.block();
        let stride = odd_stride(w.len() as int);
        let t = crate::driver_blocks::gate_table(d);
        assert(0 + n * stride == n * stride);
        assert(0 + (n + 1) * stride == (n + 1) * stride);
        lemma_pass_keeps_repeats(t, w, Set::empty(), 0, stride, n);
    }
}

/// A block that is left out is passed over whole, and is caught up with later: the
/// gap in the tables starts with it or with an earlier one.
pub proof fn lemma_left_out_opens_gap(d: Drv, dense: bool)
    requires
        gives_up(gated(d).1, dense),
        d.place.block_start < 0xffff_ffff_ffff_ffff,
    ensures
        ({
            let e = screened(d, dense);
            &&& e.place.pos == d.place.block_end
            &&& e.win == d.win
            &&& e.mode.gap_start == if d.mode.gap_start == 0xffff_ffff_ffff_ffff {
                d.place.block_start
            } else {
                d.mode.gap_start
            }
        }),
{
}

/// A sparse sample without repeats leaves out a block right away after one that
/// was left out for its dense bytes; otherwise its own bytes decide. A block that
/// is worth parsing ends this.
pub proof fn lemma_dense_blocks_hold_back(d: Drv, dense: bool)
    requires
        d.block().len() >= 16384,
    ensures
        ({
            let (e, v) = gated(d);
            &&& v == GateVerdict::Skip ==> d.mode.gate_hold
            &&& v == GateVerdict::Undecided ==> !d.mode.gate_hold
            &&& v == GateVerdict::Parse ==> !e.mode.gate_hold
            &&& v == GateVerdict::Undecided ==> (gives_up(v, dense) <==> dense) && sampled(d, dense).mode.gate_hold == dense
            &&& v == GateVerdict::Skip ==> gives_up(v, dense)
        }),
{
}

/// The start of a frame is not worth capturing if its samples hold fewer than 128
/// different bytes, and is if they hold as many and two neighbouring samples agree.
pub proof fn lemma_head_is_worth_it(head: Seq<u8>)
    ensures
        ({
            let n = head.len() as int;
            let stride = odd_stride(n);
            &&& sampled_set(head, 0, n, stride).len() < 128 ==> !head_parses(head)
            &&& sampled_set(head, 0, n, stride).len() >= 128 && stride + 8 <= n && bytes_agree(head, 0, stride, 8)
                ==> head_parses(head)
        }),
{
    broadcast use lemma_mul_hash_range;

    let n = head.len() as int;
    let stride = odd_stride(n);
    let t = Seq::new(4096, |k: int| 0u32);
    if stride + 8 <= n && bytes_agree(head, 0, stride, 8) {
        vstd::arithmetic::power2::lemma2_to64();
        lemma_same_tag(head, 0, stride, 12);
        let k = tag_slot(head, 0, 12);
        let u = t.update(k, tag_of(head, 0));
        assert(repeats(u, head, stride, stride, 12));
    }
}

/// Whether what stands at the end of the history stood before it at `u`: the eight
/// bytes there, the 48 before them, and eight each 64, 640 and 6144 bytes back
/// where there is as much history.
pub open spec fn stood_before(w: Seq<u8>, u: int, last: int) -> bool {
    &&& bytes_agree(w, u, last, 8)
    &&& u >= 48 && forall|k: int| 1 <= k <= 48 ==> #[trigger] w[u - k] == w[last - k]
    &&& u >= 64 ==> bytes_agree(w, u - 64, last - 64, 8)
    &&& u >= 640 ==> bytes_agree(w, u - 640, last - 640, 8)
    &&& u >= 6144 ==> bytes_agree(w, u - 6144, last - 6144, 8)
}

proof fn lemma_seed_is(w: Seq<u8>, u: int, last: int)
    ensures
        is_seed(w, u, last, le8(w, last) as u64) <==> stood_before(w, u, last),
{
    lemma_le8_eq(w, u, last);
    lemma_le8_eq(w, last, last);
    lemma_le8_eq(w, u - 64, last - 64);
    lemma_le8_eq(w, u - 640, last - 640);
    lemma_le8_eq(w, u - 6144, last - 6144);
    assert(agrees_before(w, u, last) == (u >= 48 && forall|k: int| 1 <= k <= 48 ==> #[trigger] w[u - k] == w[last - k]));
    assert(confirms_all(w, u, last) == ((u >= 64 ==> bytes_agree(w, u - 64, last - 64, 8)) && (u >= 640 ==> bytes_agree(
        w,
        u - 640,
        last - 640,
        8,
    )) && (u >= 6144 ==> bytes_agree(w, u - 6144, last - 6144, 8))));
}

/// History whose end stood somewhere before leaves a seed: the distance to the
/// nearest such place, with its whole budget. History whose end did not leaves the
/// carry as it was.
pub proof fn lemma_seed_repeats(c: crate::driver::Carry, w: Seq<u8>, last: int, v: int)
    requires
        0 <= v < last <= u32::MAX,
    ensures
        ({
            let e = seeded(c, w, last);
            &&& stood_before(w, v, last) ==> {
                &&& 1 <= e.seed <= last - v
                &&& stood_before(w, last - e.seed, last)
                &&& e.hits == 0 && e.budget == 8192
                &&& e.rep == c.rep && e.pending == c.pending && e.miss == c.miss
            }
            &&& (forall|u: int| 0 <= u < last ==> !#[trigger] stood_before(w, u, last)) ==> e == c
        }),
{
    let a8 = le8(w, last) as u64;
    lemma_nearest_seed(w, last, last, a8);
    lemma_seed_is(w, v, last);
    if let Some(u) = seed_below(w, last, last, a8) {
        lemma_seed_is(w, u, last);
        if stood_before(w, v, last) && v > u {
            assert(!is_seed(w, v, last, a8));
        }
    }
}

proof fn lemma_nearest_seed(w: Seq<u8>, u: int, last: int, a8: u64)
    ensures
        match seed_below(w, u, last, a8) {
            Some(v) => 0 <= v < u && is_seed(w, v, last, a8) && forall|x: int| v < x < u ==> !#[trigger] is_seed(w, x, last, a8),
            None => forall|x: int| 0 <= x < u ==> !#[trigger] is_seed(w, x, last, a8),
        },
    decreases u,
{
    if u > 0 && !is_seed(w, u - 1, last, a8) {
        lemma_nearest_seed(w, u - 1, last, a8);
    }
}

/// A frame's head takes its first blocks up to 1152 kilobytes, if the first block
/// shows 48 different bytes in its first eight kilobytes.
pub proof fn lemma_head_blocks(d: Drv)
    ensures
        ({
            let from = d.at();
            let to = if from + 8192 < d.win.len() {
                from + 8192
            } else {
                d.win.len() as int
            };
            let rich = sampled_set(d.win, from, to, 1).len() >= 48;
            let r = head_decided(d).1;
            &&& d.mode.head == HeadPhase::Off || d.mode.head == HeadPhase::Done ==> !r
            &&& d.mode.head == HeadPhase::Armed && d.place.block_start < 1179648 ==> r == rich
            &&& d.mode.head == HeadPhase::Running && d.place.block_start < 1179648 ==> r
            &&& d.mode.head == HeadPhase::Running && d.place.block_start >= 1179648 && d.place.block_end
                >= d.place.block_start ==> !r
            &&& d.mode.head == HeadPhase::Armed && d.place.block_start < 1179648 ==> head_decided(d).0.mode.head == if rich {
                HeadPhase::Running
            } else {
                HeadPhase::Off
            }
        }),
{
    reveal(head_decided);
}

/// The deferred tree parse probes every position in the first 512 kilobytes of a
/// frame whose first block shows 48 different bytes in its first eight kilobytes.
pub proof fn lemma_dense_tree_blocks(d: Drv)
    ensures
        ({
            let from = d.at();
            let to = if from + 8192 < d.win.len() {
                from + 8192
            } else {
                d.win.len() as int
            };
            let rich = sampled_set(d.win, from, to, 1).len() >= 48;
            let r = step_decided(d).1;
            &&& d.place.block_start >= 524288 ==> r == LazyStep::Ramp
            &&& d.place.block_start < 524288 && d.mode.bt_step == BtStepPhase::Armed ==> (r == LazyStep::Dense <==> rich)
            &&& d.place.block_start < 524288 && d.mode.bt_step == BtStepPhase::Dense ==> r == LazyStep::Dense
            &&& d.place.block_start < 524288 && d.mode.bt_step == BtStepPhase::Off ==> r == LazyStep::Ramp
        }),
{
}

/// Sixteen blocks in a row without a win, counted once the window is full, shut
/// the generation of far candidates off; a win starts the count anew.
pub proof fn lemma_quiet_blocks(d: Drv, won: bool)
    requires
        d.mode.ldm.on,
    ensures
        ({
            let u = d.mode.ldm;
            let v = noted_block(d, won).mode.ldm;
            let full = d.place.block_end - d.place.base > d.mode.params.window;
            &&& won ==> v.quiet == 0 && v.dead == u.dead
            &&& !won && !full ==> v == u
            &&& !won && full && u.quiet < 255 ==> v.quiet == u.quiet + 1 && (v.dead <==> u.dead || u.quiet + 1 >= 16)
        }),
{
}

/// While generation is shut off, seven blocks of eight are offered nothing. In the
/// eighth, and where it is not shut off, a block gets every candidate that it can
/// use: one past the row's own reach but inside the window, in the block, that
/// repeats real bytes. A find switches generation on again.
pub proof fn lemma_candidates_offered(d: Drv, found: Seq<LdmSeq>, q: LdmSeq)
    requires
        d.mode.ldm.canary < 8,
    ensures
        ({
            let e = generated(d, found);
            let u = d.mode.ldm;
            let looks = !u.dead || u.canary == 7;
            &&& !looks ==> e.ldm.len() == 0 && e.mode.ldm.canary == u.canary + 1
            &&& looks && u.on ==> (e.ldm.contains(q) <==> found.contains(q) && usable(d, q))
            &&& e.ldm.contains(q) ==> search_reach(d) < q.offset <= d.mode.params.window && q.split >= d.place.block_start
            &&& looks && u.on && found.contains(q) && usable(d, q) ==> !e.mode.ldm.dead
            &&& looks && u.dead ==> e.mode.ldm.canary == 0
        }),
{
    lemma_usable_kept(d, found, found.len() as int, q);
    let e = generated(d, found);
    let u = d.mode.ldm;
    if (!u.dead || u.canary == 7) && u.on {
        let all = usable_among(d, found, found.len() as int);
        if found.contains(q) && usable(d, q) {
            let i = choose|i: int| 0 <= i < found.len() && found[i] == q;
            assert(all.contains(q));
            assert(all.len() > 0);
        }
    }
}

/// Farthest distance that the matcher's row searches.
pub open spec fn search_reach(d: Drv) -> int {
    match d.mode.params.chain_reach {
        Some(r) => r as int,
        None => d.mode.params.window as int,
    }
}

proof fn lemma_usable_kept(d: Drv, found: Seq<LdmSeq>, n: int, q: LdmSeq)
    requires
        0 <= n <= found.len(),
    ensures
        usable_among(d, found, n).contains(q) <==> usable(d, q) && exists|i: int| 0 <= i < n && found[i] == q,
    decreases n,
{
    if n > 0 {
        lemma_usable_kept(d, found, n - 1, q);
        let r = usable_among(d, found, n - 1);
        let z = usable_among(d, found, n);
        if usable(d, found[n - 1]) {
            assert(z == r.push(found[n - 1]));
            if r.contains(q) {
                let k = choose|k: int| 0 <= k < r.len() && r[k] == q;
                assert(z[k] == q);
            }
            assert(z[z.len() - 1] == found[n - 1]);
            if z.contains(q) {
                let k = choose|k: int| 0 <= k < z.len() && z[k] == q;
                if k < r.len() {
                    assert(r[k] == q);
                }
            }
        }
    }
}

/// Far repeats are looked for where the row wants them, its reach is not the
/// near-local one, and its window is at least 32 megabytes, or 64 in a job of its
/// own; never on rows of candidates, in frames without far repeats or in probes.
pub proof fn lemma_far_repeats_wanted(p: LevelParams, arming: LdmArming)
    ensures
        ({
            let bar = match arming {
                LdmArming::Frame | LdmArming::FrameScreened | LdmArming::JobPrefix => Some(0x200_0000int),
                LdmArming::Job => Some(0x400_0000int),
                LdmArming::FarDead | LdmArming::ProbeKeep => None,
            };
            ldm_wanted(p, arming) <==> p.ldm && p.chain_reach != Some(0x1000usize) && !(p.strategy is Row) && bar is Some
                && p.window >= bar->Some_0
        }),
{
}

/// A frame runs on its level's row. The near-local choice puts four kilobytes in
/// the place of a reach of four megabytes. A row of one or two tables is widened to
/// 64 megabytes for far repeats, with its own window as its reach, where the frame
/// is that long, or half as long and known to have them. Nothing else changes.
pub proof fn lemma_frame_row(level: Level, m: Mode)
    ensures
        ({
            let row = shaped(level, m.input.shape);
            let p = frame_params(level, m);
            let near = m.reach_choice == ReachChoice::Shrink && row.chain_reach == Some(0x40_0000usize);
            let long = |n: u64| match m.arming {
                LdmArming::Frame => n >= 0x400_0000,
                LdmArming::FrameScreened => n >= 0x200_0000,
                _ => false,
            };
            let wide = row.ldm && (row.strategy is Fast || row.strategy is Dfast) && row.window < 0x400_0000 && (
            m.input.shape.len matches Some(n) && long(n));
            &&& p == (LevelParams { window: p.window, chain_reach: p.chain_reach, ..row })
            &&& wide ==> p.window == 0x400_0000 && p.chain_reach == Some(row.window)
            &&& !wide ==> p.window == row.window
            &&& !wide && near ==> p.chain_reach == Some(0x1000usize)
            &&& !wide && !near ==> p.chain_reach == row.chain_reach
        }),
{
    reveal(frame_params);
}

/// A literal without a code counts as eleven bits, any other as its code's length.
pub proof fn lemma_noted_costs(lengths: Seq<u8>, b: int)
    requires
        lengths.len() == 256,
        0 <= b < 256,
    ensures
        noted(lengths).len() == 256,
        lengths[b] == 0 ==> noted(lengths)[b] == 11,
        lengths[b] != 0 ==> noted(lengths)[b] == lengths[b],
{
}

} // verus!
