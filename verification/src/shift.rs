//! Windows that hold more or less of the past: the one-table scan of a block is
//! the same on both, if the shorter window still holds all that the scan can
//! refer to.

use vstd::prelude::*;
use crate::gates::RampGate;
use crate::hash::{back_len, common_len, le4, lemma_common_len, short_slot, ChainHashWidth, HASH_READ, MIN_MATCH};
use crate::parse_fast::{fast_block, fast_chain, fast_emit, fast_hash, fast_inv, fast_rep, fast_run, fast_seed, fast_segments, fast_step, fast_take, fast_take_rep, ldm_fit, ldm_match, ldm_true, lemma_fast_found, lemma_fast_run, lemma_fast_segments, lemma_fast_step, lemma_fast_take, lemma_ldm_match, lemma_skip_covered, rep_agrees, rep_probe, segment_end, skip_covered, FastCfg, FastSt};
use crate::price::lit_cost;
use crate::scan::{bounded_len, count_seed, emit_far, emit_seq, in_step, lemma_emit_in_step, lemma_swap_is_good, resumed, spend_seed, try_match, LdmSeq, Peer, St};
use crate::sequence::pending_after;
use crate::tables::{covered, insert_limit, lemma_covered_len, put_range, put_short};

verus! {

/// The scan `s` on a window that lacks the first `k` bytes.
pub open spec fn moved(s: St, k: int) -> St {
    St { pos: s.pos - k, anchor: s.anchor - k, ..s }
}

/// A scan and its table on such a window. Tables hold absolute positions.
pub open spec fn moved_fast(f: FastSt, k: int) -> FastSt {
    FastSt { t: f.t, s: moved(f.s, k) }
}

/// A scan's constants on such a window.
pub open spec fn rebased(c: FastCfg, k: int) -> FastCfg {
    FastCfg { base: (c.base + k) as u64, ..c }
}

/// A match on such a window.
pub open spec fn moved_match(m: Option<(int, int, int)>, k: int) -> Option<(int, int, int)> {
    match m {
        Some(m) => Some((m.0 - k, m.1 - k, m.2)),
        None => None,
    }
}

/// Nothing that the scan refers to lies in the first `k` bytes.
pub open spec fn ample(c: FastCfg, w: Seq<u8>, d: Peer, f: FastSt, k: int) -> bool {
    &&& fast_inv(c, w, d, f)
    &&& 0 <= k
    &&& 0 <= d.far
    &&& d.far + k <= d.start
}

pub proof fn lemma_le4_moved(w: Seq<u8>, k: int, i: int)
    requires
        0 <= k <= i,
        i + 4 <= w.len(),
    ensures
        le4(w.skip(k), i - k) == le4(w, i),
{
}

/// Positions hash alike.
pub proof fn lemma_slot_moved(w: Seq<u8>, k: int, i: int, log: u32, width: ChainHashWidth)
    requires
        0 <= k <= i,
        i + HASH_READ <= w.len(),
    ensures
        short_slot(w.skip(k), i - k, log, width) == short_slot(w, i, log, width),
{
    lemma_le4_moved(w, k, i);
    lemma_le4_moved(w, k, i + 4);
    assert(i - k + 4 == i + 4 - k);
}

pub proof fn lemma_common_len_moved(w: Seq<u8>, k: int, i: int, j: int)
    requires
        0 <= k <= j <= i <= w.len(),
    ensures
        common_len(w.skip(k), i - k, j - k) == common_len(w, i, j),
    decreases w.len() - i,
{
    if i < w.len() {
        lemma_common_len_moved(w, k, i + 1, j + 1);
        assert(i - k + 1 == i + 1 - k && j - k + 1 == j + 1 - k);
    }
}

pub proof fn lemma_back_len_moved(w: Seq<u8>, k: int, start: int, cand: int, floor: int, cf: int, cg: int)
    requires
        0 <= k <= cand - (start - floor),
        cand <= start <= w.len(),
        floor <= start,
        cf <= k && cg == 0 || cg == cf - k,
    ensures
        back_len(w.skip(k), start - k, cand - k, floor - k, cg) == back_len(w, start, cand, floor, cf),
    decreases start - floor,
{
    if start > floor && cand > cf && w[cand - 1] == w[start - 1] {
        lemma_back_len_moved(w, k, start - 1, cand - 1, floor, cf, cg);
        assert(start - k - 1 == start - 1 - k && cand - k - 1 == cand - 1 - k);
    }
}

pub proof fn lemma_floor_moved(ramp: RampGate, cand: int, base: int, k: int)
    requires
        0 <= k <= cand,
    ensures
        ({
            let cf = ramp.back_floor(cand, base);
            let cg = ramp.back_floor(cand - k, base + k);
            cf <= k && cg == 0 || cg == cf - k
        }),
{
}

pub proof fn lemma_try_match_moved(
    w: Seq<u8>,
    k: int,
    ramp: RampGate,
    base: int,
    at: int,
    cand: int,
    bound: int,
    min_len: int,
    floor: int,
)
    requires
        0 <= k <= cand - (at - floor),
        cand <= at <= w.len(),
        floor <= at,
    ensures
        bounded_len(w.skip(k), at - k, cand - k, bound) == bounded_len(w, at, cand, bound),
        try_match(w.skip(k), ramp, base + k, at - k, cand - k, bound, min_len, floor - k) == moved_match(
            try_match(w, ramp, base, at, cand, bound, min_len, floor),
            k,
        ),
{
    lemma_common_len_moved(w, k, at, cand);
    lemma_floor_moved(ramp, cand, base, k);
    lemma_back_len_moved(
        w,
        k,
        at,
        cand,
        floor,
        ramp.back_floor(cand, base),
        ramp.back_floor(cand - k, base + k),
    );
}

pub proof fn lemma_lit_cost_moved(w: Seq<u8>, k: int, i: int, n: int, lens: Seq<u8>)
    requires
        0 <= k <= i,
        i + n <= w.len(),
    ensures
        lit_cost(w.skip(k), i - k, n, lens) == lit_cost(w, i, n, lens),
    decreases n,
{
    if n > 0 {
        lemma_lit_cost_moved(w, k, i, n - 1, lens);
        assert(w.skip(k)[i - k + n - 1] == w[i + n - 1]);
    }
}

/// A range enters a table alike.
pub proof fn lemma_put_range_moved(
    t: Seq<u32>,
    w: Seq<u8>,
    k: int,
    from: int,
    to: int,
    step: int,
    base: int,
    log: u32,
    width: ChainHashWidth,
)
    requires
        0 <= k,
        from < to ==> k <= from && to + HASH_READ <= w.len() + 1,
    ensures
        put_range(t, w.skip(k), from - k, to - k, step, base + k, log, width) == put_range(
            t,
            w,
            from,
            to,
            step,
            base,
            log,
            width,
        ),
    decreases
        if to > from {
            to - from
        } else {
            0
        },
{
    if from < to && step > 0 {
        lemma_slot_moved(w, k, from, log, width);
        let u = put_short(t, w, from, base, log, width);
        assert(base + k + (from - k) == base + from);
        assert(put_short(t, w.skip(k), from - k, base + k, log, width) == u);
        lemma_put_range_moved(u, w, k, from + step, to, step, base, log, width);
        assert(from - k + step == from + step - k);
    }
}

proof fn lemma_covered_moved(c: FastCfg, w: Seq<u8>, k: int, t: Seq<u32>, start: int, ml: int)
    requires
        0 <= k <= start,
        0 <= ml,
        start + ml <= w.len(),
    ensures
        covered(t, w.skip(k), start - k, ml, insert_limit(w.skip(k)), c.base + k, c.log, c.fill) == covered(
            t,
            w,
            start,
            ml,
            insert_limit(w),
            c.base as int,
            c.log,
            c.fill,
        ),
{
    let limit = insert_limit(w);
    let end = if start + ml < limit {
        start + ml
    } else {
        limit
    };
    let five = ChainHashWidth::Five;
    let base = c.base as int;
    if w.len() - k >= HASH_READ {
        assert(insert_limit(w.skip(k)) == limit - k);
        lemma_put_range_moved(t, w, k, start, end, 1, base, c.log, five);
        lemma_put_range_moved(t, w, k, start, end, 2, base, c.log, five);
        if ml > 16 && start + ml - 2 <= limit {
            lemma_slot_moved(w, k, start + 2, c.log, five);
            lemma_slot_moved(w, k, start + ml - 2, c.log, five);
            assert(start - k + 2 == start + 2 - k && start - k + ml - 2 == start + ml - 2 - k);
            assert(base + k + (start + 2 - k) == base + (start + 2));
            assert(base + k + (start + ml - 2 - k) == base + (start + ml - 2));
        }
    } else {
        assert(ml < HASH_READ);
    }
}

pub proof fn lemma_emit_moved(s: St, w: Seq<u8>, k: int, start: int, ml: int, of: int)
    requires
        0 <= k <= s.anchor <= start <= w.len(),
    ensures
        emit_seq(moved(s, k), w.skip(k), start - k, ml, of) == moved(emit_seq(s, w, start, ml, of), k),
{
    assert(w.skip(k).subrange(s.anchor - k, start - k) =~= w.subrange(s.anchor, start));
    assert(start - k - (s.anchor - k) == start - s.anchor);
}

proof fn lemma_fast_emit_moved(c: FastCfg, w: Seq<u8>, k: int, t: Seq<u32>, s: St, start: int, ml: int)
    requires
        c.fits(w),
        0 <= k <= start,
        0 <= ml,
        start + ml <= w.len(),
    ensures
        fast_emit(rebased(c, k), w.skip(k), t, moved(s, k), start - k, ml) == moved_fast(
            fast_emit(c, w, t, s, start, ml),
            k,
        ),
{
    lemma_covered_moved(c, w, k, t, start, ml);
}

proof fn lemma_fast_chain_moved(c: FastCfg, w: Seq<u8>, d: Peer, k: int, f: FastSt, end: int)
    requires
        ample(c, w, d, FastSt { s: resumed(f.s), ..f }, k),
        f.s.pending == 0,
        end <= w.len(),
    ensures
        fast_chain(rebased(c, k), w.skip(k), moved_fast(f, k), end - k) == moved_fast(fast_chain(c, w, f, end), k),
    decreases w.len() - f.s.anchor,
{
    let p = f.s.anchor;
    let q = p - f.s.rep.r1;
    let n = common_len(w, p, q);
    let v = w.skip(k);
    assert(q >= k);
    assert(p - k - f.s.rep.r1 == q - k);
    lemma_common_len_moved(w, k, p, q);
    if p + MIN_MATCH <= end {
        lemma_le4_moved(w, k, p);
        lemma_le4_moved(w, k, q);
    }
    if p + MIN_MATCH <= end && q >= 0 && !c.ramp.shallow(c.base + q) && le4(w, q) == le4(w, p)
        && MIN_MATCH <= n <= w.len() - p {
        let r = resumed(f.s);
        let e = emit_seq(f.s, w, p, n, 1);
        let g = fast_emit(c, w, f.t, e, p, n);
        lemma_common_len(w, p, q);
        lemma_swap_is_good(w, r, q, n);
        lemma_emit_in_step(w, d, r, p, q, n, 1);
        lemma_covered_len(f.t, w, p, n, insert_limit(w), c.base as int, c.log, c.fill);
        assert(resumed(g.s) =~= resumed(St { pending: pending_after(r.pending, 1), ..emit_seq(r, w, p, n, 1) }));
        lemma_emit_moved(f.s, w, k, p, n, 1);
        lemma_fast_emit_moved(c, w, k, f.t, e, p, n);
        lemma_fast_chain_moved(c, w, d, k, g, end);
    }
}

/// A match is emitted alike, and the scan resumes alike.
proof fn lemma_fast_take_moved(
    c: FastCfg,
    w: Seq<u8>,
    d: Peer,
    k: int,
    t: Seq<u32>,
    s: St,
    m: (int, int, int),
    end: int,
)
    requires
        ample(c, w, d, FastSt { t, s }, k),
        s.anchor <= m.0,
        0 <= m.1 < m.0,
        m.2 >= 3,
        m.0 + m.2 <= w.len(),
        crate::hash::bytes_agree(w, m.0, m.1, m.2),
        !c.ramp.shallow(c.base + m.1) || d.ramp.end == 0,
        m.0 - m.1 <= d.far,
        end <= w.len(),
    ensures
        fast_take(rebased(c, k), w.skip(k), t, moved(s, k), (m.0 - k, m.1 - k, m.2), end - k) == moved_fast(
            fast_take(c, w, t, s, m, end),
            k,
        ),
{
    let of = m.0 - m.1 + 3;
    crate::scan::lemma_far_is_good(w, s, m.0, m.1, m.2);
    lemma_emit_in_step(w, d, s, m.0, m.1, m.2, of);
    lemma_covered_len(t, w, m.0, m.2, insert_limit(w), c.base as int, c.log, c.fill);
    let e = emit_far(s, w, m.0, m.1, m.2);
    let g = fast_emit(c, w, t, e, m.0, m.2);
    assert(resumed(g.s) =~= resumed(St { pending: pending_after(s.pending, of), ..emit_seq(s, w, m.0, m.2, of) }));
    assert(m.0 - k - (m.1 - k) + 3 == of);
    lemma_emit_moved(s, w, k, m.0, m.2, of);
    lemma_fast_emit_moved(c, w, k, t, e, m.0, m.2);
    if g.s.pending == 0 {
        lemma_fast_chain_moved(c, w, d, k, g, end);
    }
}

proof fn lemma_fast_take_rep_moved(
    c: FastCfg,
    w: Seq<u8>,
    d: Peer,
    k: int,
    t: Seq<u32>,
    s: St,
    m: (int, int, int),
    end: int,
)
    requires
        ample(c, w, d, FastSt { t, s }, k),
        s.anchor < m.0,
        0 <= m.1 < m.0,
        m.0 - m.1 == s.rep.r0,
        s.pending == 0,
        m.2 >= 3,
        m.0 + m.2 <= w.len(),
        crate::hash::bytes_agree(w, m.0, m.1, m.2),
        !c.ramp.shallow(c.base + m.1),
        end <= w.len(),
    ensures
        fast_take_rep(rebased(c, k), w.skip(k), t, moved(s, k), (m.0 - k, m.1 - k, m.2), end - k) == moved_fast(
            fast_take_rep(c, w, t, s, m, end),
            k,
        ),
{
    crate::scan::lemma_rep_is_good(w, s, m.0, m.1, m.2);
    lemma_emit_in_step(w, d, s, m.0, m.1, m.2, 1);
    lemma_covered_len(t, w, m.0, m.2, insert_limit(w), c.base as int, c.log, c.fill);
    let e = emit_seq(s, w, m.0, m.2, 1);
    let g = fast_emit(c, w, t, e, m.0, m.2);
    assert(resumed(g.s) =~= resumed(St { pending: pending_after(s.pending, 1), ..e }));
    lemma_emit_moved(s, w, k, m.0, m.2, 1);
    lemma_fast_emit_moved(c, w, k, t, e, m.0, m.2);
    lemma_fast_chain_moved(c, w, d, k, g, end);
}

/// What a step tries, it finds alike.
proof fn lemma_fast_found_moved(
    c: FastCfg,
    w: Seq<u8>,
    lens: Seq<u8>,
    d: Peer,
    k: int,
    t: Seq<u32>,
    s: St,
    e: u32,
    i: int,
    end: int,
)
    requires
        ample(c, w, d, FastSt { t, s }, k),
        s.pos <= i <= s.pos + 1,
        i + 4 <= end <= w.len(),
    ensures
        fast_hash(rebased(c, k), w.skip(k), lens, moved(s, k), e, i - k, end - k) == moved_match(
            fast_hash(c, w, lens, s, e, i, end),
            k,
        ),
        fast_seed(rebased(c, k), w.skip(k), moved(s, k), end - k) == moved_match(fast_seed(c, w, s, end), k),
        rep_agrees(w.skip(k), moved(s, k), i - k) == rep_agrees(w, s, i),
        s.anchor < i ==> fast_rep(rebased(c, k), w.skip(k), moved(s, k), i - k, end - k) == moved_match(
            fast_rep(c, w, s, i, end),
            k,
        ),
{
    let v = w.skip(k);
    let r = rebased(c, k);
    let b = c.base as int;
    assert(end - k - (i - k) == end - i);
    assert(r.base + (i - k) == c.base + i);
    let q = crate::tables::candidate(e, c.base + i, i, c.reach as int);
    assert(crate::tables::candidate(e, r.base + (i - k), i - k, r.reach as int) == q - k);
    lemma_le4_moved(w, k, i);
    lemma_le4_moved(w, k, s.pos);
    if q != i {
        lemma_le4_moved(w, k, q);
        lemma_try_match_moved(w, k, c.ramp, b, i, q, end - i, c.min_len(), s.anchor);
        crate::scan::lemma_try_match(w, c.ramp, b, i, q, end - i, c.min_len(), s.anchor);
        if let Some(m) = try_match(w, c.ramp, b, i, q, end - i, c.min_len(), s.anchor) {
            let n = if m.2 < 6 {
                m.2
            } else {
                6
            };
            lemma_lit_cost_moved(w, k, m.0, n, lens);
        }
    }
    let z = s.pos - s.seed;
    assert(s.pos - k - s.seed == z - k);
    assert(end - k - (s.pos - k) == end - s.pos);
    if s.seed != 0 {
        lemma_le4_moved(w, k, z);
        lemma_try_match_moved(w, k, c.ramp, b, s.pos, z, end - s.pos, 6, s.anchor);
    }
    let x = i - s.rep.r0;
    assert(i - k - s.rep.r0 == x - k);
    lemma_le4_moved(w, k, x);
    if s.anchor < i {
        assert(s.anchor - k + 1 == s.anchor + 1 - k);
        lemma_try_match_moved(w, k, c.ramp, b, i, x, end - i, MIN_MATCH as int, s.anchor + 1);
    }
}

/// What a step does after its first tests is the same.
proof fn lemma_fast_rest_moved(
    c: FastCfg,
    w: Seq<u8>,
    lens: Seq<u8>,
    d: Peer,
    k: int,
    t: Seq<u32>,
    z: St,
    e: u32,
    i: int,
    end: int,
)
    requires
        ample(c, w, d, FastSt { t, s: z }, k),
        z.pos <= i <= z.pos + 1,
        i + 4 <= end <= w.len(),
    ensures
        fast_hash(c, w, lens, z, e, i, end) matches Some(m) ==> fast_take(
            rebased(c, k),
            w.skip(k),
            t,
            moved(z, k),
            (m.0 - k, m.1 - k, m.2),
            end - k,
        ) == moved_fast(fast_take(c, w, t, z, m, end), k),
        z.anchor < i && rep_agrees(w, z, i) && fast_rep(c, w, z, i, end) is Some ==> {
            let m = fast_rep(c, w, z, i, end)->0;
            fast_take_rep(rebased(c, k), w.skip(k), t, moved(z, k), (m.0 - k, m.1 - k, m.2), end - k) == moved_fast(
                fast_take_rep(c, w, t, z, m, end),
                k,
            )
        },
{
    lemma_fast_found(c, w, lens, z, e, i, end);
    if let Some(m) = fast_hash(c, w, lens, z, e, i, end) {
        lemma_fast_take_moved(c, w, d, k, t, z, m, end);
    }
    if z.anchor < i && rep_agrees(w, z, i) && fast_rep(c, w, z, i, end) is Some {
        lemma_fast_take_rep_moved(c, w, d, k, t, z, fast_rep(c, w, z, i, end)->0, end);
    }
}

/// One step is the same.
#[verifier::rlimit(60)]
proof fn lemma_fast_step_moved(c: FastCfg, w: Seq<u8>, lens: Seq<u8>, d: Peer, k: int, f: FastSt, end: int)
    requires
        ample(c, w, d, f, k),
        f.s.pos + HASH_READ <= end <= w.len(),
    ensures
        fast_step(rebased(c, k), w.skip(k), lens, moved_fast(f, k), end - k) == moved_fast(
            fast_step(c, w, lens, f, end),
            k,
        ),
{
    broadcast use crate::hash::lemma_mul_hash_range;

    let s = f.s;
    let i0 = s.pos;
    let pair = end - i0 > HASH_READ;
    let i1 = if pair {
        i0 + 1
    } else {
        i0
    };
    let five = ChainHashWidth::Five;
    lemma_slot_moved(w, k, i0, c.log, five);
    lemma_slot_moved(w, k, i1, c.log, five);
    let e0 = f.t[short_slot(w, i0, c.log, five)];
    let e1 = f.t[short_slot(w, i1, c.log, five)];
    let t1 = put_short(f.t, w, i0, c.base as int, c.log, five);
    let t = if pair {
        put_short(t1, w, i1, c.base as int, c.log, five)
    } else {
        t1
    };
    let r = rebased(c, k);
    assert(r.base + (i0 - k) == c.base + i0);
    assert(r.base + (i1 - k) == c.base + i1);
    assert(i0 - k + 1 == i0 + 1 - k);
    assert(end - k - (i0 - k) == end - i0);
    let p = rep_probe(s);
    assert(rep_probe(moved(s, k)) == p - k);
    assert(fast_inv(c, w, d, FastSt { t, s }));
    lemma_fast_found_moved(c, w, lens, d, k, t, s, e0, p, end);
    lemma_fast_found_moved(c, w, lens, d, k, t, s, e0, i1, end);
    lemma_fast_rest_moved(c, w, lens, d, k, t, s, e0, p, end);
    if rep_agrees(w, s, p) && fast_rep(c, w, s, p, end) is Some {
    } else if fast_seed(c, w, s, end) is Some {
        let m = fast_seed(c, w, s, end)->0;
        assert(in_step(w, d, count_seed(s)));
        assert(count_seed(moved(s, k)) == moved(count_seed(s), k));
        lemma_fast_found(c, w, lens, s, e0, i0, end);
        lemma_fast_take_moved(c, w, d, k, t, count_seed(s), m, end);
    } else {
        let z = spend_seed(s);
        assert(in_step(w, d, z));
        assert(spend_seed(moved(s, k)) == moved(z, k));
        lemma_fast_found_moved(c, w, lens, d, k, t, z, e0, i0, end);
        lemma_fast_found_moved(c, w, lens, d, k, t, z, e1, i1, end);
        lemma_fast_rest_moved(c, w, lens, d, k, t, z, e0, i0, end);
        lemma_fast_rest_moved(c, w, lens, d, k, t, z, e1, i1, end);
    }
}

/// A segment's scan is the same.
proof fn lemma_fast_run_moved(c: FastCfg, w: Seq<u8>, lens: Seq<u8>, d: Peer, k: int, f: FastSt, end: int)
    requires
        ample(c, w, d, f, k),
        end <= w.len(),
    ensures
        fast_run(rebased(c, k), w.skip(k), lens, moved_fast(f, k), end - k) == moved_fast(
            fast_run(c, w, lens, f, end),
            k,
        ),
    decreases
        if end > f.s.pos {
            end - f.s.pos
        } else {
            0
        },
{
    if end - f.s.pos >= HASH_READ {
        lemma_fast_step(c, w, lens, d, f, end);
        lemma_fast_step_moved(c, w, lens, d, k, f, end);
        lemma_fast_run_moved(c, w, lens, d, k, fast_step(c, w, lens, f, end), end);
    }
}

/// A long-distance candidate gives the same match.
pub proof fn lemma_ldm_match_moved(base: int, ramp: RampGate, w: Seq<u8>, k: int, s: St, q: LdmSeq)
    requires
        ldm_true(w, base, q),
        0 <= k,
        k + q.offset <= s.anchor <= q.split - base,
    ensures
        Some(ldm_match(base + k, ramp, w.skip(k), moved(s, k), q)) == moved_match(
            Some(ldm_match(base, ramp, w, s, q)),
            k,
        ),
{
    let i = q.split - base;
    assert(q.split - (base + k) == i - k);
    assert(i - k - q.offset == i - q.offset - k);
    lemma_floor_moved(ramp, i - q.offset, base, k);
    lemma_back_len_moved(
        w,
        k,
        i,
        i - q.offset,
        s.anchor,
        ramp.back_floor(i - q.offset, base),
        ramp.back_floor(i - q.offset - k, base + k),
    );
}

/// A scan in segments is the same.
proof fn lemma_fast_segments_moved(
    c: FastCfg,
    w: Seq<u8>,
    lens: Seq<u8>,
    d: Peer,
    k: int,
    ldm: Seq<LdmSeq>,
    i: int,
    f: FastSt,
    won: bool,
)
    requires
        ample(c, w, d, f, k),
        f.s.pos <= w.len() + 1024,
        ldm_fit(c.base as int, c.ramp, w, d, ldm),
        0 <= i <= ldm.len(),
    ensures
        ({
            let (g, a) = fast_segments(c, w, lens, ldm, i, f, won);
            fast_segments(rebased(c, k), w.skip(k), lens, ldm, i, moved_fast(f, k), won) == (moved_fast(g, k), a)
        }),
    decreases ldm.len() - i,
{
    let r = rebased(c, k);
    let end = segment_end(c.base as int, w, ldm, i);
    let next = segment_end(c.base as int, w, ldm, i + 1);
    if i < ldm.len() {
        assert(ldm_true(w, c.base as int, ldm[i]));
    }
    if i + 1 < ldm.len() {
        assert(ldm_true(w, c.base as int, ldm[i + 1]));
    }
    assert(segment_end(r.base as int, w.skip(k), ldm, i) == end - k);
    assert(segment_end(r.base as int, w.skip(k), ldm, i + 1) == next - k);
    lemma_fast_run(c, w, lens, d, f, end);
    lemma_fast_run_moved(c, w, lens, d, k, f, end);
    let g = fast_run(c, w, lens, f, end);
    if i < ldm.len() {
        if g.s.anchor > end {
            lemma_fast_segments_moved(c, w, lens, d, k, ldm, i + 1, g, won);
        } else if ldm[i].len < MIN_MATCH {
            let h = FastSt { s: St { pos: end, ..g.s }, ..g };
            lemma_fast_segments_moved(c, w, lens, d, k, ldm, i + 1, h, won);
        } else {
            let m = ldm_match(c.base as int, c.ramp, w, g.s, ldm[i]);
            lemma_ldm_match(c.base as int, c.ramp, w, g.s, ldm[i]);
            lemma_ldm_match_moved(c.base as int, c.ramp, w, k, g.s, ldm[i]);
            lemma_fast_take(c, w, d, g.t, g.s, m, next);
            lemma_fast_take_moved(c, w, d, k, g.t, g.s, m, next);
            let h = fast_take(c, w, g.t, g.s, m, next);
            assert(r.base + (h.s.anchor - k) == c.base + h.s.anchor);
            lemma_skip_covered(ldm, i + 1, c.base + h.s.anchor);
            lemma_fast_segments_moved(
                c,
                w,
                lens,
                d,
                k,
                ldm,
                skip_covered(ldm, i + 1, c.base + h.s.anchor),
                h,
                true,
            );
        }
    }
}

/// A block's scan emits the same and leaves the same tables behind, whether or not
/// its window holds `k` more bytes of the past, if the scan can refer to none of
/// them.
pub proof fn lemma_fast_block_moved(
    c: FastCfg,
    w: Seq<u8>,
    lens: Seq<u8>,
    d: Peer,
    k: int,
    ldm: Seq<LdmSeq>,
    f: FastSt,
)
    requires
        ample(c, w, d, f, k),
        f.s.pos <= w.len(),
        ldm_fit(c.base as int, c.ramp, w, d, ldm),
    ensures
        ({
            let (g, a) = fast_block(c, w, lens, ldm, f);
            fast_block(rebased(c, k), w.skip(k), lens, ldm, moved_fast(f, k)) == (moved_fast(g, k), a)
        }),
{
    lemma_fast_segments(c, w, lens, d, ldm, 0, f, false);
    lemma_fast_segments_moved(c, w, lens, d, k, ldm, 0, f, false);
    let g = fast_segments(c, w, lens, ldm, 0, f, false).0;
    let n = w.len() as int;
    if g.s.anchor < n {
        assert(w.skip(k).subrange(g.s.anchor - k, n - k) =~= w.subrange(g.s.anchor, n));
    }
}

} // verus!
