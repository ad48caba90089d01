//! The double-hash scan on windows that hold more or less of the past.

use vstd::prelude::*;
use crate::hash::{bytes_agree, common_len, le4, le8, lemma_common_len, lemma_mul_hash_range, long_slot, short_slot, HASH_READ, MIN_MATCH};
use crate::parse_dfast::{
    at_job_start, dfast_anchors, dfast_at_anchor, dfast_block, dfast_chain, dfast_inv, dfast_long, dfast_rep, dfast_restarted,
    dfast_from, dfast_resume, dfast_run, dfast_scan, dfast_seed, dfast_segments, dfast_short, dfast_step, dfast_take, far_end,
    lemma_dfast_anchors, lemma_dfast_far, lemma_dfast_found, lemma_dfast_gap, lemma_dfast_run, lemma_dfast_segments, lemma_dfast_step, lemma_same_but_cursors, put_both, DfastCfg, DfastSt,
};
use crate::parse_fast::{ldm_fit, ldm_match, ldm_true, lemma_skip_covered, segment_end, skip_covered};
use crate::scan::{
    count_seed, emit_far, emit_seq, in_step, lemma_emit_in_step, lemma_far_is_good, lemma_rep_is_good, lemma_swap_is_good,
    resumed, spend_seed, with_tail, LdmSeq, Peer, St, MAX_BLOCK_SIZE,
};
use crate::sequence::pending_after;
use crate::shift::{lemma_common_len_moved, lemma_emit_moved, lemma_ldm_match_moved, lemma_le4_moved, lemma_slot_moved, lemma_try_match_moved, moved, moved_match};
use crate::store::put_long_range;
use crate::tables::{candidate, insert_limit, put_long};

verus! {

/// A scan and its tables on a window that lacks the first `k` bytes.
pub open spec fn moved_dfast(f: DfastSt, k: int) -> DfastSt {
    DfastSt { s: moved(f.s, k), next: f.next - k, ..f }
}

/// A scan's constants on such a window.
pub open spec fn rebased_dfast(c: DfastCfg, k: int) -> DfastCfg {
    DfastCfg { base: (c.base + k) as u64, ..c }
}

/// Nothing that the scan refers to lies in the first `k` bytes.
pub open spec fn ample_dfast(c: DfastCfg, w: Seq<u8>, d: Peer, f: DfastSt, k: int) -> bool {
    &&& dfast_inv(c, w, d, f)
    &&& 0 <= k
    &&& HASH_READ <= d.far
    &&& d.far + k <= d.start
}

/// Eight bytes read alike.
pub proof fn lemma_le8_moved(w: Seq<u8>, k: int, i: int)
    requires
        0 <= k <= i,
        i + HASH_READ <= w.len(),
    ensures
        le8(w.skip(k), i - k) == le8(w, i),
{
    lemma_le4_moved(w, k, i);
    lemma_le4_moved(w, k, i + 4);
    assert(i - k + 4 == i + 4 - k);
}

/// A position enters the long table alike.
pub proof fn lemma_put_long_moved(t: Seq<u32>, w: Seq<u8>, k: int, i: int, base: int, log: u32)
    requires
        0 <= k <= i,
        i + HASH_READ <= w.len(),
    ensures
        long_slot(w.skip(k), i - k, log) == long_slot(w, i, log),
        put_long(t, w.skip(k), i - k, base + k, log) == put_long(t, w, i, base, log),
{
    lemma_le8_moved(w, k, i);
    assert(base + k + (i - k) == base + i);
}

/// A range enters the long table alike.
pub proof fn lemma_put_long_range_moved(t: Seq<u32>, w: Seq<u8>, k: int, from: int, to: int, step: int, base: int, log: u32)
    requires
        0 <= k,
        from < to ==> k <= from && to + HASH_READ <= w.len() + 1,
    ensures
        put_long_range(t, w.skip(k), from - k, to - k, step, base + k, log) == put_long_range(
            t,
            w,
            from,
            to,
            step,
            base,
            log,
        ),
    decreases
        if to > from {
            to - from
        } else {
            0
        },
{
    if from < to && step > 0 {
        lemma_put_long_moved(t, w, k, from, base, log);
        lemma_put_long_range_moved(put_long(t, w, from, base, log), w, k, from + step, to, step, base, log);
        assert(from - k + step == from + step - k);
    }
}

proof fn lemma_put_both_moved(c: DfastCfg, w: Seq<u8>, k: int, f: DfastSt, i: int)
    requires
        c.fits(w),
        0 <= k <= i,
        i + HASH_READ <= w.len(),
    ensures
        put_both(rebased_dfast(c, k), w.skip(k), moved_dfast(f, k), i - k) == moved_dfast(put_both(c, w, f, i), k),
{
    lemma_put_long_moved(f.long, w, k, i, c.base as int, c.long_log);
    lemma_slot_moved(w, k, i, c.small_log, c.width);
    assert(c.base + k + (i - k) == c.base + i);
}

proof fn lemma_anchors_moved(c: DfastCfg, w: Seq<u8>, k: int, f: DfastSt, cur: int, end: int)
    requires
        c.fits(w),
        0 <= k <= cur,
        k + 2 <= end,
        k + HASH_READ <= w.len(),
    ensures
        dfast_anchors(rebased_dfast(c, k), w.skip(k), moved_dfast(f, k), cur - k, end - k) == moved_dfast(
            dfast_anchors(c, w, f, cur, end),
            k,
        ),
{
    let limit = insert_limit(w);
    assert(insert_limit(w.skip(k)) == limit - k);
    assert(cur - k + 2 == cur + 2 - k && end - k - 2 == end - 2 - k && end - k - 1 == end - 1 - k);
    let f1 = if cur + 2 <= limit {
        lemma_put_both_moved(c, w, k, f, cur + 2);
        put_both(c, w, f, cur + 2)
    } else {
        f
    };
    if end <= limit + 2 {
        lemma_put_long_moved(f1.long, w, k, end - 2, c.base as int, c.long_log);
    }
    if end <= limit + 1 {
        lemma_slot_moved(w, k, end - 1, c.small_log, c.width);
        assert(c.base + k + (end - 1 - k) == c.base + (end - 1));
    }
}

proof fn lemma_dfast_chain_moved(c: DfastCfg, w: Seq<u8>, d: Peer, k: int, f: DfastSt)
    requires
        ample_dfast(c, w, d, dfast_at_anchor(f), k),
        f.s.pending == 0,
    ensures
        dfast_chain(rebased_dfast(c, k), w.skip(k), moved_dfast(f, k)) == moved_dfast(dfast_chain(c, w, f), k),
    decreases w.len() - f.s.anchor,
{
    broadcast use lemma_mul_hash_range;

    let p = f.s.anchor;
    let q = p - f.s.rep.r1;
    let n = common_len(w, p, q);
    assert(k <= q);
    assert(p - k - f.s.rep.r1 == q - k);
    assert(insert_limit(w.skip(k)) == insert_limit(w) - k);
    lemma_common_len_moved(w, k, p, q);
    if p <= insert_limit(w) {
        lemma_le4_moved(w, k, p);
        lemma_le4_moved(w, k, q);
    }
    if p <= insert_limit(w) && q >= 0 && !c.ramp.shallow(c.base + q) && le4(w, q) == le4(w, p)
        && MIN_MATCH <= n <= w.len() - p {
        let r = dfast_at_anchor(f).s;
        let g = DfastSt { s: emit_seq(f.s, w, p, n, 1), ..put_both(c, w, f, p) };
        lemma_common_len(w, p, q);
        lemma_swap_is_good(w, r, q, n);
        lemma_emit_in_step(w, d, r, p, q, n, 1);
        lemma_same_but_cursors(
            w,
            d,
            resumed(St { pending: pending_after(r.pending, 1), ..emit_seq(r, w, p, n, 1) }),
            dfast_at_anchor(g).s,
        );
        lemma_emit_moved(f.s, w, k, p, n, 1);
        lemma_put_both_moved(c, w, k, f, p);
        lemma_dfast_chain_moved(c, w, d, k, g);
    }
}

proof fn lemma_dfast_resume_moved(c: DfastCfg, w: Seq<u8>, d: Peer, k: int, f: DfastSt)
    requires
        ample_dfast(c, w, d, dfast_at_anchor(f), k),
    ensures
        dfast_resume(rebased_dfast(c, k), w.skip(k), moved_dfast(f, k)) == moved_dfast(dfast_resume(c, w, f), k),
{
    if f.s.pending == 0 {
        lemma_dfast_chain_moved(c, w, d, k, f);
    }
}

/// A match is emitted alike, and the scan resumes alike.
proof fn lemma_dfast_take_moved(c: DfastCfg, w: Seq<u8>, d: Peer, k: int, f: DfastSt, m: (int, int, int), ahead: Option<int>)
    requires
        ample_dfast(c, w, d, f, k),
        f.s.anchor <= m.0,
        0 <= m.1 < m.0,
        m.2 >= 3,
        m.0 + m.2 <= w.len(),
        bytes_agree(w, m.0, m.1, m.2),
        !c.ramp.shallow(c.base + m.1) || d.ramp.end == 0,
        m.0 - m.1 <= d.far,
        ahead matches Some(i) ==> f.s.pos < i <= insert_limit(w),
    ensures
        ({
            let at = match ahead {
                Some(i) => Some(i - k),
                None => None,
            };
            dfast_take(rebased_dfast(c, k), w.skip(k), moved_dfast(f, k), (m.0 - k, m.1 - k, m.2), at) == moved_dfast(
                dfast_take(c, w, f, m, ahead),
                k,
            )
        }),
{
    broadcast use lemma_mul_hash_range;

    let of = m.0 - m.1 + 3;
    lemma_far_is_good(w, f.s, m.0, m.1, m.2);
    lemma_emit_in_step(w, d, f.s, m.0, m.1, m.2, of);
    let e = DfastSt { s: emit_far(f.s, w, m.0, m.1, m.2), ..f };
    lemma_dfast_anchors(c, w, e, f.s.pos, m.0 + m.2);
    let g = dfast_anchors(c, w, e, f.s.pos, m.0 + m.2);
    let h = match ahead {
        Some(i) => if i < m.0 + m.2 {
            DfastSt { long: put_long(g.long, w, i, c.base as int, c.long_log), ..g }
        } else {
            g
        },
        None => g,
    };
    lemma_same_but_cursors(
        w,
        d,
        resumed(St { pending: pending_after(f.s.pending, of), ..emit_seq(f.s, w, m.0, m.2, of) }),
        dfast_at_anchor(h).s,
    );
    assert(m.0 - k - (m.1 - k) + 3 == of);
    assert(m.0 - k + m.2 == m.0 + m.2 - k);
    lemma_emit_moved(f.s, w, k, m.0, m.2, of);
    lemma_anchors_moved(c, w, k, e, f.s.pos, m.0 + m.2);
    if let Some(i) = ahead {
        lemma_put_long_moved(g.long, w, k, i, c.base as int, c.long_log);
    }
    lemma_dfast_resume_moved(c, w, d, k, h);
}

/// What a step tries, it finds alike.
proof fn lemma_dfast_found_moved(c: DfastCfg, w: Seq<u8>, d: Peer, k: int, f: DfastSt, s: St, e: u32, e1: u32)
    requires
        ample_dfast(c, w, d, DfastSt { s, ..f }, k),
        s.pos < f.next <= insert_limit(w),
    ensures
        dfast_rep(rebased_dfast(c, k), w.skip(k), moved(s, k)) == dfast_rep(c, w, s),
        common_len(w.skip(k), s.pos - k + 1, s.pos - k + 1 - s.rep.r0) == common_len(w, s.pos + 1, s.pos + 1 - s.rep.r0),
        dfast_seed(rebased_dfast(c, k), w.skip(k), moved(s, k)) == moved_match(dfast_seed(c, w, s), k),
        dfast_long(rebased_dfast(c, k), w.skip(k), moved(s, k), e) == moved_match(dfast_long(c, w, s, e), k),
        dfast_short(rebased_dfast(c, k), w.skip(k), moved(s, k), e, f.next - k, e1) == moved_match(
            dfast_short(c, w, s, e, f.next, e1),
            k,
        ),
{
    let v = w.skip(k);
    let r = rebased_dfast(c, k);
    let b = c.base as int;
    let i = s.pos;
    let next = f.next;
    let p = i + 1;
    let x = p - s.rep.r0;
    assert(i - k + 1 == p - k && p - k - s.rep.r0 == x - k);
    assert(r.base + (x - k) == c.base + x);
    lemma_le4_moved(w, k, p);
    lemma_le4_moved(w, k, x);
    lemma_common_len_moved(w, k, p, x);
    lemma_le4_moved(w, k, i);
    lemma_le8_moved(w, k, i);
    lemma_le8_moved(w, k, next);
    assert(v.len() - (i - k) == w.len() - i);
    assert(v.len() - (next - k) == w.len() - next);
    let z = i - s.seed;
    assert(i - k - s.seed == z - k);
    if s.seed != 0 {
        lemma_le4_moved(w, k, z);
        lemma_common_len_moved(w, k, i, z);
        lemma_try_match_moved(w, k, c.ramp, b, i, z, w.len() - i, 6, s.anchor);
    }
    assert(r.base + (i - k) == c.base + i && r.base + (next - k) == c.base + next);
    let q = candidate(e, c.base + i, i, c.reach as int);
    assert(candidate(e, r.base + (i - k), i - k, r.reach as int) == q - k);
    if q != i {
        lemma_le4_moved(w, k, q);
        lemma_le8_moved(w, k, q);
        lemma_common_len_moved(w, k, i, q);
        lemma_try_match_moved(w, k, c.ramp, b, i, q, w.len() - i, 0, s.anchor);
    }
    let q1 = candidate(e1, c.base + next, next, c.reach as int);
    assert(candidate(e1, r.base + (next - k), next - k, r.reach as int) == q1 - k);
    if q1 != next {
        lemma_le8_moved(w, k, q1);
        lemma_common_len_moved(w, k, next, q1);
        lemma_try_match_moved(w, k, c.ramp, b, next, q1, w.len() - next, 0, s.anchor);
    }
}

/// A match one byte ahead is emitted alike.
proof fn lemma_dfast_ahead_moved(c: DfastCfg, w: Seq<u8>, d: Peer, k: int, f: DfastSt)
    requires
        ample_dfast(c, w, d, f, k),
        f.next <= insert_limit(w),
        dfast_rep(c, w, f.s),
    ensures
        ({
            let s = f.s;
            let p = s.pos + 1;
            let n = common_len(w, p, p - s.rep.r0);
            let h = dfast_anchors(c, w, DfastSt { s: emit_seq(s, w, p, n, 1), ..f }, s.pos, p + n);
            let m = moved(s, k);
            dfast_resume(
                rebased_dfast(c, k),
                w.skip(k),
                dfast_anchors(
                    rebased_dfast(c, k),
                    w.skip(k),
                    DfastSt { s: emit_seq(m, w.skip(k), p - k, n, 1), ..moved_dfast(f, k) },
                    s.pos - k,
                    p - k + n,
                ),
            ) == moved_dfast(dfast_resume(c, w, h), k)
        }),
{
    let s = f.s;
    let p = s.pos + 1;
    let q = p - s.rep.r0;
    let n = common_len(w, p, q);
    lemma_dfast_found(c, w, s, 0, f.next, 0);
    lemma_common_len(w, p, q);
    lemma_rep_is_good(w, s, p, q, n);
    lemma_emit_in_step(w, d, s, p, q, n, 1);
    let e = DfastSt { s: emit_seq(s, w, p, n, 1), ..f };
    lemma_dfast_anchors(c, w, e, s.pos, p + n);
    let h = dfast_anchors(c, w, e, s.pos, p + n);
    lemma_same_but_cursors(
        w,
        d,
        resumed(St { pending: pending_after(s.pending, 1), ..emit_seq(s, w, p, n, 1) }),
        dfast_at_anchor(h).s,
    );
    lemma_emit_moved(s, w, k, p, n, 1);
    assert(p - k + n == p + n - k);
    lemma_anchors_moved(c, w, k, e, s.pos, p + n);
    lemma_dfast_resume_moved(c, w, d, k, h);
}

/// What a step takes from its tables, it takes alike.
proof fn lemma_dfast_tables_moved(c: DfastCfg, w: Seq<u8>, d: Peer, k: int, z: DfastSt, el: u32, es: u32, e1: u32)
    requires
        ample_dfast(c, w, d, z, k),
        z.next <= insert_limit(w),
    ensures
        dfast_long(c, w, z.s, el) matches Some(m) ==> dfast_take(
            rebased_dfast(c, k),
            w.skip(k),
            moved_dfast(z, k),
            (m.0 - k, m.1 - k, m.2),
            Some(z.next - k),
        ) == moved_dfast(dfast_take(c, w, z, m, Some(z.next)), k),
        dfast_short(c, w, z.s, es, z.next, e1) matches Some(m) ==> dfast_take(
            rebased_dfast(c, k),
            w.skip(k),
            moved_dfast(z, k),
            (m.0 - k, m.1 - k, m.2),
            Some(z.next - k),
        ) == moved_dfast(dfast_take(c, w, z, m, Some(z.next)), k),
{
    lemma_dfast_found(c, w, z.s, el, z.next, e1);
    lemma_dfast_found(c, w, z.s, es, z.next, e1);
    if dfast_long(c, w, z.s, el) is Some {
        lemma_dfast_take_moved(c, w, d, k, z, dfast_long(c, w, z.s, el)->0, Some(z.next));
    }
    if dfast_short(c, w, z.s, es, z.next, e1) is Some {
        lemma_dfast_take_moved(c, w, d, k, z, dfast_short(c, w, z.s, es, z.next, e1)->0, Some(z.next));
    }
}

proof fn lemma_dfast_seed_moved(c: DfastCfg, w: Seq<u8>, d: Peer, k: int, g: DfastSt)
    requires
        ample_dfast(c, w, d, g, k),
        g.next <= insert_limit(w),
    ensures
        dfast_seed(c, w, g.s) matches Some(m) ==> dfast_take(
            rebased_dfast(c, k),
            w.skip(k),
            moved_dfast(DfastSt { s: count_seed(g.s), ..g }, k),
            (m.0 - k, m.1 - k, m.2),
            None,
        ) == moved_dfast(dfast_take(c, w, DfastSt { s: count_seed(g.s), ..g }, m, None), k),
{
    lemma_dfast_found(c, w, g.s, 0, g.next, 0);
    if dfast_seed(c, w, g.s) is Some {
        assert(in_step(w, d, count_seed(g.s)));
        lemma_dfast_take_moved(c, w, d, k, DfastSt { s: count_seed(g.s), ..g }, dfast_seed(c, w, g.s)->0, None);
    }
}

/// One step is the same.
#[verifier::rlimit(60)]
proof fn lemma_dfast_step_moved(c: DfastCfg, w: Seq<u8>, d: Peer, k: int, f: DfastSt)
    requires
        ample_dfast(c, w, d, f, k),
        f.next <= insert_limit(w),
    ensures
        dfast_step(rebased_dfast(c, k), w.skip(k), moved_dfast(f, k)) == moved_dfast(dfast_step(c, w, f), k),
{
    let s = f.s;
    let i = s.pos;
    lemma_put_long_moved(f.long, w, k, i, c.base as int, c.long_log);
    lemma_slot_moved(w, k, i, c.small_log, c.width);
    lemma_put_both_moved(c, w, k, f, i);
    let el = f.long[long_slot(w, i, c.long_log)];
    let es = f.small[short_slot(w, i, c.small_log, c.width)];
    let g = put_both(c, w, f, i);
    assert(ample_dfast(c, w, d, g, k)) by {
        broadcast use lemma_mul_hash_range;

    }
    lemma_put_long_moved(g.long, w, k, f.next, c.base as int, c.long_log);
    let e1 = g.long[long_slot(w, f.next, c.long_log)];
    lemma_dfast_found_moved(c, w, d, k, g, s, el, e1);
    assert(i - k + 1 == i + 1 - k);
    if dfast_rep(c, w, s) {
        lemma_dfast_ahead_moved(c, w, d, k, g);
    } else if dfast_seed(c, w, s) is Some {
        lemma_dfast_seed_moved(c, w, d, k, g);
        assert(count_seed(moved(s, k)) == moved(count_seed(s), k));
    } else {
        let z = DfastSt { s: spend_seed(s), ..g };
        assert(in_step(w, d, z.s));
        assert(spend_seed(moved(s, k)) == moved(z.s, k));
        lemma_dfast_found_moved(c, w, d, k, g, z.s, el, e1);
        lemma_dfast_found_moved(c, w, d, k, g, z.s, es, e1);
        lemma_dfast_tables_moved(c, w, d, k, z, el, es, e1);
        assert(f.next - k - (s.anchor - k) == f.next - s.anchor);
    }
}

/// The scan up to the block's end is the same.
proof fn lemma_dfast_run_moved(c: DfastCfg, w: Seq<u8>, d: Peer, k: int, f: DfastSt, starting: bool)
    requires
        ample_dfast(c, w, d, f, k),
    ensures
        ({
            let (g, a) = dfast_run(c, w, f, starting);
            dfast_run(rebased_dfast(c, k), w.skip(k), moved_dfast(f, k), starting) == (moved_dfast(g, k), a)
        }),
    decreases
        if w.len() > f.s.pos {
            w.len() - f.s.pos
        } else {
            0
        },
{
    assert(insert_limit(w.skip(k)) == insert_limit(w) - k);
    if f.next <= insert_limit(w) {
        lemma_dfast_step(c, w, d, f);
        lemma_dfast_step_moved(c, w, d, k, f);
        let g = dfast_step(c, w, f);
        let still = starting && (g.s.seqs.len() == f.s.seqs.len() || at_job_start(g.s));
        lemma_dfast_run_moved(c, w, d, k, g, still);
    }
}

/// The literals behind the last match are the same.
pub proof fn lemma_tail_moved(w: Seq<u8>, k: int, s: St)
    requires
        0 <= k <= s.anchor <= w.len(),
    ensures
        with_tail(moved(s, k), w.skip(k)) == moved(with_tail(s, w), k),
{
    let n = w.len() as int;
    if s.anchor < n {
        assert(w.skip(k).subrange(s.anchor - k, n - k) =~= w.subrange(s.anchor, n));
    }
}

/// The scan of a block is the same.
proof fn lemma_dfast_scan_moved(c: DfastCfg, w: Seq<u8>, d: Peer, k: int, f: DfastSt)
    requires
        ample_dfast(c, w, d, f, k),
    ensures
        dfast_scan(rebased_dfast(c, k), w.skip(k), moved_dfast(f, k)) == moved_dfast(dfast_scan(c, w, f), k),
{
    lemma_dfast_run_moved(c, w, d, k, f, at_job_start(f.s));
    lemma_dfast_run(c, w, d, f, at_job_start(f.s));
    let (g, starting) = dfast_run(c, w, f, at_job_start(f.s));
    if starting {
        let a = dfast_restarted(g);
        assert(in_step(w, d, a.s));
        assert(dfast_restarted(moved_dfast(g, k)) == moved_dfast(a, k));
        lemma_dfast_run_moved(c, w, d, k, a, false);
    }
}

/// The scan of a gap is the same.
proof fn lemma_dfast_gap_moved(c: DfastCfg, w: Seq<u8>, d: Peer, k: int, f: DfastSt, end: int)
    requires
        ample_dfast(c, w, d, f, k),
        w.len() - d.start <= MAX_BLOCK_SIZE,
        f.s.anchor <= end <= w.len(),
    ensures
        dfast_from(dfast_scan(rebased_dfast(c, k), w.skip(k).take(end - k), moved_dfast(f, k)), end - k) == moved_dfast(
            dfast_from(dfast_scan(c, w.take(end), f), end),
            k,
        ),
{
    assert(w.skip(k).take(end - k) =~= w.take(end).skip(k));
    lemma_dfast_gap(c, w, d, f, end);
    lemma_dfast_scan_moved(c, w.take(end), d, k, f);
}

/// A candidate is emitted alike.
proof fn lemma_dfast_far_moved(c: DfastCfg, w: Seq<u8>, d: Peer, k: int, ldm: Seq<LdmSeq>, i: int, g: DfastSt)
    requires
        ample_dfast(c, w, d, g, k),
        w.len() - d.start <= MAX_BLOCK_SIZE,
        ldm_fit(c.base as int, c.ramp, w, d, ldm),
        0 <= i < ldm.len(),
        g.s.anchor <= ldm[i].split - c.base,
        ldm[i].len >= MIN_MATCH,
    ensures
        ({
            let b = c.base as int;
            let m = ldm_match(b, c.ramp, w, g.s, ldm[i]);
            let h = dfast_take(c, w.take(far_end(b, w, ldm, i, m.0 + m.2)), g, m, None);
            let n = ldm_match(b + k, c.ramp, w.skip(k), moved(g.s, k), ldm[i]);
            &&& dfast_take(
                rebased_dfast(c, k),
                w.skip(k).take(far_end(b + k, w.skip(k), ldm, i, n.0 + n.2)),
                moved_dfast(g, k),
                n,
                None,
            ) == moved_dfast(h, k)
        }),
{
    let b = c.base as int;
    lemma_dfast_far(c, w, d, ldm, i, g);
    assert(ldm_true(w, b, ldm[i]));
    lemma_ldm_match_moved(b, c.ramp, w, k, g.s, ldm[i]);
    let m = ldm_match(b, c.ramp, w, g.s, ldm[i]);
    let n = ldm_match(b + k, c.ramp, w.skip(k), moved(g.s, k), ldm[i]);
    assert(n == (m.0 - k, m.1 - k, m.2));
    let e = far_end(b, w, ldm, i, m.0 + m.2);
    assert(far_end(b + k, w.skip(k), ldm, i, n.0 + n.2) == e - k);
    assert(w.skip(k).take(e - k) =~= w.take(e).skip(k));
    lemma_dfast_take_moved(c, w.take(e), d, k, g, m, None);
}

/// A scan in segments is the same.
proof fn lemma_dfast_segments_moved(c: DfastCfg, w: Seq<u8>, d: Peer, k: int, ldm: Seq<LdmSeq>, i: int, f: DfastSt, won: bool)
    requires
        ample_dfast(c, w, d, f, k),
        w.len() - d.start <= MAX_BLOCK_SIZE,
        ldm_fit(c.base as int, c.ramp, w, d, ldm),
        0 <= i <= ldm.len(),
    ensures
        ({
            let (g, a) = dfast_segments(c, w, ldm, i, f, won);
            dfast_segments(rebased_dfast(c, k), w.skip(k), ldm, i, moved_dfast(f, k), won) == (moved_dfast(g, k), a)
        }),
    decreases ldm.len() - i,
{
    let b = c.base as int;
    let r = rebased_dfast(c, k);
    assert(r.base == b + k);
    let end = segment_end(b, w, ldm, i);
    assert(segment_end(b + k, w.skip(k), ldm, i) == end - k);
    if i >= ldm.len() {
        lemma_dfast_scan_moved(c, w, d, k, f);
    } else if f.s.anchor > end {
        lemma_dfast_segments_moved(c, w, d, k, ldm, i + 1, f, won);
    } else {
        assert(ldm_true(w, b, ldm[i]));
        lemma_dfast_gap(c, w, d, f, end);
        lemma_dfast_gap_moved(c, w, d, k, f, end);
        let g = dfast_from(dfast_scan(c, w.take(end), f), end);
        if ldm[i].len < MIN_MATCH {
            lemma_dfast_segments_moved(c, w, d, k, ldm, i + 1, g, won);
        } else {
            lemma_dfast_far(c, w, d, ldm, i, g);
            lemma_dfast_far_moved(c, w, d, k, ldm, i, g);
            let m = ldm_match(b, c.ramp, w, g.s, ldm[i]);
            let h = dfast_take(c, w.take(far_end(b, w, ldm, i, m.0 + m.2)), g, m, None);
            assert(r.base + (h.s.anchor - k) == c.base + h.s.anchor);
            lemma_skip_covered(ldm, i + 1, c.base + h.s.anchor);
            lemma_dfast_segments_moved(c, w, d, k, ldm, skip_covered(ldm, i + 1, c.base + h.s.anchor), h, true);
        }
    }
}

/// A block's scan emits the same and leaves the same tables behind, whether or not
/// its window holds `k` more bytes of the past, if the scan can refer to none of
/// them.
pub proof fn lemma_dfast_block_moved(
    c: DfastCfg,
    w: Seq<u8>,
    d: Peer,
    k: int,
    ldm: Seq<LdmSeq>,
    long: Seq<u32>,
    small: Seq<u32>,
    s: St,
)
    requires
        ample_dfast(c, w, d, DfastSt { long, small, s, next: s.pos + 1 }, k),
        w.len() - d.start <= MAX_BLOCK_SIZE,
        ldm_fit(c.base as int, c.ramp, w, d, ldm),
    ensures
        ({
            let (g, a) = dfast_block(c, w, ldm, long, small, s);
            dfast_block(rebased_dfast(c, k), w.skip(k), ldm, long, small, moved(s, k)) == (moved_dfast(g, k), a)
        }),
{
    let f = DfastSt { long, small, s, next: s.pos + 1 };
    assert(moved_dfast(f, k) == DfastSt { long, small, s: moved(s, k), next: moved(s, k).pos + 1 });
    lemma_dfast_segments_moved(c, w, d, k, ldm, 0, f, false);
    lemma_dfast_segments(c, w, d, ldm, 0, f, false);
    lemma_tail_moved(w, k, dfast_segments(c, w, ldm, 0, f, false).0.s);
}

} // verus!
