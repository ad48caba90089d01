//! The row scan on windows that hold more or less of the past.

use vstd::prelude::*;
use crate::hash::{common_len, le4, lemma_common_len, HASH_READ, MIN_MATCH};
use crate::lazy::{final_pick, finds_within, first_pick, good_pick, lemma_first_pick, lemma_lazy_walk, lemma_pick_match, pick_match, worth_storing, Pick};
use crate::parse_row::{
    lemma_row_find, lemma_row_run, lemma_row_step, row_block, row_find, row_inv, row_reps, row_run, row_step, row_take, RowScanCfg,
    RowSt,
};
use crate::rows::{
    lemma_row_covered, lemma_row_put, row_best, row_candidate, row_covered, row_dist, row_put, row_put_range, row_result, row_walk,
    RowCfg, Rows,
};
use crate::scan::{
    count_seed, emit_far, emit_seq, in_step, lemma_emit_in_step, lemma_far_is_good, lemma_rep_is_good, lemma_swap_is_good,
    resumed, spend_seed, Peer, St,
};
use crate::sequence::pending_after;
use crate::shift::{lemma_common_len_moved, lemma_emit_moved, lemma_le4_moved, moved};
use crate::shift_double::{lemma_le8_moved, lemma_tail_moved};
use crate::shift_lazy::{
    ample_pick, lemma_final_pick_moved, lemma_first_pick_moved, lemma_pick_match_moved, lemma_worth_moved, moved_found,
    moved_pick, near_found, rebased_pick,
};
use crate::tables::insert_limit;

verus! {

/// How rows are kept on a window that lacks the first `k` bytes.
pub open spec fn rebased_rows(c: RowCfg, k: int) -> RowCfg {
    RowCfg { base: (c.base + k) as u64, ..c }
}

/// A scan's constants on such a window.
pub open spec fn rebased_scan(c: RowScanCfg, k: int) -> RowScanCfg {
    RowScanCfg { row: rebased_rows(c.row, k), pick: rebased_pick(c.pick, k) }
}

/// A scan and its rows on such a window.
pub open spec fn moved_row(f: RowSt, k: int) -> RowSt {
    RowSt { s: moved(f.s, k), ..f }
}

/// Nothing that the scan refers to lies in the first `k` bytes.
pub open spec fn ample_row(c: RowScanCfg, w: Seq<u8>, d: Peer, f: RowSt, k: int) -> bool {
    &&& row_inv(c, w, d, f)
    &&& 0 <= k
    &&& HASH_READ <= d.far
    &&& d.far + k <= d.start
    &&& d.bar <= MIN_MATCH
}

/// A position enters its row alike.
pub proof fn lemma_row_put_moved(c: RowCfg, w: Seq<u8>, k: int, r: Rows, at: int, i: int)
    requires
        c.base + k <= u64::MAX,
        0 <= k <= at,
        at + HASH_READ <= w.len(),
    ensures
        rebased_rows(c, k).hash(w.skip(k), at - k) == c.hash(w, at),
        row_put(rebased_rows(c, k), w.skip(k), r, at - k, i - k) == row_put(c, w, r, at, i),
{
    lemma_le8_moved(w, k, at);
    assert(c.base + k + (i - k) == c.base + i);
}

/// A range enters its rows alike.
pub proof fn lemma_row_put_range_moved(c: RowCfg, w: Seq<u8>, k: int, r: Rows, from: int, to: int, step: int)
    requires
        c.base + k <= u64::MAX,
        0 <= k,
        from < to ==> k <= from && to + HASH_READ <= w.len() + 1,
    ensures
        row_put_range(rebased_rows(c, k), w.skip(k), r, from - k, to - k, step) == row_put_range(c, w, r, from, to, step),
    decreases
        if to > from {
            to - from
        } else {
            0
        },
{
    if from < to && step > 0 {
        lemma_row_put_moved(c, w, k, r, from, from);
        lemma_row_put_range_moved(c, w, k, row_put(c, w, r, from, from), from + step, to, step);
        assert(from - k + step == from + step - k);
    }
}

proof fn lemma_row_covered_moved(c: RowCfg, w: Seq<u8>, k: int, r: Rows, start: int, ml: int)
    requires
        c.base + k <= u64::MAX,
        0 <= k <= start,
        0 <= ml,
        start + ml <= w.len(),
        k + HASH_READ <= w.len(),
    ensures
        row_covered(rebased_rows(c, k), w.skip(k), r, start - k, ml) == row_covered(c, w, r, start, ml),
{
    let limit = insert_limit(w);
    let end = if start + ml < limit {
        start + ml
    } else {
        limit
    };
    assert(insert_limit(w.skip(k)) == limit - k);
    lemma_row_put_range_moved(c, w, k, r, start, end, 1);
    if end - start > 384 {
        lemma_row_put_range_moved(c, w, k, r, start, start + 96, 1);
        lemma_row_put_range_moved(c, w, k, row_put_range(c, w, r, start, start + 96, 1), end - 32, end, 1);
        assert(start - k + 96 == start + 96 - k && end - k - 32 == end - 32 - k);
    }
}

proof fn lemma_row_walk_moved(
    c: RowCfg,
    w: Seq<u8>,
    k: int,
    r: Rows,
    i: int,
    h: int,
    age: int,
    left: int,
    best: (int, int),
)
    requires
        c.base + k <= u64::MAX,
        0 <= k,
        k + c.reach <= i <= w.len(),
        row_result(c, w, i, best),
    ensures
        row_walk(rebased_rows(c, k), w.skip(k), r, i - k, h, age, left, moved_found(best, k)) == moved_found(
            row_walk(c, w, r, i, h, age, left, best),
            k,
        ),
    decreases c.row_len() - age,
{
    let row = h / 0x100;
    if age < c.row_len() && left > 0 {
        let e = r.t[row * c.row_len() + (r.hd[row] + age) % c.row_len()];
        assert(c.base + k + (i - k) + 1 - e == c.base + i + 1 - e);
        assert(row_dist(rebased_rows(c, k), i - k, e) == row_dist(c, i, e));
        assert(row_candidate(rebased_rows(c, k), i - k, h, e) == row_candidate(c, i, h, e));
        if row_candidate(c, i, h, e) {
            let q = i - row_dist(c, i, e);
            let n = common_len(w, i, q);
            lemma_common_len_moved(w, k, i, q);
            assert(c.base + k + (q - k) == c.base + q);
            let better = !c.ramp.shallow(c.base + q) && n >= MIN_MATCH && n > best.0;
            let next = if better {
                (n, q)
            } else {
                best
            };
            if !(better && i + n >= w.len()) {
                lemma_row_walk_moved(c, w, k, r, i, h, age + 1, left - 1, next);
            }
        } else {
            lemma_row_walk_moved(c, w, k, r, i, h, age + 1, left, best);
        }
    }
}

/// The rows find the same.
proof fn lemma_row_find_moved(c: RowScanCfg, w: Seq<u8>, d: Peer, k: int, r: Rows, i: int)
    requires
        c.row.fits(w, r),
        c.row.reach <= d.far,
        0 <= k,
        d.far + k <= i,
        i + HASH_READ <= w.len(),
    ensures
        near_found(w, d.far, i, row_find(c, w, r)(i)),
        row_find(c, w, r)(i) == row_best(c.row, w, r, i),
        row_find(rebased_scan(c, k), w.skip(k), r)(i - k) == moved_found(row_find(c, w, r)(i), k),
{
    lemma_row_find(c, w, r, i);
    lemma_row_put_moved(c.row, w, k, r, i, i);
    lemma_row_walk_moved(c.row, w, k, r, i, c.row.hash(w, i), 0, c.row.attempts as int, (0, 0));
}

proof fn lemma_row_reps_moved(c: RowScanCfg, w: Seq<u8>, d: Peer, k: int, f: RowSt)
    requires
        ample_row(c, w, d, RowSt { s: resumed(f.s), ..f }, k),
        f.s.pending == 0,
    ensures
        row_reps(rebased_scan(c, k), w.skip(k), moved_row(f, k)) == moved_row(row_reps(c, w, f), k),
    decreases w.len() - f.s.anchor,
{
    let p = f.s.anchor;
    let q = p - f.s.rep.r1;
    let n = common_len(w, p, q);
    assert(k <= q);
    assert(p - k - f.s.rep.r1 == q - k);
    assert(c.row.base + k + (q - k) == c.row.base + q);
    lemma_common_len_moved(w, k, p, q);
    if p + MIN_MATCH <= w.len() {
        lemma_le4_moved(w, k, p);
        lemma_le4_moved(w, k, q);
    }
    if p + MIN_MATCH <= w.len() && q >= 0 && !c.pick.ramp.shallow(c.row.base + q) && le4(w, q) == le4(w, p)
        && MIN_MATCH <= n <= w.len() - p {
        let x = resumed(f.s);
        let r = if p + HASH_READ <= w.len() {
            lemma_row_put_moved(c.row, w, k, f.r, p, p);
            row_put(c.row, w, f.r, p, p)
        } else {
            f.r
        };
        let g = RowSt { r: row_covered(c.row, w, r, p, n), s: emit_seq(f.s, w, p, n, 1) };
        lemma_common_len(w, p, q);
        lemma_swap_is_good(w, x, q, n);
        lemma_emit_in_step(w, d, x, p, q, n, 1);
        lemma_row_put(c.row, w, f.r, p, p);
        lemma_row_covered(c.row, w, r, p, n);
        assert(resumed(g.s) =~= resumed(St { pending: pending_after(x.pending, 1), ..emit_seq(x, w, p, n, 1) }));
        lemma_emit_moved(f.s, w, k, p, n, 1);
        lemma_row_covered_moved(c.row, w, k, r, p, n);
        lemma_row_reps_moved(c, w, d, k, g);
    }
}

/// A choice is emitted alike, and the scan resumes alike.
#[verifier::rlimit(40)]
proof fn lemma_row_take_moved(c: RowScanCfg, w: Seq<u8>, d: Peer, k: int, f: RowSt, p: Pick)
    requires
        ample_row(c, w, d, f, k),
        good_pick(w, f.s, p),
        !d.ramp.shallow(c.row.base + p.cand),
        p.pos - p.cand <= d.far,
        !p.rep ==> p.pos - p.cand <= d.hop,
        p.seed ==> f.s.seed != 0,
    ensures
        row_take(rebased_scan(c, k), w.skip(k), moved_row(f, k), moved_pick(p, k)) == moved_row(row_take(c, w, f, p), k),
{
    let m = pick_match(c.pick, w, f.s, p);
    lemma_pick_match(c.pick, w, f.s, p, d.ramp);
    lemma_pick_match_moved(c.pick, w, d, k, f.s, p);
    let of = if p.rep {
        1
    } else {
        m.0 - m.1 + 3
    };
    if p.rep {
        lemma_rep_is_good(w, f.s, m.0, m.1, m.2);
    } else {
        lemma_far_is_good(w, f.s, m.0, m.1, m.2);
    }
    lemma_emit_in_step(w, d, f.s, m.0, m.1, m.2, of);
    lemma_row_covered(c.row, w, f.r, m.0, m.2);
    lemma_emit_moved(f.s, w, k, m.0, m.2, of);
    assert(m.0 - k - (m.1 - k) + 3 == m.0 - m.1 + 3);
    lemma_row_covered_moved(c.row, w, k, f.r, m.0, m.2);
    let e = if p.rep {
        emit_seq(f.s, w, m.0, m.2, 1)
    } else {
        emit_far(f.s, w, m.0, m.1, m.2)
    };
    assert(resumed(e) =~= resumed(St { pending: pending_after(f.s.pending, of), ..emit_seq(f.s, w, m.0, m.2, of) }));
    let g = RowSt {
        r: row_covered(c.row, w, f.r, m.0, m.2),
        s: if p.seed {
            count_seed(e)
        } else {
            e
        },
    };
    assert(count_seed(moved(e, k)) == moved(count_seed(e), k));
    assert(in_step(w, d, resumed(g.s)));
    if g.s.pending == 0 {
        lemma_row_reps_moved(c, w, d, k, g);
    }
}

/// A choice that is stored is followed up alike.
#[verifier::rlimit(40)]
proof fn lemma_row_stored_moved(c: RowScanCfg, w: Seq<u8>, lens: Seq<u8>, d: Peer, k: int, g: RowSt, p: Pick)
    requires
        ample_row(c, w, d, g, k),
        good_pick(w, g.s, p),
        !d.ramp.shallow(c.row.base + p.cand),
        p.pos - p.cand <= d.far,
        !p.rep ==> p.pos - p.cand <= d.hop,
        p.seed ==> g.s.seed != 0,
    ensures
        ({
            let z = final_pick(c.pick, w, lens, g.s, row_find(c, w, g.r), p);
            let y = final_pick(
                rebased_pick(c.pick, k),
                w.skip(k),
                lens,
                moved(g.s, k),
                row_find(rebased_scan(c, k), w.skip(k), g.r),
                moved_pick(p, k),
            );
            row_take(rebased_scan(c, k), w.skip(k), moved_row(g, k), y) == moved_row(row_take(c, w, g, z), k)
        }),
{
    let find = row_find(c, w, g.r);
    let also = row_find(rebased_scan(c, k), w.skip(k), g.r);
    assert forall|i: int| d.start <= i && i + HASH_READ <= w.len() implies near_found(w, d.far, i, #[trigger] find(i))
        && also(i - k) == moved_found(find(i), k) by {
        lemma_row_find_moved(c, w, d, k, g.r, i);
    }
    assert forall|j: int| 0 <= j && j + HASH_READ <= w.len() implies crate::lazy::found_at(w, j, #[trigger] find(j)) by {
        lemma_row_find(c, w, g.r, j);
    }
    assert forall|j: int| 0 <= j && j + HASH_READ <= w.len() && (#[trigger] find(j)).0 > 0 implies !d.ramp.shallow(
        c.pick.base + find(j).1,
    ) && j - find(j).1 <= d.far && j - find(j).1 <= d.hop by {
        lemma_row_find(c, w, g.r, j);
    }
    if c.pick.lazy > 0 && p.len < 64 {
        lemma_lazy_walk(c.pick, w, lens, g.s, find, p.pos, p, false, d.ramp, d.far);
        assert(finds_within(w, find, d.hop));
    }
    lemma_final_pick_moved(c.pick, w, lens, d, k, g.s, find, also, p);
    lemma_row_take_moved(c, w, d, k, g, final_pick(c.pick, w, lens, g.s, find, p));
}

/// One step is the same.
#[verifier::rlimit(60)]
proof fn lemma_row_step_moved(c: RowScanCfg, w: Seq<u8>, lens: Seq<u8>, d: Peer, k: int, f: RowSt)
    requires
        ample_row(c, w, d, f, k),
        f.s.pos + HASH_READ <= w.len(),
    ensures
        row_step(rebased_scan(c, k), w.skip(k), lens, moved_row(f, k)) == moved_row(row_step(c, w, lens, f), k),
{
    let i = f.s.pos;
    let b = row_best(c.row, w, f.r, i);
    let p = first_pick(c.pick, w, f.s, b);
    lemma_row_find(c, w, f.r, i);
    lemma_row_find_moved(c, w, d, k, f.r, i);
    lemma_first_pick(c.pick, w, f.s, b);
    assert(ample_pick(c.pick, w, d, f.s, k));
    lemma_first_pick_moved(c.pick, w, d, k, f.s, b);
    lemma_worth_moved(c.pick, w, lens, d, k, f.s, p);
    lemma_row_put(c.row, w, f.r, i, p.pos);
    lemma_row_put_moved(c.row, w, k, f.r, i, p.pos);
    let s = if p.seed {
        f.s
    } else {
        spend_seed(f.s)
    };
    let g = RowSt { r: row_put(c.row, w, f.r, i, p.pos), s };
    assert(in_step(w, d, s));
    assert(spend_seed(moved(f.s, k)) == moved(spend_seed(f.s), k));
    if worth_storing(c.pick, w, lens, i, p) {
        lemma_row_stored_moved(c, w, lens, d, k, g, p);
    }
}

/// The scan is the same.
proof fn lemma_row_run_moved(c: RowScanCfg, w: Seq<u8>, lens: Seq<u8>, d: Peer, k: int, f: RowSt)
    requires
        ample_row(c, w, d, f, k),
    ensures
        row_run(rebased_scan(c, k), w.skip(k), lens, moved_row(f, k)) == moved_row(row_run(c, w, lens, f), k),
    decreases
        if w.len() > f.s.pos {
            w.len() - f.s.pos
        } else {
            0
        },
{
    if w.len() - f.s.pos >= HASH_READ {
        lemma_row_step(c, w, lens, d, f);
        lemma_row_step_moved(c, w, lens, d, k, f);
        lemma_row_run_moved(c, w, lens, d, k, row_step(c, w, lens, f));
    }
}

/// A block's scan emits the same and leaves the same rows behind, whether or not
/// its window holds `k` more bytes of the past, if the scan can refer to none of
/// them.
pub proof fn lemma_row_block_moved(c: RowScanCfg, w: Seq<u8>, lens: Seq<u8>, d: Peer, k: int, r: Rows, s: St)
    requires
        ample_row(c, w, d, RowSt { r, s }, k),
    ensures
        row_block(rebased_scan(c, k), w.skip(k), lens, r, moved(s, k)) == moved_row(row_block(c, w, lens, r, s), k),
{
    let f = RowSt { r, s };
    lemma_row_run_moved(c, w, lens, d, k, f);
    lemma_row_run(c, w, lens, d, f);
    lemma_tail_moved(w, k, row_run(c, w, lens, f).s);
}

} // verus!
