//! Deferred selection on windows that hold more or less of the past.

use vstd::prelude::*;
use crate::hash::{common_len, le4, lemma_common_len, HASH_READ};
use crate::lazy::{
    better_found, better_rep, final_pick, first_pick, found_at, good_pick, lazy_walk, lemma_agree4, pick_gain, pick_match,
    pick_price, worth_storing, Pick, PickCfg,
};
use crate::price::{lit_gain, pays_lit};
use crate::scan::{in_step, Peer, St};
use crate::shift::{lemma_back_len_moved, lemma_common_len_moved, lemma_floor_moved, lemma_le4_moved, lemma_lit_cost_moved, moved};
use crate::tables::WIN_MAX;

verus! {

/// A choice on a window that lacks the first `k` bytes.
pub open spec fn moved_pick(p: Pick, k: int) -> Pick {
    Pick {
        pos: p.pos - k,
        cand: if p.len > 0 {
            p.cand - k
        } else {
            p.cand
        },
        ..p
    }
}

/// A search result on such a window.
pub open spec fn moved_found(b: (int, int), k: int) -> (int, int) {
    if b.0 > 0 {
        (b.0, b.1 - k)
    } else {
        b
    }
}

/// How matches are selected on such a window.
pub open spec fn rebased_pick(c: PickCfg, k: int) -> PickCfg {
    PickCfg { base: (c.base + k) as u64, ..c }
}

/// Nothing that a selection refers to lies in the first `k` bytes.
pub open spec fn ample_pick(c: PickCfg, w: Seq<u8>, d: Peer, s: St, k: int) -> bool {
    &&& in_step(w, d, s)
    &&& 0 <= k
    &&& HASH_READ <= d.far
    &&& d.far + k <= d.start
    &&& w.len() <= WIN_MAX
    &&& c.base + w.len() < u64::MAX
    &&& c.min_match >= 1
}

/// A search result that is a whole match with a source that is near enough.
pub open spec fn near_found(w: Seq<u8>, far: int, i: int, b: (int, int)) -> bool {
    found_at(w, i, b) && (b.0 > 0 ==> i - b.1 <= far)
}

proof fn lemma_gain_moved(w: Seq<u8>, k: int, i: int, len: int, lens: Seq<u8>)
    requires
        0 <= k <= i,
        i + 4 <= w.len(),
    ensures
        lit_gain(w.skip(k), i - k, len, lens) == lit_gain(w, i, len, lens),
{
    let v = w.skip(k);
    assert(v[i - k] == w[i] && v[i - k + 1] == w[i + 1] && v[i - k + 2] == w[i + 2] && v[i - k + 3] == w[i + 3]);
}

/// The first choice is the same.
pub proof fn lemma_first_pick_moved(c: PickCfg, w: Seq<u8>, d: Peer, k: int, s: St, b: (int, int))
    requires
        ample_pick(c, w, d, s, k),
        s.pos + HASH_READ <= w.len(),
        near_found(w, d.far, s.pos, b),
    ensures
        first_pick(rebased_pick(c, k), w.skip(k), moved(s, k), moved_found(b, k)) == moved_pick(
            first_pick(c, w, s, b),
            k,
        ),
{
    let i = s.pos;
    let p = if i == s.anchor {
        i + 1
    } else {
        i
    };
    let q = p - s.rep.r0;
    let v = w.skip(k);
    let r = rebased_pick(c, k);
    assert(k <= q && k <= i - s.seed);
    assert(i - k + 1 == i + 1 - k && p - k - s.rep.r0 == q - k);
    lemma_le4_moved(w, k, p);
    lemma_le4_moved(w, k, q);
    lemma_common_len_moved(w, k, p, q);
    if le4(w, q) == le4(w, p) {
        lemma_agree4(w, p, q);
    }
    assert(r.base + (q - k) == c.base + q);
    let z = i - s.seed;
    assert(i - k - s.seed == z - k);
    lemma_le4_moved(w, k, i);
    lemma_le4_moved(w, k, z);
    lemma_common_len_moved(w, k, i, z);
    assert(r.base + (z - k) == c.base + z);
}

/// It is worth storing on both windows or on none.
pub proof fn lemma_worth_moved(c: PickCfg, w: Seq<u8>, lens: Seq<u8>, d: Peer, k: int, s: St, p: Pick)
    requires
        ample_pick(c, w, d, s, k),
        s.pos + HASH_READ <= w.len(),
        p.len == 0 || good_pick(w, s, p),
        p.rep ==> p.len > 0,
        !p.rep ==> p.pos == s.pos,
        s.pos <= p.pos,
    ensures
        worth_storing(rebased_pick(c, k), w.skip(k), lens, s.pos - k, moved_pick(p, k)) == worth_storing(
            c,
            w,
            lens,
            s.pos,
            p,
        ),
{
    if p.len > 0 {
        lemma_common_len(w, p.pos, p.cand);
        let n = if p.len < 6 {
            p.len
        } else {
            6
        };
        lemma_lit_cost_moved(w, k, s.pos, n, lens);
        assert(s.pos - k - (p.cand - k) == s.pos - p.cand);
        assert(pays_lit(w.skip(k), s.pos - k, p.len, s.pos - p.cand, lens) == pays_lit(w, s.pos, p.len, s.pos - p.cand, lens));
    }
}

proof fn lemma_better_moved(
    c: PickCfg,
    w: Seq<u8>,
    lens: Seq<u8>,
    d: Peer,
    k: int,
    s: St,
    at: int,
    b: (int, int),
    p: Pick,
    second: bool,
)
    requires
        ample_pick(c, w, d, s, k),
        good_pick(w, s, p),
        s.anchor < at,
        at + HASH_READ <= w.len(),
        near_found(w, d.far, at, b),
    ensures
        better_rep(rebased_pick(c, k), w.skip(k), lens, moved(s, k), at - k, moved_pick(p, k), second) == better_rep(
            c,
            w,
            lens,
            s,
            at,
            p,
            second,
        ),
        common_len(w.skip(k), at - k, at - k - s.rep.r0) == common_len(w, at, at - s.rep.r0),
        better_found(rebased_pick(c, k), w.skip(k), lens, at - k, moved_found(b, k), moved_pick(p, k), second)
            == better_found(c, w, lens, at, b, p, second),
{
    let v = w.skip(k);
    let r = rebased_pick(c, k);
    let q = at - s.rep.r0;
    lemma_common_len(w, p.pos, p.cand);
    lemma_gain_moved(w, k, p.pos, p.len, lens);
    let z = moved_pick(p, k);
    assert(z.pos - z.cand == p.pos - p.cand);
    assert(pick_price(z) == pick_price(p));
    assert(pick_gain(v, lens, z) == pick_gain(w, lens, p));
    assert(at - k - s.rep.r0 == q - k);
    lemma_common_len_moved(w, k, at, q);
    lemma_le4_moved(w, k, at);
    lemma_le4_moved(w, k, q);
    assert(r.base + (q - k) == c.base + q);
    lemma_gain_moved(w, k, at, common_len(w, at, q), lens);
    lemma_gain_moved(w, k, at, b.0, lens);
    if b.0 > 0 {
        assert(at - k - (b.1 - k) == at - b.1);
    }
}

/// The walk ends with the same choice.
#[verifier::rlimit(40)]
pub proof fn lemma_lazy_walk_moved(
    c: PickCfg,
    w: Seq<u8>,
    lens: Seq<u8>,
    d: Peer,
    k: int,
    s: St,
    find: spec_fn(int) -> (int, int),
    also: spec_fn(int) -> (int, int),
    at: int,
    p: Pick,
    second: bool,
)
    requires
        ample_pick(c, w, d, s, k),
        good_pick(w, s, p),
        p.pos <= at,
        s.anchor <= at,
        forall|i: int|
            d.start <= i && i + HASH_READ <= w.len() ==> near_found(w, d.far, i, #[trigger] find(i)) && also(i - k)
                == moved_found(find(i), k),
    ensures
        lazy_walk(rebased_pick(c, k), w.skip(k), lens, moved(s, k), also, at - k, moved_pick(p, k), second)
            == moved_pick(lazy_walk(c, w, lens, s, find, at, p, second), k),
    decreases w.len() - at,
{
    let n = at + 1;
    assert(at - k + 1 == n - k);
    if second && c.lazy < 2 || w.len() - n < HASH_READ {
    } else {
        let b = find(n);
        assert(near_found(w, d.far, n, b));
        assert(also(n - k) == moved_found(b, k));
        lemma_better_moved(c, w, lens, d, k, s, n, b, p, second);
        if better_rep(c, w, lens, s, n, p, second) {
            let q = n - s.rep.r0;
            lemma_agree4(w, n, q);
            lemma_common_len(w, n, q);
            let z = Pick { pos: n, len: common_len(w, n, q), cand: q, rep: true, seed: false };
            lemma_lazy_walk_moved(c, w, lens, d, k, s, find, also, n, z, false);
        } else if better_found(c, w, lens, n, b, p, second) {
            lemma_common_len(w, n, b.1);
            let z = Pick { pos: n, len: b.0, cand: b.1, rep: false, seed: false };
            lemma_lazy_walk_moved(c, w, lens, d, k, s, find, also, n, z, false);
        } else if second {
        } else {
            lemma_lazy_walk_moved(c, w, lens, d, k, s, find, also, n, p, true);
        }
    }
}

/// The final choice is the same.
pub proof fn lemma_final_pick_moved(
    c: PickCfg,
    w: Seq<u8>,
    lens: Seq<u8>,
    d: Peer,
    k: int,
    s: St,
    find: spec_fn(int) -> (int, int),
    also: spec_fn(int) -> (int, int),
    p: Pick,
)
    requires
        ample_pick(c, w, d, s, k),
        good_pick(w, s, p),
        forall|i: int|
            d.start <= i && i + HASH_READ <= w.len() ==> near_found(w, d.far, i, #[trigger] find(i)) && also(i - k)
                == moved_found(find(i), k),
    ensures
        final_pick(rebased_pick(c, k), w.skip(k), lens, moved(s, k), also, moved_pick(p, k)) == moved_pick(
            final_pick(c, w, lens, s, find, p),
            k,
        ),
{
    if c.lazy > 0 && p.len < 64 {
        lemma_lazy_walk_moved(c, w, lens, d, k, s, find, also, p.pos, p, false);
    }
}

/// A choice gives the same match.
pub proof fn lemma_pick_match_moved(c: PickCfg, w: Seq<u8>, d: Peer, k: int, s: St, p: Pick)
    requires
        ample_pick(c, w, d, s, k),
        good_pick(w, s, p),
        p.pos - p.cand <= d.far,
    ensures
        ({
            let m = pick_match(c, w, s, p);
            pick_match(rebased_pick(c, k), w.skip(k), moved(s, k), moved_pick(p, k)) == (m.0 - k, m.1 - k, m.2)
        }),
{
    let floor = if p.rep {
        s.anchor + 1
    } else {
        s.anchor
    };
    let b = c.base as int;
    assert(s.anchor - k + 1 == s.anchor + 1 - k);
    lemma_floor_moved(c.ramp, p.cand, b, k);
    lemma_back_len_moved(
        w,
        k,
        p.pos,
        p.cand,
        floor,
        c.ramp.back_floor(p.cand, b),
        c.ramp.back_floor(p.cand - k, b + k),
    );
}

} // verus!
