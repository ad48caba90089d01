//! Match selection with deferral, shared by the chain and the row scan: the
//! first choice at a position, the test whether it is worth storing, and the walk
//! over later positions for a better one.

use vstd::prelude::*;
use crate::gates::RampGate;
use crate::hash::{back_len, bytes_agree, common_len, extend_back, extend_match, le4, lemma_back_len, lemma_common_len, lemma_common_len_skip, lemma_le4_eq, read4, HASH_READ, MIN_MATCH};
use crate::gates::lemma_back_floor_legal;
use crate::price::{lit_gain, lit_value, offset_price, pays_for_offset_lit, pays_lit, price_of};
use crate::scan::{in_bounds, scan_state, Scan, St, MAX_BLOCK_SIZE};
use crate::seq_codes::SeqWord;
use crate::tables::WIN_MAX;

verus! {

/// How matches are selected.
#[derive(Clone, Copy, PartialEq, Eq, Structural, Debug)]
pub struct PickCfg {
    /// Absolute position of the window's first byte.
    pub base: u64,
    /// Job-start ramp.
    pub ramp: RampGate,
    /// How far the walk defers: zero takes the first choice, two grants a second
    /// chance at every position.
    pub lazy: u8,
    /// Shortest match that is stored.
    pub min_match: u32,
    /// Whether offsets are stored without pricing them.
    pub dict_row: bool,
}

/// A match under consideration.
pub struct Pick {
    pub pos: int,
    pub len: int,
    pub cand: int,
    /// Found by the newest repeated offset.
    pub rep: bool,
    /// Found by the seed offset.
    pub seed: bool,
}

/// A match under consideration, as held by the executable selection.
#[derive(Clone, Copy, PartialEq, Eq, Structural, Debug)]
pub struct Choice {
    pub pos: usize,
    pub len: usize,
    pub cand: usize,
    pub rep: bool,
    pub seed: bool,
}

impl Choice {
    /// The match under consideration.
    pub open spec fn pick(self) -> Pick {
        Pick {
            pos: self.pos as int,
            len: self.len as int,
            cand: self.cand as int,
            rep: self.rep,
            seed: self.seed,
        }
    }
}

/// A search result at `i`: nothing, or a whole match with an earlier source.
pub open spec fn found_at(w: Seq<u8>, i: int, b: (int, int)) -> bool {
    b.0 == 0 || b.0 >= MIN_MATCH && 0 <= b.1 < i && b.0 == common_len(w, i, b.1)
}

/// A source of candidates: the best match that it has for a position.
pub trait Finder {
    /// Whether the source is in order for a window.
    spec fn fits(&self, w: Seq<u8>) -> bool;

    /// Length and source of the best match at `i`; length zero if there is none.
    spec fn best(&self, w: Seq<u8>, i: int) -> (int, int);

    /// Searches for the best match at `i`.
    fn search(&self, win: &[u8], i: usize) -> (r: (usize, usize))
        requires
            self.fits(win@),
            i + HASH_READ <= win@.len(),
        ensures
            r.0 == self.best(win@, i as int).0,
            r.1 == self.best(win@, i as int).1,
            found_at(win@, i as int, self.best(win@, i as int)),
    ;
}

/// The first choice at the scan position, where the search gave `b`: the newest
/// repeated offset if it is at most two bytes shorter, and the seed offset on
/// the same terms against either.
pub open spec fn first_pick(c: PickCfg, w: Seq<u8>, s: St, b: (int, int)) -> Pick {
    let i = s.pos;
    let p = if i == s.anchor {
        i + 1
    } else {
        i
    };
    let q = p - s.rep.r0;
    let n = common_len(w, p, q);
    let a = if s.pending == 0 && q >= 0 && le4(w, q) == le4(w, p) && n + 3 > b.0 && !c.ramp.shallow(
        c.base + q,
    ) {
        Pick { pos: p, len: n, cand: q, rep: true, seed: false }
    } else {
        Pick { pos: i, len: b.0, cand: b.1, rep: false, seed: false }
    };
    let sq = i - s.seed;
    let sn = common_len(w, i, sq);
    if s.seed != 0 && sq >= 0 && le4(w, sq) == le4(w, i) && sn >= 6 && sn + 3 > a.len
        && !c.ramp.shallow(c.base + sq) {
        Pick { pos: i, len: sn, cand: sq, rep: false, seed: true }
    } else {
        a
    }
}

/// Whether a first choice is worth storing: long enough, and worth its offset.
pub open spec fn worth_storing(c: PickCfg, w: Seq<u8>, lens: Seq<u8>, i: int, k: Pick) -> bool {
    &&& k.len >= c.min_match || k.rep && k.len >= MIN_MATCH
    &&& c.dict_row || k.rep || pays_lit(w, i, k.len, i - k.cand, lens)
}

/// Price of a choice's offset; repeated offsets are free.
pub open spec fn pick_price(k: Pick) -> int {
    if k.rep {
        0
    } else {
        offset_price(k.pos - k.cand)
    }
}

/// Bits that a choice saves.
pub open spec fn pick_gain(w: Seq<u8>, lens: Seq<u8>, k: Pick) -> int {
    lit_gain(w, k.pos, k.len, lens)
}

/// A repeated-offset match at `p` that beats the choice `k`, if there is one.
pub open spec fn better_rep(c: PickCfg, w: Seq<u8>, lens: Seq<u8>, s: St, p: int, k: Pick, second: bool) -> bool {
    let q = p - s.rep.r0;
    let n = common_len(w, p, q);
    let mul: int = if second {
        4
    } else {
        3
    };
    &&& s.pending == 0 && !k.rep && q >= 0 && !c.ramp.shallow(c.base + q)
    &&& le4(w, q) == le4(w, p)
    &&& lit_gain(w, p, n, lens) * mul / 4 > pick_gain(w, lens, k) * mul / 4 - pick_price(k) + 1
}

/// Whether the search result `b` at `p` beats the choice `k`.
pub open spec fn better_found(c: PickCfg, w: Seq<u8>, lens: Seq<u8>, p: int, b: (int, int), k: Pick, second: bool) -> bool {
    let margin: int = if second {
        7
    } else {
        4
    };
    &&& b.0 >= c.min_match
    &&& lit_gain(w, p, b.0, lens) - offset_price(p - b.1) > pick_gain(w, lens, k) - pick_price(k)
        + margin
}

/// The walk over the positions after `at` for a choice better than `k`: a
/// position that improves starts over from there; one that does not gets a
/// second chance one byte further, on other margins, if the walk defers twice.
pub open spec fn lazy_walk(
    c: PickCfg,
    w: Seq<u8>,
    lens: Seq<u8>,
    s: St,
    find: spec_fn(int) -> (int, int),
    at: int,
    k: Pick,
    second: bool,
) -> Pick
    decreases w.len() - at,
{
    let p = at + 1;
    if second && c.lazy < 2 || w.len() - p < HASH_READ {
        k
    } else if better_rep(c, w, lens, s, p, k, second) {
        let q = p - s.rep.r0;
        let z = Pick { pos: p, len: common_len(w, p, q), cand: q, rep: true, seed: false };
        lazy_walk(c, w, lens, s, find, p, z, false)
    } else if better_found(c, w, lens, p, find(p), k, second) {
        let z = Pick { pos: p, len: find(p).0, cand: find(p).1, rep: false, seed: false };
        lazy_walk(c, w, lens, s, find, p, z, false)
    } else if second {
        k
    } else {
        lazy_walk(c, w, lens, s, find, p, k, true)
    }
}

/// The choice that is emitted: the first one, or what the walk puts in its
/// place unless it is long enough already.
pub open spec fn final_pick(
    c: PickCfg,
    w: Seq<u8>,
    lens: Seq<u8>,
    s: St,
    find: spec_fn(int) -> (int, int),
    k: Pick,
) -> Pick {
    if c.lazy > 0 && k.len < 64 {
        lazy_walk(c, w, lens, s, find, k.pos, k, false)
    } else {
        k
    }
}

/// The match that a choice gives, extended backwards; a repeated offset keeps
/// one literal before it.
pub open spec fn pick_match(c: PickCfg, w: Seq<u8>, s: St, k: Pick) -> (int, int, int) {
    let floor = if k.rep {
        s.anchor + 1
    } else {
        s.anchor
    };
    let n = back_len(w, k.pos, k.cand, floor, c.ramp.back_floor(k.cand, c.base as int));
    (k.pos - n, k.cand - n, k.len + n)
}

/// A choice that may be emitted: a whole match above the anchor with an earlier
/// source; a repeated offset only where it may be named and with a literal
/// before it.
pub open spec fn good_pick(w: Seq<u8>, s: St, k: Pick) -> bool {
    &&& s.anchor <= k.pos <= w.len()
    &&& 0 <= k.cand < k.pos
    &&& k.len >= MIN_MATCH
    &&& k.len == common_len(w, k.pos, k.cand)
    &&& k.rep ==> s.anchor < k.pos && k.pos - k.cand == s.rep.r0 && s.pending == 0
}

/// A read that agrees makes the match at least four bytes long.
pub proof fn lemma_agree4(w: Seq<u8>, i: int, j: int)
    requires
        le4(w, j) == le4(w, i),
        i + 4 <= w.len(),
    ensures
        common_len(w, i, j) >= 4,
{
    lemma_le4_eq(w, i, j);
    lemma_common_len_skip(w, i, j, 4);
    lemma_common_len(w, i + 4, j + 4);
}

/// A first choice that is worth storing may be emitted, and its source is legal
/// if the search's is.
pub proof fn lemma_first_pick(c: PickCfg, w: Seq<u8>, s: St, b: (int, int))
    requires
        in_bounds(w, s),
        s.pos + HASH_READ <= w.len(),
        found_at(w, s.pos, b),
    ensures
        ({
            let k = first_pick(c, w, s, b);
            &&& k.len >= MIN_MATCH ==> good_pick(w, s, k)
            &&& s.pos <= k.pos <= s.pos + 1
            &&& !k.rep ==> k.pos == s.pos
            &&& k.seed ==> s.seed != 0
            &&& 0 <= k.len <= w.len() - k.pos
            &&& k.rep ==> k.len >= MIN_MATCH
            &&& k.len == 0 || k.len >= MIN_MATCH
            &&& !c.ramp.shallow(c.base + k.cand) || k.len == b.0 && k.cand == b.1
        }),
{
    let i = s.pos;
    let p = if i == s.anchor {
        i + 1
    } else {
        i
    };
    let q = p - s.rep.r0;
    lemma_common_len(w, p, q);
    if q >= 0 && le4(w, q) == le4(w, p) {
        lemma_agree4(w, p, q);
    }
    lemma_common_len(w, i, i - s.seed);
    lemma_common_len(w, i, b.1);
}

/// No match of the finder's is farther away than `hop`.
pub open spec fn finds_within(w: Seq<u8>, find: spec_fn(int) -> (int, int), hop: int) -> bool {
    forall|i: int| 0 <= i && i + HASH_READ <= w.len() && (#[trigger] find(i)).0 > 0 ==> i - find(i).1 <= hop
}

/// The walk keeps a choice that may be emitted, never moves it back, and keeps
/// its source legal and near enough; a source that no repeated offset names is as near
/// as the finder's.
pub proof fn lemma_lazy_walk(
    c: PickCfg,
    w: Seq<u8>,
    lens: Seq<u8>,
    s: St,
    find: spec_fn(int) -> (int, int),
    at: int,
    k: Pick,
    second: bool,
    ramp: RampGate,
    far: int,
)
    requires
        in_bounds(w, s),
        good_pick(w, s, k),
        c.min_match >= 1,
        k.pos <= at,
        s.anchor <= at,
        forall|i: int| 0 <= i && i + HASH_READ <= w.len() ==> found_at(w, i, #[trigger] find(i)),
        forall|i: int|
            0 <= i && i + HASH_READ <= w.len() && (#[trigger] find(i)).0 > 0 ==> !ramp.shallow(c.base + find(i).1)
                && i - find(i).1 <= far,
        ramp == c.ramp || ramp.end == 0,
        !ramp.shallow(c.base + k.cand),
        k.pos - k.cand <= far,
        s.rep.r0 <= far,
    ensures
        ({
            let z = lazy_walk(c, w, lens, s, find, at, k, second);
            &&& good_pick(w, s, z)
            &&& z.pos >= k.pos
            &&& !ramp.shallow(c.base + z.cand)
            &&& z.pos - z.cand <= far
            &&& z.seed ==> k.seed
            &&& (!k.rep ==> k.len >= c.min_match) ==> (!z.rep ==> z.len >= c.min_match)
            &&& forall|hop: int|
                #[trigger] finds_within(w, find, hop) && (!k.rep ==> k.pos - k.cand <= hop) ==> (!z.rep ==> z.pos - z.cand
                    <= hop)
        }),
    decreases w.len() - at,
{
    let p = at + 1;
    if second && c.lazy < 2 || w.len() - p < HASH_READ {
    } else if better_rep(c, w, lens, s, p, k, second) {
        let q = p - s.rep.r0;
        lemma_agree4(w, p, q);
        lemma_common_len(w, p, q);
        let z = Pick { pos: p, len: common_len(w, p, q), cand: q, rep: true, seed: false };
        lemma_lazy_walk(c, w, lens, s, find, p, z, false, ramp, far);
    } else if better_found(c, w, lens, p, find(p), k, second) {
        assert(found_at(w, p, find(p)));
        lemma_common_len(w, p, find(p).1);
        let z = Pick { pos: p, len: find(p).0, cand: find(p).1, rep: false, seed: false };
        lemma_lazy_walk(c, w, lens, s, find, p, z, false, ramp, far);
    } else if second {
    } else {
        lemma_lazy_walk(c, w, lens, s, find, p, k, true, ramp, far);
    }
}

/// The match that a choice gives is real, lies above the anchor and ends where
/// the choice ends.
pub proof fn lemma_pick_match(c: PickCfg, w: Seq<u8>, s: St, k: Pick, ramp: RampGate)
    requires
        in_bounds(w, s),
        good_pick(w, s, k),
        ramp == c.ramp || ramp.end == 0,
        !ramp.shallow(c.base + k.cand),
    ensures
        ({
            let m = pick_match(c, w, s, k);
            &&& s.anchor <= m.0 <= k.pos
            &&& k.rep ==> s.anchor < m.0
            &&& 0 <= m.1 < m.0
            &&& m.0 - m.1 == k.pos - k.cand
            &&& m.2 >= MIN_MATCH
            &&& m.0 + m.2 == k.pos + k.len
            &&& m.0 + m.2 <= w.len()
            &&& bytes_agree(w, m.0, m.1, m.2)
            &&& !ramp.shallow(c.base + m.1)
        }),
{
    let floor = if k.rep {
        s.anchor + 1
    } else {
        s.anchor
    };
    let cf = c.ramp.back_floor(k.cand, c.base as int);
    let n = back_len(w, k.pos, k.cand, floor, cf);
    lemma_back_len(w, k.pos, k.cand, floor, cf);
    lemma_common_len(w, k.pos, k.cand);
    if n > 0 && ramp.end != 0 {
        lemma_back_floor_legal(c.ramp, c.base as int, k.cand, k.cand - n);
    }
    assert forall|t: int| 0 <= t < k.len + n implies #[trigger] w[k.pos - n + t] == w[k.cand - n + t] by {
        if t >= n {
            assert(w[k.pos + (t - n)] == w[k.cand + (t - n)]);
        }
    }
}

/// The first choice at the scan position.
pub fn choose_first(c: &PickCfg, win: &[u8], sc: &Scan, b: (usize, usize)) -> (k: Choice)
    requires
        win@.len() <= WIN_MAX,
        c.base + win@.len() < u64::MAX,
        sc.pos + HASH_READ <= win@.len(),
        sc.rep.r0 >= 1,
        b.0 <= win@.len(),
    ensures
        forall|l: Seq<u8>, q: Seq<SeqWord>|
            k.pick() == first_pick(*c, win@, #[trigger] scan_state(l, q, *sc), (b.0 as int, b.1 as int)),
{
    let i: usize = sc.pos;
    let p: usize = if i == sc.anchor {
        i + 1
    } else {
        i
    };
    let mut k: Choice = Choice { pos: i, len: b.0, cand: b.1, rep: false, seed: false };
    if sc.pending == 0 && sc.rep.r0 as usize <= p {
        let q: usize = p - sc.rep.r0 as usize;
        if read4(win, q) == read4(win, p) {
            let n: usize = extend_match(win, p, q);
            if n + 3 > b.0 && !c.ramp.blocks(c.base + q as u64) {
                k = Choice { pos: p, len: n, cand: q, rep: true, seed: false };
            }
        }
    }
    if sc.seed != 0 && sc.seed as usize <= i {
        let q: usize = i - sc.seed as usize;
        if read4(win, q) == read4(win, i) {
            let n: usize = extend_match(win, i, q);
            if n >= 6 && n + 3 > k.len && !c.ramp.blocks(c.base + q as u64) {
                k = Choice { pos: i, len: n, cand: q, rep: false, seed: true };
            }
        }
    }
    k
}

/// Whether a first choice is worth storing.
pub fn is_worth_storing(c: &PickCfg, win: &[u8], lit_lens: &[u8; 256], i: usize, k: &Choice) -> (r: bool)
    requires
        win@.len() <= WIN_MAX,
        c.min_match >= 1,
        !k.rep && k.len > 0 ==> k.cand < i && i + k.len <= win@.len() && k.len <= MAX_BLOCK_SIZE,
    ensures
        r == worth_storing(*c, win@, lit_lens@, i as int, k.pick()),
{
    if k.len < c.min_match as usize && !(k.rep && k.len >= MIN_MATCH) {
        return false;
    }
    c.dict_row || k.rep || pays_for_offset_lit(win, i, k.len, k.cand, k.rep, lit_lens)
}

/// Price and gain of a choice.
fn weigh(win: &[u8], lit_lens: &[u8; 256], k: &Choice) -> (r: (i32, i32))
    requires
        win@.len() <= WIN_MAX,
        k.cand < k.pos,
        k.pos + 4 <= win@.len(),
        k.len <= MAX_BLOCK_SIZE,
    ensures
        r.0 == pick_price(k.pick()),
        0 <= r.0 < 32,
        r.1 == pick_gain(win@, lit_lens@, k.pick()),
        0 <= r.1 <= 6 * MAX_BLOCK_SIZE,
{
    let price: i32 = if k.rep {
        0
    } else {
        price_of(k.pos, k.cand)
    };
    (price, lit_value(win, k.pos, k.len, lit_lens))
}

/// The choice that is emitted.
#[verifier::rlimit(30)]
pub fn choose_final<F: Finder>(
    c: &PickCfg,
    win: &[u8],
    lit_lens: &[u8; 256],
    sc: &Scan,
    finder: &F,
    first: Choice,
    Ghost(s): Ghost<St>,
) -> (k: Choice)
    requires
        finder.fits(win@),
        win@.len() <= WIN_MAX,
        c.base + win@.len() < u64::MAX,
        c.min_match >= 1,
        in_bounds(win@, s),
        s.rep == sc.rep,
        s.pending == sc.pending,
        s.anchor == sc.anchor,
        good_pick(win@, s, first.pick()),
    ensures
        k.pick() == final_pick(
            *c,
            win@,
            lit_lens@,
            s,
            |i: int| finder.best(win@, i),
            first.pick(),
        ),
{
    let ghost find = |i: int| finder.best(win@, i);
    let mut k: Choice = first;
    if c.lazy == 0 || k.len >= 64 {
        return k;
    }
    let mut at: usize = k.pos;
    let mut second: bool = false;
    let ghost goal = lazy_walk(*c, win@, lit_lens@, s, find, at as int, k.pick(), false);
    proof {
        lemma_common_len(win@, k.pos as int, k.cand as int);
    }
    while win.len() - at > HASH_READ && !(second && c.lazy < 2)
        invariant
            finder.fits(win@),
            win@.len() <= WIN_MAX,
            c.base + win@.len() < u64::MAX,
            c.min_match >= 1,
            in_bounds(win@, s),
            s.rep == sc.rep,
            s.pending == sc.pending,
            s.anchor == sc.anchor,
            good_pick(win@, s, k.pick()),
            k.len <= MAX_BLOCK_SIZE,
            k.pos + 4 <= win@.len(),
            k.pos <= at <= win@.len(),
            find == |i: int| finder.best(win@, i),
            goal == final_pick(*c, win@, lit_lens@, s, find, first.pick()),
            goal == lazy_walk(*c, win@, lit_lens@, s, find, at as int, k.pick(), second),
        decreases win@.len() - at,
    {
        let p: usize = at + 1;
        let (price, gain): (i32, i32) = weigh(win, lit_lens, &k);
        let mul: i32 = if second {
            4
        } else {
            3
        };
        let margin: i32 = if second {
            7
        } else {
            4
        };
        at = p;
        let r: usize = sc.rep.r0 as usize;
        if sc.pending == 0 && !k.rep && r <= p && !c.ramp.blocks(c.base + (p - r) as u64) && read4(
            win,
            p - r,
        ) == read4(win, p) {
            let n: usize = extend_match(win, p, p - r);
            proof {
                lemma_agree4(win@, p as int, p - r);
                lemma_common_len(win@, p as int, p - r);
            }
            let v: i32 = lit_value(win, p, n, lit_lens);
            if v * mul / 4 > gain * mul / 4 - price + 1 {
                k = Choice { pos: p, len: n, cand: p - r, rep: true, seed: false };
                second = false;
                continue;
            }
        }
        assert(!better_rep(*c, win@, lit_lens@, s, p as int, k.pick(), second));
        let (n2, q2): (usize, usize) = finder.search(win, p);
        assert(find(p as int) == (n2 as int, q2 as int));
        if n2 >= c.min_match as usize {
            proof {
                lemma_common_len(win@, p as int, q2 as int);
            }
            let price2: i32 = price_of(p, q2);
            let v2: i32 = lit_value(win, p, n2, lit_lens);
            if v2 - price2 > gain - price + margin {
                k = Choice { pos: p, len: n2, cand: q2, rep: false, seed: false };
                second = false;
                continue;
            }
        }
        assert(!better_found(*c, win@, lit_lens@, p as int, find(p as int), k.pick(), second));
        if second {
            return k;
        }
        second = true;
    }
    k
}

/// The match that a choice gives.
pub fn widen(c: &PickCfg, win: &[u8], sc: &Scan, k: &Choice) -> (m: (usize, usize, usize))
    requires
        win@.len() <= WIN_MAX,
        c.base + win@.len() < u64::MAX,
        k.cand < k.pos,
        k.pos + k.len <= win@.len(),
        sc.anchor < win@.len(),
    ensures
        forall|l: Seq<u8>, q: Seq<SeqWord>|
            pick_match(*c, win@, #[trigger] scan_state(l, q, *sc), k.pick()) == (
                m.0 as int,
                m.1 as int,
                m.2 as int,
            ),
{
    let floor: usize = if k.rep {
        sc.anchor + 1
    } else {
        sc.anchor
    };
    let n: usize = extend_back(win, k.pos, k.cand, floor, c.ramp.ext_floor(k.cand, c.base));
    (k.pos - n, k.cand - n, k.len + n)
}

} // verus!
