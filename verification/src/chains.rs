//! Hash chains: head tables whose entries link, position by position, to the
//! previous one with the same hash, and the walk along such a chain.

use vstd::prelude::*;
use crate::gates::{CoveredFill, RampGate};
use crate::hash::{common_len, extend_match, hash_at_width, le4, lemma_common_len, lemma_le4_eq, lemma_mul_hash_range, read4, short_slot, slots, ChainHashWidth, HASH_READ, MIN_MATCH};
use crate::tables::{entry_of, insert_limit, pack_pos, WIN_MAX};

verus! {

/// How positions enter a head table and its chain.
#[derive(Clone, Copy, PartialEq, Eq, Structural, Debug)]
pub struct LinkCfg {
    /// Absolute position of the window's first byte.
    pub base: u64,
    /// Coordinate origin of the entries: advancing it past everything that was
    /// ever written retires all entries at once.
    pub origin: u64,
    /// Log of the head table.
    pub log: u32,
    /// Input width of the hash.
    pub width: ChainHashWidth,
}

/// A head table with its chain.
#[verifier::ext_equal]
pub struct Heads {
    pub t: Seq<u32>,
    pub ch: Seq<u32>,
}

impl LinkCfg {
    /// The configuration fits a window and its tables.
    pub open spec fn fits(self, w: Seq<u8>, h: Heads) -> bool {
        &&& 1 <= self.log < 32
        &&& w.len() <= WIN_MAX
        &&& self.base + self.origin + w.len() < u64::MAX
        &&& h.t.len() == slots(self.log)
        &&& h.ch.len() >= 1
    }

    /// Hash slot of the position at `i`.
    pub open spec fn slot(self, w: Seq<u8>, i: int) -> int {
        short_slot(w, i, self.log, self.width)
    }

    /// Entry of the position at `i`.
    pub open spec fn entry(self, i: int) -> u32 {
        entry_of(self.base + self.origin + i)
    }
}

/// Slot of an absolute position in a chain of `n` slots.
pub open spec fn chain_slot(abs: int, n: int) -> int {
    abs % n
}

/// The tables with `i` as the newest position for the hash at `at`, linked to
/// the previous one.
pub open spec fn link_as(c: LinkCfg, w: Seq<u8>, h: Heads, at: int, i: int) -> Heads {
    Heads {
        t: h.t.update(c.slot(w, at), c.entry(i)),
        ch: h.ch.update(chain_slot(c.base + i, h.ch.len() as int), h.t[c.slot(w, at)]),
    }
}

/// The tables with the positions `from`, `from + step`, ... below `to` linked in
/// this order.
pub open spec fn link_range(c: LinkCfg, w: Seq<u8>, h: Heads, from: int, to: int, step: int) -> Heads
    decreases
        if to > from {
            to - from
        } else {
            0
        },
{
    if from < to && step > 0 {
        link_range(c, w, link_as(c, w, h, from, from), from + step, to, step)
    } else {
        h
    }
}

/// The tables after the fill of a match of `ml` bytes at `start` that was found
/// by a repeated offset: every position of a short match or under the dense
/// dictionary policy, else one just inside each end.
pub open spec fn link_covered(c: LinkCfg, w: Seq<u8>, h: Heads, start: int, ml: int, fill: CoveredFill) -> Heads {
    let limit = insert_limit(w);
    let end = if start + ml < limit {
        start + ml
    } else {
        limit
    };
    if ml <= 16 {
        let step: int = if fill == CoveredFill::Strided {
            2
        } else {
            1
        };
        link_range(c, w, h, start, end, step)
    } else if fill == CoveredFill::DictDense {
        link_range(c, w, h, start, end, 1)
    } else if start + ml - 2 <= limit {
        link_as(
            c,
            w,
            link_as(c, w, h, start + 2, start + 2),
            start + ml - 2,
            start + ml - 2,
        )
    } else {
        h
    }
}

/// The tables after the fill of a match that the walk found: dense up to 64
/// bytes or under the dense dictionary policy, every fourth position beyond.
pub open spec fn link_match(c: LinkCfg, w: Seq<u8>, h: Heads, start: int, ml: int, fill: CoveredFill) -> Heads {
    let limit = insert_limit(w);
    let end = if start + ml < limit {
        start + ml
    } else {
        limit
    };
    let step: int = if ml <= 64 || fill == CoveredFill::DictDense {
        1
    } else {
        4
    };
    link_range(c, w, h, start, end, step)
}

/// Linking keeps the sizes of both tables.
pub proof fn lemma_link_as(c: LinkCfg, w: Seq<u8>, h: Heads, at: int, i: int)
    requires
        c.fits(w, h),
        c.base + i >= 0,
    ensures
        c.fits(w, link_as(c, w, h, at, i)),
        link_as(c, w, h, at, i).ch.len() == h.ch.len(),
        0 <= chain_slot(c.base + i, h.ch.len() as int) < h.ch.len(),
        0 <= c.slot(w, at) < h.t.len(),
{
    broadcast use lemma_mul_hash_range;

    vstd::arithmetic::div_mod::lemma_mod_bound(c.base + i, h.ch.len() as int);
}

/// Linking a range keeps the sizes of both tables.
pub proof fn lemma_link_range(c: LinkCfg, w: Seq<u8>, h: Heads, from: int, to: int, step: int)
    requires
        c.fits(w, h),
        from >= 0,
    ensures
        c.fits(w, link_range(c, w, h, from, to, step)),
        link_range(c, w, h, from, to, step).ch.len() == h.ch.len(),
    decreases
        if to > from {
            to - from
        } else {
            0
        },
{
    if from < to && step > 0 {
        lemma_link_as(c, w, h, from, from);
        lemma_link_range(c, w, link_as(c, w, h, from, from), from + step, to, step);
    }
}

/// The fills keep the sizes of both tables.
pub proof fn lemma_link_fills(c: LinkCfg, w: Seq<u8>, h: Heads, start: int, ml: int, fill: CoveredFill)
    requires
        c.fits(w, h),
        start >= 0,
        ml >= 2,
    ensures
        c.fits(w, link_covered(c, w, h, start, ml, fill)),
        link_covered(c, w, h, start, ml, fill).ch.len() == h.ch.len(),
        c.fits(w, link_match(c, w, h, start, ml, fill)),
        link_match(c, w, h, start, ml, fill).ch.len() == h.ch.len(),
{
    let limit = insert_limit(w);
    let end = if start + ml < limit {
        start + ml
    } else {
        limit
    };
    lemma_link_range(c, w, h, start, end, 1);
    lemma_link_range(c, w, h, start, end, 2);
    lemma_link_range(c, w, h, start, end, 4);
    lemma_link_as(c, w, h, start + 2, start + 2);
    lemma_link_as(c, w, link_as(c, w, h, start + 2, start + 2), start + ml - 2, start + ml - 2);
}

/// Makes `idx` the newest position for the hash at `at`, linked to the previous
/// one.
pub fn insert_linked_at(c: &LinkCfg, win: &[u8], table: &mut Vec<u32>, chain: &mut Vec<u32>, at: usize, idx: usize)
    requires
        c.fits(win@, Heads { t: old(table)@, ch: old(chain)@ }),
        at + HASH_READ <= win@.len(),
        idx <= win@.len(),
    ensures
        (Heads { t: final(table)@, ch: final(chain)@ }) == link_as(
            *c,
            win@,
            Heads { t: old(table)@, ch: old(chain)@ },
            at as int,
            idx as int,
        ),
        c.fits(win@, Heads { t: final(table)@, ch: final(chain)@ }),
        final(chain)@.len() == old(chain)@.len(),
{
    proof {
        lemma_link_as(*c, win@, Heads { t: table@, ch: chain@ }, at as int, idx as int);
    }
    assert(table@.len() == table.len());
    assert(chain@.len() == chain.len());
    let h: usize = hash_at_width(win, at, c.log, c.width) as usize;
    let head: u32 = table[h];
    let n: u64 = chain.len() as u64;
    let k: usize = ((c.base + idx as u64) % n) as usize;
    chain.set(k, head);
    table.set(h, pack_pos(c.base + c.origin + idx as u64));
}

/// Links the positions `from`, `from + step`, ... below `to`.
pub fn insert_linked_range(
    c: &LinkCfg,
    win: &[u8],
    table: &mut Vec<u32>,
    chain: &mut Vec<u32>,
    from: usize,
    to: usize,
    step: usize,
)
    requires
        c.fits(win@, Heads { t: old(table)@, ch: old(chain)@ }),
        1 <= step <= 4,
        to > from ==> to + HASH_READ <= win@.len() + 1,
    ensures
        (Heads { t: final(table)@, ch: final(chain)@ }) == link_range(
            *c,
            win@,
            Heads { t: old(table)@, ch: old(chain)@ },
            from as int,
            to as int,
            step as int,
        ),
        c.fits(win@, Heads { t: final(table)@, ch: final(chain)@ }),
        final(chain)@.len() == old(chain)@.len(),
{
    let ghost h0 = Heads { t: table@, ch: chain@ };
    let mut p: usize = from;
    while p < to
        invariant
            c.fits(win@, Heads { t: table@, ch: chain@ }),
            chain@.len() == h0.ch.len(),
            1 <= step <= 4,
            p < to ==> to + HASH_READ <= win@.len() + 1,
            link_range(*c, win@, Heads { t: table@, ch: chain@ }, p as int, to as int, step as int)
                == link_range(*c, win@, h0, from as int, to as int, step as int),
        decreases to + 4 - p,
    {
        insert_linked_at(c, win, table, chain, p, p);
        p = p + step;
    }
}

/// First index that a fill leaves out.
fn fill_end(win: &[u8], start: usize, ml: usize) -> (r: usize)
    requires
        start + ml <= win@.len(),
    ensures
        ({
            let limit = insert_limit(win@);
            r == if start + ml < limit {
                start + ml
            } else {
                limit
            }
        }),
        r > start ==> r + HASH_READ <= win@.len(),
{
    assert(win@.len() == win.len());
    let limit: usize = if win.len() >= HASH_READ {
        win.len() - HASH_READ
    } else {
        0
    };
    if start + ml < limit {
        start + ml
    } else {
        limit
    }
}

/// Links what a repeated-offset match covers.
pub fn insert_linked_covered(
    c: &LinkCfg,
    win: &[u8],
    table: &mut Vec<u32>,
    chain: &mut Vec<u32>,
    start: usize,
    ml: usize,
    fill: CoveredFill,
)
    requires
        c.fits(win@, Heads { t: old(table)@, ch: old(chain)@ }),
        start + ml <= win@.len(),
    ensures
        (Heads { t: final(table)@, ch: final(chain)@ }) == link_covered(
            *c,
            win@,
            Heads { t: old(table)@, ch: old(chain)@ },
            start as int,
            ml as int,
            fill,
        ),
        c.fits(win@, Heads { t: final(table)@, ch: final(chain)@ }),
        final(chain)@.len() == old(chain)@.len(),
{
    let end: usize = fill_end(win, start, ml);
    if ml <= 16 {
        let step: usize = if fill == CoveredFill::Strided {
            2
        } else {
            1
        };
        insert_linked_range(c, win, table, chain, start, end, step);
    } else if fill == CoveredFill::DictDense {
        insert_linked_range(c, win, table, chain, start, end, 1);
    } else if win.len() >= HASH_READ && start + ml - 2 <= win.len() - HASH_READ {
        insert_linked_at(c, win, table, chain, start + 2, start + 2);
        insert_linked_at(c, win, table, chain, start + ml - 2, start + ml - 2);
    }
}

/// Links what a match found by the walk covers.
pub fn insert_linked_match(
    c: &LinkCfg,
    win: &[u8],
    table: &mut Vec<u32>,
    chain: &mut Vec<u32>,
    start: usize,
    ml: usize,
    fill: CoveredFill,
)
    requires
        c.fits(win@, Heads { t: old(table)@, ch: old(chain)@ }),
        start + ml <= win@.len(),
    ensures
        (Heads { t: final(table)@, ch: final(chain)@ }) == link_match(
            *c,
            win@,
            Heads { t: old(table)@, ch: old(chain)@ },
            start as int,
            ml as int,
            fill,
        ),
        c.fits(win@, Heads { t: final(table)@, ch: final(chain)@ }),
        final(chain)@.len() == old(chain)@.len(),
{
    let end: usize = fill_end(win, start, ml);
    let step: usize = if ml <= 64 || fill == CoveredFill::DictDense {
        1
    } else {
        4
    };
    insert_linked_range(c, win, table, chain, start, end, step);
}

/// Limits of a walk.
#[derive(Clone, Copy, PartialEq, Eq, Structural, Debug)]
pub struct WalkCfg {
    /// Most candidates tried.
    pub depth: u32,
    /// Farthest distance of a candidate.
    pub reach: usize,
    /// Job-start ramp.
    pub ramp: RampGate,
}

/// Length and source of the longest match along a chain, from the entry `e` on,
/// with `tried` candidates behind and `best` the longest so far. A candidate
/// must be within reach and strictly longer than the best, and a shallow
/// crossing read is passed over; a match that reaches the window's end ends the
/// walk. The length is zero where nothing matched.
pub open spec fn chain_walk(
    c: LinkCfg,
    k: WalkCfg,
    w: Seq<u8>,
    ch: Seq<u32>,
    i: int,
    e: u32,
    tried: int,
    best: (int, int),
) -> (int, int)
    decreases k.depth - tried,
{
    let d = c.base + c.origin + i + 1 - e;
    if tried < k.depth && 1 <= d <= i && d <= k.reach {
        let q = i - d;
        let n = common_len(w, i, q);
        let better = !k.ramp.shallow(c.base + q) && n >= MIN_MATCH && n > best.0;
        if better && i + n >= w.len() {
            (n, q)
        } else {
            chain_walk(
                c,
                k,
                w,
                ch,
                i,
                ch[chain_slot(c.base + q, ch.len() as int)],
                tried + 1,
                if better {
                    (n, q)
                } else {
                    best
                },
            )
        }
    } else {
        best
    }
}

/// The longest match along the chain from the entry `e` on.
pub open spec fn chain_best(c: LinkCfg, k: WalkCfg, w: Seq<u8>, ch: Seq<u32>, i: int, e: u32) -> (int, int) {
    chain_walk(c, k, w, ch, i, e, 0, (0, 0))
}

/// A walk's result is nothing, or the whole match with a legal earlier source
/// within reach.
pub open spec fn walk_result(c: LinkCfg, k: WalkCfg, w: Seq<u8>, i: int, b: (int, int)) -> bool {
    b.0 == 0 || {
        &&& b.0 >= MIN_MATCH
        &&& 0 <= b.1 < i
        &&& i - b.1 <= k.reach
        &&& b.0 == common_len(w, i, b.1)
        &&& !k.ramp.shallow(c.base + b.1)
    }
}

/// What a walk finds is a whole match within reach.
pub proof fn lemma_chain_walk(
    c: LinkCfg,
    k: WalkCfg,
    w: Seq<u8>,
    ch: Seq<u32>,
    i: int,
    e: u32,
    tried: int,
    best: (int, int),
)
    requires
        walk_result(c, k, w, i, best),
    ensures
        walk_result(c, k, w, i, chain_walk(c, k, w, ch, i, e, tried, best)),
    decreases k.depth - tried,
{
    let d = c.base + c.origin + i + 1 - e;
    if tried < k.depth && 1 <= d <= i && d <= k.reach {
        let q = i - d;
        let n = common_len(w, i, q);
        let better = !k.ramp.shallow(c.base + q) && n >= MIN_MATCH && n > best.0;
        if !(better && i + n >= w.len()) {
            lemma_chain_walk(
                c,
                k,
                w,
                ch,
                i,
                ch[chain_slot(c.base + q, ch.len() as int)],
                tried + 1,
                if better {
                    (n, q)
                } else {
                    best
                },
            );
        }
    }
}

/// Walks the chain from the entry `entry` on and returns length and source of
/// the longest match.
pub fn chain_search(c: &LinkCfg, k: &WalkCfg, win: &[u8], chain: &Vec<u32>, idx: usize, entry: u32) -> (r: (
    usize,
    usize,
))
    requires
        1 <= c.log < 32,
        win@.len() <= WIN_MAX,
        c.base + c.origin + win@.len() < u64::MAX,
        chain@.len() >= 1,
        idx + HASH_READ <= win@.len(),
    ensures
        ({
            let b = chain_best(*c, *k, win@, chain@, idx as int, entry);
            r.0 == b.0 && r.1 == b.1 && walk_result(*c, *k, win@, idx as int, b)
        }),
{
    let at: u64 = c.base + c.origin + idx as u64 + 1;
    let mut best_len: usize = 0;
    let mut best_cand: usize = 0;
    let mut tried: u32 = 0;
    let mut e: u32 = entry;
    let ghost all = chain_best(*c, *k, win@, chain@, idx as int, entry);
    proof {
        lemma_chain_walk(*c, *k, win@, chain@, idx as int, entry, 0, (0, 0));
    }
    while tried < k.depth
        invariant
            win@.len() <= WIN_MAX,
            c.base + c.origin + win@.len() < u64::MAX,
            chain@.len() >= 1,
            idx + HASH_READ <= win@.len(),
            tried <= k.depth,
            at == c.base + c.origin + idx + 1,
            best_len == 0 || MIN_MATCH <= best_len < win@.len() - idx,
            walk_result(*c, *k, win@, idx as int, all),
            all == chain_best(*c, *k, win@, chain@, idx as int, entry),
            all == chain_walk(
                *c,
                *k,
                win@,
                chain@,
                idx as int,
                e,
                tried as int,
                (best_len as int, best_cand as int),
            ),
        ensures
            all == (best_len as int, best_cand as int),
        decreases k.depth - tried,
    {
        if at < e as u64 {
            break;
        }
        let d: u64 = at - e as u64;
        if d == 0 || d > idx as u64 || d > k.reach as u64 {
            break;
        }
        let q: usize = idx - d as usize;
        let probe: usize = if best_len >= 3 {
            best_len - 3
        } else {
            0
        };
        let ghost n = common_len(win@, idx as int, q as int);
        proof {
            lemma_probe(win@, idx as int, q as int, best_len as int, probe as int);
        }
        if !k.ramp.blocks(c.base + q as u64) && read4(win, q + probe) == read4(win, idx + probe) {
            let ml: usize = extend_match(win, idx, q);
            if ml > best_len && ml >= MIN_MATCH {
                best_len = ml;
                best_cand = q;
                if ml >= win.len() - idx {
                    return (ml, q);
                }
            }
        }
        assert(chain@.len() == chain.len());
        let slot: usize = ((c.base + q as u64) % (chain.len() as u64)) as usize;
        tried = tried + 1;
        e = chain[slot];
    }
    (best_len, best_cand)
}

/// A longer match agrees on the four bytes that end one past the best length.
proof fn lemma_probe(w: Seq<u8>, i: int, q: int, best: int, probe: int)
    requires
        0 <= q < i,
        best == 0 && probe == 0 || best >= MIN_MATCH && probe == best - 3,
        i + probe + 4 <= w.len(),
    ensures
        common_len(w, i, q) >= MIN_MATCH && common_len(w, i, q) > best ==> le4(w, q + probe) == le4(
            w,
            i + probe,
        ),
{
    let n = common_len(w, i, q);
    if n >= MIN_MATCH && n > best {
        lemma_common_len(w, i, q);
        assert forall|k: int| 0 <= k < 4 implies #[trigger] w[i + probe + k] == w[q + probe + k] by {
            assert(w[i + (probe + k)] == w[q + (probe + k)]);
        }
        lemma_le4_eq(w, i + probe, q + probe);
    }
}

} // verus!
