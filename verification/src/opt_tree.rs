//! The search tree of the optimal parse: every hash bucket is a binary tree of
//! positions, ordered by the bytes that follow them, with two child slots per
//! position in a ring.

use vstd::prelude::*;
use vstd::arithmetic::power2::{lemma2_to64, lemma_pow2_adds, lemma_pow2_pos, pow2};
use crate::bits::pow2_u64;
use crate::hash::{bytes_agree, common_len, extend_match, hash_word, le4, le8, lemma_common_len, lemma_mul_hash_range, mul_hash, read4, read8, slots, HASH_READ};
use crate::sequence::{wire_offset, Reps};
use crate::tables::WIN_MAX;

verus! {

/// Positions that one series of the optimal parse spans; longer matches are
/// encoded at once.
pub const OPT_NUM: usize = 4096;

/// The table entry that stands for no position.
pub const EMPTY: u32 = 0;

/// Multiplier of the three-byte hash.
pub const PRIME3: u64 = 506832829;

/// Multiplier of the four-byte hash.
pub const PRIME4: u64 = 2654435761;

/// Multiplier of the five-byte hash.
pub const PRIME5: u64 = 889523592379;

/// A candidate match: its wire offset value (1 to 3 name a repeated offset) and
/// its length.
#[derive(Clone, Copy, PartialEq, Eq, Structural, Debug)]
pub struct Match {
    pub off: u32,
    pub len: u32,
}

/// Multiply-shift hash of a 32-bit word into `log` bits.
#[verifier::opaque]
pub open spec fn mul_hash32(v: int, prime: u64, log: u32) -> int {
    (v * prime) % 0x1_0000_0000 / (pow2((32 - log) as nat) as int)
}

/// Every hash of `log` bits names a slot of a table of `log` bits.
pub broadcast proof fn lemma_mul_hash32_range(v: int, prime: u64, log: u32)
    requires
        1 <= log < 32,
    ensures
        0 <= #[trigger] mul_hash32(v, prime, log) < slots(log),
{
    reveal(mul_hash32);
    let x = (v * prime) % 0x1_0000_0000;
    let p = pow2((32 - log) as nat) as int;
    lemma2_to64();
    lemma_pow2_pos((32 - log) as nat);
    lemma_pow2_adds((32 - log) as nat, log as nat);
    vstd::arithmetic::div_mod::lemma_multiply_divide_lt(x, p, slots(log));
    vstd::arithmetic::div_mod::lemma_div_pos_is_pos(x, p);
}

/// Slot of the three bytes at `i`.
pub open spec fn hash3_slot(w: Seq<u8>, i: int, log: u32) -> int {
    mul_hash32((le4(w, i) * 256) % 0x1_0000_0000, PRIME3, log)
}

/// Slot of the four bytes at `i`.
pub open spec fn hash4_slot(w: Seq<u8>, i: int, log: u32) -> int {
    mul_hash32(le4(w, i), PRIME4, log)
}

/// Slot of the five bytes at `i`.
pub open spec fn hash5_slot(w: Seq<u8>, i: int, log: u32) -> int {
    mul_hash((le8(w, i) % 0x100_0000_0000 * 0x100_0000) as u64, PRIME5, log)
}

/// Hashes a 32-bit word into `log` bits.
fn hash_word32(v: u64, prime: u64, log: u32) -> (r: usize)
    requires
        1 <= log < 32,
        v <= u32::MAX,
        prime <= u32::MAX,
    ensures
        r == mul_hash32(v as int, prime, log),
        r < slots(log),
{
    proof {
        lemma_mul_hash32_range(v as int, prime, log);
        reveal(mul_hash32);
        assert(v * prime <= 0xffff_ffff * 0xffff_ffff) by (nonlinear_arith)
            requires
                0 <= v <= 0xffff_ffff,
                0 <= prime <= 0xffff_ffff,
        ;
        lemma_slots_fit(log);
    }
    ((v * prime) % 0x1_0000_0000 / pow2_u64(32 - log)) as usize
}

/// Tables below 32 bits are addressable.
proof fn lemma_slots_fit(log: u32)
    requires
        log < 32,
    ensures
        1 <= slots(log) <= 0x8000_0000,
{
    lemma2_to64();
    lemma_pow2_pos(log as nat);
    crate::bits::lemma_pow2_monotone(log as nat, 31);
}

/// Hash of the three bytes at `idx`.
pub fn hash3_at(win: &[u8], idx: usize, log: u32) -> (r: usize)
    requires
        1 <= log < 32,
        idx + 4 <= win@.len(),
    ensures
        r == hash3_slot(win@, idx as int, log),
        r < slots(log),
{
    hash_word32((read4(win, idx) as u64 * 256) % 0x1_0000_0000, PRIME3, log)
}

/// Hash of the four bytes at `idx`.
pub fn hash4_at(win: &[u8], idx: usize, log: u32) -> (r: usize)
    requires
        1 <= log < 32,
        idx + 4 <= win@.len(),
    ensures
        r == hash4_slot(win@, idx as int, log),
        r < slots(log),
{
    hash_word32(read4(win, idx) as u64, PRIME4, log)
}

/// Hash of the five bytes at `idx`.
pub fn hash5_at(win: &[u8], idx: usize, log: u32) -> (r: usize)
    requires
        1 <= log < 32,
        idx + 8 <= win@.len(),
    ensures
        r == hash5_slot(win@, idx as int, log),
        r < slots(log),
{
    proof {
        lemma_slots_fit(log);
    }
    hash_word((read8(win, idx) % 0x100_0000_0000) * 0x100_0000, PRIME5, log) as usize
}

/// Constants of the search in one block.
#[derive(Clone, Copy, PartialEq, Eq, Structural, Debug)]
pub struct TreeCfg {
    /// Absolute position of the first window byte.
    pub base: u64,
    /// What entries add to positions, modulo their width. Moving it on past all
    /// positions written so far empties the tables.
    pub origin: u32,
    /// Largest distance of a match.
    pub reach: usize,
    /// Bits of the bucket table.
    pub table_log: u32,
    /// Bits of the ring of positions.
    pub bt_log: u32,
    /// Bits of the three-byte table, or zero without one.
    pub hash3_log: u32,
    /// Shortest match, three or four bytes.
    pub min_match: usize,
    /// Bytes that the bucket hash covers.
    pub mls: usize,
    /// Compares of a search.
    pub nb_compares: usize,
    /// Compares of an insertion.
    pub insert_compares: usize,
    /// Matches longer than this end a search.
    pub sufficient_len: usize,
}

/// Tables of the search, with how far they have been filled.
#[verifier::ext_equal]
pub struct Tree {
    /// Newest position of every bucket.
    pub t: Seq<u32>,
    /// Child slots of the ring's positions.
    pub bt: Seq<u32>,
    /// Newest position for every three-byte hash.
    pub h3: Seq<u32>,
    /// Absolute position up to which the tree is filled.
    pub next: int,
    /// Absolute position up to which the three-byte table is filled.
    pub next3: int,
}

impl TreeCfg {
    /// Tables and window that fit this configuration.
    pub open spec fn fits(self, w: Seq<u8>, s: Tree) -> bool {
        &&& 1 <= self.table_log < 32
        &&& self.bt_log < 31
        &&& self.hash3_log < 32
        &&& 3 <= self.min_match <= 4
        &&& s.t.len() == slots(self.table_log)
        &&& s.bt.len() == 2 * slots(self.bt_log)
        &&& s.h3.len() == if self.hash3_log == 0 {
            0
        } else {
            slots(self.hash3_log)
        }
        &&& w.len() <= WIN_MAX
        &&& self.base + w.len() + 0x2_0000_0000 <= u64::MAX
        &&& 0 <= s.next <= u64::MAX
        &&& 0 <= s.next3 <= u64::MAX
    }

    /// Positions in the ring.
    pub open spec fn ring(self) -> int {
        slots(self.bt_log)
    }

    /// Table entry of the position at index `i`.
    pub open spec fn entry(self, i: int) -> u32 {
        ((self.base + i + self.origin + 1) % 0x1_0000_0000) as u32
    }

    /// The candidate that an entry names for the position at index `i`: the
    /// index at the entry's distance if that is inside the window and within
    /// reach, else `i` itself.
    pub open spec fn cand(self, e: u32, i: int) -> int {
        let d = (self.base + i + self.origin + 1 - e) % 0x1_0000_0000;
        if e != EMPTY && d <= i && d <= self.reach {
            i - d
        } else {
            i
        }
    }

    /// First child slot of the position at index `i`; the second one follows.
    pub open spec fn node(self, i: int) -> int {
        2 * ((self.base + i) % self.ring())
    }

    /// Bucket of the position at index `i`.
    pub open spec fn slot(self, w: Seq<u8>, i: int) -> int {
        if self.mls == 3 {
            hash3_slot(w, i, self.table_log)
        } else if self.mls == 4 {
            hash4_slot(w, i, self.table_log)
        } else {
            hash5_slot(w, i, self.table_log)
        }
    }

    /// The slots of the position at `q` may have been reused by the one at `i`.
    pub open spec fn stale(self, q: int, i: int) -> bool {
        let low = if self.base + i >= self.ring() {
            self.base + i - self.ring()
        } else {
            0
        };
        self.base + q <= low
    }

    /// Table entry of the position at index `i`.
    fn pack(&self, i: usize) -> (r: u32)
        requires
            self.base + i + 0x2_0000_0000 <= u64::MAX,
        ensures
            r == self.entry(i as int),
    {
        ((self.base + i as u64 + self.origin as u64 + 1) % 0x1_0000_0000) as u32
    }

    /// The candidate that an entry names, or `i` itself.
    fn resolve(&self, e: u32, i: usize) -> (r: usize)
        requires
            self.base + i + 0x2_0000_0000 <= u64::MAX,
        ensures
            r == self.cand(e, i as int),
            r <= i,
    {
        if e == EMPTY {
            return i;
        }
        let at: u64 = self.base + i as u64 + self.origin as u64 + 1;
        let d: u64 = (at % 0x1_0000_0000 + 0x1_0000_0000 - e as u64) % 0x1_0000_0000;
        proof {
            vstd::arithmetic::div_mod::lemma_sub_mod_noop(at as int, e as int, 0x1_0000_0000);
            vstd::arithmetic::div_mod::lemma_mod_add_multiples_vanish(at as int % 0x1_0000_0000 - e, 0x1_0000_0000);
            vstd::arithmetic::div_mod::lemma_sub_mod_noop(at as int % 0x1_0000_0000, e as int, 0x1_0000_0000);
        }
        if d <= i as u64 && d <= self.reach as u64 {
            i - d as usize
        } else {
            i
        }
    }

    /// First child slot of the position at index `i`.
    fn node_at(&self, i: usize) -> (r: usize)
        requires
            self.base + i <= u64::MAX,
            self.bt_log < 31,
        ensures
            r == self.node(i as int),
            r + 1 < 2 * self.ring(),
    {
        proof {
            lemma_slots_fit(self.bt_log);
        }
        let p: u64 = (self.base + i as u64) % pow2_u64(self.bt_log);
        2 * p as usize
    }

    /// Bucket of the position at index `i`.
    fn slot_at(&self, win: &[u8], i: usize) -> (r: usize)
        requires
            1 <= self.table_log < 32,
            i + HASH_READ <= win@.len(),
        ensures
            r == self.slot(win@, i as int),
            r < slots(self.table_log),
    {
        if self.mls == 3 {
            hash3_at(win, i, self.table_log)
        } else if self.mls == 4 {
            hash4_at(win, i, self.table_log)
        } else {
            hash5_at(win, i, self.table_log)
        }
    }

    /// Whether the slots of the position at `q` may have been reused.
    fn is_stale(&self, q: usize, i: usize) -> (r: bool)
        requires
            self.base + i <= u64::MAX,
            self.base + q <= u64::MAX,
            self.bt_log < 31,
        ensures
            r == self.stale(q as int, i as int),
    {
        let pos: u64 = self.base + i as u64;
        let ring: u64 = pow2_u64(self.bt_log);
        let low: u64 = if pos >= ring {
            pos - ring
        } else {
            0
        };
        self.base + q as u64 <= low
    }
}

/// A descent in progress.
#[verifier::ext_equal]
pub struct Walk {
    /// The ring.
    pub bt: Seq<u32>,
    /// Longest match so far.
    pub best: int,
    /// Furthest end of a source that improved on the longest match.
    pub end: int,
    /// The improving matches, shortest first.
    pub ms: Seq<Match>,
}

/// A ring with one slot set; `-1` names no slot.
pub open spec fn put(bt: Seq<u32>, at: int, e: u32) -> Seq<u32> {
    if 0 <= at < bt.len() {
        bt.update(at, e)
    } else {
        bt
    }
}

/// Ends a descent: the two open links lead nowhere.
pub open spec fn close(s: Walk, sm: int, lg: int) -> Walk {
    Walk { bt: put(put(s.bt, sm, EMPTY), lg, EMPTY), ..s }
}

/// The descent after comparing with the candidate at `q`, which shares `n` bytes
/// with the position at `i`.
pub open spec fn compared(i: int, q: int, n: int, s: Walk) -> Walk {
    if n > s.best {
        Walk {
            best: n,
            end: if q + n > s.end {
                q + n
            } else {
                s.end
            },
            ms: s.ms.push(Match { off: (i - q + 3) as u32, len: n as u32 }),
            ..s
        }
    } else {
        s
    }
}

/// Length of the match with the candidate at `q`, counted up to `limit`.
pub open spec fn limited_len(w: Seq<u8>, i: int, q: int, limit: int) -> int {
    let n = common_len(w, i, q);
    if n < limit - i {
        n
    } else {
        limit - i
    }
}

/// Threads the position at `i` into its tree, with at most `nb` compares: each
/// candidate becomes the child of the open link on its side, whose own child on
/// the other side is the next candidate. A candidate that agrees up to the limit
/// cannot be ordered and ends the descent, as does one whose slots may have been
/// reused.
pub open spec fn descend(
    c: TreeCfg,
    w: Seq<u8>,
    i: int,
    limit: int,
    q: int,
    nb: int,
    sm: int,
    lg: int,
    s: Walk,
) -> Walk
    decreases nb,
{
    if q >= i || nb <= 0 {
        close(s, sm, lg)
    } else {
        let n = limited_len(w, i, q, limit);
        let z = compared(i, q, n, s);
        if n > s.best && n > OPT_NUM || i + n >= limit {
            close(z, sm, lg)
        } else {
            let node = c.node(q);
            if w[q + n] < w[i + n] {
                let bt = put(z.bt, sm, c.entry(q));
                let y = Walk { bt, ..z };
                if c.stale(q, i) {
                    close(y, -1, lg)
                } else {
                    descend(c, w, i, limit, c.cand(bt[node + 1], i), nb - 1, node + 1, lg, y)
                }
            } else {
                let bt = put(z.bt, lg, c.entry(q));
                let y = Walk { bt, ..z };
                if c.stale(q, i) {
                    close(y, sm, -1)
                } else {
                    descend(c, w, i, limit, c.cand(bt[node], i), nb - 1, sm, node, y)
                }
            }
        }
    }
}

/// A match that a search may return at `i`: as long as the bytes agree, with a
/// source inside the window.
pub open spec fn true_match(w: Seq<u8>, i: int, rep: Reps, ll0: bool, m: Match) -> bool {
    let d = wire_offset(
        rep,
        m.off as int,
        if ll0 {
            0
        } else {
            1
        },
    );
    &&& m.off >= 1
    &&& 1 <= d <= i
    &&& i + m.len <= w.len()
    &&& bytes_agree(w, i, i - d, m.len as int)
}

/// Matches that a search may return at `i`: true ones, each longer than the one
/// before, the first longer than `least`.
pub open spec fn good_matches(w: Seq<u8>, i: int, rep: Reps, ll0: bool, least: int, ms: Seq<Match>) -> bool {
    &&& forall|k: int| 0 <= k < ms.len() ==> true_match(w, i, rep, ll0, #[trigger] ms[k])
    &&& forall|k: int| 0 <= k < ms.len() ==> (#[trigger] ms[k]).len > least
    &&& forall|j: int, k: int| 0 <= j < k < ms.len() ==> (#[trigger] ms[j]).len < (#[trigger] ms[k]).len
}

/// What a descent keeps: the size of the ring, the order of the matches and that
/// they are true, and a longest match that bounds them.
pub open spec fn walk_ok(w: Seq<u8>, i: int, rep: Reps, ll0: bool, least: int, s: Walk) -> bool {
    &&& good_matches(w, i, rep, ll0, least, s.ms)
    &&& s.best >= least
    &&& forall|k: int| 0 <= k < s.ms.len() ==> (#[trigger] s.ms[k]).len <= s.best
}

/// A compare keeps what a descent keeps.
pub proof fn lemma_compared(w: Seq<u8>, i: int, q: int, limit: int, rep: Reps, ll0: bool, least: int, s: Walk)
    requires
        walk_ok(w, i, rep, ll0, least, s),
        0 <= q < i,
        i <= limit <= w.len(),
        w.len() <= WIN_MAX,
    ensures
        walk_ok(w, i, rep, ll0, least, compared(i, q, limited_len(w, i, q, limit), s)),
        compared(i, q, limited_len(w, i, q, limit), s).end >= s.end,
        compared(i, q, limited_len(w, i, q, limit), s).end <= if s.end > w.len() {
            s.end
        } else {
            w.len() as int
        },
        compared(i, q, limited_len(w, i, q, limit), s).best <= if s.best > w.len() {
            s.best
        } else {
            w.len() as int
        },
{
    let n = limited_len(w, i, q, limit);
    lemma_common_len(w, i, q);
    if n > s.best {
        let m = Match { off: (i - q + 3) as u32, len: n as u32 };
        assert(true_match(w, i, rep, ll0, m));
    }
}

/// A descent keeps what a descent keeps, and the size of the ring.
pub proof fn lemma_descend(
    c: TreeCfg,
    w: Seq<u8>,
    i: int,
    limit: int,
    q: int,
    nb: int,
    sm: int,
    lg: int,
    s: Walk,
    rep: Reps,
    ll0: bool,
    least: int,
)
    requires
        walk_ok(w, i, rep, ll0, least, s),
        0 <= q <= i,
        i <= limit <= w.len(),
        w.len() <= WIN_MAX,
    ensures
        ({
            let z = descend(c, w, i, limit, q, nb, sm, lg, s);
            &&& walk_ok(w, i, rep, ll0, least, z)
            &&& z.bt.len() == s.bt.len()
            &&& s.end <= z.end
            &&& z.end <= if s.end > w.len() {
                s.end
            } else {
                w.len() as int
            }
            &&& z.best <= if s.best > w.len() {
                s.best
            } else {
                w.len() as int
            }
        }),
    decreases nb,
{
    if q >= i || nb <= 0 {
    } else {
        let n = limited_len(w, i, q, limit);
        let z = compared(i, q, n, s);
        lemma_compared(w, i, q, limit, rep, ll0, least, s);
        if n > s.best && n > OPT_NUM || i + n >= limit {
        } else {
            let node = c.node(q);
            if w[q + n] < w[i + n] {
                let bt = put(z.bt, sm, c.entry(q));
                let y = Walk { bt, ..z };
                if !c.stale(q, i) {
                    lemma_cand_range(c, bt[node + 1], i);
                    lemma_descend(c, w, i, limit, c.cand(bt[node + 1], i), nb - 1, node + 1, lg, y, rep, ll0, least);
                }
            } else {
                let bt = put(z.bt, lg, c.entry(q));
                let y = Walk { bt, ..z };
                if !c.stale(q, i) {
                    lemma_cand_range(c, bt[node], i);
                    lemma_descend(c, w, i, limit, c.cand(bt[node], i), nb - 1, sm, node, y, rep, ll0, least);
                }
            }
        }
    }
}

/// A candidate lies inside the window.
pub proof fn lemma_cand_range(c: TreeCfg, e: u32, i: int)
    requires
        i >= 0,
    ensures
        0 <= c.cand(e, i) <= i,
{
}

/// The tables after inserting the position at `i`, and how many positions the
/// fill may move on: past a long match its interior need not be indexed.
pub open spec fn inserted(c: TreeCfg, w: Seq<u8>, s: Tree, i: int) -> (Tree, int) {
    let h = c.slot(w, i);
    let limit = if w.len() < i + OPT_NUM {
        w.len() as int
    } else {
        i + OPT_NUM
    };
    let z = descend(
        c,
        w,
        i,
        limit,
        c.cand(s.t[h], i),
        c.insert_compares as int,
        c.node(i),
        c.node(i) + 1,
        Walk { bt: s.bt, best: 8, end: i + 9, ms: Seq::empty() },
    );
    let long = if z.best <= 384 {
        0
    } else if z.best - 384 < 192 {
        z.best - 384
    } else {
        192
    };
    let by_end = z.end - (i + 8);
    (
        Tree { t: s.t.update(h, c.entry(i)), bt: z.bt, ..s },
        if long > by_end {
            long
        } else {
            by_end
        },
    )
}

/// The tables after inserting the positions from `from` up to `to`.
pub open spec fn filled(c: TreeCfg, w: Seq<u8>, s: Tree, from: int, to: int) -> Tree
    decreases
        if to > from {
            to - from
        } else {
            0
        },
{
    if from < to {
        let z = inserted(c, w, s, from);
        if z.1 >= 1 {
            filled(c, w, z.0, from + z.1, to)
        } else {
            z.0
        }
    } else {
        s
    }
}

/// First index that a fill up to `to` still has to insert: what has been filled,
/// and what no search can reach any more, is left out.
pub open spec fn fill_start(c: TreeCfg, next: int, to: int) -> int {
    let a = if next > c.base {
        next - c.base
    } else {
        0
    };
    let b = to - c.reach;
    if a > b {
        a
    } else {
        b
    }
}

/// The tables with the tree filled up to `to`.
pub open spec fn updated(c: TreeCfg, w: Seq<u8>, s: Tree, to: int) -> Tree {
    Tree { next: c.base + to, ..filled(c, w, s, fill_start(c, s.next, to), to) }
}

/// Inserting keeps the sizes of the tables, and moves the fill on.
pub proof fn lemma_inserted(c: TreeCfg, w: Seq<u8>, s: Tree, i: int)
    requires
        c.fits(w, s),
        0 <= i,
        i + HASH_READ <= w.len(),
    ensures
        c.fits(w, inserted(c, w, s, i).0),
        inserted(c, w, s, i).0.next == s.next,
        inserted(c, w, s, i).0.next3 == s.next3,
        inserted(c, w, s, i).1 >= 1,
        inserted(c, w, s, i).1 <= w.len(),
{
    broadcast use {lemma_mul_hash32_range, lemma_mul_hash_range};

    let h = c.slot(w, i);
    let limit = if w.len() < i + OPT_NUM {
        w.len() as int
    } else {
        i + OPT_NUM
    };
    let rep = Reps { r0: 1, r1: 1, r2: 1 };
    let s0 = Walk { bt: s.bt, best: 8, end: i + 9, ms: Seq::empty() };
    lemma_cand_range(c, s.t[h], i);
    lemma_descend(
        c,
        w,
        i,
        limit,
        c.cand(s.t[h], i),
        c.insert_compares as int,
        c.node(i),
        c.node(i) + 1,
        s0,
        rep,
        false,
        0,
    );
}

/// Filling keeps the sizes of the tables.
pub proof fn lemma_filled(c: TreeCfg, w: Seq<u8>, s: Tree, from: int, to: int)
    requires
        c.fits(w, s),
        0 <= from,
        to + HASH_READ <= w.len() + 1,
    ensures
        c.fits(w, filled(c, w, s, from, to)),
        filled(c, w, s, from, to).next == s.next,
        filled(c, w, s, from, to).next3 == s.next3,
    decreases
        if to > from {
            to - from
        } else {
            0
        },
{
    if from < to {
        lemma_inserted(c, w, s, from);
        let z = inserted(c, w, s, from);
        lemma_filled(c, w, z.0, from + z.1, to);
    }
}

/// The three-byte table with the positions from `from` up to `to` inserted.
pub open spec fn filled3(c: TreeCfg, w: Seq<u8>, h3: Seq<u32>, from: int, to: int) -> Seq<u32>
    decreases to - from,
{
    if from < to {
        filled3(c, w, h3.update(hash3_slot(w, from, c.hash3_log), c.entry(from)), from + 1, to)
    } else {
        h3
    }
}

/// Filling keeps the size of the three-byte table.
pub proof fn lemma_filled3(c: TreeCfg, w: Seq<u8>, h3: Seq<u32>, from: int, to: int)
    requires
        1 <= c.hash3_log < 32,
        h3.len() == slots(c.hash3_log),
    ensures
        filled3(c, w, h3, from, to).len() == h3.len(),
    decreases to - from,
{
    broadcast use lemma_mul_hash32_range;

    if from < to {
        lemma_filled3(c, w, h3.update(hash3_slot(w, from, c.hash3_log), c.entry(from)), from + 1, to);
    }
}

/// The tables with the three-byte table filled up to `i`.
pub open spec fn updated3(c: TreeCfg, w: Seq<u8>, s: Tree, i: int) -> Tree {
    let from = if s.next3 > c.base {
        s.next3 - c.base
    } else {
        0
    };
    Tree { h3: filled3(c, w, s.h3, from, i), next3: c.base + i, ..s }
}

/// Matches by the repeated offsets from the `k`-th on, each longer than the one
/// before. The parts are the longest length, the matches, and whether the last
/// one is long enough to end the search.
pub open spec fn rep_matches(
    c: TreeCfg,
    w: Seq<u8>,
    i: int,
    rep: Reps,
    ll0: bool,
    k: int,
    best: int,
    ms: Seq<Match>,
) -> (int, Seq<Match>, bool)
    decreases 3 - k,
{
    if k >= 3 {
        (best, ms, false)
    } else {
        let d = wire_offset(
            rep,
            k + 1,
            if ll0 {
                0
            } else {
                1
            },
        );
        let n = common_len(w, i, i - d);
        if 1 <= d <= i && d <= c.reach && n > best {
            let m = ms.push(Match { off: (k + 1) as u32, len: n as u32 });
            if n > c.sufficient_len || i + n >= w.len() {
                (n, m, true)
            } else {
                rep_matches(c, w, i, rep, ll0, k + 1, n, m)
            }
        } else {
            rep_matches(c, w, i, rep, ll0, k + 1, best, ms)
        }
    }
}

/// A search in the tree, after matches up to the length `best`.
pub open spec fn tree_search(c: TreeCfg, w: Seq<u8>, s: Tree, i: int, best: int, ms: Seq<Match>) -> (
    Tree,
    Seq<Match>,
) {
    let h = c.slot(w, i);
    let z = descend(
        c,
        w,
        i,
        w.len() as int,
        c.cand(s.t[h], i),
        c.nb_compares as int,
        c.node(i),
        c.node(i) + 1,
        Walk { bt: s.bt, best, end: i + 9, ms },
    );
    (Tree { t: s.t.update(h, c.entry(i)), bt: z.bt, next: c.base + z.end - 8, ..s }, z.ms)
}

/// All matches at `i`, each longer than the one before: the repeated offsets
/// unless they are gated, then the newest position that shares three bytes where
/// such short matches count, then the tree. A match longer than the sufficient
/// length, or up to the end of the block, ends the search.
pub open spec fn searched(c: TreeCfg, w: Seq<u8>, s: Tree, i: int, rep: Reps, ll0: bool, gated: bool) -> (
    Tree,
    Seq<Match>,
) {
    let none = Seq::<Match>::empty();
    let r = if gated {
        (c.min_match - 1, none, false)
    } else {
        rep_matches(c, w, i, rep, ll0, 0, c.min_match - 1, none)
    };
    if r.2 {
        (s, r.1)
    } else if c.min_match == 3 && r.0 < 3 && s.h3.len() > 0 {
        let s3 = updated3(c, w, s, i);
        let q = c.cand(s3.h3[hash3_slot(w, i, c.hash3_log)], i);
        let n = common_len(w, i, q);
        if q < i && i - q < 0x4_0000 && n >= 3 {
            let m = r.1.push(Match { off: (i - q + 3) as u32, len: n as u32 });
            if n > c.sufficient_len || i + n >= w.len() {
                (Tree { next: c.base + i + 1, ..s3 }, m)
            } else {
                tree_search(c, w, s3, i, n, m)
            }
        } else {
            tree_search(c, w, s3, i, r.0, r.1)
        }
    } else {
        tree_search(c, w, s, i, r.0, r.1)
    }
}

/// Whether no match names a repeated offset.
pub open spec fn all_far(ms: Seq<Match>) -> bool {
    forall|k: int| 0 <= k < ms.len() ==> (#[trigger] ms[k]).off > 3
}

/// Repeated-offset matches are true and increasing.
pub proof fn lemma_rep_matches(
    c: TreeCfg,
    w: Seq<u8>,
    i: int,
    rep: Reps,
    ll0: bool,
    k: int,
    best: int,
    ms: Seq<Match>,
    least: int,
)
    requires
        0 <= k,
        0 <= i <= w.len(),
        w.len() <= WIN_MAX,
        walk_ok(w, i, rep, ll0, least, Walk { bt: Seq::empty(), best, end: 0, ms }),
    ensures
        ({
            let r = rep_matches(c, w, i, rep, ll0, k, best, ms);
            &&& walk_ok(w, i, rep, ll0, least, Walk { bt: Seq::empty(), best: r.0, end: 0, ms: r.1 })
            &&& r.0 <= if best > w.len() {
                best
            } else {
                w.len() as int
            }
        }),
    decreases 3 - k,
{
    if k < 3 {
        let d = wire_offset(
            rep,
            k + 1,
            if ll0 {
                0
            } else {
                1
            },
        );
        let n = common_len(w, i, i - d);
        lemma_common_len(w, i, i - d);
        if 1 <= d <= i && d <= c.reach && n > best {
            let m = Match { off: (k + 1) as u32, len: n as u32 };
            assert(true_match(w, i, rep, ll0, m));
            let s = Walk { bt: Seq::empty(), best: n, end: 0, ms: ms.push(m) };
            assert(walk_ok(w, i, rep, ll0, least, s));
            if n > c.sufficient_len || i + n >= w.len() {
            } else {
                lemma_rep_matches(c, w, i, rep, ll0, k + 1, n, ms.push(m), least);
            }
        } else {
            lemma_rep_matches(c, w, i, rep, ll0, k + 1, best, ms, least);
        }
    }
}

/// A descent adds only matches by literal offsets.
pub proof fn lemma_descend_far(
    c: TreeCfg,
    w: Seq<u8>,
    i: int,
    limit: int,
    q: int,
    nb: int,
    sm: int,
    lg: int,
    s: Walk,
)
    requires
        all_far(s.ms),
        0 <= q <= i <= WIN_MAX,
    ensures
        all_far(descend(c, w, i, limit, q, nb, sm, lg, s).ms),
    decreases nb,
{
    if q >= i || nb <= 0 {
    } else {
        let n = limited_len(w, i, q, limit);
        let z = compared(i, q, n, s);
        if n > s.best && n > OPT_NUM || i + n >= limit {
        } else {
            let node = c.node(q);
            if w[q + n] < w[i + n] {
                let bt = put(z.bt, sm, c.entry(q));
                if !c.stale(q, i) {
                    lemma_descend_far(c, w, i, limit, c.cand(bt[node + 1], i), nb - 1, node + 1, lg, Walk { bt, ..z });
                }
            } else {
                let bt = put(z.bt, lg, c.entry(q));
                if !c.stale(q, i) {
                    lemma_descend_far(c, w, i, limit, c.cand(bt[node], i), nb - 1, sm, node, Walk { bt, ..z });
                }
            }
        }
    }
}

/// A tree search keeps the tables' sizes and returns true matches.
pub proof fn lemma_tree_search(
    c: TreeCfg,
    w: Seq<u8>,
    s: Tree,
    i: int,
    best: int,
    ms: Seq<Match>,
    rep: Reps,
    ll0: bool,
    least: int,
)
    requires
        c.fits(w, s),
        0 <= i,
        i + HASH_READ <= w.len(),
        walk_ok(w, i, rep, ll0, least, Walk { bt: Seq::empty(), best, end: 0, ms }),
    ensures
        c.fits(w, tree_search(c, w, s, i, best, ms).0),
        good_matches(w, i, rep, ll0, least, tree_search(c, w, s, i, best, ms).1),
        all_far(ms) ==> all_far(tree_search(c, w, s, i, best, ms).1),
        tree_search(c, w, s, i, best, ms).0.next >= c.base + i + 1,
{
    broadcast use {lemma_mul_hash32_range, lemma_mul_hash_range};

    let h = c.slot(w, i);
    let s0 = Walk { bt: s.bt, best, end: i + 9, ms };
    lemma_cand_range(c, s.t[h], i);
    lemma_descend(
        c,
        w,
        i,
        w.len() as int,
        c.cand(s.t[h], i),
        c.nb_compares as int,
        c.node(i),
        c.node(i) + 1,
        s0,
        rep,
        ll0,
        least,
    );
    if all_far(ms) {
        lemma_descend_far(
            c,
            w,
            i,
            w.len() as int,
            c.cand(s.t[h], i),
            c.nb_compares as int,
            c.node(i),
            c.node(i) + 1,
            s0,
        );
    }
}

/// A search keeps the tables' sizes and returns true matches, each longer than
/// the one before and none shorter than the shortest allowed. A gated search
/// names no repeated offset.
pub proof fn lemma_searched(c: TreeCfg, w: Seq<u8>, s: Tree, i: int, rep: Reps, ll0: bool, gated: bool)
    requires
        c.fits(w, s),
        0 <= i,
        i + HASH_READ <= w.len(),
    ensures
        c.fits(w, searched(c, w, s, i, rep, ll0, gated).0),
        good_matches(w, i, rep, ll0, c.min_match - 1, searched(c, w, s, i, rep, ll0, gated).1),
        gated ==> all_far(searched(c, w, s, i, rep, ll0, gated).1),
{
    broadcast use lemma_mul_hash32_range;

    let none = Seq::<Match>::empty();
    let least = c.min_match - 1;
    assert(walk_ok(w, i, rep, ll0, least, Walk { bt: Seq::empty(), best: least, end: 0, ms: none }));
    if !gated {
        lemma_rep_matches(c, w, i, rep, ll0, 0, least, none, least);
    }
    let r = if gated {
        (least, none, false)
    } else {
        rep_matches(c, w, i, rep, ll0, 0, least, none)
    };
    if r.2 {
    } else if c.min_match == 3 && r.0 < 3 && s.h3.len() > 0 {
        let from = if s.next3 > c.base {
            s.next3 - c.base
        } else {
            0
        };
        lemma_filled3(c, w, s.h3, from, i);
        let s3 = updated3(c, w, s, i);
        let q = c.cand(s3.h3[hash3_slot(w, i, c.hash3_log)], i);
        lemma_cand_range(c, s3.h3[hash3_slot(w, i, c.hash3_log)], i);
        let n = common_len(w, i, q);
        lemma_common_len(w, i, q);
        if q < i && i - q < 0x4_0000 && n >= 3 {
            let m = Match { off: (i - q + 3) as u32, len: n as u32 };
            assert(true_match(w, i, rep, ll0, m));
            assert(walk_ok(w, i, rep, ll0, least, Walk { bt: Seq::empty(), best: n, end: 0, ms: r.1.push(m) }));
            if n > c.sufficient_len || i + n >= w.len() {
            } else {
                lemma_tree_search(c, w, s3, i, n, r.1.push(m), rep, ll0, least);
            }
        } else {
            lemma_tree_search(c, w, s3, i, r.0, r.1, rep, ll0, least);
        }
    } else {
        lemma_tree_search(c, w, s, i, r.0, r.1, rep, ll0, least);
    }
}

/// Tables of the search, with how far they have been filled.
pub struct OptTree {
    pub table: Vec<u32>,
    pub bt: Vec<u32>,
    pub hash3: Vec<u32>,
    pub next_update: u64,
    pub next_update3: u64,
}

impl View for OptTree {
    type V = Tree;

    open spec fn view(&self) -> Tree {
        Tree {
            t: self.table@,
            bt: self.bt@,
            h3: self.hash3@,
            next: self.next_update as int,
            next3: self.next_update3 as int,
        }
    }
}

/// A child slot, or none.
pub open spec fn link(at: Option<usize>) -> int {
    match at {
        Some(k) => k as int,
        None => -1,
    }
}

/// Sets a child slot, if there is one.
fn set_link(bt: &mut Vec<u32>, at: Option<usize>, e: u32)
    ensures
        final(bt)@ == put(old(bt)@, link(at), e),
{
    if let Some(k) = at {
        if k < bt.len() {
            bt.set(k, e);
        }
    }
}

/// Threads the position at `i` into its tree and gathers the matches that
/// improve on `best`. Returns the longest length and the furthest end of a
/// source.
fn thread_position(
    c: &TreeCfg,
    win: &[u8],
    bt: &mut Vec<u32>,
    i: usize,
    limit: usize,
    head: usize,
    compares: usize,
    best: usize,
    ms: &mut Vec<Match>,
    Ghost(sm0): Ghost<int>,
) -> (r: (usize, usize))
    requires
        c.bt_log < 31,
        old(bt)@.len() == 2 * c.ring(),
        head <= i <= limit <= win@.len(),
        win@.len() <= WIN_MAX,
        i + HASH_READ <= win@.len(),
        c.base + win@.len() + 0x2_0000_0000 <= u64::MAX,
        best <= WIN_MAX,
        sm0 == c.node(i as int),
    ensures
        ({
            let z = descend(
                *c,
                win@,
                i as int,
                limit as int,
                head as int,
                compares as int,
                sm0,
                sm0 + 1,
                Walk { bt: old(bt)@, best: best as int, end: i + 9, ms: old(ms)@ },
            );
            &&& final(bt)@ == z.bt
            &&& final(ms)@ == z.ms
            &&& r.0 == z.best
            &&& r.1 == z.end
        }),
        i + 9 <= r.1 <= win@.len() + 9,
{
    assert(win@.len() == win.len());
    let own: usize = c.node_at(i);
    let mut sm: Option<usize> = Some(own);
    let mut lg: Option<usize> = Some(own + 1);
    let mut q: usize = head;
    let mut nb: usize = compares;
    let mut longest: usize = best;
    let mut end: usize = i + 9;
    let ghost s0 = Walk { bt: bt@, best: best as int, end: i + 9, ms: ms@ };
    let ghost all = descend(*c, win@, i as int, limit as int, head as int, compares as int, sm0, sm0 + 1, s0);
    while q < i && nb > 0
        invariant_except_break
            all == descend(
                *c,
                win@,
                i as int,
                limit as int,
                q as int,
                nb as int,
                link(sm),
                link(lg),
                Walk { bt: bt@, best: longest as int, end: end as int, ms: ms@ },
            ),
        invariant
            c.bt_log < 31,
            bt@.len() == 2 * c.ring(),
            q <= i <= limit <= win@.len(),
            win@.len() <= WIN_MAX,
            i + HASH_READ <= win@.len(),
            c.base + win@.len() + 0x2_0000_0000 <= u64::MAX,
            longest <= WIN_MAX,
            i + 9 <= end <= win@.len() + 9,
        ensures
            all == close(
                Walk { bt: bt@, best: longest as int, end: end as int, ms: ms@ },
                link(sm),
                link(lg),
            ),
        decreases nb,
    {
        let ghost s = Walk { bt: bt@, best: longest as int, end: end as int, ms: ms@ };
        let mut n: usize = extend_match(win, i, q);
        if n >= limit - i {
            n = limit - i;
        }
        proof {
            lemma_common_len(win@, i as int, q as int);
            assert(n == limited_len(win@, i as int, q as int, limit as int));
        }
        let better: bool = n > longest;
        if better {
            longest = n;
            if q + n > end {
                end = q + n;
            }
            ms.push(Match { off: (i - q + 3) as u32, len: n as u32 });
        }
        let ghost z = compared(i as int, q as int, n as int, s);
        assert(z =~= (Walk { bt: bt@, best: longest as int, end: end as int, ms: ms@ }));
        if (better && n > OPT_NUM) || i + n >= limit {
            break;
        }
        let node: usize = c.node_at(q);
        nb = nb - 1;
        if win[q + n] < win[i + n] {
            set_link(bt, sm, c.pack(q));
            if c.is_stale(q, i) {
                sm = None;
                break;
            }
            sm = Some(node + 1);
            q = c.resolve(bt[node + 1], i);
        } else {
            set_link(bt, lg, c.pack(q));
            if c.is_stale(q, i) {
                lg = None;
                break;
            }
            lg = Some(node);
            q = c.resolve(bt[node], i);
        }
    }
    set_link(bt, sm, EMPTY);
    set_link(bt, lg, EMPTY);
    (longest, end)
}

impl OptTree {
    /// Inserts the position at `idx` and returns how many positions the fill may
    /// move on.
    pub fn insert_bt1(&mut self, c: &TreeCfg, win: &[u8], idx: usize) -> (r: usize)
        requires
            c.fits(win@, old(self)@),
            idx + HASH_READ <= win@.len(),
        ensures
            final(self)@ == inserted(*c, win@, old(self)@, idx as int).0,
            r == inserted(*c, win@, old(self)@, idx as int).1,
    {
        proof {
            lemma_inserted(*c, win@, self@, idx as int);
            lemma_slots_fit(c.table_log);
        }
        assert(win@.len() == win.len());
        assert(self.table@.len() == self.table.len());
        let h: usize = c.slot_at(win, idx);
        let q: usize = c.resolve(self.table[h], idx);
        let limit: usize = if win.len() - idx < OPT_NUM {
            win.len()
        } else {
            idx + OPT_NUM
        };
        self.table.set(h, c.pack(idx));
        let mut ms: Vec<Match> = Vec::new();
        let (best, end): (usize, usize) = thread_position(
            c,
            win,
            &mut self.bt,
            idx,
            limit,
            q,
            c.insert_compares,
            8,
            &mut ms,
            Ghost(c.node(idx as int)),
        );
        let long: usize = if best <= 384 {
            0
        } else if best - 384 < 192 {
            best - 384
        } else {
            192
        };
        let by_end: usize = end - (idx + 8);
        if long > by_end {
            long
        } else {
            by_end
        }
    }

    /// Fills the tree up to the position at `target`.
    pub fn update_tree(&mut self, c: &TreeCfg, win: &[u8], target: usize)
        requires
            c.fits(win@, old(self)@),
            target + HASH_READ <= win@.len(),
        ensures
            final(self)@ == updated(*c, win@, old(self)@, target as int),
            c.fits(win@, final(self)@),
    {
        assert(win@.len() == win.len());
        let to: u64 = c.base + target as u64;
        let mut from: u64 = if self.next_update > c.base {
            self.next_update - c.base
        } else {
            0
        };
        if target > c.reach && (target - c.reach) as u64 > from {
            from = (target - c.reach) as u64;
        }
        if from < target as u64 {
            let ghost s0 = self@;
            let ghost from0 = from as int;
            let mut idx: usize = from as usize;
            while idx < target
                invariant
                    c.fits(win@, self@),
                    target + HASH_READ <= win@.len(),
                    win@.len() <= WIN_MAX,
                    filled(*c, win@, self@, idx as int, target as int) == filled(*c, win@, s0, from0, target as int),
                    idx <= 2 * WIN_MAX,
                decreases
                    if target > idx {
                        target - idx
                    } else {
                        0
                    },
            {
                proof {
                    lemma_inserted(*c, win@, self@, idx as int);
                }
                let forward: usize = self.insert_bt1(c, win, idx);
                idx = idx + forward;
            }
        }
        self.next_update = to;
    }

    /// Fills the three-byte table up to the position at `idx` and returns the
    /// newest candidate that shares its hash, or `idx` itself.
    fn find_hash3(&mut self, c: &TreeCfg, win: &[u8], idx: usize) -> (q: usize)
        requires
            c.fits(win@, old(self)@),
            old(self).hash3@.len() > 0,
            idx + HASH_READ <= win@.len(),
        ensures
            final(self)@ == updated3(*c, win@, old(self)@, idx as int),
            q == c.cand(final(self)@.h3[hash3_slot(win@, idx as int, c.hash3_log)], idx as int),
            c.fits(win@, final(self)@),
            q <= idx,
    {
        assert(win@.len() == win.len());
        proof {
            lemma_slots_fit(c.hash3_log);
        }
        let from: u64 = if self.next_update3 > c.base {
            self.next_update3 - c.base
        } else {
            0
        };
        let ghost s0 = self@;
        let ghost from0 = from as int;
        if from < idx as u64 {
            let mut p: usize = from as usize;
            while p < idx
                invariant
                    c.fits(win@, self@),
                    c.hash3_log >= 1,
                    idx + HASH_READ <= win@.len(),
                    p <= idx,
                    self@ == (Tree { h3: self.hash3@, ..s0 }),
                    filled3(*c, win@, self.hash3@, p as int, idx as int) == filled3(
                        *c,
                        win@,
                        s0.h3,
                        from0,
                        idx as int,
                    ),
                decreases idx - p,
            {
                proof {
                    lemma_slots_fit(c.hash3_log);
                }
                let h: usize = hash3_at(win, p, c.hash3_log);
                assert(self.hash3@.len() == self.hash3.len());
                self.hash3.set(h, c.pack(p));
                p = p + 1;
            }
        }
        self.next_update3 = c.base + idx as u64;
        let h: usize = hash3_at(win, idx, c.hash3_log);
        assert(self.hash3@.len() == self.hash3.len());
        c.resolve(self.hash3[h], idx)
    }

    /// Searches the tree for matches at `idx` that improve on `best`.
    fn search_tree(&mut self, c: &TreeCfg, win: &[u8], ms: &mut Vec<Match>, idx: usize, best: usize)
        requires
            c.fits(win@, old(self)@),
            idx + HASH_READ <= win@.len(),
            best <= WIN_MAX,
        ensures
            (final(self)@, final(ms)@) == tree_search(
                *c,
                win@,
                old(self)@,
                idx as int,
                best as int,
                old(ms)@,
            ),
    {
        proof {
            lemma_slots_fit(c.table_log);
            let rep = Reps { r0: 1, r1: 1, r2: 1 };
            let s0 = Walk { bt: self.bt@, best: best as int, end: idx + 9, ms: Seq::empty() };
            assert(walk_ok(win@, idx as int, rep, false, 0, s0));
        }
        assert(win@.len() == win.len());
        assert(self.table@.len() == self.table.len());
        let h: usize = c.slot_at(win, idx);
        let q: usize = c.resolve(self.table[h], idx);
        self.table.set(h, c.pack(idx));
        let (_, end): (usize, usize) = thread_position(
            c,
            win,
            &mut self.bt,
            idx,
            win.len(),
            q,
            c.nb_compares,
            best,
            ms,
            Ghost(c.node(idx as int)),
        );
        self.next_update = c.base + (end - 8) as u64;
    }

    /// Gathers all matches at `idx`, each longer than the one before.
    pub fn get_all_matches(
        &mut self,
        c: &TreeCfg,
        win: &[u8],
        ms: &mut Vec<Match>,
        idx: usize,
        rep: &Reps,
        ll0: bool,
        rep_gated: bool,
    )
        requires
            c.fits(win@, old(self)@),
            idx + HASH_READ <= win@.len(),
        ensures
            (final(self)@, final(ms)@) == searched(
                *c,
                win@,
                old(self)@,
                idx as int,
                *rep,
                ll0,
                rep_gated,
            ),
            c.fits(win@, final(self)@),
            good_matches(win@, idx as int, *rep, ll0, c.min_match - 1, final(ms)@),
            rep_gated ==> all_far(final(ms)@),
    {
        assert(win@.len() == win.len());
        proof {
            lemma_searched(*c, win@, self@, idx as int, *rep, ll0, rep_gated);
        }
        let ghost s0 = self@;
        ms.clear();
        let ghost none = Seq::<Match>::empty();
        assert(ms@ =~= none);
        let mut best: usize = c.min_match - 1;
        if !rep_gated {
            let ghost all = rep_matches(*c, win@, idx as int, *rep, ll0, 0, c.min_match - 1, none);
            let mut k: u32 = 0;
            while k < 3
                invariant
                    k <= 3,
                    idx + HASH_READ <= win@.len(),
                    win@.len() <= WIN_MAX,
                    best <= WIN_MAX,
                    self@ == s0,
                    c.fits(win@, s0),
                    !rep_gated,
                    all == rep_matches(*c, win@, idx as int, *rep, ll0, 0, c.min_match - 1, none),
                    none == Seq::<Match>::empty(),
                    all == rep_matches(*c, win@, idx as int, *rep, ll0, k as int, best as int, ms@),
                    good_matches(
                        win@,
                        idx as int,
                        *rep,
                        ll0,
                        c.min_match - 1,
                        searched(*c, win@, s0, idx as int, *rep, ll0, rep_gated).1,
                    ),
                decreases 3 - k,
            {
                let d: u32 = if ll0 {
                    if k == 0 {
                        rep.r1
                    } else if k == 1 {
                        rep.r2
                    } else if rep.r0 > 0 {
                        rep.r0 - 1
                    } else {
                        0
                    }
                } else {
                    if k == 0 {
                        rep.r0
                    } else if k == 1 {
                        rep.r1
                    } else {
                        rep.r2
                    }
                };
                if d >= 1 && d as usize <= idx && d as usize <= c.reach {
                    let n: usize = extend_match(win, idx, idx - d as usize);
                    if n > best {
                        ms.push(Match { off: k + 1, len: n as u32 });
                        best = n;
                        if n > c.sufficient_len || idx + n >= win.len() {
                            return;
                        }
                    }
                }
                k = k + 1;
            }
        }
        if c.min_match == 3 && best < 3 && self.hash3.len() > 0 {
            let q: usize = self.find_hash3(c, win, idx);
            if q < idx && idx - q < 0x4_0000 {
                let n: usize = extend_match(win, idx, q);
                if n >= 3 {
                    ms.push(Match { off: (idx - q + 3) as u32, len: n as u32 });
                    best = n;
                    if n > c.sufficient_len || idx + n >= win.len() {
                        self.next_update = c.base + idx as u64 + 1;
                        return;
                    }
                }
            }
        }
        self.search_tree(c, win, ms, idx, best);
    }
}

} // verus!
