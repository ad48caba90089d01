//! Tagged rows: a head table cut into rows of sixteen to sixty-four entries,
//! each entry a tag of the hash and the low bits of a position, with a cycling
//! insertion head per row.

use vstd::prelude::*;
use vstd::arithmetic::power2::{lemma2_to64, lemma_pow2_adds, pow2};
use crate::gates::RampGate;
use crate::hash::{common_len, extend_match, hash_word, le8, lemma_le8_eq, lemma_mul_hash_range, mul_hash, read8, slot_count, slots, ChainHashWidth, HASH_PRIME, HASH_READ, MIN_MATCH};
use crate::tables::{insert_limit, WIN_MAX};

verus! {

/// How positions enter the rows, and how rows are searched.
#[derive(Clone, Copy, PartialEq, Eq, Structural, Debug)]
pub struct RowCfg {
    /// Absolute position of the window's first byte.
    pub base: u64,
    /// Log of the whole table.
    pub log: u32,
    /// Log of a row.
    pub row_log: u32,
    /// Input width of the hash.
    pub width: ChainHashWidth,
    /// Most candidates tried.
    pub attempts: usize,
    /// Farthest distance of a candidate.
    pub reach: usize,
    /// Job-start ramp.
    pub ramp: RampGate,
}

/// The entries of all rows, with the slot of each row's newest entry.
#[verifier::ext_equal]
pub struct Rows {
    pub t: Seq<u32>,
    pub hd: Seq<u8>,
}

impl RowCfg {
    /// The configuration fits a window and its rows.
    pub open spec fn fits(self, w: Seq<u8>, r: Rows) -> bool {
        &&& 4 <= self.row_log <= 6
        &&& self.row_log <= self.log < 32
        &&& self.log - self.row_log <= 24
        &&& w.len() <= WIN_MAX
        &&& self.base + w.len() < u64::MAX
        &&& r.t.len() == slots(self.log)
        &&& r.hd.len() == slots((self.log - self.row_log) as u32)
    }

    /// Entries per row.
    pub open spec fn row_len(self) -> int {
        slots(self.row_log)
    }

    /// Hash of the position at `i`: the row above the low byte, the tag in it.
    pub open spec fn hash(self, w: Seq<u8>, i: int) -> int {
        mul_hash(
            (le8(w, i) as u64) & self.width.mask_bits(),
            HASH_PRIME,
            (self.log - self.row_log + 8) as u32,
        )
    }
}

/// Entry of an absolute position under a hash: the tag on top, the low 24 bits
/// of the position, biased by one, below.
pub open spec fn row_entry_of(hash: int, abs: int) -> u32 {
    (hash % 0x100 * 0x100_0000 + (abs + 1) % 0x100_0000) as u32
}

/// The rows with `i` inserted under the hash at `at`: the slot before the newest
/// takes it.
pub open spec fn row_put(c: RowCfg, w: Seq<u8>, r: Rows, at: int, i: int) -> Rows {
    let h = c.hash(w, at);
    let row = h / 0x100;
    let slot = (r.hd[row] + 255) % c.row_len();
    Rows {
        t: r.t.update(row * c.row_len() + slot, row_entry_of(h, c.base + i)),
        hd: r.hd.update(row, slot as u8),
    }
}

/// The rows with the positions `from` up to `to` inserted in this order.
pub open spec fn row_put_range(c: RowCfg, w: Seq<u8>, r: Rows, from: int, to: int, step: int) -> Rows
    decreases
        if to > from {
            to - from
        } else {
            0
        },
{
    if from < to && step > 0 {
        row_put_range(c, w, row_put(c, w, r, from, from), from + step, to, step)
    } else {
        r
    }
}

/// The rows after the fill of a match of `ml` bytes at `start`: every position
/// of a match up to 384 bytes, the first 96 and the last 32 of a longer one, as
/// far as they can be hashed.
pub open spec fn row_covered(c: RowCfg, w: Seq<u8>, r: Rows, start: int, ml: int) -> Rows {
    let limit = insert_limit(w);
    let end = if start + ml < limit {
        start + ml
    } else {
        limit
    };
    if end - start > 384 {
        row_put_range(c, w, row_put_range(c, w, r, start, start + 96, 1), end - 32, end, 1)
    } else {
        row_put_range(c, w, r, start, end, 1)
    }
}

/// Distance of an entry from the position at `i`, in the 24 bits it holds.
pub open spec fn row_dist(c: RowCfg, i: int, e: u32) -> int {
    (c.base + i + 1 - e) % 0x100_0000
}

/// Whether an entry is a candidate for the position at `i` with the hash `h`: it
/// has been written, its tag agrees, and it is within reach.
pub open spec fn row_candidate(c: RowCfg, i: int, h: int, e: u32) -> bool {
    let d = row_dist(c, i, e);
    &&& e as int / 0x100_0000 == h % 0x100
    &&& e as int % 0x100_0000 != 0
    &&& 1 <= d <= i
    &&& d <= c.reach
}

/// Length and source of the longest match in a row, from age `age` on, with
/// `left` candidates still to be tried and `best` the longest so far. Newer
/// entries come first; a match that reaches the window's end ends the search.
pub open spec fn row_walk(
    c: RowCfg,
    w: Seq<u8>,
    r: Rows,
    i: int,
    h: int,
    age: int,
    left: int,
    best: (int, int),
) -> (int, int)
    decreases c.row_len() - age,
{
    let row = h / 0x100;
    if age < c.row_len() && left > 0 {
        let e = r.t[row * c.row_len() + (r.hd[row] + age) % c.row_len()];
        if row_candidate(c, i, h, e) {
            let q = i - row_dist(c, i, e);
            let n = common_len(w, i, q);
            let better = !c.ramp.shallow(c.base + q) && n >= MIN_MATCH && n > best.0;
            if better && i + n >= w.len() {
                (n, q)
            } else {
                row_walk(
                    c,
                    w,
                    r,
                    i,
                    h,
                    age + 1,
                    left - 1,
                    if better {
                        (n, q)
                    } else {
                        best
                    },
                )
            }
        } else {
            row_walk(c, w, r, i, h, age + 1, left, best)
        }
    } else {
        best
    }
}

/// The longest match in the row of the position at `i`.
pub open spec fn row_best(c: RowCfg, w: Seq<u8>, r: Rows, i: int) -> (int, int) {
    row_walk(c, w, r, i, c.hash(w, i), 0, c.attempts as int, (0, 0))
}

/// A search's result is nothing, or the whole match with a legal earlier source
/// within reach.
pub open spec fn row_result(c: RowCfg, w: Seq<u8>, i: int, b: (int, int)) -> bool {
    b.0 == 0 || {
        &&& b.0 >= MIN_MATCH
        &&& 0 <= b.1 < i
        &&& i - b.1 <= c.reach
        &&& b.0 == common_len(w, i, b.1)
        &&& !c.ramp.shallow(c.base + b.1)
    }
}

/// What a search finds is a whole match within reach.
pub proof fn lemma_row_walk(c: RowCfg, w: Seq<u8>, r: Rows, i: int, h: int, age: int, left: int, best: (int, int))
    requires
        row_result(c, w, i, best),
    ensures
        row_result(c, w, i, row_walk(c, w, r, i, h, age, left, best)),
    decreases c.row_len() - age,
{
    let row = h / 0x100;
    if age < c.row_len() && left > 0 {
        let e = r.t[row * c.row_len() + (r.hd[row] + age) % c.row_len()];
        if row_candidate(c, i, h, e) {
            let q = i - row_dist(c, i, e);
            let n = common_len(w, i, q);
            let better = !c.ramp.shallow(c.base + q) && n >= MIN_MATCH && n > best.0;
            if !(better && i + n >= w.len()) {
                lemma_row_walk(
                    c,
                    w,
                    r,
                    i,
                    h,
                    age + 1,
                    left - 1,
                    if better {
                        (n, q)
                    } else {
                        best
                    },
                );
            }
        } else {
            lemma_row_walk(c, w, r, i, h, age + 1, left, best);
        }
    }
}

/// A hash names a row of the table and a tag; each of its slots is inside the
/// table.
pub proof fn lemma_row_index(c: RowCfg, w: Seq<u8>, r: Rows, i: int)
    requires
        c.fits(w, r),
    ensures
        0 <= c.hash(w, i) < 0x1_0000_0000,
        0 <= c.hash(w, i) / 0x100 < r.hd.len(),
        16 <= c.row_len() <= 64,
        forall|k: int|
            0 <= k < c.row_len() ==> 0 <= #[trigger] (c.hash(w, i) / 0x100 * c.row_len() + k) < r.t.len(),
{
    broadcast use lemma_mul_hash_range;

    let rows = (c.log - c.row_log) as nat;
    lemma2_to64();
    lemma_pow2_adds(rows, 8);
    lemma_pow2_adds(rows, c.row_log as nat);
    crate::bits::lemma_pow2_monotone(4, c.row_log as nat);
    crate::bits::lemma_pow2_monotone(c.row_log as nat, 6);
    crate::bits::lemma_pow2_monotone((rows + 8) as nat, 32);
    let h = c.hash(w, i);
    let row = h / 0x100;
    assert(h < pow2(rows) * 256);
    assert(row < pow2(rows));
    let n = c.row_len();
    assert forall|k: int| 0 <= k < n implies 0 <= #[trigger] (row * n + k) < r.t.len() by {
        assert(0 <= row * n + k < pow2(rows) * n) by (nonlinear_arith)
            requires
                0 <= row < pow2(rows),
                0 <= k < n,
        ;
    }
}

/// Inserting keeps the sizes of the rows.
pub proof fn lemma_row_put(c: RowCfg, w: Seq<u8>, r: Rows, at: int, i: int)
    requires
        c.fits(w, r),
    ensures
        c.fits(w, row_put(c, w, r, at, i)),
{
    lemma_row_index(c, w, r, at);
    let row = c.hash(w, at) / 0x100;
    let slot = (r.hd[row] + 255) % c.row_len();
    assert(0 <= row * c.row_len() + slot < r.t.len());
}

/// Inserting a range keeps the sizes of the rows.
pub proof fn lemma_row_put_range(c: RowCfg, w: Seq<u8>, r: Rows, from: int, to: int, step: int)
    requires
        c.fits(w, r),
    ensures
        c.fits(w, row_put_range(c, w, r, from, to, step)),
    decreases
        if to > from {
            to - from
        } else {
            0
        },
{
    if from < to && step > 0 {
        lemma_row_put(c, w, r, from, from);
        lemma_row_put_range(c, w, row_put(c, w, r, from, from), from + step, to, step);
    }
}

/// The fill keeps the sizes of the rows.
pub proof fn lemma_row_covered(c: RowCfg, w: Seq<u8>, r: Rows, start: int, ml: int)
    requires
        c.fits(w, r),
    ensures
        c.fits(w, row_covered(c, w, r, start, ml)),
{
    let limit = insert_limit(w);
    let end = if start + ml < limit {
        start + ml
    } else {
        limit
    };
    lemma_row_put_range(c, w, r, start, end, 1);
    lemma_row_put_range(c, w, r, start, start + 96, 1);
    lemma_row_put_range(c, w, row_put_range(c, w, r, start, start + 96, 1), end - 32, end, 1);
}

/// Hash of the position at `idx`.
pub fn row_hash_at(c: &RowCfg, win: &[u8], idx: usize) -> (h: u64)
    requires
        4 <= c.row_log <= 6,
        c.row_log <= c.log < 32,
        idx + HASH_READ <= win@.len(),
    ensures
        h == c.hash(win@, idx as int),
{
    proof {
        lemma_le8_eq(win@, idx as int, idx as int);
    }
    hash_word(read8(win, idx) & c.width.mask(), HASH_PRIME, c.log - c.row_log + 8)
}

/// Entry of an absolute position under a hash.
pub fn row_entry(hash: u64, abs: u64) -> (r: u32)
    requires
        abs < u64::MAX,
    ensures
        r == row_entry_of(hash as int, abs as int),
{
    (hash % 0x100 * 0x100_0000 + (abs + 1) % 0x100_0000) as u32
}

/// Inserts `idx` into the row of the hash at `at`.
pub fn row_insert(c: &RowCfg, win: &[u8], table: &mut Vec<u32>, heads: &mut Vec<u8>, at: usize, idx: usize)
    requires
        c.fits(win@, Rows { t: old(table)@, hd: old(heads)@ }),
        at + HASH_READ <= win@.len(),
        idx <= win@.len(),
    ensures
        (Rows { t: final(table)@, hd: final(heads)@ }) == row_put(
            *c,
            win@,
            Rows { t: old(table)@, hd: old(heads)@ },
            at as int,
            idx as int,
        ),
        c.fits(win@, Rows { t: final(table)@, hd: final(heads)@ }),
{
    let ghost r = Rows { t: table@, hd: heads@ };
    proof {
        lemma_row_index(*c, win@, r, at as int);
        lemma_row_put(*c, win@, r, at as int, idx as int);
    }
    assert(table@.len() == table.len());
    assert(heads@.len() == heads.len());
    let h: u64 = row_hash_at(c, win, at);
    let row: usize = (h / 0x100) as usize;
    let n: usize = slot_count(c.row_log);
    let slot: usize = (heads[row] as usize + 255) % n;
    assert(0 <= row * n + slot < table@.len());
    assert(row * n >= 0) by (nonlinear_arith);
    heads.set(row, slot as u8);
    table.set(row * n + slot, row_entry(h, c.base + idx as u64));
}

/// Inserts the positions `from`, `from + step`, ... below `to`.
pub fn row_insert_fill(c: &RowCfg, win: &[u8], table: &mut Vec<u32>, heads: &mut Vec<u8>, from: usize, to: usize, step: usize)
    requires
        c.fits(win@, Rows { t: old(table)@, hd: old(heads)@ }),
        to > from ==> to + HASH_READ <= win@.len() + 1,
        1 <= step <= 4,
    ensures
        (Rows { t: final(table)@, hd: final(heads)@ }) == row_put_range(
            *c,
            win@,
            Rows { t: old(table)@, hd: old(heads)@ },
            from as int,
            to as int,
            step as int,
        ),
        c.fits(win@, Rows { t: final(table)@, hd: final(heads)@ }),
{
    let ghost r0 = Rows { t: table@, hd: heads@ };
    let mut p: usize = from;
    while p < to
        invariant
            c.fits(win@, Rows { t: table@, hd: heads@ }),
            p < to ==> to + HASH_READ <= win@.len() + 1,
            1 <= step <= 4,
            row_put_range(*c, win@, Rows { t: table@, hd: heads@ }, p as int, to as int, step as int)
                == row_put_range(*c, win@, r0, from as int, to as int, step as int),
        decreases to + 4 - p,
    {
        row_insert(c, win, table, heads, p, p);
        p = p + step;
    }
}

/// Inserts what a match covers.
pub fn row_insert_covered(c: &RowCfg, win: &[u8], table: &mut Vec<u32>, heads: &mut Vec<u8>, start: usize, ml: usize)
    requires
        c.fits(win@, Rows { t: old(table)@, hd: old(heads)@ }),
        start + ml <= win@.len(),
    ensures
        (Rows { t: final(table)@, hd: final(heads)@ }) == row_covered(
            *c,
            win@,
            Rows { t: old(table)@, hd: old(heads)@ },
            start as int,
            ml as int,
        ),
        c.fits(win@, Rows { t: final(table)@, hd: final(heads)@ }),
{
    assert(win@.len() == win.len());
    let limit: usize = if win.len() >= HASH_READ {
        win.len() - HASH_READ
    } else {
        0
    };
    let end: usize = if start + ml < limit {
        start + ml
    } else {
        limit
    };
    if end > start && end - start > 384 {
        row_insert_fill(c, win, table, heads, start, start + 96, 1);
        row_insert_fill(c, win, table, heads, end - 32, end, 1);
    } else {
        row_insert_fill(c, win, table, heads, start, end, 1);
    }
}

/// Searches the row of the position at `idx` and returns length and source of
/// the longest match.
#[verifier::rlimit(30)]
pub fn row_search(c: &RowCfg, win: &[u8], table: &Vec<u32>, heads: &Vec<u8>, idx: usize) -> (r: (usize, usize))
    requires
        c.fits(win@, Rows { t: table@, hd: heads@ }),
        idx + HASH_READ <= win@.len(),
    ensures
        ({
            let b = row_best(*c, win@, Rows { t: table@, hd: heads@ }, idx as int);
            r.0 == b.0 && r.1 == b.1 && row_result(*c, win@, idx as int, b)
        }),
{
    let ghost rows = Rows { t: table@, hd: heads@ };
    let ghost all = row_best(*c, win@, rows, idx as int);
    let ghost hh = c.hash(win@, idx as int);
    proof {
        lemma_row_index(*c, win@, rows, idx as int);
        lemma_row_walk(*c, win@, rows, idx as int, hh, 0, c.attempts as int, (0, 0));
    }
    let h: u64 = row_hash_at(c, win, idx);
    let row: usize = (h / 0x100) as usize;
    let tag: u32 = (h % 0x100) as u32;
    let n: usize = slot_count(c.row_log);
    let at: u64 = (c.base + idx as u64 + 1) % 0x100_0000;
    assert(table@.len() == table.len());
    assert(heads@.len() == heads.len());
    let head: usize = heads[row] as usize;
    let mut best_len: usize = 0;
    let mut best_cand: usize = 0;
    let mut left: usize = c.attempts;
    let mut age: usize = 0;
    assert(0 <= hh / 0x100 * c.row_len() + 0 < table@.len());
    while age < n && left > 0
        invariant
            c.fits(win@, rows),
            rows == (Rows { t: table@, hd: heads@ }),
            table@.len() == table.len(),
            idx + HASH_READ <= win@.len(),
            hh == c.hash(win@, idx as int),
            hh == h,
            row == h / 0x100,
            tag == h % 0x100,
            n == c.row_len(),
            16 <= n <= 64,
            head == heads@[row as int],
            at == (c.base + idx + 1) % 0x100_0000,
            age <= n,
            best_len == 0 || MIN_MATCH <= best_len < win@.len() - idx,
            row_result(*c, win@, idx as int, all),
            all == row_best(*c, win@, rows, idx as int),
            all == row_walk(
                *c,
                win@,
                rows,
                idx as int,
                hh,
                age as int,
                left as int,
                (best_len as int, best_cand as int),
            ),
        decreases n - age,
    {
        proof {
            lemma_row_index(*c, win@, rows, idx as int);
        }
        let slot: usize = (head + age) % n;
        assert(0 <= row * n + slot < table@.len());
        assert(row * n >= 0) by (nonlinear_arith);
        let e: u32 = table[row * n + slot];
        age = age + 1;
        if e / 0x100_0000 != tag || e % 0x100_0000 == 0 {
            continue;
        }
        let low: u64 = (e % 0x100_0000) as u64;
        let d: u64 = if at >= low {
            at - low
        } else {
            at + 0x100_0000 - low
        };
        proof {
            lemma_row_dist(c.base + idx + 1, e as int);
        }
        if d == 0 || d > idx as u64 || d > c.reach as u64 {
            continue;
        }
        let q: usize = idx - d as usize;
        left = left - 1;
        if !c.ramp.blocks(c.base + q as u64) {
            let ml: usize = extend_match(win, idx, q);
            if ml > best_len && ml >= MIN_MATCH {
                best_len = ml;
                best_cand = q;
                if ml >= win.len() - idx {
                    return (ml, q);
                }
            }
        }
    }
    (best_len, best_cand)
}

/// A difference modulo 24 bits, computed from the residues.
proof fn lemma_row_dist(a: int, e: int)
    requires
        0 <= a,
        0 <= e,
    ensures
        ({
            let m = 0x100_0000int;
            let x = a % m;
            let y = e % m;
            (a - e) % m == if x >= y {
                x - y
            } else {
                x + m - y
            }
        }),
{
    let m = 0x100_0000int;
    vstd::arithmetic::div_mod::lemma_fundamental_div_mod(a, m);
    vstd::arithmetic::div_mod::lemma_fundamental_div_mod(e, m);
    let x = a % m;
    let y = e % m;
    if x >= y {
        vstd::arithmetic::div_mod::lemma_fundamental_div_mod_converse(a - e, m, a / m - e / m, x - y);
    } else {
        vstd::arithmetic::div_mod::lemma_fundamental_div_mod_converse(
            a - e,
            m,
            a / m - e / m - 1,
            x + m - y,
        );
    }
}

} // verus!
