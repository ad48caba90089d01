//! What the tree search promises: positions that share their first bytes meet, and
//! the matches it returns hold those of the repeated offsets and of the newest
//! position of the bucket, or something longer.

use vstd::prelude::*;
use crate::hash::{bytes_agree, common_len, le4, le8, lemma_common_len, lemma_le4_eq, lemma_le8_eq};
use crate::opt_tree::{compared, descend, hash3_slot, limited_len, rep_matches, searched, tree_search, updated3, Match, Tree, TreeCfg, Walk};
use crate::sequence::{wire_offset, Reps};

verus! {

/// Length of the longest match that a search returned.
pub open spec fn longest(ms: Seq<Match>) -> int {
    if ms.len() == 0 {
        0
    } else {
        ms.last().len as int
    }
}

/// Positions whose first three, four or five bytes agree share their slot under
/// the hash of so many bytes.
pub proof fn lemma_same_bytes_same_bucket(c: TreeCfg, w: Seq<u8>, i: int, j: int)
    requires
        c.mls == 3 || c.mls == 4 || c.mls == 5,
        bytes_agree(w, i, j, c.mls as int),
    ensures
        c.slot(w, i) == c.slot(w, j),
        bytes_agree(w, i, j, 3) ==> hash3_slot(w, i, c.hash3_log) == hash3_slot(w, j, c.hash3_log),
{
    lemma_le4_eq(w, i, j);
    lemma_le4_eq(w, j, i);
    lemma_le8_eq(w, i, j);
    lemma_le8_eq(w, j, i);
    assert(w[i + 0] == w[j + 0] && w[i + 1] == w[j + 1] && w[i + 2] == w[j + 2]);
    assert((le4(w, i) * 256) % 0x1_0000_0000 == 256 * (w[i] + 0x100 * w[i + 1] + 0x1_0000 * w[i + 2]));
    assert((le4(w, j) * 256) % 0x1_0000_0000 == 256 * (w[j] + 0x100 * w[j + 1] + 0x1_0000 * w[j + 2]));
    if c.mls >= 4 {
        assert(w[i + 3] == w[j + 3]);
    }
    if c.mls == 5 {
        assert(w[i + 4] == w[j + 4]);
        lemma_low_five(w, i);
        lemma_low_five(w, j);
    }
}

proof fn lemma_low_five(w: Seq<u8>, i: int)
    ensures
        le8(w, i) % 0x100_0000_0000 == le4(w, i) + 0x1_0000_0000 * w[i + 4],
{
    lemma_le4_eq(w, i, i);
    assert(le4(w, i + 4) == w[i + 4] + 0x100 * (w[i + 5] + 0x100 * w[i + 6] + 0x1_0000 * w[i + 7]));
}

/// The entry of a position names it from any later one within reach, unless it is
/// the one per cycle that packs to the empty entry.
pub proof fn lemma_entry_names_position(c: TreeCfg, j: int, i: int)
    requires
        0 <= j < i,
        i - j <= c.reach,
        i - j < 0x1_0000_0000,
        c.entry(j) != 0,
    ensures
        c.cand(c.entry(j), i) == j,
{
    let e = c.entry(j) as int;
    let x = c.base + j + c.origin + 1;
    assert(e == x % 0x1_0000_0000);
    let y = c.base + i + c.origin + 1;
    assert((y - e) % 0x1_0000_0000 == i - j) by {
        let q = x / 0x1_0000_0000;
        vstd::arithmetic::div_mod::lemma_fundamental_div_mod(x, 0x1_0000_0000);
        assert(y - e == 0x1_0000_0000 * q + (i - j));
        vstd::arithmetic::div_mod::lemma_mod_multiples_vanish(q, i - j, 0x1_0000_0000);
        vstd::arithmetic::div_mod::lemma_small_mod((i - j) as nat, 0x1_0000_0000);
    }
}

/// A descent never loses its longest match.
proof fn lemma_descend_keeps(c: TreeCfg, w: Seq<u8>, i: int, limit: int, q: int, nb: int, sm: int, lg: int, s: Walk)
    requires
        longest(s.ms) <= s.best,
        i <= limit <= w.len(),
        limit - i <= u32::MAX,
    ensures
        ({
            let z = descend(c, w, i, limit, q, nb, sm, lg, s);
            &&& longest(z.ms) >= longest(s.ms)
            &&& q < i && nb >= 1 && limited_len(w, i, q, limit) > s.best ==> longest(z.ms) >= limited_len(w, i, q, limit)
        }),
    decreases nb,
{
    if q < i && nb > 0 {
        let n = limited_len(w, i, q, limit);
        lemma_common_len(w, i, q);
        let z = compared(i, q, n, s);
        assert(longest(z.ms) <= z.best);
        assert(longest(z.ms) >= longest(s.ms));
        if !(n > s.best && n > 4096 || i + n >= limit) {
            let node = c.node(q);
            if w[q + n] < w[i + n] {
                let bt = crate::opt_tree::put(z.bt, sm, c.entry(q));
                let y = Walk { bt, ..z };
                if !c.stale(q, i) {
                    lemma_descend_keeps(c, w, i, limit, c.cand(bt[node + 1], i), nb - 1, node + 1, lg, y);
                }
            } else {
                let bt = crate::opt_tree::put(z.bt, lg, c.entry(q));
                let y = Walk { bt, ..z };
                if !c.stale(q, i) {
                    lemma_descend_keeps(c, w, i, limit, c.cand(bt[node], i), nb - 1, sm, node, y);
                }
            }
        }
    }
}

/// A search in the tree returns the match with the newest position of its bucket,
/// if that is longer than what was found before, or a longer one.
pub proof fn lemma_tree_finds_newest(c: TreeCfg, w: Seq<u8>, s: Tree, i: int, best: int, ms: Seq<Match>, j: int)
    requires
        longest(ms) <= best,
        0 <= j < i <= w.len(),
        w.len() <= u32::MAX,
        c.nb_compares >= 1,
        c.cand(s.t[c.slot(w, i)], i) == j,
    ensures
        longest(tree_search(c, w, s, i, best, ms).1) >= longest(ms),
        common_len(w, i, j) > best ==> longest(tree_search(c, w, s, i, best, ms).1) >= common_len(w, i, j),
{
    lemma_common_len(w, i, j);
    lemma_descend_keeps(
        c,
        w,
        i,
        w.len() as int,
        j,
        c.nb_compares as int,
        c.node(i),
        c.node(i) + 1,
        Walk { bt: s.bt, best, end: i + 9, ms },
    );
}

proof fn lemma_tree_keeps(c: TreeCfg, w: Seq<u8>, s: Tree, i: int, best: int, ms: Seq<Match>)
    requires
        longest(ms) <= best,
        0 <= i <= w.len(),
        w.len() <= u32::MAX,
    ensures
        longest(tree_search(c, w, s, i, best, ms).1) >= longest(ms),
{
    lemma_descend_keeps(
        c,
        w,
        i,
        w.len() as int,
        c.cand(s.t[c.slot(w, i)], i),
        c.nb_compares as int,
        c.node(i),
        c.node(i) + 1,
        Walk { bt: s.bt, best, end: i + 9, ms },
    );
}

proof fn lemma_reps_found(c: TreeCfg, w: Seq<u8>, i: int, rep: Reps, ll0: bool, k: int, best: int, ms: Seq<Match>, r: int)
    requires
        0 <= k,
        0 <= i <= w.len(),
        w.len() <= u32::MAX,
        longest(ms) <= best,
        ms.len() > 0 ==> longest(ms) == best,
    ensures
        ({
            let z = rep_matches(c, w, i, rep, ll0, k, best, ms);
            let d = wire_offset(
                rep,
                r + 1,
                if ll0 {
                    0
                } else {
                    1
                },
            );
            let n = common_len(w, i, i - d);
            &&& z.0 >= best
            &&& z.1.len() >= ms.len()
            &&& longest(z.1) <= z.0
            &&& z.1.len() > 0 ==> longest(z.1) == z.0
            &&& z.2 ==> z.0 > c.sufficient_len || i + z.0 >= w.len()
            &&& z.2 ==> z.1.len() > 0
            &&& k <= r < 3 && 1 <= d <= i && d <= c.reach && n > best ==> z.1.len() > 0 && (longest(z.1) >= n || z.2)
        }),
    decreases 3 - k,
{
    if k < 3 {
        let d = wire_offset(
            rep,
            k + 1,
            if ll0 {
                0
            } else {
                1
            },
        );
        let n = common_len(w, i, i - d);
        lemma_common_len(w, i, i - d);
        if 1 <= d <= i && d <= c.reach && n > best {
            let m = ms.push(Match { off: (k + 1) as u32, len: n as u32 });
            if !(n > c.sufficient_len || i + n >= w.len()) {
                lemma_reps_found(c, w, i, rep, ll0, k + 1, n, m, r);
            }
        } else {
            lemma_reps_found(c, w, i, rep, ll0, k + 1, best, ms, r);
        }
    }
}

/// A search whose repeated offsets may be named returns a match as long as that of
/// any of them within reach, or one that is sufficient or reaches the end.
pub proof fn lemma_search_tries_repeats(c: TreeCfg, w: Seq<u8>, s: Tree, i: int, rep: Reps, ll0: bool, r: int)
    requires
        0 <= r < 3,
        0 <= i <= w.len(),
        w.len() <= u32::MAX,
        3 <= c.min_match <= 4,
        ({
            let d = wire_offset(
                rep,
                r + 1,
                if ll0 {
                    0
                } else {
                    1
                },
            );
            1 <= d <= i && d <= c.reach && common_len(w, i, i - d) >= c.min_match
        }),
    ensures
        ({
            let d = wire_offset(
                rep,
                r + 1,
                if ll0 {
                    0
                } else {
                    1
                },
            );
            let far = longest(searched(c, w, s, i, rep, ll0, false).1);
            far >= common_len(w, i, i - d) || far > c.sufficient_len || i + far >= w.len()
        }),
{
    let none = Seq::<Match>::empty();
    lemma_reps_found(c, w, i, rep, ll0, 0, c.min_match - 1, none, r);
    let z = rep_matches(c, w, i, rep, ll0, 0, c.min_match - 1, none);
    if !z.2 {
        lemma_tree_keeps(c, w, s, i, z.0, z.1);
        lemma_tree_keeps(c, w, updated3(c, w, s, i), i, z.0, z.1);
    }
}

} // verus!
