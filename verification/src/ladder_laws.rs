//! What the ladder of levels promises: its rows in numbers, that effort only grows
//! along each search, and that a row is cut down to what its input needs and no
//! further.

use vstd::prelude::*;
use vstd::arithmetic::power2::{lemma2_to64, lemma_pow2_unfold, pow2};
use crate::bits::{lemma_log2_bracket, lemma_pow2_monotone};
use crate::level::{InputShape, Level};
use crate::params::{adjusted_log, bit_len, lemma_shaped, shaped, LevelParams, Strategy};

verus! {

/// Nothing is known of the input.
pub open spec fn unshaped() -> InputShape {
    InputShape { len: None, window_log: None }
}

/// Rung of a level: levels below the first run on it, levels past the last on
/// that.
pub open spec fn step_of(level: Level) -> int {
    if level.number() < 1 {
        1
    } else if level.number() > 22 {
        22
    } else {
        level.number()
    }
}

/// Farthest distance that a level searches.
pub open spec fn search_domain(p: LevelParams) -> int {
    match p.chain_reach {
        Some(r) => r as int,
        None => p.window as int,
    }
}

/// Windows and search domains of the levels, in kilobytes, and the logs of their
/// main tables.
pub proof fn lemma_ladder_in_numbers(level: Level)
    ensures
        ({
            let p = shaped(level, unshaped());
            let i = step_of(level) - 1;
            let windows = seq![768int, 1024, 2048, 2048, 2048, 2048, 2048, 2048, 65536, 4096, 4096, 4096, 65536, 65536, 65536, 65536, 65536, 65536, 65536, 16384, 32768, 65536];
            let domains = seq![768int, 1024, 2048, 2048, 2048, 2048, 2048, 2048, 4096, 4096, 4096, 4096, 4096, 4096, 4096, 4096, 8192, 8192, 8192, 16384, 32768, 65536];
            let logs = seq![15int, 16, 17, 18, 19, 19, 20, 20, 21, 22, 22, 23, 22, 23, 23, 22, 22, 22, 22, 22, 22, 22];
            &&& p.window == 1024 * windows[i]
            &&& search_domain(p) == 1024 * domains[i]
            &&& p.hash_log == logs[i]
            &&& !p.small_src
        }),
{
}

/// Which search a level runs, how deep it looks, how far it defers and how short
/// a match it takes.
pub proof fn lemma_ladder_searches(level: Level)
    ensures
        ({
            let p = shaped(level, unshaped());
            let n = step_of(level);
            &&& n <= 2 ==> p.strategy == Strategy::Fast
            &&& n == 3 ==> p.strategy == Strategy::Dfast(16)
            &&& n == 4 ==> p.strategy == Strategy::Dfast(18)
            &&& n <= 4 ==> p.lazy_depth == 0 && p.min_match == 4
            &&& 5 <= n <= 8 ==> p.strategy == Strategy::Row(4)
            &&& n == 9 ==> p.strategy == Strategy::Chain(20)
            &&& n == 10 ==> p.strategy == Strategy::Row(5)
            &&& 11 <= n <= 12 ==> p.strategy == Strategy::Row(6)
            &&& 5 <= n <= 12 ==> p.min_match == 5
            &&& 5 <= n <= 12 ==> p.search_depth == seq![8int, 8, 16, 16, 8, 32, 64, 64][n - 5]
            &&& 5 <= n <= 12 ==> p.lazy_depth == seq![0int, 1, 1, 2, 2, 2, 2, 2][n - 5]
            &&& p.dubt_head == (n == 9)
            &&& p.ldm == (n <= 4 || n == 9 || 13 <= n <= 19)
        }),
{
}

/// Knobs of the tree rows.
pub proof fn lemma_ladder_trees(level: Level)
    ensures
        ({
            let p = shaped(level, unshaped());
            let n = step_of(level);
            &&& 13 <= n <= 15 <==> p.strategy is BtLazy
            &&& n >= 16 <==> p.strategy is Opt
            &&& p.strategy matches Strategy::BtLazy(k) ==> {
                &&& k.search_log == n - 9 && k.insert_log == k.search_log
                &&& k.bt_log == seq![22int, 22, 23][n - 13]
                &&& k.sufficient_len == 32 && k.min_match == 4 && k.mls == 5 && k.hash3_log == 0 && !k.ultra
            }
            &&& p.strategy matches Strategy::Opt(k) ==> {
                &&& k.search_log == seq![5int, 5, 6, 7, 7, 7, 8][n - 16] && k.insert_log == k.search_log
                &&& k.sufficient_len == seq![48int, 64, 64, 256, 256, 512, 999][n - 16]
                &&& k.bt_log == seq![22int, 22, 23, 23, 23, 24, 24][n - 16]
                &&& k.ultra == (n >= 18)
                &&& k.mls == k.min_match && p.min_match == k.min_match
                &&& k.min_match == if n >= 18 {
                    3int
                } else {
                    4
                }
                &&& k.hash3_log == if n >= 18 {
                    17int
                } else {
                    0
                }
            }
        }),
{
}

/// Along the optimal rows nothing shrinks from one level to the next: not the
/// search domain, nor the search, nor the length that ends it, nor the tree; and
/// matches only get shorter.
pub proof fn lemma_optimal_rows_grow(a: Level, b: Level)
    requires
        16 <= a.number() <= b.number(),
    ensures
        ({
            let (p, q) = (shaped(a, unshaped()), shaped(b, unshaped()));
            &&& search_domain(p) <= search_domain(q)
            &&& search_domain(p) <= p.window
            &&& p.strategy matches Strategy::Opt(j) && q.strategy matches Strategy::Opt(k) && {
                &&& j.search_log <= k.search_log
                &&& j.sufficient_len <= k.sufficient_len
                &&& j.bt_log <= k.bt_log
                &&& j.min_match >= k.min_match
                &&& j.ultra ==> k.ultra
            }
        }),
{
}

/// Along the levels below nine, and along the rows of candidates and the deferred
/// trees, windows, tables, depths and deferral only grow.
pub proof fn lemma_rows_grow(a: Level, b: Level)
    requires
        a.number() <= b.number(),
        b.number() <= 8 || 5 <= a.number() <= b.number() <= 12 && a.number() != 9 && b.number() != 9 || 13 <= a.number()
            <= b.number() <= 15,
    ensures
        ({
            let (p, q) = (shaped(a, unshaped()), shaped(b, unshaped()));
            &&& p.window <= q.window
            &&& search_domain(p) <= search_domain(q)
            &&& p.hash_log <= q.hash_log
            &&& p.lazy_depth <= q.lazy_depth
            &&& p.strategy is Row && q.strategy is Row ==> p.search_depth <= q.search_depth
            &&& p.strategy matches Strategy::BtLazy(j) ==> (q.strategy matches Strategy::BtLazy(k) ==> j.search_log
                <= k.search_log && j.bt_log <= k.bt_log)
        }),
{
}

/// The exponent of the smallest power of two that is no less than a number.
proof fn lemma_bit_len(v: int)
    requires
        v >= 2,
    ensures
        bit_len(v - 1) >= 1,
        pow2(bit_len(v - 1) as nat) >= v,
        pow2(bit_len(v - 1) as nat) < 2 * v,
{
    lemma_log2_bracket(v - 1);
    lemma_pow2_unfold(bit_len(v - 1) as nat);
}

/// The window of a row for a known input is the smallest power of two that holds
/// the input, or the row's whole window if that is less, and a kilobyte at least.
proof fn lemma_adjusted_window(window: int, n: int)
    requires
        0x400 <= window <= 0x800_0000,
        1 <= n <= u64::MAX,
    ensures
        ({
            let k = adjusted_log(window, n);
            let need = if n < window {
                n
            } else {
                window
            };
            &&& 10 <= k <= 27
            &&& pow2(k as nat) >= need
            &&& pow2(k as nat) >= 1024
            &&& pow2(k as nat) > 1024 ==> pow2(k as nat) < 2 * need
        }),
{
    lemma2_to64();
    let t = if n < 64 {
        64
    } else {
        n
    };
    lemma_bit_len(t);
    lemma_bit_len(window);
    let (a, b) = (bit_len(window - 1) as nat, bit_len(t - 1) as nat);
    let k = adjusted_log(window, n) as nat;
    if a < 10 {
        lemma_pow2_monotone(a, 9);
    }
    if a > 27 {
        lemma_pow2_monotone(28, a);
    }
    if b < 10 {
        lemma_pow2_monotone(b, 10);
    }
    lemma_pow2_monotone(10, k);
    lemma_pow2_monotone(k, a);
    if k > 10 {
        lemma_pow2_monotone(11, k);
        lemma_pow2_monotone(k, b);
    } else if k < a {
        lemma_pow2_monotone(b, 10);
    }
}

/// A known length changes a row only by cutting it down. The window becomes the
/// smallest power of two that holds the input or what the window was, and a
/// kilobyte at least; the search domain is cut to the window, and the tables to
/// its log or one more.
pub proof fn lemma_row_fits_input(level: Level, n: u64, window_log: Option<u32>, k: nat)
    requires
        n > 0,
        level != Level::Uncompressed,
        n > 131072 || level.number() != 9 && level.number() != 10,
        shaped(level, InputShape { len: Some(n), window_log }).window == pow2(k),
    ensures
        ({
            let row = shaped(level, InputShape { len: None, window_log });
            let p = shaped(level, InputShape { len: Some(n), window_log });
            let cut = |a: int, b: int| if a < b {
                a
            } else {
                b
            };
            let need = cut(n as int, row.window as int);
            &&& 10 <= k <= 27
            &&& p.window >= need
            &&& p.window > 1024 ==> p.window < 2 * need
            &&& row.chain_reach is None ==> p.chain_reach is None
            &&& row.chain_reach matches Some(r) ==> p.chain_reach matches Some(s) && s == cut(r as int, p.window as int)
            &&& p.hash_log == cut(row.hash_log as int, k as int + 1)
            &&& row.strategy is Fast ==> p.strategy is Fast
            &&& row.strategy matches Strategy::Dfast(s) ==> (p.strategy matches Strategy::Dfast(t) && t == cut(s as int, k as int + 1))
            &&& row.strategy matches Strategy::Chain(s) ==> (p.strategy matches Strategy::Chain(t) && t == cut(s as int, k as int))
            &&& row.strategy is Row ==> p.strategy == row.strategy
            &&& row.strategy matches Strategy::Opt(a) ==> (p.strategy matches Strategy::Opt(b) && b.bt_log == cut(a.bt_log as int, k as int)
                && b.hash3_log == cut(a.hash3_log as int, k as int) && b.search_log == a.search_log && b.sufficient_len
                == a.sufficient_len && b.min_match == a.min_match && b.ultra == a.ultra)
            &&& p.search_depth == row.search_depth && p.lazy_depth == row.lazy_depth
            &&& p.small_src == (n <= 131072)
            &&& p.min_match == if n <= 131072 && row.strategy is Row {
                4
            } else {
                row.min_match
            }
        }),
{
    lemma_shaped(level, InputShape { len: Some(n), window_log });
    lemma_shaped(level, InputShape { len: None, window_log });
    let row = shaped(level, InputShape { len: None, window_log });
    let p = shaped(level, InputShape { len: Some(n), window_log });
    lemma_adjusted_window(row.window as int, n as int);
    let wlog = adjusted_log(row.window as int, n as int) as nat;
    lemma2_to64();
    lemma_pow2_monotone(wlog, 27);
    assert(p.window == pow2(wlog));
    if k < wlog {
        vstd::arithmetic::power2::lemma_pow2_strictly_increases(k, wlog);
    }
    if wlog < k {
        vstd::arithmetic::power2::lemma_pow2_strictly_increases(wlog, k);
    }
}

/// A small input on the ninth or tenth level runs the deferred tree over a window
/// that holds it all.
pub proof fn lemma_small_inputs_take_the_tree(level: Level, n: u64, window_log: Option<u32>)
    requires
        0 < n <= 131072,
        level.number() == 9 || level.number() == 10,
    ensures
        ({
            let p = shaped(level, InputShape { len: Some(n), window_log });
            &&& p.strategy is BtLazy
            &&& p.small_src
            &&& n <= p.window <= 131072
            &&& p.window > 1024 ==> p.window < 2 * n
            &&& search_domain(p) == p.window
        }),
{
    lemma_adjusted_window(0x2_0000, n as int);
    lemma2_to64();
    let wlog = adjusted_log(0x2_0000, n as int) as nat;
    if wlog > 17 {
        lemma_pow2_monotone(18, wlog);
    }
    lemma_pow2_monotone(wlog, 27);
}

/// A forced window is the power of two of its log, from a kilobyte to 128
/// megabytes, and leaves everything else of a row as it is.
pub proof fn lemma_forced_window_is_declared(level: Level, log: u32)
    ensures
        ({
            let p = shaped(level, InputShape { len: None, window_log: Some(log) });
            let row = shaped(level, unshaped());
            &&& 10 <= log <= 27 ==> p.window == pow2(log as nat)
            &&& log < 10 ==> p.window == 1024
            &&& log > 27 ==> p.window == 134217728
            &&& p == (LevelParams { window: p.window, ..row })
        }),
{
    lemma2_to64();
    if 10 <= log <= 27 {
        lemma_pow2_monotone(log as nat, 27);
    }
}

} // verus!
