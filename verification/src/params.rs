//! Search parameters of every level, and how they follow what is known of the
//! input.

use vstd::prelude::*;
use vstd::arithmetic::power2::{lemma2_to64, pow2};
use crate::bits::{ilog2, lemma_log2_bracket, lemma_pow2_monotone, log2_floor, pow2_u64};
use crate::level::{InputShape, Level};
use crate::parse_opt::OptKnobs;

verus! {

/// Log of the fastest row's table.
pub const HASH_LOG: u32 = 15;

/// Window of the fastest row.
pub const MAX_WINDOW: usize = 0xc0000;

/// Chain reach of the row whose reach is probed.
pub const KEEP_REACH: usize = 0x40_0000;

/// Chain reach of a frame that the probe found to be near-local.
pub const SHRINK_REACH: usize = 0x1000;

/// Longest declared length that small-input policies apply to.
pub const SMALL_SRC_MAX: u64 = 131072;

/// Bytes at a frame's start that the cold-start head covers.
pub const HEAD_LIMIT: u64 = 1179648;

/// Shortest declared frame with a cold-start head.
pub const HEAD_MIN_TOTAL: u64 = 4194304;

/// Fewest distinct bytes for a cold-start head.
pub const HEAD_SYMS_MIN: u32 = 48;

/// Bytes at a frame's start that the tree rows probe densely.
pub const BT_DENSE_LIMIT: u64 = 524288;

/// Blocks without a long-distance win before the generation is shut off.
pub const LDM_QUIET: u8 = 16;

/// Blocks between two trial generations while shut off.
pub const LDM_CANARY: u8 = 8;

/// Smallest window with long-distance matching over a whole frame.
pub const LDM_MIDSIZE_WINDOW: usize = 0x200_0000;

/// Smallest window with long-distance matching in a job of its own.
pub const LDM_FULL_WINDOW: usize = 0x400_0000;

/// Fewest distinct bytes, of those sampled, for long-distance matching.
pub const LDM_SYMS_MIN: u32 = 128;

/// Which search runs.
#[derive(Clone, Copy, PartialEq, Eq, Structural, Debug)]
pub enum Strategy {
    /// One table of five-byte hashes.
    Fast,
    /// A table of eight-byte hashes and one of short hashes, with the short
    /// table's log.
    Dfast(u32),
    /// A head table with a chain of the given log.
    Chain(u32),
    /// Rows of the given log.
    Row(u32),
    /// The optimal parse over a search tree.
    Opt(OptKnobs),
    /// Deferred selection over a search tree.
    BtLazy(OptKnobs),
}

/// Search parameters.
#[derive(Clone, Copy, Debug)]
pub struct LevelParams {
    pub hash_log: u32,
    /// Window, as declared in the frame header.
    pub window: usize,
    pub strategy: Strategy,
    /// Candidates tried at a position.
    pub search_depth: u32,
    /// How far selection defers.
    pub lazy_depth: u32,
    /// Shortest match that is stored.
    pub min_match: u32,
    /// The first bytes of a frame belong to the tree parse.
    pub dubt_head: bool,
    /// Long-distance matching may be armed.
    pub ldm: bool,
    /// Search domain, where it is not the window.
    pub chain_reach: Option<usize>,
    /// The input is known to be small.
    pub small_src: bool,
}

impl LevelParams {
    /// Least length of a match that the row stores by a literal offset.
    pub open spec fn bar(self) -> int {
        match self.strategy {
            Strategy::Chain(_) | Strategy::Row(_) => self.min_match as int,
            Strategy::Opt(k) => k.min_match as int,
            _ => 3,
        }
    }

    /// Farthest distance that the search covers.
    pub open spec fn reach_of(self) -> usize {
        match self.chain_reach {
            Some(r) => r,
            None => self.window,
        }
    }

    /// Farthest distance that the search covers.
    pub fn reach(&self) -> (r: usize)
        ensures
            r == self.reach_of(),
    {
        match self.chain_reach {
            Some(r) => r,
            None => self.window,
        }
    }

    /// Parameters that tables can be sized for.
    pub open spec fn wf(self) -> bool {
        &&& 0x400 <= self.window <= 0x800_0000
        &&& 11 <= self.hash_log <= 23
        &&& self.lazy_depth <= 2
        &&& 1 <= self.min_match <= 8
        &&& self.search_depth <= 0x8000
        &&& self.chain_reach matches Some(r) ==> 0x400 <= r <= 0x800_0000
        &&& match self.strategy {
            Strategy::Fast => true,
            Strategy::Dfast(s) => 10 <= s <= 19,
            Strategy::Chain(c) => 10 <= c <= 20,
            Strategy::Row(r) => 4 <= r <= 6,
            Strategy::Opt(k) => k.wf() && 10 <= k.bt_log <= 24 && k.hash3_log <= 17,
            Strategy::BtLazy(k) => k.wf() && 10 <= k.bt_log <= 24,
        }
    }
}

/// A row with one table. Its window is widened for long-distance matching where
/// that is worth it.
pub open spec fn fast_row(hash_log: u32, window: usize) -> LevelParams {
    LevelParams {
        hash_log,
        window,
        strategy: Strategy::Fast,
        search_depth: 1,
        lazy_depth: 0,
        min_match: 4,
        dubt_head: false,
        ldm: true,
        chain_reach: None,
        small_src: false,
    }
}

/// A row with a table for long and one for short hashes.
pub open spec fn dfast_row(hash_log: u32, small_log: u32, window: usize) -> LevelParams {
    LevelParams {
        strategy: Strategy::Dfast(small_log),
        search_depth: 0,
        ..fast_row(hash_log, window)
    }
}

/// A row with rows of candidates.
pub open spec fn rows_row(hash_log: u32, row_log: u32, window: usize, depth: u32, lazy: u32) -> LevelParams {
    LevelParams {
        strategy: Strategy::Row(row_log),
        search_depth: depth,
        lazy_depth: lazy,
        min_match: 5,
        ldm: false,
        ..fast_row(hash_log, window)
    }
}

/// The row with chains: a wide window whose far distances are left to
/// long-distance candidates.
pub open spec fn chain_row() -> LevelParams {
    LevelParams {
        strategy: Strategy::Chain(20),
        search_depth: 8,
        lazy_depth: 2,
        min_match: 5,
        dubt_head: true,
        ldm: true,
        chain_reach: Some(0x40_0000),
        ..fast_row(21, 0x400_0000)
    }
}

/// Parameters of the deferred tree search.
pub open spec fn bt_knobs(search_log: u32, bt_log: u32) -> OptKnobs {
    OptKnobs {
        search_log,
        insert_log: search_log,
        sufficient_len: 32,
        min_match: 4,
        mls: 5,
        bt_log,
        hash3_log: 0,
        ultra: false,
    }
}

/// A row with deferred selection over a search tree.
pub open spec fn btlazy_row(hash_log: u32, window: usize, k: OptKnobs) -> LevelParams {
    LevelParams {
        strategy: Strategy::BtLazy(k),
        search_depth: 0,
        lazy_depth: 2,
        min_match: k.mls,
        ldm: false,
        ..fast_row(hash_log, window)
    }
}

/// Parameters of the optimal parse.
pub open spec fn opt_knobs(search_log: u32, sufficient_len: u32, min_match: u32, bt_log: u32, ultra: bool) -> OptKnobs {
    OptKnobs {
        search_log,
        insert_log: search_log,
        sufficient_len,
        min_match,
        mls: min_match,
        bt_log,
        hash3_log: if min_match == 3 {
            17
        } else {
            0
        },
        ultra,
    }
}

/// A row with the optimal parse.
pub open spec fn opt_row(hash_log: u32, window: usize, k: OptKnobs) -> LevelParams {
    LevelParams {
        strategy: Strategy::Opt(k),
        search_depth: 0,
        min_match: k.min_match,
        ldm: false,
        ..fast_row(hash_log, window)
    }
}

/// A row whose window is wider than its search domain, with long-distance
/// matching for what lies between.
pub open spec fn far(p: LevelParams, reach: usize) -> LevelParams {
    LevelParams { ldm: true, chain_reach: Some(reach), ..p }
}

/// The ladder of levels.
pub open spec fn level_row(n: int) -> LevelParams {
    if n <= 1 {
        fast_row(15, 0xc0000)
    } else if n == 2 {
        fast_row(16, 0x10_0000)
    } else if n == 3 {
        dfast_row(17, 16, 0x20_0000)
    } else if n == 4 {
        dfast_row(18, 18, 0x20_0000)
    } else if n == 5 {
        rows_row(19, 4, 0x20_0000, 8, 0)
    } else if n == 6 {
        rows_row(19, 4, 0x20_0000, 8, 1)
    } else if n == 7 {
        rows_row(20, 4, 0x20_0000, 16, 1)
    } else if n == 8 {
        rows_row(20, 4, 0x20_0000, 16, 2)
    } else if n == 9 {
        chain_row()
    } else if n == 10 {
        rows_row(22, 5, 0x40_0000, 32, 2)
    } else if n == 11 {
        rows_row(22, 6, 0x40_0000, 64, 2)
    } else if n == 12 {
        rows_row(23, 6, 0x40_0000, 64, 2)
    } else if n == 13 {
        far(btlazy_row(22, 0x400_0000, bt_knobs(4, 22)), 0x40_0000)
    } else if n == 14 {
        far(btlazy_row(23, 0x400_0000, bt_knobs(5, 22)), 0x40_0000)
    } else if n == 15 {
        far(btlazy_row(23, 0x400_0000, bt_knobs(6, 23)), 0x40_0000)
    } else if n == 16 {
        far(opt_row(22, 0x400_0000, opt_knobs(5, 48, 4, 22, false)), 0x40_0000)
    } else if n == 17 {
        far(opt_row(22, 0x400_0000, opt_knobs(5, 64, 4, 22, false)), 0x80_0000)
    } else if n == 18 {
        far(opt_row(22, 0x400_0000, opt_knobs(6, 64, 3, 23, true)), 0x80_0000)
    } else if n == 19 {
        far(opt_row(22, 0x400_0000, opt_knobs(7, 256, 3, 23, true)), 0x80_0000)
    } else if n == 20 {
        opt_row(22, 0x100_0000, opt_knobs(7, 256, 3, 23, true))
    } else if n == 21 {
        opt_row(22, 0x200_0000, opt_knobs(7, 512, 3, 24, true))
    } else {
        opt_row(22, 0x400_0000, opt_knobs(8, 999, 3, 24, true))
    }
}

fn make_fast(hash_log: u32, window: usize) -> (r: LevelParams)
    ensures
        r == fast_row(hash_log, window),
{
    LevelParams {
        hash_log,
        window,
        strategy: Strategy::Fast,
        search_depth: 1,
        lazy_depth: 0,
        min_match: 4,
        dubt_head: false,
        ldm: true,
        chain_reach: None,
        small_src: false,
    }
}

fn make_rows(hash_log: u32, row_log: u32, window: usize, depth: u32, lazy: u32) -> (r: LevelParams)
    ensures
        r == rows_row(hash_log, row_log, window, depth, lazy),
{
    LevelParams {
        strategy: Strategy::Row(row_log),
        search_depth: depth,
        lazy_depth: lazy,
        min_match: 5,
        ldm: false,
        ..make_fast(hash_log, window)
    }
}

fn make_btlazy(hash_log: u32, window: usize, search_log: u32, bt_log: u32) -> (r: LevelParams)
    ensures
        r == btlazy_row(hash_log, window, bt_knobs(search_log, bt_log)),
{
    let k: OptKnobs = OptKnobs {
        search_log,
        insert_log: search_log,
        sufficient_len: 32,
        min_match: 4,
        mls: 5,
        bt_log,
        hash3_log: 0,
        ultra: false,
    };
    LevelParams {
        strategy: Strategy::BtLazy(k),
        search_depth: 0,
        lazy_depth: 2,
        min_match: k.mls,
        ldm: false,
        ..make_fast(hash_log, window)
    }
}

fn make_opt(window: usize, search_log: u32, sufficient_len: u32, min_match: u32, bt_log: u32, ultra: bool) -> (r:
    LevelParams)
    ensures
        r == opt_row(22, window, opt_knobs(search_log, sufficient_len, min_match, bt_log, ultra)),
{
    let k: OptKnobs = OptKnobs {
        search_log,
        insert_log: search_log,
        sufficient_len,
        min_match,
        mls: min_match,
        bt_log,
        hash3_log: if min_match == 3 {
            17
        } else {
            0
        },
        ultra,
    };
    LevelParams {
        strategy: Strategy::Opt(k),
        search_depth: 0,
        min_match: k.min_match,
        ldm: false,
        ..make_fast(22, window)
    }
}

fn make_far(p: LevelParams, reach: usize) -> (r: LevelParams)
    ensures
        r == far(p, reach),
{
    LevelParams { ldm: true, chain_reach: Some(reach), ..p }
}

/// The row of a level.
pub fn params_for_level(level: Level) -> (r: LevelParams)
    ensures
        r == level_row(level.rung()),
{
    let n: i32 = level.as_i32();
    if n <= 1 {
        make_fast(HASH_LOG, MAX_WINDOW)
    } else if n == 2 {
        make_fast(16, 0x10_0000)
    } else if n == 3 {
        LevelParams { strategy: Strategy::Dfast(16), search_depth: 0, ..make_fast(17, 0x20_0000) }
    } else if n == 4 {
        LevelParams { strategy: Strategy::Dfast(18), search_depth: 0, ..make_fast(18, 0x20_0000) }
    } else if n == 5 {
        make_rows(19, 4, 0x20_0000, 8, 0)
    } else if n == 6 {
        make_rows(19, 4, 0x20_0000, 8, 1)
    } else if n == 7 {
        make_rows(20, 4, 0x20_0000, 16, 1)
    } else if n == 8 {
        make_rows(20, 4, 0x20_0000, 16, 2)
    } else if n == 9 {
        LevelParams {
            strategy: Strategy::Chain(20),
            search_depth: 8,
            lazy_depth: 2,
            min_match: 5,
            dubt_head: true,
            ldm: true,
            chain_reach: Some(KEEP_REACH),
            ..make_fast(21, LDM_FULL_WINDOW)
        }
    } else if n == 10 {
        make_rows(22, 5, 0x40_0000, 32, 2)
    } else if n == 11 {
        make_rows(22, 6, 0x40_0000, 64, 2)
    } else if n == 12 {
        make_rows(23, 6, 0x40_0000, 64, 2)
    } else if n == 13 {
        make_far(make_btlazy(22, LDM_FULL_WINDOW, 4, 22), 0x40_0000)
    } else if n == 14 {
        make_far(make_btlazy(23, LDM_FULL_WINDOW, 5, 22), 0x40_0000)
    } else if n == 15 {
        make_far(make_btlazy(23, LDM_FULL_WINDOW, 6, 23), 0x40_0000)
    } else if n == 16 {
        make_far(make_opt(LDM_FULL_WINDOW, 5, 48, 4, 22, false), 0x40_0000)
    } else if n == 17 {
        make_far(make_opt(LDM_FULL_WINDOW, 5, 64, 4, 22, false), 0x80_0000)
    } else if n == 18 {
        make_far(make_opt(LDM_FULL_WINDOW, 6, 64, 3, 23, true), 0x80_0000)
    } else if n == 19 {
        make_far(make_opt(LDM_FULL_WINDOW, 7, 256, 3, 23, true), 0x80_0000)
    } else if n == 20 {
        make_opt(0x100_0000, 7, 256, 3, 23, true)
    } else if n == 21 {
        make_opt(0x200_0000, 7, 512, 3, 24, true)
    } else {
        make_opt(LDM_FULL_WINDOW, 8, 999, 3, 24, true)
    }
}

/// How many bits a positive number takes.
pub open spec fn bit_len(v: int) -> int {
    log2_floor(v) + 1
}

/// How many bits a positive number takes.
fn bits_of(v: u64) -> (r: u32)
    requires
        v >= 1,
    ensures
        r == bit_len(v as int),
        1 <= r <= 64,
{
    ilog2(v) + 1
}

/// The smaller of two numbers.
pub open spec fn least(a: int, b: int) -> int {
    if a < b {
        a
    } else {
        b
    }
}

/// Window log of a row for a source of `n` bytes: that of the window rounded up
/// to a power of two, but no more than the source needs, and at least ten.
pub open spec fn adjusted_log(window: int, n: int) -> int {
    let t = if n < 64 {
        64
    } else {
        n
    };
    let src = if bit_len(t - 1) < 10 {
        10
    } else {
        bit_len(t - 1)
    };
    least(bit_len(window - 1), src)
}

/// Knobs whose tables are no larger than a window of the given log.
pub open spec fn knobs_within(k: OptKnobs, wlog: int) -> OptKnobs {
    OptKnobs {
        bt_log: least(k.bt_log as int, wlog) as u32,
        hash3_log: least(k.hash3_log as int, wlog) as u32,
        ..k
    }
}

/// A row sized for a source: the window shrinks to what the source needs, the
/// search domain and the tables follow it. An unknown or empty source changes
/// nothing.
pub open spec fn adjusted(p: LevelParams, src: Option<u64>) -> LevelParams {
    match src {
        None => p,
        Some(n) => if n == 0 {
            p
        } else {
            let wlog = adjusted_log(p.window as int, n as int);
            let window = pow2(wlog as nat) as usize;
            LevelParams {
                window,
                chain_reach: match p.chain_reach {
                    Some(r) => Some(least(r as int, window as int) as usize),
                    None => None,
                },
                hash_log: least(p.hash_log as int, wlog + 1) as u32,
                strategy: match p.strategy {
                    Strategy::Dfast(s) => Strategy::Dfast(least(s as int, wlog + 1) as u32),
                    Strategy::Chain(c) => Strategy::Chain(least(c as int, wlog) as u32),
                    Strategy::Row(r) => Strategy::Row(least(r as int, wlog) as u32),
                    Strategy::Opt(k) => Strategy::Opt(knobs_within(k, wlog)),
                    Strategy::BtLazy(k) => Strategy::BtLazy(knobs_within(k, wlog)),
                    Strategy::Fast => Strategy::Fast,
                },
                ..p
            }
        },
    }
}

/// Log of the adjusted window.
proof fn lemma_adjusted_log(window: int, n: int)
    requires
        0x400 <= window <= 0x800_0000,
        1 <= n <= u64::MAX,
    ensures
        10 <= adjusted_log(window, n) <= 27,
        0x400 <= pow2(adjusted_log(window, n) as nat) <= 0x800_0000,
        pow2(adjusted_log(window, n) as nat) < 2 * window,
{
    lemma2_to64();
    lemma_log2_bracket(window - 1);
    let k = log2_floor(window - 1) as nat;
    if k < 9 {
        lemma_pow2_monotone((k + 1) as nat, 9);
    }
    if k > 26 {
        lemma_pow2_monotone(27, k);
    }
    vstd::arithmetic::power2::lemma_pow2_unfold((k + 1) as nat);
    let wlog = adjusted_log(window, n) as nat;
    lemma_pow2_monotone(10, wlog);
    lemma_pow2_monotone(wlog, 27);
    lemma_pow2_monotone(wlog, (k + 1) as nat);
}

/// An adjusted row still fits its tables. Its window is no larger than a source
/// of more than a kilobyte needs, and covers the search domain.
pub proof fn lemma_adjusted(p: LevelParams, src: Option<u64>)
    requires
        p.wf(),
    ensures
        adjusted(p, src).wf(),
        adjusted(p, src).search_depth == p.search_depth,
        src matches Some(n) ==> n > 0 ==> adjusted(p, src).reach_of() <= adjusted(p, src).window,
        src matches Some(n) ==> n > 1024 ==> adjusted(p, src).window < 2 * n,
{
    if let Some(n) = src {
        if n > 0 {
            lemma_adjusted_log(p.window as int, n as int);
            if n > 1024 {
                lemma2_to64();
                lemma_log2_bracket(n - 1);
                let k = log2_floor(n - 1) as nat;
                if k < 10 {
                    lemma_pow2_monotone((k + 1) as nat, 10);
                }
                vstd::arithmetic::power2::lemma_pow2_unfold((k + 1) as nat);
                lemma_pow2_monotone(adjusted_log(p.window as int, n as int) as nat, (k + 1) as nat);
            }
        }
    }
}

/// Sizes a row for a source.
fn adjust_params(p: LevelParams, src: Option<u64>) -> (r: LevelParams)
    requires
        p.wf(),
    ensures
        r == adjusted(p, src),
{
    let n: u64 = match src {
        None => {
            return p;
        },
        Some(n) => n,
    };
    if n == 0 {
        return p;
    }
    proof {
        lemma_adjusted_log(p.window as int, n as int);
    }
    let t: u64 = if n < 64 {
        64
    } else {
        n
    };
    let mut src_log: u32 = bits_of(t - 1);
    if src_log < 10 {
        src_log = 10;
    }
    let mut wlog: u32 = bits_of(p.window as u64 - 1);
    if !(wlog < src_log) {
        wlog = src_log;
    }
    let window: usize = pow2_u64(wlog) as usize;
    LevelParams {
        window,
        chain_reach: match p.chain_reach {
            Some(r) => Some(
                if r < window {
                    r
                } else {
                    window
                },
            ),
            None => None,
        },
        hash_log: min_u32(p.hash_log, wlog + 1),
        strategy: match p.strategy {
            Strategy::Dfast(s) => Strategy::Dfast(min_u32(s, wlog + 1)),
            Strategy::Chain(c) => Strategy::Chain(min_u32(c, wlog)),
            Strategy::Row(r) => Strategy::Row(min_u32(r, wlog)),
            Strategy::Opt(k) => Strategy::Opt(
                OptKnobs { bt_log: min_u32(k.bt_log, wlog), hash3_log: min_u32(k.hash3_log, wlog), ..k },
            ),
            Strategy::BtLazy(k) => Strategy::BtLazy(
                OptKnobs { bt_log: min_u32(k.bt_log, wlog), hash3_log: min_u32(k.hash3_log, wlog), ..k },
            ),
            Strategy::Fast => Strategy::Fast,
        },
        ..p
    }
}

fn min_u32(a: u32, b: u32) -> (r: u32)
    ensures
        r == least(a as int, b as int),
{
    if a < b {
        a
    } else {
        b
    }
}

/// Window that a forced log stands for.
pub open spec fn forced_window(log: u32) -> usize {
    let l = if log < 10 {
        10
    } else if log > 27 {
        27
    } else {
        log as int
    };
    pow2(l as nat) as usize
}

/// The input is known to be small.
pub open spec fn is_small(shape: InputShape) -> bool {
    shape.len matches Some(n) && n <= SMALL_SRC_MAX
}

/// Parameters of a level for an input: a forced window comes first, then a known
/// length shrinks what it can. Small inputs shorten the row search's matches, and
/// leave the ninth and tenth level to the tree. Raw blocks keep their row.
pub open spec fn shaped(level: Level, shape: InputShape) -> LevelParams {
    let row = level_row(level.rung());
    let p = LevelParams {
        window: match shape.window_log {
            Some(l) => forced_window(l),
            None => row.window,
        },
        small_src: is_small(shape),
        ..row
    };
    if is_small(shape) && (level.number() == 9 || level.number() == 10) {
        LevelParams { small_src: true, ..adjusted(btlazy_row(17, 0x2_0000, bt_knobs(5, 16)), shape.len) }
    } else {
        let q = if is_small(shape) && p.strategy is Row {
            LevelParams { min_match: 4, ..p }
        } else {
            p
        };
        if level == Level::Uncompressed {
            q
        } else {
            adjusted(q, shape.len)
        }
    }
}

/// Window of a forced log.
proof fn lemma_forced_window(log: u32)
    ensures
        0x400 <= forced_window(log) <= 0x800_0000,
{
    lemma2_to64();
    let l = if log < 10 {
        10
    } else if log > 27 {
        27
    } else {
        log as int
    };
    lemma_pow2_monotone(10, l as nat);
    lemma_pow2_monotone(l as nat, 27);
}

/// Parameters can be sized for, whatever the level and the input. With a known
/// length, or without a forced window, the window covers the search domain.
pub proof fn lemma_shaped(level: Level, shape: InputShape)
    ensures
        shaped(level, shape).wf(),
        shaped(level, shape).search_depth <= 0x1000,
        shape.window_log is None ==> shaped(level, shape).reach_of() <= shaped(level, shape).window,
        (shape.len matches Some(n) && n > 0) && level != Level::Uncompressed ==> shaped(level, shape).reach_of() <= shaped(
            level,
            shape,
        ).window,
{
    let row = level_row(level.rung());
    if let Some(l) = shape.window_log {
        lemma_forced_window(l);
    }
    let p = LevelParams {
        window: match shape.window_log {
            Some(l) => forced_window(l),
            None => row.window,
        },
        small_src: is_small(shape),
        ..row
    };
    assert(p.wf());
    lemma_adjusted(p, shape.len);
    lemma_adjusted(LevelParams { min_match: 4, ..p }, shape.len);
    lemma_adjusted(btlazy_row(17, 0x2_0000, bt_knobs(5, 16)), shape.len);
}

/// Parameters of a level for an input.
pub fn params_for(level: Level, shape: InputShape) -> (r: LevelParams)
    ensures
        r == shaped(level, shape),
        r.wf(),
{
    proof {
        lemma_shaped(level, shape);
    }
    let mut p: LevelParams = params_for_level(level);
    if let Some(wl) = shape.window_log {
        proof {
            lemma_forced_window(wl);
        }
        let l: u32 = if wl < 10 {
            10
        } else if wl > 27 {
            27
        } else {
            wl
        };
        p.window = pow2_u64(l) as usize;
    }
    p.small_src = match shape.len {
        Some(n) => n <= SMALL_SRC_MAX,
        None => false,
    };
    let n: i32 = level.as_i32();
    if p.small_src && (n == 9 || n == 10) {
        let mut q: LevelParams = adjust_params(make_btlazy(17, 0x2_0000, 5, 16), shape.len);
        q.small_src = true;
        return q;
    }
    if p.small_src {
        if let Strategy::Row(_) = p.strategy {
            p.min_match = 4;
        }
    }
    match level {
        Level::Uncompressed => p,
        _ => adjust_params(p, shape.len),
    }
}

/// Where a driver's long-distance history ends.
#[derive(Clone, Copy, PartialEq, Eq, Structural, Debug)]
pub enum LdmArming {
    /// With the frame.
    Frame,
    /// With the frame, whose far repeats have been confirmed by a screen.
    FrameScreened,
    /// With the job.
    Job,
    /// With the job, whose strip reaches back through the frame's start.
    JobPrefix,
    /// The frame has no far repeats.
    FarDead,
    /// With a probe that is too short for far repeats.
    ProbeKeep,
}

/// Smallest window that arms long-distance matching, if any does.
pub open spec fn arming_bar(arming: LdmArming) -> Option<usize> {
    match arming {
        LdmArming::Frame => Some(LDM_MIDSIZE_WINDOW),
        LdmArming::FrameScreened => Some(LDM_MIDSIZE_WINDOW),
        LdmArming::Job => Some(LDM_FULL_WINDOW),
        LdmArming::JobPrefix => Some(LDM_MIDSIZE_WINDOW),
        LdmArming::FarDead => None,
        LdmArming::ProbeKeep => None,
    }
}

/// Smallest window that arms long-distance matching, if any does.
pub fn ldm_min_window(arming: LdmArming) -> (r: Option<usize>)
    ensures
        r == arming_bar(arming),
{
    match arming {
        LdmArming::Frame => Some(LDM_MIDSIZE_WINDOW),
        LdmArming::FrameScreened => Some(LDM_MIDSIZE_WINDOW),
        LdmArming::Job => Some(LDM_FULL_WINDOW),
        LdmArming::JobPrefix => Some(LDM_MIDSIZE_WINDOW),
        LdmArming::FarDead => None,
        LdmArming::ProbeKeep => None,
    }
}

/// A frame's chain reach: the row's own, or the near-local one.
#[derive(Clone, Copy, PartialEq, Eq, Structural, Debug)]
pub enum ReachChoice {
    Keep,
    Shrink,
}

/// Life of the cold-start head.
#[derive(Clone, Copy, PartialEq, Eq, Structural, Debug)]
pub enum HeadPhase {
    /// The frame has none.
    Off,
    /// The first block decides.
    Armed,
    /// Blocks belong to the head.
    Running,
    /// The head has been parsed.
    Done,
}

/// Life of the tree rows' dense probing.
#[derive(Clone, Copy, PartialEq, Eq, Structural, Debug)]
pub enum BtStepPhase {
    /// The first block decides.
    Armed,
    /// Blocks are probed densely.
    Dense,
    Off,
}

/// Probe step of the deferred tree parse.
#[derive(Clone, Copy, PartialEq, Eq, Structural, Debug)]
pub enum LazyStep {
    /// Steps grow with the misses.
    Ramp,
    /// Every position is probed.
    Dense,
}

/// Who parses a block.
#[derive(Clone, Copy, PartialEq, Eq, Structural, Debug)]
pub enum BlockAction {
    /// A tree parse, as a block of the frame's head.
    Head,
    /// The deferred tree parse, with this probe step.
    Tree(LazyStep),
    /// The row itself.
    Row,
}

} // verus!
