//! Parse-shaping gates: the job-start ramp on crossing reads, the fill and scan
//! policies that one block's parse picks for the next, the sampled alphabet
//! screens, and the scan for a strip's seed offset.

use vstd::prelude::*;
use crate::hash::{le8, read8};

verus! {

/// Bytes before the anchor that a seed candidate must repeat.
pub const SEED_AGREE: usize = 48;

/// Nearest of the spread anchors at which a seed candidate must still agree.
pub const SEED_CONFIRM_NEAR: usize = 64;

/// Middle one of the spread anchors.
pub const SEED_CONFIRM_MID: usize = 640;

/// Farthest of the spread anchors.
pub const SEED_CONFIRM_FAR: usize = 6144;

/// Seed matches after which the seed retires: three literal offsets leave the
/// seed's distance in the repeated-offset history.
pub const SEED_MATCHES: u8 = 3;

/// Probes that an unused seed survives.
pub const SEED_BUDGET: u32 = 8192;

/// Log of the incompressibility gate's probe table.
pub const GATE_PROBE_LOG: u32 = 15;

/// Blocks below this size are not worth a sample pass.
pub const GATE_MIN_BLOCK: usize = 16384;

/// Fewest sequences for a block's parse to carry a density signal.
pub const COVERED_GATE_MIN_SEQS: usize = 64;

/// Literal bytes per sequence from which a parse counts as sparse.
pub const COVERED_GATE_AVG_LL: usize = 4;

/// Fewest sequences for the dense scan.
pub const DENSE_GATE_MIN_SEQS: usize = 512;

/// Literal bytes per sequence below which a parse counts as dense.
pub const DENSE_GATE_MAX_AVG_LL: usize = 4;

/// Literal symbols below which an alphabet counts as narrow.
pub const DENSE_GATE_SYMS_MAX: usize = 32;

/// Distance below which the dense scan accepts a match without pricing it.
pub const DENSE_BAR_MIN_DIST: usize = 1024;

/// Missed bytes after which the dense scan doubles its step.
pub const DENSE_STEP_AFTER: usize = 3;

/// Distinct bytes in the narrow sample at or below which an input is narrow.
pub const SMALL_DENSE_NARROW_MAX: u32 = 20;

/// Distinct bytes in the wide sample from which an input is wide.
pub const SMALL_DENSE_WIDE_MIN: u32 = 42;

/// Windows up to this size join the dense policy whatever their alphabet.
pub const SMALL_DENSE_TINY_MAX: usize = 4096;

/// Deep-offset ramp of a job that starts inside a frame: while it is armed, a
/// match whose source lies below the job start must read at least `depth` bytes
/// below it. Sources at or after the job start stay free.
#[derive(Clone, Copy, PartialEq, Eq, Structural, Debug)]
pub struct RampGate {
    /// Absolute job start.
    pub start: u64,
    /// End of the ramp region; zero while the ramp is off.
    pub end: u64,
    /// Least depth of a crossing read.
    pub depth: u64,
}

impl RampGate {
    /// A ramp that blocks nothing.
    pub open spec fn off_gate() -> RampGate {
        RampGate { start: 0, end: 0, depth: 0 }
    }

    /// A ramp that blocks nothing.
    pub fn off() -> (r: Self)
        ensures
            r == RampGate::off_gate(),
    {
        RampGate { start: 0, end: 0, depth: 0 }
    }

    /// Whether a source at absolute position `cand` is a crossing read that is
    /// too shallow.
    pub open spec fn shallow(self, cand: int) -> bool {
        self.end != 0 && cand < self.start && self.start - cand < self.depth
    }

    /// Lowest window index that a source at index `cand` may be extended back
    /// to: a source at or after the job start stops at the boundary, one below
    /// the shallow band only gets deeper.
    pub open spec fn back_floor(self, cand: int, base: int) -> int {
        if self.end != 0 && base + cand >= self.start && self.start > base {
            self.start - base
        } else {
            0
        }
    }

    /// Whether the ramp is armed.
    pub fn is_armed(&self) -> (r: bool)
        ensures
            r == (self.end != 0),
    {
        self.end != 0
    }

    /// Whether a match with its source at absolute position `cand_abs` violates
    /// the ramp.
    pub fn blocks(&self, cand_abs: u64) -> (r: bool)
        ensures
            r == self.shallow(cand_abs as int),
    {
        self.end != 0 && cand_abs < self.start && self.start - cand_abs < self.depth
    }

    /// Lowest window index that a source may be extended back to.
    pub fn ext_floor(&self, cand_idx: usize, win_base: u64) -> (r: usize)
        requires
            win_base + cand_idx <= u64::MAX,
        ensures
            r == self.back_floor(cand_idx as int, win_base as int),
            r <= cand_idx,
    {
        if self.end != 0 && win_base + cand_idx as u64 >= self.start && self.start > win_base {
            (self.start - win_base) as usize
        } else {
            0
        }
    }
}

/// Extending a legal source backwards down to its floor keeps it legal.
pub proof fn lemma_back_floor_legal(ramp: RampGate, base: int, cand: int, low: int)
    requires
        0 <= low <= cand,
        low >= ramp.back_floor(cand, base),
        base >= 0,
        !ramp.shallow(base + cand),
    ensures
        !ramp.shallow(base + low),
{
}

/// Which positions of a short match the fast scan indexes.
#[derive(Clone, Copy, PartialEq, Eq, Structural, Debug)]
pub enum CoveredFill {
    /// Every covered position.
    Dense,
    /// Every second covered position.
    Strided,
    /// Every covered position of matches of any length.
    DictDense,
}

/// Which body the fast scan runs on the next block.
#[derive(Clone, Copy, PartialEq, Eq, Structural, Debug)]
pub enum ScanDensity {
    Plain,
    /// With the priced acceptance bar and the doubled miss step.
    Dense,
}

/// The fill policy that a parse of `nseqs` sequences and `nlits` literals picks
/// for the next block.
pub open spec fn next_fill(nseqs: int, nlits: int) -> CoveredFill {
    if nseqs >= COVERED_GATE_MIN_SEQS && nlits >= COVERED_GATE_AVG_LL * nseqs {
        CoveredFill::Strided
    } else {
        CoveredFill::Dense
    }
}

/// The scan body that a parse picks for the next block.
pub open spec fn next_density(nseqs: int, nlits: int, symbols: int) -> ScanDensity {
    if nseqs >= DENSE_GATE_MIN_SEQS && nlits < DENSE_GATE_MAX_AVG_LL * nseqs && symbols
        < DENSE_GATE_SYMS_MAX {
        ScanDensity::Dense
    } else {
        ScanDensity::Plain
    }
}

/// Number of entries below `cap` among the first `n` of a sequence.
pub open spec fn count_below(s: Seq<u8>, n: int, cap: int) -> int
    decreases n,
{
    if n <= 0 {
        0
    } else {
        count_below(s, n - 1, cap) + if s[n - 1] < cap {
            1int
        } else {
            0
        }
    }
}

/// Number of literal symbols whose code is shorter than the eleven-bit cap.
pub fn covered_lit_symbols(lit_lens: &[u8; 256]) -> (r: usize)
    ensures
        r == count_below(lit_lens@, 256, 11),
        r <= 256,
{
    let mut n: usize = 0;
    let mut i: usize = 0;
    while i < 256
        invariant
            i <= 256,
            n <= i,
            n == count_below(lit_lens@, i as int, 11),
        decreases 256 - i,
    {
        if lit_lens[i] < 11 {
            n = n + 1;
        }
        i = i + 1;
    }
    n
}

/// The byte values at `from`, `from + stride`, ... below `to`.
pub open spec fn sampled_set(w: Seq<u8>, from: int, to: int, stride: int) -> Set<u8>
    decreases
        if to > from {
            to - from
        } else {
            0
        },
{
    if from < to && stride > 0 {
        sampled_set(w, from + stride, to, stride).insert(w[from])
    } else {
        Set::empty()
    }
}

/// Number of distinct byte values at `from`, `from + stride`, ... below `to`.
pub open spec fn distinct_count(w: Seq<u8>, from: int, to: int, stride: int) -> int {
    sampled_set(w, from, to, stride).len() as int
}

/// A sample holds finitely many values.
pub proof fn lemma_sampled_finite(w: Seq<u8>, from: int, to: int, stride: int)
    ensures
        sampled_set(w, from, to, stride).finite(),
    decreases
        if to > from {
            to - from
        } else {
            0
        },
{
    if from < to && stride > 0 {
        lemma_sampled_finite(w, from + stride, to, stride);
    }
}

/// Counts the distinct byte values of a strided sample.
pub fn count_distinct(win: &[u8], from: usize, to: usize, stride: usize) -> (r: u32)
    requires
        to <= win@.len(),
        stride >= 1,
    ensures
        r == distinct_count(win@, from as int, to as int, stride as int),
        r <= 256,
{
    let mut seen: Vec<bool> = vec![false; 256];
    let mut n: u32 = 0;
    let mut i: usize = from;
    let ghost mut acc: Set<u8> = Set::empty();
    let ghost all = sampled_set(win@, from as int, to as int, stride as int);
    assert(acc.union(all) =~= all);
    while i < to
        invariant
            to <= win@.len(),
            stride >= 1,
            seen@.len() == 256,
            all == sampled_set(win@, from as int, to as int, stride as int),
            acc.finite(),
            n == acc.len(),
            forall|b: u8| #[trigger] acc.contains(b) == seen@[b as int],
            acc.union(sampled_set(win@, i as int, to as int, stride as int)) == all,
        decreases to - i,
    {
        let b: u8 = win[i];
        let ghost rest = sampled_set(win@, i + stride, to as int, stride as int);
        proof {
            lemma_byte_set_small(acc);
            assert(acc.insert(b).union(rest) =~= acc.union(rest.insert(b)));
        }
        if !seen[b as usize] {
            seen.set(b as usize, true);
            n = n + 1;
        }
        proof {
            let before = acc;
            acc = acc.insert(b);
            assert forall|x: u8| #[trigger] acc.contains(x) == seen@[x as int] by {
                assert(before.contains(x) || !before.contains(x));
            }
            if before.contains(b) {
                assert(acc =~= before);
            }
        }
        if to - i <= stride {
            proof {
                assert(rest =~= Set::empty());
                assert(acc.union(rest) =~= acc);
                lemma_byte_set_small(acc);
            }
            return n;
        }
        i = i + stride;
    }
    proof {
        assert(acc.union(Set::empty()) =~= acc);
        lemma_byte_set_small(acc);
    }
    n
}

/// All byte values below `n`.
spec fn bytes_below(n: int) -> Set<u8> {
    Set::new(|b: u8| b < n)
}

proof fn lemma_bytes_below(n: int)
    requires
        0 <= n <= 256,
    ensures
        bytes_below(n).finite(),
        bytes_below(n).len() == n,
    decreases n,
{
    if n == 0 {
        assert(bytes_below(0) =~= Set::empty());
    } else {
        lemma_bytes_below(n - 1);
        assert(bytes_below(n) =~= bytes_below(n - 1).insert((n - 1) as u8));
    }
}

/// A set of bytes has at most 256 members.
pub proof fn lemma_byte_set_small(s: Set<u8>)
    requires
        s.finite(),
    ensures
        s.len() <= 256,
{
    lemma_bytes_below(256);
    assert(s.subset_of(bytes_below(256)));
    vstd::set_lib::lemma_len_subset(s, bytes_below(256));
}

/// Whether a small window's alphabet is wide: not narrow in a coarse sample, and
/// wide in a finer one.
pub open spec fn is_small_dense_wide(w: Seq<u8>) -> bool {
    let n = w.len() as int;
    &&& distinct_count(w, 0, n, stride_for(n, 128)) > SMALL_DENSE_NARROW_MAX
    &&& distinct_count(w, 0, n, stride_for(n, 512)) >= SMALL_DENSE_WIDE_MIN
}

/// Spacing of about `samples` reads over `n` bytes.
pub open spec fn stride_for(n: int, samples: int) -> int {
    if n / samples >= 1 {
        n / samples
    } else {
        1
    }
}

/// Distinct byte values among about `samples` strided reads of the window.
pub fn sampled_distinct(win: &[u8], samples: usize) -> (r: u32)
    requires
        samples >= 1,
    ensures
        r == distinct_count(win@, 0, win@.len() as int, stride_for(win@.len() as int, samples as int)),
{
    let n: usize = win.len();
    let stride: usize = if n / samples >= 1 {
        n / samples
    } else {
        1
    };
    count_distinct(win, 0, n, stride)
}

/// The wide-alphabet screen of small inputs.
pub fn small_dense_wide(win: &[u8]) -> (r: bool)
    ensures
        r == is_small_dense_wide(win@),
{
    if sampled_distinct(win, 128) <= SMALL_DENSE_NARROW_MAX {
        return false;
    }
    sampled_distinct(win, 512) >= SMALL_DENSE_WIDE_MIN
}

/// Whether the bytes before `u` repeat those before `last`.
pub open spec fn agrees_before(data: Seq<u8>, u: int, last: int) -> bool {
    u >= SEED_AGREE && forall|k: int|
        1 <= k <= SEED_AGREE ==> #[trigger] data[u - k] == data[last - k]
}

/// Whether the word at distance `t` behind `u`, if `u` has that much history,
/// repeats the one at distance `t` behind `last`.
pub open spec fn confirms_at(data: Seq<u8>, u: int, last: int, t: int) -> bool {
    u >= t ==> le8(data, u - t) == le8(data, last - t)
}

/// Whether all spread anchors behind `u` repeat those behind `last`.
pub open spec fn confirms_all(data: Seq<u8>, u: int, last: int) -> bool {
    &&& confirms_at(data, u, last, SEED_CONFIRM_NEAR as int)
    &&& confirms_at(data, u, last, SEED_CONFIRM_MID as int)
    &&& confirms_at(data, u, last, SEED_CONFIRM_FAR as int)
}

/// Whether `u` qualifies as the source of a seed for the anchor at `last`.
pub open spec fn is_seed(data: Seq<u8>, u: int, last: int, a8: u64) -> bool {
    &&& le8(data, u) == a8
    &&& agrees_before(data, u, last)
    &&& confirms_all(data, u, last)
}

/// Whether the bytes before `u` repeat those before `last`.
pub fn seed_agrees(data: &[u8], u: usize, last: usize) -> (r: bool)
    requires
        u <= last <= data@.len(),
    ensures
        r == agrees_before(data@, u as int, last as int),
{
    let mut k: usize = 1;
    while u >= k && k <= SEED_AGREE && data[u - k] == data[last - k]
        invariant
            u <= last <= data@.len(),
            1 <= k <= SEED_AGREE + 1,
            u >= k - 1,
            forall|t: int| 1 <= t < k ==> #[trigger] data@[u - t] == data@[last - t],
        decreases SEED_AGREE + 1 - k,
    {
        k = k + 1;
    }
    proof {
        if k <= SEED_AGREE && u >= k {
            assert(data@[u - k] != data@[last - k]);
        }
    }
    k > SEED_AGREE
}

/// Whether the spread anchors behind `u` repeat those behind `last`.
pub fn seed_confirms(data: &[u8], u: usize, last: usize) -> (r: bool)
    requires
        u <= last,
        last + 8 <= data@.len(),
    ensures
        r == confirms_all(data@, u as int, last as int),
{
    if u >= SEED_CONFIRM_NEAR && read8(data, u - SEED_CONFIRM_NEAR) != read8(
        data,
        last - SEED_CONFIRM_NEAR,
    ) {
        return false;
    }
    if u >= SEED_CONFIRM_MID && read8(data, u - SEED_CONFIRM_MID) != read8(
        data,
        last - SEED_CONFIRM_MID,
    ) {
        return false;
    }
    if u >= SEED_CONFIRM_FAR && read8(data, u - SEED_CONFIRM_FAR) != read8(
        data,
        last - SEED_CONFIRM_FAR,
    ) {
        return false;
    }
    true
}

/// The nearest position below `u` that qualifies as a seed, if any does.
pub open spec fn seed_below(data: Seq<u8>, u: int, last: int, a8: u64) -> Option<int>
    decreases u,
{
    if u <= 0 {
        None
    } else if is_seed(data, u - 1, last, a8) {
        Some(u - 1)
    } else {
        seed_below(data, u - 1, last, a8)
    }
}

/// What is found below `u` lies there.
pub proof fn lemma_seed_below(data: Seq<u8>, u: int, last: int, a8: u64)
    ensures
        seed_below(data, u, last, a8) matches Some(v) ==> 0 <= v < u,
    decreases u,
{
    if u > 0 && !is_seed(data, u - 1, last, a8) {
        lemma_seed_below(data, u - 1, last, a8);
    }
}

/// The nearest position below `last` that qualifies as a seed, if any does.
pub fn seed_scan(data: &[u8], last: usize, a8: u64) -> (r: Option<usize>)
    requires
        last + 8 <= data@.len(),
    ensures
        match r {
            Some(u) => u < last && is_seed(data@, u as int, last as int, a8) && forall|v: int|
                u < v < last ==> !#[trigger] is_seed(data@, v, last as int, a8),
            None => forall|v: int| 0 <= v < last ==> !#[trigger] is_seed(data@, v, last as int, a8),
        },
        match r {
            Some(u) => seed_below(data@, last as int, last as int, a8) == Some(u as int),
            None => seed_below(data@, last as int, last as int, a8) is None,
        },
{
    let mut u: usize = last;
    while u > 0
        invariant
            u <= last,
            last + 8 <= data@.len(),
            seed_below(data@, u as int, last as int, a8) == seed_below(data@, last as int, last as int, a8),
            forall|v: int| u <= v < last ==> !#[trigger] is_seed(data@, v, last as int, a8),
        decreases u,
    {
        u = u - 1;
        if read8(data, u) == a8 && seed_agrees(data, u, last) && seed_confirms(data, u, last) {
            return Some(u);
        }
    }
    None
}

} // verus!
