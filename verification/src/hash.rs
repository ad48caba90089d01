//! Window reads, the multiply-shift hashes over them, and match extension in
//! both directions.

use vstd::prelude::*;
use vstd::arithmetic::power2::pow2;
use crate::bits::{lemma_top_bits, pow2_u64};

verus! {

/// The hashes read a full 64-bit word, so a position can be hashed only with
/// this many window bytes at and after it.
pub const HASH_READ: usize = 8;

/// Shortest match worth encoding.
pub const MIN_MATCH: usize = 4;

/// Multiplier of the short hashes.
pub const HASH_PRIME: u64 = 0xc2b2_ae3d_27d4_eb4f;

/// Multiplier of the eight-byte hash.
pub const HASH_PRIME8: u64 = 0xcf1b_bcdc_b7a5_6463;

/// The four bytes at `i` as a little-endian number.
pub open spec fn le4(w: Seq<u8>, i: int) -> int {
    w[i] + 0x100 * w[i + 1] + 0x1_0000 * w[i + 2] + 0x100_0000 * w[i + 3]
}

/// The eight bytes at `i` as a little-endian number.
pub open spec fn le8(w: Seq<u8>, i: int) -> int {
    le4(w, i) + 0x1_0000_0000 * le4(w, i + 4)
}

/// Whether the `n` bytes at `i` and at `j` agree.
pub open spec fn bytes_agree(w: Seq<u8>, i: int, j: int, n: int) -> bool {
    forall|k: int| 0 <= k < n ==> #[trigger] w[i + k] == w[j + k]
}

/// Two four-byte reads are equal exactly when their bytes are.
pub proof fn lemma_le4_eq(w: Seq<u8>, i: int, j: int)
    ensures
        0 <= le4(w, i) <= u32::MAX,
        le4(w, i) == le4(w, j) <==> bytes_agree(w, i, j, 4),
{
    if le4(w, i) == le4(w, j) {
        assert(w[i] == w[j] && w[i + 1] == w[j + 1] && w[i + 2] == w[j + 2] && w[i + 3] == w[j
            + 3]);
        assert forall|k: int| 0 <= k < 4 implies #[trigger] w[i + k] == w[j + k] by {
            assert(k == 0 || k == 1 || k == 2 || k == 3);
        }
    }
    if bytes_agree(w, i, j, 4) {
        assert(w[i + 0] == w[j + 0]);
        assert(w[i + 1] == w[j + 1]);
        assert(w[i + 2] == w[j + 2]);
        assert(w[i + 3] == w[j + 3]);
    }
}

/// Two eight-byte reads are equal exactly when their bytes are.
pub proof fn lemma_le8_eq(w: Seq<u8>, i: int, j: int)
    ensures
        0 <= le8(w, i) <= u64::MAX,
        le8(w, i) == le8(w, j) <==> bytes_agree(w, i, j, 8),
{
    lemma_le4_eq(w, i, j);
    lemma_le4_eq(w, i + 4, j + 4);
    lemma_le4_eq(w, j, i);
    lemma_le4_eq(w, j + 4, i + 4);
    if bytes_agree(w, i, j, 4) && bytes_agree(w, i + 4, j + 4, 4) {
        assert forall|k: int| 0 <= k < 8 implies #[trigger] w[i + k] == w[j + k] by {
            if k >= 4 {
                assert(w[i + 4 + (k - 4)] == w[j + 4 + (k - 4)]);
            }
        }
    }
    if bytes_agree(w, i, j, 8) {
        assert forall|k: int| 0 <= k < 4 implies #[trigger] w[i + 4 + k] == w[j + 4 + k] by {
            assert(w[i + (4 + k)] == w[j + (4 + k)]);
        }
    }
}

/// Reads the four window bytes at `idx`.
pub fn read4(win: &[u8], idx: usize) -> (r: u32)
    requires
        idx + 4 <= win@.len(),
    ensures
        r == le4(win@, idx as int),
{
    (win[idx] as u32) + 0x100 * (win[idx + 1] as u32) + 0x1_0000 * (win[idx + 2] as u32)
        + 0x100_0000 * (win[idx + 3] as u32)
}

/// Reads the eight window bytes at `idx`.
pub fn read8(win: &[u8], idx: usize) -> (r: u64)
    requires
        idx + 8 <= win@.len(),
    ensures
        r == le8(win@, idx as int),
{
    assert(win@.len() == win.len());
    (read4(win, idx) as u64) + 0x1_0000_0000 * (read4(win, idx + 4) as u64)
}

/// Input width of a short hash: five bytes, or four where near-duplicates that
/// diverge at the fifth byte should stay candidates.
#[derive(Clone, Copy, PartialEq, Eq, Structural, Debug)]
pub enum ChainHashWidth {
    Five,
    Four,
}

impl ChainHashWidth {
    /// The bits of a window word that enter the hash.
    pub open spec fn mask_bits(self) -> u64 {
        match self {
            ChainHashWidth::Five => 0x00ff_ffff_ffff,
            ChainHashWidth::Four => 0xffff_ffff,
        }
    }

    /// Dictionary rows hash four bytes, all others five.
    pub fn of(dict_chain: bool) -> (r: Self)
        ensures
            r == (if dict_chain {
                ChainHashWidth::Four
            } else {
                ChainHashWidth::Five
            }),
    {
        if dict_chain {
            ChainHashWidth::Four
        } else {
            ChainHashWidth::Five
        }
    }

    /// The bits of a window word that enter the hash.
    pub fn mask(self) -> (r: u64)
        ensures
            r == self.mask_bits(),
    {
        match self {
            ChainHashWidth::Five => 0x00ff_ffff_ffff,
            ChainHashWidth::Four => 0xffff_ffff,
        }
    }
}

/// Multiply-shift hash of a word into `log` bits: the top bits of the low half
/// of the product.
#[verifier::opaque]
pub open spec fn mul_hash(v: u64, prime: u64, log: u32) -> int {
    (vstd::wrapping::u64_specs::wrapping_mul(v, prime) >> ((64 - log) as u64)) as int
}

/// Slot of the short hash at `i`.
pub open spec fn short_slot(w: Seq<u8>, i: int, log: u32, width: ChainHashWidth) -> int {
    mul_hash((le8(w, i) as u64) & width.mask_bits(), HASH_PRIME, log)
}

/// Slot of the eight-byte hash at `i`.
pub open spec fn long_slot(w: Seq<u8>, i: int, log: u32) -> int {
    mul_hash(le8(w, i) as u64, HASH_PRIME8, log)
}

/// Number of slots of a table of `log` bits.
pub open spec fn slots(log: u32) -> int {
    pow2(log as nat) as int
}

/// Every hash of `log` bits names a slot of a table of `log` bits.
pub broadcast proof fn lemma_mul_hash_range(v: u64, prime: u64, log: u32)
    requires
        1 <= log < 64,
    ensures
        0 <= #[trigger] mul_hash(v, prime, log) < slots(log),
{
    reveal(mul_hash);
    lemma_top_bits(vstd::wrapping::u64_specs::wrapping_mul(v, prime), log);
}

/// Hashes a word into `log` bits.
pub fn hash_word(v: u64, prime: u64, log: u32) -> (r: u64)
    requires
        1 <= log < 64,
    ensures
        r == mul_hash(v, prime, log),
        r < slots(log),
{
    proof {
        lemma_mul_hash_range(v, prime, log);
        reveal(mul_hash);
    }
    v.wrapping_mul(prime) >> ((64 - log) as u64)
}

/// Hashes a window word whose low five bytes are the hashed prefix.
pub fn hash5_log(v: u64, log: u32) -> (r: u64)
    requires
        1 <= log < 64,
    ensures
        r == mul_hash(v & 0x00ff_ffff_ffff, HASH_PRIME, log),
        r < slots(log),
{
    hash_word(v & 0x00ff_ffff_ffff, HASH_PRIME, log)
}

/// Short hash of the bytes at `idx`.
pub fn hash_at_width(win: &[u8], idx: usize, log: u32, width: ChainHashWidth) -> (r: u64)
    requires
        1 <= log < 64,
        idx + HASH_READ <= win@.len(),
    ensures
        r == short_slot(win@, idx as int, log, width),
        r < slots(log),
{
    proof {
        lemma_le8_eq(win@, idx as int, idx as int);
    }
    hash_word(read8(win, idx) & width.mask(), HASH_PRIME, log)
}

/// Five-byte hash of the bytes at `idx`.
pub fn hash_at_log(win: &[u8], idx: usize, log: u32) -> (r: u64)
    requires
        1 <= log < 64,
        idx + HASH_READ <= win@.len(),
    ensures
        r == short_slot(win@, idx as int, log, ChainHashWidth::Five),
        r < slots(log),
{
    proof {
        lemma_le8_eq(win@, idx as int, idx as int);
    }
    hash5_log(read8(win, idx), log)
}

/// Eight-byte hash of the bytes at `idx`.
pub fn hash8_at_log(win: &[u8], idx: usize, log: u32) -> (r: u64)
    requires
        1 <= log < 64,
        idx + HASH_READ <= win@.len(),
    ensures
        r == long_slot(win@, idx as int, log),
        r < slots(log),
{
    proof {
        lemma_le8_eq(win@, idx as int, idx as int);
    }
    hash_word(read8(win, idx), HASH_PRIME8, log)
}

/// Length of the longest common prefix of `w[i..]` and `w[j..]`.
pub open spec fn common_len(w: Seq<u8>, i: int, j: int) -> int
    decreases w.len() - i,
{
    if i < w.len() && w[i] == w[j] {
        1 + common_len(w, i + 1, j + 1)
    } else {
        0
    }
}

/// The common prefix is what its name says: its bytes agree, it stays inside
/// the window, and the next byte, if there is one, differs.
pub proof fn lemma_common_len(w: Seq<u8>, i: int, j: int)
    ensures
        common_len(w, i, j) >= 0,
        i <= w.len() ==> i + common_len(w, i, j) <= w.len(),
        bytes_agree(w, i, j, common_len(w, i, j)),
        i + common_len(w, i, j) < w.len() ==> w[i + common_len(w, i, j)] != w[j + common_len(
            w,
            i,
            j,
        )],
    decreases w.len() - i,
{
    if i < w.len() && w[i] == w[j] {
        lemma_common_len(w, i + 1, j + 1);
        let n = common_len(w, i + 1, j + 1);
        assert forall|k: int| 0 <= k < n + 1 implies #[trigger] w[i + k] == w[j + k] by {
            if k > 0 {
                assert(w[i + 1 + (k - 1)] == w[j + 1 + (k - 1)]);
            }
        }
    }
}

/// Agreeing bytes peel off the front of a common prefix.
pub proof fn lemma_common_len_skip(w: Seq<u8>, i: int, j: int, n: int)
    requires
        0 <= n,
        i + n <= w.len(),
        bytes_agree(w, i, j, n),
    ensures
        common_len(w, i, j) == n + common_len(w, i + n, j + n),
    decreases n,
{
    if n > 0 {
        assert(w[i + 0] == w[j + 0]);
        assert forall|k: int| 0 <= k < n - 1 implies #[trigger] w[i + 1 + k] == w[j + 1 + k] by {
            assert(w[i + (1 + k)] == w[j + (1 + k)]);
        }
        lemma_common_len_skip(w, i + 1, j + 1, n - 1);
    }
}

/// Length of the longest common prefix of `win[i..]` and `win[j..]`, for a
/// candidate `j` before the scan position `i`.
pub fn extend_match(win: &[u8], i: usize, j: usize) -> (len: usize)
    requires
        j <= i <= win@.len(),
    ensures
        len == common_len(win@, i as int, j as int),
        i + len <= win@.len(),
{
    let limit: usize = win.len() - i;
    let mut len: usize = 0;
    while limit - len >= 8 && read8(win, i + len) == read8(win, j + len)
        invariant
            j <= i <= win@.len(),
            i + limit == win.len(),
            len <= limit,
            common_len(win@, i as int, j as int) == len + common_len(win@, i + len, j + len),
        decreases limit - len,
    {
        proof {
            lemma_le8_eq(win@, i + len, j + len);
            lemma_common_len_skip(win@, i + len, j + len, 8);
        }
        len = len + 8;
    }
    while len < limit && win[i + len] == win[j + len]
        invariant
            j <= i <= win@.len(),
            i + limit == win.len(),
            len <= limit,
            common_len(win@, i as int, j as int) == len + common_len(win@, i + len, j + len),
        decreases limit - len,
    {
        len = len + 1;
    }
    len
}

/// How far a match at `start` with its source at `cand` extends backwards: as
/// long as the bytes before both agree, the match stays above `floor` and the
/// source above `cand_floor`.
pub open spec fn back_len(w: Seq<u8>, start: int, cand: int, floor: int, cand_floor: int) -> int
    decreases start - floor,
{
    if start > floor && cand > cand_floor && w[cand - 1] == w[start - 1] {
        1 + back_len(w, start - 1, cand - 1, floor, cand_floor)
    } else {
        0
    }
}

/// A backward extension stays above both floors, and its bytes agree.
pub proof fn lemma_back_len(w: Seq<u8>, start: int, cand: int, floor: int, cand_floor: int)
    ensures
        ({
            let k = back_len(w, start, cand, floor, cand_floor);
            &&& 0 <= k
            &&& k > 0 ==> start - k >= floor && cand - k >= cand_floor
            &&& bytes_agree(w, start - k, cand - k, k)
            &&& start - k > floor && cand - k > cand_floor ==> w[cand - k - 1] != w[start - k - 1]
        }),
    decreases start - floor,
{
    if start > floor && cand > cand_floor && w[cand - 1] == w[start - 1] {
        lemma_back_len(w, start - 1, cand - 1, floor, cand_floor);
        let k = back_len(w, start, cand, floor, cand_floor);
        assert forall|t: int| 0 <= t < k implies #[trigger] w[start - k + t] == w[cand - k + t] by {
            if t < k - 1 {
                assert(w[start - 1 - (k - 1) + t] == w[cand - 1 - (k - 1) + t]);
            }
        }
    }
}

/// Length of the backward extension of a match.
pub fn extend_back(win: &[u8], start: usize, cand: usize, floor: usize, cand_floor: usize) -> (k:
    usize)
    requires
        cand <= start <= win@.len(),
    ensures
        k == back_len(win@, start as int, cand as int, floor as int, cand_floor as int),
        k <= start,
        k <= cand,
{
    let mut k: usize = 0;
    while start - k > floor && cand - k > cand_floor && win[cand - k - 1] == win[start - k - 1]
        invariant
            cand <= start <= win@.len(),
            k <= cand,
            back_len(win@, start as int, cand as int, floor as int, cand_floor as int) == k
                + back_len(win@, start - k, cand - k, floor as int, cand_floor as int),
        decreases start - k,
    {
        k = k + 1;
    }
    k
}

/// The number of slots of a table of `log` bits.
pub fn slot_count(log: u32) -> (r: usize)
    requires
        log < 32,
    ensures
        r == slots(log),
        r >= 1,
{
    proof {
        vstd::arithmetic::power2::lemma2_to64();
        crate::bits::lemma_pow2_monotone(log as nat, 31);
    }
    pow2_u64(log) as usize
}

} // verus!
