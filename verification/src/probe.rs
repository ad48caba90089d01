//! Sampled content tags: a strided hash of eight-byte words, kept in a small
//! table, tells whether a block may hold repeats before anything is searched.

use vstd::prelude::*;
use crate::gates::{count_distinct, distinct_count, lemma_byte_set_small, GATE_MIN_BLOCK, GATE_PROBE_LOG};
use crate::hash::{le8, lemma_le8_eq, lemma_mul_hash_range, mul_hash, read8, slots, HASH_PRIME8, HASH_READ};
use crate::params::LDM_SYMS_MIN;
use crate::tables::WIN_MAX;

verus! {

/// Hash of the eight bytes at `i`.
#[verifier::opaque]
pub open spec fn word_hash(w: Seq<u8>, i: int) -> u64 {
    vstd::wrapping::u64_specs::wrapping_mul(le8(w, i) as u64, HASH_PRIME8)
}

/// Slot of a sample in a table of `log` bits.
pub open spec fn tag_slot(w: Seq<u8>, i: int, log: u32) -> int {
    mul_hash(le8(w, i) as u64, HASH_PRIME8, log)
}

/// Content tag of a sample.
pub open spec fn tag_of(w: Seq<u8>, i: int) -> u32 {
    (word_hash(w, i) as int % 0x1_0000_0000) as u32
}

/// Lowest byte of a sample's hash. It stands for the sample's first byte: the
/// hash permutes lowest bytes.
pub open spec fn low_byte(w: Seq<u8>, i: int) -> u8 {
    (word_hash(w, i) as int % 0x100) as u8
}

/// Slot, tag and lowest byte of the sample at `i`.
fn sample(win: &[u8], i: usize, log: u32) -> (r: (usize, u32, u8))
    requires
        1 <= log < 32,
        i + HASH_READ <= win@.len(),
    ensures
        r.0 == tag_slot(win@, i as int, log),
        r.0 < slots(log),
        r.1 == tag_of(win@, i as int),
        r.2 == low_byte(win@, i as int),
{
    proof {
        lemma_le8_eq(win@, i as int, i as int);
        lemma_mul_hash_range(le8(win@, i as int) as u64, HASH_PRIME8, log);
        reveal(mul_hash);
        reveal(word_hash);
        vstd::arithmetic::power2::lemma2_to64();
        crate::bits::lemma_pow2_monotone(log as nat, 31);
    }
    let h: u64 = read8(win, i).wrapping_mul(HASH_PRIME8);
    ((h >> ((64 - log) as u64)) as usize, (h % 0x1_0000_0000) as u32, (h % 0x100) as u8)
}

/// Spacing of the samples over `n` bytes: odd, about two thousand of them.
pub open spec fn odd_stride(n: int) -> int {
    let k = n / 2048;
    if k % 2 == 0 {
        k + 1
    } else {
        k
    }
}

/// Spacing of the samples over `n` bytes.
pub fn sample_stride(n: usize) -> (r: usize)
    ensures
        r == odd_stride(n as int),
        r >= 1,
        r <= n + 1,
{
    let k: usize = n / 2048;
    if k % 2 == 0 {
        k + 1
    } else {
        k
    }
}

/// Distinct bytes among the samples of a range.
pub fn sampled_distinct(win: &[u8], start: usize, end: usize) -> (r: u32)
    requires
        start <= end <= win@.len(),
    ensures
        r == distinct_count(win@, start as int, end as int, odd_stride(end - start)),
{
    count_distinct(win, start, end, sample_stride(end - start))
}

/// Whether one of the samples from `i` on repeats the tag of an earlier one in
/// its slot.
pub open spec fn repeats(t: Seq<u32>, w: Seq<u8>, i: int, stride: int, log: u32) -> bool
    decreases
        if w.len() > i {
            w.len() - i
        } else {
            0
        },
{
    if stride <= 0 || i < 0 || i + HASH_READ > w.len() {
        false
    } else {
        let k = tag_slot(w, i, log);
        t[k] == tag_of(w, i) || repeats(t.update(k, tag_of(w, i)), w, i + stride, stride, log)
    }
}

/// Whether the start of a frame is worth long-distance matching: a wide alphabet,
/// and some repeat among the samples.
pub open spec fn head_parses(head: Seq<u8>) -> bool {
    let n = head.len() as int;
    &&& distinct_count(head, 0, n, odd_stride(n)) >= LDM_SYMS_MIN
    &&& repeats(Seq::new(4096, |k: int| 0u32), head, 0, odd_stride(n), 12)
}

/// Screens the start of a frame for long-distance matching.
pub fn ldm_head_parses(head: &[u8]) -> (r: bool)
    requires
        head@.len() <= WIN_MAX,
    ensures
        r == head_parses(head@),
{
    let n: usize = head.len();
    if sampled_distinct(head, 0, n) < LDM_SYMS_MIN {
        return false;
    }
    let stride: usize = sample_stride(n);
    let mut t: Vec<u32> = vec![0; 4096];
    proof {
        vstd::arithmetic::power2::lemma2_to64();
        assert(t@ =~= Seq::new(4096, |k: int| 0u32));
    }
    let mut i: usize = 0;
    while i <= n && n - i >= HASH_READ
        invariant
            n == head@.len(),
            n <= WIN_MAX,
            t@.len() == slots(12),
            stride == odd_stride(n as int),
            distinct_count(head@, 0, n as int, odd_stride(n as int)) >= LDM_SYMS_MIN,
            1 <= stride <= n + 1,
            i <= n + stride,
            repeats(t@, head@, i as int, stride as int, 12) == repeats(
                Seq::new(4096, |k: int| 0u32),
                head@,
                0,
                stride as int,
                12,
            ),
        decreases n + stride - i,
    {
        let (k, tag, _): (usize, u32, u8) = sample(head, i, 12);
        assert(t@.len() == t.len());
        if t[k] == tag {
            return true;
        }
        t.set(k, tag);
        i = i + stride;
    }
    false
}

/// Result of a pass over a block's samples: the table, and the distinct bytes
/// seen unless the pass found the block worth parsing.
pub struct Pass {
    pub t: Seq<u32>,
    pub seen: Option<Set<u8>>,
}

/// Samples of a block from `i` on: a repeated tag keeps the block, and so do
/// implausibly few distinct bytes at two checkpoints.
pub open spec fn gate_pass(t: Seq<u32>, w: Seq<u8>, seen: Set<u8>, i: int, stride: int) -> Pass
    decreases
        if w.len() > i {
            w.len() - i
        } else {
            0
        },
{
    if stride <= 0 || i < 0 || i + HASH_READ > w.len() {
        Pass { t, seen: Some(seen) }
    } else {
        let k = tag_slot(w, i, GATE_PROBE_LOG);
        let tag = tag_of(w, i);
        if t[k] == tag {
            Pass { t, seen: None }
        } else {
            let u = t.update(k, tag);
            let s = seen.insert(low_byte(w, i));
            if (i == 64 * stride && s.len() < 32) || (i == 512 * stride && s.len() < 96) {
                Pass { t: u, seen: None }
            } else {
                gate_pass(u, w, s, i + stride, stride)
            }
        }
    }
}

/// A set of seen bytes as the pass holds it.
pub open spec fn marks(seen: Seq<bool>, s: Set<u8>) -> bool {
    &&& seen.len() == 256
    &&& s.finite()
    &&& forall|b: u8| #[trigger] s.contains(b) == seen[b as int]
}

/// A pass keeps the size of its table and a finite set.
pub proof fn lemma_gate_pass(t: Seq<u32>, w: Seq<u8>, seen: Set<u8>, i: int, stride: int)
    requires
        t.len() == slots(GATE_PROBE_LOG),
        seen.finite(),
    ensures
        gate_pass(t, w, seen, i, stride).t.len() == t.len(),
        gate_pass(t, w, seen, i, stride).seen matches Some(s) ==> s.finite(),
    decreases
        if w.len() > i {
            w.len() - i
        } else {
            0
        },
{
    broadcast use lemma_mul_hash_range;

    if stride <= 0 || i < 0 || i + HASH_READ > w.len() {
    } else {
        let k = tag_slot(w, i, GATE_PROBE_LOG);
        let u = t.update(k, tag_of(w, i));
        lemma_gate_pass(u, w, seen.insert(low_byte(w, i)), i + stride, stride);
    }
}

/// Passes over a block's samples. Returns how many distinct bytes were seen, or
/// nothing if the block is worth parsing.
pub fn run_gate(t: &mut Vec<u32>, block: &[u8]) -> (r: Option<u32>)
    requires
        old(t)@.len() == slots(GATE_PROBE_LOG),
        block@.len() <= WIN_MAX,
    ensures
        ({
            let p = gate_pass(old(t)@, block@, Set::empty(), 0, odd_stride(block@.len() as int));
            &&& final(t)@ == p.t
            &&& match r {
                Some(n) => p.seen matches Some(s) && s.finite() && s.len() == n,
                None => p.seen is None,
            }
        }),
        final(t)@.len() == old(t)@.len(),
{
    let n: usize = block.len();
    let stride: usize = sample_stride(n);
    let ghost all = gate_pass(t@, block@, Set::empty(), 0, stride as int);
    proof {
        lemma_gate_pass(t@, block@, Set::empty(), 0, stride as int);
    }
    let mut seen: Vec<bool> = vec![false; 256];
    let mut count: u32 = 0;
    let ghost mut s: Set<u8> = Set::empty();
    let mut i: usize = 0;
    while i <= n && n - i >= HASH_READ
        invariant
            n == block@.len(),
            n <= WIN_MAX,
            t@.len() == slots(GATE_PROBE_LOG),
            old(t)@.len() == slots(GATE_PROBE_LOG),
            1 <= stride <= n + 1,
            i <= n + stride,
            marks(seen@, s),
            count == s.len(),
            count <= 256,
            all.t.len() == slots(GATE_PROBE_LOG),
            all == gate_pass(old(t)@, block@, Set::empty(), 0, stride as int),
            stride == odd_stride(n as int),
            all == gate_pass(t@, block@, s, i as int, stride as int),
        decreases n + stride - i,
    {
        let (k, tag, b): (usize, u32, u8) = sample(block, i, GATE_PROBE_LOG);
        assert(t@.len() == t.len());
        if t[k] == tag {
            return None;
        }
        t.set(k, tag);
        if !seen[b as usize] {
            seen.set(b as usize, true);
            count = count + 1;
        }
        proof {
            let before = s;
            s = s.insert(b);
            assert forall|x: u8| #[trigger] s.contains(x) == seen@[x as int] by {
                assert(before.contains(x) || !before.contains(x));
            }
            if before.contains(b) {
                assert(s =~= before);
            }
            lemma_byte_set_small(s);
        }
        if (i / 64 == stride && i % 64 == 0 && count < 32) || (i / 512 == stride && i % 512 == 0 && count < 96) {
            return None;
        }
        i = i + stride;
    }
    Some(count)
}

/// A table with the samples from `i` up to `to` stored.
pub open spec fn stored(t: Seq<u32>, w: Seq<u8>, i: int, to: int, stride: int) -> Seq<u32>
    decreases
        if to > i {
            to - i
        } else {
            0
        },
{
    if stride <= 0 || i < 0 || i + HASH_READ > to {
        t
    } else {
        stored(t.update(tag_slot(w, i, GATE_PROBE_LOG), tag_of(w, i)), w, i + stride, to, stride)
    }
}

/// A table with the samples of the blocks of `w` from `off` on stored, as passes
/// over the blocks would have left them.
pub open spec fn replayed(t: Seq<u32>, w: Seq<u8>, off: int, block: int) -> Seq<u32>
    decreases w.len() - off,
{
    if block <= 0 || off < 0 || off >= w.len() {
        t
    } else {
        let seg = if w.len() - off < block {
            w.len() - off
        } else {
            block
        };
        let u = if seg >= GATE_MIN_BLOCK {
            stored(t, w, off, off + seg, odd_stride(seg))
        } else {
            t
        };
        replayed(u, w, off + seg, block)
    }
}

/// The table that prefilled history leaves: cleared, then sampled block by block.
/// Without a table and with less than a block there is still none.
pub open spec fn seeded_probe(t: Seq<u32>, w: Seq<u8>, block: int) -> Seq<u32> {
    if w.len() < GATE_MIN_BLOCK {
        Seq::new(t.len(), |k: int| 0u32)
    } else {
        replayed(Seq::new(slots(GATE_PROBE_LOG) as nat, |k: int| 0u32), w, 0, block)
    }
}

/// A cleared table of `n` slots.
pub fn zeroed(n: usize) -> (t: Vec<u32>)
    ensures
        t@ == Seq::new(n as nat, |k: int| 0u32),
{
    let t: Vec<u32> = vec![0; n];
    assert(t@ =~= Seq::new(n as nat, |k: int| 0u32));
    t
}

/// Resets the table to prefilled history.
pub fn seed_gate_probe(t: &mut Vec<u32>, data: &[u8], block: usize)
    requires
        old(t)@.len() == 0 || old(t)@.len() == slots(GATE_PROBE_LOG),
        block >= 1,
        data@.len() <= WIN_MAX,
    ensures
        final(t)@ == seeded_probe(old(t)@, data@, block as int),
        final(t)@.len() == 0 || final(t)@.len() == slots(GATE_PROBE_LOG),
{
    if data.len() < GATE_MIN_BLOCK {
        let n: usize = t.len();
        *t = zeroed(n);
        return;
    }
    *t = zeroed(crate::hash::slot_count(GATE_PROBE_LOG));
    let ghost t0 = t@;
    let mut off: usize = 0;
    while off < data.len()
        invariant
            off <= data@.len(),
            block >= 1,
            data@.len() <= WIN_MAX,
            t@.len() == slots(GATE_PROBE_LOG),
            replayed(t@, data@, off as int, block as int) == replayed(t0, data@, 0, block as int),
        decreases data@.len() - off,
    {
        let seg: usize = if data.len() - off < block {
            data.len() - off
        } else {
            block
        };
        if seg >= GATE_MIN_BLOCK {
            store_samples(t, data, off, off + seg, sample_stride(seg));
        }
        off = off + seg;
    }
}

/// Stores the samples from `from` up to `to`.
fn store_samples(t: &mut Vec<u32>, data: &[u8], from: usize, to: usize, stride: usize)
    requires
        old(t)@.len() == slots(GATE_PROBE_LOG),
        from <= to <= data@.len(),
        data@.len() <= WIN_MAX,
        1 <= stride <= WIN_MAX,
    ensures
        final(t)@ == stored(old(t)@, data@, from as int, to as int, stride as int),
        final(t)@.len() == old(t)@.len(),
{
    let mut i: usize = from;
    while i <= to && to - i >= HASH_READ
        invariant
            t@.len() == slots(GATE_PROBE_LOG),
            old(t)@.len() == slots(GATE_PROBE_LOG),
            to <= data@.len(),
            data@.len() <= WIN_MAX,
            1 <= stride <= WIN_MAX,
            i <= to + stride,
            stored(t@, data@, i as int, to as int, stride as int) == stored(
                old(t)@,
                data@,
                from as int,
                to as int,
                stride as int,
            ),
        decreases to + stride - i,
    {
        let (k, tag, _): (usize, u32, u8) = sample(data, i, GATE_PROBE_LOG);
        assert(t@.len() == t.len());
        t.set(k, tag);
        i = i + stride;
    }
}

/// Slots of the far-repeat screen.
pub const FAR_SLOTS: usize = 131072;

/// Spacing of the far-repeat screen's samples.
pub const FAR_STRIDE: usize = 4096;

/// Slot of a sample of the far-repeat screen.
pub open spec fn far_slot(w: Seq<u8>, i: int) -> int {
    word_hash(w, i) as int / 0x2000_0000_0000 % 0x2_0000
}

/// How many of the samples from the `n`-th on repeat the tag that their slot has
/// held for at least `far` samples. A slot keeps its latest sample.
pub open spec fn far_hits(tags: Seq<u32>, at: Seq<u32>, w: Seq<u8>, n: int, far: int) -> int
    decreases w.len() - n,
{
    let i = n * FAR_STRIDE;
    if n < 0 || i + HASH_READ > w.len() {
        0
    } else {
        let k = far_slot(w, i);
        let hit = tags[k] == tag_of(w, i) && n - at[k] >= far;
        (if hit {
            1int
        } else {
            0
        }) + far_hits(tags.update(k, tag_of(w, i)), at.update(k, n as u32), w, n + 1, far)
    }
}

/// Number of samples of the far-repeat screen.
pub open spec fn far_samples(len: int) -> int {
    if len >= HASH_READ {
        (len - HASH_READ) / (FAR_STRIDE as int) + 1
    } else {
        0
    }
}

/// Whether repeats beyond `reach` cover a twelfth of the samples.
pub open spec fn far_dominates(w: Seq<u8>, reach: int) -> bool {
    let far = if reach / (FAR_STRIDE as int) < 1 {
        1
    } else {
        reach / (FAR_STRIDE as int)
    };
    let zero = Seq::new(FAR_SLOTS as nat, |k: int| 0u32);
    far_hits(zero, zero, w, 0, far) * 12 >= far_samples(w.len() as int)
}

/// Whether repeats beyond `reach` dominate a span.
pub fn far_repeat_dominant(win: &[u8], reach: usize) -> (r: bool)
    requires
        win@.len() <= WIN_MAX,
    ensures
        r == far_dominates(win@, reach as int),
{
    let len: usize = win.len();
    let mut far: usize = reach / FAR_STRIDE;
    if far < 1 {
        far = 1;
    }
    let mut tags: Vec<u32> = zeroed(FAR_SLOTS);
    let mut at: Vec<u32> = zeroed(FAR_SLOTS);
    let ghost zero = Seq::new(FAR_SLOTS as nat, |k: int| 0u32);
    let mut hits: u32 = 0;
    let mut n: u32 = 0;
    while (n as usize) * FAR_STRIDE <= len && len - (n as usize) * FAR_STRIDE >= HASH_READ
        invariant
            len == win@.len(),
            len <= WIN_MAX,
            tags@.len() == FAR_SLOTS,
            at@.len() == FAR_SLOTS,
            hits <= n,
            n <= far_samples(len as int),
            n <= 0x10_0000,
            far_samples(len as int) <= 0x10_0000,
            zero == Seq::new(FAR_SLOTS as nat, |k: int| 0u32),
            hits + far_hits(tags@, at@, win@, n as int, far as int) == far_hits(zero, zero, win@, 0, far as int),
        decreases far_samples(len as int) - n,
    {
        let i: usize = (n as usize) * FAR_STRIDE;
        proof {
            lemma_le8_eq(win@, i as int, i as int);
            reveal(word_hash);
        }
        let h: u64 = read8(win, i).wrapping_mul(HASH_PRIME8);
        let k: usize = (h / 0x2000_0000_0000 % 0x2_0000) as usize;
        let tag: u32 = (h % 0x1_0000_0000) as u32;
        if tags[k] == tag && n >= at[k] && (n - at[k]) as usize >= far {
            hits = hits + 1;
        }
        tags.set(k, tag);
        at.set(k, n);
        n = n + 1;
    }
    hits * 12 >= n
}

} // verus!
