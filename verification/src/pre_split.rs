//! Where a full block is cut before it is parsed: sampled fingerprints of its
//! content tell whether its start and what follows belong together.

use vstd::prelude::*;
use crate::driver::MatchGeneratorDriver;
use crate::gates::{count_distinct, distinct_count};
use crate::hash::{slot_count, slots};
use crate::params::Strategy;
use vstd::arithmetic::power2::pow2;

verus! {

/// Only blocks of this size are cut.
pub const SPLIT_BLOCK: usize = 131072;

/// Savings that a frame must have shown before a block is cut.
pub const SAVINGS_MIN: i64 = 3;

/// Distinct bytes from which a sample counts as wide.
pub const SPLIT_SYMS_MIN: u32 = 128;

/// Length of a sample of the alphabet.
pub const SCREEN_PROBE: usize = 4096;

/// Blocks whose alphabet is looked at before a frame is given up.
pub const SCREEN_BLOCKS: u8 = 4;

/// Bytes of a fingerprinted chunk.
pub const CHUNK: usize = 8192;

/// Bytes of a fingerprinted border.
pub const SEGMENT: usize = 512;

/// Multiplier of the pair hash.
pub const KNUTH: u32 = 0x9e37_79b9;

/// How closely a block is looked at.
#[derive(Clone, Copy, PartialEq, Eq, Structural, Debug)]
pub enum SplitLevel {
    /// Byte histograms of its borders and its middle.
    Borders,
    /// Fingerprints of its chunks: every `rate`-th pair, hashed to `hash_log`
    /// bits.
    Chunks { rate: usize, hash_log: u32 },
}

/// A fingerprint: how often each hash was sampled, and the number of samples that
/// it counts as.
#[verifier::ext_equal]
pub struct Print {
    pub ev: Seq<int>,
    pub nb: int,
}

impl SplitLevel {
    /// A level whose samples fit a block.
    pub open spec fn wf(self) -> bool {
        match self {
            SplitLevel::Borders => true,
            SplitLevel::Chunks { rate, hash_log } => 1 <= rate <= 1024 && 8 <= hash_log <= 10,
        }
    }

    /// The chunk levels, from the sparsest to the densest.
    pub open spec fn chunk_row(row: int) -> SplitLevel {
        if row == 0 {
            SplitLevel::Chunks { rate: 43, hash_log: 8 }
        } else if row == 1 {
            SplitLevel::Chunks { rate: 11, hash_log: 9 }
        } else if row == 2 {
            SplitLevel::Chunks { rate: 5, hash_log: 10 }
        } else {
            SplitLevel::Chunks { rate: 1, hash_log: 10 }
        }
    }

    /// A chunk level, from the sparsest to the densest.
    pub fn chunked(row: usize) -> (r: Self)
        requires
            row < 4,
        ensures
            r == SplitLevel::chunk_row(row as int),
            r.wf(),
    {
        if row == 0 {
            SplitLevel::Chunks { rate: 43, hash_log: 8 }
        } else if row == 1 {
            SplitLevel::Chunks { rate: 11, hash_log: 9 }
        } else if row == 2 {
            SplitLevel::Chunks { rate: 5, hash_log: 10 }
        } else {
            SplitLevel::Chunks { rate: 1, hash_log: 10 }
        }
    }

    /// The level of an effort from zero to four; none beyond.
    pub fn from_effort(level: u8) -> (r: Option<Self>)
        ensures
            r == if level == 0 {
                Some(SplitLevel::Borders)
            } else if level <= 4 {
                Some(SplitLevel::chunk_row(level - 1))
            } else {
                None
            },
            r matches Some(l) ==> l.wf(),
    {
        if level == 0 {
            Some(SplitLevel::Borders)
        } else if level <= 4 {
            Some(SplitLevel::chunked((level - 1) as usize))
        } else {
            None
        }
    }
}

/// Hash of the pair at `n`: the first byte for eight bits, else the scaled pair.
pub open spec fn pair_hash(w: Seq<u8>, n: int, log: u32) -> int {
    if log == 8 {
        w[n] as int
    } else {
        ((w[n] + 0x100 * w[n + 1]) * KNUTH) % 0x1_0000_0000 / (pow2((32 - log) as nat) as int)
    }
}

/// How many of the samples at `n`, `n + rate`, ... below `limit` have the hash `h`.
pub open spec fn hits(w: Seq<u8>, n: int, limit: int, rate: int, log: u32, h: int) -> int
    decreases
        if limit > n {
            limit - n
        } else {
            0
        },
{
    if n < limit && rate > 0 {
        hits(w, n + rate, limit, rate, log, h) + if pair_hash(w, n, log) == h {
            1int
        } else {
            0
        }
    } else {
        0
    }
}

/// Fingerprint of a chunk. Its pairs overlap its end by nothing, so the last byte
/// starts no sample.
pub open spec fn print_of(w: Seq<u8>, rate: int, log: u32) -> Print {
    let limit = w.len() - 1;
    Print {
        ev: Seq::new(slots(log) as nat, |h: int| hits(w, 0, limit, rate, log, h)),
        nb: limit / rate,
    }
}

/// The larger of a number and its negative.
pub open spec fn magnitude(x: int) -> int {
    if x < 0 {
        -x
    } else {
        x
    }
}

/// Distance of two fingerprints over their first `n` hashes, each scaled by the
/// other's samples.
pub open spec fn distance(a: Print, b: Print, n: int) -> int
    decreases n,
{
    if n <= 0 {
        0
    } else {
        distance(a, b, n - 1) + magnitude(a.ev[n - 1] * b.nb - b.ev[n - 1] * a.nb)
    }
}

/// Whether two fingerprints are too far apart for one block. A penalty makes the
/// test more lenient.
pub open spec fn differs(a: Print, b: Print, penalty: int) -> bool {
    distance(a, b, a.ev.len() as int) >= a.nb * b.nb * (14 + penalty) / 16
}

/// Two fingerprints taken together.
pub open spec fn merged(a: Print, b: Print) -> Print {
    Print { ev: Seq::new(a.ev.len(), |h: int| a.ev[h] + b.ev[h]), nb: a.nb + b.nb }
}

/// Where the chunks from `pos` on stop belonging to what came before, or the end.
pub open spec fn chunk_cut(w: Seq<u8>, rate: int, log: u32, past: Print, penalty: int, pos: int) -> int
    decreases
        if w.len() > pos {
            w.len() - pos
        } else {
            0
        },
{
    if pos + CHUNK > w.len() {
        w.len() as int
    } else {
        let new = print_of(w.subrange(pos, pos + CHUNK), rate, log);
        if differs(past, new, penalty) {
            pos
        } else {
            chunk_cut(
                w,
                rate,
                log,
                merged(past, new),
                if penalty > 0 {
                    penalty - 1
                } else {
                    0
                },
                pos + CHUNK,
            )
        }
    }
}

/// How often `b` occurs among the first `n` bytes.
pub open spec fn occurrences(w: Seq<u8>, n: int, b: int) -> int
    decreases n,
{
    if n <= 0 {
        0
    } else {
        occurrences(w, n - 1, b) + if w[n - 1] == b {
            1int
        } else {
            0
        }
    }
}

/// Byte histogram of a segment as a fingerprint.
pub open spec fn byte_print(w: Seq<u8>) -> Print {
    Print {
        ev: Seq::new(256, |b: int| occurrences(w, w.len() as int, b)),
        nb: w.len() as int,
    }
}

/// Where a block is cut by its borders: nowhere if they agree, in the middle if
/// that lies evenly between them, else on the side of the border that the middle
/// is like.
pub open spec fn border_cut(w: Seq<u8>) -> int {
    let n = w.len() as int;
    let first = byte_print(w.take(SEGMENT as int));
    let last = byte_print(w.subrange(n - SEGMENT, n));
    let mid = n / 2 - 256;
    let middle = byte_print(w.subrange(mid, mid + SEGMENT));
    let a = distance(first, middle, 256);
    let b = distance(last, middle, 256);
    if !differs(first, last, 0) {
        n
    } else if magnitude(a - b) < 87381 {
        65536
    } else if a > b {
        32768
    } else {
        98304
    }
}

/// Where a full block is cut; at its end if it stays whole.
pub open spec fn cut_of(w: Seq<u8>, level: SplitLevel) -> int {
    match level {
        SplitLevel::Borders => border_cut(w),
        SplitLevel::Chunks { rate, hash_log } => chunk_cut(
            w,
            rate as int,
            hash_log,
            print_of(w.take(CHUNK as int), rate as int, hash_log),
            3,
            CHUNK as int,
        ),
    }
}

/// A cut leaves something on the left, and is never past the end. Chunks are cut
/// between chunks.
pub proof fn lemma_chunk_cut(w: Seq<u8>, rate: int, log: u32, past: Print, penalty: int, pos: int)
    requires
        0 < pos <= w.len(),
        pos % 8192 == 0,
    ensures
        0 < chunk_cut(w, rate, log, past, penalty, pos) <= w.len(),
        chunk_cut(w, rate, log, past, penalty, pos) < w.len() ==> chunk_cut(
            w,
            rate,
            log,
            past,
            penalty,
            pos,
        ) % 8192 == 0,
    decreases w.len() - pos,
{
    if pos + CHUNK <= w.len() {
        let new = print_of(w.subrange(pos, pos + CHUNK), rate, log);
        if !differs(past, new, penalty) {
            lemma_chunk_cut(
                w,
                rate,
                log,
                merged(past, new),
                if penalty > 0 {
                    penalty - 1
                } else {
                    0
                },
                pos + CHUNK,
            );
        }
    }
}

/// A full block is cut into two parts that are not empty, or stays whole, and
/// every part but the last is a multiple of a chunk.
pub proof fn lemma_cut_of(w: Seq<u8>, level: SplitLevel)
    requires
        w.len() == SPLIT_BLOCK,
    ensures
        0 < cut_of(w, level) <= w.len(),
        cut_of(w, level) % 8192 == 0,
{
    if let SplitLevel::Chunks { rate, hash_log } = level {
        lemma_chunk_cut(
            w,
            rate as int,
            hash_log,
            print_of(w.take(CHUNK as int), rate as int, hash_log),
            3,
            CHUNK as int,
        );
    }
}

/// Samples below a limit are no more than the positions below it.
proof fn lemma_hits(w: Seq<u8>, n: int, limit: int, rate: int, log: u32, h: int)
    ensures
        0 <= hits(w, n, limit, rate, log, h),
        n <= limit ==> hits(w, n, limit, rate, log, h) <= limit - n,
        n > limit ==> hits(w, n, limit, rate, log, h) == 0,
    decreases
        if limit > n {
            limit - n
        } else {
            0
        },
{
    if n < limit && rate > 0 {
        lemma_hits(w, n + rate, limit, rate, log, h);
    }
}

/// A fingerprint with at most `n` samples of a hash, in machine numbers.
pub struct Fingerprint {
    pub events: Vec<u32>,
    pub nb_events: u64,
}

impl View for Fingerprint {
    type V = Print;

    open spec fn view(&self) -> Print {
        Print {
            ev: Seq::new(self.events@.len(), |h: int| self.events@[h] as int),
            nb: self.nb_events as int,
        }
    }
}

impl Print {
    /// A fingerprint of at most `n` bytes.
    pub open spec fn bounded(self, n: int) -> bool {
        &&& self.nb <= n
        &&& forall|h: int| 0 <= h < self.ev.len() ==> 0 <= #[trigger] self.ev[h] <= n
    }
}

/// Hash of the pair at `n`.
fn hash2(src: &[u8], n: usize, log: u32) -> (r: usize)
    requires
        8 <= log <= 10,
        n + 1 < src@.len(),
    ensures
        r == pair_hash(src@, n as int, log),
        r < slots(log),
{
    proof {
        vstd::arithmetic::power2::lemma2_to64();
    }
    if log == 8 {
        return src[n] as usize;
    }
    let pair: u64 = src[n] as u64 + 0x100 * src[n + 1] as u64;
    assert(0 <= pair * KNUTH <= 0xffff * 0xffff_ffff) by (nonlinear_arith)
        requires
            pair <= 0xffff,
    ;
    let scaled: u64 = (pair * KNUTH as u64) % 0x1_0000_0000;
    if log == 9 {
        (scaled / 0x80_0000) as usize
    } else {
        (scaled / 0x40_0000) as usize
    }
}

impl Fingerprint {
    /// A fingerprint of nothing.
    fn zeroed(log: u32) -> (r: Self)
        requires
            8 <= log <= 10,
        ensures
            r.events@.len() == slots(log),
            forall|h: int| 0 <= h < r.events@.len() ==> r.events@[h] == 0,
            r.nb_events == 0,
    {
        Fingerprint { events: vec![0; slot_count(log)], nb_events: 0 }
    }
}

/// Fingerprint of a chunk.
fn record_fingerprint(src: &[u8], rate: usize, log: u32) -> (fp: Fingerprint)
    requires
        8 <= log <= 10,
        1 <= rate <= 1024,
        2 <= src@.len() <= SPLIT_BLOCK,
    ensures
        fp@ == print_of(src@, rate as int, log),
        fp@.ev.len() == slots(log),
        fp@.bounded(src@.len() as int),
{
    let mut fp: Fingerprint = Fingerprint::zeroed(log);
    let limit: usize = src.len() - 1;
    let mut n: usize = 0;
    while n < limit
        invariant
            8 <= log <= 10,
            1 <= rate <= 1024,
            limit == src@.len() - 1,
            src@.len() <= SPLIT_BLOCK,
            n <= limit + 1024,
            fp.events@.len() == slots(log),
            fp.nb_events == 0,
            forall|h: int|
                0 <= h < slots(log) ==> #[trigger] fp.events@[h] + hits(
                    src@,
                    n as int,
                    limit as int,
                    rate as int,
                    log,
                    h,
                ) == hits(src@, 0, limit as int, rate as int, log, h),
        decreases limit + 1024 - n,
    {
        let h: usize = hash2(src, n, log);
        proof {
            lemma_hits(src@, 0, limit as int, rate as int, log, h as int);
            lemma_hits(src@, n as int, limit as int, rate as int, log, h as int);
        }
        assert(fp.events@.len() == fp.events.len());
        let c: u32 = fp.events[h];
        assert(fp.events@[h as int] + hits(src@, n as int, limit as int, rate as int, log, h as int) <= limit);
        fp.events.set(h, c + 1);
        n = n + rate;
    }
    fp.nb_events = (limit / rate) as u64;
    proof {
        assert forall|h: int| 0 <= h < slots(log) implies fp@.ev[h] == print_of(src@, rate as int, log).ev[h] by {
            lemma_hits(src@, n as int, limit as int, rate as int, log, h);
            assert(fp.events@[h] + hits(src@, n as int, limit as int, rate as int, log, h) == hits(
                src@,
                0,
                limit as int,
                rate as int,
                log,
                h,
            ));
        }
        assert forall|h: int| 0 <= h < fp@.ev.len() implies 0 <= #[trigger] fp@.ev[h] <= src@.len() by {
            lemma_hits(src@, 0, limit as int, rate as int, log, h);
        }
        assert(fp@ =~= print_of(src@, rate as int, log));
        assert(limit / rate <= limit) by (nonlinear_arith)
            requires
                rate >= 1,
        ;
    }
    fp
}

/// Difference of two scaled counts, without its sign.
fn scaled_gap(x: u64, y: u64) -> (r: u64)
    ensures
        r == magnitude(x - y),
{
    if x < y {
        y - x
    } else {
        x - y
    }
}

/// Distance of two fingerprints.
fn fp_distance(a: &Fingerprint, b: &Fingerprint) -> (r: u64)
    requires
        a@.ev.len() == b@.ev.len(),
        a@.ev.len() <= 1024,
        a@.bounded(SPLIT_BLOCK as int),
        b@.bounded(SPLIT_BLOCK as int),
    ensures
        r == distance(a@, b@, a@.ev.len() as int),
        r <= 1024 * 0x4_0000_0000,
{
    let mut sum: u64 = 0;
    let mut i: usize = 0;
    while i < a.events.len()
        invariant
            i <= a.events@.len(),
            a.events@.len() == b.events@.len(),
            a.events@.len() <= 1024,
            a@.bounded(SPLIT_BLOCK as int),
            b@.bounded(SPLIT_BLOCK as int),
            sum == distance(a@, b@, i as int),
            sum <= i * 0x4_0000_0000,
        decreases a.events@.len() - i,
    {
        assert(a@.ev[i as int] <= SPLIT_BLOCK && b@.ev[i as int] <= SPLIT_BLOCK);
        let x: u64 = a.events[i] as u64;
        let y: u64 = b.events[i] as u64;
        assert(0 <= x * b.nb_events <= 0x4_0000_0000) by (nonlinear_arith)
            requires
                x <= 0x2_0000,
                b.nb_events <= 0x2_0000,
        ;
        assert(0 <= y * a.nb_events <= 0x4_0000_0000) by (nonlinear_arith)
            requires
                y <= 0x2_0000,
                a.nb_events <= 0x2_0000,
        ;
        sum = sum + scaled_gap(x * b.nb_events, y * a.nb_events);
        i = i + 1;
    }
    sum
}

/// Whether two fingerprints are too far apart for one block.
fn too_different(a: &Fingerprint, b: &Fingerprint, penalty: u32) -> (r: bool)
    requires
        a@.ev.len() == b@.ev.len(),
        a@.ev.len() <= 1024,
        a@.bounded(SPLIT_BLOCK as int),
        b@.bounded(SPLIT_BLOCK as int),
        penalty <= 3,
    ensures
        r == differs(a@, b@, penalty as int),
{
    let p: u64 = {
        assert(0 <= a.nb_events * b.nb_events <= 0x4_0000_0000) by (nonlinear_arith)
            requires
                a.nb_events <= 0x2_0000,
                b.nb_events <= 0x2_0000,
        ;
        a.nb_events * b.nb_events
    };
    let scale: u64 = 14 + penalty as u64;
    assert(0 <= p * scale <= 0x4_0000_0000 * 17) by (nonlinear_arith)
        requires
            p <= 0x4_0000_0000,
            scale <= 17,
    ;
    fp_distance(a, b) >= p * scale / 16
}

/// Folds the newer fingerprint into the older.
fn merge_events(acc: &mut Fingerprint, new: &Fingerprint, Ghost(n): Ghost<int>)
    requires
        old(acc)@.ev.len() == new@.ev.len(),
        old(acc)@.bounded(n),
        new@.bounded(CHUNK as int),
        0 <= n <= SPLIT_BLOCK,
    ensures
        final(acc)@ == merged(old(acc)@, new@),
        final(acc)@.bounded(n + CHUNK),
{
    let ghost a0 = acc@;
    let mut i: usize = 0;
    while i < new.events.len()
        invariant
            i <= new.events@.len(),
            acc.events@.len() == new.events@.len(),
            a0.ev.len() == new.events@.len(),
            acc.nb_events == a0.nb,
            a0.bounded(n),
            new@.bounded(CHUNK as int),
            0 <= n <= SPLIT_BLOCK,
            forall|h: int| 0 <= h < i ==> #[trigger] acc.events@[h] == a0.ev[h] + new@.ev[h],
            forall|h: int| i <= h < new.events@.len() ==> #[trigger] acc.events@[h] == a0.ev[h],
        decreases new.events@.len() - i,
    {
        assert(a0.ev[i as int] <= n && new@.ev[i as int] <= CHUNK);
        assert(acc.events@[i as int] == a0.ev[i as int]);
        let c: u32 = acc.events[i] + new.events[i];
        acc.events.set(i, c);
        i = i + 1;
    }
    acc.nb_events = acc.nb_events + new.nb_events;
    assert(acc@ =~= merged(a0, new@));
    assert forall|h: int| 0 <= h < acc@.ev.len() implies 0 <= #[trigger] acc@.ev[h] <= n + CHUNK by {
        assert(a0.ev[h] <= n && new@.ev[h] <= CHUNK);
    }
}

/// Cuts a full block between its chunks.
fn split_by_chunks(block: &[u8], rate: usize, log: u32) -> (r: usize)
    requires
        8 <= log <= 10,
        1 <= rate <= 1024,
        block@.len() == SPLIT_BLOCK,
    ensures
        r == cut_of(block@, SplitLevel::Chunks { rate, hash_log: log }),
{
    proof {
        vstd::arithmetic::power2::lemma2_to64();
    }
    let head: &[u8] = vstd::slice::slice_subrange(block, 0, CHUNK);
    assert(head@ =~= block@.take(CHUNK as int));
    let mut past: Fingerprint = record_fingerprint(head, rate, log);
    let mut penalty: u32 = 3;
    let mut pos: usize = CHUNK;
    let ghost all = cut_of(block@, SplitLevel::Chunks { rate, hash_log: log });
    while pos + CHUNK <= block.len()
        invariant
            8 <= log <= 10,
            1 <= rate <= 1024,
            block@.len() == SPLIT_BLOCK,
            penalty <= 3,
            CHUNK <= pos <= SPLIT_BLOCK,
            past@.ev.len() == slots(log),
            slots(log) <= 1024,
            past@.bounded(pos as int),
            all == chunk_cut(block@, rate as int, log, past@, penalty as int, pos as int),
            all == cut_of(block@, SplitLevel::Chunks { rate, hash_log: log }),
        decreases SPLIT_BLOCK - pos,
    {
        let chunk: &[u8] = vstd::slice::slice_subrange(block, pos, pos + CHUNK);
        let new: Fingerprint = record_fingerprint(chunk, rate, log);
        assert(past@.bounded(SPLIT_BLOCK as int));
        assert(new@.bounded(SPLIT_BLOCK as int));
        if too_different(&past, &new, penalty) {
            return pos;
        }
        merge_events(&mut past, &new, Ghost(pos as int));
        if penalty > 0 {
            penalty = penalty - 1;
        }
        pos = pos + CHUNK;
    }
    block.len()
}

/// One byte occurs no more often than there are bytes.
proof fn lemma_occurrences(w: Seq<u8>, n: int, b: int)
    requires
        0 <= n,
    ensures
        0 <= occurrences(w, n, b) <= n,
    decreases n,
{
    if n > 0 {
        lemma_occurrences(w, n - 1, b);
    }
}

/// Byte histogram of a segment.
fn segment_print(src: &[u8]) -> (fp: Fingerprint)
    requires
        src@.len() <= SPLIT_BLOCK,
    ensures
        fp@ == byte_print(src@),
        fp@.bounded(src@.len() as int),
{
    proof {
        vstd::arithmetic::power2::lemma2_to64();
    }
    let mut fp: Fingerprint = Fingerprint::zeroed(8);
    let mut n: usize = 0;
    while n < src.len()
        invariant
            n <= src@.len(),
            src@.len() <= SPLIT_BLOCK,
            fp.events@.len() == 256,
            forall|b: int| 0 <= b < 256 ==> #[trigger] fp.events@[b] == occurrences(src@, n as int, b),
        decreases src@.len() - n,
    {
        let b: usize = src[n] as usize;
        proof {
            lemma_occurrences(src@, n as int, b as int);
        }
        let c: u32 = fp.events[b];
        assert(fp.events@[b as int] == occurrences(src@, n as int, b as int));
        fp.events.set(b, c + 1);
        n = n + 1;
    }
    fp.nb_events = src.len() as u64;
    assert(fp@ =~= byte_print(src@));
    assert forall|b: int| 0 <= b < fp@.ev.len() implies 0 <= #[trigger] fp@.ev[b] <= src@.len() by {
        lemma_occurrences(src@, src@.len() as int, b);
    }
    fp
}

/// Cuts a full block by its borders.
fn split_from_borders(block: &[u8]) -> (r: usize)
    requires
        block@.len() == SPLIT_BLOCK,
    ensures
        r == border_cut(block@),
{
    let n: usize = block.len();
    let head: &[u8] = vstd::slice::slice_subrange(block, 0, SEGMENT);
    assert(head@ =~= block@.take(SEGMENT as int));
    let first: Fingerprint = segment_print(head);
    let last: Fingerprint = segment_print(vstd::slice::slice_subrange(block, n - SEGMENT, n));
    assert(first@.bounded(SPLIT_BLOCK as int) && last@.bounded(SPLIT_BLOCK as int));
    if !too_different(&first, &last, 0) {
        return n;
    }
    let mid: usize = n / 2 - 256;
    let middle: Fingerprint = segment_print(vstd::slice::slice_subrange(block, mid, mid + SEGMENT));
    assert(middle@.bounded(SPLIT_BLOCK as int));
    let a: u64 = fp_distance(&first, &middle);
    let b: u64 = fp_distance(&last, &middle);
    if scaled_gap(a, b) < 87381 {
        65536
    } else if a > b {
        32768
    } else {
        98304
    }
}

/// Where a full block is cut; its length if it stays whole.
pub fn split_block(block: &[u8], level: SplitLevel) -> (r: usize)
    requires
        block@.len() == SPLIT_BLOCK,
        level.wf(),
    ensures
        r == cut_of(block@, level),
        0 < r <= block@.len(),
{
    proof {
        lemma_cut_of(block@, level);
    }
    match level {
        SplitLevel::Borders => split_from_borders(block),
        SplitLevel::Chunks { rate, hash_log } => split_by_chunks(block, rate, hash_log),
    }
}

/// Whether one of three samples of a block has a wide alphabet.
pub open spec fn wide(w: Seq<u8>) -> bool {
    let n = w.len() as int;
    let mid = n / 2 - 2048;
    ||| distinct_count(w, 0, SCREEN_PROBE as int, 1) >= SPLIT_SYMS_MIN
    ||| distinct_count(w, mid, mid + SCREEN_PROBE, 1) >= SPLIT_SYMS_MIN
    ||| distinct_count(w, n - SCREEN_PROBE, n, 1) >= SPLIT_SYMS_MIN
}

/// Whether one of three samples of a block has a wide alphabet.
fn wide_alphabet(window: &[u8]) -> (r: bool)
    requires
        window@.len() >= SCREEN_PROBE,
    ensures
        r == wide(window@),
{
    let n: usize = window.len();
    let mid: usize = n / 2 - 2048;
    count_distinct(window, 0, SCREEN_PROBE, 1) >= SPLIT_SYMS_MIN || count_distinct(
        window,
        mid,
        mid + SCREEN_PROBE,
        1,
    ) >= SPLIT_SYMS_MIN || count_distinct(window, n - SCREEN_PROBE, n, 1) >= SPLIT_SYMS_MIN
}

/// What a frame has saved so far, and whether its blocks may be cut.
#[derive(Clone, Copy, Debug)]
pub struct FrameSavings {
    pub savings: i64,
    /// A block with a wide alphabet has been seen.
    pub armed: bool,
    /// Blocks whose alphabet was not wide.
    pub screened: u8,
}

impl FrameSavings {
    /// A frame without blocks.
    pub fn new() -> (r: Self)
        ensures
            r == (FrameSavings { savings: 0, armed: false, screened: 0 }),
    {
        FrameSavings { savings: 0, armed: false, screened: 0 }
    }

    /// The alphabet of a block decides for the frame: the first wide one arms it,
    /// a few narrow ones give it up.
    pub open spec fn looked(self, w: Seq<u8>) -> FrameSavings {
        if self.armed || self.screened >= SCREEN_BLOCKS {
            self
        } else {
            FrameSavings { armed: wide(w), screened: (self.screened + 1) as u8, ..self }
        }
    }

    /// Whether the next block may be cut at all: it is full, the frame has saved
    /// something, and its row cuts blocks.
    pub open spec fn considers(self, w: Seq<u8>, level: Option<SplitLevel>) -> bool {
        w.len() >= SPLIT_BLOCK && self.savings >= SAVINGS_MIN && level is Some
    }

    /// The frame after its next block's size is decided.
    pub open spec fn after(self, w: Seq<u8>, level: Option<SplitLevel>) -> FrameSavings {
        if self.considers(w, level) {
            self.looked(w)
        } else {
            self
        }
    }

    /// Size of the next block.
    pub open spec fn size_of(self, w: Seq<u8>, level: Option<SplitLevel>) -> int {
        if self.considers(w, level) && self.looked(w).armed {
            cut_of(w, level->Some_0)
        } else {
            w.len() as int
        }
    }

    /// Size of the next block, of the bytes that are there.
    pub fn block_size(&mut self, window: &[u8], level: Option<SplitLevel>) -> (r: usize)
        requires
            window@.len() <= SPLIT_BLOCK,
            level matches Some(l) ==> l.wf(),
        ensures
            *final(self) == old(self).after(window@, level),
            r == old(self).size_of(window@, level),
            r <= window@.len(),
            window@.len() > 0 ==> r > 0,
    {
        if window.len() < SPLIT_BLOCK || self.savings < SAVINGS_MIN {
            return window.len();
        }
        match level {
            Some(l) => if self.arm(window) {
                split_block(window, l)
            } else {
                window.len()
            },
            None => window.len(),
        }
    }

    /// Looks at a block's alphabet, and tells whether the frame's blocks are cut.
    fn arm(&mut self, window: &[u8]) -> (r: bool)
        requires
            window@.len() >= SCREEN_PROBE,
        ensures
            *final(self) == old(self).looked(window@),
            r == final(self).armed,
    {
        if self.armed {
            return true;
        }
        if self.screened >= SCREEN_BLOCKS {
            return false;
        }
        self.screened = self.screened + 1;
        self.armed = wide_alphabet(window);
        self.armed
    }

    /// Counts an emitted block.
    pub fn note_block(&mut self, input: usize, emitted: usize)
        requires
            i64::MIN <= old(self).savings + input - emitted <= i64::MAX,
            input <= 0x7fff_ffff,
            emitted <= 0x7fff_ffff,
        ensures
            *final(self) == (FrameSavings {
                savings: (old(self).savings + input - emitted) as i64,
                ..*old(self)
            }),
    {
        let gain: i64 = input as i64 - emitted as i64;
        self.savings = self.savings + gain;
    }
}

/// The first block of a frame stays whole, and so do all that follow until the
/// frame has saved something.
pub proof fn lemma_first_block_whole(s: FrameSavings, w: Seq<u8>, level: Option<SplitLevel>)
    requires
        s.savings < SAVINGS_MIN,
    ensures
        s.size_of(w, level) == w.len(),
        s.after(w, level) == s,
{
}

impl MatchGeneratorDriver {
    /// How closely the row looks at full blocks before parsing: the chain and row
    /// strategies do, more closely where they defer longer.
    pub fn pre_split_level(&self) -> (r: Option<SplitLevel>)
        ensures
            r == if self@.mode.params.strategy is Chain || self@.mode.params.strategy is Row {
                Some(
                    SplitLevel::chunk_row(
                        if self@.mode.params.lazy_depth <= 1 {
                            1int
                        } else {
                            2
                        },
                    ),
                )
            } else {
                None
            },
            r matches Some(l) ==> l.wf(),
    {
        let row: usize = if self.mode.params.lazy_depth <= 1 {
            1
        } else {
            2
        };
        match self.mode.params.strategy {
            Strategy::Row(_) => Some(SplitLevel::chunked(row)),
            Strategy::Chain(_) => Some(SplitLevel::chunked(row)),
            _ => None,
        }
    }

    /// The same as an effort from zero to four; 255 where blocks are not cut.
    pub fn pre_split_effort(&self) -> (r: u8)
        ensures
            r == if !(self@.mode.params.strategy is Chain || self@.mode.params.strategy is Row) {
                255int
            } else if self@.mode.params.lazy_depth <= 1 {
                2
            } else {
                3
            },
    {
        match self.pre_split_level() {
            None => 255,
            Some(SplitLevel::Borders) => 0,
            Some(SplitLevel::Chunks { rate, .. }) => if rate == 43 {
                1
            } else if rate == 11 {
                2
            } else if rate == 5 {
                3
            } else {
                4
            },
        }
    }
}

} // verus!
