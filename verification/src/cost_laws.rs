//! What the reach probe's costs mean: the bits that a parse really takes, and how
//! often each literal occurs.

use vstd::prelude::*;
use crate::driver::Drv;
use crate::level::{InputShape, Level};
use crate::params::shaped;
use crate::price_laws::lemma_log2_is;
use crate::reach_probe::{more_parse, on_probe_block, probe_end, probed, seq_bits, ParseCost};
use crate::split_laws::lemma_occurrences_count;
use crate::seq_codes::{lemma_ll_code, lemma_ml_code, ll_bits, ll_code, ml_bits, ml_code, seq_word, SeqWord};
use vstd::arithmetic::power2::pow2;

verus! {

/// Absorbing one more word adds its extra bits and fifteen bits for its codes, and
/// no literals. So of two words the one with more extra bits costs so much more.
pub proof fn lemma_word_costs_its_bits(c: ParseCost, lits: Seq<u8>, seqs: Seq<SeqWord>, w: SeqWord, block: Seq<u8>)
    ensures
        more_parse(c, lits, seqs.push(w), block).bits == (if seqs.len() == 0 {
            c.bits
        } else {
            more_parse(c, lits, seqs, block).bits
        }) + 15 + w.add_nb,
        seqs.len() > 0 ==> more_parse(c, lits, seqs.push(w), block).hist == more_parse(c, lits, seqs, block).hist,
{
    lemma_prefix_bits(seqs, seqs.push(w), seqs.len() as int);
    assert(seqs.push(w)[seqs.len() as int] == w);
}

proof fn lemma_prefix_bits(a: Seq<SeqWord>, b: Seq<SeqWord>, n: int)
    requires
        0 <= n <= a.len(),
        n <= b.len(),
        forall|i: int| 0 <= i < n ==> a[i] == b[i],
    ensures
        seq_bits(a, n) == seq_bits(b, n),
    decreases n,
{
    if n > 0 {
        lemma_prefix_bits(a, b, n - 1);
        assert(a[n - 1] == b[n - 1]);
    }
}

/// The bits of a parse are the sum of its words' extra bits, and fifteen for every
/// word.
pub proof fn lemma_parse_costs_its_words(c: ParseCost, lits: Seq<u8>, seqs: Seq<SeqWord>, block: Seq<u8>)
    ensures
        more_parse(c, lits, seqs, block).bits == c.bits + seqs.fold_left(
            0int,
            |sum: int, w: SeqWord| sum + 15 + w.add_nb,
        ),
{
    lemma_fold(seqs);
}

proof fn lemma_fold(seqs: Seq<SeqWord>)
    ensures
        seq_bits(seqs, seqs.len() as int) == seqs.fold_left(0int, |sum: int, w: SeqWord| sum + 15 + w.add_nb),
    decreases seqs.len(),
{
    if seqs.len() > 0 {
        let q = seqs.drop_last();
        lemma_fold(q);
        lemma_prefix_bits(q, seqs, q.len() as int);
    }
}

/// A packed sequence costs fifteen bits and the extra bits of its literal run, its
/// match length and its offset: a far offset costs a bit more for every doubling.
pub proof fn lemma_sequence_costs_its_bits(c: ParseCost, lits: Seq<u8>, ll: int, ml: int, of: int, k: nat, block: Seq<u8>)
    requires
        0 <= ll <= 131071,
        3 <= ml <= 131074,
        pow2(k) <= of < pow2((k + 1) as nat),
        of <= u32::MAX,
    ensures
        more_parse(c, lits, seq![seq_word(ll, ml, of)], block).bits == c.bits + 15 + k + ll_bits(ll_code(ll)) + ml_bits(
            ml_code(ml),
        ),
{
    lemma_log2_is(of, k);
    crate::bits::lemma_log2_u32(of as u32);
    lemma_ll_code(ll);
    lemma_ml_code(ml);
    let w = seq_word(ll, ml, of);
    assert(w.add_nb == ll_bits(ll_code(ll)) + ml_bits(ml_code(ml)) + k);
    assert(Seq::<SeqWord>::empty().push(w) =~= seq![w]);
    lemma_word_costs_its_bits(c, lits, Seq::empty(), w, block);
}

/// A parse adds its literals to the histogram, and nothing else; a block without
/// sequences is all literals.
pub proof fn lemma_parse_counts_its_literals(c: ParseCost, lits: Seq<u8>, seqs: Seq<SeqWord>, block: Seq<u8>, b: u8)
    ensures
        more_parse(c, lits, seqs, block).hist.len() == 256,
        more_parse(c, lits, seqs, block).hist[b as int] == c.hist[b as int] + (if seqs.len() == 0 {
            block
        } else {
            lits
        }).to_multiset().count(b),
{
    lemma_occurrences_count(lits, lits.len() as int, b as int);
    lemma_occurrences_count(block, block.len() as int, b as int);
    assert(lits.take(lits.len() as int) =~= lits);
    assert(block.take(block.len() as int) =~= block);
}

/// Only frames of eight megabytes or more are probed, and only where a chain has
/// its reach of four megabytes: on the ninth level, with a window that leaves it.
pub proof fn lemma_probed_frames(level: Level, shape: InputShape)
    ensures
        probed(level, shape) ==> {
            &&& shape.len matches Some(n) && n >= 8388608
            &&& level.number() == 9
            &&& shaped(level, shape).chain_reach == Some(4194304usize)
        },
        level.number() == 9 && shape.window_log is None && (shape.len matches Some(n) && n >= 8388608) ==> probed(
            level,
            shape,
        ),
{
    crate::params::lemma_shaped(level, shape);
    if let Some(n) = shape.len {
        if level.number() == 9 && shape.window_log is None && n >= 8388608 {
            lemma_probe_window(n);
        }
    }
}

proof fn lemma_probe_window(n: u64)
    requires
        n >= 8388608,
    ensures
        4194304 <= pow2(crate::params::adjusted_log(0x400_0000, n as int) as nat) <= 0x800_0000,
{
    vstd::arithmetic::power2::lemma2_to64();
    let (a, b) = (crate::params::bit_len(0x400_0000 - 1) as nat, crate::params::bit_len(n - 1) as nat);
    crate::bits::lemma_log2_bracket(0x400_0000 - 1);
    crate::bits::lemma_log2_bracket(n - 1);
    if a < 22 {
        crate::bits::lemma_pow2_monotone(a, 22);
    }
    if a > 27 {
        crate::bits::lemma_pow2_monotone(27, (a - 1) as nat);
    }
    if b < 22 {
        crate::bits::lemma_pow2_monotone(b, 22);
    }
    let k = crate::params::adjusted_log(0x400_0000, n as int) as nat;
    crate::bits::lemma_pow2_monotone(22, k);
    crate::bits::lemma_pow2_monotone(k, 27);
}

/// The probe's blocks are whole blocks that follow each other to the end of what
/// is probed, each with as much history as the window holds.
pub proof fn lemma_probe_blocks(d: Drv, head: Seq<u8>, pos: int)
    requires
        0 <= pos < head.len(),
        head.len() <= u64::MAX,
        d.mode.params.window >= 1,
    ensures
        ({
            let end = probe_end(d, head.len() as int, pos);
            let e = on_probe_block(d, head, pos);
            &&& pos < end <= head.len()
            &&& end - pos <= 131072 && end - pos <= d.mode.params.window
            &&& end == head.len() || end - pos == 131072 || end - pos == d.mode.params.window
            &&& e.place.pos == pos && e.place.block_start == pos && e.place.block_end == end
        }),
{
}

} // verus!
