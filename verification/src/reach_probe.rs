//! The probe that decides a frame's reach: the start of the frame is parsed with
//! both reaches, and what each parse costs is counted.

use vstd::prelude::*;
use crate::driver::{reset_to, told, Drv, MatchGeneratorDriver, Mode};
use crate::driver_fill::adopted;
use crate::driver_plan::table_cleared;
use crate::level::{InputShape, Level};
use crate::params::{least, shaped, LdmArming, ReachChoice, KEEP_REACH};
use crate::pre_split::occurrences;
use crate::scan::MAX_BLOCK_SIZE;
use crate::seq_codes::SeqWord;
use crate::tables::WIN_MAX;

verus! {

/// Bytes that a probe parses.
pub const PROBE_SPAN: usize = 0x20_0000;

/// Shortest frame that is probed.
pub const PROBE_MIN_FRAME: u64 = 0x80_0000;

/// Bits that the codes of a sequence cost.
pub const SEQ_CODE_BITS: u64 = 15;

/// What a parse costs: how often each literal occurs, and the bits of its
/// sequences.
#[verifier::ext_equal]
pub struct ParseCost {
    pub hist: Seq<int>,
    pub bits: int,
}

/// The cost of nothing.
pub open spec fn no_cost() -> ParseCost {
    ParseCost { hist: Seq::new(256, |b: int| 0int), bits: 0 }
}

/// A cost with more literals.
pub open spec fn more_literals(c: ParseCost, lits: Seq<u8>) -> ParseCost {
    ParseCost {
        hist: Seq::new(256, |b: int| c.hist[b] + occurrences(lits, lits.len() as int, b)),
        ..c
    }
}

/// Bits of the first `n` sequences.
pub open spec fn seq_bits(seqs: Seq<SeqWord>, n: int) -> int
    decreases n,
{
    if n <= 0 {
        0
    } else {
        seq_bits(seqs, n - 1) + SEQ_CODE_BITS + seqs[n - 1].add_nb
    }
}

/// A cost with a parsed block. A block without sequences counts as literals.
pub open spec fn more_parse(c: ParseCost, lits: Seq<u8>, seqs: Seq<SeqWord>, block: Seq<u8>) -> ParseCost {
    if seqs.len() == 0 {
        more_literals(c, block)
    } else {
        let e = more_literals(c, lits);
        ParseCost { bits: e.bits + seq_bits(seqs, seqs.len() as int), ..e }
    }
}

/// A running cost.
pub struct ProbeStats {
    pub lit_hist: [u64; 256],
    pub seq_bits: u64,
}

impl View for ProbeStats {
    type V = ParseCost;

    open spec fn view(&self) -> ParseCost {
        ParseCost {
            hist: Seq::new(256, |b: int| self.lit_hist@[b] as int),
            bits: self.seq_bits as int,
        }
    }
}

impl ParseCost {
    /// `n` more bytes can be counted.
    pub open spec fn has_room(self, n: int) -> bool {
        &&& self.hist.len() == 256
        &&& forall|b: int| 0 <= b < 256 ==> #[trigger] self.hist[b] + n <= u64::MAX
        &&& self.bits + 270 * n <= u64::MAX
    }
}

/// One byte occurs no more often than there are bytes.
proof fn lemma_occurrences(w: Seq<u8>, n: int, b: int)
    requires
        0 <= n,
    ensures
        0 <= occurrences(w, n, b) <= n,
    decreases n,
{
    if n > 0 {
        lemma_occurrences(w, n - 1, b);
    }
}

/// How often each byte occurs.
pub fn byte_hist(lits: &[u8]) -> (r: [u32; 256])
    requires
        lits@.len() <= u32::MAX,
    ensures
        forall|b: int| 0 <= b < 256 ==> #[trigger] r@[b] == occurrences(lits@, lits@.len() as int, b),
{
    let mut r: [u32; 256] = [0;256];
    let mut n: usize = 0;
    while n < lits.len()
        invariant
            n <= lits@.len(),
            lits@.len() <= u32::MAX,
            forall|b: int| 0 <= b < 256 ==> #[trigger] r@[b] == occurrences(lits@, n as int, b),
        decreases lits@.len() - n,
    {
        let b: usize = lits[n] as usize;
        proof {
            lemma_occurrences(lits@, n as int, b as int);
        }
        assert(r@[b as int] == occurrences(lits@, n as int, b as int));
        let c: u32 = r[b];
        r[b] = c + 1;
        n = n + 1;
    }
    r
}

impl ProbeStats {
    /// The cost of nothing.
    pub fn new() -> (r: Self)
        ensures
            r@ == no_cost(),
    {
        let r = ProbeStats { lit_hist: [0;256], seq_bits: 0 };
        assert(r@ =~= no_cost());
        r
    }

    /// Counts literals.
    pub fn absorb_literals(&mut self, lits: &[u8])
        requires
            old(self)@.has_room(lits@.len() as int),
            lits@.len() <= u32::MAX,
        ensures
            final(self)@ == more_literals(old(self)@, lits@),
    {
        let hist: [u32; 256] = byte_hist(lits);
        let ghost c0 = self@;
        let mut b: usize = 0;
        while b < 256
            invariant
                b <= 256,
                c0.has_room(lits@.len() as int),
                self.seq_bits == c0.bits,
                forall|k: int|
                    0 <= k < 256 ==> #[trigger] hist@[k] == occurrences(lits@, lits@.len() as int, k),
                forall|k: int|
                    0 <= k < b ==> #[trigger] self.lit_hist@[k] == c0.hist[k] + occurrences(
                        lits@,
                        lits@.len() as int,
                        k,
                    ),
                forall|k: int| b <= k < 256 ==> #[trigger] self.lit_hist@[k] == c0.hist[k],
            decreases 256 - b,
        {
            proof {
                lemma_occurrences(lits@, lits@.len() as int, b as int);
            }
            assert(hist@[b as int] == occurrences(lits@, lits@.len() as int, b as int));
            assert(self.lit_hist@[b as int] == c0.hist[b as int]);
            assert(c0.hist[b as int] + lits@.len() <= u64::MAX);
            let c: u64 = self.lit_hist[b];
            self.lit_hist[b] = c + hist[b] as u64;
            b = b + 1;
        }
        assert(self@ =~= more_literals(c0, lits@));
    }

    /// Counts sequences.
    pub fn absorb_seqs(&mut self, seqs: &[SeqWord])
        requires
            old(self)@.bits + 270 * seqs@.len() <= u64::MAX,
        ensures
            final(self)@ == (ParseCost {
                bits: old(self)@.bits + seq_bits(seqs@, seqs@.len() as int),
                ..old(self)@
            }),
    {
        let ghost c0 = self@;
        let mut n: usize = 0;
        while n < seqs.len()
            invariant
                n <= seqs@.len(),
                c0.bits + 270 * seqs@.len() <= u64::MAX,
                self.lit_hist@ == old(self).lit_hist@,
                self.seq_bits == c0.bits + seq_bits(seqs@, n as int),
                seq_bits(seqs@, n as int) <= 270 * n,
            decreases seqs@.len() - n,
        {
            self.seq_bits = self.seq_bits + (SEQ_CODE_BITS + seqs[n].add_nb as u64);
            n = n + 1;
        }
        assert(self@ =~= (ParseCost { bits: c0.bits + seq_bits(seqs@, seqs@.len() as int), ..c0 }));
    }

    /// Counts a parsed block.
    pub fn absorb_probe_stats(&mut self, literals: &[u8], seqs: &[SeqWord], block: &[u8])
        requires
            old(self)@.has_room(0x10_0000),
            literals@.len() <= 0x10_0000,
            seqs@.len() <= 0x10_0000,
            block@.len() <= 0x10_0000,
        ensures
            final(self)@ == more_parse(old(self)@, literals@, seqs@, block@),
    {
        let ghost c0 = self@;
        proof {
            assert(c0.has_room(block@.len() as int)) by {
                assert forall|b: int| 0 <= b < 256 implies #[trigger] c0.hist[b] + block@.len() <= u64::MAX by {
                    assert(c0.hist[b] + 0x10_0000 <= u64::MAX);
                }
            }
            assert(c0.has_room(literals@.len() as int)) by {
                assert forall|b: int| 0 <= b < 256 implies #[trigger] c0.hist[b] + literals@.len() <= u64::MAX by {
                    assert(c0.hist[b] + 0x10_0000 <= u64::MAX);
                }
            }
        }
        if seqs.len() == 0 {
            self.absorb_literals(block);
        } else {
            self.absorb_literals(literals);
            self.absorb_seqs(seqs);
        }
        assert(self@ == more_parse(c0, literals@, seqs@, block@));
    }
}

/// Whether a frame's reach is probed: it is long enough, and its row has its stock
/// reach.
pub open spec fn probed(level: Level, shape: InputShape) -> bool {
    &&& shape.len matches Some(n) && n >= PROBE_MIN_FRAME
    &&& shaped(level, shape).strategy is Chain
    &&& shaped(level, shape).chain_reach == Some(KEEP_REACH)
}

/// Whether a frame's reach is probed.
pub fn eligible(level: Level, shape: InputShape) -> (r: bool)
    ensures
        r == probed(level, shape),
{
    let long: bool = match shape.len {
        Some(n) => n >= PROBE_MIN_FRAME,
        None => false,
    };
    long && MatchGeneratorDriver::reach_probe_eligible(level, shape)
}

/// The reach of a frame whose start is `head`, given whether the near-local parse
/// of it pays. A frame that is not probed, or that starts with too little, keeps
/// its stock reach.
pub fn probe_reach_choice(head: &[u8], level: Level, shape: InputShape, shrink_pays: bool) -> (r: ReachChoice)
    ensures
        r == if probed(level, shape) && head@.len() >= PROBE_SPAN && shrink_pays {
            ReachChoice::Shrink
        } else {
            ReachChoice::Keep
        },
        r == ReachChoice::Shrink ==> shrink_pays && head@.len() >= 2097152 && (shape.len matches Some(n) && n >= 8388608),
{
    if eligible(level, shape) {
        probe_staged(head, shrink_pays)
    } else {
        ReachChoice::Keep
    }
}

/// The same for a frame that is known to be probed.
pub fn probe_staged(head: &[u8], shrink_pays: bool) -> (r: ReachChoice)
    ensures
        r == if head@.len() >= PROBE_SPAN && shrink_pays {
            ReachChoice::Shrink
        } else {
            ReachChoice::Keep
        },
        r == ReachChoice::Shrink <==> head@.len() >= 2097152 && shrink_pays,
{
    if head.len() >= PROBE_SPAN && shrink_pays {
        ReachChoice::Shrink
    } else {
        ReachChoice::Keep
    }
}

/// A matcher that is about to parse the start of a frame for the probe: with the
/// given reach, without long-distance matching, on empty tables.
pub open spec fn probe_started(d: Drv, level: Level, shape: InputShape, choice: ReachChoice) -> Drv {
    let m = Mode { input: told(shape), reach_choice: choice, arming: LdmArming::ProbeKeep, ..d.mode };
    table_cleared(reset_to(Drv { mode: m, ..d }, level))
}

/// End of the probe's block at `pos`.
pub open spec fn probe_end(d: Drv, len: int, pos: int) -> int {
    least(pos + least(MAX_BLOCK_SIZE as int, d.mode.params.window as int), len)
}

/// A matcher on the probe's block at `pos`.
pub open spec fn on_probe_block(d: Drv, head: Seq<u8>, pos: int) -> Drv {
    let end = probe_end(d, head.len() as int, pos);
    let from = if pos > d.mode.params.window {
        pos - d.mode.params.window
    } else {
        0
    };
    let e = adopted(d, head.subrange(from, end), from as u64);
    Drv {
        place: crate::driver::Place {
            pos: pos as u64,
            block_start: pos as u64,
            block_end: end as u64,
            ..e.place
        },
        ..e
    }
}

/// Prepares a matcher for a parse of the probe.
pub fn start_probe(driver: &mut MatchGeneratorDriver, level: Level, shape: InputShape, choice: ReachChoice)
    requires
        old(driver)@.wf(),
    ensures
        final(driver)@ == probe_started(old(driver)@, level, shape, choice),
        final(driver)@.wf(),
        final(driver)@.win.len() == 0,
{
    let ghost d0 = driver@;
    driver.set_input_shape(shape);
    driver.set_reach_choice(choice);
    driver.set_ldm_arming(LdmArming::ProbeKeep);
    let ghost m = Mode { input: told(shape), reach_choice: choice, arming: LdmArming::ProbeKeep, ..d0.mode };
    assert(driver@ == (Drv { mode: m, ..d0 }));
    driver.reset(level);
    driver.clear_parse_tables();
}

/// Moves the probe to its block at `pos`, and returns the block's end.
pub fn next_probe_block(driver: &mut MatchGeneratorDriver, head: &[u8], pos: usize) -> (end: usize)
    requires
        old(driver)@.wf(),
        old(driver)@.mode.direct || old(driver)@.win.len() == 0,
        pos < head@.len() <= WIN_MAX,
    ensures
        final(driver)@ == on_probe_block(old(driver)@, head@, pos as int),
        end == probe_end(old(driver)@, head@.len() as int, pos as int),
        final(driver)@.ready(),
{
    let ghost d0 = driver@;
    assert(head@.len() == head.len());
    let block: usize = driver.block_size();
    let end: usize = if head.len() - pos > block {
        pos + block
    } else {
        head.len()
    };
    let window: usize = driver.mode.params.window;
    let from: usize = if pos > window {
        pos - window
    } else {
        0
    };
    let win: &[u8] = vstd::slice::slice_subrange(head, from, end);
    driver.adopt_window(win, from as u64);
    driver.set_block(pos as u64, end as u64);
    assert(driver@ == on_probe_block(d0, head@, pos as int));
    end
}

/// Whether all bytes are the same.
pub open spec fn uniform(w: Seq<u8>) -> bool {
    forall|i: int, j: int| 0 <= i < w.len() && 0 <= j < w.len() ==> #[trigger] w[i] == #[trigger] w[j]
}

/// Whether all bytes of a block are the same.
pub fn is_uniform(block: &[u8]) -> (r: bool)
    ensures
        r == uniform(block@),
{
    let mut i: usize = 0;
    while i < block.len()
        invariant
            i <= block@.len(),
            forall|k: int| 0 <= k < i ==> #[trigger] block@[k] == block@[0],
        decreases block@.len() - i,
    {
        if block[i] != block[0] {
            assert(block@[i as int] != block@[0]);
            return false;
        }
        i = i + 1;
    }
    true
}

} // verus!
