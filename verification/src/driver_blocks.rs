//! The matcher's handling of blocks: parsing, skipping, gating before a parse,
//! and what is caught up afterwards.

use vstd::prelude::*;
use crate::driver::{Carry, Drv, LdmUse, MatchGeneratorDriver, Mode, Place, NO_GAP};
use crate::driver_plan::{head_decided, step_decided};
use crate::driver_scan::{block_waits, ldm_fits, noted_block, scan_ready, scanned, Parse};
use crate::frame::lemma_block_covered;
use crate::gates::{distinct_count, GATE_MIN_BLOCK, GATE_PROBE_LOG};
use crate::hash::{bytes_agree, slots, HASH_READ};
use crate::params::{BlockAction, HeadPhase, LazyStep, Strategy, LDM_CANARY, LDM_FULL_WINDOW, LDM_SYMS_MIN};
use crate::parse_fast::ldm_true;
use crate::probe::{gate_pass, odd_stride, Pass, run_gate, sampled_distinct, zeroed};
use crate::scan::LdmSeq;
use crate::seq_codes::SeqWord;
use crate::sequence::{lemma_replay_readable, match_total, readable};
use crate::tables::WIN_MAX;
use crate::store::{indexed, zeros, Keys};

verus! {

/// First index of the gap that skipped blocks have left in the tables, as far as
/// the window reaches.
pub open spec fn gap_index(d: Drv) -> int {
    let window = d.mode.params.window as int;
    let a = if d.mode.gap_start > d.place.base {
        d.mode.gap_start as int
    } else {
        d.place.base as int
    };
    let b = if d.place.block_start - window > a {
        d.place.block_start - window
    } else {
        a
    };
    b - d.place.base
}

/// End of the gap: what can be hashed before the block.
pub open spec fn gap_limit(d: Drv) -> int {
    if d.at() > HASH_READ {
        d.at() - HASH_READ
    } else {
        0
    }
}

/// A matcher that has indexed what skipped blocks left out. The tree strategies
/// index when they search.
pub open spec fn caught_up(d: Drv) -> Drv {
    if d.mode.gap_start == NO_GAP || d.mode.params.strategy is Opt || d.mode.params.strategy is BtLazy {
        d
    } else {
        Drv {
            store: indexed(d.keys(), d.win, d.store, gap_index(d), gap_limit(d), 1),
            mode: Mode { gap_start: NO_GAP, ..d.mode },
            ..d
        }
    }
}

/// A matcher that has looked at the alphabet of the first block that reaches
/// long-distance matching: a poor one gives it up.
pub open spec fn alphabet_gated(d: Drv) -> Drv {
    let u = d.mode.ldm;
    if u.checked || !u.on {
        d
    } else {
        let from = d.at();
        let to = d.place.block_end - d.place.base;
        if distinct_count(d.win, from, to, odd_stride(to - from)) < LDM_SYMS_MIN {
            Drv {
                mode: Mode { ldm: LdmUse { checked: true, on: false, ..u }, ..d.mode },
                ldm: Seq::empty(),
                ..d
            }
        } else {
            Drv { mode: Mode { ldm: LdmUse { checked: true, ..u }, ..d.mode }, ..d }
        }
    }
}

/// A long-distance candidate that a block can use: it lies in the block, its
/// source is real, and it is farther than the row's own search, but no farther
/// than the window.
pub open spec fn usable(d: Drv, q: LdmSeq) -> bool {
    &&& d.mode.params.reach_of() < q.offset <= d.mode.params.window
    &&& q.split >= d.place.block_start
    &&& ldm_true(d.cut(), d.place.base as int, q)
}

/// The usable ones among the first `n` candidates.
pub open spec fn usable_among(d: Drv, found: Seq<LdmSeq>, n: int) -> Seq<LdmSeq>
    decreases n,
{
    if n <= 0 {
        Seq::empty()
    } else if usable(d, found[n - 1]) {
        usable_among(d, found, n - 1).push(found[n - 1])
    } else {
        usable_among(d, found, n - 1)
    }
}

/// A matcher that has been offered a block's long-distance candidates. Where
/// generation is shut off only every eighth block is looked at, and a find
/// switches it on again.
pub open spec fn generated(d: Drv, found: Seq<LdmSeq>) -> Drv {
    let u = d.mode.ldm;
    if u.dead && u.canary + 1 < LDM_CANARY {
        Drv {
            mode: Mode { ldm: LdmUse { canary: (u.canary + 1) as u8, ..u }, ..d.mode },
            ldm: Seq::empty(),
            ..d
        }
    } else {
        let v = LdmUse {
            canary: if u.dead {
                0
            } else {
                u.canary
            },
            ..u
        };
        let seqs = if u.on {
            usable_among(d, found, found.len() as int)
        } else {
            Seq::empty()
        };
        Drv {
            mode: Mode {
                ldm: if u.dead && seqs.len() > 0 {
                    LdmUse { dead: false, quiet: 0, ..v }
                } else {
                    v
                },
                ..d.mode
            },
            ldm: seqs,
            ..d
        }
    }
}

/// A matcher with the block's first position indexed, if it can be hashed.
pub open spec fn first_indexed(d: Drv) -> Drv {
    if d.at() + HASH_READ <= d.win.len() {
        Drv { store: indexed(d.keys(), d.win, d.store, d.at(), d.at() + 1, 1), ..d }
    } else {
        d
    }
}

/// A matcher that has passed over its block, with the first position indexed.
pub open spec fn skipped(d: Drv) -> Drv {
    let g = alphabet_gated(first_indexed(d));
    Drv { place: Place { pos: d.place.block_end, ..d.place }, ..g }
}

/// What sampling before a parse says of a block.
#[derive(Clone, Copy, PartialEq, Eq, Structural, Debug)]
pub enum GateVerdict {
    /// It is worth parsing.
    Parse,
    /// It is as incompressible as the ones before it.
    Skip,
    /// It has no repeats; its exact byte distribution decides.
    Undecided,
}

/// The repeat table, made if there is none.
pub open spec fn gate_table(d: Drv) -> Seq<u32> {
    if d.probe.len() == 0 {
        zeros(slots(GATE_PROBE_LOG))
    } else {
        d.probe
    }
}

/// A matcher after its gate has sampled the block.
pub open spec fn gated(d: Drv) -> (Drv, GateVerdict) {
    let block = d.block();
    if block.len() < GATE_MIN_BLOCK {
        (d, GateVerdict::Parse)
    } else {
        let p = gate_pass(gate_table(d), block, Set::empty(), 0, odd_stride(block.len() as int));
        let e = Drv { probe: p.t, ..d };
        if !pass_wide(p) {
            (Drv { mode: Mode { gate_hold: false, ..d.mode }, ..e }, GateVerdict::Parse)
        } else if d.mode.gate_hold {
            (e, GateVerdict::Skip)
        } else {
            (e, GateVerdict::Undecided)
        }
    }
}

/// A matcher that has left out an incompressible block: the block opens a gap in
/// the tables, if none is open.
pub open spec fn left_out(d: Drv) -> Drv {
    let e = Drv {
        mode: Mode {
            gap_start: if d.mode.gap_start == NO_GAP {
                d.place.block_start
            } else {
                d.mode.gap_start
            },
            ..d.mode
        },
        ..d
    };
    let g = alphabet_gated(e);
    Drv { place: Place { pos: d.place.block_end, ..d.place }, ..g }
}

/// Whether a block is left out, by what sampling says of it and whether its byte
/// distribution is too dense for an entropy coder.
pub open spec fn gives_up(v: GateVerdict, dense: bool) -> bool {
    match v {
        GateVerdict::Parse => false,
        GateVerdict::Skip => true,
        GateVerdict::Undecided => dense,
    }
}

/// A matcher that has looked at its block before a parse. A dense block holds its
/// successors back too, until sampling finds one that is worth parsing.
pub open spec fn sampled(d: Drv, dense: bool) -> Drv {
    let (e, v) = gated(d);
    if v is Undecided && dense {
        Drv { mode: Mode { gate_hold: true, ..e.mode }, ..e }
    } else {
        e
    }
}

/// A matcher that has looked at its block, and left it out if it is incompressible.
pub open spec fn screened(d: Drv, dense: bool) -> Drv {
    if gives_up(gated(d).1, dense) {
        left_out(sampled(d, dense))
    } else {
        sampled(d, dense)
    }
}

/// A look at the block changes nothing but what the next looks go by.
pub proof fn lemma_sampled(d: Drv, dense: bool)
    requires
        d.wf(),
    ensures
        ({
            let e = sampled(d, dense);
            &&& e == (Drv { probe: e.probe, mode: Mode { gate_hold: e.mode.gate_hold, ..d.mode }, ..d })
            &&& e.probe.len() == 0 || e.probe.len() == slots(GATE_PROBE_LOG)
            &&& e.wf()
        }),
{
    let block = d.block();
    crate::probe::lemma_gate_pass(gate_table(d), block, Set::empty(), 0, odd_stride(block.len() as int));
}

/// A matcher that has asked whether its block belongs to the head.
pub open spec fn settled(d: Drv) -> Drv {
    head_decided(d).0
}

/// The matcher has no offsets to pay while its frame's head runs.
pub open spec fn head_clear(d: Drv) -> bool {
    d.mode.head == HeadPhase::Running ==> d.carry.pending == 0
}

/// Candidates that are kept or dropped still belong to the block.
proof fn lemma_ldm_kept(d: Drv, e: Drv)
    requires
        ldm_fits(d),
        e.win == d.win,
        e.place == d.place,
        e.ldm == d.ldm || e.ldm.len() == 0,
    ensures
        ldm_fits(e),
{
    assert(e.cut() == d.cut());
    assert forall|k: int| 0 <= k < e.ldm.len() implies {
        &&& #[trigger] ldm_true(e.cut(), e.place.base as int, e.ldm[k])
        &&& e.ldm[k].split >= e.place.block_start
    } by {
        assert(ldm_true(d.cut(), d.place.base as int, d.ldm[k]));
    }
}

/// Asking about the head leaves a block ready, and its window and offsets alone.
pub proof fn lemma_settled(d: Drv)
    ensures
        ({
            let e = settled(d);
            &&& e == (Drv {
                carry: Carry { miss: e.carry.miss, pending: e.carry.pending, ..d.carry },
                mode: Mode { head: e.mode.head, gap_start: e.mode.gap_start, ..d.mode },
                ..d
            })
            &&& d.wf() ==> e.wf()
            &&& d.ready() ==> e.ready()
            &&& e.cut() == d.cut()
            &&& e.at() == d.at()
            &&& e.block() == d.block()
            &&& e.carry.pending <= d.carry.pending
            &&& head_clear(d) ==> e.carry.pending == d.carry.pending
            &&& !head_decided(d).1 ==> e.mode.head != HeadPhase::Running
            &&& d.mode.head == HeadPhase::Off || d.mode.head == HeadPhase::Done ==> e == d && !head_decided(d).1
        }),
        block_waits(d) ==> block_waits(settled(d)),
{
    reveal(head_decided);
    let e = settled(d);
    assert(e.cut() == d.cut());
    if block_waits(d) {
        lemma_ldm_kept(d, e);
        assert(e.ready());
    }
}

/// A matcher that has asked who parses its block, and the answer. A block of the head is
/// offered no long-distance candidates.
pub open spec fn block_decided(d: Drv) -> (Drv, BlockAction) {
    let (e, head) = head_decided(d);
    if head {
        (Drv { ldm: Seq::empty(), ..alphabet_gated(e) }, BlockAction::Head)
    } else if e.mode.params.strategy is BtLazy {
        (step_decided(e).0, BlockAction::Tree(step_decided(e).1))
    } else {
        (e, BlockAction::Row)
    }
}

/// Whether the index of far repeats takes a block in. One that is parsed is taken in,
/// and one of the head too; one that is passed over or left out only on the rows of one
/// or two tables or a chain, where the window is as wide as it gets.
pub open spec fn far_fed(m: Mode, passed: bool) -> bool {
    &&& m.ldm.on
    &&& passed ==> {
        &&& m.params.strategy is Chain || m.params.strategy is Fast || m.params.strategy is Dfast
        &&& m.params.window >= LDM_FULL_WINDOW
    }
}

/// Whether the index of far repeats takes history in, if it knows no repeat shorter than
/// `shortest`. The rows with trees want a wide alphabet.
pub open spec fn strip_fed(m: Mode, w: Seq<u8>, shortest: usize) -> bool {
    let tree = m.params.strategy is Opt || m.params.strategy is BtLazy;
    let n = w.len() as int;
    &&& m.ldm.on
    &&& n >= shortest
    &&& tree ==> distinct_count(w, 0, n, odd_stride(n)) >= LDM_SYMS_MIN
}

/// A block's parse, where it does not belong to the head: what was left out before it
/// is indexed, then its row's strategy runs.
pub open spec fn block_parsed(d: Drv) -> Parse {
    scanned(alphabet_gated(caught_up(settled(d))))
}

/// Catching up and the look at the alphabet leave a block ready.
pub proof fn lemma_prepared(d: Drv)
    requires
        scan_ready(d),
    ensures
        scan_ready(alphabet_gated(caught_up(d))),
        ({
            let e = alphabet_gated(caught_up(d));
            &&& e.win == d.win
            &&& e.place == d.place
            &&& e.carry == d.carry
            &&& e.mode.params == d.mode.params
            &&& e.mode.ramp == d.mode.ramp
            &&& e.mode.slice_size == d.mode.slice_size
            &&& e.mode.win_cap == d.mode.win_cap
            &&& e.mode.direct == d.mode.direct
            &&& e.ldm == d.ldm || e.ldm.len() == 0
        }),
        caught_up(d).wf(),
{
    let e = caught_up(d);
    crate::store::lemma_indexed_sized(d.keys(), d.win, d.store, gap_index(d), gap_limit(d), 1);
    let g = alphabet_gated(e);
    lemma_ldm_kept(d, g);
    assert(e.wf());
    assert(g.wf());
    assert(g.ready());
}

/// Whether `n` bytes at `i` and at `j` agree.
fn agrees(win: &[u8], i: usize, j: usize, n: usize) -> (r: bool)
    requires
        j < i,
        i + n <= win@.len(),
    ensures
        r == bytes_agree(win@, i as int, j as int, n as int),
{
    assert(win@.len() == win.len());
    let mut k: usize = 0;
    while k < n
        invariant
            j < i,
            i + n <= win@.len(),
            win@.len() == win.len(),
            k <= n,
            forall|t: int| 0 <= t < k ==> #[trigger] win@[i + t] == win@[j + t],
        decreases n - k,
    {
        if win[i + k] != win[j + k] {
            assert(win@[i + k] != win@[j + k]);
            return false;
        }
        k = k + 1;
    }
    true
}

/// Whether a pass found no repeat and a full alphabet.
pub open spec fn pass_wide(p: Pass) -> bool {
    p.seen matches Some(s) && s.len() >= 208
}

/// Samples a block: whether it has no repeat and a full alphabet.
fn sample_wide(t: &mut Vec<u32>, block: &[u8]) -> (r: bool)
    requires
        old(t)@.len() == slots(GATE_PROBE_LOG),
        block@.len() <= WIN_MAX,
    ensures
        ({
            let p = gate_pass(old(t)@, block@, Set::empty(), 0, odd_stride(block@.len() as int));
            &&& final(t)@ == p.t
            &&& r == pass_wide(p)
        }),
        final(t)@.len() == slots(GATE_PROBE_LOG),
{
    match run_gate(t, block) {
        Some(n) => n >= 208,
        None => false,
    }
}

impl MatchGeneratorDriver {
    /// How positions are keyed into the tables.
    fn keys_of(&self) -> (k: Keys)
        ensures
            k == self@.keys(),
    {
        Keys {
            base: self.place.base,
            origin: self.mode.head_origin,
            hash_log: self.mode.params.hash_log,
            strategy: self.mode.params.strategy,
            width: self.mode.hash_width(),
        }
    }

    /// The gap that skipped blocks have left, as a range of window indices.
    fn gap(&self) -> (r: (usize, usize))
        requires
            self@.ready(),
        ensures
            r.1 == gap_limit(self@),
            r.0 == gap_index(self@) || (r.0 == r.1 && gap_index(self@) >= r.1),
    {
        assert(self.win@.len() == self.win.len());
        let base: u64 = self.place.base;
        let start: u64 = self.place.block_start;
        let window: u64 = self.mode.params.window as u64;
        let mut from: u64 = if self.mode.gap_start > base {
            self.mode.gap_start
        } else {
            base
        };
        if start > window && start - window > from {
            from = start - window;
        }
        let at: usize = (start - base) as usize;
        let to: usize = if at > HASH_READ {
            at - HASH_READ
        } else {
            0
        };
        if from - base < to as u64 {
            ((from - base) as usize, to)
        } else {
            (to, to)
        }
    }

    /// Indexes what skipped blocks left out.
    fn catch_up_insertions(&mut self)
        requires
            old(self)@.ready(),
        ensures
            final(self)@ == caught_up(old(self)@),
    {
        let ghost d0 = self@;
        if self.mode.gap_start == NO_GAP {
            return;
        }
        match self.mode.params.strategy {
            Strategy::Opt(_) => return,
            Strategy::BtLazy(_) => return,
            _ => {},
        }
        let (from, to): (usize, usize) = self.gap();
        let k: Keys = self.keys_of();
        assert(k.fits(d0.win, d0.store));
        proof {
            lemma_indexed_none(k, d0.win, d0.store, to as int, to as int, 1);
            if gap_index(d0) >= to {
                lemma_indexed_none(k, d0.win, d0.store, gap_index(d0), to as int, 1);
            }
        }
        self.tables.index_range(&k, &self.win, from, to, 1);
        self.mode.gap_start = NO_GAP;
        assert(self@.store == caught_up(d0).store);
    }

    /// Looks at the alphabet of the first block that reaches long-distance
    /// matching.
    fn ldm_alphabet_gate(&mut self)
        requires
            old(self)@.has_block(),
        ensures
            final(self)@ == alphabet_gated(old(self)@),
    {
        let ghost d0 = self@;
        let u: LdmUse = self.mode.ldm;
        if u.checked || !u.on {
            return;
        }
        assert(self.win@.len() == self.win.len());
        let from: usize = (self.place.block_start - self.place.base) as usize;
        let to: usize = (self.place.block_end - self.place.base) as usize;
        if sampled_distinct(&self.win, from, to) < LDM_SYMS_MIN {
            self.mode.ldm = LdmUse { checked: true, on: false, ..u };
            self.ldm_seqs.clear();
        } else {
            self.mode.ldm = LdmUse { checked: true, ..u };
        }
        assert(self@ =~= alphabet_gated(d0));
    }

    /// Whether the block can use a long-distance candidate.
    fn can_use(&self, q: &LdmSeq) -> (r: bool)
        requires
            self@.ready(),
        ensures
            r == usable(self@, *q),
    {
        assert(self.win@.len() == self.win.len());
        let base: u64 = self.place.base;
        let end: u64 = self.place.block_end;
        let reach: u64 = self.mode.params.reach() as u64;
        if q.offset as u64 <= reach || q.offset as usize > self.mode.params.window {
            return false;
        }
        if q.split < self.place.block_start || q.split > end {
            return false;
        }
        if end - q.split < q.len as u64 || q.split - base < q.offset as u64 {
            return false;
        }
        let i: usize = (q.split - base) as usize;
        let j: usize = i - q.offset as usize;
        let r: bool = agrees(&self.win, i, j, q.len as usize);
        proof {
            let w = self@.cut();
            let n = q.len as int;
            if r {
                assert forall|t: int| 0 <= t < n implies #[trigger] w[i + t] == w[j + t] by {
                    assert(self@.win[i + t] == self@.win[j + t]);
                }
            }
            if bytes_agree(w, i as int, j as int, n) {
                assert forall|t: int| 0 <= t < n implies #[trigger] self@.win[i + t] == self@.win[j + t] by {
                    assert(w[i + t] == w[j + t]);
                }
            }
        }
        r
    }

    /// Offers the block's long-distance candidates, as a generator found them. The
    /// block's parse weighs those that it can use.
    pub fn ldm_generate(&mut self, found: &[LdmSeq])
        requires
            old(self)@.ready(),
        ensures
            final(self)@ == generated(alphabet_gated(old(self)@), found@),
            final(self)@.ready(),
            ldm_fits(final(self)@),
    {
        self.ldm_alphabet_gate();
        let ghost d0 = self@;
        self.ldm_seqs.clear();
        let u: LdmUse = self.mode.ldm;
        if u.dead {
            if u.canary < LDM_CANARY - 1 {
                self.mode.ldm = LdmUse { canary: u.canary + 1, ..u };
                assert(self@ =~= generated(d0, found@));
                return;
            }
            self.mode.ldm = LdmUse { canary: 0, ..u };
        }
        let ghost d1 = self@;
        if !u.on {
            assert(self@ =~= generated(d0, found@));
            return;
        }
        let mut seqs: Vec<LdmSeq> = Vec::new();
        let mut i: usize = 0;
        while i < found.len()
            invariant
                i <= found@.len(),
                self@ == d1,
                d1.ready(),
                forall|q: LdmSeq| usable(d1, q) == #[trigger] usable(d0, q),
                seqs@ == usable_among(d0, found@, i as int),
            decreases found@.len() - i,
        {
            let q: LdmSeq = found[i];
            if self.can_use(&q) {
                seqs.push(q);
            }
            i = i + 1;
        }
        proof {
            lemma_usable_among(d0, found@, found@.len() as int);
        }
        let some: bool = seqs.len() > 0;
        self.ldm_seqs = seqs;
        if u.dead && some {
            let v: LdmUse = self.mode.ldm;
            self.mode.ldm = LdmUse { dead: false, quiet: 0, ..v };
        }
        assert(self@ =~= generated(d0, found@));
        assert forall|k: int| 0 <= k < self@.ldm.len() implies {
            &&& #[trigger] ldm_true(self@.cut(), self@.place.base as int, self@.ldm[k])
            &&& self@.ldm[k].split >= self@.place.block_start
        } by {
            assert(usable(d0, self@.ldm[k]));
        }
    }

    /// Parses the block: appends its sequences, and the literals that they need
    /// with those behind the last one. A block without sequences stages nothing;
    /// its literals are the block itself.
    ///
    /// A block of the frame's head is for a tree parse: ask [`Self::head_block`] first.
    /// Where it says no, its answer stays the same here.
    pub fn start_matching_codes(&mut self, literals: &mut Vec<u8>, seqs: &mut Vec<SeqWord>)
        requires
            scan_ready(old(self)@),
            !head_decided(old(self)@).1,
            old(literals)@.len() == 0,
            old(seqs)@.len() == 0,
        ensures
            (Parse { d: final(self)@, lits: final(literals)@, seqs: final(seqs)@ }) == block_parsed(
                old(self)@,
            ),
            final(self)@.wf(),
            final(self)@.has_block(),
            final(self)@.ldm.len() == 0,
            readable(final(literals)@, final(seqs)@),
            final(seqs)@.len() == 0 ==> final(literals)@.len() == 0,
            final(seqs)@.len() > 0 ==> match_total(final(seqs)@) + final(literals)@.len() == old(self)@.block().len(),
    {
        proof {
            lemma_block_covered(self@);
            lemma_settled(self@);
            lemma_prepared(settled(self@));
        }
        self.head_block();
        self.catch_up_insertions();
        self.ldm_alphabet_gate();
        let ghost g = self@;
        self.scan_block(literals, seqs);
        proof {
            if seqs@.len() > 0 {
                lemma_replay_readable(g.cut().take(g.at()), g.carry.rep, literals@, seqs@);
            }
        }
    }

    /// Who parses the block. Whether it belongs to the head stays as answered.
    pub fn block_action(&mut self) -> (r: BlockAction)
        requires
            old(self)@.ready(),
        ensures
            final(self)@ == block_decided(old(self)@).0,
            r == block_decided(old(self)@).1,
            final(self)@.ready(),
            r is Head <==> head_decided(final(self)@).1,
            r is Row && scan_ready(old(self)@) ==> scan_ready(final(self)@),
    {
        let ghost d0 = self@;
        proof {
            lemma_settled(d0);
        }
        if self.head_block() {
            let ghost d1 = self@;
            self.ldm_alphabet_gate();
            self.ldm_seqs.clear();
            proof {
                crate::driver_plan::lemma_same_head(d1, self@);
            }
            assert(self@ =~= block_decided(d0).0);
            return BlockAction::Head;
        }
        match self.mode.params.strategy {
            Strategy::BtLazy(_) => {
                let ghost d1 = self@;
                let step: LazyStep = self.bt_lazy_step();
                proof {
                    crate::driver_plan::lemma_same_head(d1, self@);
                }
                BlockAction::Tree(step)
            },
            _ => BlockAction::Row,
        }
    }

    /// Closes a block of the deferred tree row: its candidates are gone, and whether one
    /// of them was used is noted.
    pub fn note_tree_block(&mut self, won: bool)
        requires
            old(self)@.wf(),
            old(self)@.has_block(),
        ensures
            final(self)@ == noted_block((Drv { ldm: Seq::empty(), ..old(self)@ }), won),
            final(self)@.wf(),
    {
        let ghost d0 = self@;
        self.ldm_seqs.clear();
        assert(self@ =~= (Drv { ldm: Seq::empty(), ..d0 }));
        proof {
            crate::driver_scan::lemma_noted(self@, won);
        }
        self.ldm_note_block(won);
    }

    /// Whether the index of far repeats takes the block in, which was `passed` over or
    /// left out, or is parsed. Asked after the block's alphabet has been looked at.
    pub fn feeds_far(&self, passed: bool) -> (r: bool)
        ensures
            r == far_fed(self@.mode, passed),
    {
        let plain: bool = match self.mode.params.strategy {
            Strategy::Chain(_) => true,
            Strategy::Fast => true,
            Strategy::Dfast(_) => true,
            _ => false,
        };
        self.mode.ldm.on && (!passed || (plain && self.mode.params.window >= LDM_FULL_WINDOW))
    }

    /// Whether the index of far repeats takes in the history that a job or a dictionary
    /// frame starts with. The index starts over with it either way.
    pub fn feeds_strip(&self, data: &[u8], shortest: usize) -> (r: bool)
        ensures
            r == strip_fed(self@.mode, data@, shortest),
    {
        assert(data@.len() == data.len());
        if !self.mode.ldm.on || data.len() < shortest {
            return false;
        }
        let tree: bool = match self.mode.params.strategy {
            Strategy::Opt(_) => true,
            Strategy::BtLazy(_) => true,
            _ => false,
        };
        !tree || sampled_distinct(data, 0, data.len()) >= LDM_SYMS_MIN
    }

    /// Indexes the block's first position.
    fn index_first(&mut self)
        requires
            old(self)@.ready(),
        ensures
            final(self)@ == first_indexed(old(self)@),
            final(self)@.ready(),
    {
        let ghost d0 = self@;
        assert(self.win@.len() == self.win.len());
        let at: usize = (self.place.block_start - self.place.base) as usize;
        let k: Keys = self.keys_of();
        assert(k.fits(d0.win, d0.store));
        proof {
            crate::store::lemma_indexed_sized(k, d0.win, d0.store, d0.at(), d0.at() + 1, 1);
        }
        if self.win.len() - at >= HASH_READ {
            self.tables.index_range(&k, &self.win, at, at + 1, 1);
        }
        assert(self@ == first_indexed(d0));
    }

    /// Passes over the block, which is one byte repeated: its first position stands
    /// for all.
    pub fn skip_matching(&mut self)
        requires
            old(self)@.ready(),
        ensures
            final(self)@ == skipped(old(self)@),
            final(self)@.wf(),
            final(self)@.has_block(),
    {
        self.index_first();
        self.ldm_alphabet_gate();
        self.place.pos = self.place.block_end;
    }

    /// Samples the block before its parse. Where the verdict is open,
    /// [`Self::settle_gate`] takes the decision.
    #[verifier::rlimit(40)]
    pub fn gate_block(&mut self) -> (r: GateVerdict)
        requires
            old(self)@.ready(),
        ensures
            final(self)@ == gated(old(self)@).0,
            r == gated(old(self)@).1,
            final(self)@.ready(),
    {
        let ghost d0 = self@;
        assert(self.win@.len() == self.win.len());
        let from: usize = (self.place.block_start - self.place.base) as usize;
        let to: usize = (self.place.block_end - self.place.base) as usize;
        if to - from < GATE_MIN_BLOCK {
            return GateVerdict::Parse;
        }
        if self.probe.len() == 0 {
            self.probe = zeroed(crate::hash::slot_count(GATE_PROBE_LOG));
        }
        let block: &[u8] = vstd::slice::slice_subrange(self.win.as_slice(), from, to);
        assert(block@ == d0.block());
        assert(self.probe@ == gate_table(d0));
        let wide: bool = sample_wide(&mut self.probe, block);
        let m: Mode = self.mode;
        if !wide {
            self.mode = Mode { gate_hold: false, ..m };
            GateVerdict::Parse
        } else if m.gate_hold {
            GateVerdict::Skip
        } else {
            GateVerdict::Undecided
        }
    }

    /// Leaves the block out of the parse, as incompressible. It stays history:
    /// the next parse indexes it first.
    pub fn leave_out(&mut self)
        requires
            old(self)@.ready(),
        ensures
            final(self)@ == left_out(old(self)@),
            final(self)@.wf(),
            final(self)@.has_block(),
    {
        let ghost d0 = self@;
        if self.mode.gap_start == NO_GAP {
            self.mode.gap_start = self.place.block_start;
        }
        self.ldm_alphabet_gate();
        self.place.pos = self.place.block_end;
    }

    /// Decides a block that sampling left open, by whether its byte distribution
    /// is too dense for an entropy coder. A dense one is left out, and so are its
    /// successors until sampling finds one that is not. Returns whether the block
    /// was left out.
    pub fn settle_gate(&mut self, dense: bool) -> (r: bool)
        requires
            old(self)@.ready(),
        ensures
            r == dense,
            final(self)@ == if dense {
                left_out(Drv { mode: Mode { gate_hold: true, ..old(self)@.mode }, ..old(self)@ })
            } else {
                old(self)@
            },
            final(self)@.wf(),
            final(self)@.has_block(),
    {
        if dense {
            self.mode.gate_hold = true;
            self.leave_out();
        }
        dense
    }

    /// Leaves the block out if it is incompressible, and says whether it was.
    /// `dense` says whether its byte distribution is too dense for an entropy
    /// coder, and counts only where sampling leaves the verdict open.
    pub fn skip_if_incompressible(&mut self, dense: bool) -> (r: bool)
        requires
            old(self)@.ready(),
        ensures
            r == gives_up(gated(old(self)@).1, dense),
            final(self)@ == screened(old(self)@, dense),
            final(self)@.wf(),
            final(self)@.has_block(),
            !r ==> final(self)@.ready(),
    {
        match self.gate_block() {
            GateVerdict::Parse => false,
            GateVerdict::Skip => {
                self.leave_out();
                true
            },
            GateVerdict::Undecided => self.settle_gate(dense),
        }
    }
}

/// Filtering picks usable candidates.
pub proof fn lemma_usable_among(d: Drv, found: Seq<LdmSeq>, n: int)
    requires
        0 <= n <= found.len(),
    ensures
        forall|k: int| 0 <= k < usable_among(d, found, n).len() ==> usable(d, #[trigger] usable_among(d, found, n)[k]),
    decreases n,
{
    if n > 0 {
        lemma_usable_among(d, found, n - 1);
        let a = usable_among(d, found, n - 1);
        let b = usable_among(d, found, n);
        assert forall|k: int| 0 <= k < b.len() implies usable(d, #[trigger] b[k]) by {
            if k < a.len() {
                assert(b[k] == a[k]);
            }
        }
    }
}

/// An empty range indexes nothing.
proof fn lemma_indexed_none(k: Keys, w: Seq<u8>, s: crate::store::Store, from: int, to: int, step: int)
    requires
        from >= to,
    ensures
        indexed(k, w, s, from, to, step) == s,
{
}

} // verus!
