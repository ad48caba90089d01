//! Strips shared between jobs: the chain tables after a prefix of the history are
//! captured once, and every job continues from the capture.

use vstd::prelude::*;
use crate::chains::{insert_linked_range, link_as, link_range, Heads, LinkCfg};
use crate::driver::{later, Drv, LdmUse, MatchGeneratorDriver, Mode, NO_GAP, POS_MAX};
use crate::driver_fill::{filled, seeded, swept, warmed, FillGrid};
use crate::hash::{le8, short_slot, HASH_READ};
use crate::params::{least, BtStepPhase, HeadPhase, Strategy};
use crate::probe::{seed_gate_probe, seeded_probe};
use crate::scan::MAX_BLOCK_SIZE;
use crate::store::Store;
use crate::tables::{PREFILL_STRIDE, WIN_MAX};

verus! {

/// The chain tables of a prefix of the history.
pub struct StripSnapshot {
    pub table: Vec<u32>,
    pub chain: Vec<u32>,
    /// Coordinate origin of the entries.
    pub origin: u64,
    /// End of the prefix.
    pub upto: u64,
}

/// First grid position that a fill of `from` bytes leaves open.
pub open spec fn resume(from: int) -> int {
    if from <= HASH_READ {
        0
    } else {
        (from - HASH_READ + 2) / 3 * 3
    }
}

/// Keys of the chain for history at `base`.
pub open spec fn strip_link(m: Mode, base: u64) -> LinkCfg {
    LinkCfg { base, origin: m.head_origin, log: m.params.hash_log, width: m.width() }
}

/// A matcher whose chain has been filled from `from` bytes up to `last`.
pub open spec fn grid_filled(d: Drv, w: Seq<u8>, base: u64, from: int, last: int) -> Drv {
    let h = link_range(
        strip_link(d.mode, base),
        w,
        Heads { t: d.store.t, ch: d.store.ch },
        resume(from),
        last,
        3,
    );
    Drv {
        store: Store { t: h.t, ch: h.ch, ..d.store },
        mode: Mode { strip_mark: later(d.mode.strip_mark, (base + last) as u64), ..d.mode },
        ..d
    }
}

/// A matcher whose strip of `from` bytes has been continued to all of `w`.
pub open spec fn continued(d: Drv, w: Seq<u8>, base: u64, from: int) -> Drv {
    if w.len() < HASH_READ {
        d
    } else {
        grid_filled(d, w, base, from, w.len() - HASH_READ)
    }
}

/// A matcher whose strip of `from` bytes has been advanced to the prefix of `upto`.
pub open spec fn segment_filled(d: Drv, w: Seq<u8>, base: u64, from: int, upto: int) -> Drv {
    if upto > HASH_READ {
        grid_filled(d, w, base, from, upto - HASH_READ)
    } else {
        d
    }
}

/// Where a strip stands that was advanced to `cuts`, one after the other.
pub open spec fn reached(cuts: Seq<int>) -> int {
    if cuts.len() == 0 {
        0
    } else {
        cuts.last()
    }
}

/// The cuts follow each other inside the strip.
pub open spec fn cuts_rise(w: Seq<u8>, cuts: Seq<int>) -> bool
    decreases cuts.len(),
{
    cuts.len() > 0 ==> {
        &&& cuts_rise(w, cuts.drop_last())
        &&& reached(cuts.drop_last()) <= cuts.last() <= w.len()
    }
}

/// A matcher whose strip was advanced to `cuts`, one after the other.
pub open spec fn segments_filled(d: Drv, w: Seq<u8>, base: u64, cuts: Seq<int>) -> Drv
    decreases cuts.len(),
{
    if cuts.len() == 0 {
        d
    } else {
        let before = cuts.drop_last();
        segment_filled(segments_filled(d, w, base, before), w, base, reached(before), cuts.last())
    }
}

/// A matcher on a captured strip, before it continues it.
pub open spec fn on_snapshot(d: Drv, t: Seq<u32>, ch: Seq<u32>, origin: u64) -> Drv {
    Drv {
        store: Store { t, ch, ..d.store },
        mode: Mode {
            head: HeadPhase::Off,
            bt_step: BtStepPhase::Off,
            head_origin: origin,
            gap_start: NO_GAP,
            gate_hold: false,
            strip_parse: true,
            ldm: LdmUse { dead: false, quiet: 0, canary: 0, ..d.mode.ldm },
            ..d.mode
        },
        ..d
    }
}

/// A matcher that takes over a captured strip and continues it to all of `w`.
pub open spec fn snapshot_adopted(d: Drv, t: Seq<u32>, ch: Seq<u32>, origin: u64, from: int, w: Seq<u8>, base: u64) -> Drv {
    let a = on_snapshot(d, t, ch, origin);
    let b = continued(a, w, base, from);
    Drv {
        probe: seeded_probe(d.probe, w, least(MAX_BLOCK_SIZE as int, d.mode.params.window as int)),
        carry: if w.len() < HASH_READ {
            d.carry
        } else {
            seeded(d.carry, w, w.len() - HASH_READ)
        },
        ..b
    }
}

/// A fill along a grid can be interrupted anywhere: it goes on at the first grid
/// position that was left open.
pub proof fn lemma_link_split(c: LinkCfg, w: Seq<u8>, h: Heads, from: int, mid: int, next: int, to: int)
    requires
        from <= next,
        (next - from) % 3 == 0,
        next > from ==> next - 3 < mid <= next,
        next == from ==> mid <= from,
        mid <= to,
    ensures
        link_range(c, w, link_range(c, w, h, from, mid, 3), next, to, 3) == link_range(c, w, h, from, to, 3),
    decreases next - from,
{
    if from < next {
        assert(from < mid);
        lemma_link_split(c, w, link_as(c, w, h, from, from), from + 3, mid, next, to);
    }
}

/// A fill reads nothing past the last position it inserts and its hash.
pub proof fn lemma_link_local(c: LinkCfg, w: Seq<u8>, v: Seq<u8>, h: Heads, from: int, to: int)
    requires
        0 <= from,
        forall|k: int| 0 <= k < to + HASH_READ ==> #[trigger] w[k] == v[k],
    ensures
        link_range(c, w, h, from, to, 3) == link_range(c, v, h, from, to, 3),
    decreases
        if to > from {
            to - from
        } else {
            0
        },
{
    if from < to {
        assert(le8(w, from) == le8(v, from)) by {
            assert(w[from] == v[from] && w[from + 1] == v[from + 1] && w[from + 2] == v[from + 2] && w[from + 3]
                == v[from + 3] && w[from + 4] == v[from + 4] && w[from + 5] == v[from + 5] && w[from + 6] == v[from
                + 6] && w[from + 7] == v[from + 7]);
        }
        assert(short_slot(w, from, c.log, c.width) == short_slot(v, from, c.log, c.width));
        lemma_link_local(c, w, v, link_as(c, v, h, from, from), from + 3, to);
    }
}

/// Continuing the fill of a prefix is the same as filling everything at once.
pub proof fn lemma_strip_resumes(c: LinkCfg, w: Seq<u8>, h: Heads, from: int)
    requires
        0 <= from <= w.len(),
        w.len() >= HASH_READ,
    ensures
        link_range(
            c,
            w,
            link_range(c, w.take(from), h, 0, from - HASH_READ, 3),
            resume(from),
            w.len() - HASH_READ,
            3,
        ) == link_range(c, w, h, 0, w.len() - HASH_READ, 3),
{
    let mid = from - HASH_READ;
    lemma_link_local(c, w, w.take(from), h, 0, mid);
    lemma_link_split(c, w, h, 0, mid, resume(from), w.len() - HASH_READ);
}

/// Segments link what one fill up to the last cut does.
proof fn lemma_segments_link(d: Drv, w: Seq<u8>, base: u64, cuts: Seq<int>)
    requires
        cuts_rise(w, cuts),
    ensures
        ({
            let e = segments_filled(d, w, base, cuts);
            let h = Heads { t: d.store.t, ch: d.store.ch };
            &&& (Heads { t: e.store.t, ch: e.store.ch }) == link_range(
                strip_link(d.mode, base),
                w,
                h,
                0,
                reached(cuts) - HASH_READ,
                3,
            )
            &&& e.mode == (Mode { strip_mark: e.mode.strip_mark, ..d.mode })
            &&& reached(cuts) > HASH_READ && base + w.len() <= POS_MAX ==> e.mode.strip_mark == later(
                d.mode.strip_mark,
                (base + reached(cuts) - HASH_READ) as u64,
            )
            &&& reached(cuts) <= HASH_READ ==> e.mode.strip_mark == d.mode.strip_mark
            &&& e == (Drv { store: Store { t: e.store.t, ch: e.store.ch, ..d.store }, mode: e.mode, ..d })
        }),
        0 <= reached(cuts) <= w.len(),
    decreases cuts.len(),
{
    if cuts.len() > 0 {
        let before = cuts.drop_last();
        lemma_segments_link(d, w, base, before);
        let from = reached(before);
        let upto = cuts.last();
        if upto > HASH_READ {
            let h = Heads { t: d.store.t, ch: d.store.ch };
            lemma_link_split(strip_link(d.mode, base), w, h, 0, from - HASH_READ, resume(from), upto - HASH_READ);
        }
    }
}

/// However a builder gets there, in segments from nothing up to the last cut, its tables
/// are those of a fill of that prefix at once, under the same origin: a capture taken
/// there is one of the prefix.
pub proof fn lemma_segments_are_exact(b: Drv, w: Seq<u8>, base: u64, cuts: Seq<int>)
    requires
        b.mode.params.strategy is Chain,
        cuts_rise(w, cuts),
        base + w.len() <= POS_MAX,
    ensures
        ({
            let start = filled(b, Seq::empty(), base, FillGrid::Strip, true);
            let built = segments_filled(start, w, base, cuts);
            let whole = filled(b, w.take(reached(cuts)), base, FillGrid::Strip, true);
            &&& built.store.t == whole.store.t
            &&& built.store.ch == whole.store.ch
            &&& built.mode.head_origin == whole.mode.head_origin
            &&& reached(cuts) != HASH_READ ==> built.mode.strip_mark == whole.mode.strip_mark
        }),
{
    let start = filled(b, Seq::empty(), base, FillGrid::Strip, true);
    let upto = reached(cuts);
    lemma_segments_link(start, w, base, cuts);
    let m = warmed(b.mode, upto == 0, FillGrid::Strip, true);
    let s = swept(b.mode, b.store, FillGrid::Strip);
    let c = strip_link(start.mode, base);
    assert(strip_link(m, base) == c);
    let h = Heads { t: s.t, ch: s.ch };
    lemma_link_local(c, w, w.take(upto), h, 0, upto - HASH_READ);
}

/// A job that takes over the captured strip of a prefix ends up with the head
/// table, links, probe and seed of one that fills its whole strip itself.
pub proof fn lemma_snapshot_is_exact(b: Drv, d: Drv, w: Seq<u8>, base: u64, from: int)
    requires
        b.mode.params.strategy is Chain,
        d.mode.params == b.mode.params,
        d.mode.dict_row == b.mode.dict_row,
        0 <= from <= w.len(),
        HASH_READ <= w.len(),
    ensures
        ({
            let built = filled(b, w.take(from), base, FillGrid::Strip, true);
            let job = snapshot_adopted(
                d,
                built.store.t,
                built.store.ch,
                built.mode.head_origin,
                from,
                w,
                base,
            );
            let whole = filled(b, w, base, FillGrid::Strip, true);
            &&& job.store.t == whole.store.t
            &&& job.store.ch == whole.store.ch
            &&& job.mode.head_origin == whole.mode.head_origin
            &&& job.probe == filled(d, w, base, FillGrid::Strip, true).probe
            &&& job.carry == filled(d, w, base, FillGrid::Strip, true).carry
            &&& job.mode.head == HeadPhase::Off && job.mode.gap_start == NO_GAP && job.mode.strip_parse
        }),
{
    let m = warmed(b.mode, false, FillGrid::Strip, true);
    let s = swept(b.mode, b.store, FillGrid::Strip);
    let c = strip_link(m, base);
    lemma_strip_resumes(c, w, Heads { t: s.t, ch: s.ch }, from);
    let built = filled(b, w.take(from), base, FillGrid::Strip, true);
    assert(built.mode.head_origin == m.head_origin);
    let h = link_range(c, w.take(from), Heads { t: s.t, ch: s.ch }, 0, from - HASH_READ, 3);
    assert(built.store.t == h.t && built.store.ch == h.ch);
    let job = on_snapshot(d, built.store.t, built.store.ch, built.mode.head_origin);
    assert(strip_link(job.mode, base) == c);
}

/// A copy of a table.
fn copied(t: &Vec<u32>) -> (r: Vec<u32>)
    ensures
        r@ == t@,
{
    let mut r: Vec<u32> = Vec::new();
    let mut i: usize = 0;
    while i < t.len()
        invariant
            i <= t@.len(),
            r@ == t@.take(i as int),
        decreases t@.len() - i,
    {
        r.push(t[i]);
        i = i + 1;
        assert(t@.take(i as int) =~= t@.take(i - 1).push(t@[i - 1]));
    }
    assert(t@.take(i as int) =~= t@);
    r
}

impl MatchGeneratorDriver {
    /// Captures the strip, right after a fill up to `upto`.
    pub fn snapshot_strip_fill(&self, upto: u64) -> (r: StripSnapshot)
        requires
            self@.mode.params.strategy is Chain,
        ensures
            r.table@ == self@.store.t,
            r.chain@ == self@.store.ch,
            r.origin == self@.mode.head_origin,
            r.upto == upto,
    {
        StripSnapshot {
            table: copied(&self.tables.table),
            chain: copied(&self.tables.chain),
            origin: self.mode.head_origin,
            upto,
        }
    }

    /// Fills the chain from `from` bytes of the strip up to `last`.
    fn chain_grid_fill(&mut self, data: &[u8], base: u64, from: usize, last: usize)
        requires
            old(self)@.wf(),
            old(self)@.mode.params.strategy is Chain,
            data@.len() <= WIN_MAX,
            base + data@.len() <= POS_MAX,
            from <= data@.len(),
            last + HASH_READ <= data@.len(),
        ensures
            final(self)@ == grid_filled(old(self)@, data@, base, from as int, last as int),
            final(self)@.wf(),
    {
        let ghost d0 = self@;
        let start: usize = if from <= HASH_READ {
            0
        } else {
            (from - HASH_READ + 2) / 3 * 3
        };
        let c: LinkCfg = LinkCfg {
            base,
            origin: self.mode.head_origin,
            log: self.mode.params.hash_log,
            width: self.mode.hash_width(),
        };
        proof {
            if let Strategy::Chain(log) = d0.mode.params.strategy {
                crate::bits::lemma_pow2_monotone(0, log as nat);
                vstd::arithmetic::power2::lemma2_to64();
            }
        }
        insert_linked_range(&c, data, &mut self.tables.table, &mut self.tables.chain, start, last, PREFILL_STRIDE);
        let end: u64 = base + last as u64;
        if end > self.mode.strip_mark {
            self.mode.strip_mark = end;
        }
        assert(self@.store =~= grid_filled(d0, data@, base, from as int, last as int).store);
        assert(self@ == grid_filled(d0, data@, base, from as int, last as int));
    }

    /// Continues the strip fill of `from` bytes to all of `data`.
    pub fn strip_fill_continue(&mut self, data: &[u8], base: u64, from: usize)
        requires
            old(self)@.wf(),
            old(self)@.mode.params.strategy is Chain,
            data@.len() <= WIN_MAX,
            base + data@.len() <= POS_MAX,
            from <= data@.len(),
        ensures
            final(self)@ == continued(old(self)@, data@, base, from as int),
            final(self)@.wf(),
    {
        if data.len() < HASH_READ {
            return;
        }
        let last: usize = data.len() - HASH_READ;
        self.chain_grid_fill(data, base, from, last);
    }

    /// Advances the strip fill of `from` bytes to the prefix of `upto` bytes, where
    /// a capture may be taken.
    pub fn strip_fill_segment(&mut self, data: &[u8], base: u64, from: usize, upto: usize)
        requires
            old(self)@.wf(),
            old(self)@.mode.params.strategy is Chain,
            data@.len() <= WIN_MAX,
            base + data@.len() <= POS_MAX,
            from <= upto <= data@.len(),
        ensures
            final(self)@ == segment_filled(old(self)@, data@, base, from as int, upto as int),
            final(self)@.wf(),
    {
        if upto > HASH_READ {
            self.chain_grid_fill(data, base, from, upto - HASH_READ);
        }
    }

    /// Takes over a captured strip and continues it: `data` is the job's strip at
    /// `base`.
    pub fn adopt_strip_snapshot(&mut self, snap: &StripSnapshot, data: &[u8], base: u64)
        requires
            old(self)@.wf(),
            old(self)@.mode.params.strategy is Chain,
            snap.table@.len() == old(self)@.store.t.len(),
            snap.chain@.len() == old(self)@.store.ch.len(),
            snap.origin <= crate::driver::HEAD_ORIGIN_CAP,
            data@.len() <= WIN_MAX,
            base + data@.len() <= POS_MAX,
            base <= snap.upto <= base + data@.len(),
        ensures
            final(self)@ == snapshot_adopted(
                old(self)@,
                snap.table@,
                snap.chain@,
                snap.origin,
                snap.upto - base,
                data@,
                base,
            ),
            final(self)@.wf(),
    {
        let ghost d0 = self@;
        self.tables.table = copied(&snap.table);
        self.tables.chain = copied(&snap.chain);
        let m: Mode = self.mode;
        self.mode = Mode {
            head: HeadPhase::Off,
            bt_step: BtStepPhase::Off,
            head_origin: snap.origin,
            gap_start: NO_GAP,
            gate_hold: false,
            strip_parse: true,
            ldm: LdmUse { dead: false, quiet: 0, canary: 0, ..m.ldm },
            ..m
        };
        assert(self@ == on_snapshot(d0, snap.table@, snap.chain@, snap.origin));
        let block: usize = self.block_size();
        seed_gate_probe(&mut self.probe, data, block);
        assert(self@.wf());
        assert(data@.len() == data.len());
        let from: usize = (snap.upto - base) as usize;
        self.strip_fill_continue(data, base, from);
        if data.len() < HASH_READ {
            return;
        }
        let last: usize = data.len() - HASH_READ;
        self.acquire_seed(data, last);
    }
}

} // verus!
