//! History that a matcher starts from: windows handed over whole, strips of a
//! multithreaded job, and dictionaries.

use vstd::prelude::*;
use crate::driver::{later, Carry, Drv, LdmUse, MatchGeneratorDriver, Mode, Place, HEAD_ORIGIN_CAP, NO_GAP, POS_MAX};
use crate::gates::{seed_below, seed_scan, SEED_BUDGET};
use crate::hash::{le8, lemma_le8_eq, read8, HASH_READ};
use crate::opt_tree::Tree;
use crate::params::{least, BtStepPhase, HeadPhase, LevelParams, Strategy};
use crate::probe::{seed_gate_probe, seeded_probe};
use crate::scan::MAX_BLOCK_SIZE;
use crate::sequence::Reps;
use crate::store::{dict_indexed, retabled, strip_indexed, zero_heads, zeros, Keys, Store};
use crate::tables::WIN_MAX;

verus! {

/// What history is.
#[derive(Clone, Copy, PartialEq, Eq, Structural, Debug)]
pub enum FillGrid {
    /// The tail of what came before a job.
    Strip,
    /// A dictionary.
    Dictionary,
}

/// What a scan starts from after history whose last hashable position is `last`:
/// the nearest long repeat of the history's end is probed directly.
pub open spec fn seeded(c: Carry, w: Seq<u8>, last: int) -> Carry {
    match seed_below(w, last, last, le8(w, last) as u64) {
        Some(u) => Carry { seed: (last - u) as u32, hits: 0, budget: SEED_BUDGET, ..c },
        None => c,
    }
}

/// Whether the next coordinate origin of the chain is out of range.
pub open spec fn origin_full(m: Mode) -> bool {
    m.head_origin + m.strip_mark + 1 > HEAD_ORIGIN_CAP
}

/// The mode after history, before it is indexed. Only a start without history is
/// cold.
pub open spec fn warmed(m: Mode, empty: bool, grid: FillGrid, ingest: bool) -> Mode {
    let moves = m.params.strategy is Chain && grid is Strip;
    Mode {
        head: if empty && m.head_eligible() {
            HeadPhase::Armed
        } else {
            HeadPhase::Off
        },
        bt_step: if empty && m.params.strategy is BtLazy {
            BtStepPhase::Armed
        } else {
            BtStepPhase::Off
        },
        head_origin: if !moves {
            m.head_origin
        } else if origin_full(m) {
            0
        } else {
            (m.head_origin + m.strip_mark + 1) as u64
        },
        strip_mark: if moves {
            0
        } else {
            m.strip_mark
        },
        gap_start: NO_GAP,
        gate_hold: false,
        strip_parse: true,
        ldm: if m.ldm.on && ingest {
            LdmUse { dead: false, quiet: 0, canary: 0, ..m.ldm }
        } else {
            m.ldm
        },
        ..m
    }
}

/// The tables before history is indexed. No entry of what came before is left,
/// but for chain entries of a strip, which lie beyond the new origin, and chain
/// links, which nothing reaches.
pub open spec fn swept(m: Mode, s: Store, grid: FillGrid) -> Store {
    let chain = m.params.strategy is Chain;
    Store {
        t: if chain && grid is Strip && !origin_full(m) {
            s.t
        } else {
            zeros(s.t.len() as int)
        },
        ch: if chain {
            s.ch
        } else {
            zeros(s.ch.len() as int)
        },
        hd: zero_heads(s.hd.len() as int),
        ..s
    }
}

/// The tables after history at `base` has been indexed.
pub open spec fn history_indexed(k: Keys, w: Seq<u8>, s: Store, grid: FillGrid) -> Store {
    let last = w.len() - HASH_READ;
    match k.strategy {
        Strategy::Opt(_) => Store {
            tree: Tree {
                next: if s.tree.next > k.base {
                    k.base as int
                } else {
                    s.tree.next
                },
                ..s.tree
            },
            ..s
        },
        Strategy::BtLazy(_) => Store { tree: Tree { next: k.base as int, ..s.tree }, ..s },
        _ => if grid is Strip {
            strip_indexed(k, w, s, last)
        } else {
            dict_indexed(k, w, s, last)
        },
    }
}

/// Whether a strategy probes the repeat of the history's end: dense chains and
/// rows of a dictionary reach it by themselves, trees always do.
pub open spec fn seeks(strategy: Strategy, grid: FillGrid) -> bool {
    match strategy {
        Strategy::Fast => true,
        Strategy::Dfast(_) => true,
        Strategy::Chain(_) => grid is Strip,
        Strategy::Row(_) => grid is Strip,
        Strategy::Opt(_) => false,
        Strategy::BtLazy(_) => false,
    }
}

/// A matcher whose tables hold exactly the history `w` at `base`.
pub open spec fn filled(d: Drv, w: Seq<u8>, base: u64, grid: FillGrid, ingest: bool) -> Drv {
    let m = warmed(d.mode, w.len() == 0, grid, ingest);
    let s = swept(d.mode, d.store, grid);
    let probe = seeded_probe(d.probe, w, least(MAX_BLOCK_SIZE as int, m.params.window as int));
    if w.len() < HASH_READ {
        Drv { mode: m, store: s, probe, ..d }
    } else {
        let k = Keys {
            base,
            origin: m.head_origin,
            hash_log: m.params.hash_log,
            strategy: m.params.strategy,
            width: m.width(),
        };
        Drv {
            mode: if m.params.strategy is Chain {
                Mode { strip_mark: later(m.strip_mark, (base + w.len() - HASH_READ) as u64), ..m }
            } else {
                m
            },
            store: history_indexed(k, w, s, grid),
            carry: if seeks(m.params.strategy, grid) {
                seeded(d.carry, w, w.len() - HASH_READ)
            } else {
                d.carry
            },
            probe,
            ..d
        }
    }
}

impl MatchGeneratorDriver {
    /// Probes the repeat of the history's end directly from now on, if it has one.
    pub(crate) fn acquire_seed(&mut self, data: &[u8], last: usize)
        requires
            last + HASH_READ == data@.len(),
            data@.len() <= WIN_MAX,
        ensures
            final(self)@ == (Drv { carry: seeded(old(self)@.carry, data@, last as int), ..old(self)@ }),
            old(self)@.carry.wf() ==> final(self)@.carry.wf(),
    {
        let ghost d0 = self@;
        proof {
            lemma_le8_eq(data@, last as int, last as int);
        }
        let a8: u64 = read8(data, last);
        if let Some(u) = seed_scan(data, last, a8) {
            self.carry.seed = (last - u) as u32;
            self.carry.hits = 0;
            self.carry.budget = SEED_BUDGET;
        }
        assert(self@ == (Drv { carry: seeded(d0.carry, data@, last as int), ..d0 }));
    }
}

/// The mode after history, before it is indexed.
fn warm_mode(m: &Mode, empty: bool, grid: FillGrid, ingest: bool) -> (r: Mode)
    requires
        m.wf(),
    ensures
        r == warmed(*m, empty, grid, ingest),
        r.wf(),
{
    let chain: bool = match m.params.strategy {
        Strategy::Chain(_) => true,
        _ => false,
    };
    let tree: bool = match m.params.strategy {
        Strategy::BtLazy(_) => true,
        _ => false,
    };
    let strip: bool = match grid {
        FillGrid::Strip => true,
        FillGrid::Dictionary => false,
    };
    let head: HeadPhase = if empty && m.has_head() {
        HeadPhase::Armed
    } else {
        HeadPhase::Off
    };
    let bt_step: BtStepPhase = if empty && tree {
        BtStepPhase::Armed
    } else {
        BtStepPhase::Off
    };
    let next: u64 = m.head_origin + m.strip_mark + 1;
    let head_origin: u64 = if !(chain && strip) {
        m.head_origin
    } else if next > HEAD_ORIGIN_CAP {
        0
    } else {
        next
    };
    let strip_mark: u64 = if chain && strip {
        0
    } else {
        m.strip_mark
    };
    let ldm: LdmUse = if m.ldm.on && ingest {
        LdmUse { dead: false, quiet: 0, canary: 0, ..m.ldm }
    } else {
        m.ldm
    };
    Mode {
        head,
        bt_step,
        head_origin,
        strip_mark,
        gap_start: NO_GAP,
        gate_hold: false,
        strip_parse: true,
        ldm,
        ..*m
    }
}

/// Whether a strategy probes the repeat of the history's end.
fn wants_seed(strategy: Strategy, grid: FillGrid) -> (r: bool)
    ensures
        r == seeks(strategy, grid),
{
    let strip: bool = match grid {
        FillGrid::Strip => true,
        FillGrid::Dictionary => false,
    };
    match strategy {
        Strategy::Fast => true,
        Strategy::Dfast(_) => true,
        Strategy::Chain(_) => strip,
        Strategy::Row(_) => strip,
        Strategy::Opt(_) => false,
        Strategy::BtLazy(_) => false,
    }
}

impl MatchGeneratorDriver {
    /// Removes what came before history from the tables.
    fn sweep(&mut self, grid: FillGrid)
        requires
            old(self)@.mode.wf(),
        ensures
            final(self)@ == (Drv { store: swept(old(self)@.mode, old(self)@.store, grid), ..old(self)@ }),
    {
        let ghost d0 = self@;
        let chain: bool = match self.mode.params.strategy {
            Strategy::Chain(_) => true,
            _ => false,
        };
        let strip: bool = match grid {
            FillGrid::Strip => true,
            FillGrid::Dictionary => false,
        };
        let full: bool = self.mode.head_origin + self.mode.strip_mark + 1 > HEAD_ORIGIN_CAP;
        if !(chain && strip && !full) {
            self.tables.clear_heads();
        }
        self.tables.clear_row_heads();
        if !chain {
            self.tables.clear_second();
        }
        assert(self@.store =~= swept(d0.mode, d0.store, grid));
    }

    /// Indexes history of at least one hashable position.
    fn index_history(&mut self, k: &Keys, data: &[u8], grid: FillGrid)
        requires
            k.fits(data@, old(self)@.store),
            data@.len() >= HASH_READ,
            0 <= old(self)@.store.tree.next <= u64::MAX,
        ensures
            final(self)@ == (Drv {
                store: history_indexed(*k, data@, old(self)@.store, grid),
                ..old(self)@
            }),
            k.fits(data@, final(self)@.store),
            0 <= final(self)@.store.tree.next <= u64::MAX,
            final(self)@.store.tree.next3 == old(self)@.store.tree.next3,
    {
        let ghost d0 = self@;
        let last: usize = data.len() - HASH_READ;
        match k.strategy {
            Strategy::Opt(_) => {
                if self.tables.tree.next_update > k.base {
                    self.tables.tree.next_update = k.base;
                }
            },
            Strategy::BtLazy(_) => {
                self.tables.tree.next_update = k.base;
            },
            _ => match grid {
                FillGrid::Strip => {
                    self.tables.index_strip(k, data, last);
                },
                FillGrid::Dictionary => {
                    self.tables.index_dict(k, data, last);
                },
            },
        }
        assert(self@.store =~= history_indexed(*k, data@, d0.store, grid));
    }

    /// Makes history the whole content of the tables.
    fn fill_window_grid(&mut self, data: &[u8], base: u64, grid: FillGrid, ingest: bool)
        requires
            old(self)@.wf(),
            data@.len() <= WIN_MAX,
            base + data@.len() <= POS_MAX,
        ensures
            final(self)@ == filled(old(self)@, data@, base, grid, ingest),
            final(self)@.wf(),
    {
        let ghost d0 = self@;
        let m: Mode = warm_mode(&self.mode, data.len() == 0, grid, ingest);
        self.sweep(grid);
        self.mode = m;
        let block: usize = self.block_size();
        seed_gate_probe(&mut self.probe, data, block);
        let ghost d1 = self@;
        assert(d1 == (Drv {
            mode: m,
            store: swept(d0.mode, d0.store, grid),
            probe: seeded_probe(d0.probe, data@, block as int),
            ..d0
        }));
        if data.len() < HASH_READ {
            return;
        }
        let k: Keys = Keys {
            base,
            origin: m.head_origin,
            hash_log: m.params.hash_log,
            strategy: m.params.strategy,
            width: m.hash_width(),
        };
        let last: usize = data.len() - HASH_READ;
        self.index_history(&k, data, grid);
        if let Strategy::Chain(_) = m.params.strategy {
            let end: u64 = base + last as u64;
            if end > m.strip_mark {
                self.mode.strip_mark = end;
            }
        }
        if wants_seed(m.params.strategy, grid) {
            self.acquire_seed(data, last);
        }
        assert(self@.mode == filled(d0, data@, base, grid, ingest).mode);
        assert(self@.store == filled(d0, data@, base, grid, ingest).store);
        assert(self@ == filled(d0, data@, base, grid, ingest));
    }

    /// Makes a strip of history the whole content of the tables: `data` lies at
    /// `base`. What is matched after it can refer to it.
    pub fn prefill_window(&mut self, data: &[u8], base: u64)
        requires
            old(self)@.wf(),
            data@.len() <= WIN_MAX,
            base + data@.len() <= POS_MAX,
        ensures
            final(self)@ == filled(old(self)@, data@, base, FillGrid::Strip, true),
            final(self)@.wf(),
    {
        self.fill_window_grid(data, base, FillGrid::Strip, true);
    }

    /// Like [`Self::prefill_window`], leaving the state of long-distance matching
    /// alone.
    pub fn prefill_job_strip_chain(&mut self, data: &[u8], base: u64)
        requires
            old(self)@.wf(),
            data@.len() <= WIN_MAX,
            base + data@.len() <= POS_MAX,
        ensures
            final(self)@ == filled(old(self)@, data@, base, FillGrid::Strip, false),
            final(self)@.wf(),
    {
        self.fill_window_grid(data, base, FillGrid::Strip, false);
    }
}

/// Share of a strip that an optimal parse indexes: half its search domain, all of
/// it on the ultra rows.
pub open spec fn tree_strip(p: LevelParams) -> int {
    match p.strategy {
        Strategy::Opt(k) => if k.ultra {
            p.reach_of() as int
        } else {
            p.reach_of() as int / 2
        },
        _ => p.reach_of() as int,
    }
}

/// A matcher whose tree starts at the tail of the strip.
pub open spec fn tail_bound(d: Drv, len: int, base: u64) -> Drv {
    let back = tree_strip(d.mode.params);
    let bound = if len > back {
        base + len - back
    } else {
        base as int
    };
    if d.mode.params.strategy is Opt && d.store.tree.next < bound {
        Drv { store: Store { tree: Tree { next: bound, ..d.store.tree }, ..d.store }, ..d }
    } else {
        d
    }
}

/// A matcher that is handed the window `w` at `base`.
pub open spec fn adopted(d: Drv, w: Seq<u8>, base: u64) -> Drv {
    Drv { win: w, place: Place { base, ..d.place }, mode: Mode { direct: true, ..d.mode }, ..d }
}

/// Bytes that are dropped from the window before a block is added.
pub open spec fn compacted(d: Drv) -> int {
    if d.win.len() + d.mode.slice_size > d.mode.win_cap {
        d.win.len() - least(d.win.len() as int, d.mode.params.window as int)
    } else {
        0
    }
}

/// A matcher with a block added to its window.
pub open spec fn committed(d: Drv, data: Seq<u8>) -> Drv {
    let drop = compacted(d);
    let start = (d.place.base + d.win.len()) as u64;
    Drv {
        win: d.win.skip(drop) + data,
        place: Place {
            base: (d.place.base + drop) as u64,
            pos: start,
            block_start: start,
            block_end: (start + data.len()) as u64,
        },
        ..d
    }
}

/// The row of a dictionary frame: short candidates are hashed and stored, and the
/// chain is walked deeper.
pub open spec fn dict_mode(m: Mode) -> Mode {
    let p = m.params;
    match p.strategy {
        Strategy::Chain(_) => Mode {
            dict_row: true,
            params: LevelParams { min_match: 4, search_depth: (p.search_depth * 8) as u32, ..p },
            ..m
        },
        Strategy::Row(_) => Mode {
            dict_row: true,
            params: LevelParams { min_match: 4, ..p },
            ..m
        },
        Strategy::Dfast(_) => Mode { dict_row: true, ..m },
        _ => m,
    }
}

/// Largest payload of a dictionary frame that takes a row for small inputs.
pub const SMALL_DICT_PAYLOAD_MAX: u64 = 0x4000;

/// Log of the head table of such a row's chain.
pub const SMALL_DICT_HASH_LOG: u32 = 15;

/// Log of the links of such a row's chain: they cover the dictionary and the payload.
pub const SMALL_DICT_CHAIN_LOG: u32 = 15;

/// What a level puts in the place of its row for a small payload with a dictionary.
#[derive(Clone, Copy, Debug)]
pub enum SmallDictRow {
    /// A chain that is walked `depth` links deep, and defers by `lazy` positions.
    Chain { depth: u32, lazy: u32 },
    /// An optimal parse.
    Opt(LevelParams),
}

/// Whether the declared length, less a dictionary of `n` bytes, is a small payload.
pub open spec fn small_payload(m: Mode, n: int) -> bool {
    match m.input.shape.len {
        Some(len) => len - n <= SMALL_DICT_PAYLOAD_MAX,
        None => false,
    }
}

/// The chain row for small payloads, with the rest as in `p`.
pub open spec fn small_chain(p: LevelParams, depth: u32, lazy: u32) -> LevelParams {
    LevelParams {
        hash_log: SMALL_DICT_HASH_LOG,
        strategy: Strategy::Chain(SMALL_DICT_CHAIN_LOG),
        search_depth: depth,
        lazy_depth: lazy,
        min_match: 4,
        ..p
    }
}

/// A row that can take the place of the matcher's own: tables can be sized for it,
/// and the window stays.
pub open spec fn swap_fits(d: Drv, swap: Option<SmallDictRow>) -> bool {
    match swap {
        Some(SmallDictRow::Chain { depth, lazy }) => depth <= 0x8000 && lazy <= 2,
        Some(SmallDictRow::Opt(row)) => {
            &&& row.wf()
            &&& row.strategy is Opt
            &&& row.window == d.mode.params.window
            &&& row.search_depth <= 0x1000
        },
        None => true,
    }
}

/// A matcher that has taken the row `swap` for a small payload after a dictionary of
/// `n` bytes. A chain starts from fresh tables.
pub open spec fn swapped(d: Drv, n: int, swap: Option<SmallDictRow>) -> Drv {
    match swap {
        Some(SmallDictRow::Chain { depth, lazy }) if small_payload(d.mode, n) => {
            let row = small_chain(d.mode.params, depth, lazy);
            Drv {
                store: retabled(Store { t: Seq::empty(), ch: Seq::empty(), ..d.store }, false, row),
                mode: Mode { dict_row: true, params: row, ..d.mode },
                ..d
            }
        },
        Some(SmallDictRow::Opt(row)) if small_payload(d.mode, n) => Drv {
            store: retabled(d.store, false, row),
            mode: Mode { params: row, ..d.mode },
            ..d
        },
        _ => d,
    }
}

/// The end of a dictionary that fits the window.
pub open spec fn dict_tail(content: Seq<u8>, window: usize) -> Seq<u8> {
    content.skip(content.len() - least(content.len() as int, window as int))
}

/// A matcher whose frame starts with a dictionary, on the row `swap` if the payload
/// is small.
pub open spec fn with_dict(d: Drv, content: Seq<u8>, rep: Reps, swap: Option<SmallDictRow>) -> Drv {
    let w = dict_tail(content, d.mode.params.window);
    let n = w.len() as u64;
    filled(
        swapped(
            Drv {
                win: w,
                place: Place { base: 0, pos: n, block_start: n, block_end: n },
                carry: Carry { rep, pending: 0, ..d.carry },
                mode: dict_mode(d.mode),
                ..d
            },
            content.len() as int,
            swap,
        ),
        w,
        0,
        FillGrid::Dictionary,
        true,
    )
}

/// The row of a dictionary frame.
fn dict_mode_of(m: Mode) -> (r: Mode)
    requires
        m.wf(),
        !m.dict_row,
    ensures
        r == dict_mode(m),
        r.wf(),
{
    let p: LevelParams = m.params;
    match p.strategy {
        Strategy::Chain(_) => Mode {
            dict_row: true,
            params: LevelParams { min_match: 4, search_depth: p.search_depth * 8, ..p },
            ..m
        },
        Strategy::Row(_) => Mode { dict_row: true, params: LevelParams { min_match: 4, ..p }, ..m },
        Strategy::Dfast(_) => Mode { dict_row: true, ..m },
        _ => m,
    }
}

impl MatchGeneratorDriver {
    /// Share of a strip that an optimal parse indexes.
    fn opt_tree_strip(p: &LevelParams) -> (r: u64)
        ensures
            r == tree_strip(*p),
    {
        let reach: u64 = p.reach() as u64;
        match p.strategy {
            Strategy::Opt(k) => if k.ultra {
                reach
            } else {
                reach / 2
            },
            _ => reach,
        }
    }

    /// Prefills the strip of a job. The optimal parse indexes only its tail.
    pub fn prefill_job_strip(&mut self, data: &[u8], base: u64)
        requires
            old(self)@.wf(),
            data@.len() <= WIN_MAX,
            base + data@.len() <= POS_MAX,
        ensures
            final(self)@ == tail_bound(
                filled(old(self)@, data@, base, FillGrid::Strip, true),
                data@.len() as int,
                base,
            ),
            final(self)@.wf(),
    {
        self.prefill_window(data, base);
        let ghost d1 = self@;
        if let Strategy::Opt(_) = self.mode.params.strategy {
            let back: u64 = MatchGeneratorDriver::opt_tree_strip(&self.mode.params);
            let n: u64 = data.len() as u64;
            let bound: u64 = if n > back {
                base + (n - back)
            } else {
                base
            };
            if self.tables.tree.next_update < bound {
                self.tables.tree.next_update = bound;
            }
        }
        assert(self@.store =~= tail_bound(d1, data@.len() as int, base).store);
    }

    /// Takes over a window: `data` lies at `base`. A block of it is then declared
    /// with [`Self::set_block`].
    pub fn adopt_window(&mut self, data: &[u8], base: u64)
        requires
            old(self)@.wf(),
            old(self)@.mode.direct || old(self)@.win.len() == 0,
            1 <= data@.len() <= WIN_MAX,
            base + data@.len() <= POS_MAX,
        ensures
            final(self)@ == adopted(old(self)@, data@, base),
            final(self)@.wf(),
    {
        let ghost d0 = self@;
        let mut win: Vec<u8> = Vec::new();
        crate::tables::append(&mut win, data, 0, data.len());
        assert(win@ =~= data@);
        self.win = win;
        self.place.base = base;
        self.mode.direct = true;
        assert(self@ == adopted(d0, data@, base));
    }

    /// Declares the block to match next. Matching starts at `start`; what lies
    /// below is history.
    pub fn set_block(&mut self, start: u64, end: u64)
        requires
            old(self)@.wf(),
            old(self)@.place.base <= start <= end <= old(self)@.place.base + old(self)@.win.len(),
            end - start <= MAX_BLOCK_SIZE,
        ensures
            final(self)@ == (Drv {
                place: Place { pos: start, block_start: start, block_end: end, ..old(self)@.place },
                ..old(self)@
            }),
            final(self)@.ready(),
    {
        let ghost d0 = self@;
        self.place = Place { base: self.place.base, pos: start, block_start: start, block_end: end };
        assert(self@ == (Drv {
            place: Place { pos: start, block_start: start, block_end: end, ..d0.place },
            ..d0
        }));
    }

    /// Adds a block to the window. When the window has grown to its limit, what
    /// cannot be reached any more is dropped first.
    pub fn commit_block(&mut self, data: &[u8])
        requires
            old(self)@.wf(),
            !old(self)@.mode.direct,
            data@.len() <= old(self)@.mode.slice_size,
            old(self)@.place.base + old(self)@.win.len() + data@.len() <= POS_MAX,
        ensures
            final(self)@ == committed(old(self)@, data@),
            final(self)@.ready(),
            final(self)@.block() == data@,
    {
        let ghost d0 = self@;
        let n: usize = self.win.len();
        let start: u64 = self.place.base + n as u64;
        assert(d0.mode.slice_size == 0 ==> data@.len() == 0);
        if n + self.mode.slice_size > self.mode.win_cap {
            let window: usize = self.mode.params.window;
            let keep: usize = if n < window {
                n
            } else {
                window
            };
            let mut win: Vec<u8> = Vec::new();
            crate::tables::append(&mut win, &self.win, n - keep, n);
            self.win = win;
            self.place.base = self.place.base + (n - keep) as u64;
        }
        assert(self.win@ =~= d0.win.skip(compacted(d0)));
        crate::tables::append(&mut self.win, data, 0, data.len());
        assert(self.win@ =~= d0.win.skip(compacted(d0)) + data@);
        let end: u64 = start + data.len() as u64;
        self.place = Place { base: self.place.base, pos: start, block_start: start, block_end: end };
        assert(self@ == committed(d0, data@));
        assert(self@.block() =~= data@);
    }

    /// The block.
    pub fn get_last_space(&self) -> (r: &[u8])
        requires
            self@.has_block(),
        ensures
            r@ == self@.block(),
    {
        assert(self.win@.len() == self.win.len());
        let from: usize = (self.place.block_start - self.place.base) as usize;
        let to: usize = (self.place.block_end - self.place.base) as usize;
        vstd::slice::slice_subrange(self.win.as_slice(), from, to)
    }

    /// Takes the row `swap` if the payload after a dictionary of `n` bytes is small.
    fn swap_row(&mut self, n: usize, swap: Option<SmallDictRow>)
        requires
            old(self)@.wf(),
            swap_fits(old(self)@, swap),
        ensures
            final(self)@ == swapped(old(self)@, n as int, swap),
            final(self)@.wf(),
    {
        let ghost d0 = self@;
        let small: bool = match self.mode.input.shape.len {
            Some(len) => len <= n as u64 || len - n as u64 <= SMALL_DICT_PAYLOAD_MAX,
            None => false,
        };
        if !small {
            return;
        }
        let m: Mode = self.mode;
        let p: LevelParams = m.params;
        match swap {
            Some(SmallDictRow::Chain { depth, lazy }) => {
                let row: LevelParams = LevelParams {
                    hash_log: SMALL_DICT_HASH_LOG,
                    strategy: Strategy::Chain(SMALL_DICT_CHAIN_LOG),
                    search_depth: depth,
                    lazy_depth: lazy,
                    min_match: 4,
                    ..p
                };
                self.tables.table = Vec::new();
                self.tables.chain = Vec::new();
                assert(self.tables@ =~= (Store { t: Seq::empty(), ch: Seq::empty(), ..d0.store }));
                self.tables.resize_tables(false, &row);
                self.mode = Mode { dict_row: true, params: row, ..m };
            },
            Some(SmallDictRow::Opt(row)) => {
                self.tables.resize_tables(false, &row);
                self.mode = Mode { params: row, ..m };
            },
            None => {},
        }
        assert(self@ =~= swapped(d0, n as int, swap));
    }

    /// Makes a dictionary the history of the frame, before its first block. The frame
    /// starts behind it; content beyond the window is dropped. `rep` holds its repeated
    /// offsets, and `swap` what the level has in the place of its row for a payload
    /// that was declared and is small.
    pub fn load_dictionary(&mut self, content: &[u8], rep: [u32; 3], swap: Option<SmallDictRow>)
        requires
            old(self)@.wf(),
            !old(self)@.mode.direct,
            !old(self)@.mode.dict_row,
            old(self)@.win.len() == 0,
            old(self)@.place.pos == 0,
            Reps::of_seq(rep@).positive(),
            swap_fits(old(self)@, swap),
        ensures
            final(self)@ == with_dict(old(self)@, content@, Reps::of_seq(rep@), swap),
            final(self)@.ready(),
    {
        let ghost d0 = self@;
        let n: usize = content.len();
        let window: usize = self.mode.params.window;
        let keep: usize = if n < window {
            n
        } else {
            window
        };
        let mut win: Vec<u8> = Vec::new();
        crate::tables::append(&mut win, content, n - keep, n);
        let ghost w = dict_tail(content@, window);
        assert(win@ =~= w);
        self.win = win;
        let at: u64 = keep as u64;
        self.place = Place { base: 0, pos: at, block_start: at, block_end: at };
        self.carry.rep = Reps::from_array(rep);
        self.carry.pending = 0;
        self.mode = dict_mode_of(self.mode);
        let ghost d1 = self@;
        assert(d1 == (Drv {
            win: w,
            place: Place { base: 0, pos: w.len() as u64, block_start: w.len() as u64, block_end: w.len() as u64 },
            carry: Carry { rep: Reps::of_seq(rep@), pending: 0, ..d0.carry },
            mode: dict_mode(d0.mode),
            ..d0
        }));
        let tail: &[u8] = vstd::slice::slice_subrange(content, n - keep, n);
        assert(tail@ =~= w);
        assert(d1.wf());
        self.swap_row(n, swap);
        self.fill_window_grid(tail, 0, FillGrid::Dictionary, true);
    }
}

} // verus!
