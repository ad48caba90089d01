//! The matcher of a frame: its window, its search tables, and what it carries
//! from block to block.

use vstd::prelude::*;
use crate::gates::{CoveredFill, RampGate, ScanDensity, GATE_PROBE_LOG, SEED_MATCHES};
use crate::hash::{slots, ChainHashWidth};
use crate::level::{InputShape, Level};
use crate::opt_stats::{start_stats, OptState, Stats};
use crate::opt_tree::Tree;
use crate::params::{arming_bar, fast_row, ldm_min_window, params_for, shaped, BtStepPhase, HeadPhase, LdmArming, LevelParams, ReachChoice, Strategy, HASH_LOG, HEAD_MIN_TOTAL, KEEP_REACH, LDM_FULL_WINDOW, LDM_MIDSIZE_WINDOW, MAX_WINDOW, SHRINK_REACH};
use crate::parse_opt::OptScratch;
use crate::price::default_lit_lens;
use crate::probe::zeroed;
use crate::scan::{LdmSeq, MAX_BLOCK_SIZE};
use crate::sequence::{start_reps, Reps};
use crate::store::{retabled, sized, zeros, Keys, SearchTables, Store};
use crate::tables::WIN_MAX;

verus! {

/// Positions stay below this.
pub const POS_MAX: u64 = 0x4000_0000_0000_0000;

/// Largest coordinate origin of chain entries.
pub const HEAD_ORIGIN_CAP: u64 = 0x4000_0000;

/// No gap in the tables.
pub const NO_GAP: u64 = 0xffff_ffff_ffff_ffff;

/// Absolute positions of the window and of the current block.
#[derive(Clone, Copy, PartialEq, Eq, Structural, Debug)]
pub struct Place {
    /// The window's first byte.
    pub base: u64,
    /// End of what has been parsed.
    pub pos: u64,
    pub block_start: u64,
    pub block_end: u64,
}

/// What scans hand on from block to block.
#[derive(Clone, Copy, PartialEq, Eq, Structural, Debug)]
pub struct Carry {
    /// Repeated offsets, in agreement with the decoder's but for the `pending`
    /// oldest.
    pub rep: Reps,
    pub pending: u8,
    /// Length of the current run of misses.
    pub miss: u64,
    /// Offset probed directly at a job start, with its matches so far and the
    /// probes that are left to it.
    pub seed: u32,
    pub hits: u8,
    pub budget: u32,
}

/// Use of long-distance matching.
#[derive(Clone, Copy, PartialEq, Eq, Structural, Debug)]
pub struct LdmUse {
    pub on: bool,
    /// Generation has been shut off.
    pub dead: bool,
    /// The alphabet has been looked at.
    pub checked: bool,
    /// Blocks without a win.
    pub quiet: u8,
    /// Blocks since the last trial.
    pub canary: u8,
}

/// What is known of a frame's input.
#[derive(Clone, Copy, Debug)]
pub struct Input {
    pub shape: InputShape,
    /// The shape was declared for the frame to come.
    pub declared: bool,
}

/// How a frame is parsed.
#[derive(Clone, Copy, Debug)]
pub struct Mode {
    pub params: LevelParams,
    pub input: Input,
    pub reach_choice: ReachChoice,
    pub arming: LdmArming,
    pub ldm: LdmUse,
    /// The frame has a dictionary, whose row rules apply.
    pub dict_row: bool,
    /// History was prefilled.
    pub strip_parse: bool,
    pub ramp: RampGate,
    pub fill: CoveredFill,
    pub density: ScanDensity,
    pub head: HeadPhase,
    pub bt_step: BtStepPhase,
    /// The last gated block cleared the entropy bar.
    pub gate_hold: bool,
    /// First position that has not been indexed.
    pub gap_start: u64,
    pub head_origin: u64,
    /// Highest position written under the current origin.
    pub strip_mark: u64,
    pub opt_origin: u32,
    /// Largest block that is handed over; zero for borrowed windows.
    pub slice_size: usize,
    /// Bytes that the window may hold before it is compacted.
    pub win_cap: usize,
    /// The window was handed over as a whole.
    pub direct: bool,
}

/// A matcher as a value.
#[verifier::ext_equal]
pub struct Drv {
    pub win: Seq<u8>,
    pub place: Place,
    pub carry: Carry,
    pub mode: Mode,
    pub lit_lens: Seq<u8>,
    pub store: Store,
    pub st: Stats,
    /// Content tags of the incompressibility gate.
    pub probe: Seq<u32>,
    /// Long-distance candidates of the block.
    pub ldm: Seq<LdmSeq>,
}

/// Matcher of a frame.
pub struct MatchGeneratorDriver {
    pub win: Vec<u8>,
    pub place: Place,
    pub carry: Carry,
    pub mode: Mode,
    pub lit_lens: [u8; 256],
    pub tables: SearchTables,
    pub opt_state: OptState,
    pub scratch: OptScratch,
    pub probe: Vec<u32>,
    pub ldm_seqs: Vec<LdmSeq>,
}

impl View for MatchGeneratorDriver {
    type V = Drv;

    open spec fn view(&self) -> Drv {
        Drv {
            win: self.win@,
            place: self.place,
            carry: self.carry,
            mode: self.mode,
            lit_lens: self.lit_lens@,
            store: self.tables@,
            st: self.opt_state@,
            probe: self.probe@,
            ldm: self.ldm_seqs@,
        }
    }
}

impl Carry {
    /// Offsets are real, and a seed has probes and matches left.
    pub open spec fn wf(self) -> bool {
        &&& self.rep.positive()
        &&& self.pending <= 3
        &&& self.seed != 0 ==> self.hits < SEED_MATCHES && self.budget >= 1
    }
}

/// What a frame's first scan starts from.
pub open spec fn start_carry() -> Carry {
    Carry { rep: start_reps(), pending: 0, miss: 0, seed: 0, hits: 0, budget: 0 }
}

impl Mode {
    /// Sizes that fit each other.
    pub open spec fn wf(self) -> bool {
        &&& self.params.wf()
        &&& !self.dict_row ==> self.params.search_depth <= 0x1000
        &&& self.head_origin <= HEAD_ORIGIN_CAP
        &&& self.strip_mark <= POS_MAX
        &&& self.slice_size <= MAX_BLOCK_SIZE
        &&& self.win_cap <= WIN_MAX
        &&& self.slice_size > 0 ==> 2 * self.params.window + self.slice_size <= self.win_cap
    }

    /// Whether the row's frame has a cold-start head.
    pub open spec fn head_eligible(self) -> bool {
        &&& self.params.dubt_head
        &&& self.params.strategy is Chain
        &&& self.reach_choice != ReachChoice::Shrink
        &&& self.input.shape.len matches Some(n) ==> n >= HEAD_MIN_TOTAL
    }

    /// Input width of the short hash.
    pub open spec fn width(self) -> ChainHashWidth {
        if self.dict_row {
            ChainHashWidth::Four
        } else {
            ChainHashWidth::Five
        }
    }
}

impl Drv {
    /// The parts fit each other.
    pub open spec fn wf(self) -> bool {
        &&& self.mode.wf()
        &&& self.carry.wf()
        &&& sized(self.mode.params.strategy, self.mode.params.hash_log, self.store)
        &&& self.win.len() <= WIN_MAX
        &&& self.mode.slice_size > 0 && !self.mode.direct ==> self.win.len() <= self.mode.win_cap
        &&& self.place.base + self.win.len() <= POS_MAX
        &&& self.place.pos <= POS_MAX
        &&& self.st.wf()
        &&& self.probe.len() == 0 || self.probe.len() == slots(GATE_PROBE_LOG)
        &&& self.lit_lens.len() == 256
        &&& 0 <= self.store.tree.next <= u64::MAX
        &&& 0 <= self.store.tree.next3 <= u64::MAX
    }

    /// A block lies in the window.
    pub open spec fn has_block(self) -> bool {
        let p = self.place;
        &&& p.base <= p.block_start <= p.block_end <= p.base + self.win.len()
        &&& p.block_end - p.block_start <= MAX_BLOCK_SIZE
    }

    /// A block lies in the window and waits to be parsed.
    pub open spec fn ready(self) -> bool {
        &&& self.wf()
        &&& self.has_block()
        &&& self.place.pos == self.place.block_start
    }

    /// The window up to the end of the block.
    pub open spec fn cut(self) -> Seq<u8> {
        self.win.take(self.place.block_end - self.place.base)
    }

    /// Index of the block's first byte.
    pub open spec fn at(self) -> int {
        self.place.block_start - self.place.base
    }

    /// The block.
    pub open spec fn block(self) -> Seq<u8> {
        self.win.subrange(self.at(), self.place.block_end - self.place.base)
    }

    /// How positions are keyed into the tables.
    pub open spec fn keys(self) -> Keys {
        Keys {
            base: self.place.base,
            origin: self.mode.head_origin,
            hash_log: self.mode.params.hash_log,
            strategy: self.mode.params.strategy,
            width: self.mode.width(),
        }
    }
}

/// A new matcher, on the fastest row.
pub open spec fn fresh(slice_size: usize) -> Drv {
    Drv {
        win: Seq::empty(),
        place: Place { base: 0, pos: 0, block_start: 0, block_end: 0 },
        carry: start_carry(),
        mode: Mode {
            params: fast_row(15, 0xc0000),
            input: held(InputShape { len: None, window_log: None }),
            reach_choice: ReachChoice::Keep,
            arming: LdmArming::Frame,
            ldm: LdmUse { on: false, dead: false, checked: false, quiet: 0, canary: 0 },
            dict_row: false,
            strip_parse: false,
            ramp: RampGate::off_gate(),
            fill: CoveredFill::Dense,
            density: ScanDensity::Plain,
            head: HeadPhase::Off,
            bt_step: BtStepPhase::Off,
            gate_hold: false,
            gap_start: NO_GAP,
            head_origin: 0,
            strip_mark: 0,
            opt_origin: 0,
            slice_size,
            win_cap: (2 * MAX_WINDOW + slice_size) as usize,
            direct: false,
        },
        lit_lens: default_lit_lens(),
        store: Store {
            t: zeros(slots(15)),
            ch: Seq::empty(),
            hd: Seq::empty(),
            tree: Tree { t: Seq::empty(), bt: Seq::empty(), h3: Seq::empty(), next: 0, next3: 0 },
        },
        st: start_stats(),
        probe: Seq::empty(),
        ldm: Seq::empty(),
    }
}

/// Reach of a frame: the row's stock reach gives way to the near-local one, a
/// clamped reach stays.
pub open spec fn with_choice(p: LevelParams, choice: ReachChoice) -> LevelParams {
    if choice == ReachChoice::Shrink && p.chain_reach == Some(KEEP_REACH) {
        LevelParams { chain_reach: Some(SHRINK_REACH), ..p }
    } else {
        p
    }
}

/// Whether a row without a wide window of its own is widened for far repeats.
pub open spec fn widens(p: LevelParams, arming: LdmArming, shape: InputShape) -> bool {
    &&& p.ldm
    &&& p.strategy is Fast || p.strategy is Dfast
    &&& p.window < LDM_FULL_WINDOW
    &&& match arming {
        LdmArming::Frame => shape.len matches Some(n) && n >= LDM_FULL_WINDOW,
        LdmArming::FrameScreened => shape.len matches Some(n) && n >= LDM_MIDSIZE_WINDOW,
        _ => false,
    }
}

/// Parameters of a frame.
#[verifier::opaque]
pub open spec fn frame_params(level: Level, m: Mode) -> LevelParams {
    let p = with_choice(shaped(level, m.input.shape), m.reach_choice);
    if widens(p, m.arming, m.input.shape) {
        LevelParams { chain_reach: Some(p.window), window: LDM_FULL_WINDOW, ..p }
    } else {
        p
    }
}

/// Whether a frame has long-distance matching: its row does, its reach is not the
/// near-local one, and its window reaches the bar.
pub open spec fn ldm_wanted(p: LevelParams, arming: LdmArming) -> bool {
    &&& p.ldm
    &&& p.chain_reach != Some(SHRINK_REACH)
    &&& !(p.strategy is Row)
    &&& arming_bar(arming) matches Some(bar) && p.window >= bar
}

/// Whether new parameters call for other tables.
pub open spec fn tables_change(p: LevelParams, q: LevelParams) -> bool {
    p.strategy != q.strategy || p.hash_log != q.hash_log || p.window != q.window
}

/// The mode of a matcher on a row.
pub open spec fn leveled_mode(m: Mode, p: LevelParams) -> Mode {
    let need = 2 * p.window + m.slice_size;
    Mode {
        params: p,
        ldm: LdmUse { on: ldm_wanted(p, m.arming), ..m.ldm },
        win_cap: if tables_change(p, m.params) && m.slice_size > 0 && m.win_cap < need {
            need as usize
        } else {
            m.win_cap
        },
        ..m
    }
}

/// A matcher on the row of a level.
pub open spec fn leveled(d: Drv, level: Level) -> Drv {
    let p = frame_params(level, d.mode);
    Drv {
        store: if tables_change(p, d.mode.params) {
            retabled(d.store, d.mode.params.strategy is Row, p)
        } else {
            d.store
        },
        mode: leveled_mode(d.mode, p),
        ..d
    }
}

/// The larger of two positions.
pub open spec fn later(a: u64, b: u64) -> u64 {
    if a > b {
        a
    } else {
        b
    }
}

/// A shape that was declared for the frame to come.
pub open spec fn told(shape: InputShape) -> Input {
    Input { shape, declared: true }
}

/// The shape of the frame that is parsed.
pub open spec fn held(shape: InputShape) -> Input {
    Input { shape, declared: false }
}

/// A mode as its frame starts: a shape holds for the frame that it was declared for,
/// and for no later one.
pub open spec fn framed(m: Mode) -> Mode {
    Mode {
        input: held(
            if m.input.declared {
                m.input.shape
            } else {
                InputShape { len: None, window_log: None }
            },
        ),
        ..m
    }
}

/// A matcher at the start of a frame. Table entries stay; the tree's are retired
/// by moving their origin past everything that was written.
pub open spec fn reset_to(d0: Drv, level: Level) -> Drv {
    let d = leveled(Drv { mode: framed(d0.mode), ..d0 }, level);
    let tree_row = d.mode.params.strategy is BtLazy;
    Drv {
        win: Seq::empty(),
        place: Place { base: 0, pos: 0, block_start: 0, block_end: 0 },
        carry: start_carry(),
        mode: Mode {
            ldm: LdmUse { dead: false, checked: false, quiet: 0, canary: 0, ..d.mode.ldm },
            dict_row: false,
            strip_parse: false,
            ramp: RampGate::off_gate(),
            fill: CoveredFill::Dense,
            density: ScanDensity::Plain,
            head: if d.mode.head_eligible() {
                HeadPhase::Armed
            } else {
                HeadPhase::Off
            },
            bt_step: if tree_row {
                BtStepPhase::Armed
            } else {
                BtStepPhase::Off
            },
            gate_hold: false,
            gap_start: NO_GAP,
            strip_mark: later(d.mode.strip_mark, d.place.pos),
            opt_origin: ((d.mode.opt_origin + d.place.pos + 1) % 0x1_0000_0000) as u32,
            direct: false,
            ..d.mode
        },
        lit_lens: default_lit_lens(),
        store: Store { tree: Tree { next: 0, ..d.store.tree }, ..d.store },
        st: Stats { ll_sum: 0, ..d.st },
        probe: zeros(d.probe.len() as int),
        ldm: Seq::empty(),
    }
}

/// Parameters of a frame can be sized for.
pub proof fn lemma_frame_params(level: Level, m: Mode)
    ensures
        frame_params(level, m).wf(),
        frame_params(level, m).search_depth <= 0x1000,
{
    reveal(frame_params);
    crate::params::lemma_shaped(level, m.input.shape);
}

/// A reset matcher is fit for a frame.
pub proof fn lemma_reset(d: Drv, level: Level)
    requires
        d.wf(),
        ({
            let p = frame_params(level, framed(d.mode));
            sized(p.strategy, p.hash_log, leveled(Drv { mode: framed(d.mode), ..d }, level).store)
        }),
    ensures
        reset_to(d, level).wf(),
        reset_to(d, level).ready(),
{
    lemma_frame_params(level, framed(d.mode));
}

/// Parameters of a frame.
fn frame_params_for(level: Level, m: &Mode) -> (p: LevelParams)
    ensures
        p == frame_params(level, *m),
        p.wf(),
        p.search_depth <= 0x1000,
{
    proof {
        reveal(frame_params);
        lemma_frame_params(level, *m);
        crate::params::lemma_shaped(level, m.input.shape);
    }
    let mut p: LevelParams = params_for(level, m.input.shape);
    if let ReachChoice::Shrink = m.reach_choice {
        if let Some(r) = p.chain_reach {
            if r == KEEP_REACH {
                p.chain_reach = Some(SHRINK_REACH);
            }
        }
    }
    let narrow: bool = p.ldm && p.window < LDM_FULL_WINDOW && (match p.strategy {
        Strategy::Fast => true,
        Strategy::Dfast(_) => true,
        _ => false,
    });
    if narrow {
        let bar: Option<usize> = match m.arming {
            LdmArming::Frame => Some(LDM_FULL_WINDOW),
            LdmArming::FrameScreened => Some(LDM_MIDSIZE_WINDOW),
            _ => None,
        };
        if let Some(b) = bar {
            if let Some(n) = m.input.shape.len {
                if n >= b as u64 {
                    p.chain_reach = Some(p.window);
                    p.window = LDM_FULL_WINDOW;
                }
            }
        }
    }
    p
}

/// Whether new parameters call for other tables.
fn tables_differ(p: &LevelParams, q: &LevelParams) -> (r: bool)
    ensures
        r == tables_change(*p, *q),
{
    p.strategy != q.strategy || p.hash_log != q.hash_log || p.window != q.window
}

/// The mode of a matcher on a row.
fn mode_on(m: Mode, p: LevelParams) -> (r: Mode)
    requires
        m.wf(),
        p.wf(),
        p.search_depth <= 0x1000,
    ensures
        r == leveled_mode(m, p),
        r.wf(),
{
    let need: usize = 2 * p.window + m.slice_size;
    let win_cap: usize = if tables_differ(&p, &m.params) && m.slice_size > 0 && m.win_cap < need {
        need
    } else {
        m.win_cap
    };
    let on: bool = wants_ldm(&p, m.arming);
    Mode { params: p, ldm: LdmUse { on, ..m.ldm }, win_cap, ..m }
}

/// Whether a frame has long-distance matching.
fn wants_ldm(p: &LevelParams, arming: LdmArming) -> (r: bool)
    ensures
        r == ldm_wanted(*p, arming),
{
    let near: bool = match p.chain_reach {
        Some(r) => r == SHRINK_REACH,
        None => false,
    };
    let rows: bool = match p.strategy {
        Strategy::Row(_) => true,
        _ => false,
    };
    match ldm_min_window(arming) {
        Some(bar) => p.ldm && !near && !rows && p.window >= bar,
        None => false,
    }
}

impl MatchGeneratorDriver {
    /// Window that a frame declares.
    pub fn window_for_level(level: Level, shape: InputShape) -> (r: u64)
        ensures
            r == shaped(level, shape).window,
    {
        params_for(level, shape).window as u64
    }

    /// History that a job of a multithreaded frame starts with: the search
    /// domain.
    pub fn strip_for_level(level: Level, shape: InputShape) -> (r: u64)
        ensures
            r == shaped(level, shape).reach_of(),
    {
        params_for(level, shape).reach() as u64
    }

    /// History that a job of a streamed frame starts with: the window, or the
    /// search domain for the tree rows.
    pub fn stream_overlap_for(level: Level, shape: InputShape) -> (r: u64)
        ensures
            ({
                let p = shaped(level, shape);
                r == if p.strategy is Opt || p.strategy is BtLazy {
                    p.reach_of()
                } else {
                    p.window
                }
            }),
    {
        let p: LevelParams = params_for(level, shape);
        match p.strategy {
            Strategy::Opt(_) => p.reach() as u64,
            Strategy::BtLazy(_) => p.reach() as u64,
            _ => p.window as u64,
        }
    }

    /// Whether a probe may decide a frame's reach: on the chain row, while it has
    /// its stock reach.
    pub fn reach_probe_eligible(level: Level, shape: InputShape) -> (r: bool)
        ensures
            r == (shaped(level, shape).strategy is Chain && shaped(level, shape).chain_reach == Some(KEEP_REACH)),
    {
        let p: LevelParams = params_for(level, shape);
        match p.strategy {
            Strategy::Chain(_) => match p.chain_reach {
                Some(r) => r == KEEP_REACH,
                None => false,
            },
            _ => false,
        }
    }

    /// Largest block of the frame: no larger than its window.
    pub fn block_size(&self) -> (r: usize)
        ensures
            r == crate::params::least(MAX_BLOCK_SIZE as int, self@.mode.params.window as int),
    {
        if self.mode.params.window < MAX_BLOCK_SIZE {
            self.mode.params.window
        } else {
            MAX_BLOCK_SIZE
        }
    }

    /// A matcher that is handed blocks of up to `slice_size` bytes.
    pub fn new(slice_size: usize) -> (r: Self)
        requires
            slice_size <= MAX_BLOCK_SIZE,
        ensures
            r@ == fresh(slice_size),
            r@.ready(),
    {
        let r = MatchGeneratorDriver {
            win: Vec::new(),
            place: Place { base: 0, pos: 0, block_start: 0, block_end: 0 },
            carry: Carry { rep: Reps::start(), pending: 0, miss: 0, seed: 0, hits: 0, budget: 0 },
            mode: Mode {
                params: crate::params::params_for_level(Level::Fastest),
                input: Input { shape: InputShape::unknown(), declared: false },
                reach_choice: ReachChoice::Keep,
                arming: LdmArming::Frame,
                ldm: LdmUse { on: false, dead: false, checked: false, quiet: 0, canary: 0 },
                dict_row: false,
                strip_parse: false,
                ramp: RampGate::off(),
                fill: CoveredFill::Dense,
                density: ScanDensity::Plain,
                head: HeadPhase::Off,
                bt_step: BtStepPhase::Off,
                gate_hold: false,
                gap_start: NO_GAP,
                head_origin: 0,
                strip_mark: 0,
                opt_origin: 0,
                slice_size,
                win_cap: 2 * MAX_WINDOW + slice_size,
                direct: false,
            },
            lit_lens: [4;256],
            tables: SearchTables::new(HASH_LOG),
            opt_state: OptState::new(),
            scratch: OptScratch::new(),
            probe: Vec::new(),
            ldm_seqs: Vec::new(),
        };
        assert(r@.lit_lens =~= default_lit_lens());
        assert(r@.store.t =~= zeros(slots(15)));
        assert(r@.store =~= fresh(slice_size).store);
        assert(r@.mode == fresh(slice_size).mode);
        assert(r@ =~= fresh(slice_size));
        r
    }

    /// A matcher that is handed whole windows.
    pub fn new_direct() -> (r: Self)
        ensures
            r@ == fresh(0),
            r@.ready(),
    {
        MatchGeneratorDriver::new(0)
    }

    /// Moves to the row of a level, sizing the tables if they change.
    pub(crate) fn apply_level(&mut self, level: Level)
        requires
            old(self)@.wf(),
        ensures
            final(self)@ == leveled(old(self)@, level),
            sized(
                final(self)@.mode.params.strategy,
                final(self)@.mode.params.hash_log,
                final(self)@.store,
            ),
            final(self)@.mode.wf(),
    {
        let ghost d0 = self@;
        let p: LevelParams = frame_params_for(level, &self.mode);
        let q: LevelParams = self.mode.params;
        if tables_differ(&p, &q) {
            let from_rows: bool = match q.strategy {
                Strategy::Row(_) => true,
                _ => false,
            };
            self.tables.resize_tables(from_rows, &p);
        }
        self.mode = mode_on(self.mode, p);
        assert(self@ == leveled(d0, level));
    }

    /// Keeps a shape that was declared for this frame, and drops an older one.
    fn start_input(&mut self)
        ensures
            final(self)@ == (Drv { mode: framed(old(self)@.mode), ..old(self)@ }),
    {
        let ghost d0 = self@;
        let shape: InputShape = if self.mode.input.declared {
            self.mode.input.shape
        } else {
            InputShape::unknown()
        };
        self.mode.input = Input { shape, declared: false };
        assert(self@ =~= (Drv { mode: framed(d0.mode), ..d0 }));
    }

    /// Starts a frame.
    pub fn reset(&mut self, level: Level)
        requires
            old(self)@.wf(),
        ensures
            final(self)@ == reset_to(old(self)@, level),
            final(self)@.ready(),
    {
        let ghost d0 = self@;
        self.start_input();
        self.apply_level(level);
        proof {
            lemma_reset(d0, level);
        }
        let pos: u64 = self.place.pos;
        self.mode.opt_origin = ((self.mode.opt_origin as u64 + pos + 1) % 0x1_0000_0000) as u32;
        if pos > self.mode.strip_mark {
            self.mode.strip_mark = pos;
        }
        self.win.clear();
        self.place = Place { base: 0, pos: 0, block_start: 0, block_end: 0 };
        self.carry = Carry { rep: Reps::start(), pending: 0, miss: 0, seed: 0, hits: 0, budget: 0 };
        self.mode.ldm.dead = false;
        self.mode.ldm.checked = false;
        self.mode.ldm.quiet = 0;
        self.mode.ldm.canary = 0;
        self.mode.dict_row = false;
        self.mode.strip_parse = false;
        self.mode.ramp = RampGate::off();
        self.mode.fill = CoveredFill::Dense;
        self.mode.density = ScanDensity::Plain;
        self.mode.head = if self.mode.has_head() {
            HeadPhase::Armed
        } else {
            HeadPhase::Off
        };
        self.mode.bt_step = match self.mode.params.strategy {
            Strategy::BtLazy(_) => BtStepPhase::Armed,
            _ => BtStepPhase::Off,
        };
        self.mode.gate_hold = false;
        self.mode.gap_start = NO_GAP;
        self.mode.direct = false;
        self.lit_lens = [4;256];
        self.tables.tree.next_update = 0;
        self.opt_state.reset();
        let n: usize = self.probe.len();
        self.probe = zeroed(n);
        self.ldm_seqs.clear();
        assert(self@ =~= reset_to(d0, level));
    }

    /// Declares what is known of the input; the next frame follows it, and only that
    /// one.
    pub fn set_input_shape(&mut self, shape: InputShape)
        ensures
            final(self)@ == (Drv { mode: Mode { input: told(shape), ..old(self)@.mode }, ..old(self)@ }),
    {
        self.mode.input = Input { shape, declared: true };
        assert(self@ =~= (Drv { mode: Mode { input: told(shape), ..old(self)@.mode }, ..old(self)@ }));
    }

    /// Declares the frame's reach; the next frame follows it.
    pub fn set_reach_choice(&mut self, choice: ReachChoice)
        ensures
            final(self)@ == (Drv { mode: Mode { reach_choice: choice, ..old(self)@.mode }, ..old(self)@ }),
    {
        self.mode.reach_choice = choice;
        assert(self@ =~= (Drv { mode: Mode { reach_choice: choice, ..old(self)@.mode }, ..old(self)@ }));
    }

    /// Declares where long-distance history ends; the next frame follows it.
    pub fn set_ldm_arming(&mut self, arming: LdmArming)
        ensures
            final(self)@ == (Drv { mode: Mode { arming, ..old(self)@.mode }, ..old(self)@ }),
    {
        self.mode.arming = arming;
        assert(self@ =~= (Drv { mode: Mode { arming, ..old(self)@.mode }, ..old(self)@ }));
    }

    /// Forbids repeated offsets until three literal ones have rewritten the
    /// history, for a job that starts inside a frame.
    pub fn gate_repcodes(&mut self)
        ensures
            final(self)@ == (Drv { carry: Carry { pending: 3, ..old(self)@.carry }, ..old(self)@ }),
    {
        self.carry.pending = 3;
        assert(self@ =~= (Drv { carry: Carry { pending: 3, ..old(self)@.carry }, ..old(self)@ }));
    }

    /// Arms the deep-offset ramp of a job that starts at `job_start`; a depth of
    /// zero disarms it. The tree rows do not follow it.
    pub fn arm_ramp(&mut self, job_start: u64, depth: u64)
        requires
            !(old(self)@.mode.params.strategy is BtLazy),
            !(old(self)@.mode.params.strategy is Opt),
        ensures
            final(self)@ == (Drv {
                mode: Mode { ramp: armed_ramp(job_start, depth), ..old(self)@.mode },
                ..old(self)@
            }),
    {
        self.mode.ramp = if depth == 0 {
            RampGate::off()
        } else {
            RampGate { start: job_start, end: job_start.saturating_add(depth), depth }
        };
        assert(self@ =~= (Drv {
            mode: Mode { ramp: armed_ramp(job_start, depth), ..old(self)@.mode },
            ..old(self)@
        }));
    }

    /// Window that the frame declares.
    pub fn window_size(&self) -> (r: u64)
        ensures
            r == self@.mode.params.window,
    {
        self.mode.params.window as u64
    }

    /// The repeated offsets.
    pub fn repcode_snapshot(&self) -> (r: [u32; 3])
        ensures
            Reps::of_seq(r@) == self@.carry.rep,
    {
        self.carry.rep.to_array()
    }

    /// Puts back repeated offsets.
    pub fn restore_repcode(&mut self, rep: [u32; 3])
        requires
            Reps::of_seq(rep@).positive(),
        ensures
            final(self)@ == (Drv {
                carry: Carry { rep: Reps::of_seq(rep@), ..old(self)@.carry },
                ..old(self)@
            }),
    {
        self.carry.rep = Reps::from_array(rep);
        assert(self@ =~= (Drv {
            carry: Carry { rep: Reps::of_seq(rep@), ..old(self)@.carry },
            ..old(self)@
        }));
    }

    /// Takes over the code lengths of the last block's literals. A symbol without
    /// a code costs the longest.
    pub fn note_literal_costs(&mut self, lengths: &[u8; 256])
        ensures
            final(self)@ == (Drv { lit_lens: noted(lengths@), ..old(self)@ }),
    {
        let ghost d0 = self@;
        let mut i: usize = 0;
        while i < 256
            invariant
                i <= 256,
                self@ == (Drv { lit_lens: self.lit_lens@, ..d0 }),
                forall|k: int| 0 <= k < i ==> #[trigger] self.lit_lens@[k] == noted(lengths@)[k],
            decreases 256 - i,
        {
            self.lit_lens[i] = if lengths[i] == 0 {
                11
            } else {
                lengths[i]
            };
            i = i + 1;
        }
        assert(self@ =~= (Drv { lit_lens: noted(lengths@), ..d0 }));
    }

    /// Whether parsed blocks may be split: on the optimal rows, with a window of
    /// at least one full block.
    pub fn block_splitting_enabled(&self) -> (r: bool)
        ensures
            r == (self@.mode.params.strategy is Opt && self@.mode.params.window >= 131072),
    {
        match self.mode.params.strategy {
            Strategy::Opt(_) => self.mode.params.window >= 131072,
            _ => false,
        }
    }
}

impl Mode {
    /// Whether the row's frame has a cold-start head.
    pub fn has_head(&self) -> (r: bool)
        ensures
            r == self.head_eligible(),
    {
        let chain: bool = match self.params.strategy {
            Strategy::Chain(_) => true,
            _ => false,
        };
        let shrunk: bool = match self.reach_choice {
            ReachChoice::Shrink => true,
            ReachChoice::Keep => false,
        };
        let long: bool = match self.input.shape.len {
            Some(n) => n >= HEAD_MIN_TOTAL,
            None => true,
        };
        self.params.dubt_head && chain && !shrunk && long
    }

    /// Input width of the short hash.
    pub fn hash_width(&self) -> (r: ChainHashWidth)
        ensures
            r == self.width(),
    {
        ChainHashWidth::of(self.dict_row)
    }
}

/// Literal costs: a symbol without a code costs the longest.
pub open spec fn noted(lengths: Seq<u8>) -> Seq<u8> {
    Seq::new(256, |k: int| if lengths[k] == 0 {
        11u8
    } else {
        lengths[k]
    })
}

/// The ramp of a job.
pub open spec fn armed_ramp(job_start: u64, depth: u64) -> RampGate {
    if depth == 0 {
        RampGate::off_gate()
    } else {
        RampGate {
            start: job_start,
            end: if job_start + depth <= u64::MAX {
                (job_start + depth) as u64
            } else {
                u64::MAX
            },
            depth,
        }
    }
}

/// The strip of a job lies within the window of its frame, unless a window is
/// forced on an input of unknown length.
pub proof fn lemma_strip_within_window(level: Level, shape: InputShape)
    requires
        shape.window_log is None || ((shape.len matches Some(n) && n > 0) && level != Level::Uncompressed),
    ensures
        shaped(level, shape).reach_of() <= shaped(level, shape).window,
{
    crate::params::lemma_shaped(level, shape);
}

} // verus!
