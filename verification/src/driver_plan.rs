//! Decisions about a frame: how far jobs look back, which blocks belong to a tree
//! parse, and how the frame changes course.

use vstd::prelude::*;
use crate::driver::{leveled, reset_to, told, Carry, Drv, LdmUse, MatchGeneratorDriver, Mode, Place};
use crate::driver_fill::seeded;
use crate::gates::{count_distinct, distinct_count, is_small_dense_wide, small_dense_wide};
use crate::hash::HASH_READ;
use crate::level::{InputShape, Level};
use crate::params::{least, params_for, shaped, BtStepPhase, HeadPhase, LazyStep, LevelParams, ReachChoice, Strategy, BT_DENSE_LIMIT, HEAD_LIMIT, HEAD_SYMS_MIN, KEEP_REACH, LDM_FULL_WINDOW, LDM_MIDSIZE_WINDOW, SHRINK_REACH};
use crate::probe::{seed_gate_probe, seeded_probe};
use crate::scan::MAX_BLOCK_SIZE;
use crate::sequence::Reps;
use crate::store::{zero_heads, zeros, Store};
use crate::tables::WIN_MAX;

verus! {

/// History that a job starts with, given the reach that was chosen.
pub open spec fn chosen_strip(p: LevelParams, choice: ReachChoice) -> usize {
    if choice == ReachChoice::Shrink && p.chain_reach == Some(KEEP_REACH) {
        SHRINK_REACH
    } else {
        p.reach_of()
    }
}

/// Bytes by which a block's alphabet is judged.
pub const HEAD_SAMPLE: usize = 8192;

/// Distinct bytes at the start of the block.
pub open spec fn head_symbols(d: Drv) -> int {
    distinct_count(d.win, d.at(), least(d.at() + HEAD_SAMPLE, d.win.len() as int), 1)
}

/// A matcher after a head block: once the head's span is covered, the chain takes
/// over with all of it to index.
pub open spec fn head_finished(d: Drv) -> Drv {
    if d.place.block_end >= HEAD_LIMIT {
        Drv {
            mode: Mode { head: HeadPhase::Done, gap_start: 0, ..d.mode },
            carry: Carry { miss: 0, pending: 0, ..d.carry },
            ..d
        }
    } else {
        d
    }
}

/// Whether a block belongs to the head: the first one decides by its alphabet, and
/// the head ends with its span.
#[verifier::opaque]
pub open spec fn head_decided(d: Drv) -> (Drv, bool) {
    if d.mode.head != HeadPhase::Armed || d.place.block_start >= HEAD_LIMIT {
        let e = if d.mode.head == HeadPhase::Running && d.place.block_start >= HEAD_LIMIT {
            head_finished(d)
        } else {
            d
        };
        (e, e.mode.head == HeadPhase::Running)
    } else if head_symbols(d) < HEAD_SYMS_MIN {
        (Drv { mode: Mode { head: HeadPhase::Off, ..d.mode }, ..d }, false)
    } else {
        (Drv { mode: Mode { head: HeadPhase::Running, ..d.mode }, ..d }, true)
    }
}

/// Whether a block belongs to the head shows in the window and the frame's phase alone.
pub proof fn lemma_same_head(d: Drv, e: Drv)
    requires
        e.win == d.win,
        e.place == d.place,
        e.mode.head == d.mode.head,
    ensures
        head_decided(e).1 == head_decided(d).1,
{
    reveal(head_decided);
}

/// Probe step of a block of the deferred tree parse: dense at the start of a frame
/// with a wide alphabet, which its first block shows.
pub open spec fn step_decided(d: Drv) -> (Drv, LazyStep) {
    if d.place.block_start >= BT_DENSE_LIMIT {
        (Drv { mode: Mode { bt_step: BtStepPhase::Off, ..d.mode }, ..d }, LazyStep::Ramp)
    } else {
        let phase = if d.mode.bt_step != BtStepPhase::Armed {
            d.mode.bt_step
        } else if head_symbols(d) >= HEAD_SYMS_MIN {
            BtStepPhase::Dense
        } else {
            BtStepPhase::Off
        };
        (
            Drv { mode: Mode { bt_step: phase, ..d.mode }, ..d },
            if phase == BtStepPhase::Dense {
                LazyStep::Dense
            } else {
                LazyStep::Ramp
            },
        )
    }
}

/// A matcher whose tables hold nothing.
pub open spec fn table_cleared(d: Drv) -> Drv {
    Drv {
        store: Store {
            t: zeros(d.store.t.len() as int),
            ch: zeros(d.store.ch.len() as int),
            ..d.store
        },
        ..d
    }
}

/// A matcher that starts the frame over with the near-local reach, as if fresh.
pub open spec fn shrunk(d: Drv, level: Level) -> Drv {
    let e = reset_to(
        Drv {
            mode: Mode { input: told(d.mode.input.shape), reach_choice: ReachChoice::Shrink, ..d.mode },
            ..d
        },
        level,
    );
    Drv {
        store: Store {
            t: zeros(e.store.t.len() as int),
            hd: if e.store.t.len() > 0 {
                zero_heads(e.store.hd.len() as int)
            } else {
                e.store.hd
            },
            ch: if e.mode.params.strategy is Chain {
                zeros(e.store.ch.len() as int)
            } else {
                e.store.ch
            },
            ..e.store
        },
        probe: Seq::empty(),
        ..e
    }
}

/// A matcher whose frame has been given a reach before its first block.
pub open spec fn reach_decided(d: Drv, choice: ReachChoice, level: Level) -> Drv {
    if choice == d.mode.reach_choice {
        d
    } else {
        let e = leveled(Drv { mode: Mode { reach_choice: choice, ..d.mode }, ..d }, level);
        if choice == ReachChoice::Shrink && e.mode.head == HeadPhase::Armed {
            Drv { mode: Mode { head: HeadPhase::Off, ..e.mode }, ..e }
        } else {
            e
        }
    }
}

/// A matcher whose gate and seed have seen the whole window of a job whose chain
/// covers only its end.
pub open spec fn window_seen(d: Drv, w: Seq<u8>) -> Drv {
    if !d.mode.ldm.on {
        d
    } else {
        Drv {
            mode: Mode { ldm: LdmUse { dead: false, quiet: 0, canary: 0, ..d.mode.ldm }, ..d.mode },
            probe: seeded_probe(d.probe, w, least(MAX_BLOCK_SIZE as int, d.mode.params.window as int)),
            carry: if w.len() >= HASH_READ {
                seeded(d.carry, w, w.len() - HASH_READ)
            } else {
                d.carry
            },
            ..d
        }
    }
}

/// Whether a frame of a one-table or two-table row is worth a look for far repeats
/// before its header is written: its length lies between the two window sizes of
/// long-distance matching.
pub fn fast_row_screen_pending(level: Level, shape: InputShape) -> (r: bool)
    ensures
        ({
            let p = shaped(level, shape);
            r == (p.ldm && (p.strategy is Fast || p.strategy is Dfast) && p.window < LDM_FULL_WINDOW && (shape.len matches Some(
                n,
            ) && LDM_MIDSIZE_WINDOW <= n < LDM_FULL_WINDOW))
        }),
{
    let p: LevelParams = params_for(level, shape);
    let narrow: bool = match p.strategy {
        Strategy::Fast => true,
        Strategy::Dfast(_) => true,
        _ => false,
    };
    let between: bool = match shape.len {
        Some(n) => n >= LDM_MIDSIZE_WINDOW as u64 && n < LDM_FULL_WINDOW as u64,
        None => false,
    };
    p.ldm && narrow && p.window < LDM_FULL_WINDOW && between
}

impl MatchGeneratorDriver {
    /// History that a job starts with, given the reach that was chosen.
    pub fn strip_for_choice(level: Level, shape: InputShape, choice: ReachChoice) -> (r: u64)
        ensures
            r == chosen_strip(shaped(level, shape), choice),
    {
        let p: LevelParams = params_for(level, shape);
        let stock: bool = match p.chain_reach {
            Some(r) => r == KEEP_REACH,
            None => false,
        };
        match choice {
            ReachChoice::Shrink => if stock {
                SHRINK_REACH as u64
            } else {
                p.reach() as u64
            },
            ReachChoice::Keep => p.reach() as u64,
        }
    }

    /// Whether strips of the row can be captured and shared: on the chain row.
    pub fn spf_strip_fill(level: Level, shape: InputShape) -> (r: bool)
        ensures
            r == (shaped(level, shape).strategy is Chain),
    {
        match params_for(level, shape).strategy {
            Strategy::Chain(_) => true,
            _ => false,
        }
    }

    /// Window whose jobs keep long-distance history across jobs, if they do: on the
    /// chain row with its stock reach and a large window.
    pub fn prefix_ldm_window(level: Level, shape: InputShape, choice: ReachChoice) -> (r: Option<u64>)
        ensures
            ({
                let p = shaped(level, shape);
                let on = p.strategy is Chain && p.ldm && choice == ReachChoice::Keep && p.window
                    >= LDM_MIDSIZE_WINDOW;
                r == if on {
                    Some(p.window as u64)
                } else {
                    None
                }
            }),
    {
        let p: LevelParams = params_for(level, shape);
        let chain: bool = match p.strategy {
            Strategy::Chain(_) => true,
            _ => false,
        };
        let keep: bool = match choice {
            ReachChoice::Keep => true,
            ReachChoice::Shrink => false,
        };
        if chain && p.ldm && keep && p.window >= LDM_MIDSIZE_WINDOW {
            Some(p.window as u64)
        } else {
            None
        }
    }

    /// Whether jobs with such a window take their long-distance history from shared
    /// captures.
    pub fn windowed_ldm_capture(window: u64) -> (r: bool)
        ensures
            r == (window >= LDM_FULL_WINDOW),
            r <==> window >= 67108864,
    {
        window >= LDM_FULL_WINDOW as u64
    }

    /// Distinct bytes at the start of the block.
    fn block_symbols(&self) -> (r: u32)
        requires
            self@.wf(),
            self@.has_block(),
        ensures
            r == head_symbols(self@),
    {
        assert(self.win@.len() == self.win.len());
        let from: usize = (self.place.block_start - self.place.base) as usize;
        let to: usize = if self.win.len() - from > HEAD_SAMPLE {
            from + HEAD_SAMPLE
        } else {
            self.win.len()
        };
        count_distinct(&self.win, from, to, 1)
    }

    /// Whether the block belongs to the head of the frame, which a tree parse
    /// takes. Asked again, the answer is the same.
    pub fn head_block(&mut self) -> (r: bool)
        requires
            old(self)@.ready(),
        ensures
            final(self)@ == head_decided(old(self)@).0,
            r == head_decided(old(self)@).1,
            final(self)@.ready(),
            head_decided(final(self)@) == (final(self)@, r),
    {
        proof {
            reveal(head_decided);
        }
        let m: Mode = self.mode;
        let late: bool = self.place.block_start >= HEAD_LIMIT;
        match m.head {
            HeadPhase::Armed => {
                if late {
                    false
                } else if self.block_symbols() < HEAD_SYMS_MIN {
                    self.mode = Mode { head: HeadPhase::Off, ..m };
                    false
                } else {
                    self.mode = Mode { head: HeadPhase::Running, ..m };
                    true
                }
            },
            HeadPhase::Running => {
                if late {
                    self.finish_head();
                }
                match self.mode.head {
                    HeadPhase::Running => true,
                    _ => false,
                }
            },
            _ => false,
        }
    }

    /// Ends the head once its span is covered: the chain takes over from the next
    /// block with all of it to index.
    pub fn finish_head(&mut self)
        requires
            old(self)@.wf(),
        ensures
            final(self)@ == head_finished(old(self)@),
            final(self)@.wf(),
    {
        let ghost d0 = self@;
        if self.place.block_end >= HEAD_LIMIT {
            let m: Mode = self.mode;
            self.mode = Mode { head: HeadPhase::Done, gap_start: 0, ..m };
            self.carry.miss = 0;
            self.carry.pending = 0;
        }
        assert(self@ == head_finished(d0));
    }

    /// Probe step of the block for the deferred tree parse.
    pub fn bt_lazy_step(&mut self) -> (r: LazyStep)
        requires
            old(self)@.ready(),
        ensures
            final(self)@ == step_decided(old(self)@).0,
            r == step_decided(old(self)@).1,
            final(self)@.ready(),
    {
        let m: Mode = self.mode;
        if self.place.block_start >= BT_DENSE_LIMIT {
            self.mode = Mode { bt_step: BtStepPhase::Off, ..m };
            return LazyStep::Ramp;
        }
        let phase: BtStepPhase = match m.bt_step {
            BtStepPhase::Armed => if self.block_symbols() >= HEAD_SYMS_MIN {
                BtStepPhase::Dense
            } else {
                BtStepPhase::Off
            },
            p => p,
        };
        self.mode = Mode { bt_step: phase, ..m };
        match phase {
            BtStepPhase::Dense => LazyStep::Dense,
            _ => LazyStep::Ramp,
        }
    }

    /// Hash width of the tree parse: four bytes on a small input with a wide
    /// alphabet, else the row's.
    pub fn tree_width(&self, mls: u32) -> (r: u32)
        requires
            self@.wf(),
        ensures
            r == if self@.mode.params.small_src && is_small_dense_wide(self@.win) {
                4
            } else {
                mls
            },
    {
        if self.mode.params.small_src && small_dense_wide(&self.win) {
            4
        } else {
            mls
        }
    }

    /// Takes over what a tree parse of the block leaves.
    pub fn end_tree_block(&mut self, rep: [u32; 3], pending: u8)
        requires
            old(self)@.wf(),
            old(self)@.has_block(),
            Reps::of_seq(rep@).positive(),
            pending <= 3,
        ensures
            final(self)@ == (Drv {
                place: Place { pos: old(self)@.place.block_end, ..old(self)@.place },
                carry: Carry { rep: Reps::of_seq(rep@), pending, ..old(self)@.carry },
                ..old(self)@
            }),
            final(self)@.wf(),
            final(self)@.has_block(),
    {
        let ghost d0 = self@;
        self.place.pos = self.place.block_end;
        self.carry.rep = Reps::from_array(rep);
        self.carry.pending = pending;
        assert(self@ == (Drv {
            place: Place { pos: d0.place.block_end, ..d0.place },
            carry: Carry { rep: Reps::of_seq(rep@), pending, ..d0.carry },
            ..d0
        }));
    }

    /// Empties the tables, for a parse of bytes that they may already hold.
    pub fn clear_parse_tables(&mut self)
        requires
            old(self)@.wf(),
        ensures
            final(self)@ == table_cleared(old(self)@),
            final(self)@.wf(),
    {
        let ghost d0 = self@;
        self.tables.clear_heads();
        self.tables.clear_second();
        assert(self@ == table_cleared(d0));
    }

    /// Starts the frame over with the near-local reach, after a parse of the same
    /// bytes with the stock one.
    pub fn restart_shrunk(&mut self, level: Level)
        requires
            old(self)@.wf(),
        ensures
            final(self)@ == shrunk(old(self)@, level),
            final(self)@.ready(),
    {
        let ghost d0 = self@;
        let shape: InputShape = self.mode.input.shape;
        self.set_input_shape(shape);
        self.set_reach_choice(ReachChoice::Shrink);
        assert(self@.wf());
        self.reset(level);
        let ghost e = self@;
        if self.tables.table.len() > 0 {
            self.tables.clear_row_heads();
        }
        self.tables.clear_heads();
        if let Strategy::Chain(_) = self.mode.params.strategy {
            self.tables.clear_second();
        }
        self.probe = Vec::new();
        assert(self@.store =~= shrunk(d0, level).store);
        assert(self@ =~= shrunk(d0, level));
    }

    /// Gives the frame a reach before its first block.
    pub fn choose_reach(&mut self, choice: ReachChoice, level: Level)
        requires
            old(self)@.wf(),
            !old(self)@.mode.dict_row,
        ensures
            final(self)@ == reach_decided(old(self)@, choice, level),
            old(self)@.win.len() == 0 ==> final(self)@.wf(),
    {
        let ghost d0 = self@;
        let same: bool = match (choice, self.mode.reach_choice) {
            (ReachChoice::Keep, ReachChoice::Keep) => true,
            (ReachChoice::Shrink, ReachChoice::Shrink) => true,
            _ => false,
        };
        if same {
            return;
        }
        self.set_reach_choice(choice);
        self.apply_level(level);
        let shrink: bool = match choice {
            ReachChoice::Shrink => true,
            ReachChoice::Keep => false,
        };
        let armed: bool = match self.mode.head {
            HeadPhase::Armed => true,
            _ => false,
        };
        if shrink && armed {
            let m: Mode = self.mode;
            self.mode = Mode { head: HeadPhase::Off, ..m };
        }
        assert(self@ == reach_decided(d0, choice, level));
    }

    /// Shows the sampler and the seed the whole window of a job whose chain covers
    /// only its end, if the job has long-distance matching.
    pub fn windowed_ldm_prefill(&mut self, win: &[u8])
        requires
            old(self)@.wf(),
            win@.len() <= WIN_MAX,
        ensures
            final(self)@ == window_seen(old(self)@, win@),
            final(self)@.wf(),
    {
        let ghost d0 = self@;
        let m: Mode = self.mode;
        if !m.ldm.on {
            return;
        }
        self.mode = Mode { ldm: LdmUse { dead: false, quiet: 0, canary: 0, ..m.ldm }, ..m };
        let block: usize = self.block_size();
        seed_gate_probe(&mut self.probe, win, block);
        if win.len() >= HASH_READ {
            self.acquire_seed(win, win.len() - HASH_READ);
        }
        assert(self@ == window_seen(d0, win@));
    }
}

} // verus!
