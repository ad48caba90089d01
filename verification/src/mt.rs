//! Frames that several workers compress: how the input is cut into jobs, what
//! history a job starts with, and how its matcher is prepared.

use vstd::prelude::*;
use crate::driver::{armed_ramp, frame_params, framed, held, reset_to, told, Carry, Drv, MatchGeneratorDriver, Mode, Place};
use crate::driver_fill::adopted;
use crate::driver_plan::chosen_strip;
use crate::level::{InputShape, Level};
use crate::params::{least, params_for, shaped, LdmArming, LevelParams, ReachChoice, Strategy, LDM_FULL_WINDOW, LDM_MIDSIZE_WINDOW};
use crate::pre_split::{FrameSavings, SplitLevel};
use crate::probe::{head_parses, ldm_head_parses};
use crate::reach_probe::{eligible, probed, PROBE_SPAN};
use crate::scan::MAX_BLOCK_SIZE;
use crate::tables::WIN_MAX;

verus! {

/// Shorter inputs are not cut into jobs.
pub const MIN_MT_INPUT: u64 = 0x20_0000;

/// Smallest job.
pub const MIN_JOB_SIZE: u64 = 0x10_0000;

/// Largest job.
pub const MAX_JOB_SIZE: u64 = 0x4000_0000;

/// Largest job of a frame whose strips are captured.
pub const CAPTURE_JOB_CAP: u64 = 0x100_0000;

/// Shortest prefix for which capturing strips pays.
pub const SPF_MIN_PREFIX: u64 = 0x80_0000;

/// Step of a capture.
pub const SPF_SEG: u64 = 0x10_0000;

/// Quotient, rounded up.
pub open spec fn ceil_div(a: int, b: int) -> int {
    (a + b - 1) / b
}

/// The larger of two numbers.
pub open spec fn most(a: int, b: int) -> int {
    if a > b {
        a
    } else {
        b
    }
}

/// Size of a job: two per worker, within limits, and no smaller than its strip.
pub open spec fn job_size(len: u64, workers: u32, overlap: u64) -> int {
    least(
        most(ceil_div(len as int, workers * 2), most(MIN_JOB_SIZE as int, overlap as int)),
        MAX_JOB_SIZE as int,
    )
}

/// Size of a job of a frame whose strips are captured: an eighth of the input,
/// within limits.
pub open spec fn captured_size(len: u64, reach: u64) -> int {
    least(
        most(ceil_div(len as int, 8), most(MIN_JOB_SIZE as int, reach as int)),
        CAPTURE_JOB_CAP as int,
    )
}

/// Quotient, rounded up.
fn div_up(a: u64, b: u64) -> (r: u64)
    requires
        b >= 1,
    ensures
        r == ceil_div(a as int, b as int),
        b >= 1 ==> r <= a,
{
    let q: u64 = a / b;
    let m: u64 = a % b;
    proof {
        assert(a == b * q + m) by (nonlinear_arith)
            requires
                q == a / b,
                m == a % b,
                b >= 1,
        ;
        assert(q <= a && (m > 0 ==> q + 1 <= a)) by (nonlinear_arith)
            requires
                a == b * q + m,
                b >= 1,
                q >= 0,
                m >= 0,
        ;
        if m > 0 {
            assert((a + b - 1) / (b as int) == q + 1) by (nonlinear_arith)
                requires
                    a == b * q + m,
                    1 <= m < b,
            ;
        } else {
            assert((a + b - 1) / (b as int) == q) by (nonlinear_arith)
                requires
                    a == b * q,
                    b >= 1,
            ;
        }
        assert(m < b);
    }
    if m > 0 {
        q + 1
    } else {
        q
    }
}

/// Size of a job for an input of `len` bytes.
pub fn job_size_for(len: u64, workers: u32, overlap: u64) -> (r: u64)
    requires
        workers >= 2,
    ensures
        r == job_size(len, workers, overlap),
        MIN_JOB_SIZE <= r <= MAX_JOB_SIZE,
{
    let part: u64 = div_up(len, workers as u64 * 2);
    let floor: u64 = if overlap > MIN_JOB_SIZE {
        overlap
    } else {
        MIN_JOB_SIZE
    };
    let size: u64 = if part > floor {
        part
    } else {
        floor
    };
    if size < MAX_JOB_SIZE {
        size
    } else {
        MAX_JOB_SIZE
    }
}

/// Size of a job of a frame whose strips are captured.
pub fn capture_job_size(len: u64, reach: u64) -> (r: u64)
    requires
        reach <= CAPTURE_JOB_CAP,
    ensures
        r == captured_size(len, reach),
        MIN_JOB_SIZE <= r <= CAPTURE_JOB_CAP,
        r >= reach,
{
    let part: u64 = div_up(len, 8);
    let floor: u64 = if reach > MIN_JOB_SIZE {
        reach
    } else {
        MIN_JOB_SIZE
    };
    let size: u64 = if part > floor {
        part
    } else {
        floor
    };
    if size < CAPTURE_JOB_CAP {
        size
    } else {
        CAPTURE_JOB_CAP
    }
}

/// Window that a frame of a one-table or two-table row is captured with, if it is:
/// from a length on by that alone, below it if a look at its start found far
/// repeats.
pub open spec fn fast_capture(level: Level, shape: InputShape, screened: bool) -> Option<u64> {
    let p = shaped(level, shape);
    let row = p.ldm && (p.strategy is Fast || p.strategy is Dfast) && p.window < LDM_FULL_WINDOW;
    match shape.len {
        Some(n) => if row && (n >= LDM_FULL_WINDOW || (screened && n >= LDM_MIDSIZE_WINDOW)) {
            Some(LDM_FULL_WINDOW as u64)
        } else {
            None
        },
        None => None,
    }
}

/// Window that a frame of a one-table or two-table row is captured with.
pub fn mt_capture_window(level: Level, shape: InputShape, screened: bool) -> (r: Option<u64>)
    ensures
        r == fast_capture(level, shape, screened),
{
    let p: LevelParams = params_for(level, shape);
    let narrow: bool = match p.strategy {
        Strategy::Fast => true,
        Strategy::Dfast(_) => true,
        _ => false,
    };
    let row: bool = p.ldm && narrow && p.window < LDM_FULL_WINDOW;
    match shape.len {
        Some(n) => if row && (n >= LDM_FULL_WINDOW as u64 || (screened && n >= LDM_MIDSIZE_WINDOW as u64)) {
            Some(LDM_FULL_WINDOW as u64)
        } else {
            None
        },
        None => None,
    }
}

/// Window of a frame whose strips may be captured.
pub open spec fn capture_window(level: Level, shape: InputShape, choice: ReachChoice, fast: Option<u64>) -> Option<
    u64,
> {
    let p = shaped(level, shape);
    if p.strategy is Chain && p.ldm && choice == ReachChoice::Keep && p.window >= LDM_MIDSIZE_WINDOW {
        Some(p.window as u64)
    } else {
        fast
    }
}

/// Whether the start of a frame is worth capturing strips for. Where a look for
/// far repeats armed the window, nothing more is asked.
pub open spec fn capture_head(shape: InputShape, fast: Option<u64>, head: Seq<u8>) -> bool {
    ||| fast is Some && (shape.len matches Some(n) && n < LDM_FULL_WINDOW)
    ||| head_parses(head.take(least(head.len() as int, MAX_BLOCK_SIZE as int)))
}

/// Last of the jobs that start inside a window, counting from zero; the first job
/// has no history and does not count.
pub open spec fn last_prefix(len: u64, window: u64, size: int) -> int {
    least(ceil_div(len as int, size) - 1, window as int / size)
}

/// Whether some job starts far enough into the window for capturing to pay.
pub open spec fn prefix_pays(len: u64, window: u64, size: int) -> bool {
    last_prefix(len, window, size) >= 1 && last_prefix(len, window, size) * size >= SPF_MIN_PREFIX
}

/// Whether a frame is of a kind whose strips are captured.
pub open spec fn captures(level: Level, shape: InputShape, choice: ReachChoice, head: Seq<u8>, fast: Option<u64>) -> bool {
    capture_window(level, shape, choice, fast) is Some && capture_head(shape, fast, head)
}

/// Size of the jobs of a frame whose strips are captured, if they are. It does not
/// depend on the number of workers.
pub open spec fn grid_of(
    len: u64,
    level: Level,
    shape: InputShape,
    choice: ReachChoice,
    head: Seq<u8>,
    fast: Option<u64>,
) -> Option<u64> {
    let size = captured_size(len, chosen_strip(shaped(level, shape), choice) as u64);
    match capture_window(level, shape, choice, fast) {
        Some(window) => if capture_head(shape, fast, head) && prefix_pays(len, window, size) {
            Some(size as u64)
        } else {
            None
        },
        None => None,
    }
}

/// A strip longer than the largest captured job cannot be captured.
pub open spec fn grid_fits(level: Level, shape: InputShape, choice: ReachChoice, head: Seq<u8>, fast: Option<u64>) -> bool {
    captures(level, shape, choice, head, fast) ==> chosen_strip(shaped(level, shape), choice)
        <= CAPTURE_JOB_CAP
}

/// The schedule of a frame whose strips are captured.
#[derive(Clone, Copy, PartialEq, Eq, Structural, Debug)]
pub enum PrefixPlan {
    /// One capture, at the median of the jobs' starts.
    Whole { med: u64 },
    /// Captures of long-distance history from the median to the last job's start,
    /// at least `cadence` apart.
    Windowed { med: u64, stop: u64, cadence: u64 },
    /// No captures: every job past the median fills its own window.
    SelfFill { med: u64 },
}

/// The schedule of a frame whose jobs have `size` bytes.
pub open spec fn prefix_plan(
    len: u64,
    level: Level,
    shape: InputShape,
    choice: ReachChoice,
    size: u64,
    head: Seq<u8>,
    fast: Option<u64>,
) -> Option<PrefixPlan> {
    match capture_window(level, shape, choice, fast) {
        Some(window) => if capture_head(shape, fast, head) && prefix_pays(len, window, size as int) {
            let med = (1 + last_prefix(len, window, size as int) / 2) * size;
            let stop = (ceil_div(len as int, size as int) - 1) * size;
            if fast is Some {
                Some(PrefixPlan::SelfFill { med: med as u64 })
            } else if window >= LDM_FULL_WINDOW {
                Some(
                    PrefixPlan::Windowed {
                        med: med as u64,
                        stop: stop as u64,
                        cadence: most((stop - med) / 12, SPF_SEG as int) as u64,
                    },
                )
            } else {
                Some(PrefixPlan::Whole { med: med as u64 })
            }
        } else {
            None
        },
        None => None,
    }
}

/// Facts about the jobs that start inside a window.
proof fn lemma_last_prefix(len: u64, window: u64, size: int)
    requires
        size >= 1,
    ensures
        ceil_div(len as int, size) >= 0,
        len > 0 ==> (ceil_div(len as int, size) - 1) * size < len,
        len > 0 ==> ceil_div(len as int, size) >= 1,
        len <= ceil_div(len as int, size) * size,
        last_prefix(len, window, size) >= 1 ==> {
            let k = last_prefix(len, window, size);
            &&& 0 <= k * size <= window
            &&& k * size < len
            &&& 0 <= (1 + k / 2) * size <= k * size
            &&& k * size <= (ceil_div(len as int, size) - 1) * size
        },
{
    let n = ceil_div(len as int, size);
    assert(n >= 0 && len <= n * size && (len > 0 ==> n >= 1 && (n - 1) * size < len)) by (nonlinear_arith)
        requires
            n == (len + size - 1) / size,
            size >= 1,
            len >= 0,
    ;
    assert(len == 0 ==> n == 0) by (nonlinear_arith)
        requires
            n == (len + size - 1) / size,
            size >= 1,
    ;
    let k = last_prefix(len, window, size);
    if k >= 1 {
        let q = window as int / size;
        assert(q * size <= window) by (nonlinear_arith)
            requires
                q == window as int / size,
                size >= 1,
        ;
        assert(k * size <= q * size && k * size <= (n - 1) * size && 0 <= k * size) by (nonlinear_arith)
            requires
                1 <= k <= q,
                k <= n - 1,
                size >= 1,
        ;
        assert(0 <= (1 + k / 2) * size <= k * size) by (nonlinear_arith)
            requires
                k >= 1,
                size >= 1,
        ;
    }
}

/// Jobs that start inside the window, as far as capturing pays.
fn paying_prefix(len: u64, window: u64, size: u64) -> (r: Option<u64>)
    requires
        size >= 1,
    ensures
        r == if prefix_pays(len, window, size as int) {
            Some(last_prefix(len, window, size as int) as u64)
        } else {
            None
        },
{
    proof {
        lemma_last_prefix(len, window, size as int);
    }
    let jobs: u64 = div_up(len, size);
    if jobs == 0 {
        return None;
    }
    let last: u64 = jobs - 1;
    let inside: u64 = window / size;
    let k: u64 = if last < inside {
        last
    } else {
        inside
    };
    assert(k == last_prefix(len, window, size as int));
    if k >= 1 && k * size >= SPF_MIN_PREFIX {
        Some(k)
    } else {
        None
    }
}

/// Whether the start of a frame is worth capturing strips for.
fn capture_head_parses(shape: InputShape, fast: Option<u64>, head: &[u8]) -> (r: bool)
    ensures
        r == capture_head(shape, fast, head@),
{
    let short: bool = match shape.len {
        Some(n) => n < LDM_FULL_WINDOW as u64,
        None => false,
    };
    if fast.is_some() && short {
        return true;
    }
    let n: usize = if head.len() < MAX_BLOCK_SIZE {
        head.len()
    } else {
        MAX_BLOCK_SIZE
    };
    let start: &[u8] = vstd::slice::slice_subrange(head, 0, n);
    assert(start@ =~= head@.take(n as int));
    ldm_head_parses(start)
}

/// Window of a frame whose strips may be captured.
fn window_to_capture(level: Level, shape: InputShape, choice: ReachChoice, fast: Option<u64>) -> (r: Option<u64>)
    ensures
        r == capture_window(level, shape, choice, fast),
{
    match MatchGeneratorDriver::prefix_ldm_window(level, shape, choice) {
        Some(w) => Some(w),
        None => fast,
    }
}

/// Size of the jobs of a frame whose strips are captured, if they are.
pub fn capture_grid(
    len: u64,
    level: Level,
    shape: InputShape,
    choice: ReachChoice,
    head: &[u8],
    fast: Option<u64>,
) -> (r: Option<u64>)
    requires
        grid_fits(level, shape, choice, head@, fast),
    ensures
        r == grid_of(len, level, shape, choice, head@, fast),
        r matches Some(s) ==> MIN_JOB_SIZE <= s <= CAPTURE_JOB_CAP,
{
    let window: u64 = match window_to_capture(level, shape, choice, fast) {
        Some(w) => w,
        None => return None,
    };
    if !capture_head_parses(shape, fast, head) {
        return None;
    }
    let size: u64 = capture_job_size(len, MatchGeneratorDriver::strip_for_choice(level, shape, choice));
    match paying_prefix(len, window, size) {
        Some(_) => Some(size),
        None => None,
    }
}

/// The schedule of a frame whose strips are captured, if they are; its jobs have
/// `size` bytes.
pub fn plan_prefix_ldm(
    len: u64,
    level: Level,
    shape: InputShape,
    choice: ReachChoice,
    size: u64,
    head: &[u8],
    fast: Option<u64>,
) -> (r: Option<PrefixPlan>)
    requires
        size >= 1,
    ensures
        r == prefix_plan(len, level, shape, choice, size, head@, fast),
{
    let window: u64 = match window_to_capture(level, shape, choice, fast) {
        Some(w) => w,
        None => return None,
    };
    if !capture_head_parses(shape, fast, head) {
        return None;
    }
    let k: u64 = match paying_prefix(len, window, size) {
        Some(k) => k,
        None => return None,
    };
    proof {
        lemma_last_prefix(len, window, size as int);
    }
    let med: u64 = (1 + k / 2) * size;
    if fast.is_some() {
        return Some(PrefixPlan::SelfFill { med });
    }
    if MatchGeneratorDriver::windowed_ldm_capture(window) {
        let stop: u64 = (div_up(len, size) - 1) * size;
        let step: u64 = (stop - med) / 12;
        let cadence: u64 = if step > SPF_SEG {
            step
        } else {
            SPF_SEG
        };
        Some(PrefixPlan::Windowed { med, stop, cadence })
    } else {
        Some(PrefixPlan::Whole { med })
    }
}

impl PrefixPlan {
    /// Where the captured part of a schedule starts.
    pub open spec fn median(self) -> u64 {
        match self {
            PrefixPlan::Whole { med } => med,
            PrefixPlan::Windowed { med, .. } => med,
            PrefixPlan::SelfFill { med } => med,
        }
    }
}

/// What history a job starts with.
#[derive(Clone, Copy, PartialEq, Eq, Structural, Debug)]
pub enum JobHistory {
    /// Its strip, which it fills itself.
    Strip,
    /// A captured strip, which it continues.
    Snapshot,
    /// Its reach for the chain, and its whole window for long-distance matching.
    Windowed,
}

/// History of the job at `start`. A capture that reaches past the start is of no
/// use to it.
pub open spec fn history_of(plan: Option<PrefixPlan>, start: u64, built: Option<u64>) -> JobHistory {
    match plan {
        None => JobHistory::Strip,
        Some(p) => if start <= p.median() {
            JobHistory::Strip
        } else {
            match p {
                PrefixPlan::Whole { .. } => if built matches Some(upto) && start > upto {
                    JobHistory::Snapshot
                } else {
                    JobHistory::Strip
                },
                _ => JobHistory::Windowed,
            }
        },
    }
}

/// History of the job at `start`, given how far the capture reaches if there is
/// one.
pub fn job_history(plan: Option<PrefixPlan>, start: u64, built: Option<u64>) -> (r: JobHistory)
    ensures
        r == history_of(plan, start, built),
{
    match plan {
        None => JobHistory::Strip,
        Some(PrefixPlan::Whole { med }) => match built {
            Some(upto) => if start > med && start > upto {
                JobHistory::Snapshot
            } else {
                JobHistory::Strip
            },
            None => JobHistory::Strip,
        },
        Some(PrefixPlan::Windowed { med, .. }) => if start > med {
            JobHistory::Windowed
        } else {
            JobHistory::Strip
        },
        Some(PrefixPlan::SelfFill { med }) => if start > med {
            JobHistory::Windowed
        } else {
            JobHistory::Strip
        },
    }
}

/// The newest capture that a job at `start` can use, among those that reach up to
/// `uptos`.
pub fn newest_snapshot(uptos: &[u64], start: u64) -> (r: Option<usize>)
    ensures
        match r {
            Some(k) => k < uptos@.len() && uptos@[k as int] <= start && forall|j: int|
                k < j < uptos@.len() ==> #[trigger] uptos@[j] > start,
            None => forall|j: int| 0 <= j < uptos@.len() ==> #[trigger] uptos@[j] > start,
        },
{
    let mut k: usize = uptos.len();
    while k > 0
        invariant
            k <= uptos@.len(),
            forall|j: int| k <= j < uptos@.len() ==> #[trigger] uptos@[j] > start,
        decreases k,
    {
        k = k - 1;
        if uptos[k] <= start {
            return Some(k);
        }
    }
    None
}

/// Arming of the part of a frame that is parsed for the probe and kept: that of
/// the job it becomes.
pub fn donation_arming(capture_engages: bool) -> (r: LdmArming)
    ensures
        r == if capture_engages {
            LdmArming::JobPrefix
        } else {
            LdmArming::Job
        },
{
    if capture_engages {
        LdmArming::JobPrefix
    } else {
        LdmArming::Job
    }
}

/// Size of the jobs of a frame.
pub open spec fn frame_job_size(
    len: u64,
    workers: u32,
    level: Level,
    shape: InputShape,
    choice: ReachChoice,
    head: Seq<u8>,
    fast: Option<u64>,
) -> u64 {
    match grid_of(len, level, shape, choice, head, fast) {
        Some(s) => s,
        None => job_size(len, workers, chosen_strip(shaped(level, shape), choice) as u64) as u64,
    }
}

/// Size of the jobs of a frame, with at least two workers.
pub fn mt_job_size_for(
    len: u64,
    workers: u32,
    level: Level,
    shape: InputShape,
    head: &[u8],
    choice: ReachChoice,
    fast: Option<u64>,
) -> (r: u64)
    requires
        grid_fits(level, shape, choice, head@, fast),
    ensures
        r == frame_job_size(
            len,
            if workers < 2 {
                2
            } else {
                workers
            },
            level,
            shape,
            choice,
            head@,
            fast,
        ),
        MIN_JOB_SIZE <= r <= MAX_JOB_SIZE,
{
    let w: u32 = if workers < 2 {
        2
    } else {
        workers
    };
    match capture_grid(len, level, shape, choice, head, fast) {
        Some(s) => s,
        None => job_size_for(len, w, MatchGeneratorDriver::strip_for_choice(level, shape, choice)),
    }
}

/// A frame's jobs.
#[derive(Clone, Copy, Debug)]
pub struct MtPlan {
    /// Window that the frame declares.
    pub window: u64,
    /// History that a job starts with.
    pub overlap: u64,
    pub job_size: u64,
    pub n_jobs: u64,
    /// Workers that have something to do.
    pub threads: u64,
    pub arming: LdmArming,
    pub prefix: Option<PrefixPlan>,
}

/// The jobs of a frame.
pub open spec fn planned(
    len: u64,
    workers: u32,
    level: Level,
    shape: InputShape,
    choice: ReachChoice,
    head: Seq<u8>,
    fast: Option<u64>,
) -> MtPlan {
    let p = shaped(level, shape);
    let size = frame_job_size(len, workers, level, shape, choice, head, fast);
    let n = ceil_div(len as int, size as int);
    let prefix = if choice == ReachChoice::Keep {
        prefix_plan(len, level, shape, choice, size, head, fast)
    } else {
        None
    };
    let window = if prefix is Some && fast is Some {
        fast->Some_0
    } else {
        p.window as u64
    };
    MtPlan {
        window,
        overlap: if prefix is Some {
            window
        } else {
            chosen_strip(p, choice) as u64
        },
        job_size: size,
        n_jobs: n as u64,
        threads: least(workers as int, n) as u64,
        arming: if prefix is Some {
            LdmArming::JobPrefix
        } else {
            LdmArming::Job
        },
        prefix,
    }
}

/// Whether a frame is cut into jobs at all.
pub fn mt_engages(len: u64, workers: u32, level: Level, cores: usize) -> (r: bool)
    ensures
        r == (workers >= 2 && len >= MIN_MT_INPUT && level != Level::Uncompressed && cores >= 2),
        r ==> len >= 2097152,
        len >= 2097152 && workers >= 2 && cores >= 2 && level != Level::Uncompressed ==> r,
{
    let raw: bool = match level {
        Level::Uncompressed => true,
        _ => false,
    };
    workers >= 2 && len >= MIN_MT_INPUT && !raw && cores >= 2
}

/// Whether the first job's start is parsed for the probe and kept: the frame is
/// probed, and its first job is long enough.
pub fn donates(len: u64, workers: u32, level: Level, shape: InputShape) -> (r: bool)
    requires
        workers >= 2,
    ensures
        r == (probed(level, shape) && job_size(
            len,
            workers,
            chosen_strip(shaped(level, shape), ReachChoice::Keep) as u64,
        ) >= PROBE_SPAN),
{
    eligible(level, shape) && job_size_for(
        len,
        workers,
        MatchGeneratorDriver::strip_for_choice(level, shape, ReachChoice::Keep),
    ) >= PROBE_SPAN as u64
}

/// Plans the jobs of a frame.
pub fn plan_jobs(
    len: u64,
    workers: u32,
    level: Level,
    shape: InputShape,
    choice: ReachChoice,
    head: &[u8],
    fast: Option<u64>,
) -> (r: MtPlan)
    requires
        workers >= 2,
        grid_fits(level, shape, choice, head@, fast),
    ensures
        r == planned(len, workers, level, shape, choice, head@, fast),
{
    let size: u64 = mt_job_size_for(len, workers, level, shape, head, choice, fast);
    let n: u64 = div_up(len, size);
    let prefix: Option<PrefixPlan> = match choice {
        ReachChoice::Keep => plan_prefix_ldm(len, level, shape, choice, size, head, fast),
        ReachChoice::Shrink => None,
    };
    let row: u64 = MatchGeneratorDriver::window_for_level(level, shape);
    let window: u64 = match (prefix, fast) {
        (Some(_), Some(far)) => far,
        _ => row,
    };
    let strip: u64 = MatchGeneratorDriver::strip_for_choice(level, shape, choice);
    MtPlan {
        window,
        overlap: if prefix.is_some() {
            window
        } else {
            strip
        },
        job_size: size,
        n_jobs: n,
        threads: if (workers as u64) < n {
            workers as u64
        } else {
            n
        },
        arming: donation_arming(prefix.is_some()),
        prefix,
    }
}

/// Start of job `i`.
pub open spec fn job_start(size: u64, i: int) -> int {
    i * size
}

/// End of job `i`.
pub open spec fn job_end(len: u64, size: u64, i: int) -> int {
    least((i + 1) * size, len as int)
}

/// The bytes of job `i`.
pub fn job_range(len: u64, size: u64, i: u64) -> (r: (u64, u64))
    requires
        size >= 1,
        i < ceil_div(len as int, size as int),
    ensures
        r.0 == job_start(size, i as int),
        r.1 == job_end(len, size, i as int),
        r.0 < r.1 <= len,
{
    proof {
        lemma_jobs_tile(len, size, i as int);
    }
    let start: u64 = i * size;
    let end: u64 = if len - start > size {
        start + size
    } else {
        len
    };
    assert((i + 1) * size == start + size) by (nonlinear_arith)
        requires
            start == i * size,
    ;
    (start, end)
}

/// The jobs of a frame cover its input once, in order: the first starts at the
/// beginning, each next one where the last has ended, and the last ends with the
/// input. None is empty.
pub proof fn lemma_jobs_tile(len: u64, size: u64, i: int)
    requires
        size >= 1,
        0 <= i < ceil_div(len as int, size as int),
    ensures
        job_start(size, 0) == 0,
        0 <= job_start(size, i) < job_end(len, size, i) <= len,
        i + 1 < ceil_div(len as int, size as int) ==> job_end(len, size, i) == job_start(size, i + 1),
        i + 1 == ceil_div(len as int, size as int) ==> job_end(len, size, i) == len,
{
    let n = ceil_div(len as int, size as int);
    let s = size as int;
    assert(n >= 1 && (n - 1) * s < len <= n * s) by (nonlinear_arith)
        requires
            n == (len + s - 1) / s,
            s >= 1,
            n >= 1,
    ;
    assert(0 <= i * s <= (n - 1) * s) by (nonlinear_arith)
        requires
            0 <= i <= n - 1,
            s >= 1,
    ;
    assert((i + 1) * s == i * s + s) by (nonlinear_arith);
    if i + 1 < n {
        assert((i + 1) * s <= (n - 1) * s) by (nonlinear_arith)
            requires
                i + 1 <= n - 1,
                s >= 1,
        ;
    }
}

/// The cut of a captured frame into jobs does not depend on the number of workers,
/// and neither does what a job starts with.
pub proof fn lemma_grid_ignores_workers(
    len: u64,
    a: u32,
    b: u32,
    level: Level,
    shape: InputShape,
    choice: ReachChoice,
    head: Seq<u8>,
    fast: Option<u64>,
)
    requires
        grid_of(len, level, shape, choice, head, fast) is Some,
    ensures
        ({
            let x = planned(len, a, level, shape, choice, head, fast);
            let y = planned(len, b, level, shape, choice, head, fast);
            &&& x.job_size == y.job_size
            &&& x.n_jobs == y.n_jobs
            &&& x.overlap == y.overlap
            &&& x.window == y.window
            &&& x.arming == y.arming
            &&& x.prefix == y.prefix
        }),
{
}

/// A frame that is cut on the captured grid runs a schedule, and one that is not
/// does not: its first part is armed like the job it becomes.
pub proof fn lemma_arming_pairs_with_plan(
    len: u64,
    workers: u32,
    level: Level,
    shape: InputShape,
    head: Seq<u8>,
    fast: Option<u64>,
)
    requires
        grid_of(len, level, shape, ReachChoice::Keep, head, fast) is Some,
        grid_fits(level, shape, ReachChoice::Keep, head, fast),
    ensures
        planned(len, workers, level, shape, ReachChoice::Keep, head, fast).prefix is Some,
        planned(len, workers, level, shape, ReachChoice::Keep, head, fast).arming == LdmArming::JobPrefix,
{
}

/// A matcher that is prepared for the job at `start`: only the first job knows the
/// decoder's offsets.
pub open spec fn job_prepared(
    d: Drv,
    level: Level,
    shape: InputShape,
    choice: ReachChoice,
    arming: LdmArming,
    start: u64,
    ramp_depth: u64,
) -> Drv {
    let m = Mode { input: told(shape), reach_choice: choice, arming, ..d.mode };
    let e = reset_to(Drv { mode: m, ..d }, level);
    if start == 0 {
        e
    } else {
        Drv {
            carry: Carry { pending: 3, ..e.carry },
            mode: if ramp_depth > 0 {
                Mode { ramp: armed_ramp(start, ramp_depth), ..e.mode }
            } else {
                e.mode
            },
            ..e
        }
    }
}

/// Prepares a matcher for the job at `start`.
pub fn prepare_job_state(
    driver: &mut MatchGeneratorDriver,
    level: Level,
    shape: InputShape,
    choice: ReachChoice,
    arming: LdmArming,
    start: u64,
    ramp_depth: u64,
)
    requires
        old(driver)@.wf(),
        start > 0 && ramp_depth > 0 ==> {
            let p = frame_params(
                level,
                Mode { input: held(shape), reach_choice: choice, arming, ..old(driver)@.mode },
            );
            !(p.strategy is Opt) && !(p.strategy is BtLazy)
        },
    ensures
        final(driver)@ == job_prepared(
            old(driver)@,
            level,
            shape,
            choice,
            arming,
            start,
            ramp_depth,
        ),
        final(driver)@.ready(),
{
    let ghost d0 = driver@;
    driver.set_input_shape(shape);
    driver.set_reach_choice(choice);
    driver.set_ldm_arming(arming);
    let ghost m = Mode { input: told(shape), reach_choice: choice, arming, ..d0.mode };
    assert(driver@ == (Drv { mode: m, ..d0 }));
    assert(framed(m) == (Mode { input: held(shape), reach_choice: choice, arming, ..d0.mode }));
    driver.reset(level);
    if start > 0 {
        driver.gate_repcodes();
        if ramp_depth > 0 {
            driver.arm_ramp(start, ramp_depth);
        }
    }
    assert(driver@ == job_prepared(d0, level, shape, choice, arming, start, ramp_depth));
}

/// Depth of the ramp: an override, unless it is the largest number, else what the
/// environment says, else none.
pub fn ramp_depth(over: u64, env: Option<u64>) -> (r: u64)
    ensures
        r == if over != u64::MAX {
            over
        } else if env is Some {
            env->Some_0
        } else {
            0
        },
{
    if over != 0xffff_ffff_ffff_ffff {
        over
    } else {
        match env {
            Some(v) => v,
            None => 0,
        }
    }
}

/// The row's split level.
pub open spec fn split_level(d: Drv) -> Option<SplitLevel> {
    let p = d.mode.params;
    if p.strategy is Chain || p.strategy is Row {
        Some(
            SplitLevel::chunk_row(
                if p.lazy_depth <= 1 {
                    1int
                } else {
                    2
                },
            ),
        )
    } else {
        None
    }
}

/// The bytes that the next block of a span may take.
pub open spec fn span_piece(d: Drv, head: Seq<u8>, cursor: int) -> Seq<u8> {
    head.subrange(
        cursor,
        least(
            cursor + least(MAX_BLOCK_SIZE as int, d.mode.params.window as int),
            head.len() as int,
        ),
    )
}

/// A matcher on the block of a span from `cursor` to `end`, with as much of what
/// comes before as its window holds.
pub open spec fn on_span_block(d: Drv, head: Seq<u8>, cursor: int, end: int) -> Drv {
    let from = if cursor > d.mode.params.window {
        cursor - d.mode.params.window
    } else {
        0
    };
    let e = adopted(d, head.subrange(from, end), from as u64);
    Drv {
        place: Place {
            pos: cursor as u64,
            block_start: cursor as u64,
            block_end: end as u64,
            ..e.place
        },
        ..e
    }
}

/// Moves the parse of a span to its next block: decides the block's size, and hands
/// it over with its history. Returns its end.
pub fn next_span_block(
    driver: &mut MatchGeneratorDriver,
    split: &mut FrameSavings,
    head: &[u8],
    cursor: usize,
) -> (end: usize)
    requires
        old(driver)@.wf(),
        old(driver)@.mode.direct || old(driver)@.win.len() == 0,
        cursor < head@.len() <= WIN_MAX,
    ensures
        ({
            let piece = span_piece(old(driver)@, head@, cursor as int);
            let level = split_level(old(driver)@);
            &&& end == cursor + old(split).size_of(piece, level)
            &&& *final(split) == old(split).after(piece, level)
        }),
        cursor < end <= head@.len(),
        final(driver)@ == on_span_block(old(driver)@, head@, cursor as int, end as int),
        final(driver)@.ready(),
{
    let ghost d0 = driver@;
    assert(head@.len() == head.len());
    let block: usize = driver.block_size();
    let stop: usize = if head.len() - cursor > block {
        cursor + block
    } else {
        head.len()
    };
    let piece: &[u8] = vstd::slice::slice_subrange(head, cursor, stop);
    let level: Option<SplitLevel> = driver.pre_split_level();
    let size: usize = split.block_size(piece, level);
    let end: usize = cursor + size;
    let window: usize = driver.mode.params.window;
    let from: usize = if cursor > window {
        cursor - window
    } else {
        0
    };
    let win: &[u8] = vstd::slice::slice_subrange(head, from, end);
    driver.adopt_window(win, from as u64);
    driver.set_block(cursor as u64, end as u64);
    assert(driver@ == on_span_block(d0, head@, cursor as int, end as int));
    end
}

} // verus!
