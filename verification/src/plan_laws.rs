//! What the planning of a frame's jobs promises: how large jobs are, that every
//! worker has something to do, and what history a job starts with.

use vstd::prelude::*;
use crate::driver_plan::chosen_strip;
use crate::level::{InputShape, Level};
use crate::capture::{capture_end, lemma_publish_points, publish_points, stop_after};
use crate::mt::{capture_head, capture_window, captured_size, ceil_div, fast_capture, grid_of, history_of, job_size, last_prefix, planned, prefix_plan, JobHistory, PrefixPlan};
use crate::params::{least, shaped, LdmArming, ReachChoice};

verus! {

/// A quotient that is rounded up is the least number of parts that cover the
/// whole.
pub proof fn lemma_parts_cover(a: int, b: int)
    requires
        a >= 0,
        b >= 1,
    ensures
        ceil_div(a, b) * b >= a,
        (ceil_div(a, b) - 1) * b < a,
{
    let n = ceil_div(a, b);
    assert(n * b >= a && (n - 1) * b < a) by (nonlinear_arith)
        requires
            n == (a + b - 1) / b,
            b >= 1,
            a >= 0,
    ;
}

/// There are two jobs per worker: a job is the least part of which twice as many
/// as there are workers cover the input. It is never smaller than a megabyte or
/// than its strip, nor larger than a gigabyte; where one of these limits decides,
/// it is that limit.
pub proof fn lemma_two_jobs_per_worker(len: u64, workers: u32, overlap: u64)
    requires
        workers >= 1,
    ensures
        ({
            let size = job_size(len, workers, overlap);
            let floor: int = if overlap > 0x10_0000 {
                overlap as int
            } else {
                0x10_0000
            };
            let jobs = 2 * workers;
            &&& len > jobs * floor && len <= jobs * 0x4000_0000 ==> size * jobs >= len && (size - 1) * jobs < len
            &&& len <= jobs * floor && floor <= 0x4000_0000 ==> size == floor
            &&& len > jobs * 0x4000_0000 ==> size == 0x4000_0000
            &&& floor > 0x4000_0000 ==> size == 0x4000_0000
        }),
{
    let jobs = 2 * workers as int;
    let part = ceil_div(len as int, jobs);
    let floor: int = if overlap > 0x10_0000 {
        overlap as int
    } else {
        0x10_0000
    };
    assert(workers * 2 == jobs);
    lemma_parts_cover(len as int, jobs);
    assert(len > jobs * floor ==> part > floor) by (nonlinear_arith)
        requires
            part * jobs >= len,
            jobs >= 1,
    ;
    assert(len <= jobs * floor ==> part <= floor) by (nonlinear_arith)
        requires
            (part - 1) * jobs < len,
            jobs >= 1,
    ;
    assert(len > jobs * 0x4000_0000 ==> part > 0x4000_0000) by (nonlinear_arith)
        requires
            part * jobs >= len,
            jobs >= 1,
    ;
    assert(len <= jobs * 0x4000_0000 ==> part <= 0x4000_0000) by (nonlinear_arith)
        requires
            (part - 1) * jobs < len,
            jobs >= 1,
    ;
}

/// A captured frame has eight jobs: a job is the least part of which eight cover
/// the input, never smaller than a megabyte or than its reach, nor larger than
/// sixteen megabytes.
pub proof fn lemma_eight_captured_jobs(len: u64, reach: u64)
    requires
        reach <= 0x100_0000,
    ensures
        ({
            let size = captured_size(len, reach);
            let floor: int = if reach > 0x10_0000 {
                reach as int
            } else {
                0x10_0000
            };
            &&& len > 8 * floor && len <= 8 * 0x100_0000 ==> size * 8 >= len && (size - 1) * 8 < len
            &&& len <= 8 * floor ==> size == floor
            &&& len > 8 * 0x100_0000 ==> size == 0x100_0000
        }),
{
    lemma_parts_cover(len as int, 8);
}

/// The jobs of a plan are as many as cover the input, none more. No worker is
/// counted that has no job, and none is left out while there are jobs for it.
pub proof fn lemma_plan_covers(
    len: u64,
    workers: u32,
    level: Level,
    shape: InputShape,
    choice: ReachChoice,
    head: Seq<u8>,
    fast: Option<u64>,
)
    requires
        workers >= 2,
        grid_of(len, level, shape, choice, head, fast) is Some ==> chosen_strip(shaped(level, shape), choice)
            <= 0x100_0000,
    ensures
        ({
            let p = planned(len, workers, level, shape, choice, head, fast);
            &&& 0x10_0000 <= p.job_size <= 0x4000_0000
            &&& p.n_jobs * p.job_size >= len
            &&& len > 0 ==> (p.n_jobs - 1) * p.job_size < len
            &&& p.threads <= workers && p.threads <= p.n_jobs
            &&& p.threads == workers || p.threads == p.n_jobs
        }),
{
    let p = planned(len, workers, level, shape, choice, head, fast);
    let size = p.job_size as int;
    lemma_size_fits(len, workers, level, shape, choice, head, fast);
    lemma_parts_cover(len as int, size);
    let n = ceil_div(len as int, size);
    assert(0 <= n <= len) by (nonlinear_arith)
        requires
            (n - 1) * size < len,
            n * size >= len,
            size >= 1,
            len >= 0,
    ;
}

/// Jobs are between a megabyte and a gigabyte.
proof fn lemma_size_fits(
    len: u64,
    workers: u32,
    level: Level,
    shape: InputShape,
    choice: ReachChoice,
    head: Seq<u8>,
    fast: Option<u64>,
)
    requires
        workers >= 2,
        grid_of(len, level, shape, choice, head, fast) is Some ==> chosen_strip(shaped(level, shape), choice)
            <= 0x100_0000,
    ensures
        ({
            let p = planned(len, workers, level, shape, choice, head, fast);
            let strip = chosen_strip(shaped(level, shape), choice) as u64;
            &&& 0x10_0000 <= p.job_size <= 0x4000_0000
            &&& grid_of(len, level, shape, choice, head, fast) is None ==> p.job_size == job_size(len, workers, strip)
            &&& grid_of(len, level, shape, choice, head, fast) is Some ==> p.job_size == captured_size(len, strip)
        }),
{
    lemma_parts_cover(len as int, workers as int * 2);
    lemma_parts_cover(len as int, 8);
}

/// An input with two jobs' worth for every worker keeps every worker busy.
pub proof fn lemma_every_worker_is_busy(
    len: u64,
    workers: u32,
    level: Level,
    shape: InputShape,
    choice: ReachChoice,
    head: Seq<u8>,
    fast: Option<u64>,
)
    requires
        workers >= 2,
        grid_of(len, level, shape, choice, head, fast) is None,
        len >= 2 * workers * 0x10_0000,
        len >= 2 * workers * chosen_strip(shaped(level, shape), choice),
    ensures
        planned(len, workers, level, shape, choice, head, fast).threads == workers,
        planned(len, workers, level, shape, choice, head, fast).n_jobs >= workers,
{
    let strip = chosen_strip(shaped(level, shape), choice) as u64;
    let p = planned(len, workers, level, shape, choice, head, fast);
    lemma_two_jobs_per_worker(len, workers, strip);
    lemma_plan_covers(len, workers, level, shape, choice, head, fast);
    lemma_size_fits(len, workers, level, shape, choice, head, fast);
    let size = p.job_size as int;
    let jobs = 2 * workers as int;
    let floor: int = if strip > 0x10_0000 {
        strip as int
    } else {
        0x10_0000
    };
    assert(jobs * floor <= len);
    assert((size - 1) * jobs < len) by {
        if len == jobs * floor {
            assert(jobs * floor <= len ==> floor * jobs <= len) by (nonlinear_arith);
            if floor > 0x4000_0000 {
                assert((0x4000_0000 - 1) * jobs < floor * jobs) by (nonlinear_arith)
                    requires
                        floor > 0x4000_0000,
                        jobs >= 1,
                ;
            } else {
                assert((floor - 1) * jobs < floor * jobs) by (nonlinear_arith)
                    requires
                        jobs >= 1,
                ;
            }
        } else if len > jobs * 0x4000_0000 {
            assert((0x4000_0000 - 1) * jobs < len);
        }
    }
    let n = p.n_jobs as int;
    assert(n >= workers) by (nonlinear_arith)
        requires
            (size - 1) * jobs < len,
            n * size >= len,
            jobs == 2 * workers,
            size >= 2,
            workers >= 2,
    ;
}

/// The last job that starts inside the window is the last multiple of the job
/// size that lies in the window and before the end.
proof fn lemma_last_inside(len: u64, window: u64, size: u64, k: int)
    requires
        size >= 1,
        k >= 0,
        k * size <= window,
        k * size < len,
        (k + 1) * size > window || (k + 1) * size >= len,
    ensures
        last_prefix(len, window, size as int) == k,
        (ceil_div(len as int, size as int) - 1) * size < len,
        ceil_div(len as int, size as int) * size >= len,
        ceil_div(len as int, size as int) >= 1,
{
    let s = size as int;
    lemma_parts_cover(len as int, s);
    let n = ceil_div(len as int, s);
    let q = window as int / s;
    vstd::arithmetic::div_mod::lemma_fundamental_div_mod(window as int, s);
    assert(k <= q && ((k + 1) * s > window ==> q <= k)) by (nonlinear_arith)
        requires
            window == s * q + window as int % s,
            0 <= window as int % s < s,
            k * s <= window,
            s >= 1,
    ;
    assert(k <= n - 1 && ((k + 1) * s >= len ==> n - 1 <= k)) by (nonlinear_arith)
        requires
            n * s >= len,
            (n - 1) * s < len,
            k * s < len,
            s >= 1,
    ;
    assert(n >= 1) by (nonlinear_arith)
        requires
            n * s >= len,
            len > 0,
            s >= 1,
    ;
}

/// A frame's strips are captured if the last job that starts in the window lies
/// eight megabytes or more from the frame's start, and its start is worth it. The
/// median halves the jobs that start in the window: it is a job's start, and as
/// many of them lie up to it as past it, but for one or two. Captures of
/// long-distance history go on to the last job's start, a megabyte or more apart,
/// and no more than a dozen steps.
pub proof fn lemma_prefix_plan(
    len: u64,
    level: Level,
    shape: InputShape,
    choice: ReachChoice,
    size: u64,
    head: Seq<u8>,
    fast: Option<u64>,
    k: int,
)
    requires
        size >= 1,
        k >= 0,
        capture_window(level, shape, choice, fast) matches Some(w) && k * size <= w && ((k + 1) * size > w || (k + 1)
            * size >= len),
        k * size < len,
    ensures
        ({
            let w = capture_window(level, shape, choice, fast)->Some_0;
            let plan = prefix_plan(len, level, shape, choice, size, head, fast);
            &&& plan is Some <==> k * size >= 0x80_0000 && capture_head(shape, fast, head)
            &&& plan matches Some(p) ==> {
                &&& p.median() % size == 0
                &&& 2 * (p.median() - size) <= k * size <= 2 * p.median() - size
                &&& 0 < p.median() <= w && p.median() < len
                &&& p is SelfFill <==> fast is Some
                &&& p is Windowed <==> fast is None && w >= 0x400_0000
            }
            &&& plan matches Some(PrefixPlan::Windowed { med, stop, cadence }) ==> {
                &&& stop % size == 0
                &&& med <= stop < len <= stop + size
                &&& cadence >= 0x10_0000
                &&& stop - med < 12 * (cadence + 1)
                &&& cadence > 0x10_0000 ==> 12 * cadence <= stop - med
            }
        }),
{
    let w = capture_window(level, shape, choice, fast)->Some_0;
    let s = size as int;
    lemma_last_inside(len, w, size, k);
    let n = ceil_div(len as int, s);
    let m = 1 + k / 2;
    if k >= 1 {
        assert(0 < m * s <= k * s && 2 * (m * s - s) <= k * s <= 2 * (m * s) - s) by (nonlinear_arith)
            requires
                m == 1 + k / 2,
                k >= 1,
                s >= 1,
        ;
        assert(k * s <= (n - 1) * s) by (nonlinear_arith)
            requires
                k * s < len,
                n * s >= len,
                s >= 1,
        ;
        assert((n - 1) * s + s == n * s) by (nonlinear_arith);
        vstd::arithmetic::div_mod::lemma_mod_multiples_basic(m, s);
        vstd::arithmetic::div_mod::lemma_mod_multiples_basic(n - 1, s);
    } else {
        assert(k * s == 0);
    }
}

/// A job takes over no capture that reaches past its own start, and nothing but
/// its strip up to the median. Past it, a job of a windowed or self-filled frame
/// fills its window, and one of a captured frame takes the capture where there is
/// one.
pub proof fn lemma_history_lies_behind(plan: Option<PrefixPlan>, start: u64, built: Option<u64>)
    ensures
        ({
            let h = history_of(plan, start, built);
            &&& h == JobHistory::Snapshot ==> built is Some && built->Some_0 < start
            &&& plan is None || start == 0 ==> h == JobHistory::Strip
            &&& plan matches Some(p) ==> start <= p.median() ==> h == JobHistory::Strip
            &&& plan matches Some(p) ==> start > p.median() ==> {
                &&& p is Windowed || p is SelfFill ==> h == JobHistory::Windowed
                &&& p is Whole && (built matches Some(upto) && upto < start) ==> h == JobHistory::Snapshot
            }
        }),
{
}

/// Without a schedule a job's history is the distance that its search covers, and
/// the frame declares its row's window. With one, jobs see the whole window.
pub proof fn lemma_overlap_covers_search(
    len: u64,
    workers: u32,
    level: Level,
    shape: InputShape,
    choice: ReachChoice,
    head: Seq<u8>,
    fast: Option<u64>,
)
    ensures
        ({
            let p = planned(len, workers, level, shape, choice, head, fast);
            let row = shaped(level, shape);
            let reach = match row.chain_reach {
                Some(r) => r,
                None => row.window,
            };
            &&& choice == ReachChoice::Shrink ==> p.prefix is None
            &&& p.prefix is None ==> p.window == row.window && p.arming == LdmArming::Job
            &&& p.prefix is Some ==> p.overlap == p.window && p.arming == LdmArming::JobPrefix
            &&& p.prefix is Some && fast is None ==> p.window == row.window
            &&& p.prefix is Some && fast is Some ==> p.window == fast->Some_0
            &&& p.prefix is None && choice == ReachChoice::Keep ==> p.overlap == reach
            &&& p.prefix is None && choice == ReachChoice::Shrink ==> p.overlap == if row.chain_reach == Some(
                0x40_0000usize,
            ) {
                0x1000usize
            } else {
                reach
            }
        }),
{
}

/// Captures are for wide windows: the chain row's own from 32 megabytes on, and
/// 64 megabytes for the one-table and two-table rows, whose frames must be as long
/// as that, or half as long where far repeats were found.
pub proof fn lemma_captures_are_wide(level: Level, shape: InputShape, choice: ReachChoice, screened: bool)
    ensures
        ({
            let row = shaped(level, shape);
            let fast = fast_capture(level, shape, screened);
            let w = capture_window(level, shape, choice, fast);
            &&& fast is Some ==> {
                &&& fast->Some_0 == 0x400_0000 && row.ldm && row.window < 0x400_0000
                &&& row.strategy is Fast || row.strategy is Dfast
                &&& shape.len matches Some(n) && n >= 0x200_0000 && (screened || n >= 0x400_0000)
            }
            &&& w is Some ==> w->Some_0 >= 0x200_0000
            &&& row.strategy is Chain && row.ldm && row.window >= 0x200_0000 && choice == ReachChoice::Keep ==> w
                == Some(row.window as u64)
            &&& (row.strategy is Fast || row.strategy is Dfast) && row.ldm && row.window < 0x400_0000 && (
            shape.len matches Some(n) && n >= 0x400_0000) ==> w == Some(0x400_0000u64)
        }),
{
}

/// Stops are in ascending order, and some stop lies within `gap` past every
/// position up to `end`.
pub open spec fn stops_often(stops: Seq<u64>, end: int, gap: int) -> bool {
    &&& forall|i: int, j: int| 0 <= i <= j < stops.len() ==> #[trigger] stops[i] <= #[trigger] stops[j]
    &&& forall|x: int| 0 <= x <= end ==> #[trigger] stop_near(stops, x, gap)
}

/// Some stop lies within `gap` past `x`.
pub open spec fn stop_near(stops: Seq<u64>, x: int, gap: int) -> bool {
    exists|i: int| 0 <= i < stops.len() && x <= #[trigger] stops[i] <= x + gap
}

proof fn lemma_stop_found(stops: Seq<u64>, i: int, w: int, soft: int, cap: int, gap: int)
    requires
        forall|i: int, j: int| 0 <= i <= j < stops.len() ==> #[trigger] stops[i] <= #[trigger] stops[j],
        0 <= i <= w < stops.len(),
        soft <= stops[w] <= soft + gap,
        soft + gap <= cap,
    ensures
        stop_after(stops, i, soft, cap) matches Some(s) && soft <= s <= soft + gap,
    decreases stops.len() - i,
{
    assert(stops[i] <= stops[w]);
    if !(soft <= stops[i] <= cap) {
        lemma_stop_found(stops, i + 1, w, soft, cap, gap);
    }
}

/// Long-distance history is captured as often as the stops allow: soon after the
/// median, then soon after every cadence, to the last job's start.
pub proof fn lemma_captures_keep_up(stops: Seq<u64>, upto: u64, next: int, stop: u64, cadence: u64, cap: int, gap: int)
    requires
        stops_often(stops, stop as int, gap),
        stop + gap <= cap,
        upto < next,
        cadence >= 1,
        gap >= 0,
    ensures
        ({
            let r = publish_points(stops, upto, next, stop, cadence, cap);
            let slack = 0x10_0000 + gap;
            &&& next + slack <= stop ==> r.len() > 0 && r[0] < next + slack
            &&& forall|i: int| 0 <= i && i + 1 < r.len() ==> #[trigger] r[i + 1] < r[i] + cadence + slack
            &&& r.len() > 0 ==> stop < r.last() + cadence + slack
        }),
    decreases
        if stop > upto {
            stop - upto
        } else {
            0
        },
{
    let r = publish_points(stops, upto, next, stop, cadence, cap);
    if upto < stop {
        let soft = least(upto + 0x10_0000, stop as int);
        assert(stop_near(stops, soft, gap));
        let w = choose|i: int| 0 <= i < stops.len() && soft <= #[trigger] stops[i] <= soft + gap;
        lemma_stop_found(stops, 0, w, soft, cap, gap);
        let s = stop_after(stops, 0, soft, cap)->Some_0;
        if next <= s <= stop {
            lemma_captures_keep_up(stops, s, s + cadence, stop, cadence, cap, gap);
            let rest = publish_points(stops, s, s + cadence, stop, cadence, cap);
            assert(r == seq![s] + rest);
            lemma_publish_points(stops, s, s + cadence, stop, cadence, cap);
            assert forall|i: int| 0 <= i && i + 1 < r.len() implies #[trigger] r[i + 1] < r[i] + cadence + 0x10_0000
                + gap by {
                assert(r[i + 1] == rest[i]);
                assert(i > 0 ==> r[i] == rest[i - 1]);
                if i > 0 {
                    assert(rest[(i - 1) + 1] < rest[i - 1] + cadence + 0x10_0000 + gap);
                }
            }
            if rest.len() > 0 {
                assert(r.last() == rest.last());
            }
        } else if s < next {
            lemma_captures_keep_up(stops, s, next, stop, cadence, cap, gap);
        } else {
            assert(s > stop);
            assert(publish_points(stops, s, next, stop, cadence, cap).len() == 0);
        }
    }
}

/// A strip is captured at the first stop past the median, so it covers the median
/// and little more.
pub proof fn lemma_capture_covers_median(stops: Seq<u64>, upto: u64, med: u64, cap: int, gap: int)
    requires
        stops_often(stops, med as int, gap),
        med + gap <= cap,
        upto < med,
        gap >= 0,
    ensures
        capture_end(stops, upto, med, cap) matches Some(s) && med <= s <= med + gap,
    decreases med - upto,
{
    let soft = least(upto + 0x10_0000, med as int);
    assert(stop_near(stops, soft, gap));
    let w = choose|i: int| 0 <= i < stops.len() && soft <= #[trigger] stops[i] <= soft + gap;
    lemma_stop_found(stops, 0, w, soft, cap, gap);
    let s = stop_after(stops, 0, soft, cap)->Some_0;
    if s < med {
        lemma_capture_covers_median(stops, s, med, cap, gap);
    }
}

} // verus!
