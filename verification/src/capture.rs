//! Building what jobs share: the captured strip of a prefix, and the schedule of
//! the captures of long-distance history.
//!
//! History can be captured only where its indexing comes to rest. These stops are
//! given as a list in ascending order.

use vstd::prelude::*;
use crate::chains::{link_range, Heads, LinkCfg};
use crate::driver::{frame_params, fresh, held, Drv, MatchGeneratorDriver, Mode};
use crate::driver_fill::{filled, swept, warmed, FillGrid};
use crate::driver_plan::chosen_strip;
use crate::hash::HASH_READ;
use crate::level::{InputShape, Level};
use crate::mt::{job_prepared, prepare_job_state, JobHistory, SPF_SEG};
use crate::params::{least, shaped, LdmArming, ReachChoice};
use crate::strip::{lemma_link_local, lemma_link_split, resume, strip_link, StripSnapshot};
use crate::tables::WIN_MAX;

verus! {

/// The first stop from the `i`th on that is neither below `soft` nor past `cap`.
pub open spec fn stop_after(stops: Seq<u64>, i: int, soft: int, cap: int) -> Option<u64>
    decreases stops.len() - i,
{
    if i < 0 || i >= stops.len() {
        None
    } else if soft <= stops[i] <= cap {
        Some(stops[i])
    } else {
        stop_after(stops, i + 1, soft, cap)
    }
}

/// Where a capture at `med` is taken: the fill goes from stop to stop, each a step
/// or more past the one before, to the first at or past `med`.
pub open spec fn capture_end(stops: Seq<u64>, upto: u64, med: u64, cap: int) -> Option<u64>
    decreases med - upto,
{
    match stop_after(stops, 0, least(upto + SPF_SEG, med as int), cap) {
        Some(s) => if s >= med || s <= upto {
            Some(s)
        } else {
            capture_end(stops, s, med, cap)
        },
        None => None,
    }
}

/// Where long-distance history is captured between `upto` and `stop`, starting at
/// `next` and then at least `cadence` apart.
pub open spec fn publish_points(stops: Seq<u64>, upto: u64, next: int, stop: u64, cadence: u64, cap: int) -> Seq<u64>
    decreases
        if stop > upto {
            stop - upto
        } else {
            0
        },
{
    if upto >= stop {
        Seq::empty()
    } else {
        match stop_after(stops, 0, least(upto + SPF_SEG, stop as int), cap) {
            Some(s) => if s <= upto {
                Seq::empty()
            } else if next <= s <= stop {
                seq![s] + publish_points(stops, s, s + cadence, stop, cadence, cap)
            } else {
                publish_points(stops, s, next, stop, cadence, cap)
            },
            None => Seq::empty(),
        }
    }
}

/// The first stop at or past `soft`, up to `cap`.
fn next_stop(stops: &[u64], soft: u64, cap: u64) -> (r: Option<u64>)
    ensures
        r == stop_after(stops@, 0, soft as int, cap as int),
        r matches Some(s) ==> soft <= s <= cap,
{
    let mut i: usize = 0;
    while i < stops.len()
        invariant
            i <= stops@.len(),
            stop_after(stops@, 0, soft as int, cap as int) == stop_after(stops@, i as int, soft as int, cap as int),
        decreases stops@.len() - i,
    {
        let s: u64 = stops[i];
        if soft <= s && s <= cap {
            return Some(s);
        }
        i = i + 1;
    }
    None
}

/// A matcher that builds the capture of a frame.
pub open spec fn builder(level: Level, shape: InputShape) -> Drv {
    job_prepared(fresh(0), level, shape, ReachChoice::Keep, LdmArming::JobPrefix, 0, 0)
}

/// One more step of a fill is a longer fill.
proof fn lemma_step(c: LinkCfg, w: Seq<u8>, h: Heads, from: int, to: int)
    requires
        0 <= from <= to,
        HASH_READ < to,
    ensures
        link_range(c, w, link_range(c, w, h, 0, from - HASH_READ, 3), resume(from), to - HASH_READ, 3) == link_range(
            c,
            w,
            h,
            0,
            to - HASH_READ,
            3,
        ),
{
    lemma_link_split(c, w, h, 0, from - HASH_READ, resume(from), to - HASH_READ);
}

/// Captures the strip of the first `med` bytes or a little more, for the jobs that
/// start past them. The capture is that of a single fill, whichever stops it went
/// through. There is none if no stop is near enough.
pub fn build_prefix_snapshot(src: &[u8], level: Level, shape: InputShape, med: u64, stops: &[u64]) -> (r: Option<
    StripSnapshot,
>)
    requires
        frame_params(
            level,
            (Mode { input: held(shape), reach_choice: ReachChoice::Keep, arming: LdmArming::JobPrefix, ..fresh(0).mode }),
        ).strategy is Chain,
        med + SPF_SEG <= WIN_MAX,
    ensures
        match capture_end(stops@, 0, med, least(med + SPF_SEG, src@.len() as int)) {
            Some(end) => {
                let whole = filled(builder(level, shape), src@.take(end as int), 0, FillGrid::Strip, true);
                &&& r matches Some(snap)
                &&& snap.upto == end
                &&& snap.table@ == whole.store.t
                &&& snap.chain@ == whole.store.ch
                &&& snap.origin == whole.mode.head_origin
            },
            None => r is None,
        },
{
    let mut driver: MatchGeneratorDriver = MatchGeneratorDriver::new_direct();
    prepare_job_state(&mut driver, level, shape, ReachChoice::Keep, LdmArming::JobPrefix, 0, 0);
    let ghost b = builder(level, shape);
    assert(driver@ == b);
    let empty: &[u8] = vstd::slice::slice_subrange(src, 0, 0);
    driver.prefill_window(empty, 0);
    let n: u64 = src.len() as u64;
    let cap: u64 = if n < med + SPF_SEG {
        n
    } else {
        med + SPF_SEG
    };
    let data: &[u8] = vstd::slice::slice_subrange(src, 0, cap as usize);
    let ghost s0 = swept(b.mode, b.store, FillGrid::Strip);
    let ghost h0 = Heads { t: s0.t, ch: s0.ch };
    let ghost c = strip_link(warmed(b.mode, false, FillGrid::Strip, true), 0);
    assert(driver@.store == s0);
    let mut upto: u64 = 0;
    loop
        invariant
            driver@.wf(),
            driver@.mode.params.strategy is Chain,
            strip_link(driver@.mode, 0) == c,
            driver@.mode.head_origin == c.origin,
            (Heads { t: driver@.store.t, ch: driver@.store.ch }) == link_range(c, data@, h0, 0, upto - HASH_READ, 3),
            upto <= cap == data@.len(),
            upto < med || upto == 0,
            cap <= med + SPF_SEG <= WIN_MAX,
            cap == least(med + SPF_SEG, src@.len() as int),
            data@ == src@.take(cap as int),
            capture_end(stops@, 0, med, cap as int) == capture_end(stops@, upto, med, cap as int),
            b == builder(level, shape),
            b.mode.params.strategy is Chain,
            s0 == swept(b.mode, b.store, FillGrid::Strip),
            h0 == (Heads { t: s0.t, ch: s0.ch }),
            c == strip_link(warmed(b.mode, false, FillGrid::Strip, true), 0),
        decreases med - upto,
    {
        let soft: u64 = if upto + SPF_SEG < med {
            upto + SPF_SEG
        } else {
            med
        };
        let stop: u64 = match next_stop(stops, soft, cap) {
            Some(s) => s,
            None => {
                return None;
            },
        };
        driver.strip_fill_segment(data, 0, upto as usize, stop as usize);
        proof {
            if stop > HASH_READ {
                lemma_step(c, data@, h0, upto as int, stop as int);
            }
        }
        upto = stop;
        if upto >= med {
            proof {
                let w = src@.take(upto as int);
                lemma_link_local(c, data@, w, h0, 0, upto - HASH_READ);
                let whole = filled(b, w, 0, FillGrid::Strip, true);
                assert(whole.store.t == driver@.store.t);
                assert(whole.store.ch == driver@.store.ch);
            }
            return Some(driver.snapshot_strip_fill(upto));
        }
    }
}

/// Where the long-distance history of an input of `len` bytes is captured, from
/// `med` to `stop`. The fill goes from stop to stop and captures at the first past
/// `med`, then at the first that lies `cadence` past the last capture.
pub fn build_ldm_prefix_chain(len: u64, med: u64, stop: u64, cadence: u64, stops: &[u64]) -> (r: Vec<u64>)
    requires
        stop + SPF_SEG <= u64::MAX,
        stop + cadence <= u64::MAX,
    ensures
        r@ == publish_points(stops@, 0, med as int, stop, cadence, least(stop + SPF_SEG, len as int)),
{
    let cap: u64 = if len < stop + SPF_SEG {
        len
    } else {
        stop + SPF_SEG
    };
    let mut r: Vec<u64> = Vec::new();
    let mut upto: u64 = 0;
    let mut next: u64 = med;
    let ghost all = publish_points(stops@, 0, med as int, stop, cadence, cap as int);
    assert(all =~= r@ + all);
    while upto < stop
        invariant
            stop + SPF_SEG <= u64::MAX,
            stop + cadence <= u64::MAX,
            all == publish_points(stops@, 0, med as int, stop, cadence, cap as int),
            cap == least(stop + SPF_SEG, len as int),
            all == r@ + publish_points(stops@, upto, next as int, stop, cadence, cap as int),
        decreases
            if stop > upto {
                stop - upto
            } else {
                0
            },
    {
        let soft: u64 = if upto + SPF_SEG < stop {
            upto + SPF_SEG
        } else {
            stop
        };
        let s: u64 = match next_stop(stops, soft, cap) {
            Some(s) => s,
            None => {
                assert(all =~= r@);
                return r;
            },
        };
        let ghost rest = publish_points(stops@, s, s + cadence, stop, cadence, cap as int);
        let ghost r0 = r@;
        if s >= next && s <= stop {
            r.push(s);
            next = s + cadence;
            assert(r0 + (seq![s] + rest) =~= r@ + rest);
        }
        upto = s;
    }
    assert(all =~= r@);
    r
}

/// The captures of long-distance history lie between the median and the last job,
/// at least the cadence apart.
pub proof fn lemma_publish_points(stops: Seq<u64>, upto: u64, next: int, stop: u64, cadence: u64, cap: int)
    ensures
        ({
            let r = publish_points(stops, upto, next, stop, cadence, cap);
            &&& forall|i: int| 0 <= i < r.len() ==> next <= #[trigger] r[i] <= stop
            &&& forall|i: int, j: int| 0 <= i < j < r.len() ==> #[trigger] r[i] + cadence <= #[trigger] r[j]
        }),
    decreases
        if stop > upto {
            stop - upto
        } else {
            0
        },
{
    let r = publish_points(stops, upto, next, stop, cadence, cap);
    let at = stop_after(stops, 0, least(upto + SPF_SEG, stop as int), cap);
    if upto >= stop || at is None || at->0 <= upto {
        assert(r.len() == 0);
    } else {
        let s = at->0;
        lemma_publish_points(stops, s, s + cadence, stop, cadence, cap);
        lemma_publish_points(stops, s, next, stop, cadence, cap);
        if next <= s <= stop {
            let rest = publish_points(stops, s, s + cadence, stop, cadence, cap);
            assert(r == seq![s] + rest);
            assert forall|i: int| 0 <= i < r.len() implies next <= #[trigger] r[i] <= stop by {
                assert(i > 0 ==> r[i] == rest[i - 1]);
            }
            assert forall|i: int, j: int| 0 <= i < j < r.len() implies #[trigger] r[i] + cadence <= #[trigger] r[j] by {
                assert(r[j] == rest[j - 1]);
                assert(i > 0 ==> r[i] == rest[i - 1]);
            }
        } else {
            assert(r == publish_points(stops, s, next, stop, cadence, cap));
        }
    }
}

/// Bytes below its start that a job's tables cover: its strip, or only the reach
/// of its chain where long-distance matching has the rest.
pub fn chain_overlap(history: JobHistory, overlap: u64, level: Level, shape: InputShape, choice: ReachChoice) -> (r: u64)
    ensures
        r == match history {
            JobHistory::Windowed => chosen_strip(shaped(level, shape), choice) as int,
            _ => overlap as int,
        },
{
    match history {
        JobHistory::Windowed => MatchGeneratorDriver::strip_for_choice(level, shape, choice),
        _ => overlap,
    }
}

} // verus!
