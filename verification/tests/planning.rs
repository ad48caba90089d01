use zstdx::capture::{build_ldm_prefix_chain, build_prefix_snapshot, chain_overlap};
use zstdx::driver::MatchGeneratorDriver;
use zstdx::driver_plan::fast_row_screen_pending;
use zstdx::level::{InputShape, Level};
use zstdx::mt::{
    capture_grid, capture_job_size, donates, donation_arming, job_history, job_range, job_size_for, mt_capture_window,
    mt_engages, mt_job_size_for, newest_snapshot, next_span_block, plan_jobs, plan_prefix_ldm, prepare_job_state,
    ramp_depth, JobHistory, PrefixPlan,
};
use zstdx::params::{LdmArming, ReachChoice, LDM_FULL_WINDOW};
use zstdx::pre_split::{split_block, FrameSavings, SplitLevel, SPLIT_BLOCK};
use zstdx::reach_probe::{eligible, is_uniform, next_probe_block, probe_reach_choice, start_probe, ProbeStats, PROBE_SPAN};
use zstdx::scan::MAX_BLOCK_SIZE;

fn pattern_head(len: usize) -> Vec<u8> {
    let mut patterns = Vec::new();
    let mut state = 0x243f_6a88_85a3_08d3u64;
    for _ in 0..96 {
        state = state.wrapping_mul(6364136223846793005).wrapping_add(1);
        patterns.push(state.to_le_bytes());
    }
    let mut head = Vec::with_capacity(len);
    let mut pick = 0xdead_beef_cafeu64;
    while head.len() < len {
        pick = pick.wrapping_mul(6364136223846793005).wrapping_add(1);
        head.extend_from_slice(&patterns[(pick >> 33) as usize % 96]);
    }
    head
}

fn lcg(len: usize) -> Vec<u8> {
    let mut state = 0x1234_5678_9abc_def0u64;
    (0..len)
        .map(|_| {
            state ^= state << 13;
            state ^= state >> 7;
            state ^= state << 17;
            (state & 0xff) as u8
        })
        .collect()
}

fn textish(len: usize) -> Vec<u8> {
    let words: [&[u8]; 13] = [
        b"the ", b"quick ", b"brown ", b"fox ", b"jumps ", b"over ", b"lazy ", b"dog ", b"lorem ", b"ipsum ", b"dolor ",
        b"sit ", b"amet ",
    ];
    let mut state = 7u64;
    let mut out = Vec::with_capacity(len);
    while out.len() < len {
        state = state.wrapping_mul(6364136223846793005).wrapping_add(1);
        let w = words[((state >> 33) as usize) % words.len()];
        let take = w.len().min(len - out.len());
        out.extend_from_slice(&w[..take]);
    }
    out
}

#[test]
fn donation_arming_pairs_with_the_capture_plan() {
    let src = pattern_head(MAX_BLOCK_SIZE);
    let mib: u64 = 1024 * 1024;
    let cases: &[(u64, u32, Option<u32>, bool)] = &[
        (24 * mib, 2, None, true),
        (17 * mib, 4, None, true),
        (128 * mib, 4, Some(25), true),
        (64 * mib, 4, None, true),
        (8 * mib, 4, None, false),
    ];
    for &(len, workers, window_log, engages) in cases {
        let shape = InputShape { len: Some(len), window_log };
        let strip = MatchGeneratorDriver::strip_for_choice(Level::Balanced, shape, ReachChoice::Keep);
        let job_size = capture_grid(len, Level::Balanced, shape, ReachChoice::Keep, &src, None)
            .unwrap_or_else(|| job_size_for(len, workers.max(2), strip));
        let plan = plan_prefix_ldm(len, Level::Balanced, shape, ReachChoice::Keep, job_size, &src, None);
        assert_eq!(plan.is_some(), engages, "len {len} workers {workers} window_log {window_log:?}");
        assert_eq!(
            donation_arming(plan.is_some()),
            if engages { LdmArming::JobPrefix } else { LdmArming::Job }
        );
        let whole = plan_jobs(len, workers, Level::Balanced, shape, ReachChoice::Keep, &src, None);
        assert_eq!(whole.prefix, plan);
        assert_eq!(whole.arming, donation_arming(engages));
    }
    let shape = InputShape { len: Some(24 * mib), window_log: None };
    let strip = MatchGeneratorDriver::strip_for_choice(Level::Balanced, shape, ReachChoice::Keep);
    let job_size = job_size_for(24 * mib, 2, strip);
    let plan = plan_prefix_ldm(
        24 * mib,
        Level::Balanced,
        shape,
        ReachChoice::Keep,
        job_size,
        &vec![0u8; MAX_BLOCK_SIZE],
        None,
    );
    assert_eq!(plan.is_some(), false);
    assert_eq!(donation_arming(plan.is_some()), LdmArming::Job);
}

#[test]
fn fast_row_fullband_capture_engages_on_geometry() {
    let parses = pattern_head(MAX_BLOCK_SIZE);
    let rejects = lcg(MAX_BLOCK_SIZE);
    let shape = InputShape { len: Some(100 * 1024 * 1024), window_log: None };
    for level in [Level::Fastest, Level::Fast] {
        for (name, head) in [("parses", &parses), ("random", &rejects)] {
            let fast_window = mt_capture_window(level, shape, false);
            assert_eq!(fast_window, Some(LDM_FULL_WINDOW as u64), "{level:?} {name}");
            let grid = capture_grid(100 * 1024 * 1024, level, shape, ReachChoice::Keep, head, fast_window);
            assert_eq!(grid.is_some(), name == "parses", "{level:?} {name}");
        }
    }
}

#[test]
fn screened_frames_are_captured_below_the_full_length() {
    let mib = 1024 * 1024u64;
    let shape = InputShape { len: Some(40 * mib), window_log: None };
    assert!(fast_row_screen_pending(Level::Fastest, shape));
    assert!(!fast_row_screen_pending(Level::Balanced, shape));
    assert!(!fast_row_screen_pending(Level::Fastest, shape.with_len(100 * mib)));
    assert_eq!(mt_capture_window(Level::Fastest, shape, false), None);
    assert_eq!(mt_capture_window(Level::Fastest, shape, true), Some(LDM_FULL_WINDOW as u64));
    assert_eq!(mt_capture_window(Level::Balanced, shape, true), None);
    // The screen's verdict stands in for the look at the head.
    let fast = mt_capture_window(Level::Fastest, shape, true);
    let plan = plan_jobs(40 * mib, 4, Level::Fastest, shape, ReachChoice::Keep, &lcg(1000), fast);
    assert!(matches!(plan.prefix, Some(PrefixPlan::SelfFill { .. })));
    assert_eq!(plan.window, LDM_FULL_WINDOW as u64);
    assert_eq!(plan.overlap, plan.window);
}

#[test]
fn ramp_arm_still_arms_chain_rows() {
    let mut driver = MatchGeneratorDriver::new_direct();
    driver.set_ldm_arming(LdmArming::Frame);
    driver.set_reach_choice(ReachChoice::Keep);
    driver.reset(Level::Balanced);
    driver.arm_ramp(1 << 20, 1 << 20);
    assert!(driver.mode.ramp.is_armed());
    assert_eq!((driver.mode.ramp.start, driver.mode.ramp.end, driver.mode.ramp.depth), (1 << 20, 1 << 21, 1 << 20));
    driver.arm_ramp(1 << 20, 0);
    assert!(!driver.mode.ramp.is_armed());
}

#[test]
fn gate_semantics() {
    let block = vec![7u8; SPLIT_BLOCK];
    let mut savings = FrameSavings::new();
    assert_eq!(savings.block_size(&block, Some(SplitLevel::Borders)), SPLIT_BLOCK);
    assert_eq!(savings.block_size(&block, None), SPLIT_BLOCK);
    let short = vec![7u8; SPLIT_BLOCK - 1];
    assert_eq!(savings.block_size(&short, Some(SplitLevel::Borders)), SPLIT_BLOCK - 1);
    let mut proven = FrameSavings::new();
    proven.note_block(SPLIT_BLOCK, 1024);
    assert_eq!(proven.block_size(&block, Some(SplitLevel::Borders)), SPLIT_BLOCK);
    let mut wide = Vec::with_capacity(SPLIT_BLOCK);
    let mut x = 0x9e37_79b9_7f4a_7c15u64;
    while wide.len() < SPLIT_BLOCK {
        x ^= x << 13;
        x ^= x >> 7;
        x ^= x << 17;
        wide.extend_from_slice(&x.to_le_bytes());
    }
    let a = proven.block_size(&wide, Some(SplitLevel::Borders));
    let b = proven.block_size(&wide, Some(SplitLevel::Borders));
    assert_eq!(a, b);
}

/// A change of content is cut where it happens, to the chunk.
#[test]
fn cuts_fall_between_unlike_contents() {
    let mut block = vec![b'a'; SPLIT_BLOCK];
    for (i, b) in block[40 * 1024..].iter_mut().enumerate() {
        *b = 128 + (i % 100) as u8;
    }
    for row in 0..4 {
        assert_eq!(split_block(&block, SplitLevel::chunked(row)), 40 * 1024, "row {row}");
    }
    assert_eq!(split_block(&vec![3u8; SPLIT_BLOCK], SplitLevel::chunked(3)), SPLIT_BLOCK);
    // Borders: unlike ones, and the middle like the last or the first.
    assert_eq!(split_block(&block, SplitLevel::Borders), 32 * 1024);
    let mut late = vec![b'a'; SPLIT_BLOCK];
    for (i, b) in late[100 * 1024..].iter_mut().enumerate() {
        *b = 128 + (i % 100) as u8;
    }
    assert_eq!(split_block(&late, SplitLevel::Borders), 96 * 1024);
    let mut even = late.clone();
    for (i, b) in even[SPLIT_BLOCK / 2 - 256..SPLIT_BLOCK / 2 + 256].iter_mut().enumerate() {
        *b = (i % 60) as u8;
    }
    assert_eq!(split_block(&even, SplitLevel::Borders), 64 * 1024);
    assert_eq!(split_block(&vec![3u8; SPLIT_BLOCK], SplitLevel::Borders), SPLIT_BLOCK);
}

#[test]
fn split_efforts() {
    assert_eq!(SplitLevel::from_effort(0), Some(SplitLevel::Borders));
    assert_eq!(SplitLevel::from_effort(1), Some(SplitLevel::Chunks { rate: 43, hash_log: 8 }));
    assert_eq!(SplitLevel::from_effort(4), Some(SplitLevel::Chunks { rate: 1, hash_log: 10 }));
    assert_eq!(SplitLevel::from_effort(5), None);
    let mut driver = MatchGeneratorDriver::new_direct();
    for (level, effort) in [(1, 255), (3, 255), (6, 2), (8, 3), (9, 3), (17, 255)] {
        driver.reset(Level::from_zstd(level));
        assert_eq!(driver.pre_split_effort(), effort, "level {level}");
    }
}

#[test]
fn narrow_frames_are_never_cut() {
    let mut s = FrameSavings::new();
    s.note_block(SPLIT_BLOCK, 100);
    let narrow = vec![9u8; SPLIT_BLOCK];
    for _ in 0..4 {
        assert_eq!(s.block_size(&narrow, Some(SplitLevel::chunked(1))), SPLIT_BLOCK);
    }
    assert_eq!(s.screened, 4);
    // A wide block after that changes nothing.
    let wide = lcg(SPLIT_BLOCK);
    s.block_size(&wide, Some(SplitLevel::chunked(1)));
    assert!(!s.armed);
    s.note_block(10, 20);
    assert_eq!(s.savings, SPLIT_BLOCK as i64 - 100 - 10);
}

#[test]
fn ineligible_shapes_keep() {
    let data = textish(PROBE_SPAN);
    let small = InputShape::default().with_len(PROBE_SPAN as u64);
    assert_eq!(probe_reach_choice(&data, Level::from_zstd(9), small, true), ReachChoice::Keep);
    let unpledged = InputShape::default();
    assert_eq!(probe_reach_choice(&data, Level::from_zstd(9), unpledged, true), ReachChoice::Keep);
    let pledged = InputShape::default().with_len(16 * 1024 * 1024);
    assert_eq!(probe_reach_choice(&data, Level::from_zstd(10), pledged, true), ReachChoice::Keep);
    let forced = pledged.with_window_log(20);
    assert_eq!(probe_reach_choice(&data, Level::from_zstd(9), forced, true), ReachChoice::Keep);
}

#[test]
fn eligible_shapes_follow_the_verdict() {
    let data = textish(PROBE_SPAN);
    let pledged = InputShape::default().with_len(16 * 1024 * 1024);
    assert!(eligible(Level::Balanced, pledged));
    assert_eq!(probe_reach_choice(&data, Level::Balanced, pledged, true), ReachChoice::Shrink);
    assert_eq!(probe_reach_choice(&data, Level::Balanced, pledged, false), ReachChoice::Keep);
    assert_eq!(probe_reach_choice(&data[1..], Level::Balanced, pledged, true), ReachChoice::Keep);
}

/// The probe's two parses differ only in their reach, and each is repeatable.
#[test]
fn probe_parses_are_repeatable() {
    let head = textish(512 * 1024);
    let shape = InputShape::default().with_len(16 * 1024 * 1024);
    let mut driver = MatchGeneratorDriver::new_direct();
    let mut cost = |choice: ReachChoice| -> (u64, u64) {
        start_probe(&mut driver, Level::Balanced, shape, choice);
        let mut stats = ProbeStats::new();
        let mut pos = 0;
        while pos < head.len() {
            let end = next_probe_block(&mut driver, &head, pos);
            assert!(!is_uniform(driver.get_last_space()));
            let (mut lits, mut seqs) = (Vec::new(), Vec::new());
            driver.start_matching_codes(&mut lits, &mut seqs);
            stats.absorb_probe_stats(&lits, &seqs, driver.get_last_space());
            pos = end;
        }
        (stats.lit_hist.iter().sum(), stats.seq_bits)
    };
    let keep = cost(ReachChoice::Keep);
    let shrink = cost(ReachChoice::Shrink);
    assert_eq!(keep, cost(ReachChoice::Keep));
    assert_eq!(shrink, cost(ReachChoice::Shrink));
    assert!(keep.1 > 0 && shrink.1 > 0);
    assert_ne!(keep, shrink);
}

#[test]
fn uniform_blocks() {
    assert!(is_uniform(b""));
    assert!(is_uniform(b"aaaa"));
    assert!(!is_uniform(b"aaab"));
}

#[test]
fn job_sizes() {
    let mib = 1024 * 1024u64;
    assert_eq!(job_size_for(16 * mib, 4, 0), 2 * mib);
    assert_eq!(job_size_for(16 * mib + 1, 4, 0), 2 * mib + 1);
    assert_eq!(job_size_for(mib, 8, 0), mib);
    assert_eq!(job_size_for(16 * mib, 8, 4 * mib), 4 * mib);
    assert_eq!(job_size_for(1 << 40, 2, 0), 1024 * mib);
    assert_eq!(capture_job_size(32 * mib, 4 * mib), 4 * mib);
    assert_eq!(capture_job_size(104 * mib, 4 * mib), 13 * mib);
    assert_eq!(capture_job_size(1 << 32, 4 * mib), 16 * mib);
    let shape = InputShape::default().with_len(16 * mib);
    let s = mt_job_size_for(16 * mib, 1, Level::Fastest, shape, &[], ReachChoice::Keep, None);
    assert_eq!(s, job_size_for(16 * mib, 2, MatchGeneratorDriver::strip_for_level(Level::Fastest, shape)));
}

/// Captured frames are cut alike for any number of workers.
#[test]
fn captured_grid_ignores_workers() {
    let mib = 1024 * 1024u64;
    let head = pattern_head(MAX_BLOCK_SIZE);
    let shape = InputShape::default().with_len(76 * mib);
    let a = plan_jobs(76 * mib, 4, Level::Balanced, shape, ReachChoice::Keep, &head, None);
    let b = plan_jobs(76 * mib, 8, Level::Balanced, shape, ReachChoice::Keep, &head, None);
    assert_eq!((a.job_size, a.n_jobs, a.overlap, a.prefix), (b.job_size, b.n_jobs, b.overlap, b.prefix));
    assert_eq!((a.n_jobs, a.job_size), (8, 76 * mib / 8));
    assert_eq!((a.threads, b.threads), (4, 8));
    match a.prefix {
        Some(PrefixPlan::Windowed { med, stop, cadence }) => {
            assert_eq!(stop, 7 * a.job_size);
            assert_eq!(med, 4 * a.job_size);
            assert_eq!(cadence, (stop - med) / 12);
        }
        _ => unreachable!(),
    }
}

#[test]
fn jobs_tile_the_input() {
    let len = 10_000_123u64;
    let size = 1_300_000u64;
    let mut at = 0;
    for i in 0..len.div_ceil(size) {
        let (start, end) = job_range(len, size, i);
        assert_eq!(start, at);
        assert!(start < end);
        at = end;
    }
    assert_eq!(at, len);
}

#[test]
fn jobs_pick_their_history() {
    let whole = Some(PrefixPlan::Whole { med: 100 });
    assert_eq!(job_history(None, 500, None), JobHistory::Strip);
    assert_eq!(job_history(whole, 100, Some(50)), JobHistory::Strip);
    assert_eq!(job_history(whole, 200, Some(150)), JobHistory::Snapshot);
    assert_eq!(job_history(whole, 200, Some(200)), JobHistory::Strip);
    assert_eq!(job_history(whole, 200, None), JobHistory::Strip);
    let windowed = Some(PrefixPlan::Windowed { med: 100, stop: 900, cadence: 10 });
    assert_eq!(job_history(windowed, 101, None), JobHistory::Windowed);
    assert_eq!(job_history(Some(PrefixPlan::SelfFill { med: 100 }), 101, None), JobHistory::Windowed);
    assert_eq!(job_history(Some(PrefixPlan::SelfFill { med: 100 }), 100, None), JobHistory::Strip);
    assert_eq!(newest_snapshot(&[10, 20, 30], 25), Some(1));
    assert_eq!(newest_snapshot(&[10, 20, 30], 5), None);
}

#[test]
fn fallbacks() {
    let mib = 1024 * 1024u64;
    assert!(mt_engages(2 * mib, 2, Level::Fastest, 2));
    assert!(!mt_engages(2 * mib - 1, 2, Level::Fastest, 2));
    assert!(!mt_engages(2 * mib, 1, Level::Fastest, 2));
    assert!(!mt_engages(2 * mib, 2, Level::Uncompressed, 2));
    assert!(!mt_engages(2 * mib, 2, Level::Fastest, 1));
    let shape = InputShape::default().with_len(64 * mib);
    assert!(donates(64 * mib, 4, Level::Balanced, shape));
    assert!(!donates(64 * mib, 4, Level::Fastest, shape));
    assert_eq!(ramp_depth(u64::MAX, None), 0);
    assert_eq!(ramp_depth(u64::MAX, Some(7)), 7);
    assert_eq!(ramp_depth(3, Some(7)), 3);
}

#[test]
fn only_the_first_job_knows_the_offsets() {
    let mut driver = MatchGeneratorDriver::new_direct();
    let shape = InputShape::default().with_len(16 << 20);
    prepare_job_state(&mut driver, Level::Fastest, shape, ReachChoice::Keep, LdmArming::Job, 0, 4096);
    assert_eq!(driver.carry.pending, 0);
    assert!(!driver.mode.ramp.is_armed());
    prepare_job_state(&mut driver, Level::Fastest, shape, ReachChoice::Keep, LdmArming::Job, 1 << 20, 4096);
    assert_eq!(driver.carry.pending, 3);
    assert_eq!(driver.mode.ramp.end, (1 << 20) + 4096);
}

/// A span is cut into blocks that follow each other.
#[test]
fn span_blocks_follow_each_other() {
    let head = textish(400 * 1024);
    let mut driver = MatchGeneratorDriver::new_direct();
    driver.reset(Level::Balanced);
    let mut split = FrameSavings::new();
    let mut cursor = 0;
    let mut rebuilt = Vec::new();
    while cursor < head.len() {
        let end = next_span_block(&mut driver, &mut split, &head, cursor);
        assert!(cursor < end && end <= head.len() && end - cursor <= MAX_BLOCK_SIZE);
        rebuilt.extend_from_slice(driver.get_last_space());
        driver.leave_out();
        split.note_block(end - cursor, 10);
        cursor = end;
    }
    assert_eq!(rebuilt, head);
}

#[test]
fn strips_and_overlaps() {
    let known = InputShape::default().with_len(1 << 28);
    assert_eq!(MatchGeneratorDriver::window_for_level(Level::Balanced, known), 1 << 26);
    assert_eq!(MatchGeneratorDriver::strip_for_level(Level::Balanced, known), 1 << 22);
    assert_eq!(MatchGeneratorDriver::stream_overlap_for(Level::Balanced, known), 1 << 26);
    assert_eq!(MatchGeneratorDriver::stream_overlap_for(Level::Opt, known), 1 << 23);
    // Odd windows are rounded up once the length is known.
    assert_eq!(MatchGeneratorDriver::window_for_level(Level::Fastest, InputShape::default()), 0xc0000);
    assert_eq!(MatchGeneratorDriver::window_for_level(Level::Fastest, known), 0x10_0000);
    assert_eq!(
        MatchGeneratorDriver::strip_for_choice(Level::Balanced, known, ReachChoice::Shrink),
        1 << 12
    );
    assert!(MatchGeneratorDriver::reach_probe_eligible(Level::Balanced, known));
    assert!(!MatchGeneratorDriver::reach_probe_eligible(Level::Opt, known));
    let mut driver = MatchGeneratorDriver::new(128 * 1024);
    driver.set_input_shape(InputShape::default().with_len(1 << 20).with_window_log(11));
    driver.reset(Level::Fastest);
    assert_eq!(driver.block_size(), 2048);
    assert_eq!(driver.window_size(), 2048);
}

/// Widened windows of the fast rows.
#[test]
fn long_inputs_widen_the_fast_rows() {
    let mut driver = MatchGeneratorDriver::new_direct();
    driver.set_input_shape(InputShape::default().with_len(1 << 26));
    driver.reset(Level::Fast);
    assert_eq!(driver.window_size(), 1 << 26);
    assert_eq!(driver.mode.params.chain_reach, Some(0x20_0000));
    assert!(driver.mode.ldm.on);
    driver.set_ldm_arming(LdmArming::Job);
    driver.reset(Level::Fast);
    assert_eq!(driver.window_size(), 0x20_0000);
    assert!(!driver.mode.ldm.on);
}

/// A captured strip is that of one fill, whichever stops the fill went through.
#[test]
fn captured_strip_is_a_single_fill() {
    let mib = 1024 * 1024usize;
    let src = textish(5 * mib);
    let shape = InputShape::default().with_len(32 << 20);
    let end = 3 * mib as u64 + 77;
    let whole = {
        let mut driver = MatchGeneratorDriver::new_direct();
        prepare_job_state(&mut driver, Level::Balanced, shape, ReachChoice::Keep, LdmArming::JobPrefix, 0, 0);
        driver.prefill_window(&src[..end as usize], 0);
        driver.snapshot_strip_fill(end)
    };
    for stops in [
        vec![mib as u64 + 5, 2 * mib as u64 + 5, end],
        vec![4, 1_500_000, 2_600_000, end, end + 1],
        vec![end],
    ] {
        let snap = build_prefix_snapshot(&src, Level::Balanced, shape, 3 * mib as u64, &stops).unwrap();
        assert_eq!(snap.upto, end);
        assert_eq!(snap.origin, whole.origin);
        assert!(snap.table == whole.table);
        assert!(snap.chain == whole.chain);
    }
    // The next stop is a step too far, or there is none.
    for stops in [vec![], vec![mib as u64 + 5], vec![5 * mib as u64]] {
        assert!(build_prefix_snapshot(&src, Level::Balanced, shape, 3 * mib as u64, &stops).is_none());
    }
}

#[test]
fn far_history_is_captured_at_the_cadence() {
    let mib = 1024 * 1024u64;
    let stops: Vec<u64> = (1..100).map(|i| i * mib + 10).collect();
    let points = build_ldm_prefix_chain(64 * mib, 20 * mib, 50 * mib, 7 * mib, &stops);
    assert_eq!(points, [20, 27, 34, 41, 48].map(|i| i * mib + 10).to_vec());
    assert!(build_ldm_prefix_chain(64 * mib, 20 * mib, 50 * mib, 7 * mib, &[]).is_empty());
    // Nothing past the last job's start.
    assert!(build_ldm_prefix_chain(64 * mib, 20 * mib, 50 * mib, 7 * mib, &[50 * mib + 1]).is_empty());
}

#[test]
fn windowed_jobs_index_the_reach_alone() {
    let shape = InputShape::default().with_len(1 << 28);
    let at = |h: JobHistory| chain_overlap(h, 77, Level::Balanced, shape, ReachChoice::Keep);
    assert_eq!(at(JobHistory::Strip), 77);
    assert_eq!(at(JobHistory::Snapshot), 77);
    assert_eq!(at(JobHistory::Windowed), 1 << 22);
}

/// An input of no bytes has no jobs whose strips could be captured, and a start that is
/// longer than a block counts as far as its first block.
#[test]
fn plans_take_any_length() {
    let shape = InputShape::default().with_len(100 << 20);
    let head = lcg(300 * 1024);
    for level in [Level::Fastest, Level::Balanced] {
        assert_eq!(capture_grid(0, level, shape, ReachChoice::Keep, &head, None), None);
        assert_eq!(plan_prefix_ldm(0, level, shape, ReachChoice::Keep, 1 << 20, &head, None), None);
        assert!(mt_job_size_for(0, 4, level, shape, &head, ReachChoice::Keep, None) > 0);
        let whole = plan_jobs(100 << 20, 4, level, shape, ReachChoice::Keep, &head, None);
        let first = plan_jobs(100 << 20, 4, level, shape, ReachChoice::Keep, &head[..128 * 1024], None);
        assert_eq!((whole.job_size, whole.n_jobs, whole.window), (first.job_size, first.n_jobs, first.window));
        assert_eq!((whole.overlap, whole.prefix, whole.arming), (first.overlap, first.prefix, first.arming));
    }
}
