use zstdx::driver::MatchGeneratorDriver;
use zstdx::driver_blocks::GateVerdict;
use zstdx::driver_fill::SmallDictRow;
use zstdx::frame::sequences;
use zstdx::gates::{seed_agrees, seed_confirms, seed_scan, SEED_CONFIRM_FAR, SEED_CONFIRM_MID, SEED_CONFIRM_NEAR};
use zstdx::hash::read8;
use zstdx::level::{InputShape, Level};
use zstdx::params::{ldm_min_window, BlockAction, HeadPhase, LazyStep, LdmArming, Strategy};
use zstdx::reach_probe::byte_hist;
use zstdx::scan::LdmSeq;
use zstdx::seq_codes::SeqWord;
use zstdx::sequence::{do_offset_history, Sequence};
use zstdx::tables::{pack_pos, unpack_pos};

const UNIT: usize = 64 * 1024;

fn xorshift(state: &mut u64) -> u64 {
    *state ^= *state << 13;
    *state ^= *state >> 7;
    *state ^= *state << 17;
    *state
}

fn block_label(i: usize) -> Vec<u8> {
    let mut v = Vec::new();
    v.extend_from_slice(b"block ");
    v.push(b'0' + i as u8);
    v.extend_from_slice(b" filler text; ");
    v
}

/// What a decoder makes of the steps of a block.
fn replay(steps: &[Sequence<'_>], rep: &mut [u32; 3], out: &mut Vec<u8>) {
    for step in steps {
        match step {
            Sequence::Literals { literals } => out.extend_from_slice(literals),
            Sequence::Triple { literals, offset, match_len } => {
                out.extend_from_slice(literals);
                let actual = do_offset_history(*offset as u32, literals.len() as u32, rep);
                let start = out.len() - actual as usize;
                for i in 0..*match_len {
                    let b = out[start + i];
                    out.push(b);
                }
            }
        }
    }
}

/// Parses the committed block by its row. There is no tree parse here that could take
/// the blocks of a frame's head, so the head is called off.
fn parse(driver: &mut MatchGeneratorDriver) -> (Vec<u8>, Vec<SeqWord>) {
    if driver.head_block() {
        driver.mode.head = HeadPhase::Off;
    }
    let mut literals = Vec::new();
    let mut seqs = Vec::new();
    driver.start_matching_codes(&mut literals, &mut seqs);
    (literals, seqs)
}

/// Parses all blocks of a frame and rebuilds it, collecting the offsets.
fn rebuild(driver: &mut MatchGeneratorDriver, data: &[u8], block: usize, offsets: &mut Vec<usize>) -> Vec<u8> {
    let mut rep = [1u32, 4, 8];
    let mut out = Vec::new();
    for chunk in data.chunks(block) {
        driver.commit_block(chunk);
        let (literals, seqs) = parse(driver);
        let steps = sequences(&literals, &seqs, driver.get_last_space());
        for step in &steps {
            if let Sequence::Triple { offset, .. } = step {
                offsets.push(*offset);
            }
        }
        replay(&steps, &mut rep, &mut out);
    }
    out
}

fn match_and_reconstruct(data: &[u8], block_size: usize) -> Vec<u8> {
    let mut driver = MatchGeneratorDriver::new(block_size);
    driver.reset(Level::Fastest);
    rebuild(&mut driver, data, block_size, &mut Vec::new())
}

/// Whether a block is too dense for an entropy coder, by its exact histogram.
fn dense(block: &[u8]) -> bool {
    let total = block.len() as f64;
    let mut bits = 0.0f64;
    let mut distinct = 0u32;
    for c in byte_hist(block) {
        if c > 0 {
            distinct += 1;
            bits -= c as f64 * (c as f64 / total).log2();
        }
    }
    bits / total + (distinct as f64 - 1.0) * 0.7213_4752_0559_1157 / total >= 7.97
}

/// Leaves the block out if it is incompressible.
fn skip_if_incompressible(driver: &mut MatchGeneratorDriver) -> bool {
    let verdict = dense(driver.get_last_space());
    driver.skip_if_incompressible(verdict)
}

fn wordy(len: usize) -> Vec<u8> {
    let words = [
        &b"the quick brown fox "[..],
        &b"jumps over the lazy dog "[..],
        &b"lorem ipsum dolor sit amet "[..],
        b"\x00\x01\x02\x03 structured noise ",
    ];
    let mut data = Vec::with_capacity(len);
    let mut state = 0x9e37_79b9_7f4a_7c15u64;
    while data.len() < len {
        let r = xorshift(&mut state);
        data.extend_from_slice(words[(r as usize) % words.len()]);
    }
    data
}

#[test]
fn strip_snapshot_adopt_is_exact() {
    let mut s = 0x1234_5678_9abc_def0u64;
    let head: Vec<u8> = (0..512 * 1024).map(|_| (xorshift(&mut s) & 0xff) as u8).collect();
    let mut data = head.clone();
    for _ in 0..(1024 * 1024 / 8) {
        data.extend_from_slice(&xorshift(&mut s).to_le_bytes());
    }
    data.extend_from_slice(&head);
    while data.len() < 4 * 1024 * 1024 {
        let n = data.len().min(1024);
        data.extend_from_slice(&head[..n]);
    }
    data.truncate(data.len() - 5);
    let (seg, med) = (1024 * 1024usize, 2 * 1024 * 1024usize);

    let fresh = || {
        let mut d = MatchGeneratorDriver::new_direct();
        d.set_ldm_arming(LdmArming::Job);
        d.reset(Level::Balanced);
        d
    };
    let mut stock = fresh();
    stock.prefill_job_strip(&data, 0);

    let mut builder = fresh();
    builder.prefill_window(&data[..0], 0);
    let mut from = 0usize;
    let mut upto;
    loop {
        upto = (from + seg).min(med);
        builder.strip_fill_segment(&data, 0, from, upto);
        from = upto;
        if upto >= med {
            break;
        }
    }
    let snap = builder.snapshot_strip_fill(upto as u64);
    builder.strip_fill_continue(&data, 0, upto);

    let mut adopted = fresh();
    adopted.adopt_strip_snapshot(&snap, &data, 0);

    assert_eq!(stock.tables.table, adopted.tables.table, "head grid tables diverge");
    assert_eq!(stock.tables.chain, adopted.tables.chain, "links diverge");
    assert_eq!(stock.tables.table, builder.tables.table, "builder head grid diverges");
    assert_eq!(stock.tables.chain, builder.tables.chain, "builder links diverge");
    assert_eq!(stock.carry.seed, adopted.carry.seed, "seed offset diverges");
    assert_eq!(stock.mode.head_origin, adopted.mode.head_origin);
    assert!(stock.tables.table.iter().any(|&e| e != 0));
}

#[test]
fn ldm_arming_bars() {
    assert_eq!(ldm_min_window(LdmArming::Frame), Some(1 << 25));
    assert_eq!(ldm_min_window(LdmArming::Job), Some(1 << 26));
    assert_eq!(ldm_min_window(LdmArming::FarDead), None);
    assert_eq!(ldm_min_window(LdmArming::ProbeKeep), None);
}

#[test]
fn reconstructs_short_runs() {
    let mut data = Vec::new();
    data.extend([0u8; 16]);
    data.extend([1u8, 2, 3, 4, 5, 6]);
    data.extend([1u8, 2, 3, 4, 5, 6]);
    data.extend([0u8; 8]);
    assert_eq!(match_and_reconstruct(&data, 8), data);
    assert_eq!(match_and_reconstruct(&data, 4), data);
}

#[test]
fn reconstructs_tiny_rep_inputs() {
    for data in [
        &[0x0fu8; 6][..],
        &[0x0f, 0x0f, 0x0f, 0x0f, 0x0f, 0x0f, 0x2a, 0xff][..],
        &[0x0f, 0x0f, 0x0f, 0x0f, 0x0f, 0x0f, 0x2a, 0x90][..],
    ] {
        assert_eq!(&match_and_reconstruct(data, 8)[..], data);
    }
}

#[test]
fn reconstructs_across_blocks() {
    let mut data = Vec::new();
    for i in 0..10 {
        data.extend_from_slice(&[0xa5, 0x5a, 0xc3, 0x3c, 0x99, 0x66, 0xf0, 0x0f]);
        data.extend_from_slice(&block_label(i));
    }
    assert_eq!(match_and_reconstruct(&data, 32), data);
    assert_eq!(match_and_reconstruct(&data, 128 * 1024), data);
}

#[test]
fn reconstructs_random() {
    let mut state = 0x1234_5678_9abc_def0u64;
    let mut data = Vec::with_capacity(300 * 1024);
    while data.len() < 300 * 1024 {
        data.extend_from_slice(&xorshift(&mut state).to_le_bytes());
    }
    assert_eq!(match_and_reconstruct(&data, 64 * 1024), data);
}

#[test]
fn reconstructs_after_compaction() {
    let mut data = Vec::with_capacity(3 << 20);
    for i in 0..(3 << 20) / 64 {
        data.push((i % 251) as u8);
        data.extend(&[7u8; 63]);
    }
    assert_eq!(match_and_reconstruct(&data, 128 * 1024), data);
}

#[test]
fn ldm_row_covers_beyond_chain_reach() {
    let mut state = 0x0123_4567_89ab_cdefu64;
    let mut data = Vec::with_capacity(6 * 1024 * 1024);
    for _ in 0..80 {
        for _ in 0..UNIT {
            data.push((xorshift(&mut state) >> 32) as u8);
        }
    }
    for i in 0..16 {
        let unit: Vec<u8> = data[i * UNIT..(i + 1) * UNIT].to_vec();
        data.extend_from_slice(&unit);
    }
    let mut driver = MatchGeneratorDriver::new(128 * 1024);
    driver.reset(Level::Balanced);
    let mut rep = [1u32, 4, 8];
    let mut out = Vec::new();
    let mut far = false;
    for chunk in data.chunks(128 * 1024) {
        let start = out.len();
        driver.commit_block(chunk);
        // The copies lie eighty units back.
        let mut found = Vec::new();
        if start >= 80 * UNIT {
            found.push(LdmSeq { split: start as u64, offset: (80 * UNIT) as u32, len: chunk.len() as u32 });
        }
        driver.ldm_generate(&found);
        let (literals, seqs) = parse(&mut driver);
        let steps = sequences(&literals, &seqs, driver.get_last_space());
        for step in &steps {
            if let Sequence::Triple { offset, .. } = step {
                far |= *offset > (1 << 22);
            }
        }
        replay(&steps, &mut rep, &mut out);
    }
    assert_eq!(out, data);
    assert!(far, "no sequence beyond the chain reach");
}

/// Parses copies that lie `back` units behind, with one candidate per block on offer,
/// and says whether an offset beyond `reach` came out.
fn covers_beyond(driver: &mut MatchGeneratorDriver, data: &[u8], back: usize, reach: usize) -> bool {
    let mut rep = [1u32, 4, 8];
    let mut out = Vec::new();
    let mut far = false;
    for chunk in data.chunks(128 * 1024) {
        let start = out.len();
        driver.commit_block(chunk);
        let mut found = Vec::new();
        if start >= back * UNIT {
            found.push(LdmSeq { split: start as u64, offset: (back * UNIT) as u32, len: chunk.len() as u32 });
        }
        driver.ldm_generate(&found);
        let (literals, seqs) = parse(driver);
        let steps = sequences(&literals, &seqs, driver.get_last_space());
        for step in &steps {
            if let Sequence::Triple { offset, .. } = step {
                far |= *offset > reach;
            }
        }
        replay(&steps, &mut rep, &mut out);
    }
    assert_eq!(out, data);
    far
}

#[test]
fn ldm_high_rows_cover_beyond_tree_domain() {
    let mut state = 0x0123_4567_89ab_cdefu64;
    let mut data = Vec::with_capacity(14 * 1024 * 1024);
    for _ in 0..200 * UNIT {
        data.push((xorshift(&mut state) >> 32) as u8);
    }
    for i in 0..16 {
        let unit: Vec<u8> = data[i * UNIT..(i + 1) * UNIT].to_vec();
        data.extend_from_slice(&unit);
    }
    for level in [Level::Opt, Level::Ultra] {
        let mut driver = MatchGeneratorDriver::new(128 * 1024);
        driver.reset(level);
        assert!(covers_beyond(&mut driver, &data, 200, 1 << 23), "{level:?}: no sequence beyond the tree domain");
    }
}

/// The rows of one and of two tables emit a far candidate whole.
#[test]
fn table_rows_emit_far_candidates_whole() {
    let mut state = 0x0123_4567_89ab_cdefu64;
    let far = 80 * UNIT;
    let data: Vec<u8> = (0..far).map(|_| (xorshift(&mut state) >> 32) as u8).collect();
    for level in [Level::Fastest, Level::Fast] {
        let mut driver = MatchGeneratorDriver::new(128 * 1024);
        driver.set_input_shape(InputShape::default().with_len(1 << 26));
        driver.reset(level);
        assert_eq!(driver.window_size(), 1 << 26, "{level:?}");
        for chunk in data.chunks(128 * 1024) {
            driver.commit_block(chunk);
            driver.leave_out();
        }
        // A block that is a far copy.
        driver.commit_block(&data[..128 * 1024]);
        let at = driver.place.block_start;
        driver.ldm_generate(&[LdmSeq { split: at, offset: far as u32, len: 128 * 1024 }]);
        let (literals, seqs) = parse(&mut driver);
        assert_eq!((literals.len(), seqs.len()), (0, 1), "{level:?}");
        let steps = sequences(&literals, &seqs, driver.get_last_space());
        let ok = matches!(steps[0], Sequence::Triple { offset, match_len, .. } if offset == far + 3 && match_len == 128 * 1024);
        assert!(ok, "{level:?}");
        assert!(driver.ldm_seqs.is_empty());
        // A far copy between bytes that repeat nothing, offered without its first bytes,
        // behind a candidate that is too short.
        let base = 128 * 1024;
        let mut block: Vec<u8> = (0..1000).map(|_| (xorshift(&mut state) >> 32) as u8).collect();
        block.extend_from_slice(&data[base..base + 5000]);
        block.extend((0..2000).map(|_| (xorshift(&mut state) >> 32) as u8));
        driver.commit_block(&block);
        let at = driver.place.block_start;
        let offset = far as u32 + 1000;
        driver.ldm_generate(&[
            LdmSeq { split: at + 1000, offset, len: 3 },
            LdmSeq { split: at + 1010, offset, len: 4000 },
        ]);
        assert_eq!(driver.ldm_seqs.len(), 2);
        let (literals, seqs) = parse(&mut driver);
        let steps = sequences(&literals, &seqs, driver.get_last_space());
        let whole = steps.iter().any(|s| {
            matches!(s, Sequence::Triple { literals, offset, match_len } if literals.len() == 1000 && *offset == far + 1003 && *match_len == 4010)
        });
        assert!(whole, "{level:?}");
        let mut out = data.clone();
        out.extend_from_slice(&data[..base]);
        let from = out.len();
        let mut rep = [far as u32, 1, 4];
        replay(&steps, &mut rep, &mut out);
        assert_eq!(&out[from..], &block[..], "{level:?}");
        assert_eq!(driver.repcode_snapshot(), rep);
    }
}

#[test]
fn pos_entry_roundtrip_across_cycles() {
    for abs in [0u64, 1, 7, 0xffff_fffe, 5_000_000_000, 1 << 40] {
        for delta in [1u64, 2, 0x123, 0xffff_f000] {
            let pos = abs + delta;
            assert_eq!(unpack_pos(pack_pos(abs), pos), Some(abs), "{abs}+{delta}");
        }
    }
    assert_eq!(unpack_pos(pack_pos(0xffff_ffff), 1 << 40), None);
    assert_eq!(unpack_pos(pack_pos(1000), 10), None);
    assert_eq!(unpack_pos(0, 1 << 40), None);
}

#[test]
fn seed_scan_matches_naive_walk() {
    let confirms = [SEED_CONFIRM_NEAR, SEED_CONFIRM_MID, SEED_CONFIRM_FAR];
    let naive = |data: &[u8], last: usize| -> Option<usize> {
        let a8 = read8(data, last);
        (0..last)
            .rev()
            .find(|&u| read8(data, u) == a8 && seed_agrees(data, u, last) && seed_confirms(data, u, last))
    };
    let check = |data: &[u8]| {
        let last = data.len() - 8;
        let expect = naive(data, last);
        assert_eq!(seed_scan(data, last, read8(data, last)), expect, "scan at len {}", data.len());
    };
    let mut state = 0x0123_4567_89ab_cdefu64;
    let len = 700;
    let last = len - 8;
    let mut data = vec![0u8; len];
    for hit in [
        last - 56,
        last - 57,
        last - 63,
        last - 64,
        last - 65,
        last - 72,
        last - 119,
        last - 120,
        last - 128,
        65,
        64,
        63,
        48,
    ] {
        for b in &mut data {
            *b = xorshift(&mut state) as u8;
        }
        let pat: Vec<u8> = (0..56).map(|_| xorshift(&mut state) as u8).collect();
        data[hit - 48..hit + 8].copy_from_slice(&pat);
        data[last - 48..].copy_from_slice(&pat);
        for t in confirms {
            if hit >= t {
                let a = read8(&data, last - t);
                data[hit - t..hit - t + 8].copy_from_slice(&a.to_le_bytes());
            }
        }
        check(&data);
        assert_eq!(seed_scan(&data, last, read8(&data, last)), Some(hit), "planted hit {hit}");
    }
    for b in &mut data {
        *b = xorshift(&mut state) as u8;
    }
    let pat: Vec<u8> = (0..56).map(|_| xorshift(&mut state) as u8).collect();
    data[last - 48..].copy_from_slice(&pat);
    check(&data);
    assert_eq!(seed_scan(&data, last, read8(&data, last)), None);
    for far in [Some(last - 300), None] {
        for b in &mut data {
            *b = xorshift(&mut state) as u8;
        }
        data[last - 48..].copy_from_slice(&pat);
        data[last - 148..last - 92].copy_from_slice(&pat);
        if let Some(hit) = far {
            data[hit - 48..hit + 8].copy_from_slice(&pat);
            for t in confirms {
                if hit >= t {
                    let a = read8(&data, last - t);
                    data[hit - t..hit - t + 8].copy_from_slice(&a.to_le_bytes());
                }
            }
        }
        check(&data);
        assert_eq!(seed_scan(&data, last, read8(&data, last)), far, "confirmed candidate {far:?}");
    }
    let flat = vec![0x5Au8; len];
    check(&flat);
    assert_eq!(seed_scan(&flat, last, read8(&flat, last)), Some(last - 1));
    for period in [200, 201, 202, 203, 204, 205, 206, 207, 256, 257] {
        let unit: Vec<u8> = (0..period).map(|_| xorshift(&mut state) as u8).collect();
        let mut tiled = vec![0u8; 0];
        while tiled.len() < len {
            tiled.extend_from_slice(&unit);
        }
        tiled.truncate(len);
        check(&tiled);
    }
    for l in [48, 56, 63, 64, 120, 127, 128, 129, 136, len] {
        let mut data = vec![0u8; l];
        for b in &mut data {
            *b = xorshift(&mut state) as u8;
        }
        check(&data);
    }
}

#[test]
fn stale_entries_survive_frame_reset() {
    let mut state = 0x9e37_79b9_7f4a_7c15u64;
    let mut long = Vec::with_capacity(3 << 20);
    while long.len() < 3 << 20 {
        long.extend_from_slice(&xorshift(&mut state).to_le_bytes());
        long.extend_from_slice(b"stable filler segment; ");
    }
    let mut small = Vec::new();
    for i in 0..64 {
        small.extend_from_slice(&block_label(i % 7));
        small.push(xorshift(&mut state) as u8);
    }
    for level in [Level::Fastest, Level::Fast, Level::Balanced] {
        let mut driver = MatchGeneratorDriver::new(128 * 1024);
        for data in [&long, &small] {
            driver.reset(level);
            let out = rebuild(&mut driver, data, 128 * 1024, &mut Vec::new());
            assert_eq!(out, *data, "reconstruct {level:?}");
        }
    }
}

#[test]
fn skip_matching_indexes_for_later_blocks() {
    let mut driver = MatchGeneratorDriver::new(16);
    driver.reset(Level::Fastest);
    let pattern = [3u8, 1, 4, 1, 5, 9, 2, 6];
    driver.commit_block(&pattern);
    driver.skip_matching();
    driver.commit_block(&pattern);
    let (literals, seqs) = parse(&mut driver);
    let mut got_triple = false;
    for step in sequences(&literals, &seqs, driver.get_last_space()) {
        if let Sequence::Triple { offset, .. } = step {
            assert_eq!(offset, pattern.len() + 3);
            got_triple = true;
        }
    }
    assert!(got_triple, "second block must match the skipped first block");
}

#[test]
fn gated_block_stays_match_history() {
    let mut state = 0x0123_4567_89ab_cdefu64;
    let mut block = Vec::with_capacity(20_000);
    while block.len() < 20_000 {
        block.extend_from_slice(&xorshift(&mut state).to_le_bytes());
    }
    for level in [Level::Fastest, Level::Fast, Level::Numbered(6), Level::Balanced, Level::Opt] {
        let mut driver = MatchGeneratorDriver::new(128 * 1024);
        driver.reset(level);
        driver.commit_block(&block);
        assert!(skip_if_incompressible(&mut driver), "first block must gate at {level:?}");
        driver.commit_block(&block);
        assert!(!skip_if_incompressible(&mut driver), "duplicate must stay matchable at {level:?}");
        let (literals, seqs) = parse(&mut driver);
        let steps = sequences(&literals, &seqs, driver.get_last_space());
        let first = steps.iter().find_map(|s| match s {
            Sequence::Triple { offset, match_len, .. } => Some((*offset, *match_len)),
            Sequence::Literals { .. } => None,
        });
        let (offset, match_len) = first.expect("duplicate must match the gated block");
        assert_eq!(offset, block.len() + 3, "first match offset at {level:?}");
        assert!(match_len > 1000, "duplicate must match wholesale at {level:?}");
    }
}

#[test]
fn gate_holds_until_a_block_is_worth_parsing() {
    let mut state = 0x2545_f491_4f6c_dd1du64;
    let mut driver = MatchGeneratorDriver::new(128 * 1024);
    driver.reset(Level::Fastest);
    let random = |state: &mut u64| -> Vec<u8> { (0..32 * 1024).map(|_| (xorshift(state) >> 24) as u8).collect() };
    let a = random(&mut state);
    driver.commit_block(&a);
    assert_eq!(driver.gate_block(), GateVerdict::Undecided);
    assert!(driver.settle_gate(true));
    let b = random(&mut state);
    driver.commit_block(&b);
    assert_eq!(driver.gate_block(), GateVerdict::Skip);
    driver.leave_out();
    driver.commit_block(&vec![b'a'; 32 * 1024]);
    assert_eq!(driver.gate_block(), GateVerdict::Parse);
    driver.skip_matching();
    let c = random(&mut state);
    driver.commit_block(&c);
    assert_eq!(driver.gate_block(), GateVerdict::Undecided);
    assert!(!driver.settle_gate(false));
    // Short blocks are never sampled.
    driver.commit_block(&c[..1000]);
    assert_eq!(driver.gate_block(), GateVerdict::Parse);
}

#[test]
fn emits_repcode_sequences() {
    let pattern: &[u8] = &[
        0xa5, 0x5a, 0xc3, 0x3c, 0x99, 0x66, 0xf0, 0x0d, 0x11, 0x22, 0x33, 0x44, 0x55, 0x66, 0x77, 0x88, 0x91, 0x82,
        0x73, 0x64,
    ];
    let mut data = Vec::new();
    for i in 0..40 {
        data.extend_from_slice(pattern);
        data.push(0xf0 ^ i as u8);
    }
    let mut driver = MatchGeneratorDriver::new(128 * 1024);
    driver.reset(Level::Fastest);
    driver.commit_block(&data);
    let (literals, seqs) = parse(&mut driver);
    let mut repcodes = 0usize;
    for step in sequences(&literals, &seqs, driver.get_last_space()) {
        if let Sequence::Triple { offset, .. } = step {
            if offset <= 3 {
                repcodes += 1;
            }
        }
    }
    assert!(repcodes > 0, "repeated structure must produce repcode matches");
    assert_eq!(match_and_reconstruct(&data, 128 * 1024), data);
}

#[test]
fn ultra_job_boundary_reconstructs() {
    let data = wordy(300 * 1024);
    let start = 192 * 1024;
    let run = || {
        let mut driver = MatchGeneratorDriver::new_direct();
        driver.reset(Level::Ultra);
        driver.gate_repcodes();
        driver.prefill_window(&data[..start], 0);
        driver.adopt_window(&data, 0);
        driver.set_block(start as u64, data.len() as u64);
        let mut rep = [1u32, 4, 8];
        let mut out = data[..start].to_vec();
        let (literals, seqs) = parse(&mut driver);
        let steps = sequences(&literals, &seqs, driver.get_last_space());
        replay(&steps, &mut rep, &mut out);
        out
    };
    assert_eq!(run(), data);
    assert_eq!(run(), data, "job parse must be deterministic");
}

/// Every row that parses its blocks itself rebuilds its input.
#[test]
fn ladder_rows_reconstruct() {
    let mut state = 0x9e37_79b9_7f4a_7c15u64;
    let mut input: Vec<u8> = Vec::new();
    for i in 0..2000u32 {
        input.extend_from_slice(format!("level-ladder row {i} alpha beta gamma\n").as_bytes());
        input.extend_from_slice(&xorshift(&mut state).to_le_bytes());
    }
    input.extend((0..4096u32).map(|i| (i % 61) as u8));
    let known = InputShape::default().with_len(input.len() as u64);
    for shape in [InputShape::default(), known] {
        let mut rows = 0;
        for n in 1..=22 {
            let level = Level::from_zstd(n);
            let mut driver = MatchGeneratorDriver::new(128 * 1024);
            driver.set_input_shape(shape);
            driver.reset(level);
            // The rows that select over the sorted tree are not parsed here.
            if matches!(driver.mode.params.strategy, Strategy::BtLazy(_)) {
                continue;
            }
            rows += 1;
            let mut offsets = Vec::new();
            let out = rebuild(&mut driver, &input, 128 * 1024, &mut offsets);
            assert_eq!(out, input, "level {n}");
            assert!(offsets.len() > 1000, "level {n}: {} sequences", offsets.len());
        }
        assert!(rows >= 17);
    }
}

#[test]
fn opt_levels_reconstruct() {
    let data = wordy(700 * 1024);
    for level in [Level::Opt, Level::Ultra] {
        let mut driver = MatchGeneratorDriver::new(128 * 1024);
        driver.reset(level);
        let out = rebuild(&mut driver, &data, 128 * 1024, &mut Vec::new());
        assert_eq!(out, data, "reconstruct {level:?}");
    }
}

/// Parses `input` block by block twice, streamed and handed over whole, and compares
/// what the two emit.
fn assert_paths_agree(input: &[u8], level: Level, streamed_shape: InputShape, shape: InputShape) {
    let mut streamed = MatchGeneratorDriver::new(128 * 1024);
    streamed.set_input_shape(streamed_shape);
    streamed.reset(level);
    let mut direct = MatchGeneratorDriver::new_direct();
    direct.set_input_shape(shape);
    direct.reset(level);
    let block = streamed.block_size();
    assert_eq!(block, direct.block_size());
    let window = direct.window_size() as usize;
    assert_eq!(window, streamed.window_size() as usize, "mismatch at len {}", input.len());
    let mut pos = 0;
    while pos < input.len() {
        let end = (pos + block).min(input.len());
        let from = pos.saturating_sub(window);
        streamed.commit_block(&input[pos..end]);
        direct.adopt_window(&input[from..end], from as u64);
        direct.set_block(pos as u64, end as u64);
        let a = parse(&mut streamed);
        let b = parse(&mut direct);
        assert_eq!(a.0, b.0, "{level:?}: literals at {pos} of {}", input.len());
        assert_eq!(a.1.len(), b.1.len(), "{level:?}: sequences at {pos} of {}", input.len());
        for (x, y) in a.1.iter().zip(&b.1) {
            assert_eq!((x.codes, x.add, x.add_nb), (y.codes, y.add, y.add_nb));
        }
        pos = end;
    }
}

/// Windows handed over whole and windows filled block by block give the same
/// parse, whether the length was announced or the row keeps its own window.
#[test]
fn slice_path_matches_stream_path() {
    let mut state = 0x9e37_79b9_7f4a_7c15u64;
    let mut inputs: Vec<Vec<u8>> = vec![
        vec![],
        vec![1],
        vec![7u8; 5],
        vec![b'x'; 300 * 1024],
        (0..130 * 1024).map(|_| (xorshift(&mut state) & 0xff) as u8).collect(),
        (0..900 * 1024usize).flat_map(|i| [(i % 251) as u8, 7u8, 7, 7, (i % 13) as u8, 9]).collect(),
    ];
    // Straddle block and window boundaries exactly.
    for len in [128 * 1024usize, 128 * 1024 + 1, 128 * 1024 - 1, 900 * 1024 + 7] {
        inputs.push((0..len).map(|i| (i % 61) as u8).collect());
    }
    for input in &inputs {
        for level in [Level::Fastest, Level::Uncompressed] {
            let shape = InputShape::default().with_len(input.len() as u64);
            let told = if level == Level::Fastest { shape } else { InputShape::default() };
            assert_paths_agree(input, level, told, shape);
        }
    }
}

/// So do the other rows, also where the input is longer than the window; the
/// optimal rows where it is not.
#[test]
fn every_row_parses_streamed_and_whole_alike() {
    let mut input = wordy(500 * 1024);
    let mut state = 0x1234_5678_9abc_def1u64;
    for i in (0..input.len()).step_by(97) {
        input[i] = (xorshift(&mut state) & 0xff) as u8;
    }
    let known = InputShape::default().with_len(input.len() as u64);
    let narrow = known.with_window_log(16);
    for level in [Level::Fastest, Level::Numbered(2), Level::Fast, Level::Numbered(6), Level::Numbered(8), Level::Balanced] {
        assert_paths_agree(&input, level, known, known);
        assert_paths_agree(&input, level, narrow, narrow);
    }
    let short = &input[..200 * 1024];
    let known = InputShape::default().with_len(short.len() as u64);
    for level in [Level::Opt, Level::Ultra] {
        assert_paths_agree(short, level, known, known);
    }
}

/// A block that is parsed but goes out as it stands leaves the decoder's offsets
/// alone, so the matcher's are put back; code lengths of literals that were noted
/// between blocks change nothing in what is decoded.
#[test]
fn dropped_blocks_leave_the_offsets_alone() {
    let mut data = wordy(60 * 1024);
    let mut state = 0x51ed_270b_9f3c_8d21u64;
    for i in (0..data.len()).step_by(61) {
        data[i] = (xorshift(&mut state) & 0xff) as u8;
    }
    for level in [Level::Fastest, Level::Fast, Level::Numbered(6), Level::Balanced, Level::Opt] {
        let mut driver = MatchGeneratorDriver::new(128 * 1024);
        driver.reset(level);
        let mut out: Vec<u8> = Vec::new();
        let mut rep = [1u32, 4, 8];
        let mut dropped = 0;
        for (i, block) in data.chunks(4096).enumerate() {
            let mut lengths = [0u8; 256];
            for (b, n) in lengths.iter_mut().enumerate() {
                *n = ((b + i) % 12) as u8;
            }
            driver.note_literal_costs(&lengths);
            let before = driver.repcode_snapshot();
            assert_eq!(before, rep, "{level:?}");
            driver.commit_block(block);
            let (literals, seqs) = parse(&mut driver);
            if i % 3 == 1 {
                dropped += seqs.len();
                driver.restore_repcode(before);
                out.extend_from_slice(block);
            } else {
                let steps = sequences(&literals, &seqs, driver.get_last_space());
                replay(&steps, &mut rep, &mut out);
            }
        }
        assert_eq!(out, data, "{level:?}");
        assert!(dropped > 0);
    }
}

/// A declared shape holds for one frame.
#[test]
fn declared_shape_holds_for_one_frame() {
    let mut driver = MatchGeneratorDriver::new(128 * 1024);
    driver.reset(Level::Balanced);
    let stock = driver.window_size();
    driver.set_input_shape(InputShape::default().with_len(1 << 20).with_window_log(11));
    assert_eq!(driver.window_size(), stock);
    driver.reset(Level::Balanced);
    assert_eq!(driver.window_size(), 1 << 11);
    // The same frame, started over with a shorter reach, keeps its shape.
    driver.restart_shrunk(Level::Balanced);
    assert_eq!(driver.window_size(), 1 << 11);
    driver.reset(Level::Balanced);
    assert_eq!(driver.window_size(), stock);
}

/// Past the window the optimal rows can differ: where a stretch repeats what lies one
/// window before the block, the streamed tree skips the positions between, and cannot
/// find them again.
#[test]
fn optimal_rows_can_differ_past_the_window() {
    let window = 2048;
    let mut state = 0x7f4a_7c15_9e37_79b9u64;
    let mut input: Vec<u8> = (0..70 * window).map(|_| (xorshift(&mut state) & 0xff) as u8).collect();
    let start = 10 * window;
    for i in start - 8..start + 600 {
        input[i] = input[i - (window - 3)];
    }
    for i in 0..16 {
        input[start + 1000 + i] = input[start - 7 + i];
    }
    let shape = InputShape::default().with_len(input.len() as u64).with_window_log(11);
    let mut streamed = MatchGeneratorDriver::new(128 * 1024);
    streamed.set_input_shape(shape);
    streamed.reset(Level::Opt);
    let mut direct = MatchGeneratorDriver::new_direct();
    direct.set_input_shape(shape);
    direct.reset(Level::Opt);
    assert_eq!(direct.window_size(), window as u64);
    let mut differs = Vec::new();
    for pos in (0..input.len()).step_by(window) {
        let from = pos.saturating_sub(window);
        streamed.commit_block(&input[pos..pos + window]);
        direct.adopt_window(&input[from..pos + window], from as u64);
        direct.set_block(pos as u64, (pos + window) as u64);
        if parse(&mut streamed).0 != parse(&mut direct).0 {
            differs.push(pos);
        }
    }
    assert_eq!(differs, [start]);
}

/// Content of a dictionary is matched from the first byte on.
#[test]
fn dictionary_is_history() {
    let dict = wordy(4096);
    let tail = dict[dict.len() - 700..].to_vec();
    for level in [Level::Fastest, Level::Fast, Level::Numbered(6), Level::Balanced, Level::Opt] {
        let mut driver = MatchGeneratorDriver::new(128 * 1024);
        driver.reset(level);
        driver.load_dictionary(&dict, [5, 9, 13], None);
        assert_eq!(driver.repcode_snapshot(), [5, 9, 13]);
        driver.commit_block(&tail);
        let (literals, seqs) = parse(&mut driver);
        assert!(!seqs.is_empty(), "{level:?}");
        let steps = sequences(&literals, &seqs, driver.get_last_space());
        let mut out = dict.clone();
        let mut rep = [5u32, 9, 13];
        replay(&steps, &mut rep, &mut out);
        assert_eq!(&out[dict.len()..], &tail[..], "{level:?}");
        assert!(literals.len() < 100, "{level:?}: {} literals", literals.len());
    }
}

/// A small payload takes the row that the level has for it, on fresh tables; one whose
/// length was not declared, or that is larger, keeps the level's own.
#[test]
fn small_dictionary_frames_take_another_row() {
    let dict = wordy(4096);
    let payload = dict[500..3500].to_vec();
    let chain = SmallDictRow::Chain { depth: 64, lazy: 2 };
    for level in [Level::Fastest, Level::Fast, Level::Numbered(6), Level::Balanced] {
        for (extra, small) in [(Some(3000u64), true), (Some(16 * 1024), true), (Some(16 * 1024 + 1), false), (None, false)] {
            let mut driver = MatchGeneratorDriver::new(128 * 1024);
            if let Some(n) = extra {
                driver.set_input_shape(InputShape::default().with_len(dict.len() as u64 + n));
            }
            driver.reset(level);
            let stock = driver.mode.params;
            driver.load_dictionary(&dict, [5, 9, 13], Some(chain));
            let row = driver.mode.params;
            assert_eq!(row.window, stock.window);
            if small {
                assert!(matches!(row.strategy, Strategy::Chain(15)), "{level:?}");
                assert_eq!((row.hash_log, row.search_depth, row.lazy_depth, row.min_match), (15, 64, 2, 4));
                assert!(driver.mode.dict_row);
                assert_eq!((driver.tables.table.len(), driver.tables.chain.len()), (1 << 15, 1 << 15));
            } else {
                assert_eq!(row.hash_log, stock.hash_log, "{level:?}");
                assert_eq!(row.lazy_depth, stock.lazy_depth, "{level:?}");
                if matches!(row.strategy, Strategy::BtLazy(_)) {
                    continue;
                }
            }
            driver.commit_block(&payload);
            let (literals, seqs) = parse(&mut driver);
            let steps = sequences(&literals, &seqs, driver.get_last_space());
            let mut out = dict.clone();
            replay(&steps, &mut [5u32, 9, 13], &mut out);
            assert_eq!(&out[dict.len()..], &payload[..], "{level:?}");
            assert!(literals.len() < 100, "{level:?}: {} literals", literals.len());
        }
    }
    // An optimal row in the place of another.
    let shape = InputShape::default().with_len(dict.len() as u64 + 3000);
    let mut optimal = MatchGeneratorDriver::new(128 * 1024);
    optimal.set_input_shape(shape);
    optimal.reset(Level::Opt);
    let mut driver = MatchGeneratorDriver::new(128 * 1024);
    driver.set_input_shape(shape);
    driver.reset(Level::Numbered(6));
    let mut row = optimal.mode.params;
    row.window = driver.mode.params.window;
    driver.load_dictionary(&dict, [5, 9, 13], Some(SmallDictRow::Opt(row)));
    assert!(matches!(driver.mode.params.strategy, Strategy::Opt(_)));
    assert!(driver.tables.table.is_empty());
    driver.commit_block(&payload);
    let (literals, seqs) = parse(&mut driver);
    let steps = sequences(&literals, &seqs, driver.get_last_space());
    let mut out = dict.clone();
    replay(&steps, &mut [5u32, 9, 13], &mut out);
    assert_eq!(&out[dict.len()..], &payload[..]);
    assert!(literals.len() < 100, "{} literals", literals.len());
}

/// Content past the window is dropped.
#[test]
fn dictionary_is_cut_to_the_window() {
    let mut driver = MatchGeneratorDriver::new(128 * 1024);
    driver.set_input_shape(InputShape::default().with_window_log(10));
    driver.reset(Level::Fastest);
    let dict: Vec<u8> = (0..5000u32).map(|i| (i % 253) as u8).collect();
    driver.load_dictionary(&dict, [1, 4, 8], None);
    assert_eq!(driver.window_size(), 1024);
    assert_eq!(driver.win, dict[dict.len() - 1024..].to_vec());
    assert_eq!(driver.place.block_start, 1024);
}

/// A job that starts inside a frame decodes whatever offsets the decoder holds.
#[test]
fn gated_job_decodes_under_any_history() {
    let data = wordy(200 * 1024);
    let start = 100 * 1024;
    for level in [Level::Fastest, Level::Fast, Level::Numbered(7), Level::Balanced, Level::Opt] {
        for rep in [[1u32, 4, 8], [77, 3, 900], [5, 5, 5]] {
            let mut driver = MatchGeneratorDriver::new_direct();
            driver.reset(level);
            driver.gate_repcodes();
            driver.prefill_job_strip(&data[..start], 0);
            driver.adopt_window(&data, 0);
            let mut out = data[..start].to_vec();
            let mut r = rep;
            let mut pos = start;
            while pos < data.len() {
                let end = (pos + 128 * 1024).min(data.len());
                driver.set_block(pos as u64, end as u64);
                let (literals, seqs) = parse(&mut driver);
                let steps = sequences(&literals, &seqs, driver.get_last_space());
                replay(&steps, &mut r, &mut out);
                pos = end;
            }
            assert_eq!(out, data, "{level:?} {rep:?}");
        }
    }
}

/// While the ramp is armed, no match reads less than its depth below the job.
#[test]
fn ramp_keeps_crossing_reads_deep() {
    let mut state = 0x0123_4567_89ab_cdefu64;
    let start = 100 * 1024usize;
    let depth = 40 * 1024usize;
    let mut data: Vec<u8> = (0..start).map(|_| (xorshift(&mut state) >> 24) as u8).collect();
    // Repeats of a deep part and of a shallow part.
    for at in [10 * 1024usize, 80 * 1024] {
        let part = data[at..at + 10 * 1024].to_vec();
        data.extend_from_slice(&part);
    }
    for level in [Level::Fastest, Level::Fast, Level::Numbered(7), Level::Balanced] {
        for armed in [true, false] {
            let mut driver = MatchGeneratorDriver::new_direct();
            driver.reset(level);
            driver.gate_repcodes();
            driver.arm_ramp(start as u64, if armed { depth as u64 } else { 0 });
            driver.prefill_job_strip(&data[..start], 0);
            driver.adopt_window(&data, 0);
            driver.set_block(start as u64, data.len() as u64);
            let (literals, seqs) = parse(&mut driver);
            let mut rep = [1u32, 4, 8];
            let mut at = start;
            let (mut deep, mut shallow) = (0, 0);
            for step in sequences(&literals, &seqs, driver.get_last_space()) {
                if let Sequence::Triple { literals, offset, match_len } = step {
                    at += literals.len();
                    let dist = do_offset_history(offset as u32, literals.len() as u32, &mut rep) as usize;
                    let src = at - dist;
                    if src + depth <= start {
                        deep += match_len;
                    } else if src < start {
                        shallow += match_len;
                    }
                    at += match_len;
                }
            }
            assert!(deep > 9 * 1024, "{level:?}: {deep} bytes from deep sources");
            assert_eq!(shallow > 9 * 1024, !armed, "{level:?}: {shallow} bytes from shallow sources");
            if armed {
                assert_eq!(shallow, 0, "{level:?}");
            }
        }
    }
}

#[test]
fn head_phases_follow_the_alphabet() {
    let mut state = 0x9e37_79b9_7f4a_7c15u64;
    let block = 128 * 1024usize;
    for (mask, phase) in [(63u64, HeadPhase::Running), (15, HeadPhase::Off)] {
        let chunk: Vec<u8> = (0..block).map(|_| b' ' + (xorshift(&mut state) & mask) as u8).collect();
        let mut driver = MatchGeneratorDriver::new(block);
        driver.reset(Level::from_zstd(9));
        assert_eq!(driver.mode.head, HeadPhase::Armed);
        driver.commit_block(&chunk);
        assert_eq!(driver.head_block(), phase == HeadPhase::Running);
        assert_eq!(driver.mode.head, phase);
        if phase == HeadPhase::Running {
            // The head ends with its span, and all of it is indexed next.
            for _ in 0..8 {
                driver.end_tree_block([1, 4, 8], 0);
                driver.finish_head();
                driver.commit_block(&chunk);
            }
            assert_eq!(driver.mode.head, HeadPhase::Running);
            assert!(driver.head_block());
            driver.end_tree_block([1, 4, 8], 0);
            driver.finish_head();
            assert_eq!(driver.mode.head, HeadPhase::Done);
            assert_eq!(driver.mode.gap_start, 0);
            driver.commit_block(&chunk);
            assert!(!driver.head_block());
            let (_, seqs) = parse(&mut driver);
            assert!(!seqs.is_empty());
        }
    }
}

/// A parse settles the head by itself where the block does not belong to it: a narrow
/// alphabet calls it off, and the first block behind its span takes over from it, also
/// where the blocks before it never reached a parse.
#[test]
fn parses_settle_the_head() {
    let block = 128 * 1024usize;
    let mut state = 0x9e37_79b9_7f4a_7c15u64;
    let narrow: Vec<u8> = (0..block).map(|_| b' ' + (xorshift(&mut state) & 15) as u8).collect();
    let mut driver = MatchGeneratorDriver::new(block);
    driver.reset(Level::from_zstd(9));
    driver.commit_block(&narrow);
    assert_eq!(driver.mode.head, HeadPhase::Armed);
    driver.start_matching_codes(&mut Vec::new(), &mut Vec::new());
    assert_eq!(driver.mode.head, HeadPhase::Off);

    let wide: Vec<u8> = (0..block).map(|_| b' ' + (xorshift(&mut state) & 63) as u8).collect();
    driver.reset(Level::from_zstd(9));
    driver.commit_block(&wide);
    assert!(driver.head_block());
    driver.end_tree_block([1, 4, 8], 0);
    driver.finish_head();
    for _ in 1..9 {
        driver.commit_block(&wide);
        driver.leave_out();
    }
    assert_eq!(driver.mode.head, HeadPhase::Running);
    driver.commit_block(&wide);
    let (mut literals, mut seqs) = (Vec::new(), Vec::new());
    driver.start_matching_codes(&mut literals, &mut seqs);
    assert_eq!(driver.mode.head, HeadPhase::Done);
    // All of the head is indexed: the block before is found whole.
    let steps = sequences(&literals, &seqs, driver.get_last_space());
    let mut out = wide.repeat(9);
    replay(&steps, &mut [1u32, 4, 8], &mut out);
    assert_eq!(&out[9 * block..], &wide[..]);
    assert!(literals.len() < 100, "{} literals", literals.len());
}

/// The owed offsets of a job are paid by its literal ones, and none is repeated before.
#[test]
fn owed_offsets_are_paid_first() {
    let data = wordy(200 * 1024);
    let start = 100 * 1024;
    for level in [Level::Fastest, Level::Fast, Level::Numbered(7), Level::Balanced, Level::Opt, Level::Ultra] {
        let mut driver = MatchGeneratorDriver::new_direct();
        driver.reset(level);
        driver.gate_repcodes();
        driver.prefill_job_strip(&data[..start], 0);
        driver.adopt_window(&data, 0);
        let mut literal = 0u32;
        for pos in (start..data.len()).step_by(64) {
            let end = (pos + 64).min(data.len());
            driver.set_block(pos as u64, end as u64);
            let (literals, seqs) = parse(&mut driver);
            for step in sequences(&literals, &seqs, driver.get_last_space()) {
                if let Sequence::Triple { offset, .. } = step {
                    if offset > 3 {
                        literal += 1;
                    } else {
                        assert!(literal >= 3, "{level:?}");
                    }
                }
            }
            assert_eq!(driver.carry.pending as u32, 3u32.saturating_sub(literal), "{level:?}");
        }
        assert!(literal >= 3, "{level:?}");
    }
}

/// Matches are as long as their row stores them, and cover the block with the literals.
#[test]
fn matches_keep_to_their_row() {
    let data = wordy(120 * 1024);
    for n in 1..=22 {
        let mut driver = MatchGeneratorDriver::new(128 * 1024);
        driver.reset(Level::from_zstd(n));
        let p = driver.mode.params;
        let (least, bar) = match p.strategy {
            Strategy::BtLazy(_) => continue,
            Strategy::Chain(_) | Strategy::Row(_) => (4, p.min_match as usize),
            Strategy::Opt(k) => (k.min_match as usize, k.min_match as usize),
            _ => (3, 3),
        };
        driver.commit_block(&data);
        let (literals, seqs) = parse(&mut driver);
        let mut matched = 0;
        for step in sequences(&literals, &seqs, driver.get_last_space()) {
            if let Sequence::Triple { offset, match_len, .. } = step {
                matched += match_len;
                assert!(match_len >= least, "level {n}");
                assert!(offset <= 3 || match_len >= bar && offset - 3 <= driver.mode.params.window, "level {n}");
            }
        }
        assert!(!seqs.is_empty());
        assert_eq!(matched + literals.len(), data.len(), "level {n}");
    }
}

#[test]
fn far_candidates_that_do_not_repeat_are_refused() {
    let mut state = 7u64;
    let mut driver = MatchGeneratorDriver::new(128 * 1024);
    driver.reset(Level::Balanced);
    for _ in 0..40 {
        let chunk: Vec<u8> = (0..128 * 1024).map(|_| (xorshift(&mut state) >> 24) as u8).collect();
        driver.commit_block(&chunk);
        driver.leave_out();
    }
    let chunk: Vec<u8> = (0..128 * 1024).map(|_| (xorshift(&mut state) >> 24) as u8).collect();
    driver.commit_block(&chunk);
    let at = driver.place.block_start;
    let far = 39 * 128 * 1024u32;
    // Wrong bytes, too near, before the block, past the block.
    driver.ldm_generate(&[
        LdmSeq { split: at, offset: far, len: 64 },
        LdmSeq { split: at, offset: 1000, len: 0 },
        LdmSeq { split: at - 1, offset: far, len: 0 },
        LdmSeq { split: at + 128 * 1024, offset: far, len: 1 },
    ]);
    assert!(driver.ldm_seqs.is_empty());
    // Nothing at all repeats anything.
    driver.ldm_generate(&[LdmSeq { split: at, offset: far, len: 0 }]);
    assert_eq!(driver.ldm_seqs.len(), 1);
}

#[test]
fn shrunk_restart_is_fresh() {
    let data = wordy(300 * 1024);
    let run = |driver: &mut MatchGeneratorDriver| -> Vec<(u32, u64)> {
        let mut words = Vec::new();
        for chunk in data.chunks(128 * 1024) {
            driver.commit_block(chunk);
            let (_, seqs) = parse(driver);
            words.extend(seqs.iter().map(|w| (w.codes, w.add)));
        }
        words
    };
    let mut used = MatchGeneratorDriver::new(128 * 1024);
    used.reset(Level::Balanced);
    run(&mut used);
    used.restart_shrunk(Level::Balanced);
    let again = run(&mut used);
    let mut fresh = MatchGeneratorDriver::new(128 * 1024);
    fresh.restart_shrunk(Level::Balanced);
    assert_eq!(again, run(&mut fresh));
    assert_eq!(used.mode.params.chain_reach, Some(1 << 12));
}

/// What a matcher did before does not show in a job's output.
#[test]
fn jobs_forget_earlier_frames() {
    let data = wordy(260 * 1024);
    let start = 100 * 1024usize;
    let job = |driver: &mut MatchGeneratorDriver, level: Level| -> Vec<(u32, u64)> {
        driver.reset(level);
        driver.gate_repcodes();
        driver.prefill_job_strip(&data[..start], 0);
        driver.adopt_window(&data, 0);
        let mut words = Vec::new();
        let mut pos = start;
        while pos < data.len() {
            let end = (pos + 64 * 1024).min(data.len());
            driver.set_block(pos as u64, end as u64);
            let (_, seqs) = parse(driver);
            words.extend(seqs.iter().map(|w| (w.codes, w.add)));
            pos = end;
        }
        words
    };
    for level in [Level::Fastest, Level::Fast, Level::Numbered(6), Level::Balanced, Level::Opt] {
        let mut fresh = MatchGeneratorDriver::new_direct();
        let mut used = MatchGeneratorDriver::new_direct();
        used.reset(level);
        let noise: Vec<u8> = data.iter().rev().copied().collect();
        used.adopt_window(&noise[..128 * 1024], 0);
        used.set_block(0, 128 * 1024);
        parse(&mut used);
        assert_eq!(job(&mut used, level), job(&mut fresh, level), "{level:?}");
    }
}

/// Jobs that were parsed apart decode one after the other.
#[test]
fn jobs_decode_in_order() {
    let data = wordy(400 * 1024);
    let cuts = [0usize, 130 * 1024, 131 * 1024, 300 * 1024, data.len()];
    for level in [Level::Fastest, Level::Fast, Level::Numbered(8), Level::Balanced, Level::Ultra] {
        let mut rep = [1u32, 4, 8];
        let mut out = Vec::new();
        for job in cuts.windows(2) {
            let mut driver = MatchGeneratorDriver::new_direct();
            driver.reset(level);
            if job[0] > 0 {
                driver.gate_repcodes();
            }
            driver.prefill_job_strip(&data[..job[0]], 0);
            driver.adopt_window(&data[..job[1]], 0);
            let mut pos = job[0];
            while pos < job[1] {
                let end = (pos + 100 * 1024).min(job[1]);
                driver.set_block(pos as u64, end as u64);
                let (literals, seqs) = parse(&mut driver);
                replay(&sequences(&literals, &seqs, driver.get_last_space()), &mut rep, &mut out);
                pos = end;
            }
        }
        assert_eq!(out, data, "{level:?}");
    }
}

/// No match is copied from farther back than the window that the frame declares.
#[test]
fn matches_stay_inside_the_window() {
    let data = wordy(600 * 1024);
    for level in [Level::Fastest, Level::Fast, Level::Numbered(6), Level::Balanced, Level::Opt, Level::Ultra] {
        let mut driver = MatchGeneratorDriver::new(128 * 1024);
        let shape = InputShape::default().with_len(data.len() as u64).with_window_log(16);
        driver.set_input_shape(shape);
        driver.reset(level);
        let window = driver.window_size();
        assert_eq!(window, 64 * 1024);
        let mut rep = [1u32, 4, 8];
        let mut out = Vec::new();
        let mut farthest = 0;
        for chunk in data.chunks(128 * 1024) {
            driver.commit_block(chunk);
            let (literals, seqs) = parse(&mut driver);
            let steps = sequences(&literals, &seqs, driver.get_last_space());
            let mut seen = rep;
            for step in &steps {
                if let Sequence::Triple { literals, offset, .. } = step {
                    let actual = do_offset_history(*offset as u32, literals.len() as u32, &mut seen);
                    farthest = farthest.max(actual as u64);
                }
            }
            replay(&steps, &mut rep, &mut out);
        }
        assert_eq!(out, data, "{level:?}");
        assert!(farthest > 0 && farthest <= window, "{level:?}: {farthest}");
    }
}

/// All positions that the chain holds, from every head down its links.
fn linked_positions(driver: &MatchGeneratorDriver) -> std::collections::BTreeSet<u64> {
    let origin = driver.mode.head_origin;
    let chain = &driver.tables.chain;
    let mut all = std::collections::BTreeSet::new();
    for &head in &driver.tables.table {
        let mut entry = head as u64;
        while entry > origin && all.insert(entry - 1 - origin) {
            entry = chain[((entry - 1 - origin) % chain.len() as u64) as usize] as u64;
        }
    }
    all
}

/// A dictionary frame's scan steps over literals, but leaves no position out: the next
/// probe links them first. A frame without a dictionary keeps to the positions it probes.
#[test]
fn dictionary_scans_link_what_they_step_over() {
    let mut state = 0x1234_5678_9abc_def1u64;
    let dict: Vec<u8> = (0..1000).map(|_| (xorshift(&mut state) >> 24) as u8).collect();
    let noise: Vec<u8> = (0..8000).map(|_| (xorshift(&mut state) >> 24) as u8).collect();
    let end = (dict.len() + noise.len()) as u64;

    let mut driver = MatchGeneratorDriver::new(128 * 1024);
    driver.set_input_shape(InputShape::default().with_len(9000));
    driver.reset(Level::Numbered(6));
    driver.load_dictionary(&dict, [1, 4, 8], Some(SmallDictRow::Chain { depth: 16, lazy: 2 }));
    assert!(driver.mode.dict_row && matches!(driver.mode.params.strategy, Strategy::Chain(_)));
    driver.commit_block(&noise);
    let (_, seqs) = parse(&mut driver);
    assert!(seqs.is_empty());
    let linked = linked_positions(&driver);
    // Steps of up to 32 bytes can pass the last of the block.
    for p in 0..end - 48 {
        assert!(linked.contains(&p), "position {p} of {end}");
    }
    // What lies between two probes is found again.
    let mut tail = noise[5001..5041].to_vec();
    tail.extend_from_slice(&noise[3003..3043]);
    driver.commit_block(&tail);
    let (literals, seqs) = parse(&mut driver);
    assert_eq!((literals.len(), seqs.len()), (0, 2));

    let mut plain = MatchGeneratorDriver::new(128 * 1024);
    plain.reset(Level::Balanced);
    if let Strategy::Chain(_) = plain.mode.params.strategy {
        plain.commit_block(&noise);
        parse(&mut plain);
        assert!(linked_positions(&plain).len() < noise.len() / 2);
    }
}

/// A block goes to the row, to the deferred tree or to the head's tree.
#[test]
fn blocks_go_to_their_parse() {
    let mut state = 99u64;
    let block = 128 * 1024usize;
    let wide: Vec<u8> = (0..block).map(|_| b' ' + (xorshift(&mut state) & 63) as u8).collect();
    let narrow: Vec<u8> = (0..block).map(|_| b' ' + (xorshift(&mut state) & 15) as u8).collect();
    let mut trees = 0;
    for n in 1..=22 {
        for (data, dense) in [(&wide, true), (&narrow, false)] {
            let mut driver = MatchGeneratorDriver::new(block);
            driver.reset(Level::from_zstd(n));
            driver.commit_block(data);
            let armed = driver.mode.head == HeadPhase::Armed;
            let tree = matches!(driver.mode.params.strategy, Strategy::BtLazy(_));
            let action = driver.block_action();
            if tree {
                trees += 1;
                assert_eq!(action, BlockAction::Tree(if dense { LazyStep::Dense } else { LazyStep::Ramp }), "level {n}");
            } else if armed && dense {
                assert_eq!(action, BlockAction::Head, "level {n}");
            } else {
                assert_eq!(action, BlockAction::Row, "level {n}");
            }
            assert_eq!(driver.block_action(), action, "level {n}");
        }
    }
    assert!(trees > 0);
}

/// A row that leaves its blocks to a tree parse goes on from what that parse hands over.
#[test]
fn tree_rows_go_on_from_their_parse() {
    let data = wordy(250 * 1024);
    for n in 1..=22 {
        let mut driver = MatchGeneratorDriver::new(128 * 1024);
        driver.reset(Level::from_zstd(n));
        if !matches!(driver.mode.params.strategy, Strategy::BtLazy(_)) {
            continue;
        }
        // Another row stands in for the tree.
        let mut other = MatchGeneratorDriver::new(128 * 1024);
        other.reset(Level::Fastest);
        let mut rep = [1u32, 4, 8];
        let mut out = Vec::new();
        for (k, chunk) in data.chunks(100 * 1024).enumerate() {
            driver.commit_block(chunk);
            if k == 1 {
                driver.leave_out();
                out.extend_from_slice(chunk);
                other.commit_block(chunk);
                other.leave_out();
                continue;
            }
            assert!(matches!(driver.block_action(), BlockAction::Tree(_)));
            driver.ldm_generate(&[]);
            other.commit_block(chunk);
            let (literals, seqs) = parse(&mut other);
            driver.end_tree_block(other.repcode_snapshot(), 0);
            driver.note_tree_block(false);
            let steps = sequences(&literals, &seqs, driver.get_last_space());
            replay(&steps, &mut rep, &mut out);
            assert_eq!(rep, driver.repcode_snapshot());
        }
        assert_eq!(out, data, "level {n}");
    }
}

/// The index of far repeats takes in parsed blocks, and passed ones on the widest windows
/// of the plain rows. Of history, the rows with trees want a wide alphabet.
#[test]
fn far_index_is_fed() {
    let wide: Vec<u8> = (0..4096u32).map(|i| (i * 7 % 251) as u8).collect();
    let narrow = vec![b'a'; 4096];
    let (mut plain, mut trees) = (0, 0);
    for n in 1..=22 {
        for len in [None, Some(1u64 << 28), Some(1 << 24)] {
            let mut driver = MatchGeneratorDriver::new(128 * 1024);
            driver.set_input_shape(InputShape { len, window_log: None });
            driver.reset(Level::from_zstd(n));
            let p = driver.mode.params;
            let on = driver.mode.ldm.on;
            let simple = matches!(p.strategy, Strategy::Fast | Strategy::Dfast(_) | Strategy::Chain(_));
            let tree = matches!(p.strategy, Strategy::Opt(_) | Strategy::BtLazy(_));
            assert_eq!(driver.feeds_far(false), on, "level {n}");
            assert_eq!(driver.feeds_far(true), on && simple && p.window >= 1 << 26, "level {n}");
            assert_eq!(driver.feeds_strip(&wide, 64), on, "level {n}");
            assert_eq!(driver.feeds_strip(&narrow, 64), on && !tree, "level {n}");
            assert!(!driver.feeds_strip(&wide[..63], 64), "level {n}");
            plain += (on && simple) as u32;
            trees += (on && tree) as u32;
        }
    }
    assert!(plain > 0 && trees > 0);
}

/// Whatever offsets a scan starts with, its literal ones stay within the row's reach.
#[test]
fn literal_offsets_stay_in_reach_under_any_history() {
    let data = wordy(120 * 1024);
    for n in 1..=22 {
        for rep in [[1u32, 4, 8], [70_000, 3, 900], [u32::MAX, 100_000, 5]] {
            let mut driver = MatchGeneratorDriver::new(128 * 1024);
            driver.set_input_shape(InputShape { len: None, window_log: Some(15) });
            driver.reset(Level::from_zstd(n));
            let p = driver.mode.params;
            if matches!(p.strategy, Strategy::BtLazy(_)) {
                continue;
            }
            driver.restore_repcode(rep);
            driver.commit_block(&data);
            let (literals, seqs) = parse(&mut driver);
            let mut far = 0;
            for step in sequences(&literals, &seqs, driver.get_last_space()) {
                if let Sequence::Triple { offset, .. } = step {
                    if offset > 3 {
                        far = far.max(offset - 3);
                    }
                }
            }
            assert!(far > 0 && far <= p.reach(), "level {n}: {far}");
        }
    }
}

/// A decoder that starts with the matcher's own offsets stays with them while some are
/// still owed.
#[test]
fn owed_histories_stay_equal() {
    let mut state = 0x9e37_79b9_7f4a_7c15u64;
    let mut data: Vec<u8> = (0..120).map(|_| (xorshift(&mut state) >> 24) as u8).collect();
    let again = data[10..110].to_vec();
    data.extend_from_slice(&again);
    let more: Vec<u8> = (0..20).map(|_| (xorshift(&mut state) >> 24) as u8).collect();
    data.extend_from_slice(&more);
    for n in 1..=22 {
        let mut driver = MatchGeneratorDriver::new_direct();
        driver.reset(Level::from_zstd(n));
        if matches!(driver.mode.params.strategy, Strategy::BtLazy(_)) {
            continue;
        }
        driver.gate_repcodes();
        driver.adopt_window(&data, 0);
        driver.set_block(0, data.len() as u64);
        let mut rep = driver.repcode_snapshot();
        let (literals, seqs) = parse(&mut driver);
        let steps = sequences(&literals, &seqs, driver.get_last_space());
        let mut out = Vec::new();
        replay(&steps, &mut rep, &mut out);
        assert_eq!(out, data, "level {n}");
        assert!(!seqs.is_empty() && driver.carry.pending > 0, "level {n}");
        assert_eq!(rep, driver.repcode_snapshot(), "level {n}");
    }
}

/// A job of one row emits the same after jobs of other rows.
#[test]
fn jobs_forget_other_rows() {
    let data = wordy(160 * 1024);
    let start = 60 * 1024usize;
    let job = |driver: &mut MatchGeneratorDriver, level: Level| -> Vec<(u32, u64)> {
        driver.reset(level);
        driver.gate_repcodes();
        driver.prefill_window(&data[..start], 0);
        driver.adopt_window(&data, 0);
        driver.set_block(start as u64, data.len() as u64);
        let (_, seqs) = parse(driver);
        seqs.iter().map(|w| (w.codes, w.add)).collect()
    };
    let levels = [Level::Fastest, Level::Fast, Level::Balanced, Level::Opt];
    for level in levels {
        let expected = job(&mut MatchGeneratorDriver::new_direct(), level);
        for first in levels {
            for second in levels {
                let mut used = MatchGeneratorDriver::new_direct();
                job(&mut used, first);
                job(&mut used, second);
                assert!(job(&mut used, level) == expected, "{level:?} after {first:?} and {second:?}");
            }
        }
    }
}
