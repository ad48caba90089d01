use zstdx::frame::{pack_sequences, sequences, start_matching_into};
use zstdx::opt_series::new_rep;
use zstdx::opt_stats::{bit_weight, frac_weight, scale_stats};
use zstdx::seq_codes::{decode_packed, encode_literal_length, encode_match_len, encode_offset, pack_seq};
use zstdx::sequence::{do_offset_history, EncodedSequence, Reps, Sequence};

#[test]
fn packed_roundtrip() {
    let mut lls = Vec::new();
    for len in 0..131u32 {
        lls.push(len);
    }
    lls.extend([255, 256, 511, 4096, 65536, 131071]);
    let mut mls = Vec::new();
    for len in 3..131u32 {
        mls.push(len);
    }
    mls.extend([258, 514, 1026, 65538, 131074]);
    let ofs: Vec<u32> = (1..70).chain([255, 256, 1000, 65539, 786435]).collect();
    for &ll in &lls {
        let (lc, la, ln) = encode_literal_length(ll);
        for &ml in &mls {
            let (mc, ma, mn) = encode_match_len(ml);
            for &of in &ofs {
                let (oc, oa, _) = encode_offset(of);
                let packed = lc as u32 | (mc as u32) << 8 | (oc as u32) << 16;
                let add = la as u64 | ((ma as u64) << ln) | ((oa as u64) << (ln + mn));
                assert_eq!(decode_packed(packed, add), (ll, ml, of), "ll {ll} ml {ml} of {of}");
            }
        }
    }
}

#[test]
fn packed_word_layout() {
    // 5 literals, a match of 20, offset value 100 (code 6, six more bits).
    let w = pack_seq(5, 20, 100);
    assert_eq!(w.codes, 5 | 17 << 8 | 6 << 16);
    assert_eq!((w.add, w.add_nb), (36, 6));
    assert_eq!(decode_packed(w.codes, w.add), (5, 20, 100));
}

#[test]
fn weights_match_reference_points() {
    assert_eq!(bit_weight(0), 0);
    assert_eq!(bit_weight(1), 256);
    assert_eq!(bit_weight(2), 256);
    assert_eq!(bit_weight(255), 8 * 256);
    assert_eq!(frac_weight(0), 256);
    assert_eq!(frac_weight(1), 512);
    assert_eq!(frac_weight(3), 512 + 256);
}

#[test]
fn scaling_keeps_sums_bounded() {
    let mut table = [7000u32; 36];
    let sum = scale_stats(&mut table, 11);
    assert!(sum <= (1 << 12) + 36, "sum {sum}");
    assert!(table.iter().all(|&v| v >= 1));
}

#[test]
fn new_rep_matches_update_semantics() {
    let rep = Reps::from_array([10, 20, 30]);
    assert_eq!(new_rep(rep, 13, false).to_array(), [10, 10, 20]);
    assert_eq!(new_rep(rep, 1, false).to_array(), [10, 20, 30]);
    assert_eq!(new_rep(rep, 2, false).to_array(), [20, 10, 30]);
    assert_eq!(new_rep(rep, 1, true).to_array(), [20, 10, 30]);
    assert_eq!(new_rep(rep, 3, true).to_array(), [9, 10, 20]);
}

#[test]
fn offset_history_resolves_like_the_parse() {
    let mut hist = [10u32, 20, 30];
    assert_eq!(do_offset_history(13, 4, &mut hist), 10);
    assert_eq!(hist, [10, 10, 20]);
    assert_eq!(do_offset_history(3, 1, &mut hist), 20);
    assert_eq!(hist, [20, 10, 10]);
    assert_eq!(do_offset_history(3, 0, &mut hist), 19);
    assert_eq!(hist, [19, 20, 10]);
}

#[test]
fn steps_come_back_in_order() {
    let literals = b"abcdefgh";
    let seqs = [pack_seq(3, 5, 1), pack_seq(0, 9, 40), pack_seq(2, 4, 3)];
    let steps = sequences(literals, &seqs, b"unused");
    assert_eq!(
        steps,
        vec![
            Sequence::Triple { literals: b"abc", offset: 1, match_len: 5 },
            Sequence::Triple { literals: b"", offset: 40, match_len: 9 },
            Sequence::Triple { literals: b"de", offset: 3, match_len: 4 },
            Sequence::Literals { literals: b"fgh" },
        ]
    );
    let whole = sequences(b"", &[], b"block");
    assert_eq!(whole, vec![Sequence::Literals { literals: b"block" }]);

    let mut lits = Vec::new();
    let mut encoded: Vec<EncodedSequence> = Vec::new();
    start_matching_into(&steps, &mut lits, &mut encoded);
    assert_eq!(&lits[..], &literals[..]);
    assert_eq!(
        encoded,
        vec![
            EncodedSequence { ll: 3, ml: 5, of: 1 },
            EncodedSequence { ll: 0, ml: 9, of: 40 },
            EncodedSequence { ll: 2, ml: 4, of: 3 },
        ]
    );
    let mut words = Vec::new();
    pack_sequences(&encoded, &mut words);
    for (a, b) in words.iter().zip(&seqs) {
        assert_eq!((a.codes, a.add, a.add_nb), (b.codes, b.add, b.add_nb));
    }
    assert_eq!(words.len(), 3);
}
