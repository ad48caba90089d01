//! Literal-length, match-length and offset codes, and the packed word that
//! carries one sequence: the three codes in one integer, their extra bits
//! merged into one payload.

use vstd::prelude::*;
use vstd::arithmetic::power2::{lemma2_to64, lemma_pow2_adds, lemma_pow2_pos, lemma_pow2_unfold, pow2};
use vstd::arithmetic::div_mod::lemma_fundamental_div_mod_converse;
use crate::bits::{ilog2, lemma_log2_bracket, lemma_log2_u32, lemma_pow2_monotone, log2_floor, pow2_u64};

verus! {

/// Every code value is below this bound.
pub const SEQ_CODE_SPACE: usize = 64;

/// Longest literal run that has a code.
pub const MAX_LL: u32 = 131071;

/// Shortest match length that has a code.
pub const MIN_ML: u32 = 3;

/// Longest match length that has a code.
pub const MAX_ML: u32 = 131074;

/// One sequence as the block encoder consumes it.
#[derive(Clone, Copy, PartialEq, Eq, Structural, Debug)]
pub struct SeqWord {
    /// Literal-length code, match-length code and offset code, one byte each,
    /// lowest first.
    pub codes: u32,
    /// The extra bits of the three codes, lowest first.
    pub add: u64,
    /// How many extra bits there are.
    pub add_nb: u8,
}

/// Smallest literal length of a code.
pub open spec fn ll_base(c: int) -> int {
    if c < 16 {
        c
    } else if c < 20 {
        16 + 2 * (c - 16)
    } else if c < 22 {
        24 + 4 * (c - 20)
    } else if c < 24 {
        32 + 8 * (c - 22)
    } else if c == 24 {
        48
    } else {
        pow2((c - 19) as nat) as int
    }
}

/// Number of extra bits of a literal-length code.
pub open spec fn ll_bits(c: int) -> int {
    if c < 16 {
        0
    } else if c < 20 {
        1
    } else if c < 22 {
        2
    } else if c < 24 {
        3
    } else if c == 24 {
        4
    } else {
        c - 19
    }
}

/// Literal-length code of a run of `len` literals.
pub open spec fn ll_code(len: int) -> int {
    if len < 16 {
        len
    } else if len < 24 {
        16 + (len - 16) / 2
    } else if len < 32 {
        20 + (len - 24) / 4
    } else if len < 48 {
        22 + (len - 32) / 8
    } else if len < 64 {
        24
    } else {
        19 + log2_floor(len)
    }
}

/// Smallest match length of a code.
pub open spec fn ml_base(c: int) -> int {
    3 + if c < 32 {
        c
    } else if c < 36 {
        32 + 2 * (c - 32)
    } else if c < 38 {
        40 + 4 * (c - 36)
    } else if c < 40 {
        48 + 8 * (c - 38)
    } else if c < 42 {
        64 + 16 * (c - 40)
    } else if c == 42 {
        96
    } else {
        pow2((c - 36) as nat) as int
    }
}

/// Number of extra bits of a match-length code.
pub open spec fn ml_bits(c: int) -> int {
    if c < 32 {
        0
    } else if c < 36 {
        1
    } else if c < 38 {
        2
    } else if c < 40 {
        3
    } else if c < 42 {
        4
    } else if c == 42 {
        5
    } else {
        c - 36
    }
}

/// Match-length code of a match of `len` bytes.
pub open spec fn ml_code(len: int) -> int {
    let m = len - 3;
    if m < 32 {
        m
    } else if m < 40 {
        32 + (m - 32) / 2
    } else if m < 48 {
        36 + (m - 40) / 4
    } else if m < 64 {
        38 + (m - 48) / 8
    } else if m < 96 {
        40 + (m - 64) / 16
    } else if m < 128 {
        42
    } else {
        36 + log2_floor(m)
    }
}

/// Whether a literal run, a match length and a wire offset value have codes.
pub open spec fn encodable(ll: int, ml: int, of: int) -> bool {
    &&& 0 <= ll <= MAX_LL
    &&& MIN_ML <= ml <= MAX_ML
    &&& 1 <= of <= u32::MAX
}

/// The packed word of one sequence.
pub open spec fn seq_word(ll: int, ml: int, of: int) -> SeqWord {
    let lc = ll_code(ll);
    let mc = ml_code(ml);
    let oc = log2_floor(of);
    let ln = ll_bits(lc) as nat;
    let mn = ml_bits(mc) as nat;
    SeqWord {
        codes: (lc + 0x100 * mc + 0x1_0000 * oc) as u32,
        add: ((ll - ll_base(lc)) + pow2(ln) * (ml - ml_base(mc)) + pow2(ln + mn) * (of - pow2(
            oc as nat,
        ))) as u64,
        add_nb: (ln + mn + oc) as u8,
    }
}

/// Literal length carried by a packed word.
pub open spec fn word_ll(codes: u32, add: u64) -> int {
    let lc = codes as int % 0x100;
    ll_base(lc) + add as int % pow2(ll_bits(lc) as nat) as int
}

/// Match length carried by a packed word.
pub open spec fn word_ml(codes: u32, add: u64) -> int {
    let lc = codes as int % 0x100;
    let mc = codes as int / 0x100 % 0x100;
    ml_base(mc) + add as int / pow2(ll_bits(lc) as nat) as int % pow2(ml_bits(mc) as nat) as int
}

/// Wire offset value carried by a packed word.
pub open spec fn word_of(codes: u32, add: u64) -> int {
    let lc = codes as int % 0x100;
    let mc = codes as int / 0x100 % 0x100;
    let oc = codes as int / 0x1_0000;
    pow2(oc as nat) + add as int / pow2((ll_bits(lc) + ml_bits(mc)) as nat) as int
}

/// Every literal length up to the longest lies in the range of its code.
pub proof fn lemma_ll_code(len: int)
    requires
        0 <= len <= MAX_LL,
    ensures
        0 <= ll_code(len) <= 35,
        0 <= ll_bits(ll_code(len)) <= 16,
        ll_base(ll_code(len)) <= len < ll_base(ll_code(len)) + pow2(ll_bits(ll_code(len)) as nat),
{
    lemma2_to64();
    if len >= 64 {
        lemma_log2_bracket(len);
        let k = log2_floor(len) as nat;
        if k < 6 {
            lemma_pow2_monotone((k + 1) as nat, 6);
        }
        if k > 16 {
            lemma_pow2_monotone(17, k);
        }
        lemma_pow2_unfold((k + 1) as nat);
    }
}

/// Every encodable match length lies in the range of its code.
pub proof fn lemma_ml_code(len: int)
    requires
        MIN_ML <= len <= MAX_ML,
    ensures
        0 <= ml_code(len) <= 52,
        0 <= ml_bits(ml_code(len)) <= 16,
        ml_base(ml_code(len)) <= len < ml_base(ml_code(len)) + pow2(ml_bits(ml_code(len)) as nat),
{
    lemma2_to64();
    let m = len - 3;
    if m >= 128 {
        lemma_log2_bracket(m);
        let k = log2_floor(m) as nat;
        if k < 7 {
            lemma_pow2_monotone((k + 1) as nat, 7);
        }
        if k > 16 {
            lemma_pow2_monotone(17, k);
        }
        lemma_pow2_unfold((k + 1) as nat);
    }
}

/// Base value and extra-bit count of a literal-length code.
pub fn ll_meta(code: u32) -> (r: (u32, u8))
    requires
        code <= 35,
    ensures
        r.0 == ll_base(code as int),
        r.1 == ll_bits(code as int),
        r.1 <= 16,
        r.0 <= 65536,
{
    if code < 16 {
        (code, 0)
    } else if code < 20 {
        (16 + 2 * (code - 16), 1)
    } else if code < 22 {
        (24 + 4 * (code - 20), 2)
    } else if code < 24 {
        (32 + 8 * (code - 22), 3)
    } else if code == 24 {
        (48, 4)
    } else {
        proof {
            lemma2_to64();
            lemma_pow2_monotone((code - 19) as nat, 16);
        }
        (pow2_u64(code - 19) as u32, (code - 19) as u8)
    }
}

/// Base value and extra-bit count of a match-length code.
pub fn ml_meta(code: u32) -> (r: (u32, u8))
    requires
        code <= 52,
    ensures
        r.0 == ml_base(code as int),
        r.1 == ml_bits(code as int),
        r.1 <= 16,
        r.0 <= 65539,
{
    if code < 32 {
        (3 + code, 0)
    } else if code < 36 {
        (35 + 2 * (code - 32), 1)
    } else if code < 38 {
        (43 + 4 * (code - 36), 2)
    } else if code < 40 {
        (51 + 8 * (code - 38), 3)
    } else if code < 42 {
        (67 + 16 * (code - 40), 4)
    } else if code == 42 {
        (99, 5)
    } else {
        proof {
            lemma2_to64();
            lemma_pow2_monotone((code - 36) as nat, 16);
        }
        (3 + pow2_u64(code - 36) as u32, (code - 36) as u8)
    }
}

/// Literal-length code, extra-bit payload and extra-bit count of a run.
pub fn encode_literal_length(len: u32) -> (r: (u8, u32, usize))
    requires
        len <= MAX_LL,
    ensures
        r.0 == ll_code(len as int),
        r.0 <= 35,
        r.1 == len - ll_base(ll_code(len as int)),
        r.2 == ll_bits(ll_code(len as int)),
{
    proof {
        lemma_ll_code(len as int);
        if len >= 64 {
            lemma_log2_u32(len);
        }
    }
    let code: u32 = if len < 16 {
        len
    } else if len < 24 {
        16 + (len - 16) / 2
    } else if len < 32 {
        20 + (len - 24) / 4
    } else if len < 48 {
        22 + (len - 32) / 8
    } else if len < 64 {
        24
    } else {
        19 + ilog2(len as u64)
    };
    let (base, bits): (u32, u8) = ll_meta(code);
    (code as u8, len - base, bits as usize)
}

/// Match-length code, extra-bit payload and extra-bit count of a match.
pub fn encode_match_len(len: u32) -> (r: (u8, u32, usize))
    requires
        MIN_ML <= len <= MAX_ML,
    ensures
        r.0 == ml_code(len as int),
        r.0 <= 52,
        r.1 == len - ml_base(ml_code(len as int)),
        r.2 == ml_bits(ml_code(len as int)),
{
    let m: u32 = len - 3;
    proof {
        lemma_ml_code(len as int);
        if m >= 128 {
            lemma_log2_u32(m);
        }
    }
    let code: u32 = if m < 32 {
        m
    } else if m < 40 {
        32 + (m - 32) / 2
    } else if m < 48 {
        36 + (m - 40) / 4
    } else if m < 64 {
        38 + (m - 48) / 8
    } else if m < 96 {
        40 + (m - 64) / 16
    } else if m < 128 {
        42
    } else {
        36 + ilog2(m as u64)
    };
    let (base, bits): (u32, u8) = ml_meta(code);
    (code as u8, len - base, bits as usize)
}

/// Offset code, extra-bit payload and extra-bit count of a wire offset value.
pub fn encode_offset(of: u32) -> (r: (u8, u32, usize))
    requires
        of >= 1,
    ensures
        r.0 == log2_floor(of as int),
        r.0 <= 31,
        r.1 == of - pow2(log2_floor(of as int) as nat),
        r.2 == log2_floor(of as int),
{
    proof {
        lemma_log2_u32(of);
        lemma_log2_bracket(of as int);
    }
    let log: u32 = ilog2(of as u64);
    let base: u64 = pow2_u64(log);
    (log as u8, (of as u64 - base) as u32, log as usize)
}

/// The merged payload stays below the power of two of the merged width.
proof fn lemma_payload(la: int, ln: nat, ma: int, mn: nat, oa: int, on: nat)
    requires
        0 <= la < pow2(ln),
        0 <= ma < pow2(mn),
        0 <= oa < pow2(on),
    ensures
        ({
            let add = la + pow2(ln) * ma + pow2(ln + mn) * oa;
            &&& 0 <= add < pow2(ln + mn + on)
            &&& 0 <= la + pow2(ln) * ma < pow2(ln + mn)
            &&& 0 <= pow2(ln) * ma
            &&& 0 <= pow2(ln + mn) * oa
            &&& add % pow2(ln) as int == la
            &&& add / pow2(ln) as int % pow2(mn) as int == ma
            &&& add / pow2(ln + mn) as int == oa
        }),
{
    let a = pow2(ln) as int;
    let b = pow2(mn) as int;
    let c = pow2(on) as int;
    lemma_pow2_pos(ln);
    lemma_pow2_pos(mn);
    lemma_pow2_pos(on);
    lemma_pow2_adds(ln, mn);
    lemma_pow2_adds(ln + mn, on);
    let add = la + a * ma + (a * b) * oa;
    assert(add == a * (ma + b * oa) + la) by (nonlinear_arith)
        requires
            add == la + a * ma + (a * b) * oa,
    ;
    assert(0 <= a * ma && la + a * ma < a * b) by (nonlinear_arith)
        requires
            0 <= la < a,
            0 <= ma < b,
    ;
    assert(0 <= (a * b) * oa && la + a * ma + (a * b) * oa < (a * b) * c) by (nonlinear_arith)
        requires
            0 <= la + a * ma < a * b,
            0 <= oa < c,
    ;
    lemma_fundamental_div_mod_converse(add, a, ma + b * oa, la);
    lemma_fundamental_div_mod_converse(ma + b * oa, b, oa, ma);
    assert(add == (a * b) * oa + (la + a * ma));
    assert(a * b > 0) by (nonlinear_arith)
        requires
            a > 0,
            b > 0,
    ;
    assert((a * b) * oa == oa * (a * b)) by (nonlinear_arith);
    lemma_fundamental_div_mod_converse(add, a * b, oa, la + a * ma);
}

/// The codes of one sequence unpack from the integer that holds them.
proof fn lemma_codes(lc: int, mc: int, oc: int)
    requires
        0 <= lc < 0x100,
        0 <= mc < 0x100,
        0 <= oc < 0x100,
    ensures
        ({
            let codes = lc + 0x100 * mc + 0x1_0000 * oc;
            &&& 0 <= codes <= u32::MAX
            &&& codes % 0x100 == lc
            &&& codes / 0x100 % 0x100 == mc
            &&& codes / 0x1_0000 == oc
        }),
{
}

/// Unpacking a packed word gives the sequence back.
pub proof fn lemma_packed_roundtrip(ll: int, ml: int, of: int)
    requires
        encodable(ll, ml, of),
    ensures
        ({
            let w = seq_word(ll, ml, of);
            &&& word_ll(w.codes, w.add) == ll
            &&& word_ml(w.codes, w.add) == ml
            &&& word_of(w.codes, w.add) == of
        }),
{
    let lc = ll_code(ll);
    let mc = ml_code(ml);
    let oc = log2_floor(of);
    lemma_ll_code(ll);
    lemma_ml_code(ml);
    lemma_log2_u32(of as u32);
    lemma_log2_bracket(of);
    lemma_pow2_unfold((oc + 1) as nat);
    lemma_codes(lc, mc, oc);
    let ln = ll_bits(lc) as nat;
    let mn = ml_bits(mc) as nat;
    lemma_payload(ll - ll_base(lc), ln, ml - ml_base(mc), mn, of - pow2(oc as nat), oc as nat);
    lemma2_to64();
    vstd::arithmetic::power2::lemma2_to64_rest();
    lemma_pow2_monotone(ln + mn + oc as nat, 63);
    let add = (ll - ll_base(lc)) + pow2(ln) * (ml - ml_base(mc)) + pow2(ln + mn) * (of - pow2(
        oc as nat,
    ));
    assert(0 <= add <= u64::MAX);
    assert(seq_word(ll, ml, of).add == add);
}

/// Packs one sequence into the word the block encoder consumes.
pub fn pack_seq(ll: u32, ml: u32, of: u32) -> (r: SeqWord)
    requires
        encodable(ll as int, ml as int, of as int),
    ensures
        r == seq_word(ll as int, ml as int, of as int),
        r.codes as int % 0x100 < SEQ_CODE_SPACE,
        r.codes as int / 0x100 % 0x100 < SEQ_CODE_SPACE,
        r.codes as int / 0x1_0000 < SEQ_CODE_SPACE,
{
    let (lc, la, ln): (u8, u32, usize) = encode_literal_length(ll);
    let (mc, ma, mn): (u8, u32, usize) = encode_match_len(ml);
    let (oc, oa, on): (u8, u32, usize) = encode_offset(of);
    proof {
        lemma_ll_code(ll as int);
        lemma_ml_code(ml as int);
        lemma_log2_u32(of);
        lemma_log2_bracket(of as int);
        lemma_pow2_unfold((oc + 1) as nat);
        lemma_codes(lc as int, mc as int, oc as int);
        lemma_payload(la as int, ln as nat, ma as int, mn as nat, oa as int, on as nat);
        lemma2_to64();
        vstd::arithmetic::power2::lemma2_to64_rest();
        lemma_pow2_monotone((ln + mn + on) as nat, 63);
        lemma_pow2_monotone((ln + mn) as nat, 63);
    }
    let sl: u64 = pow2_u64(ln as u32);
    let sm: u64 = pow2_u64((ln + mn) as u32);
    SeqWord {
        codes: lc as u32 + 0x100 * (mc as u32) + 0x1_0000 * (oc as u32),
        add: la as u64 + sl * (ma as u64) + sm * (oa as u64),
        add_nb: (ln + mn + on) as u8,
    }
}

/// Whether a packed word can be unpacked: its length codes exist and its offset
/// value stays inside 64 bits.
pub open spec fn unpackable(codes: u32, add: u64) -> bool {
    &&& codes as int % 0x100 <= 35
    &&& codes as int / 0x100 % 0x100 <= 52
    &&& codes as int / 0x1_0000 < SEQ_CODE_SPACE
    &&& word_of(codes, add) <= u64::MAX
}

/// A packed word copies at least three bytes.
pub proof fn lemma_word_ml(codes: u32, add: u64)
    requires
        unpackable(codes, add),
    ensures
        word_ml(codes, add) >= 3,
{
    let lc = codes as int % 0x100;
    let mc = codes as int / 0x100 % 0x100;
    vstd::arithmetic::power2::lemma_pow2_pos(ml_bits(mc) as nat);
    vstd::arithmetic::power2::lemma_pow2_pos(ll_bits(lc) as nat);
}

/// Literal length, match length and wire offset value (its low 32 bits) of a
/// packed word.
pub fn decode_packed(packed: u32, add: u64) -> (r: (u32, u32, u32))
    requires
        unpackable(packed, add),
    ensures
        r.0 == word_ll(packed, add),
        r.1 == word_ml(packed, add),
        r.2 == word_of(packed, add) % 0x1_0000_0000,
{
    let (lb, ln): (u32, u8) = ll_meta(packed % 0x100);
    let (mb, mn): (u32, u8) = ml_meta(packed / 0x100 % 0x100);
    let sl: u64 = pow2_u64(ln as u32);
    let sm: u64 = pow2_u64(mn as u32);
    let slm: u64 = pow2_u64((ln + mn) as u32);
    let so: u64 = pow2_u64(packed / 0x1_0000);
    proof {
        lemma2_to64();
        lemma_pow2_monotone(ln as nat, 16);
        lemma_pow2_monotone(mn as nat, 16);
    }
    let ll: u64 = lb as u64 + add % sl;
    let ml: u64 = mb as u64 + add / sl % sm;
    let of: u64 = so + add / slm;
    (ll as u32, ml as u32, (of % 0x1_0000_0000) as u32)
}

/// Packed words of encodable sequences can be unpacked.
pub proof fn lemma_word_unpackable(ll: int, ml: int, of: int)
    requires
        encodable(ll, ml, of),
    ensures
        unpackable(seq_word(ll, ml, of).codes, seq_word(ll, ml, of).add),
{
    lemma_packed_roundtrip(ll, ml, of);
    lemma_ll_code(ll);
    lemma_ml_code(ml);
    lemma_log2_u32(of as u32);
    lemma_codes(ll_code(ll), ml_code(ml), log2_floor(of));
}

} // verus!
