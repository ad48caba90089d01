//! Hash-table maintenance: packed positions, inserts with and without chain
//! links, and the emission of one sequence.

use vstd::prelude::*;
use crate::gates::CoveredFill;
use crate::hash::{hash_at_width, lemma_mul_hash_range, long_slot, short_slot, slots, ChainHashWidth, HASH_READ};
use crate::seq_codes::{encodable, pack_seq, seq_word, SeqWord};
use crate::sequence::{reps_after, wire_ok, Reps};

verus! {

/// Spacing of the prefill grid.
pub const PREFILL_STRIDE: usize = 3;

/// Largest window: indices and distances stay inside 31 bits.
pub const WIN_MAX: usize = 0x7fff_ffff;

/// Entry of an absolute position: biased by one, so that zero stays the empty
/// slot, and truncated to 32 bits.
pub open spec fn entry_of(abs: int) -> u32 {
    ((abs + 1) % 0x1_0000_0000) as u32
}

/// The position below `pos` that an entry stands for, at most one cycle of 32
/// bits back.
pub open spec fn position_of(entry: u32, pos: int) -> Option<int> {
    let cand = pos / 0x1_0000_0000 * 0x1_0000_0000 + entry - 1;
    if entry == 0 {
        None
    } else if cand < pos {
        Some(cand)
    } else if cand >= 0x1_0000_0000 {
        Some(cand - 0x1_0000_0000)
    } else {
        None
    }
}

/// Encodes an absolute position as a table entry.
pub fn pack_pos(abs: u64) -> (r: u32)
    ensures
        r == entry_of(abs as int),
{
    ((abs % 0x1_0000_0000) as u32).wrapping_add(1)
}

/// Decodes a table entry against the scanning position.
pub fn unpack_pos(entry: u32, pos: u64) -> (r: Option<u64>)
    ensures
        match r {
            Some(p) => position_of(entry, pos as int) == Some(p as int),
            None => position_of(entry, pos as int) is None,
        },
{
    if entry == 0 {
        return None;
    }
    let low: u64 = pos % 0x1_0000_0000;
    let cycle: u64 = pos - low;
    let e: u64 = entry as u64 - 1;
    proof {
        vstd::arithmetic::div_mod::lemma_fundamental_div_mod(pos as int, 0x1_0000_0000);
    }
    if e < low {
        Some(cycle + e)
    } else if cycle >= 0x1_0000_0000 {
        Some(cycle - 0x1_0000_0000 + e)
    } else {
        None
    }
}

/// An entry resolves back to its position from anywhere in the following cycle,
/// unless the position is the one per cycle that packs to the empty slot.
pub proof fn lemma_entry_roundtrip(abs: int, pos: int)
    requires
        0 <= abs < pos <= abs + 0x1_0000_0000,
        entry_of(abs) != 0,
    ensures
        position_of(entry_of(abs), pos) == Some(abs),
{
    let c = 0x1_0000_0000int;
    vstd::arithmetic::div_mod::lemma_fundamental_div_mod(pos, c);
    vstd::arithmetic::div_mod::lemma_fundamental_div_mod(abs + 1, c);
}

/// The candidate that an entry names for a scan at index `idx`, whose absolute
/// position is `at`: the index at the entry's distance if that lies within the
/// window and within reach, else `idx` itself.
pub open spec fn candidate(entry: u32, at: int, idx: int, max_window: int) -> int {
    let d = at + 1 - entry;
    if 0 <= d <= idx && d <= max_window {
        idx - d
    } else {
        idx
    }
}

/// The candidate that an entry names, or `idx` itself.
pub fn resolve(entry: u32, at: u64, idx: usize, max_window: usize) -> (r: usize)
    requires
        at < u64::MAX,
    ensures
        r == candidate(entry, at as int, idx as int, max_window as int),
        r <= idx,
{
    let a: u64 = at + 1;
    if a < entry as u64 {
        return idx;
    }
    let d: u64 = a - entry as u64;
    if d <= idx as u64 && d <= max_window as u64 {
        idx - d as usize
    } else {
        idx
    }
}

/// A table with the position at `i` inserted under its short hash.
pub open spec fn put_short(
    t: Seq<u32>,
    w: Seq<u8>,
    i: int,
    ebase: int,
    log: u32,
    width: ChainHashWidth,
) -> Seq<u32> {
    t.update(short_slot(w, i, log, width), entry_of(ebase + i))
}

/// A table with the position at `i` inserted under its eight-byte hash.
pub open spec fn put_long(t: Seq<u32>, w: Seq<u8>, i: int, ebase: int, log: u32) -> Seq<u32> {
    t.update(long_slot(w, i, log), entry_of(ebase + i))
}

/// A table with the positions `from`, `from + step`, ... below `to` inserted in
/// this order.
pub open spec fn put_range(
    t: Seq<u32>,
    w: Seq<u8>,
    from: int,
    to: int,
    step: int,
    ebase: int,
    log: u32,
    width: ChainHashWidth,
) -> Seq<u32>
    decreases
        if to > from {
            to - from
        } else {
            0
        },
{
    if from < to && step > 0 {
        put_range(put_short(t, w, from, ebase, log, width), w, from + step, to, step, ebase, log, width)
    } else {
        t
    }
}

/// Inserting a range keeps the size of the table.
pub proof fn lemma_put_range_len(
    t: Seq<u32>,
    w: Seq<u8>,
    from: int,
    to: int,
    step: int,
    ebase: int,
    log: u32,
    width: ChainHashWidth,
)
    requires
        1 <= log < 64,
        t.len() == slots(log),
    ensures
        put_range(t, w, from, to, step, ebase, log, width).len() == t.len(),
    decreases
        if to > from {
            to - from
        } else {
            0
        },
{
    broadcast use lemma_mul_hash_range;

    if from < to && step > 0 {
        lemma_put_range_len(
            put_short(t, w, from, ebase, log, width),
            w,
            from + step,
            to,
            step,
            ebase,
            log,
            width,
        );
    }
}

/// Stores the position at `idx` as the newest one for its hash.
pub fn insert_at(win: &[u8], table: &mut Vec<u32>, idx: usize, ebase: u64, log: u32, width: ChainHashWidth)
    requires
        1 <= log < 32,
        old(table)@.len() == slots(log),
        idx + HASH_READ <= win@.len(),
        ebase + win@.len() <= u64::MAX,
    ensures
        final(table)@ == put_short(old(table)@, win@, idx as int, ebase as int, log, width),
        final(table)@.len() == old(table)@.len(),
{
    let h: u64 = hash_at_width(win, idx, log, width);
    assert(table@.len() == table.len());
    table.set(h as usize, pack_pos(ebase + idx as u64));
}

/// Stores the positions `from`, `from + step`, ... below `to`.
pub fn insert_range(
    win: &[u8],
    table: &mut Vec<u32>,
    from: usize,
    to: usize,
    step: usize,
    ebase: u64,
    log: u32,
    width: ChainHashWidth,
)
    requires
        1 <= log < 32,
        1 <= step <= 4,
        old(table)@.len() == slots(log),
        to > from ==> to + HASH_READ <= win@.len() + 1,
        win@.len() <= WIN_MAX,
        ebase + win@.len() <= u64::MAX,
    ensures
        final(table)@ == put_range(
            old(table)@,
            win@,
            from as int,
            to as int,
            step as int,
            ebase as int,
            log,
            width,
        ),
        final(table)@.len() == old(table)@.len(),
{
    let mut p: usize = from;
    while p < to
        invariant
            1 <= log < 32,
            1 <= step <= 4,
            table@.len() == slots(log),
            old(table)@.len() == slots(log),
            p < to ==> to + HASH_READ <= win@.len() + 1,
            win@.len() <= WIN_MAX,
            ebase + win@.len() <= u64::MAX,
            put_range(table@, win@, p as int, to as int, step as int, ebase as int, log, width)
                == put_range(
                old(table)@,
                win@,
                from as int,
                to as int,
                step as int,
                ebase as int,
                log,
                width,
            ),
        decreases to + 4 - p,
    {
        insert_at(win, table, p, ebase, log, width);
        p = p + step;
    }
}

/// A table after the fast scan's fill of a match of `ml` bytes at `start`: a
/// short match keeps every position, or every second one; a long match keeps one
/// position just inside each end. Positions from `limit` on cannot be hashed.
pub open spec fn covered(
    t: Seq<u32>,
    w: Seq<u8>,
    start: int,
    ml: int,
    limit: int,
    ebase: int,
    log: u32,
    fill: CoveredFill,
) -> Seq<u32> {
    let end = if start + ml < limit {
        start + ml
    } else {
        limit
    };
    let five = ChainHashWidth::Five;
    if ml <= 16 {
        let step: int = if fill == CoveredFill::Strided {
            2
        } else {
            1
        };
        put_range(t, w, start, end, step, ebase, log, five)
    } else if fill == CoveredFill::DictDense {
        put_range(t, w, start, end, 1, ebase, log, five)
    } else if start + ml - 2 <= limit {
        put_short(
            put_short(t, w, start + 2, ebase, log, five),
            w,
            start + ml - 2,
            ebase,
            log,
            five,
        )
    } else {
        t
    }
}

/// First window index that cannot be inserted by a fill.
pub open spec fn insert_limit(w: Seq<u8>) -> int {
    if w.len() >= HASH_READ {
        w.len() - HASH_READ
    } else {
        0
    }
}

/// Indexes the range that a match covers.
pub fn insert_covered(
    win: &[u8],
    table: &mut Vec<u32>,
    start: usize,
    match_len: usize,
    ebase: u64,
    log: u32,
    fill: CoveredFill,
)
    requires
        1 <= log < 32,
        old(table)@.len() == slots(log),
        start + match_len <= win@.len(),
        win@.len() <= WIN_MAX,
        ebase + win@.len() <= u64::MAX,
    ensures
        final(table)@ == covered(
            old(table)@,
            win@,
            start as int,
            match_len as int,
            insert_limit(win@),
            ebase as int,
            log,
            fill,
        ),
        final(table)@.len() == old(table)@.len(),
{
    let limit: usize = if win.len() >= HASH_READ {
        win.len() - HASH_READ
    } else {
        0
    };
    let end: usize = if start + match_len < limit {
        start + match_len
    } else {
        limit
    };
    if match_len <= 16 {
        let step: usize = if fill == CoveredFill::Strided {
            2
        } else {
            1
        };
        insert_range(win, table, start, end, step, ebase, log, ChainHashWidth::Five);
    } else if fill == CoveredFill::DictDense {
        insert_range(win, table, start, end, 1, ebase, log, ChainHashWidth::Five);
    } else if start + match_len - 2 <= limit {
        insert_at(win, table, start + 2, ebase, log, ChainHashWidth::Five);
        insert_at(win, table, start + match_len - 2, ebase, log, ChainHashWidth::Five);
    }
}

/// A fill keeps the size of the table.
pub proof fn lemma_covered_len(
    t: Seq<u32>,
    w: Seq<u8>,
    start: int,
    ml: int,
    limit: int,
    ebase: int,
    log: u32,
    fill: CoveredFill,
)
    requires
        1 <= log < 64,
        t.len() == slots(log),
    ensures
        covered(t, w, start, ml, limit, ebase, log, fill).len() == t.len(),
{
    broadcast use lemma_mul_hash_range;

    let end = if start + ml < limit {
        start + ml
    } else {
        limit
    };
    lemma_put_range_len(t, w, start, end, 1, ebase, log, ChainHashWidth::Five);
    lemma_put_range_len(t, w, start, end, 2, ebase, log, ChainHashWidth::Five);
}

/// Stages the literals before a match, pushes its packed word and moves the
/// history past it. Returns the end of the match.
pub fn push_seq_packed(
    win: &[u8],
    anchor: usize,
    start: usize,
    match_len: usize,
    of_value: u32,
    rep: &mut Reps,
    literals: &mut Vec<u8>,
    seqs: &mut Vec<SeqWord>,
) -> (end: usize)
    requires
        anchor <= start,
        start + match_len <= win@.len(),
        encodable(start - anchor, match_len as int, of_value as int),
        wire_ok(*old(rep), of_value as int, start - anchor),
    ensures
        end == start + match_len,
        final(literals)@ == old(literals)@ + win@.subrange(anchor as int, start as int),
        final(seqs)@ == old(seqs)@.push(
            seq_word(start - anchor, match_len as int, of_value as int),
        ),
        *final(rep) == reps_after(*old(rep), of_value as int, start - anchor),
{
    let ll: u32 = (start - anchor) as u32;
    append(literals, win, anchor, start);
    rep.advance(of_value, ll);
    seqs.push(pack_seq(ll, match_len as u32, of_value));
    assert(win@.len() == win.len());
    start + match_len
}

/// Appends `win[from..to]` to a buffer.
pub fn append(buf: &mut Vec<u8>, win: &[u8], from: usize, to: usize)
    requires
        from <= to <= win@.len(),
    ensures
        final(buf)@ == old(buf)@ + win@.subrange(from as int, to as int),
{
    let mut i: usize = from;
    while i < to
        invariant
            from <= i <= to <= win@.len(),
            buf@ == old(buf)@ + win@.subrange(from as int, i as int),
        decreases to - i,
    {
        buf.push(win[i]);
        i = i + 1;
        assert(win@.subrange(from as int, i as int) =~= win@.subrange(from as int, i - 1).push(
            win@[i - 1],
        ));
    }
}

} // verus!
