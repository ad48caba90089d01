//! The search tables of all strategies: their sizes, and how history is indexed
//! into them outside of a scan.

use vstd::prelude::*;
use crate::chains::{insert_linked_range, lemma_link_range, link_range, Heads, LinkCfg};
use crate::gates::RampGate;
use crate::hash::{hash8_at_log, hash_at_width, lemma_mul_hash_range, long_slot, short_slot, slot_count, slots, ChainHashWidth, HASH_READ};
use crate::opt_tree::{OptTree, Tree};
use crate::params::{LevelParams, Strategy};
use crate::probe::zeroed;
use crate::rows::{lemma_row_put_range, row_insert_fill, row_put_range, RowCfg, Rows};
use crate::tables::{insert_range, lemma_put_range_len, pack_pos, put_long, put_range, put_short, PREFILL_STRIDE, WIN_MAX};

verus! {

/// Contents of the search tables. A strategy uses some and leaves the others
/// empty.
#[verifier::ext_equal]
pub struct Store {
    /// Head table: newest position for every hash, or the entries of all rows.
    pub t: Seq<u32>,
    /// Second table: short hashes, or chain links.
    pub ch: Seq<u32>,
    /// Newest slot of every row.
    pub hd: Seq<u8>,
    /// Tables of the optimal parse.
    pub tree: Tree,
}

/// How positions are keyed into the tables.
#[derive(Clone, Copy, Debug)]
pub struct Keys {
    /// Absolute position of the window's first byte.
    pub base: u64,
    /// Coordinate origin of chain entries.
    pub origin: u64,
    pub hash_log: u32,
    pub strategy: Strategy,
    /// Input width of the short hash.
    pub width: ChainHashWidth,
}

/// A cleared table.
pub open spec fn zeros(n: int) -> Seq<u32> {
    Seq::new(n as nat, |k: int| 0u32)
}

/// A cleared table of rows' heads.
pub open spec fn zero_heads(n: int) -> Seq<u8> {
    Seq::new(n as nat, |k: int| 0u8)
}

/// A table with `n` slots: what it held as far as it goes, then zeros.
pub open spec fn resized(t: Seq<u32>, n: int) -> Seq<u32> {
    Seq::new(n as nat, |k: int| if k < t.len() {
        t[k]
    } else {
        0
    })
}

/// Sizes that a strategy's tables have.
pub open spec fn sized(strategy: Strategy, hash_log: u32, s: Store) -> bool {
    match strategy {
        Strategy::Fast => s.t.len() == slots(hash_log) && s.ch.len() == 0,
        Strategy::Dfast(log) => s.t.len() == slots(hash_log) && s.ch.len() == slots(log),
        Strategy::Chain(log) => s.t.len() == slots(hash_log) && s.ch.len() == slots(log),
        Strategy::Row(log) => {
            &&& s.t.len() == slots(hash_log)
            &&& s.ch.len() == 0
            &&& s.hd.len() == slots((hash_log - log) as u32)
        },
        Strategy::Opt(k) => {
            &&& s.tree.t.len() == slots(hash_log)
            &&& s.tree.bt.len() == 2 * slots(k.bt_log)
            &&& s.tree.h3.len() == if k.hash3_log == 0 {
                0
            } else {
                slots(k.hash3_log)
            }
            &&& s.t.len() == 0
            &&& s.ch.len() == 0
        },
        Strategy::BtLazy(_) => s.t.len() == 0 && s.ch.len() == 0,
    }
}

/// No tables of the optimal parse.
pub open spec fn no_tree(t: Tree) -> Tree {
    Tree { t: Seq::empty(), bt: Seq::empty(), h3: Seq::empty(), ..t }
}

/// A table of `n` slots that is kept if it has that size, else cleared.
pub open spec fn kept(t: Seq<u32>, n: int) -> Seq<u32> {
    if t.len() == n {
        t
    } else {
        zeros(n)
    }
}

/// The tables sized for a row. Tables of the right size keep what they hold; the
/// second table is cleared with its heads. Rows are kept only from rows.
pub open spec fn retabled(s: Store, from_rows: bool, p: LevelParams) -> Store {
    let n = slots(p.hash_log);
    match p.strategy {
        Strategy::Fast => Store {
            t: kept(s.t, n),
            ch: Seq::empty(),
            tree: no_tree(s.tree),
            ..s
        },
        Strategy::Dfast(log) => Store {
            t: kept(s.t, n),
            ch: if s.t.len() == n {
                kept(s.ch, slots(log))
            } else {
                zeros(slots(log))
            },
            tree: no_tree(s.tree),
            ..s
        },
        Strategy::Chain(log) => Store {
            t: kept(s.t, n),
            ch: if s.t.len() == n {
                kept(s.ch, slots(log))
            } else {
                zeros(slots(log))
            },
            tree: no_tree(s.tree),
            ..s
        },
        Strategy::Row(log) => {
            let rows = slots((p.hash_log - log) as u32);
            if from_rows && s.hd.len() == rows {
                Store { t: resized(s.t, n), ch: Seq::empty(), tree: no_tree(s.tree), ..s }
            } else {
                Store { t: zeros(n), ch: Seq::empty(), hd: zero_heads(rows), tree: no_tree(s.tree) }
            }
        },
        Strategy::Opt(k) => Store {
            t: Seq::empty(),
            ch: Seq::empty(),
            tree: Tree {
                t: kept(s.tree.t, n),
                bt: kept(s.tree.bt, 2 * slots(k.bt_log)),
                h3: kept(
                    s.tree.h3,
                    if k.hash3_log == 0 {
                        0
                    } else {
                        slots(k.hash3_log)
                    },
                ),
                ..s.tree
            },
            ..s
        },
        Strategy::BtLazy(_) => Store {
            t: Seq::empty(),
            ch: Seq::empty(),
            tree: no_tree(s.tree),
            ..s
        },
    }
}

/// The tables of all strategies.
pub struct SearchTables {
    pub table: Vec<u32>,
    pub chain: Vec<u32>,
    pub row_heads: Vec<u8>,
    pub tree: OptTree,
}

impl View for SearchTables {
    type V = Store;

    open spec fn view(&self) -> Store {
        Store { t: self.table@, ch: self.chain@, hd: self.row_heads@, tree: self.tree@ }
    }
}

/// Keeps a table of the right size, clears it to that size otherwise.
fn keep_or_clear(t: &mut Vec<u32>, n: usize)
    ensures
        final(t)@ == kept(old(t)@, n as int),
{
    if t.len() != n {
        *t = zeroed(n);
    }
}

/// Cleared heads of `n` rows.
fn zeroed_heads(n: usize) -> (r: Vec<u8>)
    ensures
        r@ == zero_heads(n as int),
{
    let r: Vec<u8> = vec![0; n];
    assert(r@ =~= zero_heads(n as int));
    r
}

/// A table's contents in `n` slots.
fn resize_table(t: &mut Vec<u32>, n: usize)
    ensures
        final(t)@ == resized(old(t)@, n as int),
{
    let ghost t0 = t@;
    if t.len() > n {
        t.truncate(n);
    }
    while t.len() < n
        invariant
            t@.len() <= n,
            t@.len() >= t0.len() || t@.len() == n,
            forall|k: int| 0 <= k < t@.len() ==> #[trigger] t@[k] == if k < t0.len() {
                t0[k]
            } else {
                0
            },
        decreases n - t.len(),
    {
        t.push(0);
    }
    assert(t@ =~= resized(t0, n as int));
}

impl SearchTables {
    /// Tables of the fastest row.
    pub fn new(hash_log: u32) -> (r: Self)
        requires
            hash_log < 32,
        ensures
            r@.t == zeros(slots(hash_log)),
            r@.ch.len() == 0,
            r@.hd.len() == 0,
            r@.tree == (Tree { t: Seq::empty(), bt: Seq::empty(), h3: Seq::empty(), next: 0, next3: 0 }),
            sized(Strategy::Fast, hash_log, r@),
    {
        let r = SearchTables {
            table: zeroed(slot_count(hash_log)),
            chain: Vec::new(),
            row_heads: Vec::new(),
            tree: OptTree {
                table: Vec::new(),
                bt: Vec::new(),
                hash3: Vec::new(),
                next_update: 0,
                next_update3: 0,
            },
        };
        assert(r@.tree =~= (Tree { t: Seq::empty(), bt: Seq::empty(), h3: Seq::empty(), next: 0, next3: 0 }));
        r
    }

    /// Drops the tables of the optimal parse.
    fn drop_tree(&mut self)
        ensures
            final(self)@ == (Store { tree: no_tree(old(self)@.tree), ..old(self)@ }),
    {
        self.tree.table = Vec::new();
        self.tree.bt = Vec::new();
        self.tree.hash3 = Vec::new();
        assert(self@.tree =~= no_tree(old(self)@.tree));
    }

    /// Sizes the tables for a row.
    pub fn resize_tables(&mut self, from_rows: bool, p: &LevelParams)
        requires
            p.wf(),
        ensures
            final(self)@ == retabled(old(self)@, from_rows, *p),
            sized(p.strategy, p.hash_log, final(self)@),
    {
        let ghost s0 = self@;
        let n: usize = slot_count(p.hash_log);
        match p.strategy {
            Strategy::Fast => {
                keep_or_clear(&mut self.table, n);
                self.chain = Vec::new();
                self.drop_tree();
            },
            Strategy::Dfast(log) => {
                let m: usize = slot_count(log);
                if self.table.len() != n {
                    self.table = zeroed(n);
                    self.chain = zeroed(m);
                } else {
                    keep_or_clear(&mut self.chain, m);
                }
                self.drop_tree();
            },
            Strategy::Chain(log) => {
                let m: usize = slot_count(log);
                if self.table.len() != n {
                    self.table = zeroed(n);
                    self.chain = zeroed(m);
                } else {
                    keep_or_clear(&mut self.chain, m);
                }
                self.drop_tree();
            },
            Strategy::Row(log) => {
                let rows: usize = slot_count(p.hash_log - log);
                if from_rows && self.row_heads.len() == rows {
                    resize_table(&mut self.table, n);
                } else {
                    self.table = zeroed(n);
                    self.row_heads = zeroed_heads(rows);
                }
                self.chain = Vec::new();
                self.drop_tree();
            },
            Strategy::Opt(k) => {
                let ring: usize = slot_count(k.bt_log + 1);
                proof {
                    vstd::arithmetic::power2::lemma_pow2_unfold((k.bt_log + 1) as nat);
                }
                let h3: usize = if k.hash3_log == 0 {
                    0
                } else {
                    slot_count(k.hash3_log)
                };
                keep_or_clear(&mut self.tree.table, n);
                keep_or_clear(&mut self.tree.bt, ring);
                keep_or_clear(&mut self.tree.hash3, h3);
                self.table = Vec::new();
                self.chain = Vec::new();
            },
            Strategy::BtLazy(_) => {
                self.table = Vec::new();
                self.chain = Vec::new();
                self.drop_tree();
            },
        }
        assert(self@ =~= retabled(s0, from_rows, *p));
    }
}

impl Keys {
    /// The keys fit a window and the tables.
    pub open spec fn fits(self, w: Seq<u8>, s: Store) -> bool {
        &&& 11 <= self.hash_log <= 23
        &&& w.len() <= WIN_MAX
        &&& self.base + self.origin + w.len() + 0x2_0000_0000 <= u64::MAX
        &&& sized(self.strategy, self.hash_log, s)
        &&& match self.strategy {
            Strategy::Dfast(log) => 10 <= log <= 19,
            Strategy::Chain(log) => 10 <= log <= 20,
            Strategy::Row(log) => 4 <= log <= 6,
            _ => true,
        }
    }

    /// Keys of the chain.
    pub open spec fn link(self) -> LinkCfg {
        LinkCfg { base: self.base, origin: self.origin, log: self.hash_log, width: self.width }
    }

    /// Keys of the rows.
    pub open spec fn row(self, log: u32) -> RowCfg {
        RowCfg {
            base: self.base,
            log: self.hash_log,
            row_log: log,
            width: self.width,
            attempts: 0,
            reach: 0,
            ramp: RampGate::off_gate(),
        }
    }
}

/// A table with the positions `from`, `from + step`, ... below `to` inserted
/// under their eight-byte hashes.
pub open spec fn put_long_range(t: Seq<u32>, w: Seq<u8>, from: int, to: int, step: int, base: int, log: u32) -> Seq<
    u32,
>
    decreases
        if to > from {
            to - from
        } else {
            0
        },
{
    if from < to && step > 0 {
        put_long_range(put_long(t, w, from, base, log), w, from + step, to, step, base, log)
    } else {
        t
    }
}

/// Inserting a range keeps the size of the table.
pub proof fn lemma_put_long_range(t: Seq<u32>, w: Seq<u8>, from: int, to: int, step: int, base: int, log: u32)
    requires
        1 <= log < 64,
        t.len() == slots(log),
    ensures
        put_long_range(t, w, from, to, step, base, log).len() == t.len(),
    decreases
        if to > from {
            to - from
        } else {
            0
        },
{
    broadcast use lemma_mul_hash_range;

    if from < to && step > 0 {
        lemma_put_long_range(put_long(t, w, from, base, log), w, from + step, to, step, base, log);
    }
}

/// The tables with the positions `from`, `from + step`, ... below `to` inserted,
/// oldest first. The tree strategies fill their tables when they search.
pub open spec fn indexed(k: Keys, w: Seq<u8>, s: Store, from: int, to: int, step: int) -> Store {
    let base = k.base as int;
    match k.strategy {
        Strategy::Fast => Store {
            t: put_range(s.t, w, from, to, step, base, k.hash_log, ChainHashWidth::Five),
            ..s
        },
        Strategy::Dfast(log) => Store {
            t: put_long_range(s.t, w, from, to, step, base, k.hash_log),
            ch: put_range(s.ch, w, from, to, step, base, log, k.width),
            ..s
        },
        Strategy::Chain(_) => {
            let h = link_range(k.link(), w, Heads { t: s.t, ch: s.ch }, from, to, step);
            Store { t: h.t, ch: h.ch, ..s }
        },
        Strategy::Row(log) => {
            let r = row_put_range(k.row(log), w, Rows { t: s.t, hd: s.hd }, from, to, step);
            Store { t: r.t, hd: r.hd, ..s }
        },
        Strategy::Opt(_) => s,
        Strategy::BtLazy(_) => s,
    }
}

/// Indexing keeps the sizes of the tables.
pub proof fn lemma_indexed_sized(k: Keys, w: Seq<u8>, s: Store, from: int, to: int, step: int)
    requires
        k.fits(w, s),
        from >= 0,
    ensures
        k.fits(w, indexed(k, w, s, from, to, step)),
        indexed(k, w, s, from, to, step).tree == s.tree,
{
    match k.strategy {
        Strategy::Fast => {
            lemma_put_range_len(s.t, w, from, to, step, k.base as int, k.hash_log, ChainHashWidth::Five);
        },
        Strategy::Dfast(log) => {
            lemma_put_long_range(s.t, w, from, to, step, k.base as int, k.hash_log);
            lemma_put_range_len(s.ch, w, from, to, step, k.base as int, log, k.width);
        },
        Strategy::Chain(log) => {
            crate::bits::lemma_pow2_monotone(0, log as nat);
            vstd::arithmetic::power2::lemma2_to64();
            lemma_link_range(k.link(), w, Heads { t: s.t, ch: s.ch }, from, to, step);
        },
        Strategy::Row(log) => {
            lemma_row_put_range(k.row(log), w, Rows { t: s.t, hd: s.hd }, from, to, step);
        },
        _ => {},
    }
}

/// Inserts the positions `from`, `from + step`, ... below `to` under their
/// eight-byte hashes.
fn insert_long_range(win: &[u8], t: &mut Vec<u32>, from: usize, to: usize, step: usize, base: u64, log: u32)
    requires
        1 <= log < 32,
        1 <= step <= 4,
        old(t)@.len() == slots(log),
        to > from ==> to + HASH_READ <= win@.len() + 1,
        win@.len() <= WIN_MAX,
        base + win@.len() <= u64::MAX,
    ensures
        final(t)@ == put_long_range(old(t)@, win@, from as int, to as int, step as int, base as int, log),
        final(t)@.len() == old(t)@.len(),
{
    let mut p: usize = from;
    while p < to
        invariant
            1 <= log < 32,
            1 <= step <= 4,
            t@.len() == slots(log),
            old(t)@.len() == slots(log),
            p < to ==> to + HASH_READ <= win@.len() + 1,
            win@.len() <= WIN_MAX,
            base + win@.len() <= u64::MAX,
            put_long_range(t@, win@, p as int, to as int, step as int, base as int, log) == put_long_range(
                old(t)@,
                win@,
                from as int,
                to as int,
                step as int,
                base as int,
                log,
            ),
        decreases to + 4 - p,
    {
        let h: usize = hash8_at_log(win, p, log) as usize;
        assert(t@.len() == t.len());
        t.set(h, pack_pos(base + p as u64));
        p = p + step;
    }
}

impl Keys {
    fn link_cfg(&self) -> (r: LinkCfg)
        ensures
            r == self.link(),
    {
        LinkCfg { base: self.base, origin: self.origin, log: self.hash_log, width: self.width }
    }

    fn row_cfg(&self, log: u32) -> (r: RowCfg)
        ensures
            r == self.row(log),
    {
        RowCfg {
            base: self.base,
            log: self.hash_log,
            row_log: log,
            width: self.width,
            attempts: 0,
            reach: 0,
            ramp: RampGate::off(),
        }
    }
}

impl SearchTables {
    /// Inserts the positions `from`, `from + step`, ... below `to`, oldest first.
    pub fn index_range(&mut self, k: &Keys, win: &[u8], from: usize, to: usize, step: usize)
        requires
            k.fits(win@, old(self)@),
            1 <= step <= 4,
            to > from ==> to + HASH_READ <= win@.len() + 1,
        ensures
            final(self)@ == indexed(*k, win@, old(self)@, from as int, to as int, step as int),
            k.fits(win@, final(self)@),
    {
        let ghost s0 = self@;
        match k.strategy {
            Strategy::Fast => {
                insert_range(win, &mut self.table, from, to, step, k.base, k.hash_log, ChainHashWidth::Five);
            },
            Strategy::Dfast(log) => {
                insert_long_range(win, &mut self.table, from, to, step, k.base, k.hash_log);
                insert_range(win, &mut self.chain, from, to, step, k.base, log, k.width);
            },
            Strategy::Chain(log) => {
                proof {
                    crate::bits::lemma_pow2_monotone(0, log as nat);
                    vstd::arithmetic::power2::lemma2_to64();
                }
                insert_linked_range(&k.link_cfg(), win, &mut self.table, &mut self.chain, from, to, step);
            },
            Strategy::Row(log) => {
                row_insert_fill(&k.row_cfg(log), win, &mut self.table, &mut self.row_heads, from, to, step);
            },
            Strategy::Opt(_) => {},
            Strategy::BtLazy(_) => {},
        }
        assert(self@ =~= indexed(*k, win@, s0, from as int, to as int, step as int));
    }
}

/// A table in which the position at `q` has claimed its slot if that was empty.
pub open spec fn claimed(t: Seq<u32>, w: Seq<u8>, q: int, last: int, base: int, log: u32) -> Seq<u32> {
    if q < last && t[short_slot(w, q, log, ChainHashWidth::Five)] == 0 {
        put_short(t, w, q, base, log, ChainHashWidth::Five)
    } else {
        t
    }
}

/// A table in which the position at `q` has claimed the slot of its eight-byte
/// hash if that was empty.
pub open spec fn claimed8(t: Seq<u32>, w: Seq<u8>, q: int, last: int, base: int, log: u32) -> Seq<u32> {
    if q < last && t[long_slot(w, q, log)] == 0 {
        put_long(t, w, q, base, log)
    } else {
        t
    }
}

/// A fast table filled with dictionary content: every third position, and the
/// ones between where their slot is still empty.
pub open spec fn dict_fast(t: Seq<u32>, w: Seq<u8>, i: int, last: int, base: int, log: u32) -> Seq<u32>
    decreases
        if last > i {
            last - i
        } else {
            0
        },
{
    if i < last {
        let a = put_short(t, w, i, base, log, ChainHashWidth::Five);
        let b = claimed(a, w, i + 1, last, base, log);
        let c = claimed(b, w, i + 2, last, base, log);
        dict_fast(c, w, i + 3, last, base, log)
    } else {
        t
    }
}

/// A long table filled with dictionary content, like a fast one.
pub open spec fn dict_long(t: Seq<u32>, w: Seq<u8>, i: int, last: int, base: int, log: u32) -> Seq<u32>
    decreases
        if last > i {
            last - i
        } else {
            0
        },
{
    if i < last {
        let a = put_long(t, w, i, base, log);
        let b = claimed8(a, w, i + 1, last, base, log);
        let c = claimed8(b, w, i + 2, last, base, log);
        dict_long(c, w, i + 3, last, base, log)
    } else {
        t
    }
}

/// A short table filled with dictionary content: every position of each group of
/// three that is complete, the first of the others.
pub open spec fn dict_small(t: Seq<u32>, w: Seq<u8>, i: int, last: int, base: int, log: u32, width: ChainHashWidth) -> Seq<
    u32,
>
    decreases
        if last > i {
            last - i
        } else {
            0
        },
{
    if i < last {
        let a = put_short(t, w, i, base, log, width);
        let b = if i + 2 < last {
            put_short(put_short(a, w, i + 1, base, log, width), w, i + 2, base, log, width)
        } else {
            a
        };
        dict_small(b, w, i + 3, last, base, log, width)
    } else {
        t
    }
}

/// The tables with dictionary content indexed: densely but for the one-table and
/// two-table strategies.
pub open spec fn dict_indexed(k: Keys, w: Seq<u8>, s: Store, last: int) -> Store {
    let base = k.base as int;
    match k.strategy {
        Strategy::Fast => Store { t: dict_fast(s.t, w, 0, last, base, k.hash_log), ..s },
        Strategy::Dfast(log) => Store {
            t: dict_long(s.t, w, 0, last, base, k.hash_log),
            ch: dict_small(s.ch, w, 0, last, base, log, k.width),
            ..s
        },
        _ => indexed(k, w, s, 0, last, 1),
    }
}

/// Where a fast strip fill starts: the table keeps two turns of its slots.
pub open spec fn strip_start(strategy: Strategy, hash_log: u32, last: int) -> int {
    let retain = slots(hash_log) * PREFILL_STRIDE * 2;
    if strategy == Strategy::Fast && last > retain {
        last - retain
    } else {
        0
    }
}

/// The tables with a strip of history indexed, every third position.
pub open spec fn strip_indexed(k: Keys, w: Seq<u8>, s: Store, last: int) -> Store {
    indexed(k, w, s, strip_start(k.strategy, k.hash_log, last), last, 3)
}

/// Stores the position at `q` if its slot is empty.
fn claim(win: &[u8], t: &mut Vec<u32>, q: usize, last: usize, base: u64, log: u32)
    requires
        1 <= log < 32,
        old(t)@.len() == slots(log),
        last + HASH_READ <= win@.len(),
        win@.len() <= WIN_MAX,
        base + win@.len() <= u64::MAX,
    ensures
        final(t)@ == claimed(old(t)@, win@, q as int, last as int, base as int, log),
        final(t)@.len() == old(t)@.len(),
{
    if q < last {
        let h: usize = hash_at_width(win, q, log, ChainHashWidth::Five) as usize;
        assert(t@.len() == t.len());
        if t[h] == 0 {
            t.set(h, pack_pos(base + q as u64));
        }
    }
}

/// Stores the position at `q` under its eight-byte hash if the slot is empty.
fn claim8(win: &[u8], t: &mut Vec<u32>, q: usize, last: usize, base: u64, log: u32)
    requires
        1 <= log < 32,
        old(t)@.len() == slots(log),
        last + HASH_READ <= win@.len(),
        win@.len() <= WIN_MAX,
        base + win@.len() <= u64::MAX,
    ensures
        final(t)@ == claimed8(old(t)@, win@, q as int, last as int, base as int, log),
        final(t)@.len() == old(t)@.len(),
{
    if q < last {
        let h: usize = hash8_at_log(win, q, log) as usize;
        assert(t@.len() == t.len());
        if t[h] == 0 {
            t.set(h, pack_pos(base + q as u64));
        }
    }
}

/// Fills a fast table with dictionary content.
fn fill_dict_fast(win: &[u8], t: &mut Vec<u32>, last: usize, base: u64, log: u32)
    requires
        1 <= log < 32,
        old(t)@.len() == slots(log),
        last + HASH_READ <= win@.len(),
        win@.len() <= WIN_MAX,
        base + win@.len() <= u64::MAX,
    ensures
        final(t)@ == dict_fast(old(t)@, win@, 0, last as int, base as int, log),
        final(t)@.len() == old(t)@.len(),
{
    let mut i: usize = 0;
    while i < last
        invariant
            1 <= log < 32,
            t@.len() == slots(log),
            old(t)@.len() == slots(log),
            last + HASH_READ <= win@.len(),
            win@.len() <= WIN_MAX,
            base + win@.len() <= u64::MAX,
            i <= last + 3,
            dict_fast(t@, win@, i as int, last as int, base as int, log) == dict_fast(
                old(t)@,
                win@,
                0,
                last as int,
                base as int,
                log,
            ),
        decreases last + 3 - i,
    {
        crate::tables::insert_at(win, t, i, base, log, ChainHashWidth::Five);
        claim(win, t, i + 1, last, base, log);
        claim(win, t, i + 2, last, base, log);
        i = i + 3;
    }
}

/// Fills a long table with dictionary content.
fn fill_dict_long(win: &[u8], t: &mut Vec<u32>, last: usize, base: u64, log: u32)
    requires
        1 <= log < 32,
        old(t)@.len() == slots(log),
        last + HASH_READ <= win@.len(),
        win@.len() <= WIN_MAX,
        base + win@.len() <= u64::MAX,
    ensures
        final(t)@ == dict_long(old(t)@, win@, 0, last as int, base as int, log),
        final(t)@.len() == old(t)@.len(),
{
    let mut i: usize = 0;
    while i < last
        invariant
            1 <= log < 32,
            t@.len() == slots(log),
            old(t)@.len() == slots(log),
            last + HASH_READ <= win@.len(),
            win@.len() <= WIN_MAX,
            base + win@.len() <= u64::MAX,
            i <= last + 3,
            dict_long(t@, win@, i as int, last as int, base as int, log) == dict_long(
                old(t)@,
                win@,
                0,
                last as int,
                base as int,
                log,
            ),
        decreases last + 3 - i,
    {
        let h: usize = hash8_at_log(win, i, log) as usize;
        assert(t@.len() == t.len());
        t.set(h, pack_pos(base + i as u64));
        claim8(win, t, i + 1, last, base, log);
        claim8(win, t, i + 2, last, base, log);
        i = i + 3;
    }
}

/// Fills a short table with dictionary content.
fn fill_dict_small(win: &[u8], t: &mut Vec<u32>, last: usize, base: u64, log: u32, width: ChainHashWidth)
    requires
        1 <= log < 32,
        old(t)@.len() == slots(log),
        last + HASH_READ <= win@.len(),
        win@.len() <= WIN_MAX,
        base + win@.len() <= u64::MAX,
    ensures
        final(t)@ == dict_small(old(t)@, win@, 0, last as int, base as int, log, width),
        final(t)@.len() == old(t)@.len(),
{
    let mut i: usize = 0;
    while i < last
        invariant
            1 <= log < 32,
            t@.len() == slots(log),
            old(t)@.len() == slots(log),
            last + HASH_READ <= win@.len(),
            win@.len() <= WIN_MAX,
            base + win@.len() <= u64::MAX,
            i <= last + 3,
            dict_small(t@, win@, i as int, last as int, base as int, log, width) == dict_small(
                old(t)@,
                win@,
                0,
                last as int,
                base as int,
                log,
                width,
            ),
        decreases last + 3 - i,
    {
        crate::tables::insert_at(win, t, i, base, log, width);
        if i + 2 < last {
            crate::tables::insert_at(win, t, i + 1, base, log, width);
            crate::tables::insert_at(win, t, i + 2, base, log, width);
        }
        i = i + 3;
    }
}

impl SearchTables {
    /// Indexes dictionary content.
    pub fn index_dict(&mut self, k: &Keys, win: &[u8], last: usize)
        requires
            k.fits(win@, old(self)@),
            last + HASH_READ <= win@.len(),
        ensures
            final(self)@ == dict_indexed(*k, win@, old(self)@, last as int),
            k.fits(win@, final(self)@),
    {
        let ghost s0 = self@;
        match k.strategy {
            Strategy::Fast => {
                fill_dict_fast(win, &mut self.table, last, k.base, k.hash_log);
            },
            Strategy::Dfast(log) => {
                fill_dict_long(win, &mut self.table, last, k.base, k.hash_log);
                fill_dict_small(win, &mut self.chain, last, k.base, log, k.width);
            },
            _ => {
                self.index_range(k, win, 0, last, 1);
            },
        }
        assert(self@ =~= dict_indexed(*k, win@, s0, last as int));
    }

    /// Indexes a strip of history.
    pub fn index_strip(&mut self, k: &Keys, win: &[u8], last: usize)
        requires
            k.fits(win@, old(self)@),
            last + HASH_READ <= win@.len(),
        ensures
            final(self)@ == strip_indexed(*k, win@, old(self)@, last as int),
            k.fits(win@, final(self)@),
    {
        let mut from: usize = 0;
        if let Strategy::Fast = k.strategy {
            proof {
                vstd::arithmetic::power2::lemma2_to64();
                crate::bits::lemma_pow2_monotone(k.hash_log as nat, 23);
            }
            let retain: usize = slot_count(k.hash_log) * PREFILL_STRIDE * 2;
            if last > retain {
                from = last - retain;
            }
        }
        self.index_range(k, win, from, last, PREFILL_STRIDE);
    }

    /// Clears the head table.
    pub fn clear_heads(&mut self)
        ensures
            final(self)@ == (Store { t: zeros(old(self)@.t.len() as int), ..old(self)@ }),
    {
        let n: usize = self.table.len();
        self.table = zeroed(n);
        assert(self@ =~= (Store { t: zeros(old(self)@.t.len() as int), ..old(self)@ }));
    }

    /// Clears the second table.
    pub fn clear_second(&mut self)
        ensures
            final(self)@ == (Store { ch: zeros(old(self)@.ch.len() as int), ..old(self)@ }),
    {
        let n: usize = self.chain.len();
        self.chain = zeroed(n);
        assert(self@ =~= (Store { ch: zeros(old(self)@.ch.len() as int), ..old(self)@ }));
    }

    /// Clears the rows' heads.
    pub fn clear_row_heads(&mut self)
        ensures
            final(self)@ == (Store { hd: zero_heads(old(self)@.hd.len() as int), ..old(self)@ }),
    {
        let n: usize = self.row_heads.len();
        self.row_heads = zeroed_heads(n);
        assert(self@ =~= (Store { hd: zero_heads(old(self)@.hd.len() as int), ..old(self)@ }));
    }
}

} // verus!
