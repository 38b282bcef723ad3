//! Immutable sorted tables and the single-table iterator.
//!
//! A table is a non-empty ordered run of non-empty blocks; its logical
//! content is the flat sequence of its entries, strictly ascending by key.
//! `SsTableIterator` walks that sequence lazily, holding one block at a
//! time, and seeks by binary search over the blocks' first keys.

use std::sync::Arc;
use vstd::prelude::*;
use crate::keys::{lex_lt, lex_le, key_le, lemma_lex_le_iff_not_lt, lemma_lex_lt_trans,
    lemma_lex_lt_le_trans, lemma_lex_le_lt_trans};
use crate::entries::{EntryView, flat_of, prefix_len, entries_ascending, wf_group, wf_groups,
    first_ge, lemma_prefix_len_nonneg, lemma_prefix_len_monotone, lemma_flat_len,
    lemma_flat_index, lemma_wf_groups_ascending, lemma_ascending_le_last,
    lemma_adjacent_implies_ascending, lemma_first_ge_bounds, lemma_first_ge_unique};

verus! {

/// One bounded, ordered chunk of a table's entries: the unit of loading.
pub struct Block {
    pub entries: Vec<(Vec<u8>, Vec<u8>)>,
}

impl View for Block {
    type V = Seq<EntryView>;

    open spec fn view(&self) -> Seq<EntryView> {
        self.entries@.map_values(|e: (Vec<u8>, Vec<u8>)| (e.0@, e.1@))
    }
}

impl Block {
    pub open spec fn wf(self) -> bool {
        wf_group(self@)
    }
}

/// A cursor over one block; invalid exactly when it has advanced past the
/// block's last entry.
pub struct BlockIterator {
    pub block: Arc<Block>,
    pub idx: usize,
}

impl BlockIterator {
    pub open spec fn wf(self) -> bool {
        (*self.block).wf() && self.idx <= self.block@.len()
    }

    pub open spec fn is_valid_spec(self) -> bool {
        self.idx < self.block@.len()
    }

    pub fn create_and_seek_to_first(block: Arc<Block>) -> (r: Self)
        requires
            (*block).wf(),
        ensures
            r.wf(),
            r.block == block,
            r.idx == 0,
    {
        BlockIterator { block, idx: 0 }
    }

    /// Position at the first entry whose key is `>= key`.
    pub fn create_and_seek_to_key(block: Arc<Block>, key: &Vec<u8>) -> (r: Self)
        requires
            (*block).wf(),
        ensures
            r.wf(),
            r.block == block,
            r.idx as int == first_ge(block@, key@),
    {
        proof {
            assert(block@.len() == block.entries@.len());
        }
        let mut i: usize = 0;
        loop
            invariant
                (*block).wf(),
                block@.len() == block.entries@.len(),
                i <= block.entries.len(),
                forall|q: int| 0 <= q < i ==> lex_lt(#[trigger] block@[q].0, key@),
            decreases block.entries@.len() - i,
        {
            if i >= block.entries.len() {
                proof {
                    lemma_first_ge_unique(block@, key@, i as int);
                }
                return BlockIterator { block, idx: i };
            }
            if key_le(key, &block.entries[i].0) {
                proof {
                    assert(block@[i as int].0 == block.entries@[i as int].0@);
                    lemma_first_ge_unique(block@, key@, i as int);
                }
                return BlockIterator { block, idx: i };
            }
            proof {
                assert(block@[i as int].0 == block.entries@[i as int].0@);
                lemma_lex_le_iff_not_lt(key@, block@[i as int].0);
            }
            i += 1;
        }
    }

    pub fn key(&self) -> (r: &Vec<u8>)
        requires
            self.wf(),
            self.is_valid_spec(),
        ensures
            r@ == self.block@[self.idx as int].0,
    {
        proof {
            assert(self.block@.len() == self.block.entries@.len());
            assert(self.block@[self.idx as int].0 == self.block.entries@[self.idx as int].0@);
        }
        &self.block.entries[self.idx].0
    }

    pub fn value(&self) -> (r: &Vec<u8>)
        requires
            self.wf(),
            self.is_valid_spec(),
        ensures
            r@ == self.block@[self.idx as int].1,
    {
        proof {
            assert(self.block@.len() == self.block.entries@.len());
            assert(self.block@[self.idx as int].1 == self.block.entries@[self.idx as int].1@);
        }
        &self.block.entries[self.idx].1
    }

    pub fn is_valid(&self) -> (r: bool)
        ensures
            r == self.is_valid_spec(),
    {
        proof {
            assert(self.block@.len() == self.block.entries@.len());
        }
        self.idx < self.block.entries.len()
    }

    pub fn next(&mut self)
        requires
            old(self).wf(),
            old(self).is_valid_spec(),
        ensures
            final(self).wf(),
            final(self).block == old(self).block,
            final(self).idx == old(self).idx + 1,
    {
        let n = self.block.entries.len();
        proof {
            assert(self.block@.len() == self.block.entries@.len());
            assert(self.idx < n);
        }
        self.idx = self.idx + 1;
    }
}

/// An immutable sorted table: a non-empty run of blocks whose flat entry
/// sequence is strictly ascending by key.
pub struct SsTable {
    pub blocks: Vec<Arc<Block>>,
}

impl View for SsTable {
    type V = Seq<EntryView>;

    open spec fn view(&self) -> Seq<EntryView> {
        flat_of((*self).block_seqs())
    }
}

impl SsTable {
    /// The per-block entry sequences, in block order.
    pub open spec fn block_seqs(&self) -> Seq<Seq<EntryView>> {
        self.blocks@.map_values(|b: Arc<Block>| b@)
    }

    pub open spec fn num_blocks_spec(&self) -> int {
        self.blocks@.len() as int
    }

    pub open spec fn wf(&self) -> bool {
        wf_groups(self.block_seqs())
    }

    pub open spec fn first_key_spec(&self) -> Seq<u8> {
        self@[0].0
    }

    pub open spec fn last_key_spec(&self) -> Seq<u8> {
        self@[self@.len() - 1].0
    }

    /// The table's minimum key.
    pub fn first_key(&self) -> (r: &Vec<u8>)
        requires
            self.wf(),
        ensures
            r@ == self.first_key_spec(),
    {
        proof {
            let gs = (*self).block_seqs();
            assert(gs[0] == self.blocks@[0]@);
            lemma_flat_index(gs, 0, 0);
            assert(self.blocks@[0]@[0].0 == (*self.blocks@[0]).entries@[0].0@);
        }
        &self.blocks[0].entries[0].0
    }

    /// The table's maximum key.
    pub fn last_key(&self) -> (r: &Vec<u8>)
        requires
            self.wf(),
        ensures
            r@ == self.last_key_spec(),
    {
        let b = self.blocks.len() - 1;
        proof {
            let gs = (*self).block_seqs();
            assert(gs[b as int] == self.blocks@[b as int]@);
        }
        let j = self.blocks[b].entries.len() - 1;
        proof {
            let gs = (*self).block_seqs();
            lemma_flat_index(gs, b as int, j as int);
            lemma_flat_len(gs);
            assert(prefix_len(gs, b + 1) == prefix_len(gs, b as int) + gs[b as int].len());
            assert(self.blocks@[b as int]@[j as int].0
                == (*self.blocks@[b as int]).entries@[j as int].0@);
        }
        &self.blocks[b].entries[j].0
    }

    /// Decide well-formedness at run time: at least one block, every
    /// block non-empty with strictly ascending keys, and strictly
    /// ascending keys across block boundaries. Constructors of iterators
    /// require exactly this.
    pub fn is_well_formed(&self) -> (r: bool)
        ensures
            r == self.wf(),
    {
        let ghost gs = (*self).block_seqs();
        let nb = self.blocks.len();
        if nb == 0 {
            return false;
        }
        let mut b: usize = 0;
        while b < nb
            invariant
                b <= nb,
                nb == self.blocks@.len(),
                gs == (*self).block_seqs(),
                forall|q: int| 0 <= q < b ==> wf_group(#[trigger] gs[q]),
                forall|q: int| 0 <= q < b - 1 ==>
                    lex_lt(#[trigger] gs[q].last().0, gs[q + 1][0].0),
            decreases nb - b,
        {
            proof {
                assert(gs[b as int] == self.blocks@[b as int]@);
            }
            let m = self.blocks[b].entries.len();
            if m == 0 {
                proof {
                    assert(gs[b as int].len() == 0);
                    assert(!wf_group(gs[b as int]));
                }
                return false;
            }
            let mut j: usize = 1;
            while j < m
                invariant
                    1 <= j <= m,
                    b < nb,
                    nb == self.blocks@.len(),
                    gs == (*self).block_seqs(),
                    m == gs[b as int].len(),
                    forall|q: int| 0 <= q < j - 1 ==>
                        lex_lt(#[trigger] gs[b as int][q].0, gs[b as int][q + 1].0),
                decreases m - j,
            {
                proof {
                    assert(gs[b as int] == self.blocks@[b as int]@);
                    assert(gs[b as int][j - 1].0
                        == (*self.blocks@[b as int]).entries@[j - 1].0@);
                    assert(gs[b as int][j as int].0
                        == (*self.blocks@[b as int]).entries@[j as int].0@);
                }
                if !crate::keys::key_lt(
                    &self.blocks[b].entries[j - 1].0,
                    &self.blocks[b].entries[j].0,
                ) {
                    proof {
                        assert(!entries_ascending(gs[b as int]));
                        assert(!wf_group(gs[b as int]));
                    }
                    return false;
                }
                j += 1;
            }
            proof {
                lemma_adjacent_implies_ascending(gs[b as int]);
                assert(wf_group(gs[b as int]));
            }
            if b > 0 {
                let p = b - 1;
                let pm = self.blocks[p].entries.len();
                proof {
                    assert(gs[p as int] == self.blocks@[p as int]@);
                    assert(gs[p as int].len() == pm);
                    assert(gs[p as int].last().0
                        == (*self.blocks@[p as int]).entries@[pm - 1].0@);
                    assert(gs[b as int][0].0 == (*self.blocks@[b as int]).entries@[0].0@);
                }
                if !crate::keys::key_lt(
                    &self.blocks[p].entries[pm - 1].0,
                    &self.blocks[b].entries[0].0,
                ) {
                    return false;
                }
            }
            b += 1;
        }
        true
    }

    pub fn num_of_blocks(&self) -> (r: usize)
        ensures
            r as int == self.num_blocks_spec(),
    {
        self.blocks.len()
    }

    /// Hand out one block; the in-memory analogue of a cached block read.
    pub fn read_block_cached(&self, idx: usize) -> (r: Arc<Block>)
        requires
            idx < self.blocks@.len(),
        ensures
            r == self.blocks@[idx as int],
    {
        self.blocks[idx].clone()
    }

    /// Binary search over the blocks' first keys: the last block whose first
    /// key is `<= key`, or block 0 if `key` sorts before every first key.
    pub fn find_block_idx(&self, key: &Vec<u8>) -> (r: usize)
        requires
            self.wf(),
        ensures
            r < self.blocks@.len(),
            r == 0 || lex_le(self.block_seqs()[r as int][0].0, key@),
            r + 1 < self.blocks@.len() ==> lex_lt(key@, self.block_seqs()[r as int + 1][0].0),
    {
        let ghost gs = (*self).block_seqs();
        let mut lo: usize = 0;
        let mut hi: usize = self.blocks.len();
        while lo < hi
            invariant
                self.wf(),
                gs == (*self).block_seqs(),
                lo <= hi,
                hi <= self.blocks@.len(),
                forall|i: int| 0 <= i < lo ==> lex_le(#[trigger] gs[i][0].0, key@),
                forall|i: int| hi <= i < gs.len() ==> lex_lt(key@, #[trigger] gs[i][0].0),
            decreases hi - lo,
        {
            let mid = lo + (hi - lo) / 2;
            proof {
                assert(gs[mid as int] == self.blocks@[mid as int]@);
                assert(gs[mid as int].len() > 0);
                assert(gs[mid as int][0].0 == (*self.blocks@[mid as int]).entries@[0].0@);
            }
            if key_le(&self.blocks[mid].entries[0].0, key) {
                proof {
                    assert forall|i: int| 0 <= i < mid + 1 implies
                        lex_le(#[trigger] gs[i][0].0, key@) by {
                        if i < mid {
                            lemma_block_firsts_lt(gs, i, mid as int);
                            lemma_lex_lt_le_trans(gs[i][0].0, gs[mid as int][0].0, key@);
                        }
                    }
                }
                lo = mid + 1;
            } else {
                proof {
                    lemma_lex_le_iff_not_lt(gs[mid as int][0].0, key@);
                    assert forall|i: int| mid <= i < gs.len() implies
                        lex_lt(key@, #[trigger] gs[i][0].0) by {
                        if i > mid {
                            lemma_block_firsts_lt(gs, mid as int, i);
                            lemma_lex_lt_trans(key@, gs[mid as int][0].0, gs[i][0].0);
                        }
                    }
                }
                hi = mid;
            }
        }
        if lo == 0 {
            0
        } else {
            lo - 1
        }
    }
}

/// The keys a well-formed table stores are strictly ascending: iterating it
/// front to back yields its contents in strictly increasing key order with
/// no repetition.
pub proof fn lemma_table_ascending(t: SsTable)
    requires
        t.wf(),
    ensures
        entries_ascending(t@),
        t@.len() > 0,
{
    lemma_wf_groups_ascending(t.block_seqs());
}

/// First keys of the groups in a well-formed partition are strictly
/// ascending.
proof fn lemma_block_firsts_lt(gs: Seq<Seq<EntryView>>, b1: int, b2: int)
    requires
        wf_groups(gs),
        0 <= b1 < b2 < gs.len(),
    ensures
        lex_lt(gs[b1][0].0, gs[b2][0].0),
    decreases b2 - b1,
{
    if b2 == b1 + 1 {
        lemma_ascending_le_last(gs[b1], 0);
        assert(gs[b1].last() == gs[b1][gs[b1].len() - 1]);
        assert(lex_lt(gs[b1].last().0, gs[b1 + 1][0].0));
        lemma_lex_le_lt_trans(gs[b1][0].0, gs[b1][gs[b1].len() - 1].0, gs[b2][0].0);
    } else {
        lemma_block_firsts_lt(gs, b1, b2 - 1);
        lemma_block_firsts_lt(gs, b2 - 1, b2);
        lemma_lex_lt_trans(gs[b1][0].0, gs[b2 - 1][0].0, gs[b2][0].0);
    }
}

/// Entries of the groups before group `b` all sort before `k`, provided
/// group `b`'s first key is `<= k` (or `b` is the first group).
proof fn lemma_earlier_blocks_lt(gs: Seq<Seq<EntryView>>, b: int, k: Seq<u8>)
    requires
        wf_groups(gs),
        0 <= b < gs.len(),
        b == 0 || lex_le(gs[b][0].0, k),
    ensures
        forall|q: int| 0 <= q < prefix_len(gs, b) ==>
            lex_lt(#[trigger] flat_of(gs)[q].0, k),
{
    lemma_wf_groups_ascending(gs);
    if b > 0 {
        lemma_flat_index(gs, b, 0);
        lemma_prefix_len_nonneg(gs, b);
        assert forall|q: int| 0 <= q < prefix_len(gs, b) implies
            lex_lt(#[trigger] flat_of(gs)[q].0, k) by {
            assert(flat_of(gs)[prefix_len(gs, b)] == gs[b][0]);
            assert(lex_lt(flat_of(gs)[q].0, flat_of(gs)[prefix_len(gs, b)].0));
            lemma_lex_lt_le_trans(flat_of(gs)[q].0, gs[b][0].0, k);
        }
    }
}

/// Where a seek that examined group `b` ends up in the flat sequence.
proof fn lemma_table_seek_lands(gs: Seq<Seq<EntryView>>, k: Seq<u8>, b: int, j: int)
    requires
        wf_groups(gs),
        0 <= b < gs.len(),
        0 <= j <= gs[b].len(),
        b == 0 || lex_le(gs[b][0].0, k),
        forall|q: int| 0 <= q < j ==> lex_lt(#[trigger] gs[b][q].0, k),
        j < gs[b].len() ==> lex_le(k, gs[b][j].0),
        j == gs[b].len() && b + 1 < gs.len() ==> lex_lt(k, gs[b + 1][0].0),
    ensures
        first_ge(flat_of(gs), k) == prefix_len(gs, b) + j,
{
    let f = flat_of(gs);
    let p = prefix_len(gs, b) + j;
    lemma_earlier_blocks_lt(gs, b, k);
    lemma_flat_len(gs);
    lemma_prefix_len_nonneg(gs, b);
    assert(prefix_len(gs, b + 1) == prefix_len(gs, b) + gs[b].len());
    lemma_prefix_len_monotone(gs, b + 1, gs.len() as int);
    assert forall|q: int| 0 <= q < p implies lex_lt(#[trigger] f[q].0, k) by {
        if q < prefix_len(gs, b) {
            assert(lex_lt(flat_of(gs)[q].0, k));
        } else {
            lemma_flat_index(gs, b, q - prefix_len(gs, b));
        }
    }
    if p < f.len() {
        if j < gs[b].len() {
            lemma_flat_index(gs, b, j);
            assert(f[p] == gs[b][j]);
        } else {
            if b + 1 == gs.len() {
                assert(p == prefix_len(gs, gs.len() as int));
                assert(false);
            }
            lemma_flat_index(gs, b + 1, 0);
            assert(f[p] == gs[b + 1][0]);
        }
    }
    lemma_first_ge_unique(f, k, p);
}

/// A forward cursor over one table's entries, loading one block at a time.
pub struct SsTableIterator {
    pub table: Arc<SsTable>,
    pub blk_iter: BlockIterator,
    pub blk_idx: usize,
}

impl SsTableIterator {
    pub open spec fn groups(self) -> Seq<Seq<EntryView>> {
        (*self.table).block_seqs()
    }

    pub open spec fn wf(self) -> bool {
        &&& (*self.table).wf()
        &&& self.blk_idx <= self.groups().len()
        &&& self.blk_idx < self.groups().len() ==>
            self.blk_iter.wf()
            && self.blk_iter.block == (*self.table).blocks@[self.blk_idx as int]
            && (self.blk_iter.idx as int) < self.groups()[self.blk_idx as int].len()
        &&& self.blk_idx == self.groups().len() ==>
            self.blk_iter.idx >= self.blk_iter.block@.len()
    }

    pub open spec fn is_valid_spec(self) -> bool {
        self.blk_idx < self.groups().len()
    }

    /// Position in the table's flat entry sequence; the table's length when
    /// the iterator is exhausted.
    pub open spec fn pos(self) -> int {
        if self.blk_idx < self.groups().len() {
            prefix_len(self.groups(), self.blk_idx as int) + self.blk_iter.idx
        } else {
            self.table@.len() as int
        }
    }

    fn seek_to_first_inner(table: &Arc<SsTable>) -> (r: (usize, BlockIterator))
        requires
            (**table).wf(),
        ensures
            r.0 == 0,
            r.1.wf(),
            r.1.block == (**table).blocks@[0],
            r.1.idx == 0,
    {
        proof {
            assert((**table).block_seqs()[0] == (**table).blocks@[0]@);
        }
        (0, BlockIterator::create_and_seek_to_first(table.read_block_cached(0)))
    }

    /// Open a table positioned at its first entry.
    pub fn create_and_seek_to_first(table: Arc<SsTable>) -> (r: Self)
        requires
            (*table).wf(),
        ensures
            r.wf(),
            r.table == table,
            r.pos() == 0,
    {
        let (idx, iter) = Self::seek_to_first_inner(&table);
        proof {
            assert((*table).block_seqs()[0] == (*table).blocks@[0]@);
        }
        SsTableIterator { table, blk_iter: iter, blk_idx: idx }
    }

    /// Reposition at the table's first entry.
    pub fn seek_to_first(&mut self)
        requires
            (*old(self).table).wf(),
        ensures
            final(self).wf(),
            final(self).table == old(self).table,
            final(self).pos() == 0,
    {
        let (idx, iter) = Self::seek_to_first_inner(&self.table);
        self.blk_idx = idx;
        self.blk_iter = iter;
        proof {
            assert((*self.table).block_seqs()[0] == (*self.table).blocks@[0]@);
        }
    }

    fn seek_to_key_inner(table: &Arc<SsTable>, key: &Vec<u8>) -> (r: (usize, BlockIterator))
        requires
            (**table).wf(),
        ensures
            r.0 <= (**table).blocks@.len(),
            r.0 < (**table).blocks@.len() ==>
                r.1.wf()
                && r.1.block == (**table).blocks@[r.0 as int]
                && (r.1.idx as int) < (**table).block_seqs()[r.0 as int].len()
                && prefix_len((**table).block_seqs(), r.0 as int) + r.1.idx
                    == first_ge((*table)@, key@),
            r.0 == (**table).blocks@.len() ==>
                r.1.idx >= r.1.block@.len()
                && first_ge((*table)@, key@) == (*table)@.len(),
    {
        let ghost gs = (**table).block_seqs();
        proof {
            assert((*table)@ == flat_of(gs));
        }
        let b = table.find_block_idx(key);
        proof {
            assert(gs[b as int] == (**table).blocks@[b as int]@);
        }
        let bit = BlockIterator::create_and_seek_to_key(table.read_block_cached(b), key);
        proof {
            lemma_first_ge_bounds(gs[b as int], key@);
        }
        if !bit.is_valid() {
            let nb = table.num_of_blocks();
            proof {
                assert((b as int) < (**table).blocks@.len());
            }
            let b2 = b + 1;
            proof {
                lemma_table_seek_lands(gs, key@, b as int, gs[b as int].len() as int);
                assert(prefix_len(gs, b2 as int)
                    == prefix_len(gs, b as int) + gs[b as int].len());
            }
            if b2 < nb {
                proof {
                    assert(gs[b2 as int] == (**table).blocks@[b2 as int]@);
                }
                let bit2 = BlockIterator::create_and_seek_to_first(table.read_block_cached(b2));
                (b2, bit2)
            } else {
                proof {
                    lemma_flat_len(gs);
                }
                (b2, bit)
            }
        } else {
            proof {
                lemma_table_seek_lands(gs, key@, b as int, bit.idx as int);
            }
            (b, bit)
        }
    }

    /// Open a table positioned at the first entry whose key is `>= key`;
    /// exhausted if every key is smaller.
    pub fn create_and_seek_to_key(table: Arc<SsTable>, key: &Vec<u8>) -> (r: Self)
        requires
            (*table).wf(),
        ensures
            r.wf(),
            r.table == table,
            r.pos() == first_ge((*table)@, key@),
    {
        let (idx, iter) = Self::seek_to_key_inner(&table, key);
        SsTableIterator { table, blk_iter: iter, blk_idx: idx }
    }

    /// Reposition at the first entry whose key is `>= key`.
    pub fn seek_to_key(&mut self, key: &Vec<u8>)
        requires
            (*old(self).table).wf(),
        ensures
            final(self).wf(),
            final(self).table == old(self).table,
            final(self).pos() == first_ge((*old(self).table)@, key@),
    {
        let (idx, iter) = Self::seek_to_key_inner(&self.table, key);
        self.blk_idx = idx;
        self.blk_iter = iter;
    }

    pub fn key(&self) -> (r: &Vec<u8>)
        requires
            self.wf(),
            self.is_valid_spec(),
        ensures
            r@ == self.table@[self.pos()].0,
    {
        proof {
            assert(self.groups()[self.blk_idx as int]
                == (*self.table).blocks@[self.blk_idx as int]@);
            lemma_flat_index(self.groups(), self.blk_idx as int, self.blk_iter.idx as int);
        }
        self.blk_iter.key()
    }

    pub fn value(&self) -> (r: &Vec<u8>)
        requires
            self.wf(),
            self.is_valid_spec(),
        ensures
            r@ == self.table@[self.pos()].1,
    {
        proof {
            assert(self.groups()[self.blk_idx as int]
                == (*self.table).blocks@[self.blk_idx as int]@);
            lemma_flat_index(self.groups(), self.blk_idx as int, self.blk_iter.idx as int);
        }
        self.blk_iter.value()
    }

    pub fn is_valid(&self) -> (r: bool)
        requires
            self.wf(),
        ensures
            r == self.is_valid_spec(),
    {
        proof {
            if self.blk_idx < self.groups().len() {
                assert(self.groups()[self.blk_idx as int]
                    == (*self.table).blocks@[self.blk_idx as int]@);
            }
        }
        self.blk_iter.is_valid()
    }

    /// Advance one entry, crossing into the next block when the current one
    /// is exhausted.
    pub fn next(&mut self)
        requires
            old(self).wf(),
            old(self).is_valid_spec(),
        ensures
            final(self).wf(),
            final(self).table == old(self).table,
            final(self).pos() == old(self).pos() + 1,
    {
        proof {
            assert(self.groups()[self.blk_idx as int]
                == (*self.table).blocks@[self.blk_idx as int]@);
        }
        self.blk_iter.next();
        if !self.blk_iter.is_valid() {
            let nb = self.table.num_of_blocks();
            proof {
                assert(self.groups().len() == (*self.table).blocks@.len());
                assert((self.blk_idx as int) < self.groups().len());
            }
            self.blk_idx = self.blk_idx + 1;
            if self.blk_idx < nb {
                proof {
                    assert((*self.table).block_seqs()[self.blk_idx as int]
                        == (*self.table).blocks@[self.blk_idx as int]@);
                }
                self.blk_iter = BlockIterator::create_and_seek_to_first(
                    self.table.read_block_cached(self.blk_idx),
                );
                proof {
                    assert(prefix_len(self.groups(), self.blk_idx as int)
                        == prefix_len(self.groups(), self.blk_idx - 1)
                            + self.groups()[self.blk_idx - 1].len());
                }
            } else {
                proof {
                    lemma_flat_len(self.groups());
                    assert(prefix_len(self.groups(), self.blk_idx as int)
                        == prefix_len(self.groups(), self.blk_idx - 1)
                            + self.groups()[self.blk_idx - 1].len());
                }
            }
        }
    }

    /// Bounds on the iterator's position: validity is exactly "not past the
    /// end".
    pub proof fn lemma_pos_range(&self)
        requires
            self.wf(),
        ensures
            0 <= self.pos() <= self.table@.len(),
            self.is_valid_spec() <==> self.pos() < self.table@.len(),
    {
        let gs = self.groups();
        lemma_flat_len(gs);
        lemma_prefix_len_nonneg(gs, self.blk_idx as int);
        if self.blk_idx < gs.len() {
            assert(prefix_len(gs, self.blk_idx + 1)
                == prefix_len(gs, self.blk_idx as int) + gs[self.blk_idx as int].len());
            lemma_prefix_len_monotone(gs, self.blk_idx + 1, gs.len() as int);
        }
    }
}

} // verus!
