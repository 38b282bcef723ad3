//! Concatenating iterator over a run of range-disjoint sorted tables.
//!
//! A run of tables whose key ranges ascend pairwise is, logically, one
//! sorted stream: the concatenation of the tables' flat entry sequences.
//! `SstConcatIterator` walks that stream while holding at most one
//! `SsTableIterator` (and so at most one block) at a time, opening each
//! table lazily when the stream reaches it.

use std::sync::Arc;
use vstd::prelude::*;
use vstd::pervasive::unreached;
use crate::keys::{lex_lt, lex_le, key_le, lemma_lex_le_iff_not_lt,
    lemma_lex_lt_le_trans, lemma_lex_le_lt_trans, lemma_lex_le_trans};
use crate::entries::{EntryView, flat_of, prefix_len, entries_ascending, first_ge,
    lemma_prefix_len_take, lemma_flat_len, lemma_flat_index, lemma_flat_split,
    lemma_flat_all_lt, lemma_flat_ascending, lemma_wf_groups_ascending,
    lemma_ascending_le_last, lemma_first_ge_bounds, lemma_first_ge_unique,
    lemma_first_ge_concat};
use crate::table::{SsTable, SsTableIterator};

verus! {

/// Per-table flat entry sequences, in run order.
pub open spec fn table_views(tables: Seq<Arc<SsTable>>) -> Seq<Seq<EntryView>> {
    tables.map_values(|t: Arc<SsTable>| t@)
}

/// The whole run's entries: the concatenation of the tables' contents.
pub open spec fn all_entries(tables: Seq<Arc<SsTable>>) -> Seq<EntryView> {
    flat_of(table_views(tables))
}

pub open spec fn first_key_of(tables: Seq<Arc<SsTable>>, i: int) -> Seq<u8> {
    tables[i]@[0].0
}

pub open spec fn last_key_of(tables: Seq<Arc<SsTable>>, i: int) -> Seq<u8> {
    tables[i]@[tables[i]@.len() - 1].0
}

/// The range discipline a run must satisfy: each table's range is
/// non-empty, and adjacent ranges ascend.
pub open spec fn tables_sorted(tables: Seq<Arc<SsTable>>) -> bool {
    &&& forall|i: int| 0 <= i < tables.len() ==>
        lex_le(#[trigger] first_key_of(tables, i), last_key_of(tables, i))
    &&& forall|i: int| 0 <= i < tables.len() - 1 ==>
        lex_le(#[trigger] last_key_of(tables, i), first_key_of(tables, i + 1))
}

/// A run fit for concatenation: every table well formed, ranges sorted.
pub open spec fn wf_tables(tables: Seq<Arc<SsTable>>) -> bool {
    &&& forall|i: int| #![trigger tables[i]] 0 <= i < tables.len() ==> (*tables[i]).wf()
    &&& tables_sorted(tables)
}

/// Adjacent ranges strictly disjoint: no key can occur in two tables.
pub open spec fn tables_strictly_disjoint(tables: Seq<Arc<SsTable>>) -> bool {
    forall|i: int| 0 <= i < tables.len() - 1 ==>
        lex_lt(#[trigger] last_key_of(tables, i), first_key_of(tables, i + 1))
}

/// How many tables at the front of the run have a first key `<= k`.
pub open spec fn count_first_le(tables: Seq<Arc<SsTable>>, k: Seq<u8>) -> int
    decreases tables.len(),
{
    if tables.len() == 0 {
        0
    } else if lex_le(first_key_of(tables, 0), k) {
        1 + count_first_le(tables.skip(1), k)
    } else {
        0
    }
}

/// The position a seek to `k` reaches in the run's concatenated sequence:
/// past the end when `k` sorts before every table, else the seek position
/// within the last table whose first key is `<= k`, offset by everything
/// before that table.
pub open spec fn concat_seek_pos(tables: Seq<Arc<SsTable>>, k: Seq<u8>) -> int {
    let p = count_first_le(tables, k);
    if p == 0 {
        all_entries(tables).len() as int
    } else {
        prefix_len(table_views(tables), p - 1) + first_ge(tables[p - 1]@, k)
    }
}

/// Check the range discipline of a run, table by table.
pub fn check_sst_valid(tables: &Vec<Arc<SsTable>>) -> (r: bool)
    requires
        forall|i: int| #![trigger tables@[i]] 0 <= i < tables@.len() ==> (*tables@[i]).wf(),
    ensures
        r == tables_sorted(tables@),
{
    let n = tables.len();
    let mut i: usize = 0;
    while i < n
        invariant
            i <= n,
            n == tables@.len(),
            forall|q: int| #![trigger tables@[q]] 0 <= q < n ==> (*tables@[q]).wf(),
            forall|q: int| 0 <= q < i ==>
                lex_le(#[trigger] first_key_of(tables@, q), last_key_of(tables@, q)),
        decreases n - i,
    {
        if !key_le(tables[i].first_key(), tables[i].last_key()) {
            proof {
                assert(!lex_le(first_key_of(tables@, i as int), last_key_of(tables@, i as int)));
                assert(!tables_sorted(tables@));
            }
            return false;
        }
        i += 1;
    }
    if n > 0 {
        let mut j: usize = 0;
        while j < n - 1
            invariant
                j <= n - 1,
                n == tables@.len(),
                n > 0,
                forall|q: int| #![trigger tables@[q]] 0 <= q < n ==> (*tables@[q]).wf(),
                forall|q: int| 0 <= q < n ==>
                    lex_le(#[trigger] first_key_of(tables@, q), last_key_of(tables@, q)),
                forall|q: int| 0 <= q < j ==>
                    lex_le(#[trigger] last_key_of(tables@, q), first_key_of(tables@, q + 1)),
            decreases n - 1 - j,
        {
            if !key_le(tables[j].last_key(), tables[j + 1].first_key()) {
                proof {
                    assert(!lex_le(last_key_of(tables@, j as int), first_key_of(tables@, j + 1)));
                    assert(!tables_sorted(tables@));
                }
                return false;
            }
            j += 1;
        }
    }
    true
}

/// First keys across a sorted run ascend (not necessarily strictly).
proof fn lemma_table_firsts_le(tables: Seq<Arc<SsTable>>, i1: int, i2: int)
    requires
        tables_sorted(tables),
        0 <= i1 <= i2 < tables.len(),
    ensures
        lex_le(first_key_of(tables, i1), first_key_of(tables, i2)),
    decreases i2 - i1,
{
    if i1 < i2 {
        lemma_table_firsts_le(tables, i1, i2 - 1);
        lemma_lex_le_trans(
            first_key_of(tables, i1),
            first_key_of(tables, i2 - 1),
            last_key_of(tables, i2 - 1),
        );
        lemma_lex_le_trans(
            first_key_of(tables, i1),
            last_key_of(tables, i2 - 1),
            first_key_of(tables, i2),
        );
    }
}

/// The characteristic properties of a partition point pin `count_first_le`.
proof fn lemma_count_char(tables: Seq<Arc<SsTable>>, k: Seq<u8>, p: int)
    requires
        0 <= p <= tables.len(),
        forall|i: int| 0 <= i < p ==> lex_le(#[trigger] first_key_of(tables, i), k),
        p < tables.len() ==> lex_lt(k, first_key_of(tables, p)),
    ensures
        count_first_le(tables, k) == p,
    decreases tables.len(),
{
    if tables.len() == 0 {
    } else if p == 0 {
        lemma_lex_le_iff_not_lt(first_key_of(tables, 0), k);
    } else {
        assert(lex_le(first_key_of(tables, 0), k));
        assert forall|i: int| 0 <= i < p - 1 implies
            lex_le(#[trigger] first_key_of(tables.skip(1), i), k) by {
            assert(tables.skip(1)[i] == tables[i + 1]);
            assert(lex_le(first_key_of(tables, i + 1), k));
        }
        if p - 1 < tables.skip(1).len() {
            assert(tables.skip(1)[p - 1] == tables[p]);
        }
        lemma_count_char(tables.skip(1), k, p - 1);
    }
}

/// Bounds and characteristic properties of `count_first_le`.
proof fn lemma_count_bounds(tables: Seq<Arc<SsTable>>, k: Seq<u8>)
    ensures
        0 <= count_first_le(tables, k) <= tables.len(),
        forall|i: int| 0 <= i < count_first_le(tables, k) ==>
            lex_le(#[trigger] first_key_of(tables, i), k),
        count_first_le(tables, k) < tables.len() ==>
            !lex_le(first_key_of(tables, count_first_le(tables, k)), k),
    decreases tables.len(),
{
    if tables.len() == 0 {
    } else if lex_le(first_key_of(tables, 0), k) {
        lemma_count_bounds(tables.skip(1), k);
        let c = count_first_le(tables, k);
        assert forall|i: int| 0 <= i < c implies
            lex_le(#[trigger] first_key_of(tables, i), k) by {
            if i > 0 {
                assert(tables.skip(1)[i - 1] == tables[i]);
                assert(lex_le(first_key_of(tables.skip(1), i - 1), k));
            }
        }
        if c < tables.len() {
            assert(tables.skip(1)[c - 1] == tables[c]);
        }
    }
}

/// Presents a run of range-disjoint sorted tables as one sorted stream,
/// holding at most one table iterator at a time.
pub struct SstConcatIterator {
    pub current: Option<SsTableIterator>,
    pub next_sst_idx: usize,
    pub sstables: Vec<Arc<SsTable>>,
}

impl SstConcatIterator {
    /// Well-formedness except that the active iterator may be exhausted;
    /// the state `move_until_valid` starts from.
    pub open spec fn wf_partial(&self) -> bool {
        &&& wf_tables(self.sstables@)
        &&& self.next_sst_idx <= self.sstables@.len()
        &&& match self.current {
            Some(it) => {
                &&& it.wf()
                &&& self.next_sst_idx >= 1
                &&& it.table == self.sstables@[self.next_sst_idx - 1]
            },
            None => self.next_sst_idx == self.sstables@.len(),
        }
    }

    /// Full well-formedness: an active iterator, when present, is valid.
    pub open spec fn wf(&self) -> bool {
        &&& self.wf_partial()
        &&& match self.current {
            Some(it) => it.is_valid_spec(),
            None => true,
        }
    }

    pub open spec fn is_valid_spec(&self) -> bool {
        self.current is Some
    }

    /// Position in the run's concatenated entry sequence; its length when
    /// the stream is exhausted.
    pub open spec fn pos(&self) -> int {
        match self.current {
            None => all_entries(self.sstables@).len() as int,
            Some(it) => prefix_len(table_views(self.sstables@), self.next_sst_idx - 1)
                + it.pos(),
        }
    }

    /// Bounds on the position: validity is exactly "not past the end".
    pub proof fn lemma_pos_range(&self)
        requires
            self.wf(),
        ensures
            0 <= self.pos() <= all_entries(self.sstables@).len(),
            self.is_valid_spec() <==> self.pos() < all_entries(self.sstables@).len(),
    {
        let tv = table_views(self.sstables@);
        lemma_flat_len(tv);
        match self.current {
            None => {}
            Some(it) => {
                let c = self.next_sst_idx - 1;
                assert(tv[c] == self.sstables@[c]@);
                it.lemma_pos_range();
                crate::entries::lemma_prefix_len_nonneg(tv, c);
                assert(prefix_len(tv, c + 1) == prefix_len(tv, c) + tv[c].len());
                crate::entries::lemma_prefix_len_monotone(tv, c + 1, tv.len() as int);
            }
        }
    }

    /// Skip forward over exhausted tables until the active iterator is
    /// valid or the run is exhausted; never holds two table iterators.
    pub fn move_until_valid(&mut self)
        requires
            old(self).wf_partial(),
        ensures
            final(self).wf(),
            final(self).sstables@ == old(self).sstables@,
            final(self).pos() == old(self).pos(),
    {
        loop
            invariant
                self.wf_partial(),
                self.sstables@ == old(self).sstables@,
                self.pos() == old(self).pos(),
            decreases
                2 * (self.sstables@.len() as int - self.next_sst_idx as int)
                    + (if self.current is Some { 1int } else { 0int }),
        {
            match &self.current {
                None => {
                    return;
                }
                Some(it) => {
                    proof {
                        it.lemma_pos_range();
                    }
                    if it.is_valid() {
                        return;
                    }
                }
            }
            // the active iterator has exhausted its table
            let ghost tv = table_views(self.sstables@);
            proof {
                let c = self.next_sst_idx - 1;
                assert(tv[c] == self.sstables@[c]@);
                assert(prefix_len(tv, c + 1) == prefix_len(tv, c) + tv[c].len());
            }
            let n = self.sstables.len();
            if self.next_sst_idx >= n {
                proof {
                    lemma_flat_len(tv);
                }
                self.current = None;
            } else {
                let it2 = SsTableIterator::create_and_seek_to_first(
                    self.sstables[self.next_sst_idx].clone(),
                );
                proof {
                    assert(tv[self.next_sst_idx as int] == self.sstables@[self.next_sst_idx as int]@);
                }
                self.current = Some(it2);
                self.next_sst_idx = self.next_sst_idx + 1;
            }
        }
    }

    /// Open the run positioned at its very first entry; exhausted at once
    /// when the run is empty.
    pub fn create_and_seek_to_first(sstables: Vec<Arc<SsTable>>) -> (r: Self)
        requires
            wf_tables(sstables@),
        ensures
            r.wf(),
            r.sstables@ == sstables@,
            r.pos() == 0,
    {
        if sstables.len() == 0 {
            let r = SstConcatIterator { current: None, next_sst_idx: 0, sstables };
            proof {
                assert(table_views(r.sstables@).len() == 0);
            }
            return r;
        }
        let it = SsTableIterator::create_and_seek_to_first(sstables[0].clone());
        proof {
            assert(table_views(sstables@)[0] == sstables@[0]@);
            lemma_wf_groups_ascending((*sstables@[0]).block_seqs());
            it.lemma_pos_range();
        }
        let mut r = SstConcatIterator { current: Some(it), next_sst_idx: 1, sstables };
        r.move_until_valid();
        r
    }

    /// Binary search for the partition point: how many tables have a first
    /// key `<= key`.
    fn find_table_idx(tables: &Vec<Arc<SsTable>>, key: &Vec<u8>) -> (r: usize)
        requires
            wf_tables(tables@),
        ensures
            r <= tables@.len(),
            forall|i: int| 0 <= i < r ==> lex_le(#[trigger] first_key_of(tables@, i), key@),
            r < tables@.len() ==> lex_lt(key@, first_key_of(tables@, r as int)),
    {
        let mut lo: usize = 0;
        let mut hi: usize = tables.len();
        while lo < hi
            invariant
                wf_tables(tables@),
                lo <= hi,
                hi <= tables@.len(),
                forall|i: int| 0 <= i < lo ==> lex_le(#[trigger] first_key_of(tables@, i), key@),
                forall|i: int| hi <= i < tables@.len() ==>
                    lex_lt(key@, #[trigger] first_key_of(tables@, i)),
            decreases hi - lo,
        {
            let mid = lo + (hi - lo) / 2;
            if key_le(tables[mid].first_key(), key) {
                proof {
                    assert forall|i: int| 0 <= i < mid + 1 implies
                        lex_le(#[trigger] first_key_of(tables@, i), key@) by {
                        if i < mid {
                            lemma_table_firsts_le(tables@, i, mid as int);
                            lemma_lex_le_trans(
                                first_key_of(tables@, i),
                                first_key_of(tables@, mid as int),
                                key@,
                            );
                        }
                    }
                }
                lo = mid + 1;
            } else {
                proof {
                    lemma_lex_le_iff_not_lt(first_key_of(tables@, mid as int), key@);
                    assert forall|i: int| mid <= i < tables@.len() implies
                        lex_lt(key@, #[trigger] first_key_of(tables@, i)) by {
                        if i > mid {
                            lemma_table_firsts_le(tables@, mid as int, i);
                            lemma_lex_lt_le_trans(
                                key@,
                                first_key_of(tables@, mid as int),
                                first_key_of(tables@, i),
                            );
                        }
                    }
                }
                hi = mid;
            }
        }
        lo
    }

    /// Open the run positioned by a seek to `key`: binary-search the last
    /// table whose first key is `<= key`, seek within it to the first
    /// entry `>= key`, and skip to the next table when that seek runs off
    /// the table's end. When `key` sorts before every table's first key
    /// the result is the always-invalid iterator positioned past the end.
    pub fn create_and_seek_to_key(sstables: Vec<Arc<SsTable>>, key: &Vec<u8>) -> (r: Self)
        requires
            wf_tables(sstables@),
        ensures
            r.wf(),
            r.sstables@ == sstables@,
            r.pos() == concat_seek_pos(sstables@, key@),
    {
        let p = Self::find_table_idx(&sstables, key);
        proof {
            lemma_count_char(sstables@, key@, p as int);
        }
        if p == 0 {
            let n = sstables.len();
            let r = SstConcatIterator { current: None, next_sst_idx: n, sstables };
            return r;
        }
        let idx = p - 1;
        let it = SsTableIterator::create_and_seek_to_key(sstables[idx].clone(), key);
        proof {
            assert(table_views(sstables@)[idx as int] == sstables@[idx as int]@);
        }
        let mut r = SstConcatIterator { current: Some(it), next_sst_idx: p, sstables };
        r.move_until_valid();
        r
    }

    pub fn key(&self) -> (r: &Vec<u8>)
        requires
            self.wf(),
            self.is_valid_spec(),
        ensures
            r@ == all_entries(self.sstables@)[self.pos()].0,
    {
        match &self.current {
            Some(it) => {
                proof {
                    let tv = table_views(self.sstables@);
                    let c = self.next_sst_idx - 1;
                    assert(tv[c] == self.sstables@[c]@);
                    it.lemma_pos_range();
                    lemma_flat_index(tv, c, it.pos());
                }
                it.key()
            }
            None => unreached(),
        }
    }

    pub fn value(&self) -> (r: &Vec<u8>)
        requires
            self.wf(),
            self.is_valid_spec(),
        ensures
            r@ == all_entries(self.sstables@)[self.pos()].1,
    {
        match &self.current {
            Some(it) => {
                proof {
                    let tv = table_views(self.sstables@);
                    let c = self.next_sst_idx - 1;
                    assert(tv[c] == self.sstables@[c]@);
                    it.lemma_pos_range();
                    lemma_flat_index(tv, c, it.pos());
                }
                it.value()
            }
            None => unreached(),
        }
    }

    pub fn is_valid(&self) -> (r: bool)
        requires
            self.wf(),
        ensures
            r == self.is_valid_spec(),
    {
        self.current.is_some()
    }

    /// Advance one entry, opening the next table lazily when the current
    /// one is exhausted.
    pub fn next(&mut self)
        requires
            old(self).wf(),
            old(self).is_valid_spec(),
        ensures
            final(self).wf(),
            final(self).sstables@ == old(self).sstables@,
            final(self).pos() == old(self).pos() + 1,
    {
        match &mut self.current {
            Some(it) => {
                it.next();
            }
            None => unreached(),
        }
        self.move_until_valid();
    }

    /// The lazy one-at-a-time design: exactly one underlying table
    /// iterator is ever counted as active, however many tables the run
    /// holds.
    pub fn num_active_iterators(&self) -> (r: usize)
        ensures
            r == 1,
    {
        1
    }
}

/// Concatenation transparency: iterating the run start to exhaustion
/// yields exactly each table's own entries, in table order, with no
/// duplicate and no omission, and the keys of that combined sequence are
/// strictly ascending.
pub proof fn lemma_concat_transparency(tables: Seq<Arc<SsTable>>)
    requires
        wf_tables(tables),
        tables_strictly_disjoint(tables),
    ensures
        all_entries(tables).len() == prefix_len(table_views(tables), tables.len() as int),
        forall|t: int, j: int| #![trigger tables[t]@[j]]
            0 <= t < tables.len() && 0 <= j < tables[t]@.len() ==>
                all_entries(tables)[prefix_len(table_views(tables), t) + j] == tables[t]@[j],
        entries_ascending(all_entries(tables)),
{
    let tv = table_views(tables);
    lemma_flat_len(tv);
    assert forall|t: int, j: int| #![trigger tables[t]@[j]]
        0 <= t < tables.len() && 0 <= j < tables[t]@.len() implies
        all_entries(tables)[prefix_len(tv, t) + j] == tables[t]@[j] by {
        assert(tv[t] == tables[t]@);
        lemma_flat_index(tv, t, j);
    }
    assert forall|b: int| 0 <= b < tv.len() implies crate::entries::wf_group(#[trigger] tv[b]) by {
        assert(tv[b] == tables[b]@);
        lemma_wf_groups_ascending((*tables[b]).block_seqs());
    }
    assert forall|b: int| 0 <= b < tv.len() - 1 implies
        lex_lt(#[trigger] tv[b].last().0, tv[b + 1][0].0) by {
        assert(tv[b] == tables[b]@);
        assert(tv[b + 1] == tables[b + 1]@);
        assert(tv[b].last() == tables[b]@[tables[b]@.len() - 1]);
        assert(lex_lt(last_key_of(tables, b), first_key_of(tables, b + 1)));
    }
    lemma_flat_ascending(tv);
}

/// Seek equivalence: when adjacent ranges are strictly disjoint and `k`
/// does not sort before the whole run, a seek to `k` lands exactly on the
/// first entry of the combined sequence whose key is `>= k`, so iterating
/// from there yields precisely the suffix starting at that entry.
pub proof fn lemma_concat_seek_suffix(tables: Seq<Arc<SsTable>>, k: Seq<u8>)
    requires
        wf_tables(tables),
        tables_strictly_disjoint(tables),
        tables.len() > 0 ==> lex_le(first_key_of(tables, 0), k),
    ensures
        concat_seek_pos(tables, k) == first_ge(all_entries(tables), k),
{
    if tables.len() == 0 {
        assert(table_views(tables).len() == 0);
        assert(all_entries(tables).len() == 0);
        return;
    }
    let tv = table_views(tables);
    lemma_count_bounds(tables, k);
    let p = count_first_le(tables, k);
    assert(p >= 1);
    let idx = p - 1;
    // every entry of every table before `idx` sorts before k
    assert forall|i: int, j: int| #![trigger tv.take(idx)[i][j]]
        0 <= i < tv.take(idx).len() && 0 <= j < tv.take(idx)[i].len() implies
        lex_lt(tv.take(idx)[i][j].0, k) by {
        assert(tv.take(idx)[i] == tv[i]);
        assert(tv[i] == tables[i]@);
        lemma_wf_groups_ascending((*tables[i]).block_seqs());
        lemma_ascending_le_last(tables[i]@, j);
        assert(lex_lt(last_key_of(tables, i), first_key_of(tables, i + 1)));
        if i + 1 < idx {
            lemma_table_firsts_le(tables, i + 1, idx);
        }
        assert(lex_le(first_key_of(tables, idx), k));
        lemma_lex_le_trans(first_key_of(tables, i + 1), first_key_of(tables, idx), k);
        lemma_lex_lt_le_trans(last_key_of(tables, i), first_key_of(tables, i + 1), k);
        lemma_lex_le_lt_trans(tables[i]@[j].0, last_key_of(tables, i), k);
    }
    lemma_flat_split(tv, idx);
    lemma_flat_all_lt(tv.take(idx), k);
    lemma_flat_len(tv.take(idx));
    lemma_prefix_len_take(tv, idx);
    let left = flat_of(tv.take(idx));
    let rest = flat_of(tv.skip(idx));
    assert(left.len() == prefix_len(tv, idx));
    // split the remainder into table `idx` and everything after it
    assert(tv.skip(idx)[0] == tv[idx]);
    assert(tv[idx] == tables[idx]@);
    let aa = tables[idx]@;
    assert(tv.skip(idx).skip(1) =~= tv.skip(p));
    let bb = flat_of(tv.skip(p));
    assert(rest == aa + bb);
    lemma_first_ge_bounds(aa, k);
    lemma_wf_groups_ascending((*tables[idx]).block_seqs());
    if first_ge(aa, k) < aa.len() {
        let f = first_ge(aa, k);
        assert forall|q: int| 0 <= q < f implies lex_lt(#[trigger] (aa + bb)[q].0, k) by {
            assert((aa + bb)[q] == aa[q]);
        }
        assert((aa + bb)[f] == aa[f]);
        lemma_first_ge_unique(aa + bb, k, f);
    } else {
        if p < tables.len() {
            assert(tv.skip(p)[0] == tv[p]);
            assert(tv[p] == tables[p]@);
            lemma_wf_groups_ascending((*tables[p]).block_seqs());
            assert(bb == tv[p] + flat_of(tv.skip(p).skip(1)));
            assert(bb[0] == tables[p]@[0]);
            lemma_lex_le_iff_not_lt(first_key_of(tables, p), k);
            assert(lex_le(k, bb[0].0));
            assert(first_ge(bb, k) == 0);
        } else {
            assert(tv.skip(p).len() == 0);
            assert(bb.len() == 0);
        }
        assert forall|q: int| 0 <= q < aa.len() implies lex_lt(#[trigger] aa[q].0, k) by {}
        lemma_first_ge_concat(aa, bb, k);
    }
    // combine the two splits
    assert forall|q: int| 0 <= q < left.len() implies lex_lt(#[trigger] left[q].0, k) by {}
    lemma_first_ge_concat(left, rest, k);
    assert(first_ge(all_entries(tables), k) == left.len() + first_ge(rest, k));
    assert(first_ge(rest, k) == first_ge(aa, k));
}

} // verus!
