//! Flattened views of partitioned entry sequences.
//!
//! A sorted table is a sequence of blocks, and a run of tables is a sequence
//! of tables; both are, logically, a flat ordered sequence of key/value
//! entries. `flat_of` gives that flat view, `prefix_len` locates a group in
//! it, and `first_ge` is the position a seek must land on. The lemmas here
//! relate group-level facts to flat-level facts and are shared by the table
//! iterator and the concatenating iterator.

use vstd::prelude::*;
use crate::keys::{lex_lt, lex_le, lemma_lex_le_iff_not_lt, lemma_lex_le_lt_trans,
    lemma_lex_lt_irrefl, lemma_lex_lt_trans};

verus! {

/// View of one key/value entry: the key bytes and the value bytes.
pub type EntryView = (Seq<u8>, Seq<u8>);

/// All entries of a sequence of groups, concatenated in order.
pub open spec fn flat_of(gs: Seq<Seq<EntryView>>) -> Seq<EntryView>
    decreases gs.len(),
{
    if gs.len() == 0 {
        Seq::<EntryView>::empty()
    } else {
        gs[0] + flat_of(gs.skip(1))
    }
}

/// Number of entries held by the groups before group `b`.
pub open spec fn prefix_len(gs: Seq<Seq<EntryView>>, b: int) -> int
    decreases b,
{
    if b <= 0 {
        0
    } else {
        prefix_len(gs, b - 1) + gs[b - 1].len()
    }
}

/// Keys strictly ascending across the whole entry sequence.
pub open spec fn entries_ascending(s: Seq<EntryView>) -> bool {
    forall|i: int, j: int| #![trigger s[i], s[j]]
        0 <= i < j < s.len() ==> lex_lt(s[i].0, s[j].0)
}

/// A well-formed group: non-empty, keys strictly ascending.
pub open spec fn wf_group(s: Seq<EntryView>) -> bool {
    s.len() > 0 && entries_ascending(s)
}

/// A well-formed partition: at least one group, each well formed, with
/// strictly ascending keys across group boundaries.
pub open spec fn wf_groups(gs: Seq<Seq<EntryView>>) -> bool {
    &&& gs.len() > 0
    &&& forall|b: int| 0 <= b < gs.len() ==> wf_group(#[trigger] gs[b])
    &&& forall|b: int| 0 <= b < gs.len() - 1 ==>
        lex_lt(#[trigger] gs[b].last().0, gs[b + 1][0].0)
}

/// Position of the first entry whose key is `>= k`, or `s.len()` if none.
pub open spec fn first_ge(s: Seq<EntryView>, k: Seq<u8>) -> int
    decreases s.len(),
{
    if s.len() == 0 {
        0
    } else if lex_le(k, s[0].0) {
        0
    } else {
        1 + first_ge(s.skip(1), k)
    }
}

pub proof fn lemma_prefix_len_nonneg(gs: Seq<Seq<EntryView>>, b: int)
    ensures
        prefix_len(gs, b) >= 0,
    decreases b,
{
    if b > 0 {
        lemma_prefix_len_nonneg(gs, b - 1);
    }
}

pub proof fn lemma_prefix_len_monotone(gs: Seq<Seq<EntryView>>, b1: int, b2: int)
    requires
        b1 <= b2,
    ensures
        prefix_len(gs, b1) <= prefix_len(gs, b2),
    decreases b2,
{
    if b2 > b1 && b2 > 0 {
        lemma_prefix_len_monotone(gs, b1, b2 - 1);
    }
}

pub proof fn lemma_prefix_len_skip(gs: Seq<Seq<EntryView>>, b: int)
    requires
        gs.len() > 0,
        0 <= b <= gs.len() - 1,
    ensures
        prefix_len(gs, b + 1) == gs[0].len() + prefix_len(gs.skip(1), b),
    decreases b,
{
    if b > 0 {
        lemma_prefix_len_skip(gs, b - 1);
        assert(gs.skip(1)[b - 1] == gs[b]);
        assert(prefix_len(gs.skip(1), b) == prefix_len(gs.skip(1), b - 1) + gs.skip(1)[b - 1].len());
        assert(prefix_len(gs, b + 1) == prefix_len(gs, b) + gs[b].len());
    } else {
        assert(prefix_len(gs, 1) == prefix_len(gs, 0) + gs[0].len());
        assert(prefix_len(gs.skip(1), 0) == 0);
    }
}

/// `prefix_len` reads only the first `b` groups.
pub proof fn lemma_prefix_len_agree(gs1: Seq<Seq<EntryView>>, gs2: Seq<Seq<EntryView>>, b: int)
    requires
        forall|i: int| 0 <= i < b ==> #[trigger] gs1[i] == gs2[i],
    ensures
        prefix_len(gs1, b) == prefix_len(gs2, b),
    decreases b,
{
    if b > 0 {
        lemma_prefix_len_agree(gs1, gs2, b - 1);
    }
}

pub proof fn lemma_prefix_len_take(gs: Seq<Seq<EntryView>>, b: int)
    requires
        0 <= b <= gs.len(),
    ensures
        prefix_len(gs.take(b), b) == prefix_len(gs, b),
{
    lemma_prefix_len_agree(gs.take(b), gs, b);
}

pub proof fn lemma_flat_len(gs: Seq<Seq<EntryView>>)
    ensures
        flat_of(gs).len() == prefix_len(gs, gs.len() as int),
    decreases gs.len(),
{
    if gs.len() > 0 {
        lemma_flat_len(gs.skip(1));
        lemma_prefix_len_skip(gs, gs.len() - 1);
    }
}

pub proof fn lemma_flat_index(gs: Seq<Seq<EntryView>>, b: int, j: int)
    requires
        0 <= b < gs.len(),
        0 <= j < gs[b].len(),
    ensures
        0 <= prefix_len(gs, b) + j < flat_of(gs).len(),
        flat_of(gs)[prefix_len(gs, b) + j] == gs[b][j],
    decreases b,
{
    lemma_prefix_len_nonneg(gs, b);
    if b == 0 {
        assert(flat_of(gs)[j] == gs[0][j]);
    } else {
        lemma_flat_index(gs.skip(1), b - 1, j);
        lemma_prefix_len_skip(gs, b - 1);
        assert(gs.skip(1)[b - 1] == gs[b]);
        let q = prefix_len(gs.skip(1), b - 1) + j;
        assert(flat_of(gs)[gs[0].len() + q] == flat_of(gs.skip(1))[q]);
    }
}

/// If every entry of every group sorts before `k`, so does every flat entry.
pub proof fn lemma_flat_all_lt(gs: Seq<Seq<EntryView>>, k: Seq<u8>)
    requires
        forall|b: int, j: int| #![trigger gs[b][j]]
            0 <= b < gs.len() && 0 <= j < gs[b].len() ==> lex_lt(gs[b][j].0, k),
    ensures
        forall|q: int| 0 <= q < flat_of(gs).len() ==> lex_lt(#[trigger] flat_of(gs)[q].0, k),
    decreases gs.len(),
{
    if gs.len() > 0 {
        assert forall|b: int, j: int| #![trigger gs.skip(1)[b][j]]
            0 <= b < gs.skip(1).len() && 0 <= j < gs.skip(1)[b].len()
            implies lex_lt(gs.skip(1)[b][j].0, k) by {
            assert(gs.skip(1)[b] == gs[b + 1]);
            assert(gs[b + 1][j] == gs.skip(1)[b][j]);
        }
        lemma_flat_all_lt(gs.skip(1), k);
        assert forall|q: int| 0 <= q < flat_of(gs).len()
            implies lex_lt(#[trigger] flat_of(gs)[q].0, k) by {
            if q < gs[0].len() {
                assert(flat_of(gs)[q] == gs[0][q]);
            } else {
                assert(flat_of(gs)[q] == flat_of(gs.skip(1))[q - gs[0].len()]);
            }
        }
    }
}

pub proof fn lemma_flat_split(gs: Seq<Seq<EntryView>>, b: int)
    requires
        0 <= b <= gs.len(),
    ensures
        flat_of(gs) == flat_of(gs.take(b)) + flat_of(gs.skip(b)),
    decreases b,
{
    if b == 0 {
        assert(gs.take(0).len() == 0);
        assert(gs.skip(0) =~= gs);
        assert(flat_of(gs.take(0)) + flat_of(gs.skip(0)) =~= flat_of(gs));
    } else {
        lemma_flat_split(gs.skip(1), b - 1);
        assert(gs.skip(1).take(b - 1) =~= gs.take(b).skip(1));
        assert(gs.skip(1).skip(b - 1) =~= gs.skip(b));
        assert(gs.take(b)[0] == gs[0]);
        assert(gs.take(b).len() > 0);
        assert(flat_of(gs.take(b)) == gs[0] + flat_of(gs.skip(1).take(b - 1)));
        assert(flat_of(gs) ==
            gs[0] + (flat_of(gs.skip(1).take(b - 1)) + flat_of(gs.skip(b))));
        assert(gs[0] + (flat_of(gs.skip(1).take(b - 1)) + flat_of(gs.skip(b)))
            =~= (gs[0] + flat_of(gs.skip(1).take(b - 1))) + flat_of(gs.skip(b)));
    }
}

/// Groups each ascending, non-empty, with strictly ascending boundaries,
/// flatten to a strictly ascending entry sequence.
pub proof fn lemma_flat_ascending(gs: Seq<Seq<EntryView>>)
    requires
        forall|b: int| 0 <= b < gs.len() ==> wf_group(#[trigger] gs[b]),
        forall|b: int| 0 <= b < gs.len() - 1 ==>
            lex_lt(#[trigger] gs[b].last().0, gs[b + 1][0].0),
    ensures
        entries_ascending(flat_of(gs)),
    decreases gs.len(),
{
    if gs.len() == 0 {
    } else if gs.len() == 1 {
        assert(flat_of(gs.skip(1)).len() == 0);
        assert(gs[0] + flat_of(gs.skip(1)) =~= gs[0]);
    } else {
        assert forall|b: int| 0 <= b < gs.skip(1).len()
            implies wf_group(#[trigger] gs.skip(1)[b]) by {
            assert(gs.skip(1)[b] == gs[b + 1]);
        }
        assert forall|b: int| 0 <= b < gs.skip(1).len() - 1
            implies lex_lt(#[trigger] gs.skip(1)[b].last().0, gs.skip(1)[b + 1][0].0) by {
            assert(gs.skip(1)[b] == gs[b + 1]);
            assert(gs.skip(1)[b + 1] == gs[b + 2]);
        }
        lemma_flat_ascending(gs.skip(1));
        let head = gs[0];
        let tail = flat_of(gs.skip(1));
        // first entry of the tail is the first entry of the next group
        assert(gs.skip(1)[0] == gs[1]);
        assert(flat_of(gs.skip(1)) == gs[1] + flat_of(gs.skip(1).skip(1)));
        assert(tail[0] == gs[1][0]);
        let f = flat_of(gs);
        assert(f == head + tail);
        assert forall|i: int, j: int| #![trigger f[i], f[j]]
            0 <= i < j < f.len() implies lex_lt(f[i].0, f[j].0) by {
            if j < head.len() {
                assert(f[i] == head[i]);
                assert(f[j] == head[j]);
            } else if i >= head.len() {
                assert(f[i] == tail[i - head.len()]);
                assert(f[j] == tail[j - head.len()]);
            } else {
                assert(f[i] == head[i]);
                assert(f[j] == tail[j - head.len()]);
                // head[i] <= head.last() < gs[1][0] == tail[0] <= tail[j - len]
                if i < head.len() - 1 {
                    assert(lex_lt(head[i].0, head.last().0));
                }
                assert(lex_le(head[i].0, head.last().0));
                let t = j - head.len();
                if t > 0 {
                    assert(lex_lt(tail[0].0, tail[t].0));
                }
                assert(lex_le(tail[0].0, tail[t].0));
                crate::keys::lemma_lex_le_lt_trans(head[i].0, head.last().0, gs[1][0].0);
                crate::keys::lemma_lex_lt_le_trans(head[i].0, tail[0].0, tail[t].0);
            }
        }
    }
}

/// A well-formed partition flattens to a strictly ascending entry sequence.
pub proof fn lemma_wf_groups_ascending(gs: Seq<Seq<EntryView>>)
    requires
        wf_groups(gs),
    ensures
        entries_ascending(flat_of(gs)),
        flat_of(gs).len() > 0,
{
    lemma_flat_ascending(gs);
    lemma_flat_index(gs, 0, 0);
}

/// Within an ascending sequence, every key is at most the last key.
pub proof fn lemma_ascending_le_last(s: Seq<EntryView>, j: int)
    requires
        entries_ascending(s),
        0 <= j < s.len(),
    ensures
        lex_le(s[j].0, s[s.len() - 1].0),
{
    if j < s.len() - 1 {
        assert(lex_lt(s[j].0, s[s.len() - 1].0));
    }
}

proof fn lemma_adjacent_chain(s: Seq<EntryView>, i: int, j: int)
    requires
        forall|q: int| 0 <= q < s.len() - 1 ==> lex_lt(#[trigger] s[q].0, s[q + 1].0),
        0 <= i < j < s.len(),
    ensures
        lex_lt(s[i].0, s[j].0),
    decreases j - i,
{
    if j > i + 1 {
        lemma_adjacent_chain(s, i, j - 1);
        lemma_lex_lt_trans(s[i].0, s[j - 1].0, s[j].0);
    }
}

/// Strict order between every pair of adjacent keys gives strict order
/// between every pair of keys.
pub proof fn lemma_adjacent_implies_ascending(s: Seq<EntryView>)
    requires
        forall|q: int| 0 <= q < s.len() - 1 ==> lex_lt(#[trigger] s[q].0, s[q + 1].0),
    ensures
        entries_ascending(s),
{
    assert forall|i: int, j: int| #![trigger s[i], s[j]]
        0 <= i < j < s.len() implies lex_lt(s[i].0, s[j].0) by {
        lemma_adjacent_chain(s, i, j);
    }
}

pub proof fn lemma_first_ge_bounds(s: Seq<EntryView>, k: Seq<u8>)
    ensures
        0 <= first_ge(s, k) <= s.len(),
        forall|q: int| 0 <= q < first_ge(s, k) ==> lex_lt(#[trigger] s[q].0, k),
        first_ge(s, k) < s.len() ==> lex_le(k, s[first_ge(s, k)].0),
    decreases s.len(),
{
    if s.len() == 0 {
    } else if lex_le(k, s[0].0) {
    } else {
        lemma_lex_le_iff_not_lt(k, s[0].0);
        lemma_first_ge_bounds(s.skip(1), k);
        let f = first_ge(s, k);
        assert forall|q: int| 0 <= q < f implies lex_lt(#[trigger] s[q].0, k) by {
            if q > 0 {
                assert(s.skip(1)[q - 1] == s[q]);
            }
        }
        if f < s.len() {
            assert(s.skip(1)[f - 1] == s[f]);
        }
    }
}

/// `first_ge` is pinned by its two characteristic properties.
pub proof fn lemma_first_ge_unique(s: Seq<EntryView>, k: Seq<u8>, p: int)
    requires
        0 <= p <= s.len(),
        forall|q: int| 0 <= q < p ==> lex_lt(#[trigger] s[q].0, k),
        p < s.len() ==> lex_le(k, s[p].0),
    ensures
        p == first_ge(s, k),
{
    lemma_first_ge_bounds(s, k);
    let f = first_ge(s, k);
    if p < f {
        assert(lex_lt(s[p].0, k));
        lemma_lex_le_lt_trans(k, s[p].0, k);
        lemma_lex_lt_irrefl(k);
    }
    if f < p {
        assert(lex_lt(s[f].0, k));
        lemma_lex_le_lt_trans(k, s[f].0, k);
        lemma_lex_lt_irrefl(k);
    }
}

/// Seeking in a concatenation whose left part is wholly below `k` lands
/// past the left part.
pub proof fn lemma_first_ge_concat(aa: Seq<EntryView>, bb: Seq<EntryView>, k: Seq<u8>)
    requires
        forall|q: int| 0 <= q < aa.len() ==> lex_lt(#[trigger] aa[q].0, k),
    ensures
        first_ge(aa + bb, k) == aa.len() + first_ge(bb, k),
{
    lemma_first_ge_bounds(bb, k);
    let p = aa.len() + first_ge(bb, k);
    assert forall|q: int| 0 <= q < p implies lex_lt(#[trigger] (aa + bb)[q].0, k) by {
        if q < aa.len() {
            assert((aa + bb)[q] == aa[q]);
        } else {
            assert((aa + bb)[q] == bb[q - aa.len()]);
        }
    }
    if p < (aa + bb).len() {
        assert((aa + bb)[p] == bb[first_ge(bb, k)]);
    }
    lemma_first_ge_unique(aa + bb, k, p);
}

} // verus!
