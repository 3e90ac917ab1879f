//! A verified in-place sort for the keyed records the algorithms order
//! their candidate inputs by.

use vstd::prelude::*;
use vstd::seq_lib::group_to_multiset_ensures;

verus! {

/// One sortable record: a two-part key and the original position. The
/// position takes part in the order, so entries with equal keys keep their
/// original relative order, as a stable sort on the key alone would.
#[derive(Clone, Copy, Debug)]
pub struct SortEntry {
    pub key: u64,
    pub key2: u64,
    pub idx: u64,
}

/// The lexicographic order on `(key, key2, idx)`.
pub open spec fn entry_le(a: SortEntry, b: SortEntry) -> bool {
    ||| a.key < b.key
    ||| (a.key == b.key && a.key2 < b.key2)
    ||| (a.key == b.key && a.key2 == b.key2 && a.idx <= b.idx)
}

/// Ascending under [`entry_le`].
pub open spec fn entries_sorted(s: Seq<SortEntry>) -> bool {
    forall|i: int, j: int| 0 <= i < j < s.len() ==> entry_le(#[trigger] s[i], #[trigger] s[j])
}

fn entry_le_exec(a: &SortEntry, b: &SortEntry) -> (r: bool)
    ensures
        r == entry_le(*a, *b),
{
    a.key < b.key || (a.key == b.key && (a.key2 < b.key2 || (a.key2 == b.key2 && a.idx
        <= b.idx)))
}

/// Sorts in place, ascending by `(key, key2, idx)`. The result holds exactly
/// the entries given, nothing added and nothing dropped.
pub fn sort_entries(v: &mut Vec<SortEntry>)
    ensures
        entries_sorted(final(v)@),
        final(v)@.to_multiset() == old(v)@.to_multiset(),
        final(v)@.len() == old(v)@.len(),
{
    proof {
        broadcast use group_to_multiset_ensures;
    }
    let n = v.len();
    if n < 2 {
        return ;
    }
    let mut i: usize = 1;
    while i < n
        invariant
            1 <= i <= n,
            v@.len() == n,
            v@.to_multiset() == old(v)@.to_multiset(),
            forall|a: int, b: int|
                0 <= a < b < i ==> entry_le(#[trigger] v@[a], #[trigger] v@[b]),
        decreases n - i,
    {
        let mut j: usize = i;
        loop
            invariant_except_break
                j <= i < n,
                v@.len() == n,
                v@.to_multiset() == old(v)@.to_multiset(),
                forall|a: int, b: int|
                    0 <= a < b <= i && b != j ==> entry_le(#[trigger] v@[a], #[trigger] v@[b]),
                forall|b: int| j < b <= i ==> entry_le(v@[j as int], #[trigger] v@[b]),
            ensures
                v@.len() == n,
                v@.to_multiset() == old(v)@.to_multiset(),
                forall|a: int, b: int|
                    0 <= a < b <= i ==> entry_le(#[trigger] v@[a], #[trigger] v@[b]),
            decreases j,
        {
            if j == 0 {
                break ;
            }
            let prev = v[j - 1];
            let cur = v[j];
            if entry_le_exec(&prev, &cur) {
                proof {
                    assert forall|a: int, b: int| 0 <= a < b <= i implies entry_le(
                        #[trigger] v@[a],
                        #[trigger] v@[b],
                    ) by {
                        if b == j && a < j - 1 {
                            assert(entry_le(v@[a], v@[j - 1]));
                        }
                    }
                }
                break ;
            }
            let ghost before = v@;
            v[j - 1] = cur;
            v[j] = prev;
            proof {
                broadcast use vstd::seq_lib::to_multiset_update;
                broadcast use vstd::multiset::group_multiset_axioms;
                broadcast use group_to_multiset_ensures;

                let mid = before.update(j - 1, cur);
                assert(v@ == mid.update(j as int, prev));
                assert(mid[j as int] == cur);
                assert(before.contains(prev)) by {
                    assert(before[j - 1] == prev);
                }
                assert(before.to_multiset().count(prev) > 0);
                assert(v@.to_multiset() =~= before.to_multiset());
            }
            j = j - 1;
        }
        i = i + 1;
    }
}

/// Every entry of a rearrangement comes from the original sequence.
pub proof fn lemma_perm_contains(s1: Seq<SortEntry>, s2: Seq<SortEntry>, j: int)
    requires
        s1.to_multiset() == s2.to_multiset(),
        0 <= j < s2.len(),
    ensures
        exists|i: int| 0 <= i < s1.len() && s1[i] == s2[j],
{
    broadcast use group_to_multiset_ensures;

    assert(s2.contains(s2[j]));
    assert(s1.to_multiset().count(s2[j]) > 0);
    assert(s1.contains(s2[j]));
}

/// A property of every entry survives rearrangement.
pub proof fn lemma_perm_all(s1: Seq<SortEntry>, s2: Seq<SortEntry>, p: spec_fn(SortEntry) -> bool)
    requires
        s1.to_multiset() == s2.to_multiset(),
        forall|i: int| 0 <= i < s1.len() ==> p(#[trigger] s1[i]),
    ensures
        forall|j: int| 0 <= j < s2.len() ==> p(#[trigger] s2[j]),
{
    assert forall|j: int| 0 <= j < s2.len() implies p(s2[j]) by {
        lemma_perm_contains(s1, s2, j);
    }
}

/// Rearranging entries with pairwise distinct positions leaves the
/// positions pairwise distinct.
pub proof fn lemma_perm_distinct_idx(s1: Seq<SortEntry>, s2: Seq<SortEntry>)
    requires
        s1.to_multiset() == s2.to_multiset(),
        forall|a: int, b: int| 0 <= a < b < s1.len() ==> s1[a].idx != s1[b].idx,
    ensures
        forall|a: int, b: int| 0 <= a < b < s2.len() ==> s2[a].idx != s2[b].idx,
{
    broadcast use group_to_multiset_ensures;

    assert(s1.no_duplicates()) by {
        assert forall|a: int, b: int| 0 <= a < b < s1.len() implies s1[a] != s1[b] by {
            assert(s1[a].idx != s1[b].idx);
        }
        assert forall|a: int, b: int|
            0 <= a < s1.len() && 0 <= b < s1.len() && a != b implies s1[a] != s1[b] by {
            if a < b {
                assert(s1[a].idx != s1[b].idx);
            } else {
                assert(s1[b].idx != s1[a].idx);
            }
        }
    }
    s1.lemma_multiset_has_no_duplicates();
    s2.lemma_multiset_has_no_duplicates_conv();
    assert forall|a: int, b: int| 0 <= a < b < s2.len() implies s2[a].idx != s2[b].idx by {
        if s2[a].idx == s2[b].idx {
            assert(s2[a] != s2[b]) by {
                assert(s2.no_duplicates());
            }
            lemma_perm_contains(s1, s2, a);
            lemma_perm_contains(s1, s2, b);
            let ia = choose|i: int| 0 <= i < s1.len() && s1[i] == s2[a];
            let ib = choose|i: int| 0 <= i < s1.len() && s1[i] == s2[b];
            if ia < ib {
                assert(s1[ia].idx != s1[ib].idx);
            } else if ib < ia {
                assert(s1[ib].idx != s1[ia].idx);
            }
        }
    }
}

} // verus!
