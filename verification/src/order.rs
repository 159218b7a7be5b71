//! The sorted view of a range and the order-statistic facts behind the
//! selection contract: which value stands at rank `k` of the sorted range,
//! and that this value depends only on the elements of the range, not on
//! their arrangement.

use vstd::prelude::*;
use vstd::relations::{sorted_by, total_ordering};
use vstd::seq_lib::{lemma_multiset_commutative, lemma_sorted_unique};

verus! {

broadcast use vstd::seq_lib::group_to_multiset_ensures;

/// Ascending order on `u32`, as a spec-level relation.
pub open spec fn u32_le() -> spec_fn(u32, u32) -> bool {
    |x: u32, y: u32| x <= y
}

/// The elements of `s` arranged in ascending order.
pub open spec fn sorted_of(s: Seq<u32>) -> Seq<u32> {
    s.sort_by(u32_le())
}

/// Ascending order on `u32` is a total ordering.
pub proof fn lemma_u32_le_total()
    ensures
        total_ordering(u32_le()),
{
    assert forall|x: u32| #[trigger] u32_le()(x, x) by {}
}

/// What sorting promises: the sorted view keeps the length and the multiset
/// of elements and is ascending.
pub proof fn lemma_sorted_of_ensures(s: Seq<u32>)
    ensures
        sorted_of(s).len() == s.len(),
        sorted_of(s).to_multiset() == s.to_multiset(),
        sorted_by(sorted_of(s), u32_le()),
{
    lemma_u32_le_total();
    s.lemma_sort_by_ensures(u32_le());
    assert(sorted_of(s).to_multiset() =~= s.to_multiset());
    assert(sorted_of(s).len() == sorted_of(s).to_multiset().len());
    assert(s.len() == s.to_multiset().len());
}

/// Sequences with the same elements have the same sorted view; in
/// particular every rank of the sorted order is preserved by any
/// rearrangement.
pub proof fn lemma_sorted_of_multiset(a: Seq<u32>, b: Seq<u32>)
    requires
        a.to_multiset() == b.to_multiset(),
    ensures
        sorted_of(a) == sorted_of(b),
{
    lemma_u32_le_total();
    a.lemma_sort_by_ensures(u32_le());
    b.lemma_sort_by_ensures(u32_le());
    assert(sorted_of(a).to_multiset() =~= sorted_of(b).to_multiset());
    lemma_sorted_unique(sorted_of(a), sorted_of(b), u32_le());
    assert(sorted_of(a) =~= sorted_of(b));
}

/// A position whose element dominates everything before it and is dominated
/// by everything after it holds exactly rank `k` of the sorted order.
pub proof fn lemma_kth_at_pivot(s: Seq<u32>, k: int)
    requires
        0 <= k < s.len(),
        forall|i: int| 0 <= i < k ==> s[i] <= s[k],
        forall|i: int| k < i < s.len() ==> s[i] >= s[k],
    ensures
        sorted_of(s)[k] == s[k],
{
    let leq = u32_le();
    lemma_u32_le_total();
    let lo = s.subrange(0, k);
    let hi = s.subrange(k + 1, s.len() as int);
    lo.lemma_sort_by_ensures(leq);
    hi.lemma_sort_by_ensures(leq);
    let lo_s = lo.sort_by(leq);
    let hi_s = hi.sort_by(leq);
    let piv = seq![s[k]];
    let t = lo_s + piv + hi_s;

    // Every element of the sorted halves is an element of the corresponding
    // half of `s`, hence bounded by the pivot value.
    assert(lo_s.to_multiset() =~= lo.to_multiset());
    assert(hi_s.to_multiset() =~= hi.to_multiset());
    assert forall|i: int| 0 <= i < lo_s.len() implies lo_s[i] <= s[k] by {
        assert(lo_s.contains(lo_s[i]));
        assert(lo_s.to_multiset().count(lo_s[i]) > 0);
        assert(lo.contains(lo_s[i]));
        let w = choose|w: int| 0 <= w < lo.len() && lo[w] == lo_s[i];
        assert(s[w] == lo_s[i]);
    }
    assert forall|i: int| 0 <= i < hi_s.len() implies hi_s[i] >= s[k] by {
        assert(hi_s.contains(hi_s[i]));
        assert(hi_s.to_multiset().count(hi_s[i]) > 0);
        assert(hi.contains(hi_s[i]));
        let w = choose|w: int| 0 <= w < hi.len() && hi[w] == hi_s[i];
        assert(s[k + 1 + w] == hi_s[i]);
    }

    // The assembled sequence is sorted.
    assert forall|i: int, j: int| 0 <= i < j < t.len() implies leq(t[i], t[j]) by {
        let m = lo_s.len() as int;
        if j < m {
            assert(leq(lo_s[i], lo_s[j]));
        } else if i > m {
            assert(leq(hi_s[i - m - 1], hi_s[j - m - 1]));
        } else if i < m && j == m {
            assert(t[i] == lo_s[i] && t[j] == s[k]);
        } else if i < m && j > m {
            assert(t[i] == lo_s[i] && t[j] == hi_s[j - m - 1]);
        } else {
            assert(i == m && j > m);
            assert(t[i] == s[k] && t[j] == hi_s[j - m - 1]);
        }
    }
    assert(sorted_by(t, leq));

    // It carries the same elements as `s`.
    assert(s =~= lo + piv + hi);
    lemma_multiset_commutative(lo, piv);
    lemma_multiset_commutative(lo_s, piv);
    lemma_multiset_commutative(lo + piv, hi);
    lemma_multiset_commutative(lo_s + piv, hi_s);
    assert((lo + piv).to_multiset() =~= (lo_s + piv).to_multiset());
    assert(t.to_multiset() =~= s.to_multiset());

    // Hence it is the sorted view of `s`, and rank `k` of it is `s[k]`.
    s.lemma_sort_by_ensures(leq);
    lemma_sorted_unique(sorted_of(s), t, leq);
    assert(lo_s.len() == lo_s.to_multiset().len());
    assert(lo.len() == lo.to_multiset().len());
    assert(lo_s.len() == k);
    assert(t[k] == s[k]);
}

/// Sorting a duplicate-free sequence yields a duplicate-free sequence, so
/// on distinct values the sorted range coincides with the sorted sequence
/// of distinct values: rank `k` needs no deduplication to be unambiguous.
pub proof fn lemma_sorted_of_distinct(s: Seq<u32>)
    requires
        s.no_duplicates(),
    ensures
        sorted_of(s).no_duplicates(),
{
    lemma_sorted_of_ensures(s);
    s.lemma_multiset_has_no_duplicates();
    sorted_of(s).lemma_multiset_has_no_duplicates_conv();
}

/// If the range `[left, right]` was only rearranged, and the element now at
/// position `k` dominates every element of `[left, k)` and is dominated by
/// every element of `(k, right]`, then that element is the value at rank
/// `k - left` of the sorted original range.
pub proof fn lemma_selected_value_is_kth(
    orig: Seq<u32>,
    cur: Seq<u32>,
    left: int,
    right: int,
    k: int,
)
    requires
        0 <= left <= k <= right < orig.len(),
        cur.len() == orig.len(),
        orig.subrange(left, right + 1).to_multiset() == cur.subrange(left, right + 1).to_multiset(),
        forall|i: int| left <= i < k ==> cur[i] <= cur[k],
        forall|i: int| k < i <= right ==> cur[i] >= cur[k],
    ensures
        cur[k] == sorted_of(orig.subrange(left, right + 1))[k - left],
{
    let s_old = orig.subrange(left, right + 1);
    let s_new = cur.subrange(left, right + 1);
    lemma_sorted_of_multiset(s_old, s_new);
    assert forall|i: int| #![trigger s_new[i]] 0 <= i < k - left implies s_new[i] <= s_new[k
        - left] by {
        assert(s_new[i] == cur[left + i]);
    }
    assert forall|i: int| #![trigger s_new[i]] k - left < i < s_new.len() implies s_new[i] >= s_new[
        k - left
    ] by {
        assert(s_new[i] == cur[left + i]);
    }
    lemma_kth_at_pivot(s_new, k - left);
}

/// Re-running selection on the already-permuted range is idempotent in
/// value: since a selection call only rearranges `[left, right]`, the value
/// at rank `k` of the sorted range is the same before and after, so a second
/// call with the same range and rank returns an index holding the same
/// value.
pub proof fn lemma_select_value_idempotent(a: Seq<u32>, b: Seq<u32>, left: int, right: int, k: int)
    requires
        0 <= left <= k <= right < a.len(),
        b.len() == a.len(),
        a.subrange(left, right + 1).to_multiset() == b.subrange(left, right + 1).to_multiset(),
    ensures
        sorted_of(b.subrange(left, right + 1))[k - left] == sorted_of(
            a.subrange(left, right + 1),
        )[k - left],
{
    lemma_sorted_of_multiset(a.subrange(left, right + 1), b.subrange(left, right + 1));
}

} // verus!
