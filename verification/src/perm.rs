//! Range-wise permutation reasoning: predicates saying that a step of the
//! algorithm only rearranges a sub-range of the array, and lemmas for
//! carrying such facts across swaps and nested ranges.

use vstd::prelude::*;

verus! {

broadcast use vstd::seq_lib::group_to_multiset_ensures;

/// Both sequences have the same length and agree at every position
/// outside the inclusive range `[left, right]`.
pub open spec fn unchanged_outside(a: Seq<u32>, b: Seq<u32>, left: int, right: int) -> bool {
    &&& a.len() == b.len()
    &&& forall|i: int| 0 <= i < a.len() && !(left <= i <= right) ==> a[i] == b[i]
}

/// The elements stored in the inclusive range `[left, right]` of `b` are a
/// rearrangement of those stored there in `a`.
pub open spec fn same_range_elems(a: Seq<u32>, b: Seq<u32>, left: int, right: int) -> bool {
    &&& a.len() == b.len()
    &&& a.subrange(left, right + 1).to_multiset() == b.subrange(left, right + 1).to_multiset()
}

/// The inclusive range `[left, right]` of `s` is sorted in ascending order.
pub open spec fn sorted_between(s: Seq<u32>, left: int, right: int) -> bool {
    forall|i: int, j: int| left <= i <= j <= right ==> s[i] <= s[j]
}

/// Exchanging two positions of a sequence does not change its multiset of
/// elements.
pub proof fn lemma_swap_multiset(s: Seq<u32>, i: int, j: int)
    requires
        0 <= i < s.len(),
        0 <= j < s.len(),
    ensures
        s.update(i, s[j]).update(j, s[i]).to_multiset() == s.to_multiset(),
{
    broadcast use vstd::multiset::group_multiset_axioms;

    if i == j {
        assert(s.update(i, s[j]).update(j, s[i]) =~= s);
    } else {
        let t1 = s.update(i, s[j]);
        let t = t1.update(j, s[i]);
        assert(s.contains(s[i]));
        assert(s.to_multiset().count(s[i]) > 0);
        assert(t1[j] == s[j]);
        assert(t1.to_multiset() == s.to_multiset().insert(s[j]).remove(s[i]));
        assert(t.to_multiset() == t1.to_multiset().insert(s[i]).remove(s[j]));
        assert(t.to_multiset() =~= s.to_multiset());
    }
}

/// Exchanging two positions that both lie inside `[left, right]` keeps the
/// multiset of that range, and the rest of the sequence, unchanged.
pub proof fn lemma_swap_in_range(s: Seq<u32>, left: int, right: int, i: int, j: int)
    requires
        0 <= left <= right < s.len(),
        left <= i <= right,
        left <= j <= right,
    ensures
        same_range_elems(s, s.update(i, s[j]).update(j, s[i]), left, right),
        unchanged_outside(s, s.update(i, s[j]).update(j, s[i]), left, right),
{
    let t = s.update(i, s[j]).update(j, s[i]);
    let sub = s.subrange(left, right + 1);
    assert(t.subrange(left, right + 1) =~= sub.update(i - left, sub[j - left]).update(
        j - left,
        sub[i - left],
    ));
    lemma_swap_multiset(sub, i - left, j - left);
}

/// If a nested range `[inner_left, inner_right]` was only rearranged, and
/// nothing outside it moved, then any enclosing range `[outer_left,
/// outer_right]` was only rearranged as well.
pub proof fn lemma_outer_range_elems(
    a: Seq<u32>,
    b: Seq<u32>,
    outer_left: int,
    outer_right: int,
    inner_left: int,
    inner_right: int,
)
    requires
        0 <= outer_left <= inner_left <= inner_right <= outer_right < a.len(),
        same_range_elems(a, b, inner_left, inner_right),
        unchanged_outside(a, b, inner_left, inner_right),
    ensures
        same_range_elems(a, b, outer_left, outer_right),
{
    let a_pre = a.subrange(outer_left, inner_left);
    let a_mid = a.subrange(inner_left, inner_right + 1);
    let a_post = a.subrange(inner_right + 1, outer_right + 1);
    let b_pre = b.subrange(outer_left, inner_left);
    let b_mid = b.subrange(inner_left, inner_right + 1);
    let b_post = b.subrange(inner_right + 1, outer_right + 1);
    assert(a.subrange(outer_left, outer_right + 1) =~= a_pre + a_mid + a_post);
    assert(b.subrange(outer_left, outer_right + 1) =~= b_pre + b_mid + b_post);
    assert(a_pre =~= b_pre);
    assert(a_post =~= b_post);
    vstd::seq_lib::lemma_multiset_commutative(a_pre, a_mid);
    vstd::seq_lib::lemma_multiset_commutative(b_pre, b_mid);
    vstd::seq_lib::lemma_multiset_commutative(a_pre + a_mid, a_post);
    vstd::seq_lib::lemma_multiset_commutative(b_pre + b_mid, b_post);
}

/// After a rearrangement of `[left, right]`, every element now stored in
/// that range already occurred in it before.
pub proof fn lemma_range_elems_contained(a: Seq<u32>, b: Seq<u32>, left: int, right: int)
    requires
        0 <= left <= right < a.len(),
        same_range_elems(a, b, left, right),
    ensures
        forall|t: int| left <= t <= right ==> a.subrange(left, right + 1).contains(#[trigger] b[t]),
{
    let a_sub = a.subrange(left, right + 1);
    let b_sub = b.subrange(left, right + 1);
    assert forall|t: int| left <= t <= right implies a_sub.contains(#[trigger] b[t]) by {
        assert(b_sub[t - left] == b[t]);
        assert(b_sub.contains(b[t]));
        assert(b_sub.to_multiset().count(b[t]) > 0);
        assert(a_sub.to_multiset().count(b[t]) > 0);
    }
}

} // verus!
