//! Worst-case linear-time selection: Lomuto partition, sorting-based median
//! of a small range, the median-of-medians pivot rule, and the iterative
//! quickselect driver.

use vstd::prelude::*;
use crate::order::{lemma_selected_value_is_kth, sorted_of};
use crate::perm::{
    lemma_outer_range_elems, lemma_range_elems_contained, lemma_swap_in_range, same_range_elems,
    sorted_between, unchanged_outside,
};

verus! {

/// Exchange the elements at positions `i` and `j`.
fn swap_elems(list: &mut Vec<u32>, i: usize, j: usize)
    requires
        i < old(list).len(),
        j < old(list).len(),
    ensures
        final(list)@ == old(list)@.update(i as int, old(list)@[j as int]).update(
            j as int,
            old(list)@[i as int],
        ),
{
    let vi = list[i];
    let vj = list[j];
    list.set(i, vj);
    list.set(j, vi);
}

/// Sort the inclusive range `[left, right]` in place and return the index
/// of its middle position, which then holds the median of the range.
pub fn median_by_sort(list: &mut Vec<u32>, left: usize, right: usize) -> (m: usize)
    requires
        left <= right < old(list).len(),
    ensures
        m == (left + right) / 2,
        left <= m <= right,
        final(list)@.len() == old(list)@.len(),
        unchanged_outside(old(list)@, final(list)@, left as int, right as int),
        same_range_elems(old(list)@, final(list)@, left as int, right as int),
        sorted_between(final(list)@, left as int, right as int),
{
    let ghost orig: Seq<u32> = list@;
    let mut i: usize = left + 1;
    while i <= right
        invariant
            left < i <= right + 1,
            right < list@.len(),
            list@.len() == orig.len(),
            unchanged_outside(orig, list@, left as int, right as int),
            same_range_elems(orig, list@, left as int, right as int),
            list@.len() <= usize::MAX,
            sorted_between(list@, left as int, i - 1),
        decreases right + 1 - i,
    {
        let mut j: usize = i;
        while j > left && list[j - 1] > list[j]
            invariant
                left <= j <= i <= right < list@.len(),
                list@.len() == orig.len(),
                unchanged_outside(orig, list@, left as int, right as int),
                same_range_elems(orig, list@, left as int, right as int),
                forall|a: int, b: int|
                    left <= a <= b <= i && b != j ==> list@[a] <= list@[b],
            decreases j,
        {
            let ghost prev: Seq<u32> = list@;
            swap_elems(list, j - 1, j);
            proof {
                lemma_swap_in_range(prev, left as int, right as int, j - 1, j as int);
            }
            j = j - 1;
        }
        i = i + 1;
    }
    left + (right - left) / 2
}

/// Lomuto partition of the inclusive range `[left, right]` around the
/// element at `pivot_index`: after the call the pivot value stands at the
/// returned index `p`, everything in `[left, p)` is strictly smaller, and
/// everything in `[p, right]` is at least as large.
pub fn partition(list: &mut Vec<u32>, left: usize, right: usize, pivot_index: usize) -> (p: usize)
    requires
        left <= pivot_index <= right < old(list).len(),
    ensures
        left <= p <= right,
        final(list)@.len() == old(list)@.len(),
        unchanged_outside(old(list)@, final(list)@, left as int, right as int),
        same_range_elems(old(list)@, final(list)@, left as int, right as int),
        final(list)@[p as int] == old(list)@[pivot_index as int],
        forall|i: int| left <= i < p ==> final(list)@[i] < final(list)@[p as int],
        forall|i: int| p <= i <= right ==> final(list)@[i] >= final(list)@[p as int],
{
    let ghost orig: Seq<u32> = list@;
    let pivot_value = list[pivot_index];
    swap_elems(list, pivot_index, right);
    proof {
        lemma_swap_in_range(orig, left as int, right as int, pivot_index as int, right as int);
    }
    let mut store_index: usize = left;
    let mut i: usize = left;
    while i < right
        invariant
            left <= store_index <= i <= right < list@.len(),
            list@.len() == orig.len(),
            unchanged_outside(orig, list@, left as int, right as int),
            same_range_elems(orig, list@, left as int, right as int),
            list@[right as int] == pivot_value,
            forall|t: int| left <= t < store_index ==> list@[t] < pivot_value,
            forall|t: int| store_index <= t < i ==> list@[t] >= pivot_value,
        decreases right - i,
    {
        if list[i] < pivot_value {
            let ghost prev: Seq<u32> = list@;
            swap_elems(list, store_index, i);
            proof {
                lemma_swap_in_range(prev, left as int, right as int, store_index as int, i as int);
            }
            store_index = store_index + 1;
        }
        i = i + 1;
    }
    let ghost prev: Seq<u32> = list@;
    swap_elems(list, right, store_index);
    proof {
        lemma_swap_in_range(prev, left as int, right as int, right as int, store_index as int);
    }
    store_index
}

/// A step that only rearranges the working range `[l, r]` keeps every order
/// relation between the pinned positions outside it and the range itself.
proof fn lemma_sandwich_preserved(
    prev: Seq<u32>,
    cur: Seq<u32>,
    left: int,
    right: int,
    l: int,
    r: int,
)
    requires
        0 <= left <= l <= r <= right < prev.len(),
        same_range_elems(prev, cur, l, r),
        unchanged_outside(prev, cur, l, r),
        forall|i: int, j: int| left <= i < l && l <= j <= right ==> prev[i] <= prev[j],
        forall|i: int, j: int| left <= i <= r && r < j <= right ==> prev[i] <= prev[j],
    ensures
        forall|i: int, j: int| left <= i < l && l <= j <= right ==> cur[i] <= cur[j],
        forall|i: int, j: int| left <= i <= r && r < j <= right ==> cur[i] <= cur[j],
{
    lemma_range_elems_contained(prev, cur, l, r);
    let sub = prev.subrange(l, r + 1);
    assert forall|i: int, j: int| left <= i < l && l <= j <= right implies cur[i] <= cur[j] by {
        assert(cur[i] == prev[i]);
        if j <= r {
            assert(sub.contains(cur[j]));
            let w = choose|w: int| 0 <= w < sub.len() && sub[w] == cur[j];
            assert(prev[l + w] == cur[j]);
            assert(prev[i] <= prev[l + w]);
        } else {
            assert(cur[j] == prev[j]);
        }
    }
    assert forall|i: int, j: int| left <= i <= r && r < j <= right implies cur[i] <= cur[j] by {
        assert(cur[j] == prev[j]);
        if l <= i {
            assert(sub.contains(cur[i]));
            let w = choose|w: int| 0 <= w < sub.len() && sub[w] == cur[i];
            assert(prev[l + w] == cur[i]);
            assert(prev[l + w] <= prev[j]);
        } else {
            assert(cur[i] == prev[i]);
        }
    }
}

/// Median-of-medians pivot selection for the inclusive range
/// `[left, right]`: returns an index of the range whose element serves as a
/// quickselect pivot, rearranging only that range. A range shorter than the
/// group size is simply sorted and its middle index returned.
pub fn median_of_medians(list: &mut Vec<u32>, left: usize, right: usize, group_size: usize) -> (m:
    usize)
    requires
        left <= right < old(list).len(),
        group_size >= 3,
    ensures
        left <= m <= right,
        final(list)@.len() == old(list)@.len(),
        unchanged_outside(old(list)@, final(list)@, left as int, right as int),
        same_range_elems(old(list)@, final(list)@, left as int, right as int),
        right - left < group_size ==> m == (left + right) / 2 && sorted_between(
            final(list)@,
            left as int,
            right as int,
        ),
    decreases right - left, 0int,
{
    if right - left < group_size {
        return median_by_sort(list, left, right);
    }

    let ghost orig: Seq<u32> = list@;
    let d = right - left;
    let q = d / group_size;
    proof {
        vstd::arithmetic::div_mod::lemma_div_decreases(d as int, group_size as int);
        vstd::arithmetic::div_mod::lemma_div_is_ordered(
            group_size as int,
            d as int,
            group_size as int,
        );
        vstd::arithmetic::div_mod::lemma_div_by_self(group_size as int);
    }

    // Walk the range in chunks of `group_size` (the last one may be
    // shorter), and compact each chunk's median into the prefix that starts
    // at `left`.
    let mut c: usize = 0;
    while c <= q
        invariant
            c <= q + 1,
            left <= right < list@.len(),
            group_size >= 3,
            d == right - left,
            d >= group_size,
            q == d as int / group_size as int,
            1 <= q < d,
            list@.len() == orig.len(),
            unchanged_outside(orig, list@, left as int, right as int),
            same_range_elems(orig, list@, left as int, right as int),
        decreases q + 1 - c,
    {
        proof {
            let ci = c as int;
            let qi = q as int;
            let gi = group_size as int;
            let di = d as int;
            vstd::arithmetic::mul::lemma_mul_inequality(ci, qi, gi);
            assert(ci * gi <= qi * gi);
            vstd::arithmetic::div_mod::lemma_fundamental_div_mod(di, gi);
            assert(di == gi * (di / gi) + di % gi);
            vstd::arithmetic::div_mod::lemma_mod_division_less_than_divisor(di, gi);
            assert(di % gi >= 0);
            assert(gi * qi <= di);
            assert(ci * gi <= di);
            assert(c * group_size <= d);
        }
        let i = left + c * group_size;
        let sub_right = if right - i >= group_size {
            i + group_size - 1
        } else {
            right
        };
        let ghost st0 = list@;
        let m0 = median_by_sort(list, i, sub_right);
        proof {
            lemma_outer_range_elems(
                st0,
                list@,
                left as int,
                right as int,
                i as int,
                sub_right as int,
            );
        }
        let ghost st1 = list@;
        let dest = left + c;
        swap_elems(list, m0, dest);
        proof {
            lemma_swap_in_range(st1, left as int, right as int, m0 as int, dest as int);
        }
        c = c + 1;
    }

    // The chunk medians now sit in `[left, left + q]`; their median is the
    // pivot, found by selecting the midpoint rank of that prefix.
    let mid = left + q / 2 + 1;
    let ghost st2 = list@;
    let m = quick_select(list, left, left + q, mid, group_size);
    proof {
        lemma_outer_range_elems(
            st2,
            list@,
            left as int,
            right as int,
            left as int,
            left as int + q as int,
        );
    }
    m
}

/// Quickselect with median-of-medians pivots: returns `k` after permuting
/// the inclusive range `[left, right]` so that the element at `k` is the
/// value of rank `k - left` in the sorted order of the range's original
/// contents, every element before `k` in the range is no larger, and every
/// element after it no smaller. Positions outside the range are untouched.
pub fn quick_select(
    list: &mut Vec<u32>,
    left: usize,
    right: usize,
    k: usize,
    group_size: usize,
) -> (idx: usize)
    requires
        left <= k <= right < old(list).len(),
        group_size >= 3,
    ensures
        idx == k,
        final(list)@.len() == old(list)@.len(),
        unchanged_outside(old(list)@, final(list)@, left as int, right as int),
        same_range_elems(old(list)@, final(list)@, left as int, right as int),
        forall|i: int| left <= i < k ==> final(list)@[i] <= final(list)@[k as int],
        forall|i: int| k < i <= right ==> final(list)@[i] >= final(list)@[k as int],
        final(list)@[k as int] == sorted_of(
            old(list)@.subrange(left as int, right as int + 1),
        )[k - left],
    decreases right - left, 1int,
{
    let ghost orig: Seq<u32> = list@;
    let mut l: usize = left;
    let mut r: usize = right;
    while l < r
        invariant
            left <= l <= k <= r <= right < list@.len(),
            group_size >= 3,
            orig == old(list)@,
            list@.len() == orig.len(),
            unchanged_outside(orig, list@, left as int, right as int),
            same_range_elems(orig, list@, left as int, right as int),
            forall|i: int, j: int|
                left <= i < l && l <= j <= right ==> list@[i] <= list@[j],
            forall|i: int, j: int|
                left <= i <= r && r < j <= right ==> list@[i] <= list@[j],
        decreases r - l,
    {
        let ghost st0 = list@;
        let pivot_index = median_of_medians(list, l, r, group_size);
        proof {
            lemma_outer_range_elems(st0, list@, left as int, right as int, l as int, r as int);
            lemma_sandwich_preserved(st0, list@, left as int, right as int, l as int, r as int);
        }
        let ghost st1 = list@;
        let p = partition(list, l, r, pivot_index);
        proof {
            lemma_outer_range_elems(st1, list@, left as int, right as int, l as int, r as int);
            lemma_sandwich_preserved(st1, list@, left as int, right as int, l as int, r as int);
        }
        if k == p {
            proof {
                assert forall|i: int| left <= i < k implies list@[i] <= list@[k as int] by {
                    if i < l {
                        assert(list@[i] <= list@[k as int]);
                    }
                }
                assert forall|i: int| k < i <= right implies list@[i] >= list@[k as int] by {
                    if i > r {
                        assert(list@[k as int] <= list@[i]);
                    }
                }
                lemma_selected_value_is_kth(orig, list@, left as int, right as int, k as int);
            }
            return k;
        } else if k < p {
            proof {
                assert forall|i: int, j: int|
                    left <= i <= p - 1 && p - 1 < j <= right implies list@[i] <= list@[j] by {
                    if j <= r {
                        assert(list@[j] >= list@[p as int]);
                        if i < l {
                            assert(list@[i] <= list@[j]);
                        } else {
                            assert(list@[i] < list@[p as int]);
                        }
                    } else {
                        assert(list@[i] <= list@[j]);
                    }
                }
            }
            r = p - 1;
        } else {
            proof {
                assert forall|i: int, j: int|
                    left <= i < p + 1 && p + 1 <= j <= right implies list@[i] <= list@[j] by {
                    if i < l {
                        assert(list@[i] <= list@[j]);
                    } else if i < p {
                        assert(list@[i] < list@[p as int]);
                        if j <= r {
                            assert(list@[j] >= list@[p as int]);
                        } else {
                            assert(list@[i] <= list@[j]);
                        }
                    } else {
                        assert(i == p);
                        if j <= r {
                            assert(list@[j] >= list@[p as int]);
                        } else {
                            assert(list@[i] <= list@[j]);
                        }
                    }
                }
            }
            l = p + 1;
        }
    }
    proof {
        assert(l == k && r == k);
        assert forall|i: int| left <= i < k implies list@[i] <= list@[k as int] by {
            assert(list@[i] <= list@[k as int]);
        }
        assert forall|i: int| k < i <= right implies list@[i] >= list@[k as int] by {
            assert(list@[k as int] <= list@[i]);
        }
        lemma_selected_value_is_kth(orig, list@, left as int, right as int, k as int);
    }
    l
}

} // verus!
