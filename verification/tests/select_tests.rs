use itertools::Itertools;
use median_select::select::{median_by_sort, median_of_medians, partition, quick_select};
use rand::seq::SliceRandom;
use rand::{thread_rng, Rng};

const ARR_LEN: usize = 1024;

#[test]
fn fuzz_correct_median() {
    let mut rng = thread_rng();
    let mut arr = vec![0u32; ARR_LEN];

    for _ in 0..1000 {
        rng.fill(&mut arr[..]);

        let k = rng.gen_range(1_usize..ARR_LEN / 2);
        let group_size = *[5_usize, 7, 9, 11].choose(&mut rng).unwrap();

        let mut quick_select_arr = arr.clone();
        let quick_select_k_smallest_idx =
            quick_select(&mut quick_select_arr, 0, ARR_LEN - 1, k, group_size);
        let quick_select_k_smallest = quick_select_arr[quick_select_k_smallest_idx];

        let mut sort_select_arr = arr.iter().copied().unique().collect_vec();
        sort_select_arr.sort();
        let sort_select_k_smallest = sort_select_arr[k];

        assert_eq!(sort_select_k_smallest, quick_select_k_smallest);
    }
}

#[test]
fn end_to_end_median_example() {
    // Nine distinct elements; rank 4 (zero-based) is the median, 5.
    let mut arr: Vec<u32> = vec![9, 1, 5, 3, 7, 2, 8, 4, 6];
    let idx = quick_select(&mut arr, 0, 8, 4, 5);
    assert_eq!(arr[idx], 5);
}

#[test]
fn select_every_rank_exact() {
    let sorted: Vec<u32> = vec![1, 2, 3, 4, 5, 6, 7, 8, 9];
    for k in 0..9 {
        let mut arr: Vec<u32> = vec![9, 1, 5, 3, 7, 2, 8, 4, 6];
        let idx = quick_select(&mut arr, 0, 8, k, 5);
        assert_eq!(idx, k);
        assert_eq!(arr[idx], sorted[k]);
    }
}

#[test]
fn select_on_subrange_ignores_outside() {
    // Only [2, 6] is in play; the huge and tiny values outside must not move.
    let mut arr: Vec<u32> = vec![0, 1000, 50, 10, 40, 20, 30, 1000, 0];
    let idx = quick_select(&mut arr, 2, 6, 4, 3);
    assert_eq!(idx, 4);
    // Rank 4 - 2 = 2 of {50, 10, 40, 20, 30} sorted is 30.
    assert_eq!(arr[idx], 30);
    assert_eq!(arr[0], 0);
    assert_eq!(arr[1], 1000);
    assert_eq!(arr[7], 1000);
    assert_eq!(arr[8], 0);
}

#[test]
fn single_element_range() {
    let mut arr: Vec<u32> = vec![4, 7, 2];
    let idx = quick_select(&mut arr, 1, 1, 1, 5);
    assert_eq!(idx, 1);
    assert_eq!(arr, vec![4, 7, 2]);
}

#[test]
fn reselect_value_unchanged() {
    // Selecting again on the already-permuted array gives the same value.
    let mut arr: Vec<u32> = vec![13, 8, 21, 3, 1, 5, 34, 2, 55, 1];
    let idx = quick_select(&mut arr, 0, 9, 3, 5);
    let first_value = arr[idx];
    let idx2 = quick_select(&mut arr, 0, 9, 3, 5);
    assert_eq!(arr[idx2], first_value);
}

#[test]
fn determinism_same_input() {
    let base: Vec<u32> = vec![17, 4, 98, 23, 5, 61, 4, 80, 12, 42, 31, 7, 66];
    let mut a = base.clone();
    let mut b = base.clone();
    let ia = quick_select(&mut a, 0, 12, 6, 5);
    let ib = quick_select(&mut b, 0, 12, 6, 5);
    assert_eq!(ia, ib);
    assert_eq!(a, b);
}

#[test]
fn partition_invariant_holds() {
    let mut arr: Vec<u32> = vec![7, 2, 9, 4, 6, 1, 8, 3, 5];
    let p = partition(&mut arr, 0, 8, 4);
    let pivot = arr[p];
    assert_eq!(pivot, 6);
    for i in 0..p {
        assert!(arr[i] < pivot);
    }
    for i in p..9 {
        assert!(arr[i] >= pivot);
    }
}

#[test]
fn partition_with_duplicates() {
    let mut arr: Vec<u32> = vec![5, 5, 1, 5, 9, 5, 0];
    let p = partition(&mut arr, 0, 6, 0);
    assert_eq!(arr[p], 5);
    for i in 0..p {
        assert!(arr[i] < 5);
    }
    for i in p..7 {
        assert!(arr[i] >= 5);
    }
    // Exactly the two values below the pivot land before it.
    assert_eq!(p, 2);
}

#[test]
fn median_by_sort_sorts_range() {
    let mut arr: Vec<u32> = vec![99, 4, 1, 3, 2, 99];
    let m = median_by_sort(&mut arr, 1, 4);
    assert_eq!(m, 2);
    assert_eq!(arr, vec![99, 1, 2, 3, 4, 99]);
    assert_eq!(arr[m], 2);
}

#[test]
fn pivot_selector_matches_small_range_median() {
    // The range is shorter than the group size, so the pivot selector must
    // behave exactly like the small-range median finder.
    let base: Vec<u32> = vec![50, 5, 3, 9, 1, 7, 50];
    let mut by_groups = base.clone();
    let mut by_sort = base.clone();
    let m_groups = median_of_medians(&mut by_groups, 1, 5, 7);
    let m_sort = median_by_sort(&mut by_sort, 1, 5);
    assert_eq!(m_groups, m_sort);
    assert_eq!(m_groups, 3);
    assert_eq!(by_groups, by_sort);
    assert_eq!(by_groups[m_groups], 5);
}

#[test]
fn pivot_selector_grouped_range() {
    // A range long enough to trigger grouping: the returned index lies in
    // the range and the range keeps the same elements.
    let base: Vec<u32> = vec![12, 3, 44, 9, 21, 35, 6, 17, 28, 40, 2, 19, 33];
    let mut arr = base.clone();
    let m = median_of_medians(&mut arr, 0, 12, 5);
    assert!(m <= 12);
    let mut before = base.clone();
    let mut after = arr.clone();
    before.sort();
    after.sort();
    assert_eq!(before, after);
}
