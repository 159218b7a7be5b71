//! Worst-case linear-time selection (median of medians).
//!
//! `select::quick_select` finds the index of the k-th smallest element of a
//! range of a `Vec<u32>`, permuting the range in place. Pivots are chosen by
//! the median-of-medians rule with a tunable group size, which keeps the
//! worst case linear. The contracts pin the selected value down as the k-th
//! entry of the sorted range.

pub mod order;
pub mod perm;
pub mod select;
