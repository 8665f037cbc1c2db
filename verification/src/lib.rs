//! Classic array algorithms with verified contracts: insertion sort and
//! merge sort over generic ordered elements, and two maximum-subarray
//! searches (divide-and-conquer and Kadane's linear scan) over `i64`.

pub mod number;
pub mod searching;
pub mod sorting;
