pub mod search_subarray;
