use algos::number::Number;
use algos::searching::search_subarray::{find_maximum_subarray, find_maximum_subarray_kad};

#[test]
fn boundary_scenario_divide_and_conquer() {
    let numbers: Vec<i64> = vec![-2, 1, -3, 4, -1, 2, 1, -5, 4];
    let (left, right, sum) = find_maximum_subarray(&numbers, 0, 8);
    assert_eq!(left, 3);
    assert_eq!(right, 6);
    assert_eq!(sum, 6);
}

#[test]
fn boundary_scenario_kadane() {
    let numbers: Vec<i64> = vec![-2, 1, -3, 4, -1, 2, 1, -5, 4];
    let (start, end, sum) = find_maximum_subarray_kad(&numbers);
    assert_eq!(start, 3);
    assert_eq!(end, 6);
    assert_eq!(sum, 6);
}

#[test]
fn known_example_divide_and_conquer() {
    let numbers: Vec<i64> = vec![4, -2, 3, -1, 2, 1, -5, 4];
    let (left, right, sum) = find_maximum_subarray(&numbers, 0, numbers.len() - 1);
    assert_eq!(left, 0);
    assert_eq!(right, 5);
    assert_eq!(sum, 7);
}

#[test]
fn known_example_kadane() {
    let numbers: Vec<i64> = vec![4, -2, 3, -1, 2, 1, -5, 4];
    let (start, end, sum) = find_maximum_subarray_kad(&numbers);
    assert_eq!(start, 0);
    assert_eq!(end, 5);
    assert_eq!(sum, 7);
}

#[test]
fn single_element_windows() {
    let numbers: Vec<i64> = vec![4, -2, 3, -1, 2, 1, -5, 4];
    for i in 0..numbers.len() {
        let (left, right, sum) = find_maximum_subarray(&numbers, i, i);
        assert_eq!(left, i);
        assert_eq!(right, i);
        assert_eq!(sum, numbers[i]);
    }
}

#[test]
fn kadane_single_element() {
    let numbers: Vec<i64> = vec![7];
    assert_eq!(find_maximum_subarray_kad(&numbers), (0, 0, 7));
}

#[test]
fn all_negative_elements() {
    let numbers: Vec<i64> = vec![-5, -3, -8];
    assert_eq!(find_maximum_subarray(&numbers, 0, 2), (1, 1, -3));
    assert_eq!(find_maximum_subarray_kad(&numbers), (1, 1, -3));
}

#[test]
fn both_algorithms_agree_on_sum() {
    let inputs: Vec<Vec<i64>> = vec![
        vec![-2, 1, -3, 4, -1, 2, 1, -5, 4],
        vec![4, -2, 3, -1, 2, 1, -5, 4],
        vec![1, 2, 3, 4],
        vec![-1, -2, -3],
        vec![0, 0, 0],
        vec![5],
        vec![1, -1, 1],
    ];
    for numbers in inputs {
        let (_, _, dc_sum) = find_maximum_subarray(&numbers, 0, numbers.len() - 1);
        let (_, _, kad_sum) = find_maximum_subarray_kad(&numbers);
        assert_eq!(dc_sum, kad_sum);
    }
}

#[test]
fn tie_keeps_earliest_range() {
    let numbers: Vec<i64> = vec![1, -1, 1];
    assert_eq!(find_maximum_subarray(&numbers, 0, 2), (0, 0, 1));
    assert_eq!(find_maximum_subarray_kad(&numbers), (0, 0, 1));
}

#[test]
fn kadane_keeps_earliest_of_three_tied_ranges() {
    let numbers: Vec<i64> = vec![2, -2, 2, -2, 2];
    assert_eq!(find_maximum_subarray_kad(&numbers), (0, 0, 2));
}

#[test]
fn inner_window_ignores_outside_elements() {
    let numbers: Vec<i64> = vec![100, -2, 3, -1, 100];
    assert_eq!(find_maximum_subarray(&numbers, 1, 3), (2, 2, 3));
}

#[test]
fn number_bounds() {
    assert_eq!(<i64 as Number>::min(), i64::MIN);
    assert_eq!(<i64 as Number>::max(), i64::MAX);
    assert_eq!(<i64 as Number>::zero(), 0);
    assert_eq!(<i32 as Number>::min(), i32::MIN);
    assert_eq!(<i32 as Number>::max(), i32::MAX);
    assert_eq!(<i32 as Number>::zero(), 0);
}
