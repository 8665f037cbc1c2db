use algos::sorting::{insertion_sort, merge_sort, Entry};

#[test]
fn insertion_sort_example() {
    let mut numbers: Vec<i64> = vec![4, 2, 3, 1];
    insertion_sort(&mut numbers);
    assert_eq!(numbers, vec![1, 2, 3, 4]);
}

#[test]
fn merge_sort_example() {
    let mut numbers: Vec<i64> = vec![4, 2, 3, 1];
    merge_sort(&mut numbers);
    assert_eq!(numbers, vec![1, 2, 3, 4]);
}

#[test]
fn insertion_sort_empty_is_unchanged() {
    let mut numbers: Vec<i64> = vec![];
    insertion_sort(&mut numbers);
    assert_eq!(numbers, Vec::<i64>::new());
}

#[test]
fn merge_sort_empty_is_unchanged() {
    let mut numbers: Vec<i64> = vec![];
    merge_sort(&mut numbers);
    assert_eq!(numbers, Vec::<i64>::new());
}

#[test]
fn insertion_sort_single_is_unchanged() {
    let mut numbers: Vec<i64> = vec![42];
    insertion_sort(&mut numbers);
    assert_eq!(numbers, vec![42]);
}

#[test]
fn merge_sort_single_is_unchanged() {
    let mut numbers: Vec<i64> = vec![-7];
    merge_sort(&mut numbers);
    assert_eq!(numbers, vec![-7]);
}

#[test]
fn insertion_sort_negative_values() {
    let mut numbers: Vec<i64> = vec![0, -3, 5, -1, 2, -3];
    insertion_sort(&mut numbers);
    assert_eq!(numbers, vec![-3, -3, -1, 0, 2, 5]);
}

#[test]
fn merge_sort_negative_values() {
    let mut numbers: Vec<i64> = vec![0, -3, 5, -1, 2, -3];
    merge_sort(&mut numbers);
    assert_eq!(numbers, vec![-3, -3, -1, 0, 2, 5]);
}

#[test]
fn insertion_sort_is_idempotent() {
    let mut once: Vec<i64> = vec![9, 1, 8, 1, 7, 3];
    insertion_sort(&mut once);
    let mut twice = once.clone();
    insertion_sort(&mut twice);
    assert_eq!(once, twice);
}

#[test]
fn merge_sort_is_idempotent() {
    let mut once: Vec<i64> = vec![9, 1, 8, 1, 7, 3];
    merge_sort(&mut once);
    let mut twice = once.clone();
    merge_sort(&mut twice);
    assert_eq!(once, twice);
}

#[test]
fn insertion_sort_sorted_input_is_noop() {
    let mut numbers: Vec<i64> = vec![-2, 0, 0, 3, 9];
    insertion_sort(&mut numbers);
    assert_eq!(numbers, vec![-2, 0, 0, 3, 9]);
}

#[test]
fn merge_sort_sorted_input_is_noop() {
    let mut numbers: Vec<i64> = vec![-2, 0, 0, 3, 9];
    merge_sort(&mut numbers);
    assert_eq!(numbers, vec![-2, 0, 0, 3, 9]);
}

#[test]
fn merge_sort_is_stable() {
    let mut entries: Vec<Entry> = vec![
        Entry { value: 3, position: 0 },
        Entry { value: 1, position: 1 },
        Entry { value: 3, position: 2 },
        Entry { value: 2, position: 3 },
        Entry { value: 3, position: 4 },
        Entry { value: 1, position: 5 },
    ];
    merge_sort(&mut entries);
    let expected: Vec<Entry> = vec![
        Entry { value: 1, position: 1 },
        Entry { value: 1, position: 5 },
        Entry { value: 2, position: 3 },
        Entry { value: 3, position: 0 },
        Entry { value: 3, position: 2 },
        Entry { value: 3, position: 4 },
    ];
    assert_eq!(entries, expected);
}

#[test]
fn merge_sort_stable_positions_non_decreasing() {
    let mut entries: Vec<Entry> = Vec::new();
    let values: Vec<i64> = vec![5, 5, -1, 5, 0, -1, 5, 0];
    for (pos, &value) in values.iter().enumerate() {
        entries.push(Entry { value, position: pos });
    }
    merge_sort(&mut entries);
    for window in entries.windows(2) {
        assert!(window[0].value <= window[1].value);
        if window[0].value == window[1].value {
            assert!(window[0].position < window[1].position);
        }
    }
}
