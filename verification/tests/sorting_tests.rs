use par_query::sorting::merge;
use par_query::sorting::parallel_merge_sort;
use par_query::sorting::parallel_quicksort;
use par_query::sorting::partition;
use par_query::sorting::sequential_merge_sort;
use par_query::sorting::sequential_quicksort;

#[test]
fn merge_sort_sorts() {
    let data = vec![5, 3, 8, 1, 9, 2, 7, 2];
    let sorted = sequential_merge_sort(&data);
    assert_eq!(sorted, vec![1, 2, 2, 3, 5, 7, 8, 9]);
}

#[test]
fn merge_sort_of_sorted_input_is_unchanged() {
    let data = vec![1, 2, 2, 3, 5, 7, 8, 9];
    assert_eq!(sequential_merge_sort(&data), data);
    assert_eq!(parallel_merge_sort(&data), data);
}

#[test]
fn quicksort_of_sorted_input_keeps_contents() {
    let data = vec![1, 2, 2, 3, 5, 7, 8, 9];
    let mut arr = data.clone();
    sequential_quicksort(&mut arr);
    assert_eq!(arr, data);
}

#[test]
fn quicksort_sorts_in_place() {
    let mut arr = vec![5, 3, 8, 1, 9, 2, 7, 2];
    sequential_quicksort(&mut arr);
    assert_eq!(arr, vec![1, 2, 2, 3, 5, 7, 8, 9]);
}

#[test]
fn parallel_sorts_equal_sequential() {
    for data in [vec![], vec![4], vec![3, 1, 2], (0..500).map(|x| (x * 37) % 97).collect::<Vec<i64>>()] {
        let expected = sequential_merge_sort(&data);
        assert_eq!(parallel_merge_sort(&data), expected);
        let mut a = data.clone();
        sequential_quicksort(&mut a);
        assert_eq!(a, expected);
        let mut b = data.clone();
        parallel_quicksort(&mut b);
        assert_eq!(b, expected);
    }
}

#[test]
fn merge_interleaves_sorted_runs_stably() {
    let left = vec![1, 3, 5];
    let right = vec![1, 2, 6];
    assert_eq!(merge(&left, &right), vec![1, 1, 2, 3, 5, 6]);
}

#[test]
fn partition_splits_around_pivot() {
    let mut arr = vec![9, 1, 8, 2, 7, 3];
    let middle = arr[arr.len() / 2];
    let p = partition(&mut arr);
    let pivot = arr[p];
    assert_eq!(pivot, middle);
    for (i, &x) in arr.iter().enumerate() {
        if i < p {
            assert!(x <= pivot);
        } else if i > p {
            assert!(x > pivot);
        }
    }
}

#[test]
fn sorts_handle_large_inputs() {
    let data: Vec<i64> = (0..60_000).map(|x| (x * 31) % 4093 - 2000).collect();
    let expected = sequential_merge_sort(&data);
    assert_eq!(parallel_merge_sort(&data), expected);
    let mut arr = data.clone();
    parallel_quicksort(&mut arr);
    assert_eq!(arr, expected);
}
