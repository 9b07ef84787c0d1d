use quicksort_bench::QuickSort;
use quicksort_bench::QuicksortBenchmark;

fn sorted_copy(input: &Vec<u64>) -> Vec<u64> {
    let mut expected = input.clone();
    expected.sort();
    expected
}

fn check_sorts_to_expected(input: Vec<u64>) {
    let expected = sorted_copy(&input);
    let mut arr = input;
    let n = arr.len();
    let mut qs = QuickSort::new(0);
    qs.quick_sort(&mut arr, 0, n - 1);
    // equality with the independently sorted copy gives both ordering and
    // the permutation property at once
    assert_eq!(arr, expected);
}

#[test]
fn sorts_random_values() {
    check_sorts_to_expected(vec![31, 7, 1000, 0, 512, 7, 99, 3, 3, 18446744073709551615]);
}

#[test]
fn sorts_all_equal_values() {
    check_sorts_to_expected(vec![5; 64]);
}

#[test]
fn sorts_already_sorted_values() {
    check_sorts_to_expected((0..100).collect());
}

#[test]
fn sorts_reverse_sorted_values() {
    check_sorts_to_expected((0..100).rev().collect());
}

#[test]
fn sorts_single_element() {
    check_sorts_to_expected(vec![42]);
}

#[test]
fn sorts_duplicate_heavy_values() {
    let mut input: Vec<u64> = Vec::new();
    for k in 0..200 {
        input.push(k % 3);
    }
    check_sorts_to_expected(input);
}

#[test]
fn sorts_generated_values() {
    let mut qs = QuickSort::new(7);
    let mut arr: Vec<u64> = vec![0; 500];
    qs.randomize_array(&mut arr);
    let expected = sorted_copy(&arr);
    qs.quick_sort(&mut arr, 0, 499);
    assert_eq!(arr, expected);
}

#[test]
fn sorts_only_the_given_window() {
    let mut arr: Vec<u64> = vec![9, 8, 7, 6, 5, 4, 3, 2, 1];
    let mut qs = QuickSort::new(0);
    qs.quick_sort(&mut arr, 2, 5);
    assert_eq!(arr, vec![9, 8, 4, 5, 6, 7, 3, 2, 1]);
}

#[test]
fn empty_window_is_untouched() {
    let mut arr: Vec<u64> = vec![3, 1, 2];
    let mut qs = QuickSort::new(0);
    qs.quick_sort(&mut arr, 2, 2);
    assert_eq!(arr, vec![3, 1, 2]);
    qs.quick_sort(&mut arr, 2, 1);
    assert_eq!(arr, vec![3, 1, 2]);
}

#[test]
fn reduced_variant_sorts() {
    let mut arr: Vec<u32> = vec![999, 0, 500, 500, 1, 998, 2, 3];
    let mut expected = arr.clone();
    expected.sort();
    let n = arr.len();
    let mut qb = QuicksortBenchmark::new(0);
    qb.quick_sort(&mut arr, 0, n - 1);
    assert_eq!(arr, expected);
}

#[test]
fn reduced_variant_fills_below_one_thousand() {
    let mut qb = QuicksortBenchmark::new(7);
    let mut arr: Vec<u32> = vec![0; 300];
    qb.randomize_array(&mut arr);
    for value in arr.iter() {
        assert!(*value < 1000);
    }
    assert_eq!(arr[0], 116);
}
