use sorter::{count_sort, radix_sort};

#[test]
fn sorts_example_sequence() {
    let input: Vec<u64> = vec![170, 45, 75, 90, 802, 24, 2, 66];
    let expected: Vec<u64> = vec![2, 24, 45, 66, 75, 90, 170, 802];
    assert_eq!(radix_sort(&input, 10), expected);
}

#[test]
fn all_equal_elements_unchanged() {
    let input: Vec<u64> = vec![5, 5, 5];
    assert_eq!(radix_sort(&input, 10), vec![5, 5, 5]);
}

#[test]
fn binary_radix() {
    let input: Vec<u64> = vec![0, 0, 1];
    assert_eq!(radix_sort(&input, 2), vec![0, 0, 1]);
}

#[test]
fn large_magnitudes_multi_pass() {
    let input: Vec<u64> = vec![1_000_000_000, 0, 500_000_000];
    assert_eq!(radix_sort(&input, 10), vec![0, 500_000_000, 1_000_000_000]);
}

#[test]
fn empty_input_gives_empty_output() {
    let input: Vec<u64> = Vec::new();
    assert_eq!(radix_sort(&input, 10), Vec::<u64>::new());
    assert_eq!(radix_sort(&input, 2), Vec::<u64>::new());
}

#[test]
fn single_element_returned_as_is() {
    assert_eq!(radix_sort(&vec![7], 10), vec![7]);
    assert_eq!(radix_sort(&vec![0], 10), vec![0]);
    assert_eq!(radix_sort(&vec![u64::MAX], 2), vec![u64::MAX]);
}

#[test]
fn output_is_sorted_permutation_of_input() {
    let input: Vec<u64> = vec![3, 1, 3, 2];
    let output = radix_sort(&input, 10);
    assert_eq!(output, vec![1, 2, 3, 3]);
    let mut counted = input.clone();
    counted.sort();
    assert_eq!(output, counted);
}

#[test]
fn sorting_a_sorted_sequence_changes_nothing() {
    let input: Vec<u64> = vec![8, 3, 99, 3, 41];
    let once = radix_sort(&input, 10);
    let twice = radix_sort(&once, 10);
    assert_eq!(twice, once);
}

#[test]
fn largest_values_do_not_overflow_the_mask() {
    let input: Vec<u64> = vec![u64::MAX, 0, 1];
    assert_eq!(radix_sort(&input, 10), vec![0, 1, u64::MAX]);
    assert_eq!(radix_sort(&input, 2), vec![0, 1, u64::MAX]);
    assert_eq!(radix_sort(&input, 16), vec![0, 1, u64::MAX]);
}

#[test]
fn radix_larger_than_every_value_sorts_in_one_pass() {
    let input: Vec<u64> = vec![9, 2, 5];
    assert_eq!(radix_sort(&input, 100), vec![2, 5, 9]);
}

#[test]
fn counting_pass_keeps_order_of_equal_digits() {
    // all three share units digit 1, so one pass must not reorder them
    let input: [u64; 3] = [21, 11, 31];
    assert_eq!(count_sort(&input, 10, 1), vec![21, 11, 31]);
}

#[test]
fn counting_pass_groups_by_selected_digit() {
    // tens digits are 7, 4, 7: the tie between 170 and 75 keeps input order
    let input: [u64; 3] = [170, 45, 75];
    assert_eq!(count_sort(&input, 10, 10), vec![45, 170, 75]);
}

#[test]
fn counting_pass_orders_by_units_digit() {
    let input: [u64; 4] = [13, 22, 31, 40];
    assert_eq!(count_sort(&input, 10, 1), vec![40, 31, 22, 13]);
}

#[test]
fn counting_pass_with_radix_one_copies() {
    // a single bucket: the pass degenerates to a stable copy
    let input: [u64; 3] = [4, 2, 9];
    assert_eq!(count_sort(&input, 1, 1), vec![4, 2, 9]);
}

#[test]
fn counting_pass_on_empty_input() {
    let input: [u64; 0] = [];
    assert_eq!(count_sort(&input, 10, 1), Vec::<u64>::new());
}
