use quicksort::{quicksort, quicksort_inplace};

#[test]
fn three_unsorted_elements() {
    let data: Vec<u32> = vec![3, 1, 2];
    assert_eq!(quicksort(&data), vec![1, 2, 3]);

    let mut data: Vec<u32> = vec![3, 1, 2];
    quicksort_inplace(&mut data);
    assert_eq!(data, vec![1, 2, 3]);
}

#[test]
fn empty_sequence() {
    let data: Vec<u32> = vec![];
    assert_eq!(quicksort(&data), Vec::<u32>::new());

    let mut data: Vec<u32> = vec![];
    quicksort_inplace(&mut data);
    assert_eq!(data, Vec::<u32>::new());
}

#[test]
fn single_element() {
    let data: Vec<u32> = vec![5];
    assert_eq!(quicksort(&data), vec![5]);

    let mut data: Vec<u32> = vec![5];
    quicksort_inplace(&mut data);
    assert_eq!(data, vec![5]);
}

#[test]
fn duplicate_values() {
    let data: Vec<u32> = vec![2, 2, 1, 1];
    assert_eq!(quicksort(&data), vec![1, 1, 2, 2]);

    let mut data: Vec<u32> = vec![2, 2, 1, 1];
    quicksort_inplace(&mut data);
    assert_eq!(data, vec![1, 1, 2, 2]);
}

#[test]
fn already_ascending() {
    let data: Vec<u32> = vec![1, 2, 3, 4, 5];
    assert_eq!(quicksort(&data), vec![1, 2, 3, 4, 5]);

    let mut data: Vec<u32> = vec![1, 2, 3, 4, 5];
    quicksort_inplace(&mut data);
    assert_eq!(data, vec![1, 2, 3, 4, 5]);
}

#[test]
fn strictly_descending() {
    let data: Vec<u32> = vec![5, 4, 3, 2, 1];
    assert_eq!(quicksort(&data), vec![1, 2, 3, 4, 5]);

    let mut data: Vec<u32> = vec![5, 4, 3, 2, 1];
    quicksort_inplace(&mut data);
    assert_eq!(data, vec![1, 2, 3, 4, 5]);
}

#[test]
fn all_equal_elements() {
    let data: Vec<u32> = vec![7, 7, 7, 7];
    assert_eq!(quicksort(&data), vec![7, 7, 7, 7]);

    let mut data: Vec<u32> = vec![7, 7, 7, 7];
    quicksort_inplace(&mut data);
    assert_eq!(data, vec![7, 7, 7, 7]);
}

#[test]
fn copy_variant_leaves_source_untouched() {
    let data: Vec<u32> = vec![9, 0, 4, 4, 2, u32::MAX, 1];
    let sorted = quicksort(&data);
    assert_eq!(data, vec![9, 0, 4, 4, 2, u32::MAX, 1]);
    assert_eq!(sorted, vec![0, 1, 2, 4, 4, 9, u32::MAX]);
}

#[test]
fn sorted_input_comes_back_unchanged() {
    let data: Vec<u32> = vec![0, 1, 1, 2, 3, 5, 8, 13];
    assert_eq!(quicksort(&data), data);

    let mut data: Vec<u32> = vec![0, 1, 1, 2, 3, 5, 8, 13];
    quicksort_inplace(&mut data);
    assert_eq!(data, vec![0, 1, 1, 2, 3, 5, 8, 13]);
}

#[test]
fn permutation_of_input() {
    let data: Vec<u32> = vec![4, 1, 4, 2, 4, 2, 0];
    let mut sorted = quicksort(&data);
    assert_eq!(sorted, vec![0, 1, 2, 2, 4, 4, 4]);

    let mut copy = data.clone();
    copy.sort();
    sorted.sort();
    assert_eq!(copy, sorted);
}
