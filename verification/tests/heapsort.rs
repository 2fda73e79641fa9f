use binheap::sorting::heap_sort;

#[test]
fn unsorted_array() {
    let mut source = [5, 1, 2, 1, 1, 69, 420];
    heap_sort(&mut source);
    assert_eq!([1, 1, 1, 2, 5, 69, 420], source);
}

#[test]
fn no_elements() {
    let mut arr: Vec<i32> = Vec::new();
    heap_sort(&mut arr);
    assert_eq!(&arr, &[]);
}

#[test]
fn one_element() {
    let mut arr = [42u8];
    heap_sort(&mut arr);
    assert_eq!([42u8], arr);
}

#[test]
fn two_elements() {
    let mut arr = [2, 1];
    heap_sort(&mut arr);
    assert_eq!([1, 2], arr);
}

#[test]
fn sorted_input_stays() {
    let mut arr = [1, 2, 2, 3, 5, 8, 13];
    heap_sort(&mut arr);
    assert_eq!([1, 2, 2, 3, 5, 8, 13], arr);
}

#[test]
fn reversed_input() {
    let mut arr = [9, 8, 7, 6, 5, 4, 3, 2, 1, 0];
    heap_sort(&mut arr);
    assert_eq!([0, 1, 2, 3, 4, 5, 6, 7, 8, 9], arr);
}

#[test]
fn deep_left_branch() {
    // the node at index 1 sinks to index 3, whose children would lie past the end
    let mut arr = [1, 2, 1, 3, 1, 1, 1];
    heap_sort(&mut arr);
    assert_eq!([1, 1, 1, 1, 1, 2, 3], arr);
}

#[test]
fn output_is_a_sorted_permutation() {
    let input: Vec<i64> = vec![17, -3, 0, 17, 256, -1024, 5, 5, 5, 99, -3, 1, 0, 64];
    let mut arr = input.clone();
    heap_sort(&mut arr);
    for i in 1..arr.len() {
        assert!(arr[i - 1] <= arr[i]);
    }
    let mut expected = input.clone();
    expected.sort();
    assert_eq!(expected, arr);
}

#[test]
fn sorts_strings() {
    let mut arr = vec!["pear".to_string(), "apple".to_string(), "fig".to_string()];
    heap_sort(&mut arr);
    assert_eq!(vec!["apple".to_string(), "fig".to_string(), "pear".to_string()], arr);
}
