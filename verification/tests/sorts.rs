use sorting::{insertion_sort, merge_sort, selection_sort};

#[test]
fn already_sorted() {
    let orig = vec![1, 2, 3, 4, 5];
    let mut arr;

    arr = orig.clone();
    selection_sort(&mut arr);
    if !matches!(arr[..], [1, 2, 3, 4, 5]) {
        panic!("selection_sort-already_sorted: {:?}", arr);
    }

    arr = orig.clone();
    insertion_sort(&mut arr);
    if !matches!(arr[..], [1, 2, 3, 4, 5]) {
        panic!("insertion_sort-already_sorted: {:?}", arr);
    }

    if !matches!(merge_sort(&orig)[..], [1, 2, 3, 4, 5]) {
        panic!("merge_sort-already_sorted: {:?}", arr);
    }
}

#[test]
fn small_test1() {
    let orig = vec![2, 3, 1, 5, 4];
    let mut arr;

    arr = orig.clone();
    selection_sort(&mut arr);
    if !matches!(arr[..], [1, 2, 3, 4, 5]) {
        panic!("selection_sort-small_test1: {:?}", arr);
    }

    arr = orig.clone();
    insertion_sort(&mut arr);
    if !matches!(arr[..], [1, 2, 3, 4, 5]) {
        panic!("insertion_sort-small_test1: {:?}", arr);
    }

    if !matches!(merge_sort(&orig)[..], [1, 2, 3, 4, 5]) {
        panic!("merge_sort-small_test1: {:?}", arr);
    }
}

#[test]
fn small_test2() {
    let orig = vec![5, 2, 4, 6, 1, 3];
    let mut arr;

    arr = orig.clone();
    selection_sort(&mut arr);
    if !matches!(arr[..], [1, 2, 3, 4, 5, 6]) {
        panic!("selection_sort-small_test2: {:?}", arr);
    }

    arr = orig.clone();
    insertion_sort(&mut arr);
    if !matches!(arr[..], [1, 2, 3, 4, 5, 6]) {
        panic!("insertion_sort-small_test2: {:?}", arr);
    }

    if !matches!(merge_sort(&orig)[..], [1, 2, 3, 4, 5, 6]) {
        panic!("merge_sort-small_test2: {:?}", arr);
    }
}

#[test]
fn empty_input() {
    let orig = vec![];
    let mut arr;

    arr = orig.clone();
    selection_sort(&mut arr);
    if !matches!(arr[..], []) {
        panic!("selection_sort-empty_input: {:?}", arr);
    }

    arr = orig.clone();
    insertion_sort(&mut arr);
    if !matches!(arr[..], []) {
        panic!("insertion_sort-empty_input: {:?}", arr);
    }

    if !matches!(merge_sort(&orig)[..], []) {
        panic!("merge_sort-already_sorted: {:?}", arr);
    }
}

#[test]
fn duplicates() {
    let orig: Vec<usize> = vec![3, 1, 2, 3, 1];
    let expected: Vec<usize> = vec![1, 1, 2, 3, 3];

    let mut arr = orig.clone();
    selection_sort(&mut arr);
    assert_eq!(arr, expected);

    let mut arr = orig.clone();
    insertion_sort(&mut arr);
    assert_eq!(arr, expected);

    assert_eq!(merge_sort(&orig), expected);
}

#[test]
fn single_element() {
    let mut arr: Vec<usize> = vec![7];
    selection_sort(&mut arr);
    assert_eq!(arr, vec![7]);

    let mut arr: Vec<usize> = vec![7];
    insertion_sort(&mut arr);
    assert_eq!(arr, vec![7]);

    assert_eq!(merge_sort(&[7]), vec![7]);
}

#[test]
fn reverse_order() {
    let orig: Vec<usize> = vec![9, 8, 7, 6, 5, 4, 3, 2, 1, 0];
    let expected: Vec<usize> = vec![0, 1, 2, 3, 4, 5, 6, 7, 8, 9];

    let mut arr = orig.clone();
    selection_sort(&mut arr);
    assert_eq!(arr, expected);

    let mut arr = orig.clone();
    insertion_sort(&mut arr);
    assert_eq!(arr, expected);

    assert_eq!(merge_sort(&orig), expected);
}

#[test]
fn sorting_twice_changes_nothing() {
    let orig: Vec<usize> = vec![4, 0, 4, 2, 9, 2];

    let mut once = orig.clone();
    selection_sort(&mut once);
    let mut twice = once.clone();
    selection_sort(&mut twice);
    assert_eq!(twice, once);

    let mut once = orig.clone();
    insertion_sort(&mut once);
    let mut twice = once.clone();
    insertion_sort(&mut twice);
    assert_eq!(twice, once);

    let once = merge_sort(&orig);
    let twice = merge_sort(&once);
    assert_eq!(twice, once);
}

#[test]
fn algorithms_agree() {
    let orig: Vec<usize> = vec![13, 5, 8, 5, 21, 1, 0, 34, 8, 2];

    let mut by_selection = orig.clone();
    selection_sort(&mut by_selection);

    let mut by_insertion = orig.clone();
    insertion_sort(&mut by_insertion);

    let by_merge = merge_sort(&orig);

    assert_eq!(by_selection, vec![0, 1, 2, 5, 5, 8, 8, 13, 21, 34]);
    assert_eq!(by_insertion, by_selection);
    assert_eq!(by_merge, by_selection);
}

#[test]
fn output_is_permutation() {
    let orig: Vec<usize> = vec![6, 6, 3, 0, 3, 6];

    let mut arr = orig.clone();
    selection_sort(&mut arr);
    assert_eq!(arr.len(), orig.len());
    for x in &orig {
        let before = orig.iter().filter(|y| *y == x).count();
        let after = arr.iter().filter(|y| *y == x).count();
        assert_eq!(before, after);
    }

    let merged = merge_sort(&orig);
    assert_eq!(merged.len(), orig.len());
    for x in &orig {
        let before = orig.iter().filter(|y| *y == x).count();
        let after = merged.iter().filter(|y| *y == x).count();
        assert_eq!(before, after);
    }
}

#[test]
fn merge_sort_leaves_input_unchanged() {
    let orig: Vec<usize> = vec![5, 3, 5, 1];
    let result = merge_sort(&orig);
    assert_eq!(orig, vec![5, 3, 5, 1]);
    assert_eq!(result, vec![1, 3, 5, 5]);
}
