use algorithms::{binary_search, recursive_binary_search, recursive_sequential_search, sequential_search};

fn data() -> Vec<i32> {
    vec![1, 2, 4, 5, 6, 8, 9, 10, 12]
}

#[test]
fn sequential_search_finds_and_misses() {
    let arr = data();
    assert_eq!(sequential_search(&arr, &3), -1);
    assert_eq!(sequential_search(&arr, &7), -1);
    assert_eq!(sequential_search(&arr, &2), 1);
    assert_eq!(sequential_search(&arr, &9), 6);
    assert_eq!(sequential_search(&[4, 4, 4], &4), 0);
    assert_eq!(sequential_search::<i32>(&[], &4), -1);
}

#[test]
fn recursive_sequential_search_finds_and_misses() {
    let arr = data();
    assert_eq!(recursive_sequential_search(&arr, &3, 0), -1);
    assert_eq!(recursive_sequential_search(&arr, &7, 0), -1);
    assert_eq!(recursive_sequential_search(&arr, &2, 0), 1);
    assert_eq!(recursive_sequential_search(&arr, &9, 0), 6);
    assert_eq!(recursive_sequential_search(&arr, &2, 2), -1);
}

#[test]
fn binary_search_finds_and_misses() {
    let arr = data();
    assert_eq!(binary_search(&arr, &3), -1);
    assert_eq!(binary_search(&arr, &7), -1);
    assert_eq!(binary_search(&arr, &2), 1);
    assert_eq!(binary_search(&arr, &9), 6);
    assert_eq!(binary_search(&arr, &1), 0);
    assert_eq!(binary_search(&arr, &12), 8);
    assert_eq!(binary_search(&arr, &0), -1);
    assert_eq!(binary_search(&arr, &13), -1);
}

#[test]
fn recursive_binary_search_finds_and_misses() {
    let arr = data();
    let r = arr.len() - 1;
    assert_eq!(recursive_binary_search(&arr, &3, 0, r), -1);
    assert_eq!(recursive_binary_search(&arr, &7, 0, r), -1);
    assert_eq!(recursive_binary_search(&arr, &2, 0, r), 1);
    assert_eq!(recursive_binary_search(&arr, &9, 0, r), 6);
    assert_eq!(recursive_binary_search(&arr, &0, 0, r), -1);
    assert_eq!(recursive_binary_search(&arr, &2, 3, r), -1);
}

#[test]
fn binary_search_on_empty() {
    assert_eq!(binary_search::<i32>(&[], &5), -1);
}
