use algorithms::{Heap, Heap_Type, KeyError, Priority_Queue};

fn is_heap_ordered(v: &[i32], max: bool) -> bool {
    for c in 1..v.len() {
        let p = (c - 1) / 2;
        if max && v[p] < v[c] {
            return false;
        }
        if !max && v[p] > v[c] {
            return false;
        }
    }
    true
}

fn sorted_counts(v: &[i32]) -> Vec<i32> {
    let mut w = v.to_vec();
    w.sort();
    w
}

#[test]
fn build_heap_orders_max() {
    let mut heap = Heap::new(vec![5, 3, 1, 7, 8, 9, 0], Heap_Type::Max);
    heap.build_heap();
    assert!(is_heap_ordered(heap.as_vec(), true));
    assert_eq!(heap.as_vec(), &vec![9, 8, 5, 7, 3, 1, 0]);
    assert_eq!(sorted_counts(heap.as_vec()), vec![0, 1, 3, 5, 7, 8, 9]);
}

#[test]
fn build_heap_orders_min() {
    let mut heap = Heap::new(vec![5, 3, 1, 7, 8, 9, 0], Heap_Type::Min);
    heap.build_heap();
    assert!(is_heap_ordered(heap.as_vec(), false));
    assert_eq!(heap.get_root(), Some(0));
}

#[test]
fn every_child_ordered_after_build() {
    let mut heap = Heap::new(vec![4, 4, 2, 9, 1, 1, 7, 3, 8], Heap_Type::Max);
    heap.build_heap();
    let v = heap.as_vec();
    for i in 0..v.len() {
        for c in [2 * i + 1, 2 * i + 2] {
            if c < v.len() {
                assert!(v[i] >= v[c]);
            }
        }
    }
}

#[test]
fn insert_keeps_heap_order() {
    let mut heap = Heap::new(vec![5, 3, 1, 7, 8, 9, 0], Heap_Type::Max);
    heap.build_heap();
    heap.insert(10);
    assert_eq!(heap.size(), 8);
    assert_eq!(heap.get_root(), Some(10));
    assert!(is_heap_ordered(heap.as_vec(), true));
    let mut min_heap = Heap::new(vec![5, 3, 1, 7, 8, 9, 0], Heap_Type::Min);
    min_heap.build_heap();
    min_heap.insert(10);
    assert_eq!(min_heap.get_root(), Some(0));
    assert!(is_heap_ordered(min_heap.as_vec(), false));
    min_heap.insert(-4);
    assert_eq!(min_heap.get_root(), Some(-4));
    assert!(is_heap_ordered(min_heap.as_vec(), false));
}

#[test]
fn extract_root_returns_root_and_keeps_order() {
    let mut heap = Heap::new(vec![5, 3, 1, 7, 8, 9, 0], Heap_Type::Max);
    heap.build_heap();
    assert_eq!(heap.extract_root(), Some(9));
    assert_eq!(heap.size(), 6);
    assert!(is_heap_ordered(heap.as_vec(), true));
    assert_eq!(sorted_counts(heap.as_vec()), vec![0, 1, 3, 5, 7, 8]);
    assert_eq!(heap.extract_root(), Some(8));
    assert!(is_heap_ordered(heap.as_vec(), true));
}

#[test]
fn extract_root_of_single_element() {
    let mut heap = Heap::new(vec![42], Heap_Type::Min);
    assert_eq!(heap.extract_root(), Some(42));
    assert_eq!(heap.size(), 0);
    assert_eq!(heap.extract_root(), None);
}

#[test]
fn sort_max_ascending() {
    let mut heap = Heap::new(vec![5, 3, 1, 7, 8, 9, 0], Heap_Type::Max);
    heap.sort();
    assert_eq!(heap.as_vec(), &vec![0, 1, 3, 5, 7, 8, 9]);
}

#[test]
fn sort_min_descending() {
    let mut heap = Heap::new(vec![5, 3, 1, 7, 8, 9, 0], Heap_Type::Min);
    heap.sort();
    assert_eq!(heap.as_vec(), &vec![9, 8, 7, 5, 3, 1, 0]);
}

#[test]
fn sort_after_insert() {
    let mut heap = Heap::new(vec![5, 3, 1, 7, 8, 9, 0], Heap_Type::Max);
    heap.build_heap();
    heap.insert(10);
    heap.sort();
    assert_eq!(heap.as_vec(), &vec![0, 1, 3, 5, 7, 8, 9, 10]);
}

#[test]
fn sort_with_duplicates_and_empty() {
    let mut heap = Heap::new(vec![2, 2, 1, 3, 1], Heap_Type::Max);
    heap.sort();
    assert_eq!(heap.as_vec(), &vec![1, 1, 2, 2, 3]);
    let mut empty: Heap<i32> = Heap::new(vec![], Heap_Type::Min);
    empty.sort();
    assert_eq!(empty.size(), 0);
}

#[test]
fn increase_key_rejects_non_improving() {
    let mut heap = Heap::new(vec![5, 3, 1, 7, 8, 9, 0], Heap_Type::Max);
    heap.build_heap();
    let before = heap.as_vec().clone();
    assert_eq!(heap.increase_key(3, 7), Err(KeyError::KeyNotImproving));
    assert_eq!(heap.increase_key(3, 2), Err(KeyError::KeyNotImproving));
    assert_eq!(heap.as_vec(), &before);
}

#[test]
fn increase_key_rejects_out_of_bounds() {
    let mut heap = Heap::new(vec![5, 3, 1], Heap_Type::Max);
    heap.build_heap();
    let before = heap.as_vec().clone();
    assert_eq!(heap.increase_key(3, 100), Err(KeyError::IndexOutOfBounds));
    assert_eq!(heap.as_vec(), &before);
}

#[test]
fn increase_key_moves_up() {
    let mut heap = Heap::new(vec![5, 3, 1, 7, 8, 9, 0], Heap_Type::Max);
    heap.build_heap();
    assert_eq!(heap.increase_key(6, 20), Ok(()));
    assert_eq!(heap.get_root(), Some(20));
    assert!(is_heap_ordered(heap.as_vec(), true));
    assert_eq!(sorted_counts(heap.as_vec()), vec![1, 3, 5, 7, 8, 9, 20]);
}

#[test]
fn increase_key_on_min_heap_lowers() {
    let mut heap = Heap::new(vec![5, 3, 1, 7, 8, 9, 0], Heap_Type::Min);
    heap.build_heap();
    assert_eq!(heap.increase_key(4, 10), Err(KeyError::KeyNotImproving));
    assert_eq!(heap.increase_key(4, -1), Ok(()));
    assert_eq!(heap.get_root(), Some(-1));
    assert!(is_heap_ordered(heap.as_vec(), false));
}

#[test]
fn build_sort_build_round_trip() {
    let input = vec![5, 3, 1, 7, 8, 9, 0, 3];
    let mut heap = Heap::new(input.clone(), Heap_Type::Max);
    heap.build_heap();
    heap.sort();
    heap.build_heap();
    assert!(is_heap_ordered(heap.as_vec(), true));
    assert_eq!(sorted_counts(heap.as_vec()), sorted_counts(&input));
}

#[test]
fn get_leaf_is_leaf_extreme() {
    let mut heap = Heap::new(vec![5, 3, 1, 7, 8, 9, 0], Heap_Type::Max);
    heap.build_heap();
    assert_eq!(heap.get_root(), Some(9));
    assert_eq!(heap.get_leaf(), Some(0));
    let mut min_heap = Heap::new(vec![5, 3, 1, 7, 8, 9, 0], Heap_Type::Min);
    min_heap.build_heap();
    assert_eq!(min_heap.get_leaf(), Some(9));
}

#[test]
fn get_leaf_scans_second_half_only() {
    let heap = Heap::new(vec![1, 100, 4, 2, 3], Heap_Type::Max);
    assert_eq!(heap.get_leaf(), Some(2));
    let heap = Heap::new(vec![1, 100, 4, 2, 3], Heap_Type::Min);
    assert_eq!(heap.get_leaf(), Some(4));
}

#[test]
fn compare_type_follows_polarity() {
    let max: Heap<i32> = Heap::new(vec![], Heap_Type::Max);
    let min: Heap<i32> = Heap::new(vec![], Heap_Type::Min);
    assert!(max.compare_type(3, 2));
    assert!(!max.compare_type(2, 2));
    assert!(min.compare_type(2, 3));
    assert!(!min.compare_type(3, 2));
    assert_eq!(max.heap_type(), Heap_Type::Max);
}

#[test]
fn heapify_sifts_root_down() {
    let mut heap = Heap::new(vec![1, 9, 8, 7, 6], Heap_Type::Max);
    heap.heapify(0, 5);
    assert_eq!(heap.as_vec(), &vec![9, 7, 8, 1, 6]);
    let mut bounded = Heap::new(vec![1, 9, 8, 7, 6], Heap_Type::Max);
    bounded.heapify(0, 1);
    assert_eq!(bounded.as_vec(), &vec![1, 9, 8, 7, 6]);
}

#[test]
fn clear_empties_heap() {
    let mut heap = Heap::new(vec![5, 3, 1], Heap_Type::Max);
    heap.clear();
    assert_eq!(heap.size(), 0);
    assert_eq!(heap.get_root(), None);
}

#[test]
fn empty_heap_reports_absence() {
    let mut heap: Heap<i32> = Heap::new(vec![], Heap_Type::Max);
    assert_eq!(heap.get_root(), None);
    assert_eq!(heap.get_leaf(), None);
    assert_eq!(heap.extract_root(), None);
    let mut queue: Priority_Queue<i32> = Priority_Queue::new();
    assert_eq!(queue.pop(), None);
    assert_eq!(queue.front(), None);
    assert_eq!(queue.size(), 0);
}

#[test]
fn priority_queue_pops_in_descending_order() {
    let mut queue = Priority_Queue::new();
    for v in [1, 5, 3, 7, 2, 9] {
        queue.push(v);
    }
    assert_eq!(queue.size(), 6);
    assert_eq!(queue.front(), Some(9));
    let mut out = Vec::new();
    while let Some(x) = queue.pop() {
        out.push(x);
    }
    assert_eq!(out, vec![9, 7, 5, 3, 2, 1]);
}

#[test]
fn priority_queue_interleaved() {
    let mut queue = Priority_Queue::new();
    queue.push(1);
    queue.push(5);
    assert_eq!(queue.front(), Some(5));
    assert_eq!(queue.pop(), Some(5));
    queue.push(3);
    queue.push(7);
    assert_eq!(queue.pop(), Some(7));
    assert_eq!(queue.front(), Some(3));
    queue.push(2);
    queue.push(9);
    assert_eq!(queue.front(), Some(9));
    assert_eq!(queue.size(), 4);
    assert!(is_heap_ordered(queue.as_heap().as_vec(), true));
    queue.clear();
    assert_eq!(queue.size(), 0);
    assert_eq!(queue.pop(), None);
}

#[test]
fn insert_sifts_up_exactly() {
    let mut heap = Heap::new(vec![9, 8, 5, 7, 3, 1, 0], Heap_Type::Max);
    heap.insert(10);
    assert_eq!(heap.as_vec(), &vec![10, 9, 5, 8, 3, 1, 0, 7]);
}

#[test]
fn increase_key_sifts_up_exactly() {
    let mut heap = Heap::new(vec![9, 8, 5, 7, 3, 1, 0], Heap_Type::Max);
    assert_eq!(heap.increase_key(6, 20), Ok(()));
    assert_eq!(heap.as_vec(), &vec![20, 8, 9, 7, 3, 1, 5]);
    let mut min_heap = Heap::new(vec![1, 3, 5], Heap_Type::Min);
    assert_eq!(min_heap.increase_key(2, 0), Ok(()));
    assert_eq!(min_heap.as_vec(), &vec![0, 3, 1]);
}

#[test]
fn build_heap_leaves_heap_unchanged() {
    let mut heap = Heap::new(vec![9, 8, 5, 7, 3, 5, 0, 7], Heap_Type::Max);
    heap.build_heap();
    assert_eq!(heap.as_vec(), &vec![9, 8, 5, 7, 3, 5, 0, 7]);
}

#[test]
fn heapify_touches_only_subtree() {
    let mut heap = Heap::new(vec![0, 1, 9, 4, 5, 7, 8], Heap_Type::Max);
    heap.heapify(1, 7);
    assert_eq!(heap.as_vec(), &vec![0, 5, 9, 4, 1, 7, 8]);
    let mut unchanged = Heap::new(vec![0, 6, 9, 4, 5, 7, 8], Heap_Type::Max);
    unchanged.heapify(1, 7);
    assert_eq!(unchanged.as_vec(), &vec![0, 6, 9, 4, 5, 7, 8]);
}
