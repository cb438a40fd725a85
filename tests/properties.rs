use minmaxheap::heap::MinMaxHeap;
use minmaxheap::index::{grandparent, left, level, level_type, parent, right, LevelType};

fn drain_max(heap: &mut MinMaxHeap<i32>) -> Vec<i32> {
    let mut out = Vec::new();
    while let Some(x) = heap.pop_max() {
        out.push(x);
    }
    out
}

fn drain_min(heap: &mut MinMaxHeap<i32>) -> Vec<i32> {
    let mut out = Vec::new();
    while let Some(x) = heap.pop_min() {
        out.push(x);
    }
    out
}

#[test]
fn empty_heap_gives_nothing() {
    let mut heap: MinMaxHeap<i32> = MinMaxHeap::new(0);
    assert_eq!(heap.len(), 0);
    assert!(heap.is_empty());
    assert!(heap.peek_min().is_none());
    assert!(heap.peek_max().is_none());
    assert!(heap.pop_min().is_none());
    assert!(heap.pop_max().is_none());
    assert_eq!(heap.len(), 0);
}

#[test]
fn small_capped_heap_evicts_the_min() {
    let mut heap = MinMaxHeap::new(2);
    assert_eq!(heap.push(3), None);
    assert_eq!(heap.push(5), None);
    assert_eq!(heap.push(9), Some(3));
    assert_eq!(heap.len(), 2);
    assert_eq!(*heap.peek_max().unwrap(), 9);
    assert_eq!(*heap.peek_min().unwrap(), 5);
}

#[test]
fn push_min_rejects_an_item_not_above_the_min() {
    let mut heap = MinMaxHeap::new(3);
    heap.push_all(&[5, 9, 7]);
    assert_eq!(heap.push_min(5), Some(5));
    assert_eq!(heap.push_min(1), Some(1));
    assert_eq!(heap.len(), 3);
    assert_eq!(drain_min(&mut heap), vec![5, 7, 9]);
}

#[test]
fn push_min_item_above_the_max() {
    let mut heap = MinMaxHeap::new(3);
    heap.push_all(&[5, 9, 7]);
    assert_eq!(heap.push_min(20), Some(5));
    assert_eq!(*heap.peek_min().unwrap(), 7);
    assert_eq!(*heap.peek_max().unwrap(), 20);
    assert_eq!(drain_max(&mut heap), vec![20, 9, 7]);
}

#[test]
fn push_max_evicts_the_max() {
    let mut heap = MinMaxHeap::new(3);
    heap.push_all_max(&[5, 9, 7]);
    assert_eq!(heap.push_max(6), Some(9));
    assert_eq!(*heap.peek_max().unwrap(), 7);
    assert_eq!(*heap.peek_min().unwrap(), 5);
    assert_eq!(drain_min(&mut heap), vec![5, 6, 7]);
}

#[test]
fn push_max_item_below_the_min() {
    let mut heap = MinMaxHeap::new(7);
    heap.push_all_max(&[10, 50, 40, 20, 30, 15, 25]);
    assert_eq!(heap.push_max(1), Some(50));
    assert_eq!(*heap.peek_min().unwrap(), 1);
    assert_eq!(*heap.peek_max().unwrap(), 40);
    assert_eq!(drain_min(&mut heap), vec![1, 10, 15, 20, 25, 30, 40]);
}

#[test]
fn push_max_rejects_an_item_not_below_the_max() {
    let mut heap = MinMaxHeap::new(3);
    heap.push_all_max(&[5, 9, 7]);
    assert_eq!(heap.push_max(9), Some(9));
    assert_eq!(heap.push_max(12), Some(12));
    assert_eq!(drain_max(&mut heap), vec![9, 7, 5]);
}

#[test]
fn push_max_on_a_single_slot() {
    let mut heap = MinMaxHeap::new(1);
    assert_eq!(heap.push_max(4), None);
    assert_eq!(heap.push_max(2), Some(4));
    assert_eq!(*heap.peek_min().unwrap(), 2);
    assert_eq!(*heap.peek_max().unwrap(), 2);
}

#[test]
fn capacity_is_never_exceeded() {
    let mut heap = MinMaxHeap::new(5);
    for i in 0..50 {
        let x = (i * 37) % 23;
        if i % 2 == 0 {
            heap.push_min(x);
        } else {
            heap.push_max(x);
        }
        assert!(heap.len() <= 5);
    }
    assert_eq!(heap.len(), 5);
}

#[test]
fn unbounded_heap_keeps_growing() {
    let mut heap = MinMaxHeap::new(0);
    assert!(!heap.is_capped());
    for i in 0..100 {
        assert_eq!(heap.push((i * 7) % 100), None);
    }
    assert_eq!(heap.len(), 100);
    assert_eq!(*heap.peek_min().unwrap(), 0);
    assert_eq!(*heap.peek_max().unwrap(), 99);
}

#[test]
fn with_capacity_is_an_empty_capped_heap() {
    let mut heap = MinMaxHeap::with_capacity(4);
    assert!(heap.is_capped());
    assert!(heap.is_empty());
    heap.push_all(&[8, 1, 6, 3, 9]);
    assert_eq!(heap.len(), 4);
    assert_eq!(*heap.peek_min().unwrap(), 3);
}

#[test]
fn pop_max_is_non_increasing_and_exhaustive() {
    let mut heap = MinMaxHeap::new(0);
    heap.push_all(&[3, 5, 9, 7, 6, 1, 0, 8, 4, 2, 2, 4, 8, 0, 1, 6, 7, 9, 5, 3]);
    let out = drain_max(&mut heap);
    assert_eq!(out, vec![9, 9, 8, 8, 7, 7, 6, 6, 5, 5, 4, 4, 3, 3, 2, 2, 1, 1, 0, 0]);
    assert!(heap.is_empty());
}

#[test]
fn pop_min_is_non_decreasing_and_exhaustive() {
    let mut heap = MinMaxHeap::new(0);
    heap.push_all_max(&[3, 5, 9, 7, 6, 1, 0, 8, 4, 2]);
    assert_eq!(drain_min(&mut heap), vec![0, 1, 2, 3, 4, 5, 6, 7, 8, 9]);
}

#[test]
fn pop_max_on_three_elements() {
    let mut heap = MinMaxHeap::from_vec(vec![1, 5, 5]);
    assert_eq!(heap.pop_max(), Some(5));
    assert_eq!(heap.pop_max(), Some(5));
    assert_eq!(heap.pop_max(), Some(1));
    assert_eq!(heap.pop_max(), None);
    let mut heap = MinMaxHeap::from_vec(vec![4, 2, 7]);
    assert_eq!(heap.pop_max(), Some(7));
    assert_eq!(*heap.peek_max().unwrap(), 4);
    assert_eq!(*heap.peek_min().unwrap(), 2);
}

#[test]
fn heapify_sorts_a_permutation_both_ways() {
    let perm: Vec<i32> = (0..31).map(|i| (i * 13) % 31).collect();
    let mut heap = MinMaxHeap::from_vec(perm.clone());
    assert_eq!(heap.len(), 31);
    assert_eq!(drain_min(&mut heap), (0..31).collect::<Vec<i32>>());
    let mut heap = MinMaxHeap::from_vec(perm);
    assert_eq!(drain_max(&mut heap), (0..31).rev().collect::<Vec<i32>>());
}

#[test]
fn from_vec_is_full_and_from_vec_growable_is_not() {
    let mut capped = MinMaxHeap::from_vec(vec![4, 8, 2]);
    assert!(capped.is_capped());
    assert_eq!(capped.push(1), Some(1));
    assert_eq!(capped.push(5), Some(2));
    assert_eq!(capped.len(), 3);
    let mut growable = MinMaxHeap::from_vec_growable(vec![4, 8, 2]);
    assert!(!growable.is_capped());
    assert_eq!(growable.push(1), None);
    assert_eq!(growable.len(), 4);
    let mut empty: MinMaxHeap<u8> = MinMaxHeap::from_vec(Vec::new());
    assert!(!empty.is_capped());
    assert_eq!(empty.push(3u8), None);
}

#[test]
fn other_element_types() {
    let mut heap: MinMaxHeap<u64> = MinMaxHeap::new(3);
    heap.push_all(&[u64::MAX, 0, 7, 3]);
    assert_eq!(*heap.peek_min().unwrap(), 3);
    assert_eq!(*heap.peek_max().unwrap(), u64::MAX);
    let mut heap: MinMaxHeap<i8> = MinMaxHeap::new(0);
    heap.push_all(&[-128, 127, 0]);
    assert_eq!(heap.pop_min(), Some(-128));
    assert_eq!(heap.pop_max(), Some(127));
}

#[test]
fn index_arithmetic() {
    assert_eq!(left(0), 1);
    assert_eq!(right(0), 2);
    assert_eq!(left(3), 7);
    assert_eq!(right(3), 8);
    assert_eq!(parent(0), 0);
    assert_eq!(parent(5), 2);
    assert_eq!(parent(6), 2);
    assert_eq!(grandparent(2), 0);
    assert_eq!(grandparent(9), 1);
    assert_eq!(level(0), 0);
    assert_eq!(level(2), 1);
    assert_eq!(level(6), 2);
    assert_eq!(level(7), 3);
    assert_eq!(level(14), 3);
    assert_eq!(level(15), 4);
    assert_eq!(level_type(0), LevelType::Min);
    assert_eq!(level_type(2), LevelType::Max);
    assert_eq!(level_type(3), LevelType::Min);
    assert_eq!(level_type(7), LevelType::Max);
}
