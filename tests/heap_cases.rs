use minmaxheap::heap::MinMaxHeap;

fn chk_order<T: minmaxheap::order::HeapOrd + Ord + Clone>(heap: &MinMaxHeap<T>) {
    let mut desc = heap.clone();
    drain_and_check(&mut desc);
}

fn drain_and_check<T: minmaxheap::order::HeapOrd + Ord + Clone>(desc: &mut MinMaxHeap<T>) {
    let len = desc.len();
    let mut asc = MinMaxHeap::new(len);

    let mut counter = 1;
    let mut last = desc.pop_max().unwrap();
    while !desc.is_empty() {
        let next = desc.pop_max().unwrap();
        assert!(next <= last);
        asc.push(last);
        last = next;
        counter += 1;
    }
    asc.push(last);
    assert_eq!(counter, len);

    counter = 1;
    last = asc.pop_min().unwrap();
    while !asc.is_empty() {
        let next = asc.pop_min().unwrap();
        assert!(next >= last);
        last = next;
        counter += 1;
    }
    assert_eq!(counter, len);
}

#[test]
fn minmaxheap_test_small() {
    let mut heap = MinMaxHeap::new(2);
    heap.push_all(&[3, 5, 9]);
    assert_eq!(heap.len(), 2);
    assert_eq!(*heap.peek_max().unwrap(), 9);
    assert_eq!(*heap.peek_min().unwrap(), 5);
    chk_order(&heap);
}

#[test]
fn minmaxheap_test_med() {
    let mut heap = MinMaxHeap::new(7);
    heap.push_all(&[3, 5, 9, 7, 6, 1, 0, 8, 4, 2]);
    assert_eq!(heap.len(), 7);
    assert_eq!(*heap.peek_max().unwrap(), 9);
    assert_eq!(*heap.peek_min().unwrap(), 3);
    chk_order(&heap);
}

#[test]
fn minmaxheap_test_large() {
    let mut heap = MinMaxHeap::new(24);
    heap.push_all(&[3, 5, 9, 7, 6, 1, 0, 8, 4, 2]);
    assert_eq!(heap.len(), 10);
    assert_eq!(*heap.peek_max().unwrap(), 9);
    assert_eq!(*heap.peek_min().unwrap(), 0);
    chk_order(&heap);
}

#[test]
fn minmaxheap_test_dupes() {
    let mut heap = MinMaxHeap::new(16);
    heap.push_all(&[3, 5, 9, 7, 6, 1, 0, 8, 4, 2, 2, 4, 8, 0, 1, 6, 7, 9, 5, 3]);
    assert_eq!(heap.len(), 16);
    assert_eq!(*heap.peek_max().unwrap(), 9);
    assert_eq!(*heap.peek_min().unwrap(), 2);
    chk_order(&heap);
}

#[test]
fn minmaxheap_test_push_max() {
    let mut heap = MinMaxHeap::new(16);
    heap.push_all_max(&[3, 5, 9, 7, 6, 1, 0, 8, 4, 2, 2, 4, 8, 0, 1, 6, 7, 9, 5, 3]);
    assert_eq!(heap.len(), 16);
    assert_eq!(*heap.peek_max().unwrap(), 7);
    assert_eq!(*heap.peek_min().unwrap(), 0);
    chk_order(&heap);
}

#[test]
fn test_from_vec() {
    let vec = vec![3, 5, 9, 7, 6, 1, 8, 4, 2];
    let len = vec.len();
    let mut heap = MinMaxHeap::from_vec(vec);
    assert_eq!(heap.len(), len);
    assert_eq!(*heap.peek_max().unwrap(), 9);
    assert_eq!(*heap.peek_min().unwrap(), 1);

    heap.push(10);

    assert_eq!(heap.len(), len);
    assert_eq!(*heap.peek_max().unwrap(), 10);
    assert_eq!(*heap.peek_min().unwrap(), 2);
    chk_order(&heap);

    heap.push(0);

    assert_eq!(heap.len(), len);
    assert_eq!(*heap.peek_max().unwrap(), 10);
    assert_eq!(*heap.peek_min().unwrap(), 2);
    chk_order(&heap);
}

#[test]
fn minmaxheap_test_from_vec_growable() {
    let vec = vec![3, 5, 9, 7, 6, 1, 8, 4, 2];
    let len = vec.len();
    let mut heap = MinMaxHeap::from_vec_growable(vec);
    assert_eq!(heap.is_capped(), false);
    assert_eq!(heap.len(), len);
    assert_eq!(*heap.peek_max().unwrap(), 9);
    assert_eq!(*heap.peek_min().unwrap(), 1);

    heap.push(10);

    assert_eq!(heap.len(), len + 1);
    assert_eq!(*heap.peek_max().unwrap(), 10);
    assert_eq!(*heap.peek_min().unwrap(), 1);
    chk_order(&heap);

    heap.push(0);
    assert_eq!(heap.len(), len + 2);
    assert_eq!(*heap.peek_max().unwrap(), 10);
    assert_eq!(*heap.peek_min().unwrap(), 0);
    chk_order(&heap);
}

#[test]
fn test_test_small() {
    let mut heap = MinMaxHeap::new(2);
    heap.push_all(&[3, 5, 9]);
    assert_eq!(heap.len(), 2);
    assert_eq!(*heap.peek_max().unwrap(), 9);
    assert_eq!(*heap.peek_min().unwrap(), 5);
    drain_and_check(&mut heap);
}

#[test]
fn test_test_med() {
    let mut heap = MinMaxHeap::new(7);
    heap.push_all(&[3, 5, 9, 7, 6, 1, 0, 8, 4, 2]);
    assert_eq!(heap.len(), 7);
    assert_eq!(*heap.peek_max().unwrap(), 9);
    assert_eq!(*heap.peek_min().unwrap(), 3);
    drain_and_check(&mut heap);
}

#[test]
fn test_test_large() {
    let mut heap = MinMaxHeap::new(24);
    heap.push_all(&[3, 5, 9, 7, 6, 1, 0, 8, 4, 2]);
    assert_eq!(heap.len(), 10);
    assert_eq!(*heap.peek_max().unwrap(), 9);
    assert_eq!(*heap.peek_min().unwrap(), 0);
    drain_and_check(&mut heap);
}

#[test]
fn test_test_dupes() {
    let mut heap = MinMaxHeap::new(16);
    heap.push_all(&[3, 5, 9, 7, 6, 1, 0, 8, 4, 2, 2, 4, 8, 0, 1, 6, 7, 9, 5, 3]);
    assert_eq!(heap.len(), 16);
    assert_eq!(*heap.peek_max().unwrap(), 9);
    assert_eq!(*heap.peek_min().unwrap(), 2);
    drain_and_check(&mut heap);
}

#[test]
fn test_test_push_max() {
    let mut heap = MinMaxHeap::new(16);
    heap.push_all_max(&[3, 5, 9, 7, 6, 1, 0, 8, 4, 2, 2, 4, 8, 0, 1, 6, 7, 9, 5, 3]);
    assert_eq!(heap.len(), 16);
    assert_eq!(*heap.peek_max().unwrap(), 7);
    assert_eq!(*heap.peek_min().unwrap(), 0);
    drain_and_check(&mut heap);
}

#[test]
fn test_test_from_vec_growable() {
    let vec = vec![3, 5, 9, 7, 6, 1, 0, 8, 4, 2, 2, 4, 8, 0, 1, 6, 7, 9, 5, 3];
    let len = vec.len();
    let mut heap = MinMaxHeap::from_vec_growable(vec);
    assert_eq!(heap.len(), len);
    assert_eq!(*heap.peek_max().unwrap(), 9);
    assert_eq!(*heap.peek_min().unwrap(), 0);

    heap.push(10);

    assert_eq!(heap.len(), len + 1);
    assert_eq!(*heap.peek_max().unwrap(), 10);
    assert_eq!(*heap.peek_min().unwrap(), 0);
    drain_and_check(&mut heap);
}
