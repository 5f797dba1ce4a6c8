//! The heaps and the in-place sorts on concrete data, including the
//! non-`Copy` element case.

use tsinghua_ds::heap::heap_sort;
use tsinghua_ds::heap::BinaryHeap;
use tsinghua_ds::heap::LeftistHeap;

#[test]
fn test_leftistheap() {
    let mut leftheap = LeftistHeap::new();
    let array = [3, 4, 5, 2, 48, 19, 39, 390, 43, 12, 8, 9, 10, 7, 5];
    for &k in array.iter() {
        leftheap.insert(k);
    }
    let b = [2, 3, 4, 5, 5, 7, 8, 9, 10, 12, 19, 39, 43, 48, 390];
    let mut heap = LeftistHeap::new();
    for &k in b.iter() {
        heap.insert(k);
    }
    let _ = LeftistHeap::merge(leftheap.clear(), heap.clear());
}

#[test]
fn test_heap_sort() {
    let mut array = [3, 4, 5, 2, 48, 19, 39, 390, 43, 12, 8, 9, 10, 7, 5];
    let (lo, hi) = (0, array.len());
    heap_sort(&mut array, lo, hi);
    assert_eq!([2, 3, 4, 5, 5, 7, 8, 9, 10, 12, 19, 39, 43, 48, 390], array);

    array = [3, 4, 5, 2, 48, 19, 39, 390, 43, 12, 8, 9, 10, 7, 5];
    let (lo, hi) = (3, array.len() - 5);
    heap_sort(&mut array, lo, hi);
    assert_eq!([3, 4, 5, 2, 12, 19, 39, 43, 48, 390, 8, 9, 10, 7, 5], array);

    array = [3, 4, 5, 2, 48, 19, 39, 390, 43, 12, 8, 9, 10, 7, 5];
    let (lo, hi) = (3, array.len());
    heap_sort(&mut array, lo, hi);
    assert_eq!([3, 4, 5, 2, 5, 7, 8, 9, 10, 12, 19, 39, 43, 48, 390], array);

    let mut array = [3, 4, 5, -3, -10, 2, 48, 19, 39, 390, 43, 12, 8, 9, 10, 7, 5];
    let (lo, hi) = (0, array.len());
    heap_sort(&mut array, lo, hi);
    assert_eq!(
        [-10, -3, 2, 3, 4, 5, 5, 7, 8, 9, 10, 12, 19, 39, 43, 48, 390],
        array
    );

    let mut move_array = [
        format!("{}", 3),
        format!("{}", 4),
        format!("{}", 5),
        format!("{}", 2),
        format!("{}", 48),
        format!("{}", 19),
        format!("{}", 39),
        format!("{}", 390),
        format!("{}", 43),
        format!("{}", 12),
        format!("{}", 8),
        format!("{}", 9),
        format!("{}", 10),
        format!("{}", 7),
        format!("{}", 5),
    ];
    let (lo, hi) = (0, move_array.len());
    heap_sort(&mut move_array, lo, hi);
    assert_eq!(
        [
            format!("{}", 10),
            format!("{}", 12),
            format!("{}", 19),
            format!("{}", 2),
            format!("{}", 3),
            format!("{}", 39),
            format!("{}", 390),
            format!("{}", 4),
            format!("{}", 43),
            format!("{}", 48),
            format!("{}", 5),
            format!("{}", 5),
            format!("{}", 7),
            format!("{}", 8),
            format!("{}", 9),
        ],
        move_array
    );
}

#[test]
fn binary_heap_ordering() {
    let mut heap: BinaryHeap<i32> = BinaryHeap::new();
    assert_eq!(heap.peek(), None);
    assert!(heap.is_empty());
    heap.push(1);
    heap.push(5);
    heap.push(2);
    assert_eq!(heap.peek(), Some(&5));
    assert_eq!(heap.len(), 3);
    assert_eq!(heap.pop(), Some(5));
    assert_eq!(heap.pop(), Some(2));
    assert_eq!(heap.pop(), Some(1));
    assert_eq!(heap.pop(), None);
}

#[test]
fn binary_heap_rebuild_and_leftist_order() {
    let mut heap: BinaryHeap<i32> = BinaryHeap::with_capacity(8);
    for k in [3, 48, 19, 390, 43, 12] {
        heap.push(k);
    }
    let mut drained = Vec::new();
    while let Some(v) = heap.pop() {
        drained.push(v);
    }
    assert_eq!(drained, vec![390, 48, 43, 19, 12, 3]);

    let mut h: BinaryHeap<i32> = BinaryHeap::new();
    h.push(7);
    h.rebuild();
    assert_eq!(h.peek(), Some(&7));

    let mut lh = LeftistHeap::new();
    for k in [5, 1, 9, 4] {
        lh.insert(k);
    }
    assert_eq!(lh.get(), Some(&9));
    assert_eq!(lh.remove(), Some(9));
    assert_eq!(lh.remove(), Some(5));
    assert_eq!(lh.remove(), Some(4));
    assert_eq!(lh.remove(), Some(1));
    // the seed cell made by `new` holds the default value
    assert_eq!(lh.remove(), Some(0));
    assert_eq!(lh.remove(), None);
    assert_eq!(lh.get(), None);
}
