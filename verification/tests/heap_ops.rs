use ringheap::RingHeap;

#[test]
fn inserts_correctly() {
    let mut heap = RingHeap::new();

    assert_eq!(heap.capacity(), 0);
    assert_eq!(heap.len(), 0);
    assert_eq!(heap.start_offset(), 0);
    assert_eq!(heap.end_offset(), 0);
    assert_eq!(heap.peek(), None);

    heap.insert(2);
    assert_eq!(heap.capacity(), 2);
    assert_eq!(heap.len(), 1);
    assert_eq!(heap.start_offset(), 0);
    assert_eq!(heap.end_offset(), 1);
    assert_eq!(heap.peek(), Some(2));

    heap.insert(1);
    assert_eq!(heap.capacity(), 4);
    assert_eq!(heap.len(), 2);
    assert_eq!(heap.start_offset(), 0);
    assert_eq!(heap.end_offset(), 2);
    assert_eq!(heap.peek(), Some(1));

    heap.insert(4);
    assert_eq!(heap.capacity(), 4);
    assert_eq!(heap.len(), 3);
    assert_eq!(heap.start_offset(), 0);
    assert_eq!(heap.end_offset(), 3);
    assert_eq!(heap.peek(), Some(1));
}

#[test]
fn pops_correctly() {
    let mut heap = RingHeap::new();
    heap.insert(2);
    heap.insert(1);
    heap.insert(4);
    heap.insert(6);
    heap.insert(-1);
    heap.insert(-3);
    heap.insert(3);
    assert_eq!(heap.capacity(), 8);
    assert_eq!(heap.len(), 7);
    assert_eq!(heap.start_offset(), 0);
    assert_eq!(heap.end_offset(), 7);

    // pop shifts the start offset upwards, without touching storage or end
    assert_eq!(heap.pop(), Some(-3));
    assert_eq!(heap.len(), 6);
    assert_eq!(heap.start_offset(), 1);
    assert_eq!(heap.end_offset(), 7);

    assert_eq!(heap.pop(), Some(-1));
    assert_eq!(heap.len(), 5);
    assert_eq!(heap.start_offset(), 2);
    assert_eq!(heap.end_offset(), 7);

    assert_eq!(heap.pop(), Some(1));
    assert_eq!(heap.len(), 4);
    assert_eq!(heap.start_offset(), 3);
    assert_eq!(heap.end_offset(), 7);

    assert_eq!(heap.pop(), Some(2));
    assert_eq!(heap.len(), 3);
    assert_eq!(heap.start_offset(), 4);
    assert_eq!(heap.end_offset(), 7);

    assert_eq!(heap.pop(), Some(3));
    assert_eq!(heap.len(), 2);
    assert_eq!(heap.start_offset(), 5);
    assert_eq!(heap.end_offset(), 7);

    assert_eq!(heap.pop(), Some(4));
    assert_eq!(heap.len(), 1);
    assert_eq!(heap.start_offset(), 6);
    assert_eq!(heap.end_offset(), 7);

    assert_eq!(heap.pop(), Some(6));
    assert_eq!(heap.len(), 0);
    assert_eq!(heap.start_offset(), 7);
    assert_eq!(heap.end_offset(), 7);

    assert_eq!(heap.pop(), None);
    assert_eq!(heap.len(), 0);
    assert_eq!(heap.start_offset(), 7);
    assert_eq!(heap.end_offset(), 7);

    assert_eq!(heap.capacity(), 8);
}

#[test]
fn complex_example() {
    let mut heap = RingHeap::new();
    heap.insert(12);
    assert_eq!(heap.peek(), Some(12));
    heap.insert(10);
    assert_eq!(heap.peek(), Some(10));
    assert_eq!(heap.pop(), Some(10));
    assert_eq!(heap.pop(), Some(12));
    assert_eq!(heap.pop(), None);

    heap.insert(5);
    heap.insert(-5);
    heap.insert(0);
    assert_eq!(heap.pop(), Some(-5));
    assert_eq!(heap.peek(), Some(0));

    heap.insert(10);
    heap.insert(-7);
    assert_eq!(heap.pop(), Some(-7));
    assert_eq!(heap.pop(), Some(0));

    heap.insert(11);
    heap.insert(-7);
    assert_eq!(heap.pop(), Some(-7));
    assert_eq!(heap.peek(), Some(5));
}
