use ringheap::RingHeap;

// Successive forced growths double the ring's period: 0 before any storage
// exists, then 2, 4, 8, ...; after 7 insertions from empty the period is 8
// and 7 elements are live.
#[test]
fn capacity_doubling_schedule() {
    let mut heap = RingHeap::new();
    assert_eq!(heap.capacity(), 0);

    let expected = [2, 4, 4, 8, 8, 8, 8];
    let values = [2, 1, 4, 6, -1, -3, 3];
    for k in 0..values.len() {
        heap.insert(values[k]);
        assert_eq!(heap.capacity(), expected[k]);
    }
    assert_eq!(heap.len(), 7);
}

// Force the logical window to wrap past the physical end of the buffer and
// then grow: the wrapped tail is relocated and the live elements survive.
#[test]
fn growth_with_wrapped_window() {
    let mut heap = RingHeap::new();
    heap.insert(5);
    heap.insert(3);
    heap.insert(8);
    assert_eq!(heap.capacity(), 4);
    assert_eq!(heap.len(), 3);
    assert_eq!(heap.peek(), Some(3));

    assert_eq!(heap.pop(), Some(3));
    assert_eq!(heap.pop(), Some(5));
    assert_eq!(heap.start_offset(), 2);

    heap.insert(9);
    // the window now wraps: end comes back around to slot 0
    assert_eq!(heap.end_offset(), 0);
    assert!(heap.start_offset() > heap.end_offset());
    heap.insert(1);
    assert_eq!(heap.capacity(), 4);

    // this insertion forces a growth while the window is wrapped
    heap.insert(7);
    assert_eq!(heap.capacity(), 8);
    assert_eq!(heap.len(), 4);
    assert_eq!(heap.start_offset(), 6);

    assert_eq!(heap.pop(), Some(1));
    assert_eq!(heap.pop(), Some(7));
    assert_eq!(heap.pop(), Some(8));
    assert_eq!(heap.pop(), Some(9));
    assert_eq!(heap.pop(), None);
}

// After k insertions and j pops, popping to exhaustion yields exactly k - j
// values, and all popped values together form the multiset that was
// inserted.
#[test]
fn count_conservation() {
    let mut heap = RingHeap::new();
    let inserted = [4, -2, 7, 0, 4];
    for k in 0..inserted.len() {
        heap.insert(inserted[k]);
    }

    let mut popped: Vec<i64> = Vec::new();
    popped.push(heap.pop().unwrap());
    popped.push(heap.pop().unwrap());
    assert_eq!(popped, vec![-2, 0]);
    assert_eq!(heap.len(), inserted.len() - 2);

    // The remaining pops follow the sift policy, not sorted order: after the
    // window shifts, 7 sits above the two equal 4s, and equal children never
    // trigger an exchange.
    let mut rest: Vec<i64> = Vec::new();
    while let Some(v) = heap.pop() {
        rest.push(v);
    }
    assert_eq!(rest, vec![7, 4, 4]);
    assert_eq!(rest.len(), inserted.len() - 2);

    let mut all: Vec<i64> = popped.clone();
    all.extend(rest);
    all.sort();
    let mut expected = inserted.to_vec();
    expected.sort();
    assert_eq!(all, expected);
}

// Popping advances the window, which re-parents the implicit tree; only the
// root path is sifted afterwards, so deeper violations can survive and the
// overall pop order is determined by the sift policy rather than sorted.
#[test]
fn pop_order_follows_sift_policy() {
    let mut heap = RingHeap::new();
    let values = [0, 5, 1, 6, 7, 2, 3];
    for k in 0..values.len() {
        heap.insert(values[k]);
    }
    let mut popped: Vec<i64> = Vec::new();
    while let Some(v) = heap.pop() {
        popped.push(v);
    }
    assert_eq!(popped, vec![0, 1, 2, 5, 3, 6, 7]);
}

// clear logically empties the heap in constant time, keeps the allocated
// period, and afterwards the heap behaves like a fresh one of that period.
#[test]
fn clear_resets_to_fresh_behavior() {
    let mut heap = RingHeap::new();
    heap.insert(3);
    heap.insert(1);
    heap.insert(2);
    assert_eq!(heap.capacity(), 4);
    assert_eq!(heap.peek(), Some(1));

    heap.clear();
    assert_eq!(heap.len(), 0);
    assert_eq!(heap.capacity(), 4);
    assert_eq!(heap.start_offset(), 0);
    assert_eq!(heap.end_offset(), 0);
    assert_eq!(heap.pop(), None);
    assert_eq!(heap.peek(), None);

    heap.insert(5);
    heap.insert(-5);
    heap.insert(0);
    assert_eq!(heap.capacity(), 4);
    assert_eq!(heap.pop(), Some(-5));
    assert_eq!(heap.peek(), Some(0));
}

// A heap built with a capacity hint starts logically empty, with the ring
// period still 0 until the first growth.
#[test]
fn with_capacity_starts_empty() {
    let mut heap = RingHeap::with_capacity(16);
    assert_eq!(heap.capacity(), 0);
    assert_eq!(heap.len(), 0);
    assert_eq!(heap.pop(), None);
    heap.insert(42);
    assert_eq!(heap.peek(), Some(42));
    assert_eq!(heap.capacity(), 2);
}
