use lockfree_ringbuffer::threadsafe::LockFreeRingBuffer;

#[test]
fn threadsafe_test_get() {
    let mut rb = LockFreeRingBuffer::new(5);
    for i in 0..5 {
        rb.push(i);
    }
    assert_eq!(rb.len(), 5);
    assert!(!rb.is_empty());

    for i in 0..5 {
        assert_eq!(rb.get_cloned(i), Some(i));
    }
    assert_eq!(rb.front_cloned(), Some(0));
    assert_eq!(rb.back_cloned(), Some(4));

    assert_eq!(rb.get_cloned(5), None);
    assert_eq!(rb.get_cloned(100), None);
}

#[test]
fn test_iterator_early_drop() {
    let mut buffer = LockFreeRingBuffer::new(10);

    for i in 0..10 {
        buffer.push(i);
    }

    {
        let mut iter = buffer.pop();
        assert_eq!(iter.next(), Some(0));
        assert_eq!(iter.next(), Some(1));
        assert_eq!(iter.next(), Some(2));
    }

    buffer.push(100);

    let mut items = Vec::new();
    {
        let mut iter = buffer.pop();
        while let Some(x) = iter.next() {
            items.push(x);
        }
    }
    println!("After early drop and push: {:?}", items);

    assert!(items.contains(&100));
    assert_eq!(items, vec![3, 4, 5, 6, 7, 8, 9, 100]);
}

#[test]
fn readme_eviction_example() {
    let mut ring = LockFreeRingBuffer::new(3);
    ring.push(1);
    ring.push(2);
    ring.push(3);
    ring.push(4);
    ring.push(5);
    assert_eq!(ring.front_cloned(), Some(3));
    assert_eq!(ring.back_cloned(), Some(5));
    assert_eq!(ring.len(), 3);
}

#[test]
fn readme_peek_example() {
    let mut ring = LockFreeRingBuffer::new(4);
    ring.push("first");
    ring.push("second");
    ring.push("third");
    assert_eq!(ring.front_cloned(), Some("first"));
    assert_eq!(ring.back_cloned(), Some("third"));
    assert_eq!(ring.get_cloned(1), Some("second"));
    assert_eq!(ring.len(), 3);
}

#[test]
fn empty_ring_peeks_nothing() {
    let mut ring: LockFreeRingBuffer<u32> = LockFreeRingBuffer::new(2);
    assert!(ring.is_empty());
    assert_eq!(ring.len(), 0);
    assert_eq!(ring.front_cloned(), None);
    assert_eq!(ring.back_cloned(), None);
    assert_eq!(ring.get_cloned(0), None);
    let mut it = ring.pop();
    assert_eq!(it.next(), None);
}

#[test]
fn zero_capacity_ring_evicts_at_once() {
    let mut ring = LockFreeRingBuffer::new(0);
    ring.push(1u8);
    ring.push(2u8);
    assert!(ring.is_empty());
    assert_eq!(ring.back_cloned(), None);
}

#[test]
fn many_rounds_reuse_slots() {
    let mut ring = LockFreeRingBuffer::new(3);
    let mut seen = Vec::new();
    for round in 0..50u32 {
        ring.push(2 * round);
        ring.push(2 * round + 1);
        let mut it = ring.pop();
        if let Some(x) = it.next() {
            seen.push(x);
        }
    }
    // Each round takes one item while two arrive, so the ring stays full and
    // keeps evicting; what comes out still rises.
    for w in seen.windows(2) {
        assert!(w[0] < w[1]);
    }
    // The last round filled the ring and took one item out.
    assert_eq!(ring.len(), 2);
    assert_eq!(ring.back_cloned(), Some(99));
}
