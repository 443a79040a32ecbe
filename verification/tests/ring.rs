use lockfree_ringbuffer::{RingBuffer, Tail};

#[test]
fn tail_conversion() {
    for locked in &[true, false] {
        for value in 0..100 {
            let tail = Tail {
                locked: *locked,
                value,
            };
            assert_eq!(<Tail as From<isize>>::from(tail.into()), tail)
        }
    }

    for i in -20isize..=20isize {
        assert_eq!(<Tail as Into<isize>>::into(Tail::from(i)), i)
    }
}

#[test]
fn lib_test_get() {
    let mut rb = RingBuffer::new(5);
    for i in 0..5 {
        rb.push(i);
    }
    for i in 0..5 {
        assert_eq!(rb.get(i), Some(&i));
    }
    assert_eq!(rb.front(), Some(&0));
    assert_eq!(rb.back(), Some(&4));
}

#[test]
fn tail_codes_carry_the_lock_in_the_sign() {
    assert_eq!(isize::from(Tail { locked: false, value: 7 }), 7);
    assert_eq!(isize::from(Tail { locked: true, value: 0 }), -1);
    assert_eq!(isize::from(Tail { locked: true, value: 7 }), -8);
    assert_eq!(Tail::from(-1isize), Tail { locked: true, value: 0 });
    assert_eq!(Tail::from(isize::MIN), Tail { locked: true, value: isize::MAX as usize });
    assert_eq!(isize::from(Tail::from(isize::MIN)), isize::MIN);
    assert_eq!(Tail { locked: true, value: 3 } + 2, Tail { locked: true, value: 5 });
}

#[test]
fn full_ring_evicts_oldest() {
    let mut rb = RingBuffer::new(3);
    rb.push(1);
    rb.push(2);
    rb.push(3);
    rb.push(4);
    assert_eq!(rb.front(), Some(&2));
    rb.push(5);
    assert_eq!(rb.front(), Some(&3));
    assert_eq!(rb.back(), Some(&5));
    assert_eq!(rb.get(2), Some(&5));
    assert_eq!(rb.get(3), None);
    assert_eq!(rb.pushed_count(), 5);
}

#[test]
fn pop_drains_in_push_order() {
    let mut rb = RingBuffer::new(4);
    for i in 10..16 {
        rb.push(i);
    }
    let mut got = Vec::new();
    {
        let mut it = rb.pop();
        while let Some(x) = it.next() {
            got.push(x);
        }
    }
    assert_eq!(got, vec![12, 13, 14, 15]);
    assert_eq!(rb.front(), None);
    assert_eq!(rb.back(), None);
    assert_eq!(rb.get(0), None);
    let mut it = rb.pop();
    assert_eq!(it.next(), None);
}

#[test]
fn early_stop_leaves_rest_in_ring() {
    let mut rb = RingBuffer::new(5);
    for i in 0..5 {
        rb.push(i);
    }
    {
        let mut it = rb.pop();
        assert_eq!(it.next(), Some(0));
        assert_eq!(it.next(), Some(1));
    }
    assert_eq!(rb.front(), Some(&2));
    rb.push(5);
    rb.push(6);
    assert_eq!(rb.front(), Some(&2));
    rb.push(7);
    assert_eq!(rb.front(), Some(&3));
    assert_eq!(rb.back(), Some(&7));
}

#[test]
fn zero_capacity_ring_holds_nothing() {
    let mut rb = RingBuffer::new(0);
    assert_eq!(rb.back(), None);
    rb.push(9);
    assert_eq!(rb.front(), None);
    assert_eq!(rb.get(0), None);
    // The newest item stays visible at the back, as no reader ever takes it.
    assert_eq!(rb.back(), Some(&9));
    let mut it = rb.pop();
    assert_eq!(it.next(), None);
}
