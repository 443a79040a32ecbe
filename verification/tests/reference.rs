use lockfree_ringbuffer::reference::BoundedBuffer;

#[test]
fn bounded_buffer_evicts_when_not_reading() {
    let mut b = BoundedBuffer::new(2);
    assert_eq!(b.write(1), Ok(()));
    assert_eq!(b.write(2), Ok(()));
    assert_eq!(b.write(3), Ok(()));
    assert_eq!(b.read(), Ok(()));
    assert_eq!(b.next(), Ok(Some(2)));
    assert_eq!(b.next(), Ok(Some(3)));
    assert_eq!(b.next(), Ok(None));
}

#[test]
fn bounded_buffer_refuses_full_write_while_reading() {
    let mut b = BoundedBuffer::new(2);
    assert_eq!(b.write(1), Ok(()));
    assert_eq!(b.read(), Ok(()));
    assert_eq!(b.write(2), Ok(()));
    assert_eq!(b.write(3), Err(()));
    assert_eq!(b.next(), Ok(Some(1)));
    assert_eq!(b.write(3), Ok(()));
    assert_eq!(b.next(), Ok(Some(2)));
    assert_eq!(b.next(), Ok(Some(3)));
}

#[test]
fn bounded_buffer_read_state_errors() {
    let mut b: BoundedBuffer<u8> = BoundedBuffer::new(1);
    assert_eq!(b.next(), Err(()));
    assert_eq!(b.stop_reading(), Err(()));
    assert_eq!(b.read(), Ok(()));
    assert_eq!(b.read(), Err(()));
    assert_eq!(b.stop_reading(), Ok(()));
    assert_eq!(b.next(), Err(()));
}
