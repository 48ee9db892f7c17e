use tproxy::zerocopy::RingBuffer;

#[test]
fn test_ring_buffer() {
    let mut rb = RingBuffer::new(10);
    let written = rb.write(b"hello");
    assert_eq!(written, 5);
    assert_eq!(rb.available_read(), 5);
    let mut buf = vec![0u8; 5];
    let read = rb.read(&mut buf);
    assert_eq!(read, 5);
    assert_eq!(&buf, b"hello");
    assert!(rb.is_empty());
}

#[test]
fn test_ring_buffer_wrap() {
    let mut rb = RingBuffer::new(5);
    rb.write(b"abc");
    let mut buf = vec![0u8; 2];
    rb.read(&mut buf);
    rb.write(b"def");
    assert_eq!(rb.available_read(), 4);
}

#[test]
fn peek_does_not_consume() {
    let mut rb = RingBuffer::new(8);
    rb.write(b"xyz");
    let mut buf = vec![0u8; 3];
    assert_eq!(rb.peek(&mut buf), 3);
    assert_eq!(&buf, b"xyz");
    assert_eq!(rb.available_read(), 3);
    rb.clear();
    assert!(rb.is_empty());
}

#[test]
fn ring_is_first_in_first_out_across_the_wrap() {
    let mut rb = RingBuffer::new(4);
    assert_eq!(rb.write(b"ab"), 2);
    let mut one = vec![0u8; 1];
    assert_eq!(rb.read(&mut one), 1);
    assert_eq!(&one, b"a");
    assert_eq!(rb.write(b"cd"), 2);
    let mut rest = vec![0u8; 3];
    assert_eq!(rb.read(&mut rest), 3);
    assert_eq!(&rest, b"bcd");
}

#[test]
fn full_ring_refuses_more() {
    let mut rb = RingBuffer::new(4);
    assert_eq!(rb.write(b"abcdef"), 3);
    assert!(rb.is_full());
    assert_eq!(rb.write(b"x"), 0);
}
