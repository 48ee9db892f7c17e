use tproxy::tcp_advanced::{OutOfOrderBuffer, RetransmissionQueue, SackBlock, SackManager};

#[test]
fn test_out_of_order_buffer() {
    let mut buffer = OutOfOrderBuffer::new(1000, 10);
    assert!(buffer.insert(1010, vec![1, 2, 3]));
    assert!(buffer.insert(1000, vec![4, 5, 6]));
    let data = buffer.get_contiguous_data().unwrap();
    assert_eq!(data, vec![4, 5, 6]);
    assert_eq!(buffer.expected_seq, 1003);
}

#[test]
fn test_retransmission_queue() {
    let mut queue = RetransmissionQueue::new();
    queue.add(1000, vec![1, 2, 3]);
    queue.add(1003, vec![4, 5, 6]);
    assert_eq!(queue.len(), 2);
    queue.acknowledge(1003);
    assert_eq!(queue.len(), 1);
}

#[test]
fn test_sack_manager() {
    let mut sack = SackManager::new(4);
    sack.add_block(1000, 1010);
    sack.add_block(1020, 1030);
    assert!(sack.is_sacked(1005));
    assert!(!sack.is_sacked(1015));
    assert!(sack.is_sacked(1025));
}

#[test]
fn early_segments_refused() {
    let mut buffer = OutOfOrderBuffer::new(1000, 2);
    assert!(!buffer.insert(900, vec![1]));
    assert!(buffer.insert(1000, vec![1]));
    assert!(buffer.insert(1001, vec![2]));
    assert!(!buffer.insert(1002, vec![3]));
}

#[test]
fn sack_block_edges() {
    let b = SackBlock::new(10, 20);
    assert!(b.contains(10));
    assert!(!b.contains(20));
    assert_eq!(b.len(), 10);
}

#[test]
fn retransmit_timeout_band() {
    let mut queue = RetransmissionQueue::new();
    queue.update_timeout(1);
    assert_eq!(queue.timeout_ms, 100);
    queue.update_timeout(100000);
    assert_eq!(queue.timeout_ms, 60000);
    queue.update_timeout(150);
    assert_eq!(queue.timeout_ms, 300);
}

#[test]
fn contiguous_run_drains_across_replacements() {
    let mut buffer = OutOfOrderBuffer::new(100, 10);
    assert!(buffer.insert(103, vec![9, 9]));
    assert!(buffer.insert(100, vec![1, 2, 3]));
    // Same number again: the payload is replaced in place.
    assert!(buffer.insert(103, vec![4, 5]));
    assert!(buffer.insert(105, vec![6]));
    assert!(buffer.insert(110, vec![7]));
    let data = buffer.get_contiguous_data().unwrap();
    assert_eq!(data, vec![1, 2, 3, 4, 5, 6]);
    assert_eq!(buffer.expected_seq, 106);
    // The segment past the gap stayed buffered.
    assert!(buffer.has_data());
    assert!(buffer.get_contiguous_data().is_none());
    assert_eq!(buffer.expected_seq, 106);
}

#[test]
fn acknowledged_segments_keep_order_and_contents() {
    let mut queue = RetransmissionQueue::new();
    queue.add(1000, vec![1, 2, 3]);
    queue.add(1003, vec![4, 5, 6]);
    queue.add(1006, vec![7]);
    // 1003 covers only the first segment's end.
    queue.acknowledge(1003);
    assert_eq!(queue.len(), 2);
    assert_eq!(queue.segments[0].seq, 1003);
    assert_eq!(queue.segments[0].data, vec![4, 5, 6]);
    assert_eq!(queue.segments[1].seq, 1006);
    assert_eq!(queue.segments[1].data, vec![7]);
}

#[test]
fn nested_range_keeps_full_coverage() {
    let mut sack = SackManager::new(4);
    sack.add_block(1000, 1010);
    // A nested range must not shrink what is acknowledged.
    sack.add_block(1002, 1004);
    assert!(sack.is_sacked(1000));
    assert!(sack.is_sacked(1005));
    assert!(sack.is_sacked(1009));
    assert!(!sack.is_sacked(1010));
    // The touching pair was merged into one sorted block.
    assert_eq!(sack.block_count(), 1);
    assert_eq!(sack.get_blocks()[0].left_edge, 1000);
    assert_eq!(sack.get_blocks()[0].right_edge, 1010);
}

#[test]
fn empty_range_changes_nothing() {
    let mut sack = SackManager::new(4);
    sack.add_block(1000, 1010);
    sack.add_block(500, 500);
    assert_eq!(sack.block_count(), 1);
    assert!(sack.is_sacked(1005));
    assert!(!sack.is_sacked(500));
}
