use netframe::buffer::{NetworkBuffer, MAX_BUFFER_SIZE};

#[test]
fn new_buffer_is_empty() {
    let buf = NetworkBuffer::new();
    assert_eq!(buf.offset, 0);
    assert_eq!(buf.data.len(), MAX_BUFFER_SIZE);
    assert_eq!(buf.remaining_capacity(), MAX_BUFFER_SIZE);
}

#[test]
fn write_bytes_appends_at_offset() {
    let mut buf = NetworkBuffer::new();
    buf.write_bytes(&[10, 20, 30]);
    assert_eq!(buf.offset, 3);
    buf.write_bytes(&[40]);
    assert_eq!(buf.offset, 4);
    assert_eq!(&buf.data[..4], &[10, 20, 30, 40]);
    assert_eq!(buf.remaining_capacity(), MAX_BUFFER_SIZE - 4);
}

#[test]
fn drain_all_resets_offset() {
    let mut buf = NetworkBuffer::new();
    buf.write_bytes(&[1, 2, 3, 4, 5]);
    buf.drain(5);
    assert_eq!(buf.offset, 0);
}

#[test]
fn drain_partial_preserves_remainder_in_order() {
    let mut buf = NetworkBuffer::new();
    buf.write_bytes(&[1, 2, 3, 4, 5]);
    buf.drain(2);
    assert_eq!(buf.offset, 3);
    assert_eq!(&buf.data[..3], &[3, 4, 5]);
}

#[test]
fn drain_zero_changes_nothing() {
    let mut buf = NetworkBuffer::new();
    buf.write_bytes(&[7, 8]);
    buf.drain(0);
    assert_eq!(buf.offset, 2);
    assert_eq!(&buf.data[..2], &[7, 8]);
}

#[test]
fn clear_resets_offset() {
    let mut buf = NetworkBuffer::new();
    buf.write_bytes(&[1, 2, 3]);
    buf.clear();
    assert_eq!(buf.offset, 0);
}

#[test]
fn copy_range_reads_without_consuming() {
    let mut buf = NetworkBuffer::new();
    buf.write_bytes(&[5, 6, 7, 8]);
    let out = buf.copy_range(1, 3);
    assert_eq!(out, vec![6, 7]);
    assert_eq!(buf.offset, 4);
}

#[test]
fn fill_to_capacity_then_drain() {
    let mut buf = NetworkBuffer::new();
    let chunk = vec![0xAB; MAX_BUFFER_SIZE];
    buf.write_bytes(&chunk);
    assert_eq!(buf.offset, MAX_BUFFER_SIZE);
    assert_eq!(buf.remaining_capacity(), 0);
    buf.drain(MAX_BUFFER_SIZE - 1);
    assert_eq!(buf.offset, 1);
    assert_eq!(buf.data[0], 0xAB);
}
