use musicviz::capture::CaptureBuffer;

#[test]
fn append_then_snapshot() {
    let mut buf = CaptureBuffer::new();
    assert_eq!(buf.snapshot_len(), 0);
    buf.append(&vec![1, 2, 3]);
    buf.append(&vec![4, 5]);
    assert_eq!(buf.snapshot_len(), 5);
    assert_eq!(buf.snapshot_copy(), vec![1, 2, 3, 4, 5]);
    // snapshots are non-destructive
    assert_eq!(buf.snapshot_len(), 5);
}

#[test]
fn drain_front_removes_oldest() {
    let mut buf = CaptureBuffer::new();
    buf.append(&vec![10, 20, 30, 40, 50]);
    let block = buf.drain_front(3);
    assert_eq!(block, Some(vec![10, 20, 30]));
    assert_eq!(buf.snapshot_copy(), vec![40, 50]);
}

#[test]
fn drain_front_declines_when_short() {
    let mut buf = CaptureBuffer::new();
    buf.append(&vec![7, 8]);
    // absence of data is an observable state, not an error: nothing changes
    assert_eq!(buf.drain_front(3), None);
    assert_eq!(buf.snapshot_copy(), vec![7, 8]);
    assert_eq!(buf.drain_front(0), Some(vec![]));
    let empty = CaptureBuffer::new();
    assert_eq!(empty.snapshot_len(), 0);
}
