use partition_log::batch::{Batch, BatchState, MAX_BATCH_SIZE};
use partition_log::error::StorageError;
use partition_log::offset::Offset;

#[test]
fn add_fills_buffer_and_records() {
    let mut batch = Batch::new();
    assert_eq!(batch.add("a", b"hello", 0, 0), Ok(BatchState::Allowable));
    assert_eq!(batch.add("b", b"world!", 0, 0), Ok(BatchState::Allowable));
    let prune = batch.get_prunable();
    assert_eq!(prune.buffer_as_bytes(), b"helloworld!");
    assert_eq!(prune.offsets.len(), 2);
    assert_eq!(prune.offsets[0], Offset::new("a", 0, 5, 0).unwrap());
    assert_eq!(prune.offsets[1], Offset::new("b", 5, 11, 0).unwrap());
    let bytes = prune.offsets_as_bytes();
    assert_eq!(bytes.len(), 320);
    assert_eq!(Offset::from_bytes(&bytes[160..320]), Some(prune.offsets[1]));
}

#[test]
fn add_reports_full_without_change() {
    let mut batch = Batch::new();
    let big = vec![7u8; MAX_BATCH_SIZE - 10];
    assert_eq!(batch.add("a", &big, 0, 0), Ok(BatchState::Allowable));
    assert_eq!(batch.add("b", &[1u8; 10], 0, 0), Ok(BatchState::ShouldFlush));
    assert_eq!(batch.get_prunable().buffer.len(), MAX_BATCH_SIZE - 10);
    assert_eq!(batch.get_prunable().offsets.len(), 1);
    batch.reset();
    assert_eq!(batch.get_prunable().buffer.len(), 0);
    assert_eq!(batch.add("b", &[1u8; 10], 0, 0), Ok(BatchState::Allowable));
    // The segment position carries over the reset.
    assert_eq!(
        batch.get_prunable().offsets[0],
        Offset::new("b", MAX_BATCH_SIZE - 10, MAX_BATCH_SIZE, 0).unwrap()
    );
}

#[test]
fn add_entry_as_large_as_buffer_never_fits() {
    let mut batch = Batch::new();
    let big = vec![0u8; MAX_BATCH_SIZE];
    assert_eq!(batch.add("a", &big, 0, 0), Ok(BatchState::ShouldFlush));
}

#[test]
fn add_errors_leave_batch_unchanged() {
    let mut batch = Batch::new();
    let k = "k".repeat(129);
    assert_eq!(
        batch.add(&k, b"x", 0, 0),
        Err(StorageError::KeyTooLong { size: 129 })
    );
    assert_eq!(
        batch.add("a", b"", 0, 0),
        Err(StorageError::InvalidRange { start: 0, end: 0 })
    );
    assert_eq!(batch.get_prunable().offsets.len(), 0);
}

#[test]
fn add_new_segment_restarts_position() {
    let mut batch = Batch::new();
    assert_eq!(batch.add("a", b"abc", 0, 0), Ok(BatchState::Allowable));
    assert_eq!(batch.add("b", b"de", 1, 40), Ok(BatchState::Allowable));
    // The marker took the reported size (40), so segment 1 again differs.
    assert_eq!(batch.add("c", b"f", 1, 40), Ok(BatchState::Allowable));
    let prune = batch.get_prunable();
    assert_eq!(prune.offsets[0], Offset::new("a", 0, 3, 0).unwrap());
    assert_eq!(prune.offsets[1], Offset::new("b", 0, 2, 1).unwrap());
    assert_eq!(prune.offsets[2], Offset::new("c", 0, 1, 1).unwrap());
    assert_eq!(prune.buffer_as_bytes(), b"abcdef");
}
