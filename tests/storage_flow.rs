use partition_log::batch::BatchState;
use partition_log::error::StorageError;
use partition_log::indices::Indices;
use partition_log::offset::Offset;
use partition_log::storage::{Storage, MAX_ENTRY_SIZE};

/// Segment files kept in memory: one payload segment and one index segment.
struct Disk {
    payload: Vec<u8>,
    index: Vec<u8>,
}

fn open(disk: &Disk) -> Storage {
    let indices = Indices::from(&[disk.index.clone()]).unwrap();
    Storage::new(indices, false)
}

fn flush(storage: &mut Storage, disk: &mut Disk) {
    let prune = storage.prunable();
    disk.payload.extend_from_slice(prune.buffer_as_bytes());
    disk.index.extend_from_slice(&prune.offsets_as_bytes());
    storage.complete_flush();
}

fn set(storage: &mut Storage, disk: &mut Disk, key: &str, buf: &[u8]) {
    let size = disk.payload.len();
    if storage.set(key, buf, 0, size).unwrap() == BatchState::ShouldFlush {
        flush(storage, disk);
        let size = disk.payload.len();
        assert_eq!(storage.set(key, buf, 0, size).unwrap(), BatchState::Allowable);
    }
}

fn get(storage: &Storage, disk: &Disk, key: &str) -> Option<Vec<u8>> {
    let o: Offset = storage.lookup(key)?;
    assert_eq!(o.segment_count(), 0);
    Some(disk.payload[o.start()..o.start() + o.data_size()].to_vec())
}

fn setup(message: &[u8], count: usize) -> (Storage, Disk) {
    let mut disk = Disk { payload: vec![], index: vec![] };
    let mut storage = open(&disk);
    for i in 0..count {
        set(&mut storage, &mut disk, &format!("key_{}", i), message);
    }
    flush(&mut storage, &mut disk);
    assert_eq!(storage.len(), count);
    (storage, disk)
}

#[test]
fn set_returns_ok() {
    let (mut storage, mut disk) = setup(b"", 0);
    let value = r#"{"id":8,"title":"Microsoft Surface Laptop 4","price":1499}"#;
    set(&mut storage, &mut disk, "user_129310", value.as_bytes());
    flush(&mut storage, &mut disk);
    assert_eq!(get(&storage, &disk, "user_129310").unwrap(), value.as_bytes());
}

#[test]
fn get_returns_ok() {
    let message = b"testable message here!";
    let (storage, disk) = setup(message, 500);
    for i in 0..500 {
        assert_eq!(
            get(&storage, &disk, &format!("key_{}", i)),
            Some(message.to_vec())
        );
    }
    assert_eq!(storage.len(), 500);
}

#[test]
fn storage_loads_previous_indices() {
    let (mut storage, mut disk) = setup(b"testable message here", 5);
    let length = storage.len();
    set(&mut storage, &mut disk, "test_new_key", b"just a message");
    set(&mut storage, &mut disk, "test_new_key_2", b"just a message");
    set(&mut storage, &mut disk, "test_new_key_3", b"just a message");
    flush(&mut storage, &mut disk);
    assert_eq!(length + 3, storage.len());
    let reopened = open(&disk);
    assert_eq!(reopened.len(), length + 3);
    for i in 0..5 {
        let k = format!("key_{}", i);
        assert_eq!(get(&reopened, &disk, &k), get(&storage, &disk, &k));
    }
    assert_eq!(
        get(&reopened, &disk, "test_new_key_3").unwrap(),
        b"just a message"
    );
}

#[test]
fn storage_overrides_existing_keys() {
    let (mut storage, mut disk) = setup(b"testable message here", 5);
    set(&mut storage, &mut disk, "test_new_key", b"first");
    set(&mut storage, &mut disk, "test_new_key", b"second!!");
    set(&mut storage, &mut disk, "test_new_key", b"third!!!!!!!");
    flush(&mut storage, &mut disk);
    assert_eq!(get(&storage, &disk, "test_new_key").unwrap(), b"third!!!!!!!");
    assert_eq!(storage.len(), 6);
}

#[test]
fn overwrite_across_flushes() {
    let (mut storage, mut disk) = setup(b"x", 1);
    set(&mut storage, &mut disk, "k", b"one");
    flush(&mut storage, &mut disk);
    set(&mut storage, &mut disk, "k", b"two!");
    flush(&mut storage, &mut disk);
    assert_eq!(get(&storage, &disk, "k").unwrap(), b"two!");
    assert_eq!(get(&open(&disk), &disk, "k").unwrap(), b"two!");
}

#[test]
fn get_returns_none_on_index_out_of_bounds() {
    let message = b"hello world hello world hello worldrld hello worldrld hello worl";
    let (storage, disk) = setup(message, 5);
    assert_eq!(get(&storage, &disk, &format!("key_{}", 5)), None);
}

#[test]
fn unflushed_write_is_invisible() {
    let (mut storage, mut disk) = setup(b"x", 0);
    set(&mut storage, &mut disk, "pending", b"data");
    assert_eq!(get(&storage, &disk, "pending"), None);
    assert_eq!(storage.len(), 0);
    flush(&mut storage, &mut disk);
    assert_eq!(get(&storage, &disk, "pending").unwrap(), b"data");
}

#[test]
fn full_batch_flushes_and_keeps_entry() {
    let (mut storage, mut disk) = setup(b"x", 0);
    let chunk = vec![3u8; 10000];
    set(&mut storage, &mut disk, "a", &chunk);
    set(&mut storage, &mut disk, "b", &chunk);
    // The second write forced a flush of the first.
    assert_eq!(get(&storage, &disk, "a").unwrap(), chunk);
    assert_eq!(get(&storage, &disk, "b"), None);
    flush(&mut storage, &mut disk);
    assert_eq!(get(&storage, &disk, "b").unwrap(), chunk);
}

#[test]
fn set_rejects_oversized_entry() {
    let mut storage = Storage::new(Indices::new(), true);
    let big = vec![0u8; MAX_ENTRY_SIZE + 1];
    assert_eq!(
        storage.set("a", &big, 0, 0),
        Err(StorageError::EntryTooLarge { size: MAX_ENTRY_SIZE + 1 })
    );
    assert!(storage.compaction());
    assert_eq!(storage.prunable().buffer.len(), 0);
}

#[test]
fn empty_flush_writes_nothing() {
    let (mut storage, mut disk) = setup(b"x", 0);
    flush(&mut storage, &mut disk);
    assert!(disk.payload.is_empty());
    assert!(disk.index.is_empty());
}
