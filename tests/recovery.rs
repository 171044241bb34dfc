use partition_log::error::StorageError;
use partition_log::indices::Indices;
use partition_log::offset::Offset;

#[test]
fn indices_from() {
    let mut bytes = vec![];
    for i in 0..50 {
        bytes.extend_from_slice(&Offset::new(&format!("key_{}", i), 15, 2500, 0).unwrap().as_bytes());
    }
    let indices = Indices::from(&[bytes]).unwrap();
    assert_eq!(indices.len(), 50);
    for i in 0..50 {
        let k = format!("key_{}", i);
        assert_eq!(indices.get(k.as_bytes()), Some(Offset::new(&k, 15, 2500, 0).unwrap()));
    }
    assert_eq!(indices.total_bytes(), 50 * 2485);
}

#[test]
fn later_records_win_and_total_counts_all() {
    let a = Offset::new("k", 0, 4, 0).unwrap().as_bytes();
    let b = Offset::new("k", 4, 10, 1).unwrap().as_bytes();
    let indices = Indices::from(&[a, b]).unwrap();
    assert_eq!(indices.len(), 1);
    assert_eq!(indices.get(b"k"), Some(Offset::new("k", 4, 10, 1).unwrap()));
    assert_eq!(indices.total_bytes(), 10);
}

#[test]
fn short_tail_is_ignored() {
    let mut a = Offset::new("k", 0, 4, 0).unwrap().as_bytes();
    a.extend_from_slice(&[1, 2, 3]);
    let indices = Indices::from(&[a, vec![]]).unwrap();
    assert_eq!(indices.len(), 1);
    assert_eq!(indices.get(b"missing"), None);
}

#[test]
fn malformed_record_aborts() {
    let good = Offset::new("k", 0, 4, 0).unwrap().as_bytes();
    let mut bad = good.clone();
    bad.extend_from_slice(&good);
    bad[168] = 0xfe;
    assert_eq!(
        Indices::from(&[good, bad]).err(),
        Some(StorageError::MalformedRecord { segment: 1, position: 160 })
    );
}

#[test]
fn insert_replaces_latest() {
    let mut indices = Indices::new();
    indices.insert(Offset::new("a", 0, 1, 0).unwrap());
    indices.insert(Offset::new("b", 1, 2, 0).unwrap());
    indices.insert(Offset::new("a", 2, 9, 0).unwrap());
    assert_eq!(indices.len(), 2);
    assert_eq!(indices.get(b"a").unwrap().data_size(), 7);
    assert_eq!(indices.total_bytes(), 0);
}
