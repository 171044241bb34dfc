use partition_log::error::StorageError;
use partition_log::offset::{Offset, MAX_KEY_SIZE, OFFSET_SIZE};

#[test]
fn new_computes_data_size() {
    let o = Offset::new("key_1", 15, 2500, 3).unwrap();
    assert_eq!(o.start(), 15);
    assert_eq!(o.data_size(), 2485);
    assert_eq!(o.segment_count(), 3);
    assert_eq!(o.key(), "key_1");
}

#[test]
fn new_accepts_longest_key() {
    let k = "k".repeat(MAX_KEY_SIZE);
    let o = Offset::new(&k, 0, 1, 0).unwrap();
    assert_eq!(o.key(), k);
}

#[test]
fn new_rejects_long_key() {
    let k = "k".repeat(MAX_KEY_SIZE + 1);
    assert_eq!(
        Offset::new(&k, 0, 1, 0),
        Err(StorageError::KeyTooLong { size: 129 })
    );
}

#[test]
fn new_rejects_empty_and_reversed_ranges() {
    assert_eq!(
        Offset::new("a", 5, 5, 0),
        Err(StorageError::InvalidRange { start: 5, end: 5 })
    );
    assert_eq!(
        Offset::new("a", 6, 5, 0),
        Err(StorageError::InvalidRange { start: 6, end: 5 })
    );
}

#[test]
fn from_keeps_data_size() {
    let o = Offset::from("user", 7, 9, 2);
    assert_eq!(o.start(), 7);
    assert_eq!(o.data_size(), 9);
    assert_eq!(o.segment_count(), 2);
    assert_eq!(o.key(), "user");
}

#[test]
fn as_bytes_layout() {
    let o = Offset::new("ab", 1, 3, 258).unwrap();
    let b = o.as_bytes();
    assert_eq!(b.len(), OFFSET_SIZE);
    assert_eq!(&b[0..8], &[2, 0, 0, 0, 0, 0, 0, 0]);
    assert_eq!(&b[8..10], b"ab");
    assert!(b[10..136].iter().all(|x| *x == 0));
    assert_eq!(&b[136..144], &[1, 0, 0, 0, 0, 0, 0, 0]);
    assert_eq!(&b[144..152], &[2, 0, 0, 0, 0, 0, 0, 0]);
    assert_eq!(&b[152..160], &[2, 1, 0, 0, 0, 0, 0, 0]);
}

#[test]
fn bytes_round_trip() {
    let o = Offset::new("héllo wörld", 1 << 40, (1 << 40) + 77, 9).unwrap();
    let back = Offset::from_bytes(&o.as_bytes()).unwrap();
    assert_eq!(back, o);
    assert_eq!(back.key(), "héllo wörld");
}

#[test]
fn from_bytes_rejects_bad_key() {
    let mut b = Offset::new("ab", 0, 1, 0).unwrap().as_bytes();
    b[8] = 0xff;
    assert_eq!(Offset::from_bytes(&b), None);
    let mut c = Offset::new("ab", 0, 1, 0).unwrap().as_bytes();
    c[0] = 129;
    assert_eq!(Offset::from_bytes(&c), None);
}
