use puffin::sstable::{SSTable, StoreError};

#[test]
fn test_sstable() {
    let key = |i| format!("key-{}", i);
    let value = |i| format!("value-{}", i).into_bytes();

    let mut sst = SSTable::new(200);
    assert!(sst.clear().is_ok());
    // get -> set -> get
    (1..300).for_each(|i| {
        assert_eq!(sst.get(&key(i)), None);
        sst.insert(&key(i), value(i)).expect("success");
        assert_eq!(sst.get(&key(i)), Some(value(i)));
    });
    // get -> delete -> get
    (1..300).for_each(|i| {
        assert_eq!(sst.get(&key(i)), Some(value(i)));
        sst.delete(&key(i)).expect("success");
        assert_eq!(sst.get(&key(i)), None);
    });
    // get
    (1..300).for_each(|i| {
        assert_eq!(sst.get(&key(i)), None);
    });
}

#[test]
fn test_sstabl_tombstones() {
    let key = |i| format!("key-{}", i);
    let value = |i| format!("value-{}", i).into_bytes();
    let mut sst = SSTable::new(3);
    assert!(sst.clear().is_ok());
    (1..=5).for_each(|i| {
        sst.insert(&key(i), value(i)).expect("success");
    });
    sst.delete(&key(2)).expect("success");
    // reopen from what was made durable: the data files and the log
    // memtable: [5], tombstone: [2], disktable: [1, 2, 3, 4]
    let sst = SSTable::open(3, &sst.generation_files(), &sst.log_bytes()).expect("success");
    assert_eq!(sst.get(&key(1)), Some(value(1)));
    assert_eq!(sst.get(&key(2)), None);
    assert_eq!(sst.get(&key(3)), Some(value(3)));
    assert_eq!(sst.get(&key(4)), Some(value(4)));
    assert_eq!(sst.get(&key(5)), Some(value(5)));
}

#[test]
fn delete_survives_flush() {
    let mut sst = SSTable::new(10);
    sst.insert("k", b"v".to_vec()).unwrap();
    sst.delete("k").unwrap();
    assert_eq!(sst.get("k"), None);
    assert!(sst.flush().is_some());
    assert_eq!(sst.get("k"), None);
    let reopened = SSTable::open(10, &sst.generation_files(), &sst.log_bytes()).unwrap();
    assert_eq!(reopened.get("k"), None);
}

#[test]
fn overflow_hands_off_a_generation() {
    let mut sst = SSTable::new(1);
    let p = sst.insert("a", vec![1]).unwrap();
    assert!(p.generation.is_none());
    let p = sst.insert("b", vec![2]).unwrap();
    assert!(p.generation.is_some());
    assert_eq!(sst.generation_files().len(), 1);
    assert!(sst.log_bytes().is_empty());
    assert_eq!(sst.get("a"), Some(vec![1]));
    assert_eq!(sst.get("b"), Some(vec![2]));
}

#[test]
fn newest_generation_wins() {
    let mut sst = SSTable::new(100);
    sst.insert("k", b"old".to_vec()).unwrap();
    sst.flush();
    sst.insert("k", b"new".to_vec()).unwrap();
    sst.flush();
    assert_eq!(sst.generation_files().len(), 2);
    assert_eq!(sst.get("k"), Some(b"new".to_vec()));
    let reopened = SSTable::open(100, &sst.generation_files(), &[]).unwrap();
    assert_eq!(reopened.get("k"), Some(b"new".to_vec()));
}

#[test]
fn record_layout() {
    let mut sst = SSTable::new(100);
    let p = sst.insert("ab", vec![7, 8, 9]).unwrap();
    let expected: Vec<u8> = vec![
        13, 0, 0, 0, // total size: 4 + 4 + 2 + 3
        2, 0, 0, 0, // key length
        3, 0, 0, 0, // value length
        b'a', b'b', 7, 8, 9, 0,
    ];
    assert_eq!(p.log_append, expected);
    let t = sst.delete("ab").unwrap();
    assert_eq!(
        t.log_append,
        vec![10, 0, 0, 0, 2, 0, 0, 0, 0xff, 0xff, 0xff, 0xff, b'a', b'b', 0]
    );
    assert_eq!(sst.flush().unwrap(), vec![10, 0, 0, 0, 2, 0, 0, 0, 0xff, 0xff, 0xff, 0xff, b'a', b'b', 0]);
}

#[test]
fn corrupt_files_are_rejected() {
    let truncated = vec![13u8, 0, 0, 0, 2, 0];
    assert_eq!(SSTable::open(3, &vec![truncated], &[]).err(), Some(StoreError::Corrupt));
    let bad_size = vec![99u8, 0, 0, 0, 1, 0, 0, 0, 0, 0, 0, 0, b'a', 0];
    assert_eq!(SSTable::open(3, &vec![], &bad_size).err(), Some(StoreError::Corrupt));
    let mut unsorted = Vec::new();
    unsorted.extend_from_slice(&[9, 0, 0, 0, 1, 0, 0, 0, 0, 0, 0, 0, b'b', 0]);
    unsorted.extend_from_slice(&[9, 0, 0, 0, 1, 0, 0, 0, 0, 0, 0, 0, b'a', 0]);
    assert_eq!(SSTable::open(3, &vec![unsorted], &[]).err(), Some(StoreError::Corrupt));
    assert!(SSTable::open(3, &vec![vec![]], &[]).is_ok());
}
