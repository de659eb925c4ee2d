use mini_lsm::lsm_storage::{validate_block_size, LsmStorage};

#[test]
fn test_engine_put_get() {
    let mut db = LsmStorage::open();
    db.put(&b"a".to_vec(), &b"1".to_vec()).unwrap();
    db.put(&b"b".to_vec(), &b"2".to_vec()).unwrap();
    db.put(&b"c".to_vec(), &b"3".to_vec()).unwrap();
    assert_eq!(db.get(&b"b".to_vec()).unwrap(), Some(b"2".to_vec()));
    assert_eq!(db.get(&b"d".to_vec()).unwrap(), None);
}

#[test]
fn test_engine_overwrite_across_sync() {
    let mut db = LsmStorage::open();
    db.put(&b"k".to_vec(), &b"v1".to_vec()).unwrap();
    db.put(&b"k".to_vec(), &b"v2".to_vec()).unwrap();
    db.sync().unwrap();
    db.put(&b"k".to_vec(), &b"v3".to_vec()).unwrap();
    assert_eq!(db.get(&b"k".to_vec()).unwrap(), Some(b"v3".to_vec()));
    db.sync().unwrap();
    assert_eq!(db.get(&b"k".to_vec()).unwrap(), Some(b"v3".to_vec()));
}

#[test]
fn test_engine_delete() {
    let mut db = LsmStorage::open();
    db.put(&b"x".to_vec(), &b"1".to_vec()).unwrap();
    db.delete(&b"x".to_vec()).unwrap();
    assert_eq!(db.get(&b"x".to_vec()).unwrap(), None);
    db.sync().unwrap();
    assert_eq!(db.get(&b"x".to_vec()).unwrap(), None);
    db.put(&b"y".to_vec(), &b"2".to_vec()).unwrap();
    db.sync().unwrap();
    db.put(&b"z".to_vec(), &b"3".to_vec()).unwrap();
    db.sync().unwrap();
    assert_eq!(db.get(&b"x".to_vec()).unwrap(), None);
    assert_eq!(db.get(&b"y".to_vec()).unwrap(), Some(b"2".to_vec()));
}

#[test]
fn test_engine_sync_empty_is_noop() {
    let mut db = LsmStorage::open();
    let r = db.sync().unwrap();
    assert!(r.is_none());
    db.put(&b"a".to_vec(), &b"1".to_vec()).unwrap();
    let r2 = db.sync().unwrap();
    assert!(r2.is_some());
    let r3 = db.sync().unwrap();
    assert!(r3.is_none());
}

#[test]
fn test_engine_rejects_bad_input() {
    let mut db = LsmStorage::open();
    assert!(db.put(&Vec::new(), &b"1".to_vec()).is_err());
    assert!(db.put(&b"a".to_vec(), &Vec::new()).is_err());
    assert!(db.delete(&Vec::new()).is_err());
}

#[test]
fn test_validate_block_size() {
    assert!(validate_block_size(4096));
    assert!(validate_block_size(65536));
    assert!(!validate_block_size(1000));
    assert!(!validate_block_size(2048));
}

#[test]
fn test_needs_compaction_after_two_flushes() {
    let mut db = LsmStorage::open();
    assert!(db.needs_compaction().is_none());
    db.put(&b"a".to_vec(), &b"1".to_vec()).unwrap();
    db.sync().unwrap();
    db.put(&b"b".to_vec(), &b"2".to_vec()).unwrap();
    db.sync().unwrap();
    assert_eq!(db.needs_compaction(), Some(0));
}
