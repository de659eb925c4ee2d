use mini_lsm::keys::KeyBound;
use mini_lsm::mem_table::MemTable;

#[test]
fn test_memtable_get() {
    let mut memtable = MemTable::create();
    memtable.put(b"key1".to_vec(), b"value1".to_vec());
    memtable.put(b"key2".to_vec(), b"value2".to_vec());
    memtable.put(b"key3".to_vec(), b"value3".to_vec());
    assert_eq!(&memtable.get(&b"key1".to_vec()).unwrap()[..], b"value1");
    assert_eq!(&memtable.get(&b"key2".to_vec()).unwrap()[..], b"value2");
    assert_eq!(&memtable.get(&b"key3".to_vec()).unwrap()[..], b"value3");
}

#[test]
fn test_memtable_overwrite() {
    let mut memtable = MemTable::create();
    memtable.put(b"key1".to_vec(), b"value1".to_vec());
    memtable.put(b"key2".to_vec(), b"value2".to_vec());
    memtable.put(b"key3".to_vec(), b"value3".to_vec());
    memtable.put(b"key1".to_vec(), b"value11".to_vec());
    memtable.put(b"key2".to_vec(), b"value22".to_vec());
    memtable.put(b"key3".to_vec(), b"value33".to_vec());
    assert_eq!(&memtable.get(&b"key1".to_vec()).unwrap()[..], b"value11");
    assert_eq!(&memtable.get(&b"key2".to_vec()).unwrap()[..], b"value22");
    assert_eq!(&memtable.get(&b"key3".to_vec()).unwrap()[..], b"value33");
}

#[test]
fn test_memtable_iter() {
    let mut memtable = MemTable::create();
    memtable.put(b"key1".to_vec(), b"value1".to_vec());
    memtable.put(b"key2".to_vec(), b"value2".to_vec());
    memtable.put(b"key3".to_vec(), b"value3".to_vec());

    {
        let iter = memtable.scan(&KeyBound::Unbounded, &KeyBound::Unbounded);
        assert_eq!(iter.entries[0].0, b"key1".to_vec());
        assert_eq!(iter.entries[0].1, b"value1".to_vec());
        assert_eq!(iter.entries[1].0, b"key2".to_vec());
        assert_eq!(iter.entries[1].1, b"value2".to_vec());
        assert_eq!(iter.entries[2].0, b"key3".to_vec());
        assert_eq!(iter.entries[2].1, b"value3".to_vec());
        assert_eq!(iter.entries.len(), 3);
    }

    {
        let iter = memtable.scan(
            &KeyBound::Included(b"key1".to_vec()),
            &KeyBound::Included(b"key2".to_vec()),
        );
        assert_eq!(iter.entries[0].0, b"key1".to_vec());
        assert_eq!(iter.entries[0].1, b"value1".to_vec());
        assert_eq!(iter.entries[1].0, b"key2".to_vec());
        assert_eq!(iter.entries[1].1, b"value2".to_vec());
        assert_eq!(iter.entries.len(), 2);
    }

    {
        let iter = memtable.scan(
            &KeyBound::Excluded(b"key1".to_vec()),
            &KeyBound::Excluded(b"key3".to_vec()),
        );
        assert_eq!(iter.entries[0].0, b"key2".to_vec());
        assert_eq!(iter.entries[0].1, b"value2".to_vec());
        assert_eq!(iter.entries.len(), 1);
    }
}

#[test]
fn test_memtable_to_sst() {
    let mut memtable = MemTable::create();
    memtable.put(b"key1".to_vec(), b"value1".to_vec());
    memtable.put(b"key2".to_vec(), b"value2".to_vec());
    memtable.put(b"key3".to_vec(), b"value3".to_vec());
    let builder = memtable.to_sst(128).unwrap();
    let sst = builder.build(1);
    assert_eq!(sst.num_of_blocks() >= 1, true);
    let mut cache = mini_lsm::table::BlockCache::new(1 << 20);
    assert_eq!(
        sst.get(&b"key1".to_vec(), &mut cache).unwrap(),
        b"value1".to_vec()
    );
    assert_eq!(
        sst.get(&b"key2".to_vec(), &mut cache).unwrap(),
        b"value2".to_vec()
    );
    assert_eq!(
        sst.get(&b"key3".to_vec(), &mut cache).unwrap(),
        b"value3".to_vec()
    );
    assert!(sst.get(&b"key4".to_vec(), &mut cache).is_none());
}
