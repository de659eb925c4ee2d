use mini_lsm::mem_table::MemTable;
use mini_lsm::table::{is_true, BlockCache};

fn key_of(idx: usize) -> Vec<u8> {
    format!("key_{:05}", idx).into_bytes()
}

fn value_of(idx: usize) -> Vec<u8> {
    format!("value_{:010}", idx).into_bytes()
}

#[test]
fn test_sst_find_block_idx_covers_all_keys() {
    let mut memtable = MemTable::create();
    for i in 0..1000 {
        memtable.put(key_of(i), value_of(i));
    }
    let builder = memtable.to_sst(4096).unwrap();
    let sst = builder.build(7);
    assert!(sst.num_of_blocks() > 1);
    let mut cache = BlockCache::new(1 << 20);
    for i in 0..1000 {
        let idx = sst.find_block_idx(&key_of(i));
        assert!(idx < sst.num_of_blocks());
        assert_eq!(sst.get(&key_of(i), &mut cache).unwrap(), value_of(i));
    }
    // absent probes land on a block or past the end of the last one
    let idx = sst.find_block_idx(&b"zzz".to_vec());
    assert_eq!(idx, sst.num_of_blocks() - 1);
    assert!(sst.get(&b"zzz".to_vec(), &mut cache).is_none());
    assert!(is_true(true));
}

#[test]
fn test_sst_file_layout() {
    let mut memtable = MemTable::create();
    for i in 0..1000 {
        memtable.put(key_of(i), value_of(i));
    }
    let builder = memtable.to_sst(4096).unwrap();
    let sst = builder.build(3);
    // trailer: little-endian meta-section offset
    let n = sst.data.len();
    let off = sst.block_meta_offset as u32;
    assert_eq!(sst.data[n - 4], (off % 256) as u8);
    assert_eq!(sst.data[n - 3], ((off / 256) % 256) as u8);
    assert_eq!(sst.data[n - 2], ((off / 65536) % 256) as u8);
    assert_eq!(sst.data[n - 1], (off / 16777216) as u8);
    // every block but possibly a lone oversized one spans exactly block_size
    for i in 0..sst.num_of_blocks() {
        let lo = sst.block_metas[i].offset;
        let hi = if i + 1 < sst.num_of_blocks() {
            sst.block_metas[i + 1].offset
        } else {
            sst.block_meta_offset
        };
        assert_eq!(hi - lo, 4096);
    }
    // blocks start at the head of the file
    assert_eq!(sst.block_metas[0].offset, 0);
}

#[test]
fn test_cache_holds_read_blocks() {
    let mut memtable = MemTable::create();
    for i in 0..100 {
        memtable.put(key_of(i), value_of(i));
    }
    let sst = memtable.to_sst(4096).unwrap().build(9);
    let mut cache = BlockCache::new(1048576);
    assert_eq!(cache.entries.len(), 0);
    assert_eq!(sst.get(&key_of(5), &mut cache).unwrap(), value_of(5));
    assert!(!cache.entries.is_empty());
    let before = cache.entries.len();
    // a repeated probe of the same block is served from the cache
    assert_eq!(sst.get(&key_of(5), &mut cache).unwrap(), value_of(5));
    assert_eq!(cache.entries.len(), before);
}
