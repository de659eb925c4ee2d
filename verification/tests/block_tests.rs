use mini_lsm::block::Block;
use mini_lsm::block_builder::BlockBuilder;
use mini_lsm::block_iter::BlockIterator;

fn key_of(idx: usize) -> Vec<u8> {
    format!("key_{:03}", idx * 5).into_bytes()
}

fn value_of(idx: usize) -> Vec<u8> {
    format!("value_{:010}", idx).into_bytes()
}

fn num_of_keys() -> usize {
    100
}

fn generate_block() -> Block {
    let mut builder = BlockBuilder::new(10000);
    for idx in 0..num_of_keys() {
        let key = key_of(idx);
        let value = value_of(idx);
        assert!(builder.add(&key, &value));
    }
    builder.build()
}

#[test]
fn test_block_build_single_key() {
    let mut builder = BlockBuilder::new(16);
    assert!(builder.add(&b"233".to_vec(), &b"233333".to_vec()));
    builder.build();
}

#[test]
fn test_block_build_full() {
    let mut builder = BlockBuilder::new(16);
    assert!(builder.add(&b"11".to_vec(), &b"11".to_vec()));
    assert!(!builder.add(&b"22".to_vec(), &b"22".to_vec()));
    builder.build();
}

#[test]
fn test_block_build_all() {
    generate_block();
}

#[test]
fn test_block_encode() {
    let block = generate_block();
    block.encode();
}

#[test]
fn test_block_decode() {
    let block = generate_block();
    let encoded = block.encode();
    let decoded_block = Block::decode(&encoded).unwrap();
    assert_eq!(block.offsets, decoded_block.offsets);
    assert_eq!(block.data, decoded_block.data);
}

#[test]
fn test_block_encoded_len_is_capacity() {
    let block = generate_block();
    let encoded = block.encode();
    assert_eq!(encoded.len(), 10000);
}

#[test]
fn test_block_decode_rejects_corruption() {
    let block = generate_block();
    let mut encoded = block.encode();
    encoded[6] ^= 0xFF;
    assert!(Block::decode(&encoded).is_err());
}

#[test]
fn test_block_iterator() {
    let block = generate_block();
    let mut iter = BlockIterator::create_and_seek_to_first(block);
    for _ in 0..5 {
        for i in 0..num_of_keys() {
            let key = iter.key().clone();
            let value = iter.value().clone();
            assert_eq!(
                key,
                key_of(i),
                "expected key: {:?}, actual key: {:?}",
                key_of(i),
                key
            );
            assert_eq!(
                value,
                value_of(i),
                "expected value: {:?}, actual value: {:?}",
                value_of(i),
                value
            );
            iter.next();
        }
        assert!(!iter.is_valid());
        iter.next();
        assert!(!iter.is_valid());
        iter.seek_to_first();
    }
}

#[test]
fn test_block_seek_key() {
    let block = generate_block();
    let mut iter = BlockIterator::create_and_seek_to_key(block, &key_of(0));
    for offset in 1..=5 {
        for i in 0..num_of_keys() {
            let key = iter.key().clone();
            let value = iter.value().clone();
            assert_eq!(
                key,
                key_of(i),
                "expected key: {:?}, actual key: {:?}",
                key_of(i),
                key
            );
            assert_eq!(
                value,
                value_of(i),
                "expected value: {:?}, actual value: {:?}",
                value_of(i),
                value
            );
            iter.seek_to_key(&format!("key_{:03}", i * 5 + offset).into_bytes());
        }
        iter.seek_to_key(&b"k".to_vec());
    }
}
