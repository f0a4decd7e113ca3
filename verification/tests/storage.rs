use std::sync::Arc;

use mini_lsm::block::Block;
use mini_lsm::block_builder::BlockBuilder;
use mini_lsm::block_iterator::BlockIterator;
use mini_lsm::iterators::StorageIterator;
use mini_lsm::mem_table::{KeyBound, MemTable};
use mini_lsm::merge_iterator::MergeIterator;
use mini_lsm::table_builder::SsTableBuilder;
use mini_lsm::table_iterator::SsTableIterator;

#[test]
fn block_round_trip_and_seek() {
    let mut b = BlockBuilder::new(64);
    assert!(b.add(b"a", b"1"));
    assert!(b.add(b"b", b"2"));
    assert!(b.add(b"c", b"3"));
    assert!(!b.is_empty());
    let block = b.build();
    let bytes = block.encode();
    assert_eq!(&bytes[0..2], &[0u8, 3]);
    assert_eq!(&bytes[2..8], &[0u8, 0, 0, 6, 0, 12]);
    let decoded = Block::decode(&bytes).unwrap();
    assert_eq!(decoded.encode(), bytes);
    let mut it = BlockIterator::create_and_seek_to_key(Arc::new(decoded), b"b");
    assert!(it.is_valid());
    assert_eq!(it.key(), &b"b"[..]);
    assert_eq!(it.value(), &b"2"[..]);
    it.next();
    assert_eq!(it.key(), &b"c"[..]);
    it.next();
    assert!(!it.is_valid());
}

#[test]
fn block_seek_past_everything() {
    let mut b = BlockBuilder::new(64);
    assert!(b.add(b"a", b"1"));
    let block = b.build();
    let it = BlockIterator::create_and_seek_to_key(Arc::new(block), b"zz");
    assert!(!it.is_valid());
}

#[test]
fn block_decode_rejects_garbage() {
    assert!(Block::decode(&[7u8]).is_err());
    assert!(Block::decode(&[0u8, 9, 1, 2]).is_err());
}

#[test]
fn block_builder_fullness() {
    let mut b = BlockBuilder::new(10);
    assert!(b.add(b"a", b"1"));
    assert!(!b.add(b"b", b"2"));
    let block = b.build();
    let bytes = block.encode();
    assert_eq!(bytes.len(), 10);
}

#[test]
fn mem_table_put_get_scan() {
    let mut m = MemTable::create();
    m.put(b"k1", b"v1");
    m.put(b"k2", b"v2");
    m.put(b"k1", b"v1b");
    assert_eq!(m.get(b"k1").unwrap(), b"v1b".to_vec());
    assert!(m.get(b"missing").is_none());
    let mut it = m.scan(KeyBound::Unbounded, KeyBound::Unbounded);
    assert!(it.is_valid());
    assert_eq!(it.key(), &b"k1"[..]);
    assert_eq!(it.value(), &b"v1b"[..]);
    it.next().unwrap();
    assert_eq!(it.key(), &b"k2"[..]);
    assert_eq!(it.value(), &b"v2"[..]);
    it.next().unwrap();
    assert!(!it.is_valid());
}

#[test]
fn mem_table_bounded_scan() {
    let mut m = MemTable::create();
    m.put(b"a", b"1");
    m.put(b"b", b"2");
    m.put(b"c", b"3");
    let mut it = m.scan(KeyBound::Excluded(b"a".to_vec()), KeyBound::Included(b"c".to_vec()));
    assert_eq!(it.key(), &b"b"[..]);
    it.next().unwrap();
    assert_eq!(it.key(), &b"c"[..]);
    it.next().unwrap();
    assert!(!it.is_valid());
}

#[test]
fn merge_prefers_smaller_index() {
    let mut m0 = MemTable::create();
    m0.put(b"a", b"1");
    m0.put(b"b", b"2");
    let mut m1 = MemTable::create();
    m1.put(b"a", b"9");
    m1.put(b"c", b"3");
    let it0 = m0.scan(KeyBound::Unbounded, KeyBound::Unbounded);
    let it1 = m1.scan(KeyBound::Unbounded, KeyBound::Unbounded);
    let mut mi = MergeIterator::create(vec![Box::new(it0), Box::new(it1)]);
    assert!(mi.is_valid());
    assert_eq!(mi.key(), &b"a"[..]);
    assert_eq!(mi.value(), &b"1"[..]);
    mi.next().unwrap();
    assert_eq!(mi.key(), &b"b"[..]);
    mi.next().unwrap();
    assert_eq!(mi.key(), &b"c"[..]);
    assert_eq!(mi.value(), &b"3"[..]);
    mi.next().unwrap();
    assert!(!mi.is_valid());
}

#[test]
fn merge_of_nothing_is_exhausted() {
    let mut mi: MergeIterator<mini_lsm::mem_table::MemTableIterator> =
        MergeIterator::create(vec![]);
    assert!(!mi.is_valid());
    assert!(mi.next().is_ok());
    assert!(!mi.is_valid());
}

#[test]
fn sst_builder_rolls_blocks() {
    let mut b = SsTableBuilder::new(10);
    b.add(b"a", b"1");
    b.add(b"b", b"2");
    b.add(b"c", b"3");
    let t = b.build(0).unwrap();
    assert_eq!(t.num_of_blocks(), 3);
    assert_eq!(t.find_block_idx(b"bb"), 1);
    let blk = t.read_block(2).unwrap();
    let it = BlockIterator::create_and_seek_to_first(blk);
    assert_eq!(it.key(), &b"c"[..]);
    assert!(t.read_block(3).is_err());
}

#[test]
fn sst_oversized_entry() {
    let mut b = SsTableBuilder::new(4);
    b.add(b"longkey", b"longvalue");
    let t = b.build(0).unwrap();
    assert_eq!(t.num_of_blocks(), 1);
    let blk = t.read_block(0).unwrap();
    let it = BlockIterator::create_and_seek_to_first(blk);
    assert_eq!(it.key(), &b"longkey"[..]);
    assert_eq!(it.value(), &b"longvalue"[..]);
}

#[test]
fn sst_iterator_walks_every_entry() {
    let mut b = SsTableBuilder::new(10);
    b.add(b"a", b"1");
    b.add(b"b", b"2");
    b.add(b"c", b"3");
    let t = Arc::new(b.build(0).unwrap());
    let mut it = SsTableIterator::create_and_seek_to_first(t).unwrap();
    assert!(it.is_valid());
    assert_eq!(it.key(), &b"a"[..]);
    assert_eq!(it.value(), &b"1"[..]);
    it.next().unwrap();
    assert_eq!(it.key(), &b"b"[..]);
    it.next().unwrap();
    assert_eq!(it.key(), &b"c"[..]);
    it.next().unwrap();
    assert!(!it.is_valid());
}

#[test]
fn sst_point_locate() {
    let mut b = SsTableBuilder::new(10);
    b.add(b"a", b"1");
    b.add(b"b", b"2");
    b.add(b"c", b"3");
    let t = Arc::new(b.build(0).unwrap());
    for (k, v) in [(b"a", b"1"), (b"b", b"2"), (b"c", b"3")] {
        let it = SsTableIterator::create_and_seek_to_key(Arc::clone(&t), k).unwrap();
        assert!(it.is_valid());
        assert_eq!(it.key(), &k[..]);
        assert_eq!(it.value(), &v[..]);
    }
    let mut it = SsTableIterator::create_and_seek_to_key(t, b"bb").unwrap();
    assert_eq!(it.key(), &b"c"[..]);
    it.seek_to_first().unwrap();
    assert_eq!(it.key(), &b"a"[..]);
}

#[test]
fn sst_upper_and_lower_range() {
    let mut b = SsTableBuilder::new(10);
    b.add(b"b", b"2");
    b.add(b"c", b"3");
    let t = Arc::new(b.build(0).unwrap());
    let above = SsTableIterator::create_and_seek_to_key(Arc::clone(&t), b"zz").unwrap();
    assert!(!above.is_valid());
    let below = SsTableIterator::create_and_seek_to_key(t, b"a").unwrap();
    assert!(below.is_valid());
    assert_eq!(below.key(), &b"b"[..]);
}

#[test]
fn sst_oversized_entry_iterates() {
    let mut b = SsTableBuilder::new(4);
    b.add(b"longkey", b"longvalue");
    let t = Arc::new(b.build(0).unwrap());
    let mut it = SsTableIterator::create_and_seek_to_first(t).unwrap();
    assert!(it.is_valid());
    assert_eq!(it.key(), &b"longkey"[..]);
    assert_eq!(it.value(), &b"longvalue"[..]);
    it.next().unwrap();
    assert!(!it.is_valid());
}

#[test]
fn flush_drains_mem_table_into_a_table() {
    let mut m = MemTable::create();
    m.put(b"k1", b"v1");
    m.put(b"k2", b"v2");
    m.put(b"k1", b"v1b");
    let mut b = SsTableBuilder::new(64);
    m.flush(&mut b).unwrap();
    let t = Arc::new(b.build(0).unwrap());
    let mut it = SsTableIterator::create_and_seek_to_first(t).unwrap();
    assert_eq!(it.key(), &b"k1"[..]);
    assert_eq!(it.value(), &b"v1b"[..]);
    it.next().unwrap();
    assert_eq!(it.key(), &b"k2"[..]);
    assert_eq!(it.value(), &b"v2"[..]);
    it.next().unwrap();
    assert!(!it.is_valid());
}

#[test]
fn merge_over_sst_iterators() {
    let mut b0 = SsTableBuilder::new(64);
    b0.add(b"a", b"1");
    b0.add(b"b", b"2");
    let t0 = Arc::new(b0.build(0).unwrap());
    let mut b1 = SsTableBuilder::new(64);
    b1.add(b"a", b"9");
    b1.add(b"c", b"3");
    let t1 = Arc::new(b1.build(1).unwrap());
    let it0 = SsTableIterator::create_and_seek_to_first(t0).unwrap();
    let it1 = SsTableIterator::create_and_seek_to_first(t1).unwrap();
    let mut mi = MergeIterator::create(vec![Box::new(it0), Box::new(it1)]);
    assert_eq!(mi.key(), &b"a"[..]);
    assert_eq!(mi.value(), &b"1"[..]);
    mi.next().unwrap();
    assert_eq!(mi.key(), &b"b"[..]);
    mi.next().unwrap();
    assert_eq!(mi.key(), &b"c"[..]);
    mi.next().unwrap();
    assert!(!mi.is_valid());
}
