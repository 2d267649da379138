use mini_lsm::block::builder::BlockBuilder;
use mini_lsm::error::Error;
use mini_lsm::iterators::StorageIterator;
use mini_lsm::table::bloom::Bloom;
use mini_lsm::table::iterator::SsTableIterator;
use mini_lsm::table::{BlockMeta, FileObject, SsTable};
use std::sync::Arc;

fn meta(offset: u32, first_key: &str, last_key: &str) -> BlockMeta {
    BlockMeta {
        offset,
        first_key: first_key.as_bytes().to_vec(),
        last_key: last_key.as_bytes().to_vec(),
    }
}

/// The bytes of a table file with one data block for each list of pairs.
fn table_bytes(blocks: &[Vec<(&str, &str)>]) -> Vec<u8> {
    let mut file = Vec::new();
    let mut metas = Vec::new();
    let mut hashes = Vec::new();
    for pairs in blocks {
        let mut builder = BlockBuilder::new(4096);
        for (key, value) in pairs {
            assert!(builder.add(key.as_bytes(), value.as_bytes()));
            hashes.push(crc32fast::hash(key.as_bytes()));
        }
        metas.push(meta(file.len() as u32, pairs[0].0, pairs[pairs.len() - 1].0));
        let encoded = builder.build().encode();
        file.extend_from_slice(&encoded);
        file.extend_from_slice(&crc32fast::hash(&encoded).to_be_bytes());
    }
    let meta_offset = file.len() as u32;
    BlockMeta::encode_block_meta(&metas, &mut file);
    file.extend_from_slice(&meta_offset.to_be_bytes());
    let bloom_offset = file.len() as u32;
    Bloom::build_from_key_hashes(&hashes, 10).encode(&mut file);
    file.extend_from_slice(&bloom_offset.to_be_bytes());
    file
}

fn two_blocks() -> Vec<u8> {
    table_bytes(&[vec![("a", "1"), ("b", "2")], vec![("c", "3"), ("d", "4")]])
}

fn open(bytes: Vec<u8>) -> Result<SsTable, Error> {
    SsTable::open(7, FileObject::from_bytes(bytes))
}

fn drain(iter: &mut SsTableIterator) -> Vec<(String, String)> {
    let mut pairs = Vec::new();
    while iter.is_valid() {
        pairs.push((
            String::from_utf8(iter.key().to_vec()).unwrap(),
            String::from_utf8(iter.value().to_vec()).unwrap(),
        ));
        iter.next().unwrap();
    }
    pairs
}

fn owned(pairs: &[(&str, &str)]) -> Vec<(String, String)> {
    pairs.iter().map(|(key, value)| (key.to_string(), value.to_string())).collect()
}

#[test]
fn sst_open_reads_keys_and_block_count() {
    let bytes = two_blocks();
    let size = bytes.len() as u64;
    let table = open(bytes).unwrap();
    assert_eq!(table.first_key().as_slice(), b"a");
    assert_eq!(table.last_key().as_slice(), b"d");
    assert_eq!(table.num_of_blocks(), 2);
    assert_eq!(table.sst_id(), 7);
    assert_eq!(table.table_size(), size);
    assert_eq!(table.max_ts(), 0);
    let block = table.read_block(1).unwrap();
    assert_eq!(block.len(), 2);
    let cached = table.read_block_cached(0).unwrap();
    assert_eq!(cached.len(), 2);
}

#[test]
fn find_block_idx_picks_the_last_block_not_behind_the_key() {
    let table = open(two_blocks()).unwrap();
    assert_eq!(table.find_block_idx(b"a"), 0);
    assert_eq!(table.find_block_idx(b"b"), 0);
    assert_eq!(table.find_block_idx(b"c"), 1);
    assert_eq!(table.find_block_idx(b"e"), 1);
    assert_eq!(table.find_block_idx(b"_"), 0);
    assert_eq!(table.find_block_idx(b"b@"), 0);
    assert_eq!(table.find_block_idx(b""), 0);
}

#[test]
fn find_block_idx_over_many_blocks() {
    let keys: Vec<String> = (0..40).map(|i| format!("k{:03}", i)).collect();
    let blocks: Vec<Vec<(&str, &str)>> =
        keys.chunks(4).map(|chunk| chunk.iter().map(|key| (key.as_str(), "v")).collect()).collect();
    let table = open(table_bytes(&blocks)).unwrap();
    assert_eq!(table.num_of_blocks(), 10);
    for i in 0..40usize {
        assert_eq!(table.find_block_idx(keys[i].as_bytes()), i / 4);
        let between = format!("k{:03}x", i);
        assert_eq!(table.find_block_idx(between.as_bytes()), i / 4);
    }
    assert_eq!(table.find_block_idx(b"a"), 0);
    assert_eq!(table.find_block_idx(b"z"), 9);
}

#[test]
fn seek_to_key_crosses_to_the_next_block() {
    let table = Arc::new(open(two_blocks()).unwrap());
    let mut iter = SsTableIterator::create_and_seek_to_key(table.clone(), b"b@").unwrap();
    assert!(iter.is_valid());
    assert_eq!(iter.key(), b"c");
    assert_eq!(iter.value(), b"3");
    assert_eq!(drain(&mut iter), owned(&[("c", "3"), ("d", "4")]));
    let mut iter = SsTableIterator::create_and_seek_to_key(table.clone(), b"b").unwrap();
    assert_eq!(iter.key(), b"b");
    assert_eq!(iter.value(), b"2");
    iter.seek_to_key(b"d").unwrap();
    assert_eq!(iter.key(), b"d");
    iter.seek_to_key(b"e").unwrap();
    assert!(!iter.is_valid());
    iter.seek_to_key(b"_").unwrap();
    assert_eq!(iter.key(), b"a");
}

#[test]
fn table_iterator_walks_all_blocks() {
    let table = Arc::new(open(two_blocks()).unwrap());
    let mut iter = SsTableIterator::create_and_seek_to_first(table).unwrap();
    assert_eq!(iter.num_active_iterators(), 1);
    assert_eq!(
        drain(&mut iter),
        owned(&[("a", "1"), ("b", "2"), ("c", "3"), ("d", "4")])
    );
    iter.seek_to_first().unwrap();
    assert_eq!(iter.key(), b"a");
}

#[test]
fn bloom_of_an_opened_table_holds_its_keys() {
    let bytes = two_blocks();
    let len = bytes.len();
    let bloom_offset = u32::from_be_bytes([
        bytes[len - 4],
        bytes[len - 3],
        bytes[len - 2],
        bytes[len - 1],
    ]) as usize;
    let bloom = Bloom::decode(&bytes[bloom_offset..len - 4]).unwrap();
    for key in ["a", "b", "c", "d"] {
        assert!(bloom.may_contain(crc32fast::hash(key.as_bytes())));
    }
    let table = open(bytes).unwrap();
    let held = table.bloom().unwrap();
    assert_eq!(held.num_hashes(), 7);
    assert_eq!(held.num_bits(), 64);
    for key in ["a", "b", "c", "d"] {
        assert!(held.may_contain(crc32fast::hash(key.as_bytes())));
    }
    let meta_only = SsTable::create_meta_only(1, 10, b"a".to_vec(), b"b".to_vec());
    assert!(meta_only.bloom().is_none());
}

#[test]
fn meta_round_trip() {
    let metas = vec![meta(0, "apple", "banana"), meta(77, "cherry", "date"), meta(4096, "e", "")];
    let mut buf = vec![9, 9, 9];
    BlockMeta::encode_block_meta(&metas, &mut buf);
    assert_eq!(&buf[..3], &[9, 9, 9]);
    let encoded = &buf[3..];
    assert_eq!(encoded.len(), 4 + (8 + 5 + 6) + (8 + 6 + 4) + (8 + 1 + 0) + 4);
    assert_eq!(&encoded[..4], &[0, 0, 0, 3]);
    assert_eq!(&encoded[4..8], &[0, 0, 0, 0]);
    assert_eq!(&encoded[8..10], &[0, 5]);
    assert_eq!(&encoded[10..15], b"apple");
    assert_eq!(&encoded[15..17], &[0, 6]);
    let checksum = crc32fast::hash(&encoded[4..encoded.len() - 4]);
    assert_eq!(&encoded[encoded.len() - 4..], &checksum.to_be_bytes());
    let decoded = BlockMeta::decode_block_meta(encoded).unwrap();
    assert_eq!(decoded, metas);
    let empty: Vec<BlockMeta> = Vec::new();
    let mut buf = Vec::new();
    BlockMeta::encode_block_meta(&empty, &mut buf);
    assert_eq!(BlockMeta::decode_block_meta(&buf).unwrap(), empty);
}

#[test]
fn meta_decode_fails_on_any_flipped_bit() {
    let metas = vec![meta(0, "apple", "banana"), meta(77, "cherry", "date")];
    let mut encoded = Vec::new();
    BlockMeta::encode_block_meta(&metas, &mut encoded);
    for bit in 0..encoded.len() * 8 {
        let mut broken = encoded.clone();
        broken[bit / 8] ^= 1 << (bit % 8);
        let decoded = BlockMeta::decode_block_meta(&broken);
        if bit < 32 {
            // The count is not under the checksum: it no longer fits the buffer.
            assert!(matches!(decoded, Err(Error::Malformed)));
        } else {
            assert!(matches!(decoded, Err(Error::MetaChecksumMismatch)));
        }
    }
}

#[test]
fn meta_decode_rejects_truncated_input() {
    assert!(matches!(BlockMeta::decode_block_meta(&[]), Err(Error::Malformed)));
    assert!(matches!(BlockMeta::decode_block_meta(&[0, 0, 0, 0, 0, 0, 0]), Err(Error::Malformed)));
    // A first key that runs into the checksum, under a right checksum.
    let mut buf = vec![0, 0, 0, 1];
    let entry = [0, 0, 0, 9, 0, 200, b'a', b'b'];
    buf.extend_from_slice(&entry);
    buf.extend_from_slice(&crc32fast::hash(&entry).to_be_bytes());
    assert!(matches!(BlockMeta::decode_block_meta(&buf), Err(Error::Malformed)));
    // Bytes behind the last entry.
    let mut encoded = Vec::new();
    BlockMeta::encode_block_meta(&[meta(0, "a", "b")], &mut encoded);
    let mut body = encoded[4..encoded.len() - 4].to_vec();
    body.push(0);
    let mut longer = vec![0, 0, 0, 1];
    longer.extend_from_slice(&body);
    longer.extend_from_slice(&crc32fast::hash(&body).to_be_bytes());
    assert!(matches!(BlockMeta::decode_block_meta(&longer), Err(Error::Malformed)));
}

#[test]
fn file_object_reads_ranges() {
    let file = FileObject::from_bytes(vec![10, 11, 12, 13, 14]);
    assert_eq!(file.size(), 5);
    assert_eq!(file.read(1, 3).unwrap(), vec![11, 12, 13]);
    assert_eq!(file.read(5, 0).unwrap(), Vec::<u8>::new());
    assert!(matches!(file.read(3, 3), Err(Error::Io)));
    assert!(matches!(file.read(6, 0), Err(Error::Io)));
    assert!(matches!(file.read(u64::MAX, 2), Err(Error::Io)));
}

#[test]
fn meta_only_table_has_keys_and_no_blocks() {
    let table = SsTable::create_meta_only(3, 1000, b"first".to_vec(), b"last".to_vec());
    assert_eq!(table.sst_id(), 3);
    assert_eq!(table.table_size(), 1000);
    assert_eq!(table.num_of_blocks(), 0);
    assert_eq!(table.first_key().as_slice(), b"first");
    assert_eq!(table.last_key().as_slice(), b"last");
    assert_eq!(table.find_block_idx(b"x"), 0);
    assert_eq!(table.max_ts(), 0);
}

#[test]
fn sst_open_rejects_broken_files() {
    assert!(matches!(open(Vec::new()), Err(Error::Malformed)));
    assert!(matches!(open(vec![0, 0, 0]), Err(Error::Malformed)));
    // The offset of the filter points behind its own place.
    assert!(matches!(open(vec![0, 0, 0, 1]), Err(Error::Malformed)));
    let good = two_blocks();
    // A flipped bit in the filter.
    let len = good.len();
    let mut broken = good.clone();
    broken[len - 10] ^= 1;
    assert!(matches!(open(broken), Err(Error::BloomChecksumMismatch)));
    // A flipped bit in the metadata index.
    let bloom_offset =
        u32::from_be_bytes([good[len - 4], good[len - 3], good[len - 2], good[len - 1]]) as usize;
    let mut broken = good.clone();
    broken[bloom_offset - 6] ^= 1;
    assert!(matches!(open(broken), Err(Error::MetaChecksumMismatch)));
    // A file that holds only a filter.
    let mut only_bloom = Vec::new();
    Bloom::build_from_key_hashes(&[1, 2, 3], 10).encode(&mut only_bloom);
    only_bloom.extend_from_slice(&[0, 0, 0, 0]);
    assert!(matches!(open(only_bloom), Err(Error::Malformed)));
    // A table without contents cannot be read.
    let table = SsTable::create_meta_only(1, 10, b"a".to_vec(), b"b".to_vec());
    assert_eq!(table.num_of_blocks(), 0);
}

#[test]
fn sst_open_rejects_an_index_out_of_order() {
    let good = table_bytes(&[vec![("c", "3"), ("d", "4")], vec![("a", "1"), ("b", "2")]]);
    assert!(matches!(open(good), Err(Error::Malformed)));
}

#[test]
fn read_block_rejects_a_wrong_checksum() {
    let mut bytes = two_blocks();
    // A bit of the first block.
    bytes[5] ^= 0x10;
    let table = Arc::new(open(bytes).unwrap());
    assert!(matches!(table.read_block(0), Err(Error::BlockChecksumMismatch)));
    assert!(table.read_block(1).is_ok());
    assert!(matches!(
        SsTableIterator::create_and_seek_to_first(table.clone()),
        Err(Error::BlockChecksumMismatch)
    ));
    let mut iter = SsTableIterator::create_and_seek_to_key(table, b"c").unwrap();
    assert_eq!(iter.key(), b"c");
    assert!(matches!(iter.seek_to_key(b"a"), Err(Error::BlockChecksumMismatch)));
}

#[test]
fn table_iterator_surfaces_a_failed_read_of_the_next_block() {
    let mut bytes = two_blocks();
    let table = open(bytes.clone()).unwrap();
    let second = table.read_block(1).unwrap().encode().len();
    // A bit of the second block, which lies just before the metadata index.
    let first_len = table.read_block(0).unwrap().encode().len() + 4;
    bytes[first_len + 3] ^= 1;
    assert!(second > 4);
    let table = Arc::new(open(bytes).unwrap());
    let mut iter = SsTableIterator::create_and_seek_to_first(table.clone()).unwrap();
    assert_eq!(iter.key(), b"a");
    iter.next().unwrap();
    assert_eq!(iter.key(), b"b");
    assert!(matches!(iter.next(), Err(Error::BlockChecksumMismatch)));
    assert!(matches!(
        SsTableIterator::create_and_seek_to_key(table, b"b@"),
        Err(Error::BlockChecksumMismatch)
    ));
}

#[test]
fn read_block_rejects_a_block_that_is_not_well_formed() {
    // A block whose count is right and whose only offset points behind the entries.
    let mut file = Vec::new();
    let block = vec![0, 0, 0, 1, b'a', 0, 1, b'1', 0, 9, 0, 1];
    file.extend_from_slice(&block);
    file.extend_from_slice(&crc32fast::hash(&block).to_be_bytes());
    let meta_offset = file.len() as u32;
    BlockMeta::encode_block_meta(&[meta(0, "a", "a")], &mut file);
    file.extend_from_slice(&meta_offset.to_be_bytes());
    let bloom_offset = file.len() as u32;
    Bloom::build_from_key_hashes(&[1], 10).encode(&mut file);
    file.extend_from_slice(&bloom_offset.to_be_bytes());
    let table = open(file).unwrap();
    assert!(matches!(table.read_block(0), Err(Error::Malformed)));
}

#[test]
fn error_messages() {
    assert_eq!(Error::BlockChecksumMismatch.message(), "block checksum mismatched");
    assert_eq!(Error::MetaChecksumMismatch.message(), "meta checksum mismatched");
    assert_eq!(
        Error::BloomChecksumMismatch.message(),
        "checksum mismatched for bloom filters"
    );
    assert_eq!(Error::Malformed.message(), "malformed input");
    assert_eq!(Error::Io.message(), "read failed");
    assert!(Error::MetaChecksumMismatch.is_checksum_mismatch());
    assert!(!Error::Io.is_checksum_mismatch());
}

#[test]
fn cache_key_names_table_and_block() {
    let table = open(two_blocks()).unwrap();
    assert_eq!(table.cache_key(0), (7, 0));
    assert_eq!(table.cache_key(1), (7, 1));
}
