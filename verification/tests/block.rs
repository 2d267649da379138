use mini_lsm::block::builder::{compute_overlap, BlockBuilder};
use mini_lsm::block::iterator::BlockIterator;
use mini_lsm::block::Block;
use mini_lsm::error::Error;
use std::sync::Arc;

fn fruit_block() -> Block {
    let mut builder = BlockBuilder::new(4096);
    assert!(builder.add(b"apple", b"1"));
    assert!(builder.add(b"application", b"2"));
    assert!(builder.add(b"banana", b"3"));
    builder.build()
}

fn numbered_block(count: usize) -> Block {
    let mut builder = BlockBuilder::new(1 << 16);
    for i in 0..count {
        let key = format!("key_{:05}", i * 2);
        let value = format!("value_{}", i);
        assert!(builder.add(key.as_bytes(), value.as_bytes()));
    }
    builder.build()
}

fn collect(block: Block) -> Vec<(Vec<u8>, Vec<u8>)> {
    let mut iter = BlockIterator::create_and_seek_to_first(Arc::new(block));
    let mut pairs = Vec::new();
    while iter.is_valid() {
        pairs.push((iter.key().to_vec(), iter.value().to_vec()));
        iter.next();
    }
    pairs
}

#[test]
fn block_codec_prefix_fields() {
    let block = fruit_block();
    let encoded = block.encode();
    let bytes: &[u8] = &encoded[..];
    // First entry: overlap 0, rest "apple", value "1".
    let first: Vec<u8> = vec![0, 0, 0, 5, b'a', b'p', b'p', b'l', b'e', 0, 1, b'1'];
    assert_eq!(&bytes[..12], &first[..]);
    // Second entry: overlap 4 ("appl"), rest "ication", value "2".
    let second: Vec<u8> = vec![
        0, 4, 0, 7, b'i', b'c', b'a', b't', b'i', b'o', b'n', 0, 1, b'2',
    ];
    assert_eq!(&bytes[12..26], &second[..]);
    // Third entry: overlap 0, rest "banana", value "3".
    let third: Vec<u8> = vec![0, 0, 0, 6, b'b', b'a', b'n', b'a', b'n', b'a', 0, 1, b'3'];
    assert_eq!(&bytes[26..39], &third[..]);
    // Offsets 0, 12 and 26, then the count 3, all big-endian.
    let tail: Vec<u8> = vec![0, 0, 0, 12, 0, 26, 0, 3];
    assert_eq!(&bytes[39..], &tail[..]);
}

#[test]
fn block_codec_decode_yields_three_keys() {
    let encoded = fruit_block().encode();
    let decoded = Block::decode(&encoded[..]).unwrap();
    assert!(decoded.is_well_formed());
    assert_eq!(decoded.len(), 3);
    let pairs = collect(decoded);
    assert_eq!(
        pairs,
        vec![
            (b"apple".to_vec(), b"1".to_vec()),
            (b"application".to_vec(), b"2".to_vec()),
            (b"banana".to_vec(), b"3".to_vec()),
        ]
    );
}

#[test]
fn block_round_trip_keeps_the_bytes() {
    let block = numbered_block(100);
    let encoded = block.encode();
    let decoded = Block::decode(&encoded[..]).unwrap();
    let again = decoded.encode();
    assert_eq!(&encoded[..], &again[..]);
    assert_eq!(collect(decoded), collect(block));
}

#[test]
fn block_keys_are_recovered() {
    let pairs = collect(numbered_block(50));
    assert_eq!(pairs.len(), 50);
    for (i, (key, value)) in pairs.iter().enumerate() {
        assert_eq!(key, format!("key_{:05}", i * 2).as_bytes());
        assert_eq!(value, format!("value_{}", i).as_bytes());
    }
}

#[test]
fn block_iteration_is_strictly_increasing() {
    let pairs = collect(numbered_block(64));
    for pair in pairs.windows(2) {
        assert!(pair[0].0 < pair[1].0);
    }
}

#[test]
fn block_decode_rejects_short_input() {
    assert!(matches!(Block::decode(&[]), Err(Error::Malformed)));
    assert!(matches!(Block::decode(&[7]), Err(Error::Malformed)));
}

#[test]
fn block_decode_rejects_count_beyond_buffer() {
    // The count says two offsets, the buffer has room for one.
    assert!(matches!(Block::decode(&[0, 0, 0, 2]), Err(Error::Malformed)));
    // A count of 0 with no entries decodes, but is no well-formed block.
    let empty = Block::decode(&[0, 0]).unwrap();
    assert_eq!(empty.len(), 0);
    assert!(!empty.is_well_formed());
}

#[test]
fn block_validation_rejects_bad_layout() {
    let encoded = fruit_block().encode();
    let mut bytes = encoded.to_vec();
    // The second offset no longer points at the second entry.
    bytes[42] = 13;
    let decoded = Block::decode(&bytes).unwrap();
    assert!(!decoded.is_well_formed());
    // An overlap longer than the first key.
    let mut bytes = encoded.to_vec();
    bytes[13] = 6;
    let decoded = Block::decode(&bytes).unwrap();
    assert!(!decoded.is_well_formed());
    // A value length that runs over the end.
    let mut bytes = encoded.to_vec();
    bytes[37] = 2;
    let decoded = Block::decode(&bytes).unwrap();
    assert!(!decoded.is_well_formed());
}

#[test]
fn compute_overlap_counts_the_common_prefix() {
    assert_eq!(compute_overlap(b"apple", b"application"), 4);
    assert_eq!(compute_overlap(b"apple", b"banana"), 0);
    assert_eq!(compute_overlap(b"apple", b"apple"), 5);
    assert_eq!(compute_overlap(b"", b"apple"), 0);
    assert_eq!(compute_overlap(b"apple", b"app"), 3);
}

#[test]
fn builder_reports_full_and_stays_unchanged() {
    let mut builder = BlockBuilder::new(32);
    assert!(builder.is_empty());
    assert_eq!(builder.estimated_size(), 2);
    // The first pair is taken whatever its size.
    assert!(builder.add(b"a_rather_long_first_key", b"with_a_long_value"));
    assert!(!builder.is_empty());
    let size = builder.estimated_size();
    assert_eq!(size, 2 + 2 + 6 + 23 + 17);
    assert!(!builder.add(b"b", b"2"));
    assert_eq!(builder.estimated_size(), size);
    let pairs = collect(builder.build());
    assert_eq!(
        pairs,
        vec![(b"a_rather_long_first_key".to_vec(), b"with_a_long_value".to_vec())]
    );
}

#[test]
fn builder_fills_up_to_block_size() {
    // Each pair takes 6 + 3 + 2 bytes of entries and 2 of offset.
    let mut builder = BlockBuilder::new(2 + 3 * 13);
    assert!(builder.add(b"k01", b"v1"));
    assert!(builder.add(b"l02", b"v2"));
    assert!(builder.add(b"m03", b"v3"));
    assert_eq!(builder.estimated_size(), 2 + 3 * 13);
    assert!(!builder.add(b"n04", b"v4"));
    assert_eq!(builder.build().len(), 3);
}

#[test]
fn seek_to_key_finds_smallest_entry_at_least_target() {
    let block = Arc::new(numbered_block(20));
    // A key that is present.
    let iter = BlockIterator::create_and_seek_to_key(block.clone(), b"key_00010");
    assert!(iter.is_valid());
    assert_eq!(iter.key(), b"key_00010");
    assert_eq!(iter.value(), b"value_5");
    // A key between two entries.
    let iter = BlockIterator::create_and_seek_to_key(block.clone(), b"key_00011");
    assert!(iter.is_valid());
    assert_eq!(iter.key(), b"key_00012");
    // A key before all entries.
    let iter = BlockIterator::create_and_seek_to_key(block.clone(), b"a");
    assert!(iter.is_valid());
    assert_eq!(iter.key(), b"key_00000");
    // A prefix of a key lies before it.
    let iter = BlockIterator::create_and_seek_to_key(block.clone(), b"key_0003");
    assert_eq!(iter.key(), b"key_00030");
    // A key behind all entries.
    let iter = BlockIterator::create_and_seek_to_key(block.clone(), b"key_00039");
    assert!(!iter.is_valid());
    assert_eq!(iter.key(), b"");
    assert_eq!(iter.value(), b"");
}

#[test]
fn seek_agrees_with_linear_search() {
    let block = Arc::new(numbered_block(33));
    let pairs = collect(numbered_block(33));
    for probe in 0..70 {
        let target = format!("key_{:05}", probe);
        let iter = BlockIterator::create_and_seek_to_key(block.clone(), target.as_bytes());
        let expected = pairs.iter().find(|(key, _)| key.as_slice() >= target.as_bytes());
        match expected {
            Some((key, value)) => {
                assert!(iter.is_valid());
                assert_eq!(iter.key(), key.as_slice());
                assert_eq!(iter.value(), value.as_slice());
            }
            None => assert!(!iter.is_valid()),
        }
    }
}

#[test]
fn cursor_moves_and_seeks_again() {
    let mut iter = BlockIterator::create_and_seek_to_first(Arc::new(fruit_block()));
    assert_eq!(iter.key(), b"apple");
    assert_eq!(iter.value(), b"1");
    iter.next();
    assert_eq!(iter.key(), b"application");
    iter.seek_to_key(b"b");
    assert_eq!(iter.key(), b"banana");
    assert_eq!(iter.value(), b"3");
    iter.next();
    assert!(!iter.is_valid());
    // A cursor behind the last entry stays there.
    iter.next();
    assert!(!iter.is_valid());
    iter.seek_to_first();
    assert!(iter.is_valid());
    assert_eq!(iter.key(), b"apple");
}
