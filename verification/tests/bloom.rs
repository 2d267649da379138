use mini_lsm::error::Error;
use mini_lsm::table::bloom::{BitSlice, BitSliceMut, Bloom};

/// A small generator of 32 bit numbers that gives the same run each time.
fn next_number(state: &mut u64) -> u32 {
    *state = state.wrapping_mul(6364136223846793005).wrapping_add(1442695040888963407);
    (*state >> 32) as u32
}

fn hashes(count: usize, seed: u64) -> Vec<u32> {
    let mut state = seed;
    (0..count).map(|_| next_number(&mut state)).collect()
}

#[test]
fn bloom_holds_every_inserted_hash() {
    let keys = hashes(1000, 7);
    let bloom = Bloom::build_from_key_hashes(&keys, 10);
    for key in keys.iter() {
        assert!(bloom.may_contain(*key));
    }
}

#[test]
fn bloom_false_positive_rate_is_low() {
    let keys = hashes(1000, 7);
    let bloom = Bloom::build_from_key_hashes(&keys, 10);
    let members: std::collections::HashSet<u32> = keys.iter().copied().collect();
    let mut state = 1234567u64;
    let mut asked = 0u32;
    let mut wrong = 0u32;
    while asked < 10000 {
        let probe = next_number(&mut state);
        if members.contains(&probe) {
            continue;
        }
        asked += 1;
        if bloom.may_contain(probe) {
            wrong += 1;
        }
    }
    let rate = wrong as f64 / asked as f64;
    assert!(rate < 0.02, "false positive rate {}", rate);
}

#[test]
fn bloom_parameters_follow_the_formulas() {
    let keys = hashes(1000, 3);
    // 10 bits for each key: k = round(6.9) = 7, 10000 bits = 1250 bytes.
    let bloom = Bloom::build_from_key_hashes(&keys, 10);
    assert_eq!(bloom.num_hashes(), 7);
    assert_eq!(bloom.num_bits(), 10000);
    // One key with one bit: k is held to 1, the filter to 64 bits.
    let bloom = Bloom::build_from_key_hashes(&keys[..1], 1);
    assert_eq!(bloom.num_hashes(), 1);
    assert_eq!(bloom.num_bits(), 64);
    // No bits for a key: round(0) is held up to 1.
    let bloom = Bloom::build_from_key_hashes(&keys[..3], 0);
    assert_eq!(bloom.num_hashes(), 1);
    assert_eq!(bloom.num_bits(), 64);
    // 100 bits for each key: k is held down to 30; 300 bits are 38 bytes.
    let bloom = Bloom::build_from_key_hashes(&keys[..3], 100);
    assert_eq!(bloom.num_hashes(), 30);
    assert_eq!(bloom.num_bits(), 304);
    // 43 bits: round(29.67) = 30; 42 bits: round(28.98) = 29.
    assert_eq!(Bloom::build_from_key_hashes(&keys[..2], 43).num_hashes(), 30);
    assert_eq!(Bloom::build_from_key_hashes(&keys[..2], 42).num_hashes(), 29);
    // No keys at all.
    let bloom = Bloom::build_from_key_hashes(&[], 10);
    assert_eq!(bloom.num_bits(), 64);
    assert!(!bloom.may_contain(17));
}

#[test]
fn bloom_sets_the_documented_positions() {
    // One hash, one hash function: the only bit is h mod 64.
    let bloom = Bloom::build_from_key_hashes(&[200], 1);
    let mut encoded = Vec::new();
    bloom.encode(&mut encoded);
    // 200 mod 64 = 8: bit 0 of byte 1.
    assert_eq!(&encoded[..9], &[0, 1, 0, 0, 0, 0, 0, 0, 1]);
    // Two hash functions: the second position is h + rotate_right(h, 17).
    // rotate_right(1, 17) = 1 << 15, so the positions are 1 and 32769 mod 64 = 1.
    let bloom = Bloom::build_from_key_hashes(&[1], 3);
    assert_eq!(bloom.num_hashes(), 2);
    let mut encoded = Vec::new();
    bloom.encode(&mut encoded);
    assert_eq!(&encoded[..9], &[2, 0, 0, 0, 0, 0, 0, 0, 2]);
    // h = 1 << 17 rotates to 1: the positions are 0 and 1 of 64.
    let bloom = Bloom::build_from_key_hashes(&[1 << 17], 3);
    let mut encoded = Vec::new();
    bloom.encode(&mut encoded);
    assert_eq!(&encoded[..9], &[3, 0, 0, 0, 0, 0, 0, 0, 2]);
    assert!(bloom.may_contain(1 << 17));
    assert!(!bloom.may_contain(2));
}

#[test]
fn bloom_additions_wrap_at_32_bits() {
    // h = 0xFFFF_FFFF rotates to itself; h + h wraps to 0xFFFF_FFFE.
    let bloom = Bloom::build_from_key_hashes(&[0xFFFF_FFFF], 3);
    let mut encoded = Vec::new();
    bloom.encode(&mut encoded);
    // Positions 63 and 62 of 64: the two highest bits of the last byte.
    assert_eq!(&encoded[..9], &[0, 0, 0, 0, 0, 0, 0, 0xC0, 2]);
}

#[test]
fn bloom_round_trip() {
    let keys = hashes(100, 99);
    let bloom = Bloom::build_from_key_hashes(&keys, 8);
    let mut encoded = vec![0xAA, 0xBB];
    bloom.encode(&mut encoded);
    assert_eq!(&encoded[..2], &[0xAA, 0xBB]);
    let body = &encoded[2..];
    assert_eq!(body.len(), 100 + 1 + 4);
    let checksum = crc32fast::hash(&body[..body.len() - 4]);
    assert_eq!(&body[body.len() - 4..], &checksum.to_be_bytes());
    let decoded = Bloom::decode(body).unwrap();
    assert_eq!(decoded.num_hashes(), bloom.num_hashes());
    assert_eq!(decoded.num_bits(), bloom.num_bits());
    let mut again = Vec::new();
    decoded.encode(&mut again);
    assert_eq!(&again[..], body);
    for key in keys.iter() {
        assert!(decoded.may_contain(*key));
    }
}

#[test]
fn bloom_decode_rejects_a_wrong_checksum() {
    let bloom = Bloom::build_from_key_hashes(&hashes(10, 5), 10);
    let mut encoded = Vec::new();
    bloom.encode(&mut encoded);
    for bit in 0..encoded.len() * 8 {
        let mut broken = encoded.clone();
        broken[bit / 8] ^= 1 << (bit % 8);
        assert!(matches!(Bloom::decode(&broken), Err(Error::BloomChecksumMismatch)));
    }
}

#[test]
fn bloom_decode_rejects_truncated_input() {
    assert!(matches!(Bloom::decode(&[]), Err(Error::Malformed)));
    assert!(matches!(Bloom::decode(&[1, 2, 3, 4]), Err(Error::Malformed)));
    // A filter of less than 64 bits with a right checksum.
    let mut short = vec![0xFF, 0xFF, 3];
    let checksum = crc32fast::hash(&short);
    short.extend_from_slice(&checksum.to_be_bytes());
    assert!(matches!(Bloom::decode(&short), Err(Error::Malformed)));
}

#[test]
fn bloom_with_more_than_30_hashes_always_answers_yes() {
    let mut body = vec![0u8; 8];
    body.push(31);
    let checksum = crc32fast::hash(&body);
    body.extend_from_slice(&checksum.to_be_bytes());
    let bloom = Bloom::decode(&body).unwrap();
    assert_eq!(bloom.num_hashes(), 31);
    assert!(bloom.may_contain(0));
    assert!(bloom.may_contain(12345));
    // With 30 the empty filter answers no; with 0 there is nothing to ask.
    body.truncate(8);
    body.push(30);
    let checksum = crc32fast::hash(&body);
    body.extend_from_slice(&checksum.to_be_bytes());
    assert!(!Bloom::decode(&body).unwrap().may_contain(12345));
    body.truncate(8);
    body.push(0);
    let checksum = crc32fast::hash(&body);
    body.extend_from_slice(&checksum.to_be_bytes());
    assert!(Bloom::decode(&body).unwrap().may_contain(12345));
}

#[test]
fn bit_slice_reads_and_writes_bits() {
    let mut bits: Vec<u8> = vec![0; 3];
    assert_eq!(bits.bit_len(), 24);
    bits.set_bit(0, true);
    bits.set_bit(9, true);
    bits.set_bit(23, true);
    assert_eq!(bits, vec![0b0000_0001, 0b0000_0010, 0b1000_0000]);
    assert!(bits.get_bit(0));
    assert!(!bits.get_bit(1));
    assert!(bits.get_bit(9));
    assert!(bits.get_bit(23));
    bits.set_bit(9, false);
    bits.set_bit(10, false);
    assert_eq!(bits, vec![0b0000_0001, 0, 0b1000_0000]);
    let frozen = bytes::Bytes::from(bits.clone());
    assert_eq!(frozen.bit_len(), 24);
    assert!(frozen.get_bit(23));
    assert!(!frozen.get_bit(22));
    let mut buffer = bytes::BytesMut::from(&bits[..]);
    buffer.set_bit(22, true);
    assert!(buffer.get_bit(22));
    assert_eq!(buffer.bit_len(), 24);
    assert_eq!(&buffer[..], &[0b0000_0001, 0, 0b1100_0000]);
}
