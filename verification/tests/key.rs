use mini_lsm::key::{compare_joined, compare_keys, KeyOrder};

#[test]
fn keys_compare_byte_by_byte() {
    assert_eq!(compare_keys(b"a", b"b"), KeyOrder::Less);
    assert_eq!(compare_keys(b"b", b"a"), KeyOrder::Greater);
    assert_eq!(compare_keys(b"abc", b"abc"), KeyOrder::Equal);
    assert_eq!(compare_keys(b"", b""), KeyOrder::Equal);
    // A key that ends first comes first.
    assert_eq!(compare_keys(b"", b"a"), KeyOrder::Less);
    assert_eq!(compare_keys(b"ab", b"abc"), KeyOrder::Less);
    assert_eq!(compare_keys(b"abc", b"ab"), KeyOrder::Greater);
    // Bytes compare as unsigned numbers.
    assert_eq!(compare_keys(&[0x7F], &[0x80]), KeyOrder::Less);
    assert_eq!(compare_keys(&[0xFF], &[0x00, 0x01]), KeyOrder::Greater);
    // The first difference decides.
    assert_eq!(compare_keys(b"abz", b"ac"), KeyOrder::Less);
}

#[test]
fn keys_compare_as_slices_do() {
    let keys: Vec<&[u8]> = vec![b"", b"a", b"aa", b"ab", b"b", b"ba", &[0], &[0, 0], &[255]];
    for a in keys.iter() {
        for b in keys.iter() {
            let expected = match a.cmp(b) {
                std::cmp::Ordering::Less => KeyOrder::Less,
                std::cmp::Ordering::Equal => KeyOrder::Equal,
                std::cmp::Ordering::Greater => KeyOrder::Greater,
            };
            assert_eq!(compare_keys(a, b), expected);
        }
    }
}

#[test]
fn joined_keys_compare_like_whole_keys() {
    assert_eq!(compare_joined(b"appl", b"ication", b"application"), KeyOrder::Equal);
    assert_eq!(compare_joined(b"appl", b"e", b"application"), KeyOrder::Less);
    assert_eq!(compare_joined(b"appl", b"y", b"application"), KeyOrder::Greater);
    assert_eq!(compare_joined(b"", b"", b""), KeyOrder::Equal);
    assert_eq!(compare_joined(b"", b"b", b"a"), KeyOrder::Greater);
    assert_eq!(compare_joined(b"ab", b"", b"abc"), KeyOrder::Less);
    assert_eq!(compare_joined(b"ab", b"cd", b"abc"), KeyOrder::Greater);
    assert_eq!(compare_joined(b"ab", b"cd", b"b"), KeyOrder::Less);
    let parts: Vec<&[u8]> = vec![b"", b"a", b"ab", b"b", b"abc"];
    for prefix in parts.iter() {
        for rest in parts.iter() {
            for target in parts.iter() {
                let whole = [*prefix, *rest].concat();
                assert_eq!(
                    compare_joined(prefix, rest, target),
                    compare_keys(&whole, target)
                );
            }
        }
    }
}
