use mini_lsm::error::Error;
use mini_lsm::iterators::merge_iterator::MergeIterator;
use mini_lsm::iterators::StorageIterator;

/// A stream over pairs held in memory; it fails where `fail_at` says.
struct ListIterator {
    pairs: Vec<(Vec<u8>, Vec<u8>)>,
    at: usize,
    fail_at: Option<usize>,
}

impl ListIterator {
    fn new(pairs: &[(&str, &str)]) -> Self {
        Self {
            pairs: pairs
                .iter()
                .map(|(key, value)| (key.as_bytes().to_vec(), value.as_bytes().to_vec()))
                .collect(),
            at: 0,
            fail_at: None,
        }
    }

    fn failing(pairs: &[(&str, &str)], fail_at: usize) -> Self {
        let mut iter = Self::new(pairs);
        iter.fail_at = Some(fail_at);
        iter
    }
}

impl StorageIterator for ListIterator {
    fn value(&self) -> &[u8] {
        &self.pairs[self.at].1
    }

    fn key(&self) -> &[u8] {
        &self.pairs[self.at].0
    }

    fn is_valid(&self) -> bool {
        self.at < self.pairs.len()
    }

    fn next(&mut self) -> Result<(), Error> {
        if self.fail_at == Some(self.at) {
            return Err(Error::Io);
        }
        self.at += 1;
        Ok(())
    }

    fn num_active_iterators(&self) -> usize {
        1
    }
}

fn drain<I: StorageIterator>(iter: &mut I) -> Vec<(String, String)> {
    let mut pairs = Vec::new();
    while iter.is_valid() {
        pairs.push((
            String::from_utf8(iter.key().to_vec()).unwrap(),
            String::from_utf8(iter.value().to_vec()).unwrap(),
        ));
        iter.next().unwrap();
    }
    pairs
}

fn owned(pairs: &[(&str, &str)]) -> Vec<(String, String)> {
    pairs.iter().map(|(key, value)| (key.to_string(), value.to_string())).collect()
}

#[test]
fn merge_dedup_prefers_the_smaller_index() {
    let sources = vec![
        Box::new(ListIterator::new(&[("k", "v0")])),
        Box::new(ListIterator::new(&[("k", "v1"), ("m", "w1")])),
        Box::new(ListIterator::new(&[("k", "v2"), ("n", "x2")])),
    ];
    let mut merge = MergeIterator::create(sources);
    assert!(merge.is_valid());
    assert_eq!(merge.key(), b"k");
    assert_eq!(merge.value(), b"v0");
    assert_eq!(drain(&mut merge), owned(&[("k", "v0"), ("m", "w1"), ("n", "x2")]));
    assert!(!merge.is_valid());
}

#[test]
fn merge_of_no_iterators_is_invalid() {
    let merge: MergeIterator<ListIterator> = MergeIterator::create(Vec::new());
    assert!(!merge.is_valid());
    assert_eq!(merge.num_active_iterators(), 0);
}

#[test]
fn merge_of_invalid_iterators_is_invalid() {
    let sources = vec![
        Box::new(ListIterator::new(&[])),
        Box::new(ListIterator::new(&[])),
        Box::new(ListIterator::new(&[])),
    ];
    let merge = MergeIterator::create(sources);
    assert!(!merge.is_valid());
}

#[test]
fn merge_skips_invalid_iterators() {
    let sources = vec![
        Box::new(ListIterator::new(&[])),
        Box::new(ListIterator::new(&[("b", "1"), ("d", "1")])),
        Box::new(ListIterator::new(&[])),
        Box::new(ListIterator::new(&[("a", "3"), ("d", "3"), ("e", "3")])),
    ];
    let mut merge = MergeIterator::create(sources);
    assert_eq!(merge.num_active_iterators(), 2);
    assert_eq!(
        drain(&mut merge),
        owned(&[("a", "3"), ("b", "1"), ("d", "1"), ("e", "3")])
    );
}

#[test]
fn merge_keys_do_not_decrease() {
    let sources = vec![
        Box::new(ListIterator::new(&[("a", "0"), ("c", "0"), ("e", "0"), ("g", "0")])),
        Box::new(ListIterator::new(&[("b", "1"), ("c", "1"), ("d", "1"), ("h", "1")])),
        Box::new(ListIterator::new(&[("a", "2"), ("b", "2"), ("h", "2"), ("i", "2")])),
        Box::new(ListIterator::new(&[("f", "3")])),
    ];
    let mut merge = MergeIterator::create(sources);
    let pairs = drain(&mut merge);
    for pair in pairs.windows(2) {
        assert!(pair[0].0 < pair[1].0);
    }
    assert_eq!(
        pairs,
        owned(&[
            ("a", "0"),
            ("b", "1"),
            ("c", "0"),
            ("d", "1"),
            ("e", "0"),
            ("f", "3"),
            ("g", "0"),
            ("h", "1"),
            ("i", "2"),
        ])
    );
}

#[test]
fn merge_gives_every_key_once() {
    let lists: Vec<Vec<(String, String)>> = (0..7usize)
        .map(|source| {
            (0..40usize)
                .filter(|n| (n * 7 + source * 3) % 5 < 2)
                .map(|n| (format!("key{:03}", n), format!("{}@{}", n, source)))
                .collect()
        })
        .collect();
    let mut expected: Vec<(String, String)> = Vec::new();
    for n in 0..40usize {
        let key = format!("key{:03}", n);
        for list in lists.iter() {
            if let Some(pair) = list.iter().find(|pair| pair.0 == key) {
                expected.push(pair.clone());
                break;
            }
        }
    }
    let sources: Vec<Box<ListIterator>> = lists
        .iter()
        .map(|list| {
            let pairs: Vec<(&str, &str)> =
                list.iter().map(|pair| (pair.0.as_str(), pair.1.as_str())).collect();
            Box::new(ListIterator::new(&pairs))
        })
        .collect();
    let mut merge = MergeIterator::create(sources);
    assert_eq!(drain(&mut merge), expected);
}

#[test]
fn merge_of_merges_counts_the_leaves() {
    let inner_a = MergeIterator::create(vec![
        Box::new(ListIterator::new(&[("a", "1")])),
        Box::new(ListIterator::new(&[("b", "2")])),
    ]);
    let inner_b = MergeIterator::create(vec![
        Box::new(ListIterator::new(&[("a", "3")])),
        Box::new(ListIterator::new(&[("c", "4")])),
        Box::new(ListIterator::new(&[("d", "5")])),
    ]);
    let mut outer = MergeIterator::create(vec![Box::new(inner_a), Box::new(inner_b)]);
    assert_eq!(outer.num_active_iterators(), 5);
    assert_eq!(
        drain(&mut outer),
        owned(&[("a", "1"), ("b", "2"), ("c", "4"), ("d", "5")])
    );
}

#[test]
fn merge_surfaces_an_error_of_the_current_iterator() {
    let sources = vec![
        Box::new(ListIterator::failing(&[("a", "0"), ("b", "0")], 1)),
        Box::new(ListIterator::new(&[("c", "1")])),
    ];
    let mut merge = MergeIterator::create(sources);
    assert_eq!(merge.key(), b"a");
    assert!(merge.next().is_ok());
    assert_eq!(merge.key(), b"b");
    assert!(matches!(merge.next(), Err(Error::Io)));
}

#[test]
fn merge_surfaces_an_error_of_a_skipped_iterator() {
    let sources = vec![
        Box::new(ListIterator::new(&[("a", "0"), ("b", "0")])),
        Box::new(ListIterator::failing(&[("a", "1"), ("c", "1")], 0)),
    ];
    let mut merge = MergeIterator::create(sources);
    assert_eq!(merge.key(), b"a");
    assert_eq!(merge.value(), b"0");
    assert!(matches!(merge.next(), Err(Error::Io)));
}
