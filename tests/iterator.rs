use lasagnedb::entry::{make_entry, Entry};
use lasagnedb::iterator::{
    DbIterator, FusedIterator, MergeIterator, RcMergeIterator, StorageIterator,
    StorageIteratorError, TwoMergeIterator, VecIterator,
};
use lasagnedb::memtable::KeyBound;
use lasagnedb::value::OpType;

struct TestIterator {
    data: Vec<(Vec<u8>, Vec<u8>)>,
    idx: usize,
}

impl TestIterator {
    pub fn new(data: Vec<(Vec<u8>, Vec<u8>)>) -> Self {
        Self { data, idx: 0 }
    }
}

impl StorageIterator for TestIterator {
    fn key(&self) -> &[u8] {
        self.data[self.idx].0.as_slice()
    }

    fn value(&self) -> &[u8] {
        self.data[self.idx].1.as_slice()
    }

    fn is_valid(&self) -> bool {
        self.idx < self.data.len()
    }

    fn next(&mut self) -> Result<(), StorageIteratorError> {
        if self.idx < self.data.len() {
            self.idx += 1;
        }
        Ok(())
    }
}

#[test]
fn test_merge_iterator() {
    let iter1 = TestIterator::new(vec![
        (b"k1".to_vec(), b"v1".to_vec()),
        (b"k3".to_vec(), b"v3".to_vec()),
    ]);
    let iter2 = TestIterator::new(vec![
        (b"k1".to_vec(), b"v1_1".to_vec()),
        (b"k2".to_vec(), b"v2".to_vec()),
    ]);

    let mut i = MergeIterator::create(vec![Box::new(iter1), Box::new(iter2)]);
    assert_eq!(i.key(), b"k1");
    assert_eq!(i.value(), b"v1");
    i.next().unwrap();
    assert_eq!(i.key(), b"k2");
    assert_eq!(i.value(), b"v2");
    i.next().unwrap();
    assert_eq!(i.key(), b"k3");
    assert_eq!(i.value(), b"v3");
    i.next().unwrap();
}

#[test]
fn test_two_merge_iterator() {
    let iter1 = TestIterator::new(vec![
        (b"k1".to_vec(), b"v1".to_vec()),
        (b"k3".to_vec(), b"v3".to_vec()),
    ]);
    let iter2 = TestIterator::new(vec![
        (b"k1".to_vec(), b"v1_1".to_vec()),
        (b"k2".to_vec(), b"v2".to_vec()),
    ]);

    let mut i = TwoMergeIterator::create(iter1, iter2).unwrap();
    assert_eq!(i.key(), b"k1");
    assert_eq!(i.value(), b"v1");
    i.next().unwrap();
    assert_eq!(i.key(), b"k2");
    assert_eq!(i.value(), b"v2");
    i.next().unwrap();
    assert_eq!(i.key(), b"k3");
    assert_eq!(i.value(), b"v3");
    i.next().unwrap();
}

fn collect<I: StorageIterator>(mut it: I) -> Vec<(Vec<u8>, Vec<u8>)> {
    let mut out = vec![];
    while it.is_valid() {
        out.push((it.key().to_vec(), it.value().to_vec()));
        it.next().unwrap();
    }
    out
}

fn pairs(items: &[(&str, &str)]) -> Vec<(Vec<u8>, Vec<u8>)> {
    items
        .iter()
        .map(|(k, v)| (k.as_bytes().to_vec(), v.as_bytes().to_vec()))
        .collect()
}

#[test]
fn merge_keeps_first_version_within_one_source() {
    // A memtable scan yields the newest version of a key first.
    let a = TestIterator::new(pairs(&[("a", "new"), ("a", "old"), ("b", "1")]));
    let b = TestIterator::new(pairs(&[("a", "other"), ("c", "2")]));
    let out = collect(MergeIterator::create(vec![Box::new(a), Box::new(b)]));
    assert_eq!(out, pairs(&[("a", "new"), ("b", "1"), ("c", "2")]));
}

#[test]
fn merge_of_nothing_is_empty() {
    let it = MergeIterator::create::<TestIterator>(vec![]);
    assert!(!it.is_valid());
    let e = TwoMergeIterator::create(TestIterator::new(vec![]), TestIterator::new(vec![])).unwrap();
    assert!(!e.is_valid());
}

#[test]
fn fused_iterator_stays_at_end() {
    let mut f = FusedIterator::new(TestIterator::new(pairs(&[("a", "1")])));
    assert!(f.is_valid());
    f.next().unwrap();
    assert!(!f.is_valid());
    f.next().unwrap();
    f.next().unwrap();
    assert!(!f.is_valid());
}

#[test]
fn scan_skips_deletions_and_respects_bounds() {
    let mem = TestIterator::new(pairs(&[("k1", ""), ("k2", "v2"), ("k4", "v4")]));
    let sst = TestIterator::new(pairs(&[("k1", "old"), ("k3", "v3"), ("k5", "v5")]));
    let merged = TwoMergeIterator::create(mem, sst).unwrap();
    let it = DbIterator::new(
        merged,
        &KeyBound::Excluded(b"k2".to_vec()),
        &KeyBound::Included(b"k4".to_vec()),
    )
    .unwrap();
    assert_eq!(collect(it), pairs(&[("k3", "v3"), ("k4", "v4")]));

    let mem = TestIterator::new(pairs(&[("k1", ""), ("k2", "v2")]));
    let sst = TestIterator::new(pairs(&[("k1", "old")]));
    let merged = TwoMergeIterator::create(mem, sst).unwrap();
    let it = DbIterator::new(merged, &KeyBound::Unbounded, &KeyBound::Unbounded).unwrap();
    assert_eq!(collect(it), pairs(&[("k2", "v2")]));
}

#[test]
fn scan_of_ninety_nine_keys_is_ascending() {
    let mut data = vec![];
    for i in (1..100).rev() {
        data.push((format!("k{:04}", i).into_bytes(), format!("v{:04}", i).into_bytes()));
    }
    // Two sources, each sorted.
    let mut even: Vec<_> = data.iter().filter(|p| p.0[4] % 2 == 0).cloned().collect();
    let mut odd: Vec<_> = data.iter().filter(|p| p.0[4] % 2 == 1).cloned().collect();
    even.sort();
    odd.sort();
    let merged = MergeIterator::create(vec![Box::new(TestIterator::new(even)), Box::new(TestIterator::new(odd))]);
    let out = collect(DbIterator::new(merged, &KeyBound::Unbounded, &KeyBound::Unbounded).unwrap());
    assert_eq!(out.len(), 99);
    for (i, (k, v)) in out.iter().enumerate() {
        assert_eq!(k, &format!("k{:04}", i + 1).into_bytes());
        assert_eq!(v, &format!("v{:04}", i + 1).into_bytes());
    }
}

fn separated(key: &str, vsst: u32) -> Entry {
    make_entry(OpType::Put, true, key.as_bytes().to_vec(), vsst.to_le_bytes().to_vec())
}

fn plain(key: &str, value: &str) -> Entry {
    make_entry(OpType::Put, false, key.as_bytes().to_vec(), value.as_bytes().to_vec())
}

#[test]
fn rc_merge_counts_shadowed_references() {
    let newer = vec![plain("a", "1"), separated("b", 7)];
    let older = vec![separated("a", 7), separated("b", 9), separated("c", 7)];
    let mut it = RcMergeIterator::create(vec![newer, older]);
    assert!(it.vsst_rc_delta.is_empty());
    let mut keys = vec![];
    while it.is_valid() {
        keys.push(it.key().to_vec());
        it.next().unwrap();
    }
    assert_eq!(keys, vec![b"a".to_vec(), b"b".to_vec(), b"c".to_vec()]);
    let mut delta = it.vsst_rc_delta();
    delta.sort();
    assert_eq!(delta, vec![(7, -1), (9, -1)]);
}

#[test]
fn vec_iterator_walks_entries() {
    let mut it = VecIterator::new(vec![plain("x", "1"), plain("y", "2")]);
    assert_eq!(it.key(), b"x");
    assert_eq!(it.meta() & 0xff, 1);
    it.next().unwrap();
    assert_eq!(it.value(), b"2");
    it.next().unwrap();
    assert!(!it.is_valid());
}

struct FailingIterator {
    left: usize,
}

impl StorageIterator for FailingIterator {
    fn key(&self) -> &[u8] {
        b"k"
    }

    fn value(&self) -> &[u8] {
        b"v"
    }

    fn is_valid(&self) -> bool {
        self.left > 0
    }

    fn next(&mut self) -> Result<(), StorageIteratorError> {
        self.left -= 1;
        Err(StorageIteratorError::Unknown)
    }
}

#[test]
fn failing_source_fails_the_merge() {
    let r = TwoMergeIterator::create(FailingIterator { left: 2 }, TestIterator::new(vec![]));
    assert_eq!(r.err(), Some(StorageIteratorError::Unknown));
    let m = MergeIterator::create(vec![Box::new(FailingIterator { left: 2 })]);
    assert!(m.failed);
}

#[test]
fn rc_merge_counts_drops_step_by_step() {
    let newer = vec![plain("a", "1"), separated("b", 7)];
    let older = vec![separated("a", 7), separated("b", 9)];
    let mut it = RcMergeIterator::create(vec![newer, older]);
    assert!(it.vsst_rc_delta.is_empty());
    it.next().unwrap();
    assert_eq!(it.vsst_rc_delta, vec![(7, -1)]);
    it.next().unwrap();
    assert_eq!(it.vsst_rc_delta, vec![(7, -1), (9, -1)]);
    assert!(!it.is_valid());
}
