use lasagnedb::memtable::{KeyBound, MemTable};
use lasagnedb::value::{Key, OpType};

#[test]
fn test_memtable_rw() {
    let mut t = MemTable::new();
    let k1 = Key::new(b"k1".to_vec(), 1, OpType::Put);
    let v1 = b"v1".to_vec();
    t.put(k1.clone(), v1.clone());
    assert_eq!(&(t.get(&k1).unwrap().1)[..], &v1[..]);

    let k2 = Key::new(b"k2".to_vec(), 1, OpType::Put);
    let v2 = b"v2".to_vec();
    t.put(k2.clone(), v2.clone());
    assert_eq!(&(t.get(&k2).unwrap().1)[..], &v2[..]);

    let v2 = b"v2_2".to_vec();
    t.put(k2.clone(), v2.clone());
    assert_eq!(&(t.get(&k2).unwrap().1)[..], &v2[..]);

    let k2 = Key::new(b"k2".to_vec(), 2, OpType::Put);
    let v2 = b"v2".to_vec();
    t.put(k2.clone(), v2.clone());
    assert_eq!(&(t.get(&k2).unwrap().1)[..], &v2[..]);
}

#[test]
fn test_memtable_iterator() {
    let mut t = MemTable::new();

    t.put(Key::new(b"k1".to_vec(), 1, OpType::Put), b"v1".to_vec());
    t.put(Key::new(b"k2".to_vec(), 2, OpType::Put), b"v2".to_vec());
    t.put(Key::new(b"k3".to_vec(), 3, OpType::Put), b"v3".to_vec());
    t.put(Key::new(b"k1".to_vec(), 4, OpType::Delete), Vec::new());
    t.put(Key::new(b"k2".to_vec(), 5, OpType::Put), b"v2_2".to_vec());

    let iter = t.scan(&KeyBound::Unbounded, &KeyBound::Unbounded);
    let values: Vec<Vec<u8>> = iter.into_iter().map(|p| p.1).collect();
    assert_eq!(
        values,
        vec![Vec::new(), b"v1".to_vec(), b"v2_2".to_vec(), b"v2".to_vec(), b"v3".to_vec()]
    );
}

#[test]
fn write_read_delete_and_versions() {
    let mut t = MemTable::new();
    let get = |t: &MemTable, k: &str, seq: u64| {
        t.get(&Key::new(k.as_bytes().to_vec(), seq, OpType::Get)).map(|p| p.1)
    };
    t.put(Key::new(b"k1".to_vec(), 1, OpType::Put), b"v1".to_vec());
    t.put(Key::new(b"k1".to_vec(), 2, OpType::Put), b"v1_1".to_vec());
    assert_eq!(get(&t, "k1", 2), Some(b"v1_1".to_vec()));
    // A reader at an earlier sequence number sees the earlier version.
    assert_eq!(get(&t, "k1", 1), Some(b"v1".to_vec()));
    t.put(Key::new(b"k3".to_vec(), 3, OpType::Put), b"v3".to_vec());
    t.put(Key::new(b"k3".to_vec(), 4, OpType::Delete), Vec::new());
    assert_eq!(get(&t, "k3", 4), None);
    assert_eq!(get(&t, "k3", 3), Some(b"v3".to_vec()));
    assert_eq!(get(&t, "missing", 9), None);
    assert_eq!(get(&t, "k0", 9), None);
    let hit = t.get(&Key::new(b"k1".to_vec(), 9, OpType::Get)).unwrap();
    assert_eq!(hit.0.seq_num, 2);
    assert_eq!(hit.0.op_type, OpType::Put);
}

#[test]
fn size_grows_by_key_and_value() {
    let mut t = MemTable::new();
    assert_eq!(t.size(), 0);
    t.put(Key::new(b"abc".to_vec(), 1, OpType::Put), b"12345".to_vec());
    assert_eq!(t.size(), 3 + 8 + 5);
    assert_eq!(t.entries().len(), 1);
}

#[test]
fn scan_bounds_are_inclusive_here() {
    let mut t = MemTable::new();
    for (i, k) in ["a", "b", "c", "d"].iter().enumerate() {
        t.put(Key::new(k.as_bytes().to_vec(), i as u64 + 1, OpType::Put), k.as_bytes().to_vec());
    }
    let s = t.scan(&KeyBound::Excluded(b"b".to_vec()), &KeyBound::Included(b"c".to_vec()));
    let keys: Vec<Vec<u8>> = s.into_iter().map(|p| p.0).collect();
    assert_eq!(keys, vec![b"b".to_vec(), b"c".to_vec()]);
}
