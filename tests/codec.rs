use lasagnedb::entry::{Entry, EntryBuilder};
use lasagnedb::order::compare_bytes;
use lasagnedb::value::{Key, OpType};
use std::cmp::Ordering;

#[test]
fn test_key_order() {
    let k1 = Key::new(b"a".to_vec(), 1, OpType::Get);
    let k2 = Key::new(b"a".to_vec(), 1, OpType::Delete);
    assert_eq!(k1.compare(&k2), Ordering::Less);

    let k1 = Key::new(b"a".to_vec(), 1, OpType::Get);
    let k2 = Key::new(b"a".to_vec(), 2, OpType::Delete);
    assert_eq!(k1.compare(&k2), Ordering::Greater);

    let k1 = Key::new(b"a".to_vec(), 3, OpType::Get);
    let k2 = Key::new(b"b".to_vec(), 2, OpType::Delete);
    assert_eq!(k1.compare(&k2), Ordering::Less);
}

#[test]
fn delete_sorts_before_put_of_same_sequence() {
    let d = Key::new(b"k".to_vec(), 5, OpType::Delete);
    let p = Key::new(b"k".to_vec(), 5, OpType::Put);
    assert_eq!(d.compare(&p), Ordering::Less);
    assert_eq!(p.compare(&p.clone()), Ordering::Equal);
}

#[test]
fn key_encoding_and_length() {
    let k = Key::new(b"ab".to_vec(), 0x0102030405060708, OpType::Put);
    assert_eq!(k.encode(), vec![b'a', b'b', 8, 7, 6, 5, 4, 3, 2, 1]);
    assert_eq!(k.len(), 10);
}

#[test]
fn op_codes() {
    assert_eq!(OpType::Put.encode(), 1);
    assert_eq!(OpType::Delete.encode(), 2);
    assert_eq!(OpType::Get.encode(), 255);
    assert_eq!(OpType::from(2), OpType::Delete);
    assert_eq!(OpType::from(1), OpType::Put);
    assert_eq!(OpType::from(9), OpType::Get);
}

#[test]
fn byte_order_is_lexicographic() {
    assert_eq!(compare_bytes(b"a", b"ab"), Ordering::Less);
    assert_eq!(compare_bytes(b"b", b"ab"), Ordering::Greater);
    assert_eq!(compare_bytes(b"", b""), Ordering::Equal);
}

fn sample_entry() -> (Vec<u8>, Vec<u8>, Entry) {
    let key = b"Zq81xkeyAlpha".to_vec();
    let value = b"some value 42".to_vec();
    let mut b = EntryBuilder::new();
    b.op_type(OpType::Get).key_value(key.clone(), value.clone());
    let e = b.build();
    (key, value, e)
}

#[test]
fn test_entry_builder() {
    let (key, value, entry) = sample_entry();
    assert_eq!(entry.op_type(), OpType::Get);
    assert_eq!(entry.key, key);
    assert_eq!(entry.value, value);
}

#[test]
fn test_entry_encode() {
    let (_key, _value, entry) = sample_entry();
    let encode_entry = entry.encode();
    let entry2 = Entry::decode(&encode_entry[..]).unwrap();
    assert_eq!(entry.meta, entry2.meta);
    assert_eq!(entry.key, entry2.key);
    assert_eq!(entry.value, entry2.value);
}

#[test]
fn test_entry_empty_value() {
    let key = b"test_key".to_vec();
    let value = Vec::new();
    let mut b = EntryBuilder::new();
    b.op_type(OpType::Get).key_value(key, value);
    let b = b.build();
    assert_eq!(b.has_value(), false);
}

#[test]
fn entry_layout_and_size() {
    let mut b = EntryBuilder::new();
    b.op_type(OpType::Put).kv_separate(true).key_value(b"k".to_vec(), b"vv".to_vec());
    let e = b.build();
    assert!(e.value_separate());
    assert_eq!(e.size(), 23);
    let enc = e.encode();
    assert_eq!(enc.len(), 23);
    assert_eq!(&enc[0..4], &[1, 1, 0, 0]);
    assert_eq!(&enc[4..12], &[1, 0, 0, 0, 0, 0, 0, 0]);
    assert_eq!(enc[12], b'k');
    let mut b2 = EntryBuilder::new();
    b2.op_type(OpType::Put).kv_separate(false);
    assert!(!b2.build().value_separate());
}

#[test]
fn truncated_entry_does_not_decode() {
    let (_k, _v, e) = sample_entry();
    let enc = e.encode();
    assert!(Entry::decode(&enc[..enc.len() - 1]).is_none());
    assert!(Entry::decode(&enc[..5]).is_none());
    let empty = EntryBuilder::empty();
    assert_eq!(empty.meta, 0);
    assert!(empty.key.is_empty());
}
