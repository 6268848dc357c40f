use lasagnedb::catalog::Catalog;
use lasagnedb::entry::{Entry, EntryBuilder};
use lasagnedb::journal::{encode_batch, replay_entries, Journal};
use lasagnedb::manifest::{Manifest, ManifestItem};
use lasagnedb::memtable::{KeyBound, MemTable};
use lasagnedb::record::{Record, RecordBuilder, RecordError, RecordItem, RecordIterator};
use lasagnedb::value::{Key, OpType};
use std::sync::Arc;

#[test]
fn test_record_encode() {
    let mut builder = RecordBuilder::new();
    builder.add(ManifestItem::MaxSeqNum(1));
    let r = builder.build();

    let b = r.encode();
    let (r2, _) = Record::<ManifestItem>::decode_at(&b, 0).unwrap();
    assert_eq!(b, r2.encode());
}

#[test]
fn record_errors() {
    let mut builder = RecordBuilder::new();
    builder.add(ManifestItem::NewSst(0, 3));
    let mut b = builder.build().encode();
    assert_eq!(Record::<ManifestItem>::decode_at(&b[..8], 0).err(), Some(RecordError::Truncated));
    assert_eq!(Record::<ManifestItem>::decode_at(&b[..b.len() - 1], 0).err(), Some(RecordError::BadItem));
    let last = b.len() - 1;
    b[last] ^= 0xff;
    assert_eq!(Record::<ManifestItem>::decode_at(&b, 0).err(), Some(RecordError::ChecksumMismatch));
}

#[test]
fn manifest_item_encoding() {
    let item = ManifestItem::NewSst(2, 7);
    assert_eq!(item.encode(), vec![1, 8, 0, 0, 0, 2, 0, 0, 0, 7, 0, 0, 0]);
    assert_eq!(item.type_encode(), 1);
    assert_eq!(item.content_size(), 8);
    assert_eq!(ManifestItem::decode(&item.encode()), Some(item));
    assert_eq!(ManifestItem::decode(&[9, 0, 0, 0, 0]), None);
    assert_eq!(ManifestItem::decode(&ManifestItem::Init(-3).encode()), Some(ManifestItem::Init(-3)));
}

#[test]
fn test_manifest() {
    let items = vec![
        ManifestItem::Init(0),
        ManifestItem::NewSst(0, 1),
        ManifestItem::FreezeAndCreateWal(0, 1),
    ];
    let mut bytes = vec![];
    for _ in 0..2 {
        let mut rbuilder: RecordBuilder<ManifestItem> = RecordBuilder::new();
        for item in &items {
            rbuilder.add(*item)
        }
        bytes.extend(rbuilder.build().encode());
    }

    let mut read = vec![];
    let mut pos = 0;
    while pos < bytes.len() {
        let (rec, end) = Record::<ManifestItem>::decode_at(&bytes, pos).unwrap();
        let mut it = RecordIterator::create_and_seek_to_first(Arc::new(rec));
        while it.is_valid() {
            read.push(it.record_item());
            it.next();
        }
        pos = end;
    }
    let mut _items = items.clone();
    _items.extend(items);
    assert_eq!(read.len(), _items.len());
    for (a, b) in read.iter().zip(_items.iter()) {
        assert_eq!(a.encode(), b.encode());
    }
}

fn test_batches() -> Vec<Entry> {
    let mk = |k: &str, v: &str| {
        let mut b = EntryBuilder::new();
        b.op_type(OpType::Get).key_value(k.as_bytes().to_vec(), v.as_bytes().to_vec());
        b.build()
    };
    vec![mk("k1", "v1"), mk("k2", "v2"), mk("k3", "v3")]
}

#[test]
fn test_journal() {
    let (batch1, batch2) = (test_batches(), test_batches());
    let mut file = encode_batch(batch1.clone());
    file.extend(encode_batch(batch2.clone()));

    let wal = Journal::decode(1, &file);
    assert_eq!(wal.num_of_records(), 2);
    let mut batches = batch1;
    batches.extend(batch2);
    let entries = wal.entries();
    assert_eq!(entries.len(), batches.len());
    for (a, b) in batches.iter().zip(entries.iter()) {
        assert_eq!(a.key, b.key);
        assert_eq!(a.value, b.value);
        assert_eq!(a.meta, b.meta);
    }
}

#[test]
fn journal_drops_torn_tail() {
    let mut file = encode_batch(test_batches());
    let second = encode_batch(test_batches());
    file.extend(&second[..second.len() - 3]);
    let wal = Journal::decode(4, &file);
    assert_eq!(wal.id(), 4);
    assert_eq!(wal.num_of_records(), 1);
    assert!(wal.read_record(0).is_some());
    assert!(wal.read_record(1).is_none());
}

fn write(op: OpType, k: &str, v: &str) -> Entry {
    let mut b = EntryBuilder::new();
    b.op_type(op).key_value(k.as_bytes().to_vec(), v.as_bytes().to_vec());
    b.build()
}

#[test]
fn journal_replay_keeps_last_writer_and_is_repeatable() {
    let entries = vec![
        write(OpType::Put, "a", "1"),
        write(OpType::Put, "a", "2"),
        write(OpType::Put, "b", "x"),
        write(OpType::Delete, "b", ""),
    ];
    let mut t1 = MemTable::new();
    let last = replay_entries(&mut t1, &entries, 0);
    assert_eq!(last, 4);
    let probe = |t: &MemTable, k: &str| t.get(&Key::new(k.as_bytes().to_vec(), last, OpType::Get)).map(|p| p.1);
    assert_eq!(probe(&t1, "a"), Some(b"2".to_vec()));
    assert_eq!(probe(&t1, "b"), None);

    let mut t2 = MemTable::new();
    replay_entries(&mut t2, &entries, 0);
    replay_entries(&mut t2, &entries, 0);
    let s1 = t1.scan(&KeyBound::Unbounded, &KeyBound::Unbounded);
    let s2 = t2.scan(&KeyBound::Unbounded, &KeyBound::Unbounded);
    assert_eq!(s1, s2);
}

#[test]
fn catalog_replay_and_reopen() {
    let items = vec![
        ManifestItem::Init(1),
        ManifestItem::NewSst(0, 1),
        ManifestItem::NewSst(0, 2),
        ManifestItem::NewVSst(3),
        ManifestItem::VSstRefCnt(3, 5),
        ManifestItem::NewSst(1, 4),
        ManifestItem::DelSst(0, 1),
        ManifestItem::MaxSeqNum(42),
        ManifestItem::FreezeAndCreateWal(0, 1),
        ManifestItem::FreezeAndCreateWal(1, 2),
        ManifestItem::DelFrozenWal(0),
        ManifestItem::NewVSst(6),
        ManifestItem::DelVSst(6),
    ];
    let c = Catalog::replay(&items);
    assert_eq!(c.levels[0], vec![2]);
    assert_eq!(c.levels[1], vec![4]);
    assert_eq!(c.vssts, vec![3]);
    assert_eq!(c.vsst_rc, vec![(3, 5)]);
    assert_eq!(c.frozen_wals, vec![1]);
    assert_eq!(c.sst_id, 4);
    assert_eq!(c.vsst_id, 6);
    assert_eq!(c.log_id, 2);
    assert_eq!(c.seq_num, 42);

    let c2 = Catalog::replay(&c.snapshot());
    let c3 = Catalog::replay(&c2.snapshot());
    for c in [&c2, &c3] {
        assert_eq!(c.levels[0], vec![2]);
        assert_eq!(c.levels[1], vec![4]);
        assert_eq!(c.vssts, vec![3]);
        assert_eq!(c.vsst_rc, vec![(3, 5)]);
        assert_eq!(c.frozen_wals, vec![1]);
        assert_eq!(c.log_id, 2);
        assert_eq!(c.seq_num, 42);
    }
    assert_eq!(c2.sst_id, c3.sst_id);
    assert_eq!(c2.vsst_id, c3.vsst_id);
    assert_eq!(c2.snapshot(), c3.snapshot());
}

#[test]
fn writes_whose_record_is_whole_survive_a_crash() {
    let mut file = vec![];
    file.extend(encode_batch(vec![write(OpType::Put, "k1", "v1")]));
    file.extend(encode_batch(vec![write(OpType::Put, "k1", "v1_1")]));
    file.extend(encode_batch(vec![write(OpType::Put, "k2", "v2")]));
    // The process dies while appending the next record.
    let torn = encode_batch(vec![write(OpType::Delete, "k2", "")]);
    file.extend(&torn[..torn.len() / 2]);

    let wal = Journal::decode(7, &file);
    let entries = wal.entries();
    assert_eq!(entries.len(), 3);
    let mut t = MemTable::new();
    let seq = replay_entries(&mut t, &entries, 10);
    assert_eq!(seq, 13);
    let get = |k: &str| t.probe(&Key::new(k.as_bytes().to_vec(), seq, OpType::Get));
    assert_eq!(get("k1"), Some(Some(b"v1_1".to_vec())));
    assert_eq!(get("k2"), Some(Some(b"v2".to_vec())));
    assert_eq!(get("k3"), None);
}

#[test]
fn probe_tells_deleted_from_absent() {
    let entries = vec![write(OpType::Put, "a", "1"), write(OpType::Delete, "a", "")];
    let mut t = MemTable::new();
    let seq = replay_entries(&mut t, &entries, 0);
    assert_eq!(t.probe(&Key::new(b"a".to_vec(), seq, OpType::Get)), Some(None));
    assert_eq!(t.probe(&Key::new(b"a".to_vec(), 1, OpType::Get)), Some(Some(b"1".to_vec())));
    assert_eq!(t.probe(&Key::new(b"b".to_vec(), seq, OpType::Get)), None);
}

#[test]
fn manifest_reads_items_up_to_a_torn_record() {
    let mut bytes = vec![];
    let mut r1 = RecordBuilder::new();
    r1.add(ManifestItem::Init(1));
    r1.add(ManifestItem::NewSst(0, 5));
    bytes.extend(r1.build().encode());
    let mut r2 = RecordBuilder::new();
    r2.add(ManifestItem::DelSst(0, 5));
    let torn = r2.build().encode();
    bytes.extend(&torn[..torn.len() - 2]);
    let m = Manifest::decode(&bytes);
    assert_eq!(m.num_of_records(), 1);
    assert_eq!(m.items(), vec![ManifestItem::Init(1), ManifestItem::NewSst(0, 5)]);
    assert!(m.read_record(1).is_none());
}
