use lasagnedb::block::{Block, BlockBuilder, BlockError, BlockIterator};
use lasagnedb::compaction::{pick_base_sst, select_overlap_sst};
use lasagnedb::entry::{Entry, EntryBuilder};
use lasagnedb::merge::merge_entries;
use lasagnedb::sstable::{SsTable, SsTableBuilder, SstError};
use lasagnedb::value::OpType;

fn gen_entries(num: usize) -> Vec<Entry> {
    let mut ret = Vec::with_capacity(num);
    for i in 0..num {
        let mut b = EntryBuilder::new();
        b.op_type(OpType::Get)
            .key_value(format!("key{:05}", i).into_bytes(), format!("value-{}", i * 7).into_bytes());
        ret.push(b.build());
    }
    ret
}

fn gen_block() -> (Block, Vec<Entry>) {
    let mut builder = BlockBuilder::new();
    let entries = gen_entries(10);
    entries.iter().for_each(|e| assert!(builder.add(e)));
    (builder.build(), entries)
}

#[test]
fn test_block_builder() {
    let (block, entries) = gen_block();

    let mut offsets: Vec<u16> = Vec::new();
    let mut off: u16 = 0;
    for i in &entries {
        offsets.push(off);
        off += i.size() as u16;
    }
    assert_eq!(block.offsets, offsets);
}

#[test]
fn test_block_encode() {
    let (block, _) = gen_block();
    let block_encode = block.encode();
    let block2 = Block::decode(&block_encode[..]).unwrap();
    assert_eq!(block.data, block2.data);
    assert_eq!(block.offsets, block2.offsets);
    assert_eq!(block.checksum, block2.checksum);
    assert_eq!(block.entry_num, block2.entry_num);
}

#[test]
fn test_block_iterator() {
    let (block, entries) = gen_block();
    let mut iter = BlockIterator::create_and_seek_to_first(&block).unwrap();

    entries.iter().for_each(|e| {
        assert_eq!(&e.key[..], iter.key());
        iter.next();
    });
    assert!(!iter.is_valid());
}

#[test]
fn block_seek_and_errors() {
    let (block, _) = gen_block();
    let it = BlockIterator::create_and_seek_to_key(&block, b"key00004x").unwrap();
    assert_eq!(it.key(), b"key00005");
    let it = BlockIterator::create_and_seek_to_key(&block, b"key00003").unwrap();
    assert_eq!(it.key(), b"key00003");
    let it = BlockIterator::create_and_seek_to_key(&block, b"zzz").unwrap();
    assert!(!it.is_valid());

    let mut enc = block.encode();
    enc[0] ^= 1;
    assert_eq!(Block::decode(&enc).err(), Some(BlockError::CorruptBlock));
    assert_eq!(Block::decode(&enc[..3]).err(), Some(BlockError::Truncated));
}

#[test]
fn block_builder_rejects_overflow_but_takes_first() {
    let mut b = BlockBuilder::new();
    let mut big = EntryBuilder::new();
    big.op_type(OpType::Put).key_value(b"k".to_vec(), vec![0u8; 5000]);
    assert!(b.add(&big.build()));
    let small = gen_entries(1);
    assert!(!b.add(&small[0]));
    assert!(!b.is_empty());
}

fn gen_sst(id: u32, entries: &[Entry]) -> (SsTable, Vec<u8>) {
    let mut builder = SsTableBuilder::new();
    entries.iter().for_each(|e| builder.add(e));
    builder.build(id).unwrap()
}

fn read_keys(t: &SsTable, file: &[u8]) -> Vec<Vec<u8>> {
    let mut keys = vec![];
    for i in 0..t.num_of_blocks() {
        let (s, e) = t.block_range(i);
        let block = Block::decode(&file[s as usize..e as usize]).unwrap();
        let mut it = BlockIterator::create_and_seek_to_first(&block).unwrap();
        while it.is_valid() {
            keys.push(it.key().to_vec());
            it.next();
        }
    }
    keys
}

#[test]
fn test_sst_builder() {
    let entries = gen_entries(100);
    let (t, file) = gen_sst(1, &entries);
    assert_eq!(t.id(), 1);
    assert!(t.num_of_blocks() >= 1);
    assert!(!file.is_empty());
}

#[test]
fn test_open_iter() {
    let entries = gen_entries(1000);
    let (sst, file) = gen_sst(1, &entries);
    let want: Vec<Vec<u8>> = entries.iter().map(|e| e.key.clone()).collect();
    assert!(sst.num_of_blocks() > 1);
    assert_eq!(read_keys(&sst, &file), want);

    let opened = SsTable::open(1, &file).unwrap();
    assert_eq!(opened.num_of_blocks(), sst.num_of_blocks());
    assert_eq!(read_keys(&opened, &file), want);
    assert_eq!(SsTable::open(1, &file[..5]).err(), Some(SstError::Truncated));
}

#[test]
fn bloom_has_no_false_negatives() {
    let entries = gen_entries(300);
    let (sst, file) = gen_sst(2, &entries);
    let opened = SsTable::open(2, &file).unwrap();
    for e in &entries {
        assert!(sst.maybe_contains_key(&e.key));
        assert!(opened.maybe_contains_key(&e.key));
    }
}

#[test]
fn find_block_and_range() {
    let entries = gen_entries(1000);
    let (sst, _) = gen_sst(3, &entries);
    let (lo, hi) = sst.key_range();
    assert_eq!(lo, b"key00000".to_vec());
    assert_eq!(hi, b"key00999".to_vec());
    assert_eq!(sst.find_block_idx(b"a"), 0);
    let last = sst.find_block_idx(b"zzz");
    assert_eq!(last, sst.num_of_blocks() - 1);
    let first_of_second = sst.metas[1].first_key.clone();
    assert_eq!(sst.find_block_idx(&first_of_second), 1);
}

fn generate_entry(key: Vec<u8>, value: Vec<u8>) -> Entry {
    let mut b = EntryBuilder::new();
    b.op_type(OpType::Put).kv_separate(false).key_value(key, value);
    b.build()
}

fn map_to_string(num: u32) -> String {
    let mut result = String::new();
    for i in 0..num {
        result.push(('a' as u8 + (i % 26) as u8) as char);
    }
    result
}

fn generate_rang_sst(id: u32, from: u32, to: u32) -> SsTable {
    let mut b = SsTableBuilder::new();
    for i in from..=to {
        b.add(&generate_entry(map_to_string(i).into_bytes(), Vec::new()));
    }
    b.build(id).unwrap().0
}

#[test]
fn test_select_overlap_sst() {
    let mut levels: Vec<Vec<SsTable>> = (0..6).map(|_| vec![]).collect();

    levels[0].push(generate_rang_sst(1, 2, 100));
    levels[0].push(generate_rang_sst(2, 15, 70));
    levels[0].push(generate_rang_sst(3, 1, 50));
    levels[0].push(generate_rang_sst(4, 101, 150));
    levels[0].push(generate_rang_sst(5, 201, 300));

    levels[1].push(generate_rang_sst(6, 1, 50));
    levels[1].push(generate_rang_sst(7, 50, 60));
    levels[1].push(generate_rang_sst(8, 60, 200));
    levels[1].push(generate_rang_sst(9, 201, 300));

    let base = pick_base_sst(&levels, 0).unwrap();
    assert_eq!(base.id(), 1);
    let res = select_overlap_sst(&levels, 0, base);
    assert_eq!(res.0.len(), 4);
    res.0.iter().for_each(|id| assert!(vec![1, 2, 3, 4].contains(&(*id as i32))));
    assert_eq!(res.1.len(), 3);
    res.1.iter().for_each(|id| assert!(vec![6, 7, 8, 9].contains(&(*id as i32))));
}

#[test]
fn test_merge() {
    let ranges = [(2, 5), (3, 4), (1, 2)];
    let sources: Vec<Vec<Entry>> = ranges
        .iter()
        .map(|(from, to)| (*from..=*to).map(|i| generate_entry(map_to_string(i).into_bytes(), Vec::new())).collect())
        .collect();
    let (out, _dropped, _groups) = merge_entries(&sources);
    let starts = lasagnedb::compaction::roll_points(&out, lasagnedb::MAX_SST_SIZE);
    assert_eq!(starts.len(), 1);
    let (sst, file) = gen_sst(2, &out);
    let keys = read_keys(&sst, &file);
    assert_eq!(keys.len(), 5);
    for i in 1..=5 {
        assert_eq!(keys[i as usize - 1], map_to_string(i).into_bytes());
    }
}

#[test]
fn block_with_bad_offset_fails_to_list_entries() {
    let (mut block, _) = gen_block();
    block.offsets[3] = 60000;
    assert_eq!(block.entries().err(), Some(BlockError::BadEntry));
    let it = BlockIterator::create_and_seek_to_first(&block);
    assert!(it.is_err());
}

#[test]
fn block_checksum_is_crc32_of_entries() {
    let (block, _) = gen_block();
    assert_eq!(block.checksum, crc::crc32::checksum_ieee(&block.data));
    assert_ne!(block.checksum, 0);
}

fn trailer(filter_len: u32, filter_offset: u32, meta_offset: u32) -> Vec<u8> {
    let mut t = vec![];
    t.extend(filter_len.to_le_bytes());
    t.extend(filter_offset.to_le_bytes());
    t.extend(meta_offset.to_le_bytes());
    t
}

#[test]
fn table_open_errors() {
    // An index region that does not hold a whole meta block.
    let mut file = vec![1, 2, 3, 4, 5];
    file.extend(trailer(0, 0, 0));
    assert_eq!(SsTable::open(1, &file).err(), Some(SstError::BadMeta));

    // A filter that does not deserialise.
    let mut file = vec![0xff, 0xff, 0xff];
    file.extend(trailer(3, 0, 0));
    assert_eq!(SsTable::open(1, &file).err(), Some(SstError::BadFilter));

    // Regions past the end.
    let mut file = vec![];
    file.extend(trailer(0, 0, 40));
    assert_eq!(SsTable::open(1, &file).err(), Some(SstError::Truncated));

    // No blocks and no filter: an empty table.
    let file = trailer(0, 0, 0);
    let t = SsTable::open(9, &file).unwrap();
    assert_eq!(t.num_of_blocks(), 0);
    assert!(t.maybe_contains_key(&b"anything".to_vec()));
}

#[test]
fn compaction_output_rolls_at_the_limit() {
    let entries: Vec<Entry> = (0..10).map(|i| generate_entry(format!("k{}", i).into_bytes(), b"vv".to_vec())).collect();
    let each = entries[0].size() as u64;
    assert!(entries.iter().all(|e| e.size() as u64 == each));
    let starts = lasagnedb::compaction::roll_points(&entries, 3 * each);
    assert_eq!(starts, vec![0, 3, 6, 9]);
    assert_eq!(lasagnedb::compaction::roll_points(&entries, 1), (0..10).collect::<Vec<usize>>());
    assert!(lasagnedb::compaction::roll_points(&vec![], 100).is_empty());
}

#[test]
fn search_starts_at_first_version_of_key() {
    // Many versions of one key spread over several blocks.
    let mut entries = vec![generate_entry(b"a".to_vec(), vec![1; 100])];
    for i in 0..200u32 {
        entries.push(generate_entry(b"k".to_vec(), i.to_le_bytes().repeat(10)));
    }
    let (sst, _) = gen_sst(5, &entries);
    assert!(sst.num_of_blocks() > 2);
    let found = sst.find_block_idx(b"k");
    let first = sst.first_block_for_key(b"k");
    assert!(first < found);
    assert_eq!(first, 0);
}
