use lasagnedb::config::{max_level_size, MEMTABLE_SIZE_LIMIT};
use lasagnedb::catalog::Catalog;
use lasagnedb::engine::{
    bump_delta, compaction_install, compaction_sources, flush_install, freeze_step, read_outcome, redirect_entry, ReadOutcome,
    apply_rc_delta, can_compact, l0_needs_compaction, level_over_budget, make_write_entry,
    needs_freeze, split_for_flush, vsst_needs_rewrite,
};
use lasagnedb::manifest::ManifestItem;
use lasagnedb::engine::{lookup_step, plan_rewrites, LookupStep};
use lasagnedb::entry::{make_entry, EntryBuilder};
use lasagnedb::block::{BlockBuilder, BlockIterator};
use lasagnedb::value::OpType;

#[test]
fn write_entries() {
    let (e, op) = make_write_entry(b"k".to_vec(), Some(b"v".to_vec()));
    assert_eq!(op, OpType::Put);
    assert_eq!(e.value, b"v".to_vec());
    assert_eq!(e.op_type(), OpType::Put);
    let (d, op) = make_write_entry(b"k".to_vec(), None);
    assert_eq!(op, OpType::Delete);
    assert!(!d.has_value());
    assert_eq!(d.op_type(), OpType::Delete);
}

#[test]
fn triggers() {
    assert!(!needs_freeze(MEMTABLE_SIZE_LIMIT));
    assert!(needs_freeze(MEMTABLE_SIZE_LIMIT + 1));
    assert!(!l0_needs_compaction(4));
    assert!(l0_needs_compaction(5));
    assert!(can_compact(4));
    assert!(!can_compact(5));
    assert_eq!(max_level_size(1), 10 * 1024 * 1024);
    assert!(level_over_budget(0, 4 * 1024 * 1024 + 1));
    assert!(!level_over_budget(5, 1));
    assert!(vsst_needs_rewrite(1, 4));
    assert!(!vsst_needs_rewrite(2, 4));
    assert!(!vsst_needs_rewrite(5, 4));
}

#[test]
fn flush_separates_large_values() {
    let entries = vec![
        ((b"big".to_vec(), u64::MAX - 3, 254u8), vec![7u8; 8192]),
        ((b"small".to_vec(), u64::MAX - 4, 253u8), Vec::new()),
    ];
    let (sst, vsst) = split_for_flush(&entries, 9);
    assert_eq!(sst.len(), 2);
    assert_eq!(vsst.len(), 1);
    assert!(sst[0].value_separate());
    assert_eq!(sst[0].value, 9u32.to_le_bytes().to_vec());
    assert_eq!(vsst[0].value.len(), 8192);
    assert!(!sst[1].value_separate());
    assert_eq!(sst[1].op_type(), OpType::Delete);
}

#[test]
fn refcounts_reach_zero_and_delete() {
    let rc = vec![(1, 2), (2, 1)];
    let delta = vec![(1, -1), (2, -1), (3, 2)];
    let (rc2, items) = apply_rc_delta(rc, &delta);
    let mut rc2s = rc2.clone();
    rc2s.sort();
    assert_eq!(rc2s, vec![(1, 1), (3, 2)]);
    assert!(items.contains(&ManifestItem::DelVSst(2)));
    assert!(items.contains(&ManifestItem::VSstRefCnt(2, 0)));
    assert!(items.contains(&ManifestItem::VSstRefCnt(1, 1)));
    assert!(!items.contains(&ManifestItem::DelVSst(1)));
}

#[test]
fn flush_and_compaction_install_update_the_catalog() {
    let mut c = Catalog::new();
    let f = freeze_step(&mut c, 1);
    assert_eq!(f, ManifestItem::FreezeAndCreateWal(0, 1));
    assert_eq!(c.frozen_wals, vec![0]);
    let items = flush_install(&mut c, 7, Some((8, 3)), 42, 0);
    assert_eq!(
        items,
        vec![
            ManifestItem::NewSst(0, 7),
            ManifestItem::NewVSst(8),
            ManifestItem::VSstRefCnt(8, 3),
            ManifestItem::MaxSeqNum(42),
            ManifestItem::DelFrozenWal(0)
        ]
    );
    assert_eq!(c.levels[0], vec![7]);
    assert_eq!(c.vsst_rc, vec![(8, 3)]);
    assert!(c.frozen_wals.is_empty());

    let items = compaction_install(&mut c, 0, &vec![7], &vec![], &vec![9], None, &vec![(8, -3)]);
    assert_eq!(items[0], ManifestItem::DelSst(0, 7));
    assert_eq!(items[1], ManifestItem::NewSst(1, 9));
    assert!(items.contains(&ManifestItem::DelVSst(8)));
    assert!(c.levels[0].is_empty());
    assert_eq!(c.levels[1], vec![9]);
    assert!(c.vssts.is_empty());
    assert!(c.vsst_rc.is_empty());
    assert_eq!(Catalog::replay(&c.snapshot()).levels, c.levels);
}

#[test]
fn compaction_helpers() {
    assert_eq!(compaction_sources(&vec![1, 2, 3], &vec![9]), vec![3, 2, 1, 9]);
    let mut d = vec![(1, -2)];
    bump_delta(&mut d, 1, -1);
    bump_delta(&mut d, 4, 1);
    assert_eq!(d, vec![(1, -3), (4, 1)]);
    let (e, _) = make_write_entry(b"k".to_vec(), Some(b"v".to_vec()));
    assert!(matches!(read_outcome(&e), ReadOutcome::Value(v) if v == b"v".to_vec()));
    let r = redirect_entry(&e, 6);
    assert!(matches!(read_outcome(&r), ReadOutcome::InVsst(6)));
    let (d, _) = make_write_entry(b"k".to_vec(), None);
    assert!(matches!(read_outcome(&d), ReadOutcome::Deleted));
}

#[test]
fn rewrite_plan_moves_values_of_sparse_value_tables() {
    let sep = |k: &str, id: u32| make_entry(OpType::Put, true, k.as_bytes().to_vec(), id.to_le_bytes().to_vec());
    let out = vec![sep("a", 1), sep("b", 2), make_entry(OpType::Put, false, b"c".to_vec(), b"v".to_vec())];
    // Table 1: 1 of 4 entries live (sparse); table 2: 3 of 4 live.
    let rc = vec![(1, 1), (2, 3)];
    let totals = vec![(1, 4), (2, 4)];
    let mut delta = vec![];
    let (outputs, moved) = plan_rewrites(&out, &rc, &totals, 9, &mut delta);
    assert_eq!(moved, vec![0]);
    assert_eq!(outputs[0].value, 9u32.to_le_bytes().to_vec());
    assert!(outputs[0].value_separate());
    assert_eq!(outputs[1].value, out[1].value);
    assert_eq!(outputs[2].value, b"v".to_vec());
    delta.sort();
    assert_eq!(delta, vec![(1, -1), (9, 1)]);
}

#[test]
fn lookup_steps_through_blocks() {
    let mut b = BlockBuilder::new();
    for k in ["b", "d"] {
        let mut e = EntryBuilder::new();
        e.op_type(OpType::Put).key_value(k.as_bytes().to_vec(), b"v".to_vec());
        assert!(b.add(&e.build()));
    }
    let block = b.build();
    let it = BlockIterator::create_and_seek_to_key(&block, b"d").unwrap();
    assert!(matches!(lookup_step(&it, b"d", 0, 2), LookupStep::Found(e) if e.key == b"d".to_vec()));
    let it = BlockIterator::create_and_seek_to_key(&block, b"c").unwrap();
    assert!(matches!(lookup_step(&it, b"c", 0, 2), LookupStep::Absent));
    let it = BlockIterator::create_and_seek_to_key(&block, b"z").unwrap();
    assert!(matches!(lookup_step(&it, b"z", 0, 2), LookupStep::NextBlock(1)));
    assert!(matches!(lookup_step(&it, b"z", 1, 2), LookupStep::Absent));
}
