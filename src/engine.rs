//! The engine's decisions: what a write stores, when to freeze, flush and
//! compact, how a flush separates large values, and how reference counts
//! change when a compaction is installed.
use vstd::prelude::*;
use crate::catalog::{Catalog, CatalogView, SST_LEVEL_LIMIT, apply_item, replay_from, remove_key};
use crate::iterator::{vsst_ref, entry_vsst_ref};
use crate::codec::{le_u32, put_u32_le};
use crate::config::{MEMTABLE_SIZE_LIMIT, L0_SST_NUM_LIMIT, MIN_VSST_SIZE, SPARE_NUM, SPARE_DEN, spec_max_level_size, max_level_size};
use crate::entry::{Entry, EntryView, SEPARATE_BIT, make_entry};
use crate::manifest::ManifestItem;
use crate::memtable::{MemKey, MemKeyView, mk_view};
use crate::value::OpType;
use crate::block::BlockIterator;
use crate::order::{compare_bytes, lemma_lex_order};
use core::cmp::Ordering;

verus! {

/// The entry a write stores: a put of the value, or a deletion with an
/// empty value; and its operation.
pub fn make_write_entry(key: Vec<u8>, value: Option<Vec<u8>>) -> (r: (Entry, OpType))
    ensures
        r.1 == (if value is Some { OpType::Put } else { OpType::Delete }),
        r.0.key == key,
        r.0.value@ == (match value {
            Some(v) => v@,
            None => Seq::<u8>::empty(),
        }),
        r.0.meta == (r.1.spec_encode() as u32) & !SEPARATE_BIT,
{
    match value {
        None => (make_entry(OpType::Delete, false, key, Vec::new()), OpType::Delete),
        Some(v) => (make_entry(OpType::Put, false, key, v), OpType::Put),
    }
}

/// Whether the active memtable is past its limit and is to be frozen.
pub fn needs_freeze(memtable_size: usize) -> (r: bool)
    ensures
        r == (memtable_size > MEMTABLE_SIZE_LIMIT),
{
    memtable_size > MEMTABLE_SIZE_LIMIT
}

/// Whether level 0 holds too many tables and is to be compacted.
pub fn l0_needs_compaction(l0_tables: usize) -> (r: bool)
    ensures
        r == (l0_tables > L0_SST_NUM_LIMIT),
{
    l0_tables > L0_SST_NUM_LIMIT
}

/// Whether a level can be compacted into a next one (the last cannot).
pub fn can_compact(level: usize) -> (r: bool)
    ensures
        r == (level + 1 < SST_LEVEL_LIMIT),
{
    level < SST_LEVEL_LIMIT - 1
}

/// Whether a level holding `size` bytes is past its budget.
pub fn level_over_budget(level: usize, size: u64) -> (r: bool)
    ensures
        r == (size > spec_max_level_size(level)),
{
    size > max_level_size(level)
}

/// Whether a value table with `live` of its `total` entries still referenced
/// has too many holes and is to be rewritten.
pub fn vsst_needs_rewrite(live: u64, total: u64) -> (r: bool)
    ensures
        r == (live <= total && (total - live) * SPARE_DEN > total * SPARE_NUM),
{
    if live > total {
        return false;
    }
    let holes = total - live;
    assert(SPARE_NUM == 1 && SPARE_DEN == 2);
    (holes as u128) * 2 > total as u128
}

/// The table entry of a memtable entry when flushed: its user key and
/// operation; a value longer than `MIN_VSST_SIZE` moves to the value table
/// `vsst_id`, and the table entry then holds that id, little-endian, with the
/// separated bit set.
pub open spec fn flushed_entry_ok(e: Entry, k: MemKeyView, v: Seq<u8>, vsst_id: u32) -> bool {
    let op = OpType::spec_from((255 - k.2) as u8);
    &&& e.key@ == k.0
    &&& if v.len() > MIN_VSST_SIZE {
        e.value@ == le_u32(vsst_id) && e.meta == (op.spec_encode() as u32) | SEPARATE_BIT
    } else {
        e.value@ == v && e.meta == (op.spec_encode() as u32) & !SEPARATE_BIT
    }
}

/// The memtable entries whose values move to the value table, in order.
pub open spec fn large_entries(es: Seq<(MemKeyView, Seq<u8>)>) -> Seq<(MemKeyView, Seq<u8>)>
    decreases es.len(),
{
    if es.len() == 0 {
        es
    } else if es.last().1.len() > MIN_VSST_SIZE {
        large_entries(es.drop_last()).push(es.last())
    } else {
        large_entries(es.drop_last())
    }
}

/// The value-table entry of a separated memtable entry: its user key and
/// operation, not separated, holding the value itself.
pub open spec fn vsst_entry_ok(e: Entry, k: MemKeyView, v: Seq<u8>) -> bool {
    let op = OpType::spec_from((255 - k.2) as u8);
    e.key@ == k.0 && e.value@ == v && e.meta == (op.spec_encode() as u32) & !SEPARATE_BIT
}

pub open spec fn mem_entries_view(s: Seq<(MemKey, Vec<u8>)>) -> Seq<(MemKeyView, Seq<u8>)> {
    s.map_values(|p: (MemKey, Vec<u8>)| (mk_view(p.0), p.1@))
}

/// Splits a frozen memtable's entries for a flush: the table's entries, one
/// per memtable entry in order, and the value table's entries, one per
/// separated value in order, each with the value itself.
pub fn split_for_flush(entries: &Vec<(MemKey, Vec<u8>)>, vsst_id: u32) -> (r: (Vec<Entry>, Vec<Entry>))
    ensures
        r.0@.len() == entries@.len(),
        forall|i: int| 0 <= i < entries@.len() ==> flushed_entry_ok(#[trigger] r.0@[i], mk_view(entries@[i].0), entries@[i].1@, vsst_id),
        r.1@.len() == large_entries(mem_entries_view(entries@)).len(),
        forall|j: int| 0 <= j < r.1@.len() ==> vsst_entry_ok(#[trigger] r.1@[j], large_entries(mem_entries_view(entries@))[j].0, large_entries(mem_entries_view(entries@))[j].1),
{
    let ghost mv = mem_entries_view(entries@);
    let mut sst: Vec<Entry> = Vec::new();
    let mut vsst: Vec<Entry> = Vec::new();
    let mut i: usize = 0;
    while i < entries.len()
        invariant
            i <= entries@.len(),
            sst@.len() == i,
            forall|j: int| 0 <= j < i ==> flushed_entry_ok(#[trigger] sst@[j], mk_view(entries@[j].0), entries@[j].1@, vsst_id),
            mv == mem_entries_view(entries@),
            vsst@.len() == large_entries(mv.subrange(0, i as int)).len(),
            forall|j: int| 0 <= j < vsst@.len() ==> vsst_entry_ok(#[trigger] vsst@[j], large_entries(mv.subrange(0, i as int))[j].0, large_entries(mv.subrange(0, i as int))[j].1),
        decreases entries.len() - i,
    {
        proof {
            assert(mv.subrange(0, i as int + 1).drop_last() =~= mv.subrange(0, i as int));
            assert(mv.subrange(0, i as int + 1).last() == mv[i as int]);
        }
        let ghost before = vsst@;
        let (k, v) = &entries[i];
        let op = OpType::from(255 - k.2);
        if v.len() as u64 > MIN_VSST_SIZE {
            let mut id_bytes: Vec<u8> = Vec::new();
            put_u32_le(&mut id_bytes, vsst_id);
            sst.push(make_entry(op, true, k.0.clone(), id_bytes));
            vsst.push(make_entry(op, false, k.0.clone(), v.clone()));
            proof {
                assert forall|j: int| 0 <= j < vsst@.len() implies vsst_entry_ok(#[trigger] vsst@[j], large_entries(mv.subrange(0, i as int + 1))[j].0, large_entries(mv.subrange(0, i as int + 1))[j].1) by {
                    if j < before.len() {
                        assert(vsst@[j] == before[j]);
                    }
                }
            }
        } else {
            sst.push(make_entry(op, false, k.0.clone(), v.clone()));
        }
        i = i + 1;
    }
    assert(mv.subrange(0, i as int) =~= mv);
    (sst, vsst)
}

/// The reference count of `id` in `rc` (0 when absent).
pub open spec fn rc_of(rc: Seq<(u32, u32)>, id: u32) -> int
    decreases rc.len(),
{
    if rc.len() == 0 {
        0
    } else if rc.last().0 == id {
        rc.last().1 as int
    } else {
        rc_of(rc.drop_last(), id)
    }
}

/// Applies reference-count changes, one per value table. Returns the new
/// counts and the manifest items that record them: the new count of each
/// changed table, and its deletion when the count is no longer positive. No
/// count in the result is zero, and a deletion is recorded only for a table
/// that no longer has a count.
pub fn apply_rc_delta(rc: Vec<(u32, u32)>, delta: &Vec<(u32, i32)>) -> (r: (Vec<(u32, u32)>, Vec<ManifestItem>))
    requires
        forall|a: int| 0 <= a < rc@.len() ==> (#[trigger] rc@[a]).1 > 0,
        forall|a: int, b: int| 0 <= a < b < delta@.len() ==> (#[trigger] delta@[a]).0 != (#[trigger] delta@[b]).0,
    ensures
        forall|a: int| 0 <= a < r.0@.len() ==> (#[trigger] r.0@[a]).1 > 0,
        forall|id: u32| r.1@.contains(ManifestItem::DelVSst(id)) ==> rc_of(r.0@, id) == 0,
        forall|id: u32| r.1@.contains(ManifestItem::DelVSst(id)) ==> exists|j: int| 0 <= j < delta@.len() && (#[trigger] delta@[j]).0 == id,
        forall|a: int| 0 <= a < delta@.len() && rc_of(rc@, (#[trigger] delta@[a]).0) + delta@[a].1 <= 0 ==> r.1@.contains(ManifestItem::DelVSst(delta@[a].0)),
        forall|a: int| 0 <= a < delta@.len() ==> rc_of(r.0@, (#[trigger] delta@[a]).0) == if rc_of(rc@, delta@[a].0) + delta@[a].1 <= 0 {
            0
        } else if rc_of(rc@, delta@[a].0) + delta@[a].1 > u32::MAX {
            u32::MAX as int
        } else {
            rc_of(rc@, delta@[a].0) + delta@[a].1
        },
{
    let mut cur: Vec<(u32, u32)> = rc;
    let mut items: Vec<ManifestItem> = Vec::new();
    let mut i: usize = 0;
    while i < delta.len()
        invariant
            i <= delta@.len(),
            forall|a: int, b: int| 0 <= a < b < delta@.len() ==> (#[trigger] delta@[a]).0 != (#[trigger] delta@[b]).0,
            forall|a: int| 0 <= a < cur@.len() ==> (#[trigger] cur@[a]).1 > 0,
            forall|id: u32| items@.contains(ManifestItem::DelVSst(id)) ==> rc_of(cur@, id) == 0,
            forall|id: u32| items@.contains(ManifestItem::DelVSst(id)) ==> exists|j: int| 0 <= j < i && (#[trigger] delta@[j]).0 == id,
            forall|a: int| 0 <= a < i && rc_of(rc@, (#[trigger] delta@[a]).0) + delta@[a].1 <= 0 ==> items@.contains(ManifestItem::DelVSst(delta@[a].0)),
            forall|x: u32| (forall|j: int| 0 <= j < i ==> (#[trigger] delta@[j]).0 != x) ==> rc_of(cur@, x) == rc_of(rc@, x),
            forall|a: int| 0 <= a < i ==> rc_of(cur@, (#[trigger] delta@[a]).0) == if rc_of(rc@, delta@[a].0) + delta@[a].1 <= 0 {
                0
            } else if rc_of(rc@, delta@[a].0) + delta@[a].1 > u32::MAX {
                u32::MAX as int
            } else {
                rc_of(rc@, delta@[a].0) + delta@[a].1
            },
        decreases delta.len() - i,
    {
        let (id, d) = delta[i];
        let old_count = count_of(&cur, id);
        proof {
            assert forall|j: int| 0 <= j < i implies (#[trigger] delta@[j]).0 != id by {}
        }
        let new_count: i64 = old_count as i64 + d as i64;
        let ghost before = cur@;
        let ghost items0 = items@;
        cur = without_id(&cur, id);
        proof { lemma_rc_of_without(cur@, id); }
        let ghost mid = cur@;
        if new_count <= 0 {
            items.push(ManifestItem::VSstRefCnt(id, 0));
            items.push(ManifestItem::DelVSst(id));
        } else {
            let n: u32 = if new_count > u32::MAX as i64 { u32::MAX } else { new_count as u32 };
            cur.push((id, n));
            items.push(ManifestItem::VSstRefCnt(id, n));
            assert(cur@.drop_last() =~= mid);
        }
        proof {
            assert forall|x: u32| x != id implies rc_of(cur@, x) == rc_of(before, x) by {
                if cur@.len() > mid.len() {
                    assert(cur@.drop_last() =~= mid);
                }
            }
            assert forall|x: u32| items@.contains(ManifestItem::DelVSst(x)) implies exists|j: int| 0 <= j < i + 1 && (#[trigger] delta@[j]).0 == x by {
                let k = choose|k: int| 0 <= k < items@.len() && items@[k] == ManifestItem::DelVSst(x);
                if k < items0.len() {
                    assert(items0[k] == items@[k]);
                    assert(items0.contains(ManifestItem::DelVSst(x)));
                } else {
                    assert(x == id);
                    assert(delta@[i as int].0 == x);
                }
            }
            assert forall|x: u32| items@.contains(ManifestItem::DelVSst(x)) implies rc_of(cur@, x) == 0 by {
                let k = choose|k: int| 0 <= k < items@.len() && items@[k] == ManifestItem::DelVSst(x);
                if k < items0.len() {
                    assert(items0[k] == items@[k]);
                    assert(items0.contains(ManifestItem::DelVSst(x)));
                    let j = choose|j: int| 0 <= j < i && (#[trigger] delta@[j]).0 == x;
                    assert(x != id);
                } else {
                    assert(x == id);
                }
            }
            assert forall|a: int| 0 <= a < i + 1 && rc_of(rc@, (#[trigger] delta@[a]).0) + delta@[a].1 <= 0 implies items@.contains(ManifestItem::DelVSst(delta@[a].0)) by {
                if a < i {
                    let k = choose|k: int| 0 <= k < items0.len() && items0[k] == ManifestItem::DelVSst(delta@[a].0);
                    assert(items@[k] == items0[k]);
                } else {
                    assert(rc_of(before, id) == rc_of(rc@, id));
                    assert(items@[items@.len() - 1] == ManifestItem::DelVSst(id));
                }
            }
            assert forall|x: u32| (forall|j: int| 0 <= j < i + 1 ==> (#[trigger] delta@[j]).0 != x) implies rc_of(cur@, x) == rc_of(rc@, x) by {
                assert(delta@[i as int].0 != x);
                assert forall|j: int| 0 <= j < i implies (#[trigger] delta@[j]).0 != x by {}
            }
            assert forall|a: int| 0 <= a < i + 1 implies rc_of(cur@, (#[trigger] delta@[a]).0) == if rc_of(rc@, delta@[a].0) + delta@[a].1 <= 0 {
                0
            } else if rc_of(rc@, delta@[a].0) + delta@[a].1 > u32::MAX {
                u32::MAX as int
            } else {
                rc_of(rc@, delta@[a].0) + delta@[a].1
            } by {
                if a < i {
                    assert(delta@[a].0 != id);
                } else {
                    assert(rc_of(before, id) == rc_of(rc@, id));
                }
            }
        }
        i = i + 1;
    }
    (cur, items)
}

/// The count stored for `id` (0 when absent).
fn count_of(rc: &Vec<(u32, u32)>, id: u32) -> (r: u32)
    ensures
        r == rc_of(rc@, id),
{
    let mut i: usize = rc.len();
    assert(rc@.subrange(0, i as int) =~= rc@);
    while i > 0
        invariant
            i <= rc@.len(),
            rc_of(rc@, id) == rc_of(rc@.subrange(0, i as int), id),
        decreases i,
    {
        proof {
            assert(rc@.subrange(0, i as int).drop_last() =~= rc@.subrange(0, i as int - 1));
            assert(rc@.subrange(0, i as int).last() == rc@[i - 1]);
        }
        if rc[i - 1].0 == id {
            return rc[i - 1].1;
        }
        i = i - 1;
    }
    0
}

/// `rc` without the pairs of `id`.
fn without_id(rc: &Vec<(u32, u32)>, id: u32) -> (r: Vec<(u32, u32)>)
    ensures
        forall|a: int| 0 <= a < r@.len() ==> (#[trigger] r@[a]).0 != id,
        (forall|a: int| 0 <= a < rc@.len() ==> (#[trigger] rc@[a]).1 > 0) ==> forall|a: int| 0 <= a < r@.len() ==> (#[trigger] r@[a]).1 > 0,
        forall|x: u32| x != id ==> rc_of(r@, x) == rc_of(rc@, x),
{
    let mut out: Vec<(u32, u32)> = Vec::new();
    let mut i: usize = 0;
    while i < rc.len()
        invariant
            i <= rc@.len(),
            forall|a: int| 0 <= a < out@.len() ==> (#[trigger] out@[a]).0 != id,
            (forall|a: int| 0 <= a < rc@.len() ==> (#[trigger] rc@[a]).1 > 0) ==> forall|a: int| 0 <= a < out@.len() ==> (#[trigger] out@[a]).1 > 0,
            forall|x: u32| x != id ==> rc_of(out@, x) == rc_of(rc@.subrange(0, i as int), x),
        decreases rc.len() - i,
    {
        let ghost before = out@;
        proof {
            assert(rc@.subrange(0, i as int + 1).drop_last() =~= rc@.subrange(0, i as int));
            assert(rc@.subrange(0, i as int + 1).last() == rc@[i as int]);
        }
        if rc[i].0 != id {
            out.push(rc[i]);
            proof {
                assert(out@.drop_last() =~= before);
                assert(out@.last() == rc@[i as int]);
            }
        }
        proof {
            assert forall|x: u32| x != id implies rc_of(out@, x) == rc_of(rc@.subrange(0, i as int + 1), x) by {
                assert(rc_of(before, x) == rc_of(rc@.subrange(0, i as int), x));
            }
        }
        i = i + 1;
    }
    assert(rc@.subrange(0, i as int) =~= rc@);
    out
}

proof fn lemma_rc_of_without(after: Seq<(u32, u32)>, id: u32)
    requires
        forall|a: int| 0 <= a < after.len() ==> (#[trigger] after[a]).0 != id,
    ensures
        rc_of(after, id) == 0,
    decreases after.len(),
{
    if after.len() > 0 {
        assert forall|a: int| 0 <= a < after.drop_last().len() implies (#[trigger] after.drop_last()[a]).0 != id by {
            assert(after.drop_last()[a] == after[a]);
        }
        lemma_rc_of_without(after.drop_last(), id);
    }
}

/// Freezes the active journal: the catalog's journal becomes frozen and
/// `new_log` active. Returns the manifest item that records it.
pub fn freeze_step(c: &mut Catalog, new_log: u32) -> (r: ManifestItem)
    ensures
        r == ManifestItem::FreezeAndCreateWal(old(c).log_id, new_log),
        final(c)@ == apply_item(old(c)@, r),
{
    let item = ManifestItem::FreezeAndCreateWal(c.log_id, new_log);
    c.apply(item);
    item
}

/// The manifest items that install a flushed memtable.
pub open spec fn flush_items(sst_id: u32, vsst: Option<(u32, u32)>, seq: u64, old_log: u32) -> Seq<ManifestItem> {
    seq![ManifestItem::NewSst(0, sst_id)] + match vsst {
        Some((id, n)) => seq![ManifestItem::NewVSst(id), ManifestItem::VSstRefCnt(id, n)],
        None => Seq::<ManifestItem>::empty(),
    } + seq![ManifestItem::MaxSeqNum(seq), ManifestItem::DelFrozenWal(old_log)]
}

/// Installs a flushed memtable: its table at level 0, its value table (with
/// `n` references) if any, the sequence number, and the removal of the
/// frozen journal. Returns the items that record it, which replay to the new
/// catalog.
pub fn flush_install(c: &mut Catalog, sst_id: u32, vsst: Option<(u32, u32)>, seq: u64, old_log: u32) -> (r: Vec<ManifestItem>)
    ensures
        r@ == flush_items(sst_id, vsst, seq, old_log),
        final(c)@ == replay_from(old(c)@, r@),
{
    let mut items: Vec<ManifestItem> = Vec::new();
    items.push(ManifestItem::NewSst(0, sst_id));
    if let Some((id, n)) = vsst {
        items.push(ManifestItem::NewVSst(id));
        items.push(ManifestItem::VSstRefCnt(id, n));
    }
    items.push(ManifestItem::MaxSeqNum(seq));
    items.push(ManifestItem::DelFrozenWal(old_log));
    assert(items@ =~= flush_items(sst_id, vsst, seq, old_log));
    c.apply_items(&items);
    items
}

/// The items that record a compaction's tables: the retired tables of both
/// levels leave, the new tables join the lower level, the new value table
/// (if any) is created.
pub open spec fn compaction_table_items(level: u32, retired: Seq<u32>, retired_next: Seq<u32>, new_ssts: Seq<u32>, new_vsst: Option<u32>) -> Seq<ManifestItem> {
    retired.map_values(|id: u32| ManifestItem::DelSst(level, id))
        + retired_next.map_values(|id: u32| ManifestItem::DelSst((level + 1) as u32, id))
        + new_ssts.map_values(|id: u32| ManifestItem::NewSst((level + 1) as u32, id))
        + match new_vsst {
            Some(v) => seq![ManifestItem::NewVSst(v)],
            None => Seq::<ManifestItem>::empty(),
        }
}

fn push_mapped(items: &mut Vec<ManifestItem>, ids: &Vec<u32>, level: u32, new: bool)
    ensures
        final(items)@ == old(items)@ + ids@.map_values(|id: u32| if new { ManifestItem::NewSst(level, id) } else { ManifestItem::DelSst(level, id) }),
{
    let mut i: usize = 0;
    let ghost start = items@;
    while i < ids.len()
        invariant
            i <= ids@.len(),
            items@ == start + ids@.subrange(0, i as int).map_values(|id: u32| if new { ManifestItem::NewSst(level, id) } else { ManifestItem::DelSst(level, id) }),
        decreases ids.len() - i,
    {
        if new {
            items.push(ManifestItem::NewSst(level, ids[i]));
        } else {
            items.push(ManifestItem::DelSst(level, ids[i]));
        }
        proof {
            assert(ids@.subrange(0, i as int + 1).map_values(|id: u32| if new { ManifestItem::NewSst(level, id) } else { ManifestItem::DelSst(level, id) }) =~= ids@.subrange(0, i as int).map_values(|id: u32| if new { ManifestItem::NewSst(level, id) } else { ManifestItem::DelSst(level, id) }).push(if new { ManifestItem::NewSst(level, ids@[i as int]) } else { ManifestItem::DelSst(level, ids@[i as int]) }));
        }
        i = i + 1;
    }
    assert(ids@.subrange(0, i as int) =~= ids@);
}

/// The count a value table has after a change of `d` to its count `c`: the
/// sum, or 0 when that is not positive, saturating at `u32::MAX`.
pub open spec fn changed_count(c: int, d: i32) -> int {
    if c + d <= 0 {
        0
    } else if c + d > u32::MAX {
        u32::MAX as int
    } else {
        c + d
    }
}

proof fn lemma_rc_of_remove_key(s: Seq<(u32, u32)>, x: u32, y: u32)
    ensures
        rc_of(remove_key(s, x), y) == if x == y { 0 } else { rc_of(s, y) },
    decreases s.len(),
{
    if s.len() > 0 {
        lemma_rc_of_remove_key(s.drop_last(), x, y);
        if s.last().0 != x {
            assert(remove_key(s, x).drop_last() =~= remove_key(s.drop_last(), x));
        }
    }
}

/// Replaying items that neither set nor delete a reference count leaves the
/// counts as they are.
proof fn lemma_replay_keeps_rc(c: CatalogView, items: Seq<ManifestItem>)
    requires
        forall|k: int| 0 <= k < items.len() ==> !((#[trigger] items[k]) is VSstRefCnt) && !(items[k] is DelVSst),
    ensures
        replay_from(c, items).vsst_rc == c.vsst_rc,
    decreases items.len(),
{
    if items.len() > 0 {
        assert forall|k: int| 0 <= k < items.drop_last().len() implies !((#[trigger] items.drop_last()[k]) is VSstRefCnt) && !(items.drop_last()[k] is DelVSst) by {
            assert(items.drop_last()[k] == items[k]);
        }
        lemma_replay_keeps_rc(c, items.drop_last());
        assert(items[items.len() - 1] == items.last());
    }
}

/// Installs a compaction of `level` into the next one: the table items of
/// `compaction_table_items`, then, for each change in `delta`, the new count
/// of its value table, and the table's deletion when the count is no longer
/// positive. Returns all the items, which replay to the new catalog.
pub fn compaction_install(
    c: &mut Catalog,
    level: u32,
    retired: &Vec<u32>,
    retired_next: &Vec<u32>,
    new_ssts: &Vec<u32>,
    new_vsst: Option<u32>,
    delta: &Vec<(u32, i32)>,
) -> (r: Vec<ManifestItem>)
    requires
        level + 1 < SST_LEVEL_LIMIT,
        forall|a: int, b: int| 0 <= a < b < delta@.len() ==> (#[trigger] delta@[a]).0 != (#[trigger] delta@[b]).0,
    ensures
        final(c)@ == replay_from(old(c)@, r@),
        r@.subrange(0, compaction_table_items(level, retired@, retired_next@, new_ssts@, new_vsst).len() as int) == compaction_table_items(level, retired@, retired_next@, new_ssts@, new_vsst),
        forall|a: int| 0 <= a < delta@.len() ==> rc_of(final(c).vsst_rc@, (#[trigger] delta@[a]).0) == changed_count(rc_of(old(c).vsst_rc@, delta@[a].0), delta@[a].1),
        forall|x: u32| (forall|a: int| 0 <= a < delta@.len() ==> (#[trigger] delta@[a]).0 != x) ==> rc_of(final(c).vsst_rc@, x) == rc_of(old(c).vsst_rc@, x),
        forall|id: u32| r@.contains(ManifestItem::DelVSst(id)) ==> exists|a: int| 0 <= a < delta@.len() && (#[trigger] delta@[a]).0 == id,
        forall|a: int| 0 <= a < delta@.len() && rc_of(old(c).vsst_rc@, (#[trigger] delta@[a]).0) + delta@[a].1 <= 0 ==> r@.contains(ManifestItem::DelVSst(delta@[a].0)),
{
    let ghost c0 = c@;
    let mut items: Vec<ManifestItem> = Vec::new();
    push_mapped(&mut items, retired, level, false);
    push_mapped(&mut items, retired_next, level + 1, false);
    push_mapped(&mut items, new_ssts, level + 1, true);
    if let Some(v) = new_vsst {
        items.push(ManifestItem::NewVSst(v));
    }
    let ghost table_items = items@;
    assert(table_items =~= compaction_table_items(level, retired@, retired_next@, new_ssts@, new_vsst));
    c.apply_items(&items);
    proof {
        assert forall|k: int| 0 <= k < table_items.len() implies !((#[trigger] table_items[k]) is VSstRefCnt) && !(table_items[k] is DelVSst) by {
            lemma_table_items_kinds(level, retired@, retired_next@, new_ssts@, new_vsst, k);
        }
        lemma_replay_keeps_rc(c0, table_items);
    }
    let ghost rc0 = c0.vsst_rc;
    let mut i: usize = 0;
    while i < delta.len()
        invariant
            i <= delta@.len(),
            forall|a: int, b: int| 0 <= a < b < delta@.len() ==> (#[trigger] delta@[a]).0 != (#[trigger] delta@[b]).0,
            c@ == replay_from(c0, items@),
            items@.subrange(0, table_items.len() as int) == table_items,
            table_items.len() <= items@.len(),
            forall|a: int| 0 <= a < i ==> rc_of(c.vsst_rc@, (#[trigger] delta@[a]).0) == changed_count(rc_of(rc0, delta@[a].0), delta@[a].1),
            forall|x: u32| (forall|a: int| 0 <= a < i ==> (#[trigger] delta@[a]).0 != x) ==> rc_of(c.vsst_rc@, x) == rc_of(rc0, x),
            forall|k: int| 0 <= k < table_items.len() ==> !((#[trigger] table_items[k]) is DelVSst),
            forall|id: u32| items@.contains(ManifestItem::DelVSst(id)) ==> exists|a: int| 0 <= a < i && (#[trigger] delta@[a]).0 == id,
            forall|a: int| 0 <= a < i && rc_of(rc0, (#[trigger] delta@[a]).0) + delta@[a].1 <= 0 ==> items@.contains(ManifestItem::DelVSst(delta@[a].0)),
        decreases delta.len() - i,
    {
        let (id, d) = delta[i];
        proof {
            assert forall|a: int| 0 <= a < i implies (#[trigger] delta@[a]).0 != id by {}
        }
        let old_count = count_of(&c.vsst_rc, id);
        let new_count: i64 = old_count as i64 + d as i64;
        let ghost rc_before = c.vsst_rc@;
        let ghost items0 = items@;
        assert(rc_of(rc_before, id) == rc_of(rc0, id));
        if new_count <= 0 {
            let i1 = ManifestItem::VSstRefCnt(id, 0);
            let i2 = ManifestItem::DelVSst(id);
            items.push(i1);
            c.apply(i1);
            items.push(i2);
            c.apply(i2);
            proof {
                assert(items@.drop_last().drop_last() =~= items0);
                assert(items@.drop_last() =~= items0.push(i1));
                assert(items0.push(i1).drop_last() =~= items0);
                assert(replay_from(c0, items0.push(i1)) == apply_item(replay_from(c0, items0), i1));
                assert(replay_from(c0, items@) == apply_item(replay_from(c0, items@.drop_last()), i2));
                let mid = remove_key(rc_before, id).push((id, 0u32));
                assert forall|x: u32| #[trigger] rc_of(c.vsst_rc@, x) == if x == id { 0 } else { rc_of(rc_before, x) } by {
                    lemma_rc_of_remove_key(mid, id, x);
                    lemma_rc_of_remove_key(rc_before, id, x);
                    assert(mid.drop_last() =~= remove_key(rc_before, id));
                }
            }
        } else {
            let n: u32 = if new_count > u32::MAX as i64 { u32::MAX } else { new_count as u32 };
            let i1 = ManifestItem::VSstRefCnt(id, n);
            items.push(i1);
            c.apply(i1);
            proof {
                assert(items@.drop_last() =~= items0);
                assert(replay_from(c0, items@) == apply_item(replay_from(c0, items@.drop_last()), i1));
                assert forall|x: u32| #[trigger] rc_of(c.vsst_rc@, x) == if x == id { n as int } else { rc_of(rc_before, x) } by {
                    lemma_rc_of_remove_key(rc_before, id, x);
                    assert(remove_key(rc_before, id).push((id, n)).drop_last() =~= remove_key(rc_before, id));
                }
            }
        }
        proof {
            assert(items@.subrange(0, table_items.len() as int) =~= items0.subrange(0, table_items.len() as int));
            assert forall|x: u32| items@.contains(ManifestItem::DelVSst(x)) implies exists|a: int| 0 <= a < i + 1 && (#[trigger] delta@[a]).0 == x by {
                let k = choose|k: int| 0 <= k < items@.len() && items@[k] == ManifestItem::DelVSst(x);
                if k < items0.len() {
                    assert(items0[k] == items@[k]);
                    assert(items0.contains(ManifestItem::DelVSst(x)));
                } else {
                    assert(x == id);
                    assert(delta@[i as int].0 == x);
                }
            }
            assert forall|a: int| 0 <= a < i + 1 && rc_of(rc0, (#[trigger] delta@[a]).0) + delta@[a].1 <= 0 implies items@.contains(ManifestItem::DelVSst(delta@[a].0)) by {
                if a < i {
                    let k = choose|k: int| 0 <= k < items0.len() && items0[k] == ManifestItem::DelVSst(delta@[a].0);
                    assert(items@[k] == items0[k]);
                } else {
                    assert(items@[items@.len() - 1] == ManifestItem::DelVSst(id));
                }
            }
            assert forall|x: u32| (forall|a: int| 0 <= a < i + 1 ==> (#[trigger] delta@[a]).0 != x) implies rc_of(c.vsst_rc@, x) == rc_of(rc0, x) by {
                assert(delta@[i as int].0 != x);
                assert forall|a: int| 0 <= a < i implies (#[trigger] delta@[a]).0 != x by {}
            }
            assert forall|a: int| 0 <= a < i + 1 implies rc_of(c.vsst_rc@, (#[trigger] delta@[a]).0) == changed_count(rc_of(rc0, delta@[a].0), delta@[a].1) by {
                if a < i {
                    assert(delta@[a].0 != id);
                }
            }
        }
        i = i + 1;
    }
    proof {
        assert forall|id: u32| items@.contains(ManifestItem::DelVSst(id)) implies exists|a: int| 0 <= a < delta@.len() && (#[trigger] delta@[a]).0 == id by {
            let a = choose|a: int| 0 <= a < i && (#[trigger] delta@[a]).0 == id;
        }
    }
    items
}

proof fn lemma_table_items_kinds(level: u32, retired: Seq<u32>, retired_next: Seq<u32>, new_ssts: Seq<u32>, new_vsst: Option<u32>, k: int)
    requires
        0 <= k < compaction_table_items(level, retired, retired_next, new_ssts, new_vsst).len(),
    ensures
        !(compaction_table_items(level, retired, retired_next, new_ssts, new_vsst)[k] is DelVSst),
        !(compaction_table_items(level, retired, retired_next, new_ssts, new_vsst)[k] is VSstRefCnt),
{
    let a = retired.map_values(|id: u32| ManifestItem::DelSst(level, id));
    let b = retired_next.map_values(|id: u32| ManifestItem::DelSst((level + 1) as u32, id));
    let n = new_ssts.map_values(|id: u32| ManifestItem::NewSst((level + 1) as u32, id));
    let t = compaction_table_items(level, retired, retired_next, new_ssts, new_vsst);
    if k < a.len() {
        assert(t[k] == a[k]);
    } else if k < a.len() + b.len() {
        assert(t[k] == b[k - a.len()]);
    } else if k < a.len() + b.len() + n.len() {
        assert(t[k] == n[k - a.len() - b.len()]);
    }
}

/// The order of a compaction's sources, newest first: the upper level's
/// tables from the last added back, then the lower level's.
pub fn compaction_sources(upper: &Vec<u32>, lower: &Vec<u32>) -> (r: Vec<u32>)
    ensures
        r@ == upper@.reverse() + lower@,
{
    let mut r: Vec<u32> = Vec::new();
    let mut i: usize = upper.len();
    while i > 0
        invariant
            i <= upper@.len(),
            r@ == upper@.subrange(i as int, upper@.len() as int).reverse(),
        decreases i,
    {
        i = i - 1;
        r.push(upper[i]);
        proof {
            assert(upper@.subrange(i as int, upper@.len() as int).reverse() =~= upper@.subrange(i + 1, upper@.len() as int).reverse().push(upper@[i as int]));
        }
    }
    let mut j: usize = 0;
    let ghost base = r@;
    while j < lower.len()
        invariant
            j <= lower@.len(),
            r@ == base + lower@.subrange(0, j as int),
        decreases lower.len() - j,
    {
        r.push(lower[j]);
        proof {
            assert(lower@.subrange(0, j as int + 1) =~= lower@.subrange(0, j as int).push(lower@[j as int]));
        }
        j = j + 1;
    }
    assert(upper@.subrange(0, upper@.len() as int) =~= upper@);
    assert(lower@.subrange(0, j as int) =~= lower@);
    r
}

/// What a table entry found for a key means to a reader.
pub enum ReadOutcome {
    /// The key is deleted.
    Deleted,
    /// The value is held in the entry.
    Value(Vec<u8>),
    /// The value is in this value table, under the same key.
    InVsst(u32),
    /// A separated entry too short to hold a value-table id.
    BadRef,
}

/// What a reader makes of the newest entry found for its key.
pub fn read_outcome(e: &Entry) -> (r: ReadOutcome)
    ensures
        OpType::spec_from((e.meta & 0xFFu32) as u8) == OpType::Delete ==> r is Deleted,
        OpType::spec_from((e.meta & 0xFFu32) as u8) != OpType::Delete ==> match r {
            ReadOutcome::Value(v) => !crate::entry::spec_is_separate(e.meta) && v@ == e.value@,
            ReadOutcome::InVsst(id) => vsst_ref(e@) == Some(id),
            ReadOutcome::BadRef => crate::entry::spec_is_separate(e.meta) && vsst_ref(e@) is None,
            ReadOutcome::Deleted => false,
        },
{
    if matches!(e.op_type(), OpType::Delete) {
        return ReadOutcome::Deleted;
    }
    if !e.value_separate() {
        return ReadOutcome::Value(e.value.clone());
    }
    match entry_vsst_ref(e) {
        Some(id) => ReadOutcome::InVsst(id),
        None => ReadOutcome::BadRef,
    }
}

/// The entry that refers to the value table `new_id` instead, with the same
/// key and operation.
pub fn redirect_entry(e: &Entry, new_id: u32) -> (r: Entry)
    ensures
        r.key@ == e.key@,
        r.value@ == le_u32(new_id),
        r.meta == (OpType::spec_from((e.meta & 0xFFu32) as u8).spec_encode() as u32) | SEPARATE_BIT,
{
    let mut id_bytes: Vec<u8> = Vec::new();
    put_u32_le(&mut id_bytes, new_id);
    make_entry(e.op_type(), true, e.key.clone(), id_bytes)
}

/// Adds `by` to the change of `id` (saturating), keeping ids once each.
pub fn bump_delta(delta: &mut Vec<(u32, i32)>, id: u32, by: i32)
    requires
        forall|a: int, b: int| 0 <= a < b < old(delta)@.len() ==> (#[trigger] old(delta)@[a]).0 != (#[trigger] old(delta)@[b]).0,
    ensures
        forall|a: int, b: int| 0 <= a < b < final(delta)@.len() ==> (#[trigger] final(delta)@[a]).0 != (#[trigger] final(delta)@[b]).0,
        exists|a: int| 0 <= a < final(delta)@.len() && (#[trigger] final(delta)@[a]).0 == id,
        forall|a: int| 0 <= a < old(delta)@.len() && (#[trigger] old(delta)@[a]).0 != id ==> final(delta)@.contains(old(delta)@[a]),
{
    let mut j: usize = 0;
    while j < delta.len()
        invariant
            j <= delta@.len(),
            forall|a: int| 0 <= a < j ==> (#[trigger] delta@[a]).0 != id,
            delta@ == old(delta)@,
            forall|a: int, b: int| 0 <= a < b < old(delta)@.len() ==> (#[trigger] old(delta)@[a]).0 != (#[trigger] old(delta)@[b]).0,
        decreases delta.len() - j,
    {
        if delta[j].0 == id {
            let d = delta[j].1;
            let nd: i32 = if by >= 0 {
                if d > i32::MAX - by { i32::MAX } else { d + by }
            } else {
                if d < i32::MIN - by { i32::MIN } else { d + by }
            };
            let ghost before = delta@;
            delta.set(j, (id, nd));
            proof {
                assert forall|a: int, b: int| 0 <= a < b < delta@.len() implies (#[trigger] delta@[a]).0 != (#[trigger] delta@[b]).0 by {
                    assert(before == old(delta)@);
                    assert(delta@[a].0 == before[a].0);
                    assert(delta@[b].0 == before[b].0);
                    assert(old(delta)@[a].0 != old(delta)@[b].0);
                }
                assert forall|a: int| 0 <= a < before.len() && (#[trigger] before[a]).0 != id implies delta@.contains(before[a]) by {
                    assert(delta@[a] == before[a]);
                }
                assert(delta@[j as int].0 == id);
            }
            return;
        }
        j = j + 1;
    }
    let ghost before = delta@;
    delta.push((id, by));
    proof {
        assert forall|a: int| 0 <= a < before.len() && (#[trigger] before[a]).0 != id implies delta@.contains(before[a]) by {
            assert(delta@[a] == before[a]);
        }
        assert(delta@[before.len() as int].0 == id);
    }
}

/// The number of entries stored for value table `id` in `totals` (0 when
/// absent).
pub open spec fn total_of(totals: Seq<(u32, u64)>, id: u32) -> u64
    decreases totals.len(),
{
    if totals.len() == 0 {
        0
    } else if totals.last().0 == id {
        totals.last().1
    } else {
        total_of(totals.drop_last(), id)
    }
}

fn total_lookup(totals: &Vec<(u32, u64)>, id: u32) -> (r: u64)
    ensures
        r == total_of(totals@, id),
{
    let mut i: usize = totals.len();
    assert(totals@.subrange(0, i as int) =~= totals@);
    while i > 0
        invariant
            i <= totals@.len(),
            total_of(totals@, id) == total_of(totals@.subrange(0, i as int), id),
        decreases i,
    {
        proof {
            assert(totals@.subrange(0, i as int).drop_last() =~= totals@.subrange(0, i as int - 1));
            assert(totals@.subrange(0, i as int).last() == totals@[i - 1]);
        }
        if totals[i - 1].0 == id {
            return totals[i - 1].1;
        }
        i = i - 1;
    }
    0
}

/// Whether a merged entry's value moves to the new value table: it refers
/// to a value table whose holes pass the spare ratio.
pub open spec fn moves_value(e: EntryView, rc: Seq<(u32, u32)>, totals: Seq<(u32, u64)>) -> bool {
    &&& OpType::spec_from((e.meta & 0xFFu32) as u8) != OpType::Delete
    &&& vsst_ref(e) matches Some(id)
    &&& rc_of(rc, id) <= total_of(totals, id)
    &&& (total_of(totals, id) - rc_of(rc, id)) * SPARE_DEN > total_of(totals, id) * SPARE_NUM
}

/// Plans the value-table rewrite of a compaction's merged entries: each entry
/// whose value moves (see `moves_value`) refers to `new_id` instead, and its
/// index is listed; the reference-count changes move one reference from the
/// old table to the new one for each. Other entries stay as they are.
pub fn plan_rewrites(
    out: &Vec<Entry>,
    rc: &Vec<(u32, u32)>,
    totals: &Vec<(u32, u64)>,
    new_id: u32,
    delta: &mut Vec<(u32, i32)>,
) -> (r: (Vec<Entry>, Vec<usize>))
    requires
        forall|a: int, b: int| 0 <= a < b < old(delta)@.len() ==> (#[trigger] old(delta)@[a]).0 != (#[trigger] old(delta)@[b]).0,
    ensures
        r.0@.len() == out@.len(),
        forall|i: int| 0 <= i < out@.len() ==> if moves_value(out@[i]@, rc@, totals@) {
            (#[trigger] r.0@[i]).key@ == out@[i].key@ && r.0@[i].value@ == le_u32(new_id)
                && r.0@[i].meta == (OpType::spec_from((out@[i].meta & 0xFFu32) as u8).spec_encode() as u32) | SEPARATE_BIT
        } else {
            r.0@[i]@ == out@[i]@
        },
        forall|i: int| 0 <= i < out@.len() ==> (moves_value(out@[i]@, rc@, totals@) <==> r.1@.contains(i as usize)),
        forall|a: int, b: int| 0 <= a < b < r.1@.len() ==> (#[trigger] r.1@[a]) < (#[trigger] r.1@[b]),
        forall|a: int, b: int| 0 <= a < b < final(delta)@.len() ==> (#[trigger] final(delta)@[a]).0 != (#[trigger] final(delta)@[b]).0,
{
    let mut outputs: Vec<Entry> = Vec::new();
    let mut moved: Vec<usize> = Vec::new();
    let mut i: usize = 0;
    while i < out.len()
        invariant
            i <= out@.len(),
            outputs@.len() == i,
            forall|a: int, b: int| 0 <= a < b < delta@.len() ==> (#[trigger] delta@[a]).0 != (#[trigger] delta@[b]).0,
            forall|j: int| 0 <= j < i ==> if moves_value(out@[j]@, rc@, totals@) {
                (#[trigger] outputs@[j]).key@ == out@[j].key@ && outputs@[j].value@ == le_u32(new_id)
                    && outputs@[j].meta == (OpType::spec_from((out@[j].meta & 0xFFu32) as u8).spec_encode() as u32) | SEPARATE_BIT
            } else {
                outputs@[j]@ == out@[j]@
            },
            forall|j: int| 0 <= j < out@.len() ==> (j < i && moves_value(out@[j]@, rc@, totals@) <==> moved@.contains(j as usize)),
            forall|a: int, b: int| 0 <= a < b < moved@.len() ==> (#[trigger] moved@[a]) < (#[trigger] moved@[b]),
            forall|a: int| 0 <= a < moved@.len() ==> (#[trigger] moved@[a]) < i,
        decreases out.len() - i,
    {
        let e = &out[i];
        let ghost before = outputs@;
        let ghost mv0 = moved@;
        let target = match read_outcome(e) {
            ReadOutcome::InVsst(id) => {
                let live = count_of(rc, id) as u64;
                let total = total_lookup(totals, id);
                if vsst_needs_rewrite(live, total) {
                    Some(id)
                } else {
                    None
                }
            },
            _ => None,
        };
        match target {
            Some(old_id) => {
                outputs.push(redirect_entry(e, new_id));
                moved.push(i);
                bump_delta(delta, old_id, -1);
                bump_delta(delta, new_id, 1);
            },
            None => {
                outputs.push(e.duplicate());
            },
        }
        proof {
            assert forall|j: int| 0 <= j < i + 1 implies if moves_value(out@[j]@, rc@, totals@) {
                (#[trigger] outputs@[j]).key@ == out@[j].key@ && outputs@[j].value@ == le_u32(new_id)
                    && outputs@[j].meta == (OpType::spec_from((out@[j].meta & 0xFFu32) as u8).spec_encode() as u32) | SEPARATE_BIT
            } else {
                outputs@[j]@ == out@[j]@
            } by {
                if j < i {
                    assert(outputs@[j] == before[j]);
                }
            }
            assert forall|j: int| 0 <= j < out@.len() implies (j < i + 1 && moves_value(out@[j]@, rc@, totals@) <==> moved@.contains(j as usize)) by {
                if moved@.contains(j as usize) && j != i {
                    let k = choose|k: int| 0 <= k < moved@.len() && moved@[k] == j as usize;
                    if k < mv0.len() {
                        assert(mv0[k] == moved@[k]);
                        assert(mv0.contains(j as usize));
                    }
                }
                if j < i && moves_value(out@[j]@, rc@, totals@) {
                    let k = choose|k: int| 0 <= k < mv0.len() && mv0[k] == j as usize;
                    assert(moved@[k] == mv0[k]);
                }
                if j == i && moved@.contains(j as usize) {
                    let k = choose|k: int| 0 <= k < moved@.len() && moved@[k] == j as usize;
                    if k < mv0.len() {
                        assert(mv0[k] < i);
                    }
                }
                if j == i && moves_value(out@[j]@, rc@, totals@) {
                    assert(moved@[moved@.len() - 1] == i);
                }
            }
        }
        i = i + 1;
    }
    (outputs, moved)
}

/// One step of looking a key up in a table: the block cursor stands after a
/// seek for `key` in block `idx` of `n_blocks`.
pub enum LookupStep {
    /// The newest entry of the key in this table.
    Found(Entry),
    /// The table holds no entry of the key.
    Absent,
    /// The search goes on at the first entry of this block.
    NextBlock(usize),
}

/// Decides a lookup step from where the seek left the block cursor: at an
/// entry of the key, at a later key, or past the block's end (then the next
/// block, if any, is read).
pub fn lookup_step(it: &BlockIterator, key: &[u8], idx: usize, n_blocks: usize) -> (r: LookupStep)
    ensures
        it.valid() && it.entries@[it.idx as int].key@ == key@ ==> (r matches LookupStep::Found(e) && e@ == it.entries@[it.idx as int]@),
        it.valid() && it.entries@[it.idx as int].key@ != key@ ==> r is Absent,
        !it.valid() ==> (if idx + 1 < n_blocks { r == LookupStep::NextBlock((idx + 1) as usize) } else { r is Absent }),
{
    if it.is_valid() {
        let k = it.key();
        if matches!(compare_bytes(k, key), Ordering::Equal) {
            LookupStep::Found(it.entry().duplicate())
        } else {
            LookupStep::Absent
        }
    } else if idx < n_blocks && idx + 1 < n_blocks {
        LookupStep::NextBlock(idx + 1)
    } else {
        LookupStep::Absent
    }
}

} // verus!
