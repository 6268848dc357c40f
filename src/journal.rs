//! The write-ahead journal: records of entries, and their replay.
use vstd::prelude::*;
use std::sync::Arc;
use crate::entry::{Entry, EntryView, entry_fits, spec_entry_encode, spec_entry_decode, lemma_entry_decode_encode, lemma_entry_decode_len};
use crate::record::{Record, RecordBuilder, RecordItem, spec_record_encode, spec_log_records, decode_log, all_fit, lemma_record_round_trip};
use crate::memtable::{MemTable, MemKeyView, visible_is, is_candidate, is_newest, versions_not_after, code_put, code_delete, mk_le};
use crate::value::{Key, OpType};

verus! {

/// An entry framed in a journal record.
#[derive(Clone, Debug)]
pub struct JournalItem(pub Entry);

impl View for JournalItem {
    type V = EntryView;

    open spec fn view(&self) -> EntryView {
        self.0@
    }
}

impl RecordItem for JournalItem {
    open spec fn spec_encode(v: EntryView) -> Seq<u8> {
        spec_entry_encode(v)
    }

    open spec fn spec_decode(s: Seq<u8>) -> Option<(EntryView, nat)> {
        spec_entry_decode(s)
    }

    open spec fn spec_fits(v: EntryView) -> bool {
        entry_fits(v)
    }

    proof fn lemma_decode_encode(v: EntryView, rest: Seq<u8>) {
        lemma_entry_decode_encode(v, rest);
    }

    proof fn lemma_decode_len(s: Seq<u8>) {
        lemma_entry_decode_len(s);
    }

    fn encode(&self) -> (r: Vec<u8>) {
        self.0.encode()
    }

    fn decode_at(data: &[u8], pos: usize) -> (r: Option<(JournalItem, usize)>) {
        match Entry::decode_at(data, pos) {
            Some((e, end)) => Some((JournalItem(e), end)),
            None => None,
        }
    }

    fn duplicate(&self) -> (r: JournalItem) {
        JournalItem(self.0.duplicate())
    }
}

/// The records that a journal's bytes hold: read from the start, up to the
/// end or the first record that does not read back whole (a torn tail).
pub open spec fn spec_journal_records(s: Seq<u8>) -> Seq<Seq<EntryView>> {
    spec_log_records::<JournalItem>(s)
}

/// The bytes of a journal holding one record per batch, in order.
pub open spec fn spec_journal_encode(batches: Seq<Seq<EntryView>>) -> Seq<u8>
    decreases batches.len(),
{
    if batches.len() == 0 {
        Seq::empty()
    } else {
        spec_record_encode::<JournalItem>(batches[0]) + spec_journal_encode(batches.drop_first())
    }
}

/// Every batch whose record was written whole is read back, in order, after
/// a crash, whatever bytes of an unfinished record follow them.
pub proof fn lemma_written_batches_survive(batches: Seq<Seq<EntryView>>, tail: Seq<u8>)
    requires
        forall|i: int| 0 <= i < batches.len() ==> all_fit::<JournalItem>(#[trigger] batches[i]) && batches[i].len() <= u64::MAX,
    ensures
        spec_journal_records(spec_journal_encode(batches) + tail) == batches + spec_journal_records(tail),
    decreases batches.len(),
{
    if batches.len() == 0 {
        assert(spec_journal_encode(batches) + tail =~= tail);
        assert(batches + spec_journal_records(tail) =~= spec_journal_records(tail));
    } else {
        let b0 = batches[0];
        let rest = batches.drop_first();
        assert forall|i: int| 0 <= i < rest.len() implies all_fit::<JournalItem>(#[trigger] rest[i]) && rest[i].len() <= u64::MAX by {
            assert(rest[i] == batches[i + 1]);
        }
        assert(all_fit::<JournalItem>(batches[0]));
        let after = spec_journal_encode(rest) + tail;
        let whole = spec_journal_encode(batches) + tail;
        assert(whole =~= spec_record_encode::<JournalItem>(b0) + after);
        lemma_record_round_trip::<JournalItem>(b0, after);
        let n = spec_record_encode::<JournalItem>(b0).len();
        assert(n >= 12);
        assert(whole.subrange(n as int, whole.len() as int) =~= after);
        lemma_written_batches_survive(rest, tail);
        assert(seq![b0] + (rest + spec_journal_records(tail)) =~= batches + spec_journal_records(tail));
    }
}

/// The bytes appended to a journal for one batch of entries.
pub fn encode_batch(batch: Vec<Entry>) -> (r: Vec<u8>)
    requires
        batch@.len() <= u64::MAX,
    ensures
        r@ == spec_record_encode::<JournalItem>(batch@.map_values(|e: Entry| e@)),
{
    let mut builder: RecordBuilder<JournalItem> = RecordBuilder::new();
    let mut i: usize = 0;
    while i < batch.len()
        invariant
            i <= batch@.len(),
            builder.items@.map_values(|x: JournalItem| x@) == batch@.subrange(0, i as int).map_values(|e: Entry| e@),
        decreases batch.len() - i,
    {
        let ghost before = builder.items@;
        let item = JournalItem(batch[i].duplicate());
        builder.add(item);
        proof {
            assert(builder.items@.map_values(|x: JournalItem| x@) =~= before.map_values(|x: JournalItem| x@).push(batch@[i as int]@));
            assert(batch@.subrange(0, i as int + 1).map_values(|e: Entry| e@) =~= batch@.subrange(0, i as int).map_values(|e: Entry| e@).push(batch@[i as int]@));
        }
        i = i + 1;
    }
    let record = builder.build();
    assert(batch@.subrange(0, i as int) =~= batch@);
    assert(record@ == batch@.map_values(|e: Entry| e@));
    record.encode()
}

/// The memtable key under which replay stores an entry read at sequence
/// number `seq`.
pub open spec fn replay_key(e: EntryView, seq: u64) -> MemKeyView {
    (e.key, (u64::MAX - seq) as u64, (255 - OpType::spec_from((e.meta & 0xFFu32) as u8).spec_encode()) as u8)
}

/// The contents after replaying `es` in order onto `c`, the i-th entry at
/// sequence number `base + i + 1`.
pub open spec fn apply_entries(c: Map<MemKeyView, Seq<u8>>, es: Seq<EntryView>, base: u64) -> Map<MemKeyView, Seq<u8>>
    decreases es.len(),
{
    if es.len() == 0 {
        c
    } else {
        apply_entries(c, es.drop_last(), base).insert(replay_key(es.last(), (base + es.len()) as u64), es.last().value)
    }
}

proof fn lemma_apply_entries_holds(c: Map<MemKeyView, Seq<u8>>, es: Seq<EntryView>, base: u64)
    requires
        base + es.len() <= u64::MAX,
    ensures
        forall|i: int| 0 <= i < es.len() ==> {
            &&& #[trigger] apply_entries(c, es, base).contains_key(replay_key(es[i], (base + i + 1) as u64))
            &&& apply_entries(c, es, base)[replay_key(es[i], (base + i + 1) as u64)] == es[i].value
        },
    decreases es.len(),
{
    if es.len() > 0 {
        let pre = es.drop_last();
        lemma_apply_entries_holds(c, pre, base);
        assert forall|i: int| 0 <= i < es.len() implies {
            &&& #[trigger] apply_entries(c, es, base).contains_key(replay_key(es[i], (base + i + 1) as u64))
            &&& apply_entries(c, es, base)[replay_key(es[i], (base + i + 1) as u64)] == es[i].value
        } by {
            if i < es.len() - 1 {
                assert(es[i] == pre[i]);
                assert(apply_entries(c, pre, base).contains_key(replay_key(pre[i], (base + i + 1) as u64)));
            }
        }
    }
}

proof fn lemma_apply_entries_unchanged(d: Map<MemKeyView, Seq<u8>>, es: Seq<EntryView>, base: u64)
    requires
        forall|i: int| 0 <= i < es.len() ==> {
            &&& #[trigger] d.contains_key(replay_key(es[i], (base + i + 1) as u64))
            &&& d[replay_key(es[i], (base + i + 1) as u64)] == es[i].value
        },
    ensures
        apply_entries(d, es, base) == d,
    decreases es.len(),
{
    if es.len() > 0 {
        let pre = es.drop_last();
        assert forall|i: int| 0 <= i < pre.len() implies {
            &&& #[trigger] d.contains_key(replay_key(pre[i], (base + i + 1) as u64))
            &&& d[replay_key(pre[i], (base + i + 1) as u64)] == pre[i].value
        } by {
            assert(pre[i] == es[i]);
        }
        lemma_apply_entries_unchanged(d, pre, base);
        let n = es.len() - 1;
        assert(d.contains_key(replay_key(es[n], (base + n + 1) as u64)));
        assert(d.insert(replay_key(es.last(), (base + es.len()) as u64), es.last().value) =~= d);
    }
}

/// Replaying an unchanged journal again, from the same sequence number, onto
/// the memtable it produced, leaves that memtable as it is.
pub proof fn lemma_journal_replay_idempotent(c: Map<MemKeyView, Seq<u8>>, es: Seq<EntryView>, base: u64)
    requires
        base + es.len() <= u64::MAX,
    ensures
        apply_entries(apply_entries(c, es, base), es, base) == apply_entries(c, es, base),
{
    lemma_apply_entries_holds(c, es, base);
    lemma_apply_entries_unchanged(apply_entries(c, es, base), es, base);
}

/// Replays `entries` in order into `memtable`, the i-th at sequence number
/// `base + i + 1`, and returns the last sequence number used.
pub fn replay_entries(memtable: &mut MemTable, entries: &Vec<Entry>, base: u64) -> (r: u64)
    requires
        base + entries@.len() <= u64::MAX,
    ensures
        final(memtable).contents() == apply_entries(old(memtable).contents(), entries@.map_values(|e: Entry| e@), base),
        r == base + entries@.len(),
{
    let ghost es = entries@.map_values(|e: Entry| e@);
    let mut seq = base;
    let mut i: usize = 0;
    while i < entries.len()
        invariant
            i <= entries@.len(),
            base + entries@.len() <= u64::MAX,
            seq == base + i,
            es == entries@.map_values(|e: Entry| e@),
            memtable.contents() == apply_entries(old(memtable).contents(), es.subrange(0, i as int), base),
        decreases entries.len() - i,
    {
        let e = &entries[i];
        seq = seq + 1;
        let op = e.op_type();
        let key = Key::new(e.key.clone(), seq, op);
        memtable.put(key, e.value.clone());
        proof {
            let pre = es.subrange(0, i as int + 1);
            assert(pre.drop_last() =~= es.subrange(0, i as int));
            assert(pre.last() == e@);
        }
        i = i + 1;
    }
    assert(es.subrange(0, i as int) =~= es);
    seq
}

/// A journal read back from its bytes.
pub struct Journal {
    pub id: u32,
    pub records: Vec<Arc<Record<JournalItem>>>,
}

impl Journal {
    /// The journal's records, read from the start of `data` up to its end or
    /// up to the first record that does not read back whole.
    pub fn decode(id: u32, data: &[u8]) -> (r: Journal)
        ensures
            r.id == id,
            r.records@.len() == spec_journal_records(data@).len(),
            forall|i: int| 0 <= i < r.records@.len() ==> (#[trigger] r.records@[i])@ == spec_journal_records(data@)[i],
    {
        let records = decode_log::<JournalItem>(data);
        Journal { id, records }
    }

    pub fn id(&self) -> (r: u32)
        ensures
            r == self.id,
    {
        self.id
    }

    pub fn num_of_records(&self) -> (r: usize)
        ensures
            r == self.records@.len(),
    {
        self.records.len()
    }

    /// The record at `record_idx`, or `None` past the last one.
    pub fn read_record(&self, record_idx: usize) -> (r: Option<Arc<Record<JournalItem>>>)
        ensures
            record_idx < self.records@.len() ==> r == Some(self.records@[record_idx as int]),
            record_idx >= self.records@.len() ==> r is None,
    {
        if record_idx >= self.records.len() {
            return None;
        }
        Some(self.records[record_idx].clone())
    }

    /// All entries of all records, in order.
    pub fn entries(&self) -> (r: Vec<Entry>)
        ensures
            r@.map_values(|e: Entry| e@) == flatten_records(self.records@.map_values(|x: Arc<Record<JournalItem>>| x@)),
    {
        let mut out: Vec<Entry> = Vec::new();
        let mut i: usize = 0;
        while i < self.records.len()
            invariant
                i <= self.records@.len(),
                out@.map_values(|e: Entry| e@) == flatten_records(self.records@.map_values(|x: Arc<Record<JournalItem>>| x@).subrange(0, i as int)),
            decreases self.records.len() - i,
        {
            let rec = &self.records[i];
            let ghost before = out@.map_values(|e: Entry| e@);
            let mut j: usize = 0;
            while j < rec.items.len()
                invariant
                    j <= rec.items@.len(),
                    out@.map_values(|e: Entry| e@) == before + rec@.subrange(0, j as int),
                decreases rec.items.len() - j,
            {
                let ghost b2 = out@.map_values(|e: Entry| e@);
                out.push(rec.items[j].0.duplicate());
                proof {
                    assert(out@.map_values(|e: Entry| e@) =~= b2.push(rec@[j as int]));
                    assert(rec@.subrange(0, j as int + 1) =~= rec@.subrange(0, j as int).push(rec@[j as int]));
                    assert(before + rec@.subrange(0, j as int + 1) =~= (before + rec@.subrange(0, j as int)).push(rec@[j as int]));
                }
                j = j + 1;
            }
            proof {
                let rs = self.records@.map_values(|x: Arc<Record<JournalItem>>| x@);
                assert(rec@.subrange(0, j as int) =~= rec@);
                assert(rs.subrange(0, i as int + 1).drop_last() =~= rs.subrange(0, i as int));
                assert(rs.subrange(0, i as int + 1).last() == rec@);
            }
            i = i + 1;
        }
        proof {
            let rs = self.records@.map_values(|x: Arc<Record<JournalItem>>| x@);
            assert(rs.subrange(0, i as int) =~= rs);
        }
        out
    }
}

/// The entries of `records`, in order.
pub open spec fn flatten_records(records: Seq<Seq<EntryView>>) -> Seq<EntryView>
    decreases records.len(),
{
    if records.len() == 0 {
        Seq::empty()
    } else {
        flatten_records(records.drop_last()) + records.last()
    }
}

/// The operation of an entry.
pub open spec fn entry_op(e: EntryView) -> OpType {
    OpType::spec_from((e.meta & 0xFFu32) as u8)
}

/// What a reader sees of a write: the value of a put, nothing for a
/// deletion.
pub open spec fn seen(e: EntryView) -> Option<Seq<u8>> {
    if entry_op(e) == OpType::Put {
        Some(e.value)
    } else {
        None
    }
}

/// Index of the last entry of `es` with key `k`, if any.
pub open spec fn last_write(es: Seq<EntryView>, k: Seq<u8>) -> Option<int>
    decreases es.len(),
{
    if es.len() == 0 {
        None
    } else if es.last().key == k {
        Some(es.len() - 1)
    } else {
        last_write(es.drop_last(), k)
    }
}

proof fn lemma_apply_entries_versions(c: Map<MemKeyView, Seq<u8>>, es: Seq<EntryView>, base: u64, k: Seq<u8>)
    requires
        base + es.len() <= u64::MAX,
        versions_not_after(c, k, base),
    ensures
        versions_not_after(apply_entries(c, es, base), k, (base + es.len()) as u64),
    decreases es.len(),
{
    if es.len() > 0 {
        lemma_apply_entries_versions(c, es.drop_last(), base, k);
    }
}

/// Reading at the next sequence number sees the same after a write of
/// another key.
proof fn lemma_other_key_write(c: Map<MemKeyView, Seq<u8>>, w: MemKeyView, v: Seq<u8>, k: Seq<u8>, seq: u64, value: Option<Seq<u8>>)
    requires
        w.0 != k,
        seq < u64::MAX,
        versions_not_after(c, k, seq),
        visible_is(c, k, seq, value),
    ensures
        visible_is(c.insert(w, v), k, (seq + 1) as u64, value),
{
    let c2 = c.insert(w, v);
    let f1 = (u64::MAX - seq) as u64;
    let f2 = (u64::MAX - (seq + 1)) as u64;
    assert forall|x: MemKeyView| is_candidate(c2, k, f2, x) == is_candidate(c, k, f1, x) by {
        if is_candidate(c2, k, f2, x) {
            assert(c.contains_key(x));
        }
    }
    assert forall|x: MemKeyView| is_newest(c2, k, f2, x) == is_newest(c, k, f1, x) by {
        if is_newest(c, k, f1, x) {
            assert forall|x2: MemKeyView| #[trigger] is_candidate(c2, k, f2, x2) implies mk_le(x, x2) by {
                assert(is_candidate(c, k, f1, x2));
            }
        }
        if is_newest(c2, k, f2, x) {
            assert forall|x2: MemKeyView| #[trigger] is_candidate(c, k, f1, x2) implies mk_le(x, x2) by {
                assert(is_candidate(c2, k, f2, x2));
            }
        }
    }
    match value {
        Some(val) => {
            let x = choose|x: MemKeyView| #[trigger] is_newest(c, k, f1, x) && x.2 != code_delete() && c[x] == val;
            assert(is_newest(c2, k, f2, x));
            assert(c2[x] == c[x]);
        },
        None => {
            if !(forall|x: MemKeyView| !#[trigger] is_candidate(c, k, f1, x)) {
                let x = choose|x: MemKeyView| #[trigger] is_newest(c, k, f1, x) && x.2 == code_delete();
                assert(is_newest(c2, k, f2, x));
            } else {
                assert forall|x: MemKeyView| !#[trigger] is_candidate(c2, k, f2, x) by {
                    assert(!is_candidate(c, k, f1, x));
                }
            }
        },
    }
}

/// A write newer than every version of its key is what a reader at its
/// sequence number sees, whatever a deletion stores as its value.
proof fn lemma_entry_then_read(c: Map<MemKeyView, Seq<u8>>, e: EntryView, seq: u64)
    requires
        0 < seq,
        versions_not_after(c, e.key, (seq - 1) as u64),
        entry_op(e) == OpType::Put || entry_op(e) == OpType::Delete,
    ensures
        visible_is(c.insert(replay_key(e, seq), e.value), e.key, seq, seen(e)),
{
    let c2 = c.insert(replay_key(e, seq), e.value);
    let w = replay_key(e, seq);
    let floor = (u64::MAX - seq) as u64;
    assert(is_candidate(c2, e.key, floor, w));
    assert forall|k2: MemKeyView| #[trigger] is_candidate(c2, e.key, floor, k2) implies mk_le(w, k2) by {
        if k2 != w {
            assert(c.contains_key(k2));
        }
    }
    assert(is_newest(c2, e.key, floor, w));
    if entry_op(e) == OpType::Put {
        assert(w.2 == code_put());
    } else {
        assert(w.2 == code_delete());
    }
}

/// After replaying a journal's puts and deletions onto a memtable whose
/// versions are all older, a reader at the last sequence number sees, for
/// each key written, its last write in the journal: what was written before
/// a crash is what is read after recovery.
pub proof fn lemma_replay_last_writer_wins(c: Map<MemKeyView, Seq<u8>>, es: Seq<EntryView>, base: u64, k: Seq<u8>)
    requires
        base + es.len() <= u64::MAX,
        versions_not_after(c, k, base),
        forall|i: int| 0 <= i < es.len() ==> entry_op(#[trigger] es[i]) == OpType::Put || entry_op(es[i]) == OpType::Delete,
        last_write(es, k) is Some,
    ensures
        visible_is(apply_entries(c, es, base), k, (base + es.len()) as u64, seen(es[last_write(es, k)->0])),
    decreases es.len(),
{
    let pre = es.drop_last();
    let s = (base + es.len()) as u64;
    lemma_apply_entries_versions(c, pre, base, k);
    if es.last().key == k {
        assert(entry_op(es[es.len() - 1]) == OpType::Put || entry_op(es[es.len() - 1]) == OpType::Delete);
        lemma_entry_then_read(apply_entries(c, pre, base), es.last(), s);
    } else {
        assert forall|i: int| 0 <= i < pre.len() implies entry_op(#[trigger] pre[i]) == OpType::Put || entry_op(pre[i]) == OpType::Delete by {
            assert(pre[i] == es[i]);
        }
        lemma_replay_last_writer_wins(c, pre, base, k);
        let j = last_write(pre, k)->0;
        assert(es[j] == pre[j]) by {
            lemma_last_write_in_range(pre, k);
        }
        lemma_other_key_write(apply_entries(c, pre, base), replay_key(es.last(), s), es.last().value, k, (s - 1) as u64, seen(pre[j]));
    }
}

proof fn lemma_last_write_in_range(es: Seq<EntryView>, k: Seq<u8>)
    ensures
        last_write(es, k) matches Some(j) ==> 0 <= j < es.len(),
    decreases es.len(),
{
    if es.len() > 0 {
        lemma_last_write_in_range(es.drop_last(), k);
    }
}

} // verus!
