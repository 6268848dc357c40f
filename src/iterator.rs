//! Iterators over ordered key/value pairs, and their merges.
use vstd::prelude::*;
use crate::entry::{Entry, EntryView, spec_is_separate};
use crate::merge::{merge_entries, is_merge_of, sorted_sources, entry_views, views, conserves_refs, total_refs, flatten_groups, group_views};
use crate::codec::{copy_range, get_u32_le, u32_at};
use crate::order::{lex_lt, lemma_lex_order, compare_bytes};
use core::cmp::Ordering;
use crate::memtable::{KeyBound, within, key_within};

verus! {

/// Why an iterator could not move on.
#[derive(Copy, Clone, PartialEq, Eq, Debug, Structural)]
pub enum StorageIteratorError {
    Unknown,
}

/// A cursor over key/value pairs.
pub trait StorageIterator {
    /// The pairs from the current one to the end. Implementations define
    /// it; the default describes an iterator with nothing left.
    closed spec fn rest(&self) -> Seq<(Seq<u8>, Seq<u8>)> {
        Seq::empty()
    }

    /// Holds of an iterator whose `next` never fails. Implementations in
    /// this library define it; the default claims nothing.
    closed spec fn reliable(&self) -> bool {
        false
    }

    /// The current key.
    fn key(&self) -> (r: &[u8])
        requires
            self.rest().len() > 0,
        ensures
            r@ == self.rest()[0].0,
    ;

    /// The current value.
    fn value(&self) -> (r: &[u8])
        requires
            self.rest().len() > 0,
        ensures
            r@ == self.rest()[0].1,
    ;

    /// Whether there is a current pair.
    fn is_valid(&self) -> (r: bool)
        ensures
            r == (self.rest().len() > 0),
    ;

    /// Moves to the next pair.
    fn next(&mut self) -> (r: Result<(), StorageIteratorError>)
        ensures
            old(self).rest().len() > 0 ==> final(self).rest().len() < old(self).rest().len(),
            old(self).rest().len() > 0 && r is Ok ==> final(self).rest() == old(self).rest().drop_first(),
            old(self).rest().len() == 0 ==> final(self).rest() == old(self).rest(),
            old(self).reliable() ==> r is Ok && final(self).reliable(),
    ;
}

/// Pairs as entries with no flags.
pub open spec fn pairs_as_entries(s: Seq<(Seq<u8>, Seq<u8>)>) -> Seq<EntryView> {
    s.map_values(|p: (Seq<u8>, Seq<u8>)| EntryView { meta: 0, key: p.0, value: p.1 })
}

pub open spec fn entries_as_pairs(s: Seq<EntryView>) -> Seq<(Seq<u8>, Seq<u8>)> {
    s.map_values(|e: EntryView| (e.key, e.value))
}

/// Reads what is left of an iterator; the flag is false when it failed on the
/// way, and then the entries read are the pairs before the failure.
fn drain<I: StorageIterator>(it: &mut I) -> (r: (Vec<Entry>, bool))
    ensures
        r.1 ==> entry_views(r.0@) == pairs_as_entries(old(it).rest()),
        old(it).reliable() ==> r.1,
{
    let mut out: Vec<Entry> = Vec::new();
    let ghost start = it.rest();
    while it.is_valid()
        invariant
            start.len() >= it.rest().len(),
            start == entries_as_pairs(entry_views(out@)) + it.rest(),
            entry_views(out@) == pairs_as_entries(entries_as_pairs(entry_views(out@))),
            old(it).reliable() ==> it.reliable(),
        decreases it.rest().len(),
    {
        let k = it.key();
        let key = copy_range(k, 0, k.len());
        let v = it.value();
        let value = copy_range(v, 0, v.len());
        proof {
            assert(k@.subrange(0, k@.len() as int) =~= k@);
            assert(v@.subrange(0, v@.len() as int) =~= v@);
        }
        let ghost before = entry_views(out@);
        let ghost r0 = it.rest();
        out.push(Entry { meta: 0, key, value });
        proof {
            assert(entry_views(out@) =~= before.push(EntryView { meta: 0, key: r0[0].0, value: r0[0].1 }));
            assert(entries_as_pairs(entry_views(out@)) =~= entries_as_pairs(before).push(r0[0]));
            assert(pairs_as_entries(entries_as_pairs(entry_views(out@))) =~= pairs_as_entries(entries_as_pairs(before)).push(EntryView { meta: 0, key: r0[0].0, value: r0[0].1 }));
        }
        match it.next() {
            Ok(()) => {
                proof {
                    assert(entries_as_pairs(before).push(r0[0]) + r0.drop_first() =~= entries_as_pairs(before) + r0);
                }
            },
            Err(_) => {
                return (out, false);
            },
        }
    }
    proof {
        assert(start =~= entries_as_pairs(entry_views(out@)));
    }
    (out, true)
}

/// An iterator over a sequence of entries held in memory.
pub struct VecIterator {
    pub items: Vec<Entry>,
    pub pos: usize,
}

impl VecIterator {
    pub open spec fn spec_rest(&self) -> Seq<(Seq<u8>, Seq<u8>)> {
        entries_as_pairs(entry_views(self.items@).subrange(self.pos as int, self.items@.len() as int))
    }

    pub open spec fn wf(&self) -> bool {
        self.pos <= self.items@.len()
    }

    /// An iterator at the first of `items`.
    pub fn new(items: Vec<Entry>) -> (r: VecIterator)
        ensures
            r.wf(),
            r.items == items,
            r.pos == 0,
    {
        VecIterator { items, pos: 0 }
    }

    /// The current entry's flags.
    pub fn meta(&self) -> (r: u32)
        requires
            self.wf(),
            self.pos < self.items@.len(),
        ensures
            r == self.items@[self.pos as int].meta,
    {
        self.items[self.pos].meta
    }
}

impl StorageIterator for VecIterator {
    open spec fn rest(&self) -> Seq<(Seq<u8>, Seq<u8>)> {
        if self.pos <= self.items@.len() {
            self.spec_rest()
        } else {
            Seq::empty()
        }
    }

    open spec fn reliable(&self) -> bool {
        true
    }

    fn key(&self) -> (r: &[u8]) {
        assert(self.rest()[0] == (self.items@[self.pos as int]@.key, self.items@[self.pos as int]@.value));
        self.items[self.pos].key.as_slice()
    }

    fn value(&self) -> (r: &[u8]) {
        assert(self.rest()[0] == (self.items@[self.pos as int]@.key, self.items@[self.pos as int]@.value));
        self.items[self.pos].value.as_slice()
    }

    fn is_valid(&self) -> (r: bool) {
        self.pos < self.items.len()
    }

    fn next(&mut self) -> (r: Result<(), StorageIteratorError>)
        ensures
            final(self).items == old(self).items,
            old(self).pos < old(self).items@.len() ==> final(self).pos == old(self).pos + 1,
            old(self).pos >= old(self).items@.len() ==> final(self).pos == old(self).pos,
    {
        if self.pos < self.items.len() {
            self.pos = self.pos + 1;
            assert(self.rest() =~= old(self).rest().drop_first());
        }
        Ok(())
    }
}

/// The merge of several iterators: each key once, in ascending order, with
/// the pair of the first iterator that holds the key.
pub struct MergeIterator {
    pub iter: VecIterator,
    pub failed: bool,
}

impl MergeIterator {
    /// Merges the iterators. When every one of them is read to its end and
    /// each yields keys in ascending order, what remains is their merge.
    pub fn create<I: StorageIterator>(iters: Vec<Box<I>>) -> (r: MergeIterator)
        ensures
            r.iter.wf(),
            r.iter.pos == 0,
            !r.failed && sorted_sources(iters@.map_values(|b: Box<I>| pairs_as_entries(b.rest()))) ==> is_merge_of(entry_views(r.iter.items@), iters@.map_values(|b: Box<I>| pairs_as_entries(b.rest()))),
            (forall|i: int| 0 <= i < iters@.len() ==> (#[trigger] iters@[i]).reliable()) ==> !r.failed,
    {
        let ghost all_reliable = forall|i: int| 0 <= i < iters@.len() ==> (#[trigger] iters@[i]).reliable();
        let ghost want = iters@.map_values(|b: Box<I>| pairs_as_entries(b.rest()));
        let mut iters = iters;
        let mut srcs: Vec<Vec<Entry>> = Vec::new();
        let mut failed = false;
        let ghost total = iters@.len();
        while iters.len() > 0
            invariant
                srcs@.len() + iters@.len() == total,
                want.len() == total,
                !failed ==> forall|i: int| 0 <= i < srcs@.len() ==> entry_views(#[trigger] srcs@[i]@) == want[i],
                forall|i: int| 0 <= i < iters@.len() ==> pairs_as_entries((#[trigger] iters@[i]).rest()) == want[srcs@.len() + i],
                all_reliable ==> !failed && forall|i: int| 0 <= i < iters@.len() ==> (#[trigger] iters@[i]).reliable(),
            decreases iters@.len(),
        {
            let ghost before = iters@;
            let mut b = iters.remove(0);
            assert(pairs_as_entries(b.rest()) == want[srcs@.len() as int]);
            proof {
                assert forall|i: int| 0 <= i < iters@.len() implies pairs_as_entries((#[trigger] iters@[i]).rest()) == want[srcs@.len() + 1 + i] by {
                    assert(iters@[i] == before[i + 1]);
                }
                if all_reliable {
                    assert(before[0].reliable());
                    assert forall|i: int| 0 <= i < iters@.len() implies (#[trigger] iters@[i]).reliable() by {
                        assert(iters@[i] == before[i + 1]);
                    }
                }
            }
            let (items, ok) = drain(&mut *b);
            if !ok {
                failed = true;
            }
            srcs.push(items);
        }
        let ghost vs = views(srcs@);
        proof {
            if !failed {
                assert(vs =~= want);
            }
        }
        let (out, _, _) = merge_entries(&srcs);
        MergeIterator { iter: VecIterator::new(out), failed }
    }
}

impl StorageIterator for MergeIterator {
    open spec fn rest(&self) -> Seq<(Seq<u8>, Seq<u8>)> {
        self.iter.rest()
    }

    open spec fn reliable(&self) -> bool {
        true
    }

    fn key(&self) -> (r: &[u8]) {
        self.iter.key()
    }

    fn value(&self) -> (r: &[u8]) {
        self.iter.value()
    }

    fn is_valid(&self) -> (r: bool) {
        self.iter.is_valid()
    }

    fn next(&mut self) -> (r: Result<(), StorageIteratorError>) {
        self.iter.next()
    }
}

/// The merge of two iterators; on equal keys the first one's pair is kept.
pub struct TwoMergeIterator {
    pub iter: VecIterator,
}

impl TwoMergeIterator {
    /// Merges `a` and `b`; fails when either of them fails on the way.
    pub fn create<A: StorageIterator, B: StorageIterator>(a: A, b: B) -> (r: Result<TwoMergeIterator, StorageIteratorError>)
        ensures
            r matches Ok(it) ==> it.iter.wf() && it.iter.pos == 0 && (sorted_sources(seq![pairs_as_entries(a.rest()), pairs_as_entries(b.rest())]) ==> is_merge_of(entry_views(it.iter.items@), seq![pairs_as_entries(a.rest()), pairs_as_entries(b.rest())])),
            a.reliable() && b.reliable() ==> r is Ok,
    {
        let mut a = a;
        let mut b = b;
        let (ea, oka) = drain(&mut a);
        let (eb, okb) = drain(&mut b);
        if !oka || !okb {
            return Err(StorageIteratorError::Unknown);
        }
        let mut srcs: Vec<Vec<Entry>> = Vec::new();
        srcs.push(ea);
        srcs.push(eb);
        proof {
            assert(views(srcs@) =~= seq![entry_views(srcs@[0]@), entry_views(srcs@[1]@)]);
        }
        let (out, _, _) = merge_entries(&srcs);
        Ok(TwoMergeIterator { iter: VecIterator::new(out) })
    }
}

impl StorageIterator for TwoMergeIterator {
    open spec fn rest(&self) -> Seq<(Seq<u8>, Seq<u8>)> {
        self.iter.rest()
    }

    open spec fn reliable(&self) -> bool {
        true
    }

    fn key(&self) -> (r: &[u8]) {
        self.iter.key()
    }

    fn value(&self) -> (r: &[u8]) {
        self.iter.value()
    }

    fn is_valid(&self) -> (r: bool) {
        self.iter.is_valid()
    }

    fn next(&mut self) -> (r: Result<(), StorageIteratorError>) {
        self.iter.next()
    }
}

/// An iterator that stays at its end once it gets there.
pub struct FusedIterator<I> {
    pub iter: I,
}

impl<I: StorageIterator> FusedIterator<I> {
    pub fn new(iter: I) -> (r: FusedIterator<I>)
        ensures
            r.iter == iter,
    {
        FusedIterator { iter }
    }
}

impl<I: StorageIterator> StorageIterator for FusedIterator<I> {
    open spec fn rest(&self) -> Seq<(Seq<u8>, Seq<u8>)> {
        self.iter.rest()
    }

    open spec fn reliable(&self) -> bool {
        self.iter.reliable()
    }

    fn key(&self) -> (r: &[u8]) {
        self.iter.key()
    }

    fn value(&self) -> (r: &[u8]) {
        self.iter.value()
    }

    fn is_valid(&self) -> (r: bool) {
        self.iter.is_valid()
    }

    fn next(&mut self) -> (r: Result<(), StorageIteratorError>) {
        if self.iter.is_valid() {
            self.iter.next()
        } else {
            Ok(())
        }
    }
}

/// What a scan yields of merged pairs: those within the bounds whose value
/// is not empty (an empty value is a deletion) and whose key comes after
/// the last one yielded.
pub open spec fn scan_filter(s: Seq<(Seq<u8>, Seq<u8>)>, lower: KeyBound, upper: KeyBound) -> Seq<(Seq<u8>, Seq<u8>)>
    decreases s.len(),
{
    if s.len() == 0 {
        s
    } else {
        let pre = scan_filter(s.drop_last(), lower, upper);
        if within(s.last().0, lower, upper) && s.last().1.len() > 0 && (pre.len() == 0 || lex_lt(pre.last().0, s.last().0)) {
            pre.push(s.last())
        } else {
            pre
        }
    }
}

/// The iterator of a range scan: the merged pairs within the bounds, with
/// deletions left out.
pub struct DbIterator {
    pub iter: VecIterator,
}

impl DbIterator {
    pub fn new<I: StorageIterator>(iter: I, lower: &KeyBound, upper: &KeyBound) -> (r: Result<DbIterator, StorageIteratorError>)
        ensures
            r matches Ok(it) ==> it.iter.wf() && it.rest() == scan_filter(iter.rest(), *lower, *upper),
            iter.reliable() ==> r is Ok,
    {
        let mut it = iter;
        let ghost start = it.rest();
        let (items, ok) = drain(&mut it);
        if !ok {
            return Err(StorageIteratorError::Unknown);
        }
        let ghost src = entries_as_pairs(entry_views(items@));
        proof {
            assert(entries_as_pairs(pairs_as_entries(start)) =~= start);
        }
        let mut out: Vec<Entry> = Vec::new();
        let mut i: usize = 0;
        while i < items.len()
            invariant
                i <= items@.len(),
                src == entries_as_pairs(entry_views(items@)),
                entries_as_pairs(entry_views(out@)) == scan_filter(src.subrange(0, i as int), *lower, *upper),
            decreases items.len() - i,
        {
            let ghost before = entries_as_pairs(entry_views(out@));
            proof {
                assert(src.subrange(0, i as int + 1).drop_last() =~= src.subrange(0, i as int));
            }
            let after_last = out.len() == 0 || matches!(compare_bytes(out[out.len() - 1].key.as_slice(), items[i].key.as_slice()), Ordering::Less);
            proof {
                lemma_lex_order();
                assert(before.len() == out@.len());
                assert(src[i as int].0 == items@[i as int].key@);
                assert(src[i as int].1 == items@[i as int].value@);
                if out@.len() > 0 {
                    assert(before.last().0 == out@[out@.len() - 1].key@);
                }
                assert(after_last == (before.len() == 0 || lex_lt(before.last().0, src[i as int].0)));
            }
            if key_within(items[i].key.as_slice(), lower, upper) && items[i].value.len() > 0 && after_last {
                out.push(items[i].duplicate());
                assert(entries_as_pairs(entry_views(out@)) =~= before.push(src[i as int]));
            } else {
                assert(entries_as_pairs(entry_views(out@)) == before);
            }
            i = i + 1;
        }
        proof {
            assert(src.subrange(0, i as int) =~= src);
            assert(entry_views(out@).subrange(0, out@.len() as int) =~= entry_views(out@));
        }
        Ok(DbIterator { iter: VecIterator::new(out) })
    }
}

impl StorageIterator for DbIterator {
    open spec fn rest(&self) -> Seq<(Seq<u8>, Seq<u8>)> {
        self.iter.rest()
    }

    open spec fn reliable(&self) -> bool {
        true
    }

    fn key(&self) -> (r: &[u8]) {
        self.iter.key()
    }

    fn value(&self) -> (r: &[u8]) {
        self.iter.value()
    }

    fn is_valid(&self) -> (r: bool) {
        self.iter.is_valid()
    }

    fn next(&mut self) -> (r: Result<(), StorageIteratorError>) {
        self.iter.next()
    }
}

/// Keys of pairs strictly ascend.
pub open spec fn strictly_ascending(s: Seq<(Seq<u8>, Seq<u8>)>) -> bool {
    forall|i: int, j: int| 0 <= i < j < s.len() ==> lex_lt(#[trigger] s[i].0, #[trigger] s[j].0)
}

proof fn lemma_scan_filter_from(s: Seq<(Seq<u8>, Seq<u8>)>, lower: KeyBound, upper: KeyBound)
    ensures
        forall|a: int| 0 <= a < scan_filter(s, lower, upper).len() ==> {
            &&& within((#[trigger] scan_filter(s, lower, upper)[a]).0, lower, upper)
            &&& scan_filter(s, lower, upper)[a].1.len() > 0
            &&& exists|j: int| 0 <= j < s.len() && s[j] == scan_filter(s, lower, upper)[a]
        },
        scan_filter(s, lower, upper).len() <= s.len(),
    decreases s.len(),
{
    if s.len() > 0 {
        let pre = s.drop_last();
        lemma_scan_filter_from(pre, lower, upper);
        let f = scan_filter(s, lower, upper);
        assert forall|a: int| 0 <= a < f.len() implies {
            &&& within((#[trigger] f[a]).0, lower, upper)
            &&& f[a].1.len() > 0
            &&& exists|j: int| 0 <= j < s.len() && s[j] == f[a]
        } by {
            if a < scan_filter(pre, lower, upper).len() {
                assert(f[a] == scan_filter(pre, lower, upper)[a]);
                let j = choose|j: int| 0 <= j < pre.len() && pre[j] == scan_filter(pre, lower, upper)[a];
                assert(s[j] == pre[j]);
            } else {
                assert(s[s.len() - 1] == f[a]);
            }
        }
    }
}

/// A scan yields keys in strictly ascending order, each once, each within
/// the bounds.
pub proof fn lemma_scan_order(s: Seq<(Seq<u8>, Seq<u8>)>, lower: KeyBound, upper: KeyBound)
    ensures
        strictly_ascending(scan_filter(s, lower, upper)),
        forall|a: int| 0 <= a < scan_filter(s, lower, upper).len() ==> within((#[trigger] scan_filter(s, lower, upper)[a]).0, lower, upper),
    decreases s.len(),
{
    lemma_scan_filter_from(s, lower, upper);
    lemma_lex_order();
    if s.len() > 0 {
        let pre = s.drop_last();
        lemma_scan_order(pre, lower, upper);
        let fp = scan_filter(pre, lower, upper);
        let f = scan_filter(s, lower, upper);
        assert forall|i: int, j: int| 0 <= i < j < f.len() implies lex_lt(#[trigger] f[i].0, #[trigger] f[j].0) by {
            if j < fp.len() {
                assert(f[i] == fp[i] && f[j] == fp[j]);
            } else {
                assert(f[i] == fp[i]);
                assert(f[j] == s.last());
                if i < fp.len() - 1 {
                    assert(lex_lt(fp[i].0, fp[fp.len() - 1].0));
                }
            }
        }
    }
}

/// A key whose merged pair is a deletion (an empty value) is not in a scan.
pub proof fn lemma_scan_omits_deleted(s: Seq<(Seq<u8>, Seq<u8>)>, lower: KeyBound, upper: KeyBound, k: Seq<u8>)
    requires
        forall|j: int| 0 <= j < s.len() && (#[trigger] s[j]).0 == k ==> s[j].1.len() == 0,
    ensures
        forall|a: int| 0 <= a < scan_filter(s, lower, upper).len() ==> (#[trigger] scan_filter(s, lower, upper)[a]).0 != k,
{
    lemma_scan_filter_from(s, lower, upper);
    let f = scan_filter(s, lower, upper);
    assert forall|a: int| 0 <= a < f.len() implies (#[trigger] f[a]).0 != k by {
        let j = choose|j: int| 0 <= j < s.len() && s[j] == f[a];
    }
}

} // verus!

verus! {

/// The value table that an entry refers to: the id held in the first four
/// bytes of a separated value.
pub open spec fn vsst_ref(e: EntryView) -> Option<u32> {
    if spec_is_separate(e.meta) && e.value.len() >= 4 {
        Some(u32_at(e.value, 0))
    } else {
        None
    }
}

/// How many entries of `s` refer to value table `id`.
pub open spec fn ref_count(s: Seq<EntryView>, id: u32) -> nat
    decreases s.len(),
{
    if s.len() == 0 {
        0
    } else {
        ref_count(s.drop_last(), id) + if vsst_ref(s.last()) == Some(id) { 1nat } else { 0nat }
    }
}

/// The reference-count change of value table `id` when `count` references
/// to it are dropped (saturating at `i32::MIN`).
pub open spec fn drop_delta(count: nat) -> i32 {
    if count <= 0x8000_0000 {
        (-(count as int)) as i32
    } else {
        i32::MIN
    }
}

/// The value-table id of an entry, if it refers to one.
pub fn entry_vsst_ref(e: &Entry) -> (r: Option<u32>)
    ensures
        r == vsst_ref(e@),
{
    if Entry::is_separate(e.meta) && e.value.len() >= 4 {
        Some(get_u32_le(e.value.as_slice(), 0))
    } else {
        None
    }
}

/// Every value table that `s` refers to has an entry in `d`.
pub open spec fn delta_covers(d: Seq<(u32, i32)>, s: Seq<EntryView>) -> bool {
    forall|id: u32| #[trigger] ref_count(s, id) > 0 ==> exists|a: int| 0 <= a < d.len() && (#[trigger] d[a]).0 == id
}

/// Where `id` stands among the first components of `v`.
fn find_id(v: &Vec<(u32, i32)>, id: u32) -> (r: Option<usize>)
    ensures
        r matches Some(j) ==> j < v@.len() && v@[j as int].0 == id,
        r is None ==> forall|a: int| 0 <= a < v@.len() ==> (#[trigger] v@[a]).0 != id,
{
    let mut j: usize = 0;
    while j < v.len()
        invariant
            j <= v@.len(),
            forall|a: int| 0 <= a < j ==> (#[trigger] v@[a]).0 != id,
        decreases v.len() - j,
    {
        if v[j].0 == id {
            return Some(j);
        }
        j = j + 1;
    }
    None
}

/// `d` is the change of reference counts for dropping the entries `s`: one
/// pair per value table they refer to, ids once each, each change the
/// negated number of references (saturating at `i32::MIN`).
pub open spec fn delta_for(d: Seq<(u32, i32)>, s: Seq<EntryView>) -> bool {
    &&& forall|a: int, b: int| 0 <= a < b < d.len() ==> (#[trigger] d[a]).0 != (#[trigger] d[b]).0
    &&& forall|a: int| 0 <= a < d.len() ==> (#[trigger] d[a]).1 == drop_delta(ref_count(s, d[a].0))
    &&& forall|a: int| 0 <= a < d.len() ==> ref_count(s, (#[trigger] d[a]).0) > 0
    &&& delta_covers(d, s)
}

/// Counts the drop of one more entry into a delta.
fn count_drop(delta: &mut Vec<(u32, i32)>, s: Ghost<Seq<EntryView>>, e: &Entry)
    ensures
        delta_for(old(delta)@, s@) ==> delta_for(final(delta)@, s@.push(e@)),
{
    let ghost start = delta@;
    let ghost pre = s@;
    let ghost nxt = s@.push(e@);
    assert(nxt.drop_last() =~= pre);
    match entry_vsst_ref(e) {
        None => {
            proof {
                if delta_for(start, pre) {
                    assert forall|id: u32| ref_count(nxt, id) == ref_count(pre, id) by {}
                }
            }
        },
        Some(id) => {
            let pos = find_id(delta, id);
            let found = pos.is_some();
            let j: usize = match pos {
                Some(p) => p,
                None => 0,
            };
            let ghost before = delta@;
            if found {
                let d = delta[j].1;
                let nd = if d == i32::MIN { d } else { d - 1 };
                delta.set(j, (id, nd));
                proof {
                    if delta_for(start, pre) {
                        assert(ref_count(nxt, id) == ref_count(pre, id) + 1);
                        assert forall|a: int| 0 <= a < delta@.len() implies (#[trigger] delta@[a]).1 == drop_delta(ref_count(nxt, delta@[a].0)) by {
                            if a != j {
                                assert(delta@[a] == before[a]);
                            }
                        }
                    }
                }
            } else {
                delta.push((id, -1i32));
                proof {
                    if delta_for(start, pre) {
                        assert(ref_count(pre, id) == 0) by {
                            if ref_count(pre, id) > 0 {
                                let a = choose|a: int| 0 <= a < before.len() && (#[trigger] before[a]).0 == id;
                            }
                        }
                        assert forall|a: int| 0 <= a < delta@.len() implies (#[trigger] delta@[a]).1 == drop_delta(ref_count(nxt, delta@[a].0)) by {
                            if a < before.len() {
                                assert(delta@[a] == before[a]);
                            }
                        }
                    }
                }
            }
            proof {
                if delta_for(start, pre) {
                    assert forall|a: int, b: int| 0 <= a < b < delta@.len() implies (#[trigger] delta@[a]).0 != (#[trigger] delta@[b]).0 by {
                        if b < before.len() {
                            assert(delta@[a] == before[a] || found);
                        }
                    }
                    assert forall|a: int| 0 <= a < delta@.len() implies ref_count(nxt, (#[trigger] delta@[a]).0) > 0 by {
                        if a < before.len() && delta@[a].0 != id {
                            assert(before[a].0 == delta@[a].0);
                        }
                    }
                    assert forall|x: u32| #[trigger] ref_count(nxt, x) > 0 implies exists|a: int| 0 <= a < delta@.len() && (#[trigger] delta@[a]).0 == x by {
                        if x != id {
                            assert(ref_count(nxt, x) == ref_count(pre, x));
                            let a = choose|a: int| 0 <= a < before.len() && (#[trigger] before[a]).0 == x;
                            assert(delta@[a].0 == x);
                        } else if found {
                            assert(delta@[j as int].0 == x);
                        } else {
                            assert(delta@[before.len() as int].0 == x);
                        }
                    }
                }
            }
        },
    }
}

/// Counts the drop of entries, in order, into a delta.
fn count_drops(delta: &mut Vec<(u32, i32)>, s: Ghost<Seq<EntryView>>, group: &Vec<Entry>)
    ensures
        delta_for(old(delta)@, s@) ==> delta_for(final(delta)@, s@ + entry_views(group@)),
{
    let ghost ok = delta_for(delta@, s@);
    assert(entry_views(group@).subrange(0, 0) =~= Seq::<EntryView>::empty());
    assert(s@ + Seq::<EntryView>::empty() =~= s@);
    let mut i: usize = 0;
    while i < group.len()
        invariant
            i <= group@.len(),
            ok == delta_for(old(delta)@, s@),
            ok ==> delta_for(delta@, s@ + entry_views(group@).subrange(0, i as int)),
        decreases group.len() - i,
    {
        let ghost cur = s@ + entry_views(group@).subrange(0, i as int);
        count_drop(delta, Ghost(cur), &group[i]);
        assert(cur.push(group@[i as int]@) =~= s@ + entry_views(group@).subrange(0, i as int + 1));
        i = i + 1;
    }
    assert(entry_views(group@).subrange(0, i as int) =~= entry_views(group@));
}

proof fn lemma_delta_negative(d: Seq<(u32, i32)>, s: Seq<EntryView>)
    requires
        delta_for(d, s),
    ensures
        forall|a: int| 0 <= a < d.len() ==> (#[trigger] d[a]).1 < 0,
{
    assert forall|a: int| 0 <= a < d.len() implies (#[trigger] d[a]).1 < 0 by {
        assert(ref_count(s, d[a].0) > 0);
    }
}

/// For each value table referred to by entries of `dropped`, the change of
/// its reference count when they are dropped: ids once each.
pub fn rc_delta_of(dropped: &Vec<Entry>) -> (r: Vec<(u32, i32)>)
    ensures
        delta_for(r@, entry_views(dropped@)),
        forall|a: int| 0 <= a < r@.len() ==> (#[trigger] r@[a]).1 < 0,
{
    let mut out: Vec<(u32, i32)> = Vec::new();
    assert(delta_for(out@, Seq::<EntryView>::empty()));
    count_drops(&mut out, Ghost(Seq::empty()), dropped);
    assert(Seq::<EntryView>::empty() + entry_views(dropped@) =~= entry_views(dropped@));
    proof { lemma_delta_negative(out@, entry_views(dropped@)); }
    out
}

/// A merge that, as it moves past each key, drops the older entries with
/// that key and counts, for each value table, the references they held.
pub struct RcMergeIterator {
    pub iter: VecIterator,
    /// The entries dropped with each merged entry.
    pub groups: Vec<Vec<Entry>>,
    pub vsst_rc_delta: Vec<(u32, i32)>,
    /// The entries dropped so far.
    pub counted: Ghost<Seq<EntryView>>,
    /// All entries the merge drops.
    pub dropped: Ghost<Seq<EntryView>>,
}

impl RcMergeIterator {
    pub open spec fn wf(&self) -> bool {
        &&& self.iter.wf()
        &&& self.groups@.len() == self.iter.items@.len()
        &&& self.counted@ == flatten_groups(group_views(self.groups@.subrange(0, self.iter.pos as int)))
        &&& self.dropped@ == flatten_groups(group_views(self.groups@))
        &&& delta_for(self.vsst_rc_delta@, self.counted@)
    }

    /// Merges the sorted tables' entries (newest source first). Nothing is
    /// counted yet.
    pub fn create(sources: Vec<Vec<Entry>>) -> (r: RcMergeIterator)
        ensures
            r.wf(),
            r.iter.pos == 0,
            r.vsst_rc_delta@.len() == 0,
            r.counted@.len() == 0,
            sorted_sources(views(sources@)) ==> is_merge_of(entry_views(r.iter.items@), views(sources@)),
            conserves_refs(views(sources@), entry_views(r.iter.items@), r.dropped@),
            forall|i: int, j: int| 0 <= i < r.groups@.len() && 0 <= j < r.groups@[i]@.len() ==> (#[trigger] r.groups@[i]@[j]).key@ == r.iter.items@[i].key@,
    {
        let (out, dropped, groups) = merge_entries(&sources);
        let r = RcMergeIterator {
            iter: VecIterator::new(out),
            groups,
            vsst_rc_delta: Vec::new(),
            counted: Ghost(Seq::empty()),
            dropped: Ghost(entry_views(dropped@)),
        };
        assert(r.groups@.subrange(0, 0) =~= Seq::<Vec<Entry>>::empty());
        assert(group_views(Seq::<Vec<Entry>>::empty()) =~= Seq::<Seq<EntryView>>::empty());
        r
    }

    /// The flags of the current entry.
    pub fn meta(&self) -> (r: u32)
        requires
            self.iter.wf(),
            self.iter.pos < self.iter.items@.len(),
        ensures
            r == self.iter.items@[self.iter.pos as int].meta,
    {
        self.iter.meta()
    }

    /// The reference-count changes, by value-table id, for the entries
    /// dropped so far; once the merge is at its end, for all it drops.
    pub fn vsst_rc_delta(self) -> (r: Vec<(u32, i32)>)
        ensures
            r == self.vsst_rc_delta,
            self.wf() ==> delta_for(r@, self.counted@),
            self.wf() && self.iter.pos == self.iter.items@.len() ==> delta_for(r@, self.dropped@),
    {
        proof {
            if self.wf() && self.iter.pos == self.iter.items@.len() {
                assert(self.groups@.subrange(0, self.iter.pos as int) =~= self.groups@);
            }
        }
        self.vsst_rc_delta
    }
}

impl StorageIterator for RcMergeIterator {
    open spec fn rest(&self) -> Seq<(Seq<u8>, Seq<u8>)> {
        self.iter.rest()
    }

    open spec fn reliable(&self) -> bool {
        true
    }

    fn key(&self) -> (r: &[u8]) {
        self.iter.key()
    }

    fn value(&self) -> (r: &[u8]) {
        self.iter.value()
    }

    fn is_valid(&self) -> (r: bool) {
        self.iter.is_valid()
    }

    /// Moves past the current key, dropping the older entries with that key
    /// and counting their references.
    fn next(&mut self) -> (r: Result<(), StorageIteratorError>)
        ensures
            old(self).wf() ==> final(self).wf(),
            final(self).groups == old(self).groups,
            final(self).dropped == old(self).dropped,
            old(self).wf() && old(self).iter.pos < old(self).iter.items@.len() ==> {
                &&& final(self).iter.pos == old(self).iter.pos + 1
                &&& final(self).counted@ == old(self).counted@ + entry_views(old(self).groups@[old(self).iter.pos as int]@)
            },
            old(self).wf() && old(self).iter.pos == old(self).iter.items@.len() ==> final(self).counted == old(self).counted && final(self).vsst_rc_delta == old(self).vsst_rc_delta,
    {
        if self.iter.pos < self.iter.items.len() && self.groups.len() == self.iter.items.len() {
            let pos = self.iter.pos;
            let ghost c0 = self.counted@;
            let ghost was_wf = self.wf();
            count_drops(&mut self.vsst_rc_delta, Ghost(c0), &self.groups[pos]);
            let ghost g = self.groups@;
            self.counted = Ghost(c0 + entry_views(g[pos as int]@));
            proof {
                let a = g.subrange(0, pos as int + 1);
                assert(a.drop_last() =~= g.subrange(0, pos as int));
                assert(group_views(a).drop_last() =~= group_views(g.subrange(0, pos as int)));
                assert(group_views(a).last() == entry_views(g[pos as int]@));
            }
        }
        self.iter.next()
    }
}

/// A compaction keeps each value table's reference count equal to its live
/// references: when the count was the references of the tables the
/// compaction leaves alone (`kept`) plus those of its inputs, the count plus
/// the change for the dropped references is the references of the tables
/// left alone plus those of its output.
pub proof fn lemma_refcount_follows_compaction(
    srcs: Seq<Seq<EntryView>>,
    out: Seq<EntryView>,
    dropped: Seq<EntryView>,
    kept: int,
    count: int,
    id: u32,
)
    requires
        conserves_refs(srcs, out, dropped),
        count == kept + total_refs(srcs, id),
        ref_count(dropped, id) <= 0x8000_0000,
    ensures
        count + drop_delta(ref_count(dropped, id)) == kept + ref_count(out, id),
{
    assert(total_refs(srcs, id) == ref_count(out, id) + ref_count(dropped, id));
}

} // verus!
