//! Choosing the tables of a compaction.
use vstd::prelude::*;
use core::cmp::Ordering;
use crate::order::{lex_lt, lex_le, lemma_lex_order, compare_bytes};
use crate::sstable::{SsTable, ranges_overlap, key_ranges_overlap};
use crate::entry::{Entry, EntryView, entry_fits, spec_entry_size};
use crate::merge::strictly_sorted_keys;

verus! {

/// The key range of a table with at least one block.
pub open spec fn range_of(t: SsTable) -> (Seq<u8>, Seq<u8>) {
    (t.metas@[0].first_key@, t.metas@[t.metas@.len() - 1].last_key@)
}

pub open spec fn nonempty(t: SsTable) -> bool {
    t.metas@.len() > 0
}

/// `[lo, hi]` is closed under overlap for `tables` with `picked`: every
/// picked table lies within it, and every other non-empty table misses it.
pub open spec fn closed_selection(tables: Seq<SsTable>, picked: Seq<bool>, lo: Seq<u8>, hi: Seq<u8>) -> bool {
    &&& picked.len() == tables.len()
    &&& forall|i: int| 0 <= i < tables.len() && #[trigger] picked[i] ==> nonempty(tables[i]) && lex_le(lo, range_of(tables[i]).0) && lex_le(range_of(tables[i]).1, hi)
    &&& forall|i: int| 0 <= i < tables.len() && !(#[trigger] picked[i]) && nonempty(tables[i]) ==> !ranges_overlap(range_of(tables[i]).0, range_of(tables[i]).1, lo, hi)
}

/// Every table picked in `p` is picked in `q`.
pub open spec fn picked_within(p: Seq<bool>, q: Seq<bool>) -> bool {
    p.len() == q.len() && forall|i: int| 0 <= i < p.len() && #[trigger] p[i] ==> q[i]
}

/// Any selection closed under overlap whose range covers `[lo, hi]` and
/// that picks the tables of `p` picks too the tables picked after the
/// widening to `[lo2, hi2]` with `picked_after`.
pub open spec fn least_step(tables: Seq<SsTable>, p: Seq<bool>, lo: Seq<u8>, hi: Seq<u8>, picked_after: Seq<bool>, lo2: Seq<u8>, hi2: Seq<u8>) -> bool {
    forall|l: Seq<u8>, h: Seq<u8>, q: Seq<bool>| #![trigger closed_selection(tables, q, l, h)]
        closed_selection(tables, q, l, h) && lex_le(l, lo) && lex_le(hi, h) && picked_within(p, q)
            ==> picked_within(picked_after, q) && lex_le(l, lo2) && lex_le(hi2, h)
}

pub open spec fn count_true(s: Seq<bool>) -> nat
    decreases s.len(),
{
    if s.len() == 0 {
        0
    } else {
        count_true(s.drop_last()) + if s.last() { 1nat } else { 0nat }
    }
}

proof fn lemma_count_true_set(s: Seq<bool>, i: int)
    requires
        0 <= i < s.len(),
        !s[i],
    ensures
        count_true(s.update(i, true)) == count_true(s) + 1,
    decreases s.len(),
{
    let t = s.update(i, true);
    if i == s.len() - 1 {
        assert(t.drop_last() =~= s.drop_last());
    } else {
        assert(t.drop_last() =~= s.drop_last().update(i, true));
        lemma_count_true_set(s.drop_last(), i);
    }
}

proof fn lemma_count_true_le(s: Seq<bool>)
    ensures
        count_true(s) <= s.len(),
    decreases s.len(),
{
    if s.len() > 0 {
        lemma_count_true_le(s.drop_last());
    }
}

/// Picks, in `tables`, every non-empty table whose range meets `[lo, hi]`,
/// widening the range to cover it; returns whether it picked any.
fn widen_pass(tables: &Vec<SsTable>, picked: &mut Vec<bool>, lo: &mut Vec<u8>, hi: &mut Vec<u8>) -> (changed: bool)
    requires
        old(picked)@.len() == tables@.len(),
        lex_le(old(lo)@, old(hi)@),
        forall|i: int| 0 <= i < tables@.len() && #[trigger] old(picked)@[i] ==> nonempty(tables@[i]) && lex_le(old(lo)@, range_of(tables@[i]).0) && lex_le(range_of(tables@[i]).1, old(hi)@),
    ensures
        final(picked)@.len() == tables@.len(),
        lex_le(final(lo)@, final(hi)@),
        lex_le(final(lo)@, old(lo)@),
        lex_le(old(hi)@, final(hi)@),
        forall|i: int| 0 <= i < tables@.len() && #[trigger] final(picked)@[i] ==> nonempty(tables@[i]) && lex_le(final(lo)@, range_of(tables@[i]).0) && lex_le(range_of(tables@[i]).1, final(hi)@),
        forall|i: int| 0 <= i < tables@.len() && old(picked)@[i] ==> #[trigger] final(picked)@[i],
        !changed ==> final(picked)@ == old(picked)@ && final(lo)@ == old(lo)@ && final(hi)@ == old(hi)@,
        !changed ==> forall|i: int| 0 <= i < tables@.len() && !(#[trigger] final(picked)@[i]) && nonempty(tables@[i]) ==> !ranges_overlap(range_of(tables@[i]).0, range_of(tables@[i]).1, final(lo)@, final(hi)@),
        changed ==> count_true(final(picked)@) > count_true(old(picked)@),
        count_true(final(picked)@) >= count_true(old(picked)@),
        least_step(tables@, old(picked)@, old(lo)@, old(hi)@, final(picked)@, final(lo)@, final(hi)@),
{
    proof { lemma_lex_order(); }
    let mut changed = false;
    let mut i: usize = 0;
    while i < tables.len()
        invariant
            i <= tables@.len(),
            picked@.len() == tables@.len(),
            lex_le(lo@, hi@),
            lex_le(lo@, old(lo)@),
            lex_le(old(hi)@, hi@),
            forall|j: int| 0 <= j < tables@.len() && #[trigger] picked@[j] ==> nonempty(tables@[j]) && lex_le(lo@, range_of(tables@[j]).0) && lex_le(range_of(tables@[j]).1, hi@),
            forall|j: int| 0 <= j < tables@.len() && old(picked)@[j] ==> #[trigger] picked@[j],
            !changed ==> picked@ == old(picked)@ && lo@ == old(lo)@ && hi@ == old(hi)@,
            !changed ==> forall|j: int| 0 <= j < i && !(#[trigger] picked@[j]) && nonempty(tables@[j]) ==> !ranges_overlap(range_of(tables@[j]).0, range_of(tables@[j]).1, lo@, hi@),
            changed ==> count_true(picked@) > count_true(old(picked)@),
            count_true(picked@) >= count_true(old(picked)@),
            least_step(tables@, old(picked)@, old(lo)@, old(hi)@, picked@, lo@, hi@),
        decreases tables.len() - i,
    {
        proof { lemma_lex_order(); }
        let ghost picked_before = picked@;
        let ghost lo1 = lo@;
        let ghost hi1 = hi@;
        let t = &tables[i];
        if !picked[i] && t.metas.len() > 0 {
            let (tmin, tmax) = t.key_range();
            if key_ranges_overlap(&tmin, &tmax, lo, hi) {
                let ghost sel_a = picked@;
                proof { lemma_count_true_set(sel_a, i as int); }
                picked.set(i, true);
                if matches!(compare_bytes(tmin.as_slice(), lo.as_slice()), Ordering::Less) {
                    *lo = tmin;
                }
                if matches!(compare_bytes(tmax.as_slice(), hi.as_slice()), Ordering::Greater) {
                    *hi = tmax;
                }
                changed = true;
                proof {
                    assert forall|l: Seq<u8>, h: Seq<u8>, q: Seq<bool>| #![trigger closed_selection(tables@, q, l, h)]
                        closed_selection(tables@, q, l, h) && lex_le(l, old(lo)@) && lex_le(old(hi)@, h) && picked_within(old(picked)@, q)
                        implies picked_within(picked@, q) && lex_le(l, lo@) && lex_le(hi@, h) by {
                        assert(picked_within(picked_before, q) && lex_le(l, lo1) && lex_le(hi1, h));
                        let r = range_of(tables@[i as int]);
                        assert(ranges_overlap(r.0, r.1, lo1, hi1));
                        assert(ranges_overlap(r.0, r.1, l, h));
                        assert(q[i as int]);
                        assert(lex_le(l, r.0) && lex_le(r.1, h));
                        assert forall|j: int| 0 <= j < picked@.len() && #[trigger] picked@[j] implies q[j] by {
                            if j != i {
                                assert(picked_before[j]);
                            }
                        }
                    }
                    assert forall|j: int| 0 <= j < tables@.len() && #[trigger] picked@[j] implies nonempty(tables@[j]) && lex_le(lo@, range_of(tables@[j]).0) && lex_le(range_of(tables@[j]).1, hi@) by {
                        if j != i {
                            assert(sel_a[j]);
                        }
                    }
                }
            }
        }
        i = i + 1;
    }
    changed
}

/// Every selection of the two levels that contains `base`'s range and is
/// closed under overlap picks at least the tables of `pa` and `pb`.
pub open spec fn least_selection(la: Seq<SsTable>, lb: Seq<SsTable>, base: SsTable, pa: Seq<bool>, pb: Seq<bool>) -> bool {
    forall|l: Seq<u8>, h: Seq<u8>, q0: Seq<bool>, q1: Seq<bool>|
        #![trigger closed_selection(la, q0, l, h), closed_selection(lb, q1, l, h)]
        closed_selection(la, q0, l, h) && closed_selection(lb, q1, l, h) && lex_le(l, range_of(base).0) && lex_le(range_of(base).1, h)
            ==> picked_within(pa, q0) && picked_within(pb, q1)
}

/// The tables of a compaction from level `level` into the next one, as ids:
/// starting from `base`'s range, every non-empty table of either level whose
/// range meets the range is taken and the range widened to cover it, until
/// no more are taken. On return every taken table lies within the range and
/// every other non-empty table of the two levels misses it.
pub fn select_overlap_sst(levels: &Vec<Vec<SsTable>>, level: usize, base: &SsTable) -> (r: (Vec<u32>, Vec<u32>))
    requires
        level + 1 < levels@.len(),
        base.metas@.len() > 0,
        lex_le(range_of(*base).0, range_of(*base).1),
    ensures
        exists|lo: Seq<u8>, hi: Seq<u8>, sel_a: Seq<bool>, sel_b: Seq<bool>|
            #![trigger closed_selection(levels@[level as int]@, sel_a, lo, hi), closed_selection(levels@[level + 1]@, sel_b, lo, hi)]
        {
            &&& lex_le(lo, range_of(*base).0)
            &&& lex_le(range_of(*base).1, hi)
            &&& closed_selection(levels@[level as int]@, sel_a, lo, hi)
            &&& closed_selection(levels@[level + 1]@, sel_b, lo, hi)
            &&& picked_ids(levels@[level as int]@, sel_a, r.0@)
            &&& picked_ids(levels@[level + 1]@, sel_b, r.1@)
            &&& least_selection(levels@[level as int]@, levels@[level + 1]@, *base, sel_a, sel_b)
        },
{
    let n = levels.len();
    let la = &levels[level];
    let lb = &levels[level + 1];
    let (mut lo, mut hi) = base.key_range();
    let mut pa: Vec<bool> = Vec::new();
    let mut pb: Vec<bool> = Vec::new();
    let mut i: usize = 0;
    while i < la.len()
        invariant
            i <= la@.len(),
            pa@.len() == i,
            forall|j: int| 0 <= j < i ==> !(#[trigger] pa@[j]),
        decreases la.len() - i,
    {
        pa.push(false);
        i = i + 1;
    }
    let mut i: usize = 0;
    while i < lb.len()
        invariant
            i <= lb@.len(),
            pb@.len() == i,
            forall|j: int| 0 <= j < i ==> !(#[trigger] pb@[j]),
        decreases lb.len() - i,
    {
        pb.push(false);
        i = i + 1;
    }
    proof {
        lemma_count_true_le(pa@);
        lemma_count_true_le(pb@);
        assert forall|l: Seq<u8>, h: Seq<u8>, q0: Seq<bool>, q1: Seq<bool>|
            #![trigger closed_selection(la@, q0, l, h), closed_selection(lb@, q1, l, h)]
            closed_selection(la@, q0, l, h) && closed_selection(lb@, q1, l, h) && lex_le(l, range_of(*base).0) && lex_le(range_of(*base).1, h)
                implies picked_within(pa@, q0) && picked_within(pb@, q1) && lex_le(l, lo@) && lex_le(hi@, h) by {
        }
    }
    let mut stable = false;
    while !stable
        invariant
            pa@.len() == la@.len(),
            pb@.len() == lb@.len(),
            lex_le(lo@, hi@),
            lex_le(lo@, range_of(*base).0),
            lex_le(range_of(*base).1, hi@),
            forall|j: int| 0 <= j < la@.len() && #[trigger] pa@[j] ==> nonempty(la@[j]) && lex_le(lo@, range_of(la@[j]).0) && lex_le(range_of(la@[j]).1, hi@),
            forall|j: int| 0 <= j < lb@.len() && #[trigger] pb@[j] ==> nonempty(lb@[j]) && lex_le(lo@, range_of(lb@[j]).0) && lex_le(range_of(lb@[j]).1, hi@),
            stable ==> closed_selection(la@, pa@, lo@, hi@) && closed_selection(lb@, pb@, lo@, hi@),
            count_true(pa@) <= la@.len(),
            count_true(pb@) <= lb@.len(),
            forall|l: Seq<u8>, h: Seq<u8>, q0: Seq<bool>, q1: Seq<bool>|
                #![trigger closed_selection(la@, q0, l, h), closed_selection(lb@, q1, l, h)]
                closed_selection(la@, q0, l, h) && closed_selection(lb@, q1, l, h) && lex_le(l, range_of(*base).0) && lex_le(range_of(*base).1, h)
                    ==> picked_within(pa@, q0) && picked_within(pb@, q1) && lex_le(l, lo@) && lex_le(hi@, h),
        decreases la@.len() + lb@.len() - count_true(pa@) - count_true(pb@) + if stable { 0int } else { 1int },
    {
        proof { lemma_lex_order(); }
        let ghost lo0 = lo@;
        let ghost hi0 = hi@;
        let ghost pa0 = pa@;
        let ghost pb0 = pb@;
        let c1 = widen_pass(la, &mut pa, &mut lo, &mut hi);
        let ghost lo1 = lo@;
        let ghost hi1 = hi@;
        let c2 = widen_pass(lb, &mut pb, &mut lo, &mut hi);
        proof {
            assert forall|l: Seq<u8>, h: Seq<u8>, q0: Seq<bool>, q1: Seq<bool>|
                #![trigger closed_selection(la@, q0, l, h), closed_selection(lb@, q1, l, h)]
                closed_selection(la@, q0, l, h) && closed_selection(lb@, q1, l, h) && lex_le(l, range_of(*base).0) && lex_le(range_of(*base).1, h)
                    implies picked_within(pa@, q0) && picked_within(pb@, q1) && lex_le(l, lo@) && lex_le(hi@, h) by {
                assert(picked_within(pa0, q0) && picked_within(pb0, q1) && lex_le(l, lo0) && lex_le(hi0, h));
                assert(closed_selection(la@, q0, l, h));
                assert(picked_within(pa@, q0) && lex_le(l, lo1) && lex_le(hi1, h));
                assert(closed_selection(lb@, q1, l, h));
            }
        }
        proof {
            lemma_count_true_le(pa@);
            lemma_count_true_le(pb@);
        }
        if !c1 && !c2 {
            stable = true;
        }
    }
    let mut ra: Vec<u32> = Vec::new();
    let mut i: usize = 0;
    while i < la.len()
        invariant
            i <= la@.len(),
            pa@.len() == la@.len(),
            picked_ids(la@.subrange(0, i as int), pa@.subrange(0, i as int), ra@),
        decreases la.len() - i,
    {
        let ghost before = ra@;
        if pa[i] {
            ra.push(la[i].id);
            assert(ra@.drop_last() =~= before);
        }
        proof {
            assert(la@.subrange(0, i as int + 1).drop_last() =~= la@.subrange(0, i as int));
            assert(pa@.subrange(0, i as int + 1).drop_last() =~= pa@.subrange(0, i as int));
            assert(la@.subrange(0, i as int + 1).last() == la@[i as int]);
            assert(pa@.subrange(0, i as int + 1).last() == pa@[i as int]);
        }
        i = i + 1;
    }
    let mut rb: Vec<u32> = Vec::new();
    let mut i: usize = 0;
    while i < lb.len()
        invariant
            i <= lb@.len(),
            pb@.len() == lb@.len(),
            picked_ids(lb@.subrange(0, i as int), pb@.subrange(0, i as int), rb@),
        decreases lb.len() - i,
    {
        let ghost before = rb@;
        if pb[i] {
            rb.push(lb[i].id);
            assert(rb@.drop_last() =~= before);
        }
        proof {
            assert(lb@.subrange(0, i as int + 1).drop_last() =~= lb@.subrange(0, i as int));
            assert(pb@.subrange(0, i as int + 1).drop_last() =~= pb@.subrange(0, i as int));
            assert(lb@.subrange(0, i as int + 1).last() == lb@[i as int]);
            assert(pb@.subrange(0, i as int + 1).last() == pb@[i as int]);
        }
        i = i + 1;
    }
    proof {
        assert(la@.subrange(0, la@.len() as int) =~= la@);
        assert(pa@.subrange(0, la@.len() as int) =~= pa@);
        assert(lb@.subrange(0, lb@.len() as int) =~= lb@);
        assert(pb@.subrange(0, lb@.len() as int) =~= pb@);
        assert(closed_selection(levels@[level as int]@, pa@, lo@, hi@));
        assert(closed_selection(levels@[level + 1]@, pb@, lo@, hi@));
        assert(least_selection(la@, lb@, *base, pa@, pb@));
    }
    (ra, rb)
}

/// `ids` are the ids of the picked tables, in level order.
pub open spec fn picked_ids(tables: Seq<SsTable>, picked: Seq<bool>, ids: Seq<u32>) -> bool
    decreases tables.len(),
{
    if tables.len() == 0 || picked.len() != tables.len() {
        ids.len() == 0 && picked.len() == tables.len()
    } else if picked.last() {
        ids.len() > 0 && ids.last() == tables.last().id && picked_ids(tables.drop_last(), picked.drop_last(), ids.drop_last())
    } else {
        picked_ids(tables.drop_last(), picked.drop_last(), ids)
    }
}

/// The first table of a level, the base of its next compaction.
pub fn pick_base_sst(levels: &Vec<Vec<SsTable>>, level: usize) -> (r: Option<&SsTable>)
    requires
        level < levels@.len(),
    ensures
        levels@[level as int]@.len() == 0 ==> r is None,
        levels@[level as int]@.len() > 0 ==> r == Some(&levels@[level as int]@[0]),
{
    if levels[level].len() == 0 {
        None
    } else {
        Some(&levels[level][0])
    }
}

/// Key ranges pairwise without a common key.
pub open spec fn disjoint_ranges(rs: Seq<(Seq<u8>, Seq<u8>)>) -> bool {
    forall|i: int, j: int| 0 <= i < rs.len() && 0 <= j < rs.len() && i != j ==> !ranges_overlap(#[trigger] rs[i].0, rs[i].1, #[trigger] rs[j].0, rs[j].1)
}

/// A level whose ranges are pairwise disjoint stays so when the compaction's
/// tables are taken out and its output put in: the tables left miss the
/// compaction's range `[lo, hi]`, and the output's ranges lie within it and
/// are pairwise disjoint.
pub proof fn lemma_level_stays_disjoint(kept: Seq<(Seq<u8>, Seq<u8>)>, output: Seq<(Seq<u8>, Seq<u8>)>, lo: Seq<u8>, hi: Seq<u8>)
    requires
        disjoint_ranges(kept),
        disjoint_ranges(output),
        forall|i: int| 0 <= i < kept.len() ==> !ranges_overlap(#[trigger] kept[i].0, kept[i].1, lo, hi),
        forall|i: int| 0 <= i < output.len() ==> lex_le(lo, (#[trigger] output[i]).0) && lex_le(output[i].1, hi) && lex_le(output[i].0, output[i].1),
    ensures
        disjoint_ranges(kept + output),
{
    lemma_lex_order();
    let all = kept + output;
    assert forall|i: int, j: int| 0 <= i < all.len() && 0 <= j < all.len() && i != j implies !ranges_overlap(#[trigger] all[i].0, all[i].1, #[trigger] all[j].0, all[j].1) by {
        if i < kept.len() && j >= kept.len() {
            let o = output[j - kept.len()];
            assert(all[j] == o);
            assert(!ranges_overlap(kept[i].0, kept[i].1, lo, hi));
        } else if i >= kept.len() && j < kept.len() {
            let o = output[i - kept.len()];
            assert(all[i] == o);
            assert(!ranges_overlap(kept[j].0, kept[j].1, lo, hi));
        } else if i < kept.len() {
            assert(all[i] == kept[i] && all[j] == kept[j]);
        } else {
            assert(all[i] == output[i - kept.len()] && all[j] == output[j - kept.len()]);
        }
    }
}

/// Encoded size of `es[from..to]`.
pub open spec fn sum_sizes(es: Seq<EntryView>, from: int, to: int) -> int
    decreases to - from,
{
    if to <= from {
        0
    } else {
        sum_sizes(es, from, to - 1) + spec_entry_size(es[to - 1])
    }
}

/// Where the `a`-th table cut at `starts` ends.
pub open spec fn chunk_end(starts: Seq<usize>, a: int, n: int) -> int {
    if a + 1 < starts.len() {
        starts[a + 1] as int
    } else {
        n
    }
}

/// Where compaction output rolls to a new table: the index of each table's
/// first entry. Each table takes entries while its encoded size stays within
/// `limit`, and always at least one.
pub fn roll_points(entries: &Vec<Entry>, limit: u64) -> (r: Vec<usize>)
    requires
        forall|i: int| 0 <= i < entries@.len() ==> entry_fits((#[trigger] entries@[i])@),
    ensures
        entries@.len() == 0 <==> r@.len() == 0,
        r@.len() > 0 ==> r@[0] == 0,
        forall|a: int, b: int| 0 <= a < b < r@.len() ==> (#[trigger] r@[a]) < (#[trigger] r@[b]),
        forall|a: int| 0 <= a < r@.len() ==> (#[trigger] r@[a]) < entries@.len(),
        forall|a: int| 0 <= a < r@.len() ==> chunk_end(r@, a, entries@.len() as int) - r@[a] == 1
            || sum_sizes(entries_views(entries@), #[trigger] r@[a] as int, chunk_end(r@, a, entries@.len() as int)) <= limit,
        forall|a: int| 0 <= a < r@.len() - 1 ==> sum_sizes(entries_views(entries@), #[trigger] r@[a] as int, r@[a + 1] as int)
            + spec_entry_size(entries@[r@[a + 1] as int]@) > limit,
{
    let ghost es = entries_views(entries@);
    let mut r: Vec<usize> = Vec::new();
    let mut size: u64 = 0;
    let mut i: usize = 0;
    while i < entries.len()
        invariant
            i <= entries@.len(),
            es == entries_views(entries@),
            forall|j: int| 0 <= j < entries@.len() ==> entry_fits((#[trigger] entries@[j])@),
            i == 0 <==> r@.len() == 0,
            r@.len() > 0 ==> r@[0] == 0,
            forall|a: int, b: int| 0 <= a < b < r@.len() ==> (#[trigger] r@[a]) < (#[trigger] r@[b]),
            forall|a: int| 0 <= a < r@.len() ==> (#[trigger] r@[a]) < i,
            r@.len() > 0 ==> size as int == sum_sizes(es, r@[r@.len() - 1] as int, i as int),
            r@.len() > 0 ==> (i - r@[r@.len() - 1] == 1 || size <= limit),
            forall|a: int| 0 <= a < r@.len() - 1 ==> chunk_end(r@, a, entries@.len() as int) - r@[a] == 1
                || sum_sizes(es, #[trigger] r@[a] as int, chunk_end(r@, a, entries@.len() as int)) <= limit,
            forall|a: int| 0 <= a < r@.len() - 1 ==> sum_sizes(es, #[trigger] r@[a] as int, r@[a + 1] as int)
                + spec_entry_size(entries@[r@[a + 1] as int]@) > limit,
        decreases entries.len() - i,
    {
        let s = entries[i].size() as u64;
        let ghost before = r@;
        if i == 0 || size > limit || s > limit - size {
            r.push(i);
            proof {
                assert forall|a: int| 0 <= a < r@.len() - 1 implies chunk_end(r@, a, entries@.len() as int) - r@[a] == 1
                    || sum_sizes(es, #[trigger] r@[a] as int, chunk_end(r@, a, entries@.len() as int)) <= limit by {
                    assert(r@[a] == before[a]);
                    if a + 1 < before.len() {
                        assert(r@[a + 1] == before[a + 1]);
                    }
                }
                assert forall|a: int| 0 <= a < r@.len() - 1 implies sum_sizes(es, #[trigger] r@[a] as int, r@[a + 1] as int)
                    + spec_entry_size(entries@[r@[a + 1] as int]@) > limit by {
                    assert(r@[a] == before[a]);
                    assert(r@[a + 1] == if a + 1 < before.len() { before[a + 1] } else { i });
                }
            }
            size = s;
            assert(sum_sizes(es, i as int, i as int) == 0);
            assert(sum_sizes(es, i as int, i + 1) == sum_sizes(es, i as int, i as int) + spec_entry_size(es[i as int]));
        } else {
            size = size + s;
            assert(sum_sizes(es, r@[r@.len() - 1] as int, i + 1) == sum_sizes(es, r@[r@.len() - 1] as int, i as int) + spec_entry_size(es[i as int]));
        }
        i = i + 1;
    }
    r
}

pub open spec fn entries_views(s: Seq<Entry>) -> Seq<EntryView> {
    s.map_values(|e: Entry| e@)
}

/// The key range of the `a`-th of the tables cut from `s` at `starts`.
pub open spec fn chunk_range(s: Seq<EntryView>, starts: Seq<usize>, a: int) -> (Seq<u8>, Seq<u8>) {
    let end = if a + 1 < starts.len() { starts[a + 1] as int } else { s.len() as int };
    (s[starts[a] as int].key, s[end - 1].key)
}

/// Tables cut from a strictly ascending sequence at increasing points have
/// pairwise disjoint key ranges, each within the sequence's range.
pub proof fn lemma_chunks_disjoint(s: Seq<EntryView>, starts: Seq<usize>)
    requires
        strictly_sorted_keys(s),
        starts.len() > 0,
        starts[0] == 0,
        forall|a: int, b: int| 0 <= a < b < starts.len() ==> (#[trigger] starts[a]) < (#[trigger] starts[b]),
        forall|a: int| 0 <= a < starts.len() ==> (#[trigger] starts[a]) < s.len(),
    ensures
        disjoint_ranges(Seq::new(starts.len(), |a: int| chunk_range(s, starts, a))),
        forall|a: int| 0 <= a < starts.len() ==> lex_le(s[0].key, #[trigger] chunk_range(s, starts, a).0) && lex_le(chunk_range(s, starts, a).1, s[s.len() - 1].key) && lex_le(chunk_range(s, starts, a).0, chunk_range(s, starts, a).1),
{
    lemma_lex_order();
    let rs = Seq::new(starts.len(), |a: int| chunk_range(s, starts, a));
    assert forall|a: int| 0 <= a < starts.len() implies lex_le(s[0].key, #[trigger] chunk_range(s, starts, a).0) && lex_le(chunk_range(s, starts, a).1, s[s.len() - 1].key) && lex_le(chunk_range(s, starts, a).0, chunk_range(s, starts, a).1) by {
        let end = if a + 1 < starts.len() { starts[a + 1] as int } else { s.len() as int };
        if starts[a] > 0 {
            assert(lex_lt(s[0].key, s[starts[a] as int].key));
        }
        if end - 1 < s.len() - 1 {
            assert(lex_lt(s[end - 1].key, s[s.len() - 1].key));
        }
        if starts[a] < end - 1 {
            assert(lex_lt(s[starts[a] as int].key, s[end - 1].key));
        }
    }
    assert forall|i: int, j: int| 0 <= i < rs.len() && 0 <= j < rs.len() && i != j implies !ranges_overlap(#[trigger] rs[i].0, rs[i].1, #[trigger] rs[j].0, rs[j].1) by {
        if i < j {
            let ei = starts[i + 1] as int;
            assert(ei <= starts[j]);
            if ei - 1 < starts[j] {
                assert(lex_lt(s[ei - 1].key, s[starts[j] as int].key));
            }
        } else {
            let ej = starts[j + 1] as int;
            assert(ej <= starts[i]);
            assert(lex_lt(s[ej - 1].key, s[starts[i] as int].key));
        }
    }
}

} // verus!
