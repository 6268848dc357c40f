//! The k-way merge of sorted entry sequences: each key once, in ascending
//! order, taken from the first source that holds it.
use vstd::prelude::*;
use core::cmp::Ordering;
use crate::entry::{Entry, EntryView};
use crate::order::{lex_lt, lex_le, lemma_lex_order, compare_bytes};
use crate::iterator::{ref_count, vsst_ref};

verus! {

/// The first entry of `s` with key `k`.
pub open spec fn first_in(s: Seq<EntryView>, k: Seq<u8>) -> Option<EntryView>
    decreases s.len(),
{
    if s.len() == 0 {
        None
    } else if s[0].key == k {
        Some(s[0])
    } else {
        first_in(s.drop_first(), k)
    }
}

/// The entry with key `k` from the first source that holds one.
pub open spec fn first_of(srcs: Seq<Seq<EntryView>>, k: Seq<u8>) -> Option<EntryView>
    decreases srcs.len(),
{
    if srcs.len() == 0 {
        None
    } else {
        match first_in(srcs[0], k) {
            Some(e) => Some(e),
            None => first_of(srcs.drop_first(), k),
        }
    }
}

/// Keys ascend, repeats allowed.
pub open spec fn sorted_keys(s: Seq<EntryView>) -> bool {
    forall|i: int, j: int| 0 <= i < j < s.len() ==> lex_le(#[trigger] s[i].key, #[trigger] s[j].key)
}

/// Keys strictly ascend.
pub open spec fn strictly_sorted_keys(s: Seq<EntryView>) -> bool {
    forall|i: int, j: int| 0 <= i < j < s.len() ==> lex_lt(#[trigger] s[i].key, #[trigger] s[j].key)
}

pub open spec fn sorted_sources(srcs: Seq<Seq<EntryView>>) -> bool {
    forall|i: int| 0 <= i < srcs.len() ==> sorted_keys(#[trigger] srcs[i])
}

/// `k` is the key of some entry of some source.
pub open spec fn in_sources(srcs: Seq<Seq<EntryView>>, k: Seq<u8>) -> bool {
    exists|i: int, j: int| 0 <= i < srcs.len() && 0 <= j < srcs[i].len() && (#[trigger] srcs[i][j]).key == k
}

/// What merging `srcs` gives: the keys of all sources, each once and in
/// ascending order, each with the entry of the first source that holds it.
pub open spec fn is_merge_of(out: Seq<EntryView>, srcs: Seq<Seq<EntryView>>) -> bool {
    &&& strictly_sorted_keys(out)
    &&& forall|a: int| 0 <= a < out.len() ==> first_of(srcs, (#[trigger] out[a]).key) == Some(out[a])
    &&& forall|k: Seq<u8>| #[trigger] in_sources(srcs, k) ==> has_key(out, k)
}

/// Some entry of `s` has key `k`.
pub open spec fn has_key(s: Seq<EntryView>, k: Seq<u8>) -> bool {
    exists|a: int| 0 <= a < s.len() && (#[trigger] s[a]).key == k
}

pub open spec fn entry_views(s: Seq<Entry>) -> Seq<EntryView> {
    s.map_values(|e: Entry| e@)
}

pub open spec fn views(v: Seq<Vec<Entry>>) -> Seq<Seq<EntryView>> {
    v.map_values(|s: Vec<Entry>| entry_views(s@))
}

proof fn lemma_first_in_none(s: Seq<EntryView>, k: Seq<u8>)
    requires
        forall|j: int| 0 <= j < s.len() ==> (#[trigger] s[j]).key != k,
    ensures
        first_in(s, k) is None,
    decreases s.len(),
{
    if s.len() > 0 {
        assert forall|j: int| 0 <= j < s.drop_first().len() implies (#[trigger] s.drop_first()[j]).key != k by {
            assert(s.drop_first()[j] == s[j + 1]);
        }
        lemma_first_in_none(s.drop_first(), k);
    }
}

proof fn lemma_first_in_at(s: Seq<EntryView>, k: Seq<u8>, c: int)
    requires
        0 <= c < s.len(),
        s[c].key == k,
        forall|j: int| 0 <= j < c ==> (#[trigger] s[j]).key != k,
    ensures
        first_in(s, k) == Some(s[c]),
    decreases c,
{
    if c > 0 {
        assert(s[0].key != k);
        assert forall|j: int| 0 <= j < c - 1 implies (#[trigger] s.drop_first()[j]).key != k by {
            assert(s.drop_first()[j] == s[j + 1]);
        }
        lemma_first_in_at(s.drop_first(), k, c - 1);
    }
}

proof fn lemma_first_of_at(srcs: Seq<Seq<EntryView>>, k: Seq<u8>, w: int, e: EntryView)
    requires
        0 <= w < srcs.len(),
        first_in(srcs[w], k) == Some(e),
        forall|i: int| 0 <= i < w ==> first_in(#[trigger] srcs[i], k) is None,
    ensures
        first_of(srcs, k) == Some(e),
    decreases w,
{
    if w > 0 {
        assert(first_in(srcs[0], k) is None);
        assert forall|i: int| 0 <= i < w - 1 implies first_in(#[trigger] srcs.drop_first()[i], k) is None by {
            assert(srcs.drop_first()[i] == srcs[i + 1]);
        }
        lemma_first_of_at(srcs.drop_first(), k, w - 1, e);
    }
}

/// References to value table `x` among the entries before the cursors.
pub open spec fn consumed_refs(srcs: Seq<Seq<EntryView>>, cur: Seq<usize>, n: int, x: u32) -> int
    decreases n,
{
    if n <= 0 {
        0
    } else {
        consumed_refs(srcs, cur, n - 1, x) + ref_count(srcs[n - 1].subrange(0, cur[n - 1] as int), x)
    }
}

/// References to value table `x` in all entries of all sources.
pub open spec fn total_refs(srcs: Seq<Seq<EntryView>>, x: u32) -> int
    decreases srcs.len(),
{
    if srcs.len() == 0 {
        0
    } else {
        total_refs(srcs.drop_last(), x) + ref_count(srcs.last(), x)
    }
}

/// Every reference of the sources is in the output or among the dropped
/// entries, exactly once.
pub open spec fn conserves_refs(srcs: Seq<Seq<EntryView>>, out: Seq<EntryView>, dropped: Seq<EntryView>) -> bool {
    forall|x: u32| #[trigger] total_refs(srcs, x) == ref_count(out, x) + ref_count(dropped, x)
}

pub open spec fn ref_ind(e: EntryView, x: u32) -> int {
    if vsst_ref(e) == Some(x) {
        1
    } else {
        0
    }
}

proof fn lemma_consume_one(srcs: Seq<Seq<EntryView>>, cur: Seq<usize>, n: int, q: int, x: u32)
    requires
        0 <= q < n,
        n <= srcs.len(),
        n <= cur.len(),
        cur[q] < srcs[q].len(),
        cur[q] + 1 <= usize::MAX,
    ensures
        consumed_refs(srcs, cur.update(q, (cur[q] + 1) as usize), n, x) == consumed_refs(srcs, cur, n, x) + ref_ind(srcs[q][cur[q] as int], x),
    decreases n,
{
    let c2 = cur.update(q, (cur[q] + 1) as usize);
    if q < n - 1 {
        lemma_consume_one(srcs, cur, n - 1, q, x);
        assert(c2[n - 1] == cur[n - 1]);
    } else {
        lemma_consumed_same(srcs, cur, c2, n - 1, x);
        let s = srcs[q];
        assert(s.subrange(0, cur[q] as int + 1).drop_last() =~= s.subrange(0, cur[q] as int));
        assert(s.subrange(0, cur[q] as int + 1).last() == s[cur[q] as int]);
    }
}

proof fn lemma_consumed_same(srcs: Seq<Seq<EntryView>>, c1: Seq<usize>, c2: Seq<usize>, n: int, x: u32)
    requires
        forall|i: int| 0 <= i < n ==> c1[i] == c2[i],
    ensures
        consumed_refs(srcs, c1, n, x) == consumed_refs(srcs, c2, n, x),
    decreases n,
{
    if n > 0 {
        lemma_consumed_same(srcs, c1, c2, n - 1, x);
    }
}

proof fn lemma_consumed_none(srcs: Seq<Seq<EntryView>>, cur: Seq<usize>, n: int, x: u32)
    requires
        forall|i: int| 0 <= i < n ==> cur[i] == 0,
    ensures
        consumed_refs(srcs, cur, n, x) == 0,
    decreases n,
{
    if n > 0 {
        lemma_consumed_none(srcs, cur, n - 1, x);
        assert(srcs[n - 1].subrange(0, 0) =~= Seq::<EntryView>::empty());
    }
}

proof fn lemma_consumed_all(srcs: Seq<Seq<EntryView>>, cur: Seq<usize>, n: int, x: u32)
    requires
        0 <= n <= srcs.len(),
        forall|i: int| 0 <= i < n ==> cur[i] == srcs[i].len(),
    ensures
        consumed_refs(srcs, cur, n, x) == total_refs(srcs.subrange(0, n), x),
    decreases n,
{
    if n > 0 {
        lemma_consumed_all(srcs, cur, n - 1, x);
        assert(srcs.subrange(0, n).drop_last() =~= srcs.subrange(0, n - 1));
        assert(srcs[n - 1].subrange(0, cur[n - 1] as int) =~= srcs[n - 1]);
    }
}

/// Entries left in the sources past the cursors.
pub open spec fn remaining(srcs: Seq<Seq<EntryView>>, cur: Seq<usize>, n: int) -> int
    decreases n,
{
    if n <= 0 {
        0
    } else {
        remaining(srcs, cur, n - 1) + (srcs[n - 1].len() - cur[n - 1])
    }
}

proof fn lemma_remaining_decreases(srcs: Seq<Seq<EntryView>>, c1: Seq<usize>, c2: Seq<usize>, n: int, w: int)
    requires
        0 <= w < n,
        forall|i: int| 0 <= i < n ==> c1[i] <= #[trigger] c2[i],
        c1[w] < c2[w],
    ensures
        remaining(srcs, c2, n) < remaining(srcs, c1, n),
    decreases n,
{
    if n - 1 > w {
        lemma_remaining_decreases(srcs, c1, c2, n - 1, w);
    } else {
        lemma_remaining_le(srcs, c1, c2, n - 1);
    }
}

proof fn lemma_remaining_le(srcs: Seq<Seq<EntryView>>, c1: Seq<usize>, c2: Seq<usize>, n: int)
    requires
        forall|i: int| 0 <= i < n ==> c1[i] <= #[trigger] c2[i],
    ensures
        remaining(srcs, c2, n) <= remaining(srcs, c1, n),
    decreases n,
{
    if n > 0 {
        lemma_remaining_le(srcs, c1, c2, n - 1);
    }
}

proof fn lemma_remaining_nonneg(srcs: Seq<Seq<EntryView>>, cur: Seq<usize>, n: int)
    requires
        n <= srcs.len(),
        n <= cur.len(),
        forall|i: int| 0 <= i < n ==> #[trigger] cur[i] <= srcs[i].len(),
    ensures
        remaining(srcs, cur, n) >= 0,
    decreases n,
{
    if n > 0 {
        lemma_remaining_nonneg(srcs, cur, n - 1);
    }
}

/// Merges sources whose keys ascend into one strictly ascending sequence;
/// of the entries with one key, the first one of the first source holding
/// it is kept. Also returns every entry that was dropped, in the order met.
pub fn merge_entries(srcs: &Vec<Vec<Entry>>) -> (r: (Vec<Entry>, Vec<Entry>, Vec<Vec<Entry>>))
    ensures
        sorted_sources(views(srcs@)) ==> is_merge_of(entry_views(r.0@), views(srcs@)),
        conserves_refs(views(srcs@), entry_views(r.0@), entry_views(r.1@)),
        r.2@.len() == r.0@.len(),
        forall|i: int, j: int| 0 <= i < r.2@.len() && 0 <= j < r.2@[i]@.len() ==> (#[trigger] r.2@[i]@[j]).key@ == r.0@[i].key@,
        flatten_groups(group_views(r.2@)) == entry_views(r.1@),
{
    let ghost vs = views(srcs@);
    let n = srcs.len();
    let mut cur: Vec<usize> = Vec::new();
    let mut z: usize = 0;
    while z < n
        invariant
            z <= n,
            n == srcs@.len(),
            cur@.len() == z,
            forall|i: int| 0 <= i < z ==> cur@[i] == 0,
        decreases n - z,
    {
        cur.push(0);
        z = z + 1;
    }
    let mut out: Vec<Entry> = Vec::new();
    let mut dropped: Vec<Entry> = Vec::new();
    let mut groups: Vec<Vec<Entry>> = Vec::new();
    assert(flatten_groups(group_views(groups@)) =~= entry_views(dropped@));
    let mut done = false;
    proof {
        lemma_remaining_nonneg(vs, cur@, n as int);
        assert forall|x: u32| consumed_refs(vs, cur@, n as int, x) == ref_count(entry_views(out@), x) + ref_count(entry_views(dropped@), x) by {
            lemma_consumed_none(vs, cur@, n as int, x);
            assert(entry_views(out@) =~= Seq::<EntryView>::empty());
            assert(entry_views(dropped@) =~= Seq::<EntryView>::empty());
        }
    }
    while !done
        invariant
            n == srcs@.len(),
            vs == views(srcs@),
            vs.len() == n,
            forall|i: int| 0 <= i < n ==> (#[trigger] vs[i]).len() == srcs@[i]@.len(),
            forall|i: int, j: int| 0 <= i < n && 0 <= j < srcs@[i]@.len() ==> (#[trigger] vs[i][j]) == srcs@[i]@[j]@,
            cur@.len() == n,
            forall|i: int| 0 <= i < n ==> #[trigger] cur@[i] <= srcs@[i]@.len(),
            done ==> forall|i: int| 0 <= i < n ==> #[trigger] cur@[i] == srcs@[i]@.len(),
            entry_views(out@).len() == out@.len(),
            sorted_sources(vs) ==> strictly_sorted_keys(entry_views(out@)),
            sorted_sources(vs) ==> forall|a: int| 0 <= a < out@.len() ==> first_of(vs, (#[trigger] entry_views(out@)[a]).key) == Some(entry_views(out@)[a]),
            sorted_sources(vs) ==> forall|i: int, j: int| 0 <= i < n && 0 <= j < cur@[i] ==> has_key(entry_views(out@), (#[trigger] vs[i][j]).key),
            sorted_sources(vs) && out@.len() > 0 ==> forall|i: int, j: int| 0 <= i < n && cur@[i] <= j < vs[i].len() ==> lex_lt(entry_views(out@)[out@.len() - 1].key, (#[trigger] vs[i][j]).key),
            remaining(vs, cur@, n as int) >= 0,
            forall|x: u32| #[trigger] consumed_refs(vs, cur@, n as int, x) == ref_count(entry_views(out@), x) + ref_count(entry_views(dropped@), x),
            groups@.len() == out@.len(),
            forall|i: int, j: int| 0 <= i < groups@.len() && 0 <= j < groups@[i]@.len() ==> (#[trigger] groups@[i]@[j]).key@ == out@[i].key@,
            flatten_groups(group_views(groups@)) == entry_views(dropped@),
        decreases remaining(vs, cur@, n as int) + if done { 0int } else { 1int },
    {
        // The source with the least head, the first one among equals.
        let mut w: usize = n;
        let mut i: usize = 0;
        while i < n
            invariant
                i <= n,
                n == srcs@.len(),
                cur@.len() == n,
                forall|q: int| 0 <= q < n ==> #[trigger] cur@[q] <= srcs@[q]@.len(),
                w == n || (w < i && cur@[w as int] < srcs@[w as int]@.len()),
                w == n ==> forall|q: int| 0 <= q < i ==> #[trigger] cur@[q] == srcs@[q]@.len(),
                w < n ==> forall|q: int| 0 <= q < i && cur@[q] < srcs@[q]@.len() ==> lex_le(srcs@[w as int]@[cur@[w as int] as int].key@, (#[trigger] srcs@[q]@[cur@[q] as int]).key@),
                w < n ==> forall|q: int| 0 <= q < w && cur@[q] < srcs@[q]@.len() ==> lex_lt(srcs@[w as int]@[cur@[w as int] as int].key@, (#[trigger] srcs@[q]@[cur@[q] as int]).key@),
            decreases n - i,
        {
            proof { lemma_lex_order(); }
            if cur[i] < srcs[i].len() {
                if w == n {
                    w = i;
                } else {
                    let c = compare_bytes(srcs[i][cur[i]].key.as_slice(), srcs[w][cur[w]].key.as_slice());
                    if matches!(c, Ordering::Less) {
                        w = i;
                    }
                }
            }
            i = i + 1;
        }
        if w == n {
            done = true;
        } else {
            proof { lemma_lex_order(); }
            let ghost old_cur = cur@;
            let ghost old_out = out@;
            let ghost ov = entry_views(old_out);
            let m = srcs[w][cur[w]].key.clone();
            let ghost mv = m@;
            let ghost head = vs[w as int][cur@[w as int] as int];
            proof {
                if sorted_sources(vs) {
                    // Every entry not yet taken has a key of at least m.
                    assert forall|i: int, j: int| 0 <= i < n && old_cur[i] <= j < vs[i].len() implies lex_le(mv, (#[trigger] vs[i][j]).key) by {
                        assert(cur@[i] < srcs@[i]@.len());
                        assert(lex_le(mv, srcs@[i]@[cur@[i] as int].key@));
                        assert(sorted_keys(vs[i]));
                        if j > cur@[i] {
                            assert(lex_le(vs[i][cur@[i] as int].key, vs[i][j].key));
                        }
                    }
                    // Every entry taken has a key below m.
                    assert forall|i: int, j: int| 0 <= i < n && 0 <= j < old_cur[i] implies lex_lt((#[trigger] vs[i][j]).key, mv) by {
                        assert(has_key(ov, vs[i][j].key));
                        let a = choose|a: int| 0 <= a < ov.len() && (#[trigger] ov[a]).key == vs[i][j].key;
                        assert(lex_lt(ov[ov.len() - 1].key, head.key));
                        if a < ov.len() - 1 {
                            assert(lex_lt(ov[a].key, ov[ov.len() - 1].key));
                        }
                    }
                    assert forall|q: int| 0 <= q < w implies first_in(#[trigger] vs[q], mv) is None by {
                        assert forall|j: int| 0 <= j < vs[q].len() implies (#[trigger] vs[q][j]).key != mv by {
                            if j >= cur@[q] {
                                assert(cur@[q] < srcs@[q]@.len());
                                assert(lex_lt(mv, srcs@[q]@[cur@[q] as int].key@));
                                assert(sorted_keys(vs[q]));
                                if j > cur@[q] {
                                    assert(lex_le(vs[q][cur@[q] as int].key, vs[q][j].key));
                                }
                            }
                        }
                        lemma_first_in_none(vs[q], mv);
                    }
                    assert forall|j: int| 0 <= j < cur@[w as int] implies (#[trigger] vs[w as int][j]).key != mv by {
                        assert(lex_lt(vs[w as int][j].key, mv));
                    }
                    lemma_first_in_at(vs[w as int], mv, cur@[w as int] as int);
                    lemma_first_of_at(vs, mv, w as int, head);
                }
            }
            let ghost d0 = entry_views(dropped@);
            out.push(srcs[w][cur[w]].duplicate());
            let lw = srcs[w].len();
            assert(cur@[w as int] < lw);
            let nw = cur[w] + 1;
            cur.set(w, nw);
            let ghost start_cur = cur@;
            proof {
                assert(entry_views(out@) =~= ov.push(head));
                assert forall|x: u32| #[trigger] consumed_refs(vs, cur@, n as int, x) == ref_count(entry_views(out@), x) + ref_count(entry_views(dropped@), x) by {
                    lemma_consume_one(vs, old_cur, n as int, w as int, x);
                    assert(ov.push(head).drop_last() =~= ov);
                }
                assert(entry_views(old_out).len() == old_out.len());
                if sorted_sources(vs) && ov.len() > 0 {
                    assert(lex_lt(ov[ov.len() - 1].key, head.key));
                }
            }
            // Move every source past its entries with key m.
            let mut group: Vec<Entry> = Vec::new();
            proof {
                assert(flatten_groups(group_views(groups@)) + entry_views(group@) =~= entry_views(dropped@));
                assert(out@[out@.len() - 1]@ == entry_views(out@)[out@.len() - 1]);
            }
            let mut q: usize = 0;
            while q < n
                invariant
                    q <= n,
                    n == srcs@.len(),
                    vs == views(srcs@),
                    vs.len() == n,
                    forall|i: int| 0 <= i < n ==> (#[trigger] vs[i]).len() == srcs@[i]@.len(),
                    forall|i: int, j: int| 0 <= i < n && 0 <= j < srcs@[i]@.len() ==> (#[trigger] vs[i][j]) == srcs@[i]@[j]@,
                    m@ == mv,
                    groups@.len() + 1 == out@.len(),
                    forall|i: int, j: int| 0 <= i < groups@.len() && 0 <= j < groups@[i]@.len() ==> (#[trigger] groups@[i]@[j]).key@ == out@[i].key@,
                    flatten_groups(group_views(groups@)) + entry_views(group@) == entry_views(dropped@),
                    forall|j: int| 0 <= j < group@.len() ==> (#[trigger] group@[j]).key@ == mv,
                    out@[out@.len() - 1].key@ == mv,
                    head.key == mv,
                    ov == entry_views(old_out),
                    entry_views(out@) == ov.push(head),
                    out@.len() == old_out.len() + 1,
                    sorted_sources(vs) ==> strictly_sorted_keys(ov),
                    sorted_sources(vs) ==> forall|a: int| 0 <= a < ov.len() ==> first_of(vs, (#[trigger] ov[a]).key) == Some(ov[a]),
                    sorted_sources(vs) ==> first_of(vs, mv) == Some(head),
                    sorted_sources(vs) && ov.len() > 0 ==> lex_lt(ov[ov.len() - 1].key, head.key),
                    sorted_sources(vs) ==> forall|i: int, j: int| 0 <= i < n && 0 <= j < old_cur[i] ==> has_key(ov, (#[trigger] vs[i][j]).key),
                    old_cur.len() == n,
                    cur@.len() == n,
                    w < n,
                    old_cur[w as int] < srcs@[w as int]@.len(),
                    vs[w as int][old_cur[w as int] as int].key == mv,
                    forall|i: int| 0 <= i < n ==> #[trigger] cur@[i] <= srcs@[i]@.len(),
                    forall|i: int| 0 <= i < n ==> old_cur[i] <= #[trigger] cur@[i],
                    forall|i: int| q <= i < n ==> #[trigger] cur@[i] == start_cur[i],
                    start_cur == old_cur.update(w as int, (old_cur[w as int] + 1) as usize),
                    cur@[w as int] > old_cur[w as int],
                    forall|x: u32| #[trigger] consumed_refs(vs, cur@, n as int, x) == ref_count(entry_views(out@), x) + ref_count(entry_views(dropped@), x),
                    forall|i: int, j: int| 0 <= i < q && old_cur[i] <= j < cur@[i] ==> (#[trigger] vs[i][j]).key == mv,
                    sorted_sources(vs) ==> forall|i: int, j: int| 0 <= i < q && cur@[i] <= j < vs[i].len() ==> lex_lt(mv, (#[trigger] vs[i][j]).key),
                    sorted_sources(vs) ==> forall|i: int, j: int| 0 <= i < n && old_cur[i] <= j < vs[i].len() ==> lex_le(mv, (#[trigger] vs[i][j]).key),
                decreases n - q,
            {
                proof { lemma_lex_order(); }
                let ghost cq = cur@;
                while cur[q] < srcs[q].len() && matches!(compare_bytes(srcs[q][cur[q]].key.as_slice(), m.as_slice()), Ordering::Equal)
                    invariant
                        q < n,
                        n == srcs@.len(),
                        cur@.len() == n,
                        cq.len() == n,
                        cq[q as int] <= cur@[q as int] <= srcs@[q as int]@.len(),
                        forall|i: int| 0 <= i < n && i != q ==> #[trigger] cur@[i] == cq[i],
                        forall|j: int| cq[q as int] <= j < cur@[q as int] ==> (#[trigger] srcs@[q as int]@[j])@.key == m@,
                        vs == views(srcs@),
                        vs.len() == n,
                        forall|i: int| 0 <= i < n ==> (#[trigger] vs[i]).len() == srcs@[i]@.len(),
                        forall|i: int, j: int| 0 <= i < n && 0 <= j < srcs@[i]@.len() ==> (#[trigger] vs[i][j]) == srcs@[i]@[j]@,
                        forall|x: u32| #[trigger] consumed_refs(vs, cur@, n as int, x) == ref_count(entry_views(out@), x) + ref_count(entry_views(dropped@), x),
                        m@ == mv,
                        groups@.len() + 1 == out@.len(),
                        forall|i: int, j: int| 0 <= i < groups@.len() && 0 <= j < groups@[i]@.len() ==> (#[trigger] groups@[i]@[j]).key@ == out@[i].key@,
                        flatten_groups(group_views(groups@)) + entry_views(group@) == entry_views(dropped@),
                        forall|j: int| 0 <= j < group@.len() ==> (#[trigger] group@[j]).key@ == mv,
                        out@[out@.len() - 1].key@ == mv,
                    decreases srcs@[q as int]@.len() - cur@[q as int],
                {
                    let ghost c1 = cur@;
                    let ghost dv = entry_views(dropped@);
                    let ghost e = vs[q as int][cur@[q as int] as int];
                    let ghost gv = entry_views(group@);
                    let ghost g0 = group@;
                    dropped.push(srcs[q][cur[q]].duplicate());
                    group.push(srcs[q][cur[q]].duplicate());
                    proof {
                        assert(entry_views(group@) =~= gv.push(e));
                        assert(flatten_groups(group_views(groups@)) + gv.push(e) =~= (flatten_groups(group_views(groups@)) + gv).push(e));
                        assert forall|j: int| 0 <= j < group@.len() implies (#[trigger] group@[j]).key@ == mv by {
                            if j < g0.len() {
                                assert(group@[j] == g0[j]);
                            }
                        }
                    }
                    let nc = cur[q] + 1;
                    cur.set(q, nc);
                    proof {
                        assert(entry_views(dropped@) =~= dv.push(e));
                        assert(dv.push(e).drop_last() =~= dv);
                        assert forall|x: u32| #[trigger] consumed_refs(vs, cur@, n as int, x) == ref_count(entry_views(out@), x) + ref_count(entry_views(dropped@), x) by {
                            lemma_consume_one(vs, c1, n as int, q as int, x);
                        }
                    }
                }
                proof {
                    if sorted_sources(vs) {
                        let qi = q as int;
                        assert forall|j: int| cur@[qi] <= j < vs[qi].len() implies lex_lt(mv, (#[trigger] vs[qi][j]).key) by {
                            assert(cur@[qi] < srcs@[qi]@.len());
                            assert(lex_le(mv, vs[qi][cur@[qi] as int].key));
                            assert(vs[qi][cur@[qi] as int].key != mv);
                            assert(sorted_keys(vs[qi]));
                            if j > cur@[qi] {
                                assert(lex_le(vs[qi][cur@[qi] as int].key, vs[qi][j].key));
                            }
                        }
                    }
                    if q == w {
                        assert(srcs@[w as int]@[old_cur[w as int] as int]@.key == mv);
                        assert(cq[q as int] == old_cur[q as int] + 1);
                    } else {
                        assert(cq[q as int] == old_cur[q as int]);
                    }
                }
                q = q + 1;
            }
            let ghost gs0 = groups@;
            let ghost grp = group@;
            groups.push(group);
            proof {
                assert(group_views(groups@).drop_last() =~= group_views(gs0));
                assert(group_views(groups@).last() == entry_views(grp));
                assert forall|i: int, j: int| 0 <= i < groups@.len() && 0 <= j < groups@[i]@.len() implies (#[trigger] groups@[i]@[j]).key@ == out@[i].key@ by {
                    if i < gs0.len() {
                        assert(groups@[i] == gs0[i]);
                    } else {
                        assert(groups@[i]@ == grp);
                    }
                }
            }
            proof {
                lemma_remaining_decreases(vs, old_cur, cur@, n as int, w as int);
                lemma_remaining_nonneg(vs, cur@, n as int);
                if sorted_sources(vs) {
                    let nv = entry_views(out@);
                    assert forall|a: int, b: int| 0 <= a < b < nv.len() implies lex_lt(#[trigger] nv[a].key, #[trigger] nv[b].key) by {
                        if b < ov.len() {
                            assert(lex_lt(ov[a].key, ov[b].key));
                        } else if ov.len() > 0 {
                            assert(lex_lt(ov[ov.len() - 1].key, head.key));
                            if a < ov.len() - 1 {
                                assert(lex_lt(ov[a].key, ov[ov.len() - 1].key));
                            }
                        }
                    }
                    assert forall|a: int| 0 <= a < out@.len() implies first_of(vs, (#[trigger] nv[a]).key) == Some(nv[a]) by {
                        if a < ov.len() {
                            assert(nv[a] == ov[a]);
                        }
                    }
                    assert forall|i: int, j: int| 0 <= i < n && 0 <= j < cur@[i] implies has_key(nv, (#[trigger] vs[i][j]).key) by {
                        if j < old_cur[i] {
                            assert(has_key(ov, vs[i][j].key));
                            let a = choose|a: int| 0 <= a < ov.len() && (#[trigger] ov[a]).key == vs[i][j].key;
                            assert(nv[a] == ov[a]);
                        } else {
                            assert(nv[ov.len() as int].key == vs[i][j].key);
                        }
                    }
                }
            }
        }
    }
    proof {
        assert forall|x: u32| #[trigger] total_refs(vs, x) == ref_count(entry_views(out@), x) + ref_count(entry_views(dropped@), x) by {
            lemma_consumed_all(vs, cur@, n as int, x);
            assert(vs.subrange(0, n as int) =~= vs);
        }
        if sorted_sources(vs) {
            let nv = entry_views(out@);
            assert forall|k: Seq<u8>| #[trigger] in_sources(vs, k) implies has_key(nv, k) by {
                let (i, j) = choose|i: int, j: int| 0 <= i < vs.len() && 0 <= j < vs[i].len() && (#[trigger] vs[i][j]).key == k;
                assert(j < cur@[i]);
            }
        }
    }
    (out, dropped, groups)
}

pub open spec fn group_views(gs: Seq<Vec<Entry>>) -> Seq<Seq<EntryView>> {
    gs.map_values(|g: Vec<Entry>| entry_views(g@))
}

/// The entries of the groups, in order.
pub open spec fn flatten_groups(gs: Seq<Seq<EntryView>>) -> Seq<EntryView>
    decreases gs.len(),
{
    if gs.len() == 0 {
        Seq::empty()
    } else {
        flatten_groups(gs.drop_last()) + gs.last()
    }
}

} // verus!
