//! The in-memory ordered table of recent writes.
use vstd::prelude::*;
use crossbeam_skiplist::SkipMap;
use std::ops::Bound;
use crate::order::{lex_lt, lex_le, lemma_lex_order, compare_bytes};
use crate::value::{Key, KeyView, OpType};
use core::cmp::Ordering;

verus! {

/// A memtable key: the user key, the sequence number stored as
/// `u64::MAX - seq_num`, and the operation code stored as `255 - code`, so that
/// the tuple's ascending order is the internal-key order (user key ascending,
/// newest version first, a probe before a deletion before a write).
pub type MemKey = (Vec<u8>, u64, u8);

/// The view of a memtable key.
pub type MemKeyView = (Seq<u8>, u64, u8);

pub open spec fn mk_view(k: MemKey) -> MemKeyView {
    (k.0@, k.1, k.2)
}

/// Strict ascending order of memtable keys, as std orders the tuple.
pub open spec fn mk_lt(a: MemKeyView, b: MemKeyView) -> bool {
    lex_lt(a.0, b.0) || (a.0 == b.0 && (a.1 < b.1 || (a.1 == b.1 && a.2 < b.2)))
}

pub open spec fn mk_le(a: MemKeyView, b: MemKeyView) -> bool {
    a == b || mk_lt(a, b)
}

/// The memtable key of an internal key.
pub open spec fn spec_mem_key(k: KeyView) -> MemKeyView {
    (k.user_key, (u64::MAX - k.seq_num) as u64, (255 - k.op_type.spec_encode()) as u8)
}

pub open spec fn code_put() -> u8 {
    (255 - OpType::Put.spec_encode()) as u8
}

pub open spec fn code_delete() -> u8 {
    (255 - OpType::Delete.spec_encode()) as u8
}

/// Declares `crossbeam_skiplist::SkipMap`, the ordered map behind a
/// memtable; its contents are named by `skipmap_contents`.
#[verifier::external_type_specification]
#[verifier::external_body]
#[verifier::reject_recursive_types(K)]
#[verifier::reject_recursive_types(V)]
pub struct ExSkipMap<K, V>(SkipMap<K, V>);

/// The skip map that backs a memtable.
pub type MemMap = SkipMap<MemKey, Vec<u8>>;

/// The entries that a skip map of the memtable holds.
pub uninterp spec fn skipmap_contents(m: MemMap) -> Map<MemKeyView, Seq<u8>>;

pub open spec fn no_entries() -> Map<MemKeyView, Seq<u8>> {
    Map::empty()
}

/// Relies on `SkipMap::new`: a new map is empty.
#[verifier::external_body]
fn skipmap_new() -> (r: MemMap)
    ensures
        skipmap_contents(r) == no_entries(),
{
    SkipMap::new()
}

/// Relies on `SkipMap::insert`: the key maps to the value afterwards, replacing
/// an entry with an equal key; no other entry changes.
#[verifier::external_body]
fn skipmap_insert(m: &mut MemMap, key: MemKey, value: Vec<u8>)
    ensures
        skipmap_contents(*final(m)) == skipmap_contents(*old(m)).insert(mk_view(key), value@),
{
    m.insert(key, value);
}

/// Relies on `SkipMap::lower_bound` with an included bound: the entry with the
/// least key not below `key`, if there is one.
#[verifier::external_body]
fn skipmap_lower_bound(m: &MemMap, key: &MemKey) -> (r: Option<(MemKey, Vec<u8>)>)
    ensures
        match r {
            None => forall|k: MemKeyView| #[trigger] skipmap_contents(*m).contains_key(k) ==> mk_lt(k, mk_view(*key)),
            Some((k, v)) => {
                &&& skipmap_contents(*m).contains_key(mk_view(k))
                &&& skipmap_contents(*m)[mk_view(k)] == v@
                &&& mk_le(mk_view(*key), mk_view(k))
                &&& forall|k2: MemKeyView| #[trigger] skipmap_contents(*m).contains_key(k2) && mk_le(mk_view(*key), k2) ==> mk_le(mk_view(k), k2)
            },
        },
{
    m.lower_bound(Bound::Included(key)).map(|e| (e.key().clone(), e.value().clone()))
}

/// Relies on `SkipMap::range`: the entries whose keys lie between the two
/// included bounds (`None` for no bound), in ascending key order.
#[verifier::external_body]
fn skipmap_range(m: &MemMap, lo: Option<MemKey>, hi: Option<MemKey>) -> (r: Vec<(MemKey, Vec<u8>)>)
    ensures
        forall|i: int, j: int| 0 <= i < j < r@.len() ==> mk_lt(mk_view(#[trigger] r@[i].0), mk_view(#[trigger] r@[j].0)),
        forall|i: int| 0 <= i < r@.len() ==> {
            &&& skipmap_contents(*m).contains_key(mk_view(#[trigger] r@[i].0))
            &&& skipmap_contents(*m)[mk_view(r@[i].0)] == r@[i].1@
        },
        forall|k: MemKeyView| #[trigger] skipmap_contents(*m).contains_key(k) ==> (
            (in_bounds(k, lo, hi)) <==> exists|i: int| 0 <= i < r@.len() && mk_view(#[trigger] r@[i].0) == k),
{
    let lower = match lo {
        Some(k) => Bound::Included(k),
        None => Bound::Unbounded,
    };
    let upper = match hi {
        Some(k) => Bound::Included(k),
        None => Bound::Unbounded,
    };
    m.range((lower, upper)).map(|e| (e.key().clone(), e.value().clone())).collect()
}

pub open spec fn in_bounds(k: MemKeyView, lo: Option<MemKey>, hi: Option<MemKey>) -> bool {
    &&& (lo matches Some(l) ==> mk_le(mk_view(l), k))
    &&& (hi matches Some(h) ==> mk_le(k, mk_view(h)))
}

/// A version of `user_key` in `c` that a reader at `floor` (that is,
/// `u64::MAX - seq`) may see: one not newer than the reader.
pub open spec fn is_candidate(c: Map<MemKeyView, Seq<u8>>, user_key: Seq<u8>, floor: u64, k: MemKeyView) -> bool {
    c.contains_key(k) && k.0 == user_key && k.1 >= floor
}

/// The candidate that sorts first: the newest version the reader may see.
pub open spec fn is_newest(c: Map<MemKeyView, Seq<u8>>, user_key: Seq<u8>, floor: u64, k: MemKeyView) -> bool {
    is_candidate(c, user_key, floor, k) && forall|k2: MemKeyView| #[trigger] is_candidate(c, user_key, floor, k2) ==> mk_le(k, k2)
}

/// What a reader of `user_key` at sequence number `seq` sees: the value of
/// the newest version not newer than `seq`, or `None` when there is no such
/// version or it is a deletion.
pub open spec fn visible_is(c: Map<MemKeyView, Seq<u8>>, user_key: Seq<u8>, seq: u64, value: Option<Seq<u8>>) -> bool {
    let floor = (u64::MAX - seq) as u64;
    match value {
        Some(v) => exists|k: MemKeyView| #[trigger] is_newest(c, user_key, floor, k) && k.2 != code_delete() && c[k] == v,
        None => (forall|k: MemKeyView| !#[trigger] is_candidate(c, user_key, floor, k)) || exists|k: MemKeyView| #[trigger] is_newest(c, user_key, floor, k) && k.2 == code_delete(),
    }
}

/// `m` is the least key of `c` not below `p`.
pub open spec fn least_from(c: Map<MemKeyView, Seq<u8>>, p: MemKeyView, m: MemKeyView) -> bool {
    &&& c.contains_key(m)
    &&& mk_le(p, m)
    &&& forall|k2: MemKeyView| #[trigger] c.contains_key(k2) && mk_le(p, k2) ==> mk_le(m, k2)
}

/// The memtable key of an internal key.
pub fn mem_key(k: &Key) -> (r: MemKey)
    ensures
        mk_view(r) == spec_mem_key(k@),
{
    (k.user_key.clone(), u64::MAX - k.seq_num, 255 - k.op_type.encode())
}

/// The internal key of a memtable key.
pub fn key_of_mem_key(k: &MemKey) -> (r: Key)
    ensures
        r@.user_key == k.0@,
        r@.seq_num == u64::MAX - k.1,
        r@.op_type == OpType::spec_from((255 - k.2) as u8),
{
    Key::new(k.0.clone(), u64::MAX - k.1, OpType::from(255 - k.2))
}

/// Recent writes, ordered by internal key.
pub struct MemTable {
    db: MemMap,
    size: usize,
}

impl MemTable {
    /// The entries held, by memtable key.
    pub closed spec fn contents(&self) -> Map<MemKeyView, Seq<u8>> {
        skipmap_contents(self.db)
    }

    pub closed spec fn spec_size(&self) -> nat {
        self.size as nat
    }

    pub fn new() -> (r: MemTable)
        ensures
            r.contents() == Map::<MemKeyView, Seq<u8>>::empty(),
            r.spec_size() == 0,
    {
        MemTable { db: skipmap_new(), size: 0 }
    }

    /// Inserts a version; the size grows by the key's and value's lengths
    /// (saturating).
    pub fn put(&mut self, key: Key, value: Vec<u8>)
        ensures
            final(self).contents() == old(self).contents().insert(spec_mem_key(key@), value@),
            final(self).spec_size() == if old(self).spec_size() + key@.user_key.len() + 8 + value@.len() <= usize::MAX {
                old(self).spec_size() + key@.user_key.len() + 8 + value@.len()
            } else {
                usize::MAX as nat
            },
    {
        let klen = key.user_key.len();
        let vlen = value.len();
        let mk = mem_key(&key);
        if self.size <= usize::MAX - 8 && klen <= usize::MAX - 8 - self.size && vlen <= usize::MAX - 8 - self.size - klen {
            self.size = self.size + klen + 8 + vlen;
        } else {
            self.size = usize::MAX;
        }
        skipmap_insert(&mut self.db, mk, value);
    }

    /// The newest version of `key.user_key` not newer than `key.seq_num`,
    /// with its value; `None` when there is none or it is a deletion.
    pub fn get(&self, key: &Key) -> (r: Option<(Key, Vec<u8>)>)
        ensures
            r matches Some((k, v)) ==> exists|m: MemKeyView| #[trigger] least_from(self.contents(), spec_mem_key(key@), m) && m.0 == key@.user_key && m.2 != code_delete() && self.contents()[m] == v@ && k@.user_key == m.0 && k@.seq_num == u64::MAX - m.1,
            r is None ==> forall|m: MemKeyView| #[trigger] least_from(self.contents(), spec_mem_key(key@), m) ==> m.0 != key@.user_key || m.2 == code_delete(),
            key@.op_type == OpType::Get ==> visible_is(self.contents(), key@.user_key, key@.seq_num, match r {
                Some((_, v)) => Some(v@),
                None => None,
            }),
            r matches Some((k, _)) ==> k@.user_key == key@.user_key && k@.seq_num <= key@.seq_num,
    {
        let probe = mem_key(key);
        let ghost c = self.contents();
        let ghost floor = (u64::MAX - key.seq_num) as u64;
        let ghost uk = key@.user_key;
        let ghost pv = mk_view(probe);
        proof { lemma_lex_order(); }
        match skipmap_lower_bound(&self.db, &probe) {
            None => {
                proof {
                    if key@.op_type == OpType::Get {
                        assert(probe.2 == 0);
                        assert forall|k: MemKeyView| !#[trigger] is_candidate(c, uk, floor, k) by {
                            if is_candidate(c, uk, floor, k) {
                                assert(mk_lt(k, pv));
                            }
                        }
                    }
                    assert forall|m: MemKeyView| #[trigger] least_from(c, pv, m) implies m.0 != uk || m.2 == code_delete() by {
                        assert(mk_lt(m, pv));
                    }
                }
                None
            },
            Some((k, v)) => {
                let ghost kv = mk_view(k);
                assert(least_from(c, pv, kv));
                if !matches!(compare_bytes(k.0.as_slice(), key.user_key.as_slice()), Ordering::Equal) {
                    proof {
                        if key@.op_type == OpType::Get {
                            assert(probe.2 == 0);
                            assert forall|k2: MemKeyView| !#[trigger] is_candidate(c, uk, floor, k2) by {
                                if is_candidate(c, uk, floor, k2) {
                                    assert(mk_le(pv, k2));
                                    assert(mk_le(kv, k2));
                                }
                            }
                        }
                        assert forall|m: MemKeyView| #[trigger] least_from(c, pv, m) implies m.0 != uk || m.2 == code_delete() by {
                            assert(mk_le(m, kv) && mk_le(kv, m));
                        }
                    }
                    None
                } else {
                    proof {
                        if key@.op_type == OpType::Get {
                            assert(probe.2 == 0);
                            assert(is_candidate(c, uk, floor, kv));
                            assert forall|k2: MemKeyView| #[trigger] is_candidate(c, uk, floor, k2) implies mk_le(kv, k2) by {
                                assert(mk_le(pv, k2));
                            }
                            assert(is_newest(c, uk, floor, kv));
                        }
                    }
                    if k.2 == 255 - OpType::Delete.encode() {
                        proof {
                            assert forall|m: MemKeyView| #[trigger] least_from(c, pv, m) implies m.0 != uk || m.2 == code_delete() by {
                                assert(mk_le(m, kv) && mk_le(kv, m));
                            }
                        }
                        None
                    } else {
                        let ik = key_of_mem_key(&k);
                        Some((ik, v))
                    }
                }
            },
        }
    }

    /// What a reader of `key.user_key` at `key.seq_num` finds here: `None`
    /// when no version of the key is visible; `Some(None)` when the newest
    /// visible one is a deletion; `Some(Some(v))` when it is a write of `v`.
    pub fn probe(&self, key: &Key) -> (r: Option<Option<Vec<u8>>>)
        ensures
            r matches Some(Some(v)) ==> exists|m: MemKeyView| #[trigger] least_from(self.contents(), spec_mem_key(key@), m) && m.0 == key@.user_key && m.2 != code_delete() && self.contents()[m] == v@,
            r matches Some(None) ==> exists|m: MemKeyView| #[trigger] least_from(self.contents(), spec_mem_key(key@), m) && m.0 == key@.user_key && m.2 == code_delete(),
            r is None ==> forall|m: MemKeyView| #[trigger] least_from(self.contents(), spec_mem_key(key@), m) ==> m.0 != key@.user_key,
            key@.op_type == OpType::Get ==> (r is None <==> (forall|k: MemKeyView| !#[trigger] is_candidate(self.contents(), key@.user_key, (u64::MAX - key@.seq_num) as u64, k))),
            key@.op_type == OpType::Get && r is Some ==> visible_is(self.contents(), key@.user_key, key@.seq_num, match r {
                Some(Some(v)) => Some(v@),
                _ => None,
            }),
    {
        let probe = mem_key(key);
        let ghost c = self.contents();
        let ghost floor = (u64::MAX - key.seq_num) as u64;
        let ghost uk = key@.user_key;
        let ghost pv = mk_view(probe);
        proof { lemma_lex_order(); }
        match skipmap_lower_bound(&self.db, &probe) {
            None => {
                proof {
                    if key@.op_type == OpType::Get {
                        assert(probe.2 == 0);
                        assert forall|k: MemKeyView| !#[trigger] is_candidate(c, uk, floor, k) by {
                            if is_candidate(c, uk, floor, k) {
                                assert(mk_lt(k, pv));
                            }
                        }
                    }
                    assert forall|m: MemKeyView| #[trigger] least_from(c, pv, m) implies m.0 != uk by {
                        assert(mk_lt(m, pv));
                    }
                }
                None
            },
            Some((k, v)) => {
                let ghost kv = mk_view(k);
                assert(least_from(c, pv, kv));
                if !matches!(compare_bytes(k.0.as_slice(), key.user_key.as_slice()), Ordering::Equal) {
                    proof {
                        if key@.op_type == OpType::Get {
                            assert(probe.2 == 0);
                            assert forall|k2: MemKeyView| !#[trigger] is_candidate(c, uk, floor, k2) by {
                                if is_candidate(c, uk, floor, k2) {
                                    assert(mk_le(pv, k2));
                                    assert(mk_le(kv, k2));
                                }
                            }
                        }
                        assert forall|m: MemKeyView| #[trigger] least_from(c, pv, m) implies m.0 != uk by {
                            assert(mk_le(m, kv) && mk_le(kv, m));
                        }
                    }
                    None
                } else {
                    proof {
                        if key@.op_type == OpType::Get {
                            assert(probe.2 == 0);
                            assert(is_candidate(c, uk, floor, kv));
                            assert forall|k2: MemKeyView| #[trigger] is_candidate(c, uk, floor, k2) implies mk_le(kv, k2) by {
                                assert(mk_le(pv, k2));
                            }
                            assert(is_newest(c, uk, floor, kv));
                        }
                    }
                    if k.2 == 255 - OpType::Delete.encode() {
                        Some(None)
                    } else {
                        Some(Some(v))
                    }
                }
            },
        }
    }

    /// The versions whose user keys lie within the bounds, taken as
    /// included, in internal-key order, as (user key, value) pairs.
    pub fn scan(&self, lower: &KeyBound, upper: &KeyBound) -> (r: Vec<(Vec<u8>, Vec<u8>)>)
        ensures
            forall|i: int| 0 <= i < r@.len() ==> loosely_within(#[trigger] r@[i].0@, *lower, *upper),
            forall|i: int| 0 <= i < r@.len() ==> has_version(self.contents(), #[trigger] r@[i].0@, r@[i].1@),
            forall|i: int, j: int| 0 <= i < j < r@.len() ==> lex_le(#[trigger] r@[i].0@, #[trigger] r@[j].0@),
            forall|k: MemKeyView| #[trigger] self.contents().contains_key(k) && loosely_within(k.0, *lower, *upper) ==> exists|i: int| 0 <= i < r@.len() && r@[i].0@ == k.0 && r@[i].1@ == self.contents()[k],
            exists|ks: Seq<MemKeyView>| #[trigger] in_key_order(self.contents(), ks, r@),
    {
        let lo = match lower {
            KeyBound::Included(k) => Some((k.clone(), 0u64, 0u8)),
            KeyBound::Excluded(k) => Some((k.clone(), 0u64, 0u8)),
            KeyBound::Unbounded => None,
        };
        let hi = match upper {
            KeyBound::Included(k) => Some((k.clone(), u64::MAX, 255u8)),
            KeyBound::Excluded(k) => Some((k.clone(), u64::MAX, 255u8)),
            KeyBound::Unbounded => None,
        };
        let ents = skipmap_range(&self.db, lo, hi);
        let ghost c = self.contents();
        let mut out: Vec<(Vec<u8>, Vec<u8>)> = Vec::new();
        let mut i: usize = 0;
        while i < ents.len()
            invariant
                i <= ents@.len(),
                out@.len() == i,
                forall|a: int| 0 <= a < i ==> #[trigger] out@[a].0@ == ents@[a].0.0@ && out@[a].1@ == ents@[a].1@,
            decreases ents.len() - i,
        {
            let ghost before = out@;
            let pair = (ents[i].0.0.clone(), ents[i].1.clone());
            out.push(pair);
            proof {
                assert forall|a: int| 0 <= a < i + 1 implies #[trigger] out@[a].0@ == ents@[a].0.0@ && out@[a].1@ == ents@[a].1@ by {
                    if a < i {
                        assert(out@[a] == before[a]);
                    }
                }
            }
            i = i + 1;
        }
        proof {
            lemma_lex_order();
            let ks = ents@.map_values(|e: (MemKey, Vec<u8>)| mk_view(e.0));
            assert(in_key_order(c, ks, out@)) by {
                assert forall|a: int, b: int| 0 <= a < b < ks.len() implies mk_lt(#[trigger] ks[a], #[trigger] ks[b]) by {
                    assert(mk_lt(mk_view(ents@[a].0), mk_view(ents@[b].0)));
                }
                assert forall|a: int| 0 <= a < ks.len() implies c.contains_key(#[trigger] ks[a]) && ks[a].0 == out@[a].0@ && c[ks[a]] == out@[a].1@ by {
                    assert(c.contains_key(mk_view(ents@[a].0)));
                }
            }
            assert forall|k: MemKeyView| in_bounds(k, lo, hi) <==> loosely_within(k.0, *lower, *upper) by {}
            assert forall|a: int| 0 <= a < out@.len() implies has_version(c, #[trigger] out@[a].0@, out@[a].1@) by {
                assert(c.contains_key(mk_view(ents@[a].0)));
            }
            assert forall|a: int, b: int| 0 <= a < b < out@.len() implies lex_le(#[trigger] out@[a].0@, #[trigger] out@[b].0@) by {
                assert(mk_lt(mk_view(ents@[a].0), mk_view(ents@[b].0)));
            }
            assert forall|k: MemKeyView| #[trigger] c.contains_key(k) && loosely_within(k.0, *lower, *upper) implies exists|a: int| 0 <= a < out@.len() && out@[a].0@ == k.0 && out@[a].1@ == c[k] by {
                let b = choose|b: int| 0 <= b < ents@.len() && mk_view(#[trigger] ents@[b].0) == k;
                assert(out@[b].0@ == k.0);
            }
        }
        out
    }

    /// Every entry in ascending key order.
    pub fn entries(&self) -> (r: Vec<(MemKey, Vec<u8>)>)
        ensures
            forall|i: int, j: int| 0 <= i < j < r@.len() ==> mk_lt(mk_view(#[trigger] r@[i].0), mk_view(#[trigger] r@[j].0)),
            forall|i: int| 0 <= i < r@.len() ==> self.contents().contains_key(mk_view(#[trigger] r@[i].0)) && self.contents()[mk_view(r@[i].0)] == r@[i].1@,
            forall|k: MemKeyView| #[trigger] self.contents().contains_key(k) ==> exists|i: int| 0 <= i < r@.len() && mk_view(#[trigger] r@[i].0) == k,
    {
        skipmap_range(&self.db, None, None)
    }

    /// The approximate number of bytes held.
    pub fn size(&self) -> (r: usize)
        ensures
            r == self.spec_size(),
    {
        self.size
    }
}

/// `ks` are the memtable keys of the pairs `r`, in strictly ascending key
/// order: user keys ascending and, for one user key, newest version first.
pub open spec fn in_key_order(c: Map<MemKeyView, Seq<u8>>, ks: Seq<MemKeyView>, r: Seq<(Vec<u8>, Vec<u8>)>) -> bool {
    &&& ks.len() == r.len()
    &&& forall|a: int, b: int| 0 <= a < b < ks.len() ==> mk_lt(#[trigger] ks[a], #[trigger] ks[b])
    &&& forall|a: int| 0 <= a < ks.len() ==> c.contains_key(#[trigger] ks[a]) && ks[a].0 == r[a].0@ && c[ks[a]] == r[a].1@
}

/// Some version of `user_key` in `c` holds `value`.
pub open spec fn has_version(c: Map<MemKeyView, Seq<u8>>, user_key: Seq<u8>, value: Seq<u8>) -> bool {
    exists|k: MemKeyView| #[trigger] c.contains_key(k) && k.0 == user_key && c[k] == value
}

/// A bound of a key range.
#[derive(Clone, Debug)]
pub enum KeyBound {
    Included(Vec<u8>),
    Excluded(Vec<u8>),
    Unbounded,
}

pub open spec fn above_lower(k: Seq<u8>, lower: KeyBound) -> bool {
    match lower {
        KeyBound::Included(l) => lex_le(l@, k),
        KeyBound::Excluded(l) => lex_lt(l@, k),
        KeyBound::Unbounded => true,
    }
}

pub open spec fn below_upper(k: Seq<u8>, upper: KeyBound) -> bool {
    match upper {
        KeyBound::Included(u) => lex_le(k, u@),
        KeyBound::Excluded(u) => lex_lt(k, u@),
        KeyBound::Unbounded => true,
    }
}

/// `k` lies within the two bounds, both taken as included.
pub open spec fn loosely_within(k: Seq<u8>, lower: KeyBound, upper: KeyBound) -> bool {
    &&& (match lower {
        KeyBound::Included(l) => lex_le(l@, k),
        KeyBound::Excluded(l) => lex_le(l@, k),
        KeyBound::Unbounded => true,
    })
    &&& (match upper {
        KeyBound::Included(u) => lex_le(k, u@),
        KeyBound::Excluded(u) => lex_le(k, u@),
        KeyBound::Unbounded => true,
    })
}

/// `k` lies within the two bounds.
pub open spec fn within(k: Seq<u8>, lower: KeyBound, upper: KeyBound) -> bool {
    above_lower(k, lower) && below_upper(k, upper)
}

pub fn key_above_lower(k: &[u8], lower: &KeyBound) -> (r: bool)
    ensures
        r == above_lower(k@, *lower),
{
    proof { lemma_lex_order(); }
    if let KeyBound::Included(l) = lower {
        let c = compare_bytes(l.as_slice(), k);
        !matches!(c, Ordering::Greater)
    } else if let KeyBound::Excluded(l) = lower {
        let c = compare_bytes(l.as_slice(), k);
        matches!(c, Ordering::Less)
    } else {
        true
    }
}

pub fn key_below_upper(k: &[u8], upper: &KeyBound) -> (r: bool)
    ensures
        r == below_upper(k@, *upper),
{
    proof { lemma_lex_order(); }
    if let KeyBound::Included(u) = upper {
        let c = compare_bytes(k, u.as_slice());
        proof { lemma_lex_order(); }
        !matches!(c, Ordering::Greater)
    } else if let KeyBound::Excluded(u) = upper {
        let c = compare_bytes(k, u.as_slice());
        matches!(c, Ordering::Less)
    } else {
        true
    }
}

/// Whether `k` lies within the two bounds.
pub fn key_within(k: &[u8], lower: &KeyBound, upper: &KeyBound) -> (r: bool)
    ensures
        r == within(k@, *lower, *upper),
{
    key_above_lower(k, lower) && key_below_upper(k, upper)
}

} // verus!

verus! {

/// The memtable key of a write of `user_key` at sequence number `seq`:
/// a put for `Some`, a deletion for `None`.
pub open spec fn write_key(user_key: Seq<u8>, seq: u64, value: Option<Seq<u8>>) -> MemKeyView {
    (user_key, (u64::MAX - seq) as u64, if value is Some { code_put() } else { code_delete() })
}

/// The stored value of a write: the value, or empty for a deletion.
pub open spec fn write_value(value: Option<Seq<u8>>) -> Seq<u8> {
    match value {
        Some(v) => v,
        None => Seq::empty(),
    }
}

/// The contents after writing `ops` to `user_key` in order, the i-th at
/// sequence number `seq0 + i + 1`.
pub open spec fn apply_writes(c: Map<MemKeyView, Seq<u8>>, user_key: Seq<u8>, ops: Seq<Option<Seq<u8>>>, seq0: u64) -> Map<MemKeyView, Seq<u8>>
    decreases ops.len(),
{
    if ops.len() == 0 {
        c
    } else {
        let prev = apply_writes(c, user_key, ops.drop_last(), seq0);
        let s = (seq0 + ops.len()) as u64;
        prev.insert(write_key(user_key, s, ops.last()), write_value(ops.last()))
    }
}

/// Every version of `user_key` in `c` is at sequence number `seq` or older.
pub open spec fn versions_not_after(c: Map<MemKeyView, Seq<u8>>, user_key: Seq<u8>, seq: u64) -> bool {
    forall|k: MemKeyView| #[trigger] c.contains_key(k) && k.0 == user_key ==> k.1 >= (u64::MAX - seq) as u64
}

/// A write newer than every version of its key is what a reader at its
/// sequence number, or later, sees: the value for a put, nothing for a
/// deletion.
pub proof fn lemma_write_then_read(c: Map<MemKeyView, Seq<u8>>, user_key: Seq<u8>, value: Option<Seq<u8>>, seq: u64, read_seq: u64)
    requires
        0 < seq <= read_seq,
        versions_not_after(c, user_key, (seq - 1) as u64),
    ensures
        visible_is(c.insert(write_key(user_key, seq, value), write_value(value)), user_key, read_seq, value),
{
    let c2 = c.insert(write_key(user_key, seq, value), write_value(value));
    let w = write_key(user_key, seq, value);
    let floor = (u64::MAX - read_seq) as u64;
    assert(is_candidate(c2, user_key, floor, w));
    assert forall|k2: MemKeyView| #[trigger] is_candidate(c2, user_key, floor, k2) implies mk_le(w, k2) by {
        if k2 != w {
            assert(c.contains_key(k2));
        }
    }
    assert(is_newest(c2, user_key, floor, w));
}

proof fn lemma_apply_writes_versions(c: Map<MemKeyView, Seq<u8>>, user_key: Seq<u8>, ops: Seq<Option<Seq<u8>>>, seq0: u64)
    requires
        seq0 + ops.len() <= u64::MAX,
        versions_not_after(c, user_key, seq0),
    ensures
        versions_not_after(apply_writes(c, user_key, ops, seq0), user_key, (seq0 + ops.len()) as u64),
    decreases ops.len(),
{
    if ops.len() > 0 {
        lemma_apply_writes_versions(c, user_key, ops.drop_last(), seq0);
    }
}

/// Of a series of writes to one key, each at the next sequence number after
/// every earlier version, a reader after the last one sees the last one.
pub proof fn lemma_last_writer_wins(c: Map<MemKeyView, Seq<u8>>, user_key: Seq<u8>, ops: Seq<Option<Seq<u8>>>, seq0: u64)
    requires
        ops.len() > 0,
        seq0 + ops.len() <= u64::MAX,
        versions_not_after(c, user_key, seq0),
    ensures
        visible_is(apply_writes(c, user_key, ops, seq0), user_key, (seq0 + ops.len()) as u64, ops.last()),
{
    let prev = apply_writes(c, user_key, ops.drop_last(), seq0);
    lemma_apply_writes_versions(c, user_key, ops.drop_last(), seq0);
    let s = (seq0 + ops.len()) as u64;
    lemma_write_then_read(prev, user_key, ops.last(), s, s);
}

} // verus!
