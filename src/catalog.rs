//! The catalog that the manifest describes, and its replay.
use vstd::prelude::*;
use crate::manifest::ManifestItem;

verus! {

/// Number of levels.
pub const SST_LEVEL_LIMIT: usize = 6;

/// The durable state: the table ids of each level, the live value tables,
/// their reference counts, the frozen journals still to be removed, the
/// highest ids seen, the active journal and the sequence number.
#[derive(Clone)]
pub struct Catalog {
    pub levels: Vec<Vec<u32>>,
    pub vssts: Vec<u32>,
    pub vsst_rc: Vec<(u32, u32)>,
    pub frozen_wals: Vec<u32>,
    pub sst_id: u32,
    pub vsst_id: u32,
    pub log_id: u32,
    pub seq_num: u64,
}

pub struct CatalogView {
    pub levels: Seq<Seq<u32>>,
    pub vssts: Seq<u32>,
    pub vsst_rc: Seq<(u32, u32)>,
    pub frozen_wals: Seq<u32>,
    pub sst_id: u32,
    pub vsst_id: u32,
    pub log_id: u32,
    pub seq_num: u64,
}

impl View for Catalog {
    type V = CatalogView;

    open spec fn view(&self) -> CatalogView {
        CatalogView {
            levels: self.levels@.map_values(|l: Vec<u32>| l@),
            vssts: self.vssts@,
            vsst_rc: self.vsst_rc@,
            frozen_wals: self.frozen_wals@,
            sst_id: self.sst_id,
            vsst_id: self.vsst_id,
            log_id: self.log_id,
            seq_num: self.seq_num,
        }
    }
}

/// `s` without any `x`.
pub open spec fn remove_all(s: Seq<u32>, x: u32) -> Seq<u32>
    decreases s.len(),
{
    if s.len() == 0 {
        s
    } else if s.last() == x {
        remove_all(s.drop_last(), x)
    } else {
        remove_all(s.drop_last(), x).push(s.last())
    }
}

/// `s` with `x` at the end, unless it holds `x` already.
pub open spec fn add_unique(s: Seq<u32>, x: u32) -> Seq<u32> {
    if s.contains(x) {
        s
    } else {
        s.push(x)
    }
}

/// `s` without the pairs whose first component is `x`.
pub open spec fn remove_key(s: Seq<(u32, u32)>, x: u32) -> Seq<(u32, u32)>
    decreases s.len(),
{
    if s.len() == 0 {
        s
    } else if s.last().0 == x {
        remove_key(s.drop_last(), x)
    } else {
        remove_key(s.drop_last(), x).push(s.last())
    }
}

pub open spec fn max_u32(a: u32, b: u32) -> u32 {
    if a > b {
        a
    } else {
        b
    }
}

/// The catalog after one manifest item.
pub open spec fn apply_item(c: CatalogView, m: ManifestItem) -> CatalogView {
    match m {
        ManifestItem::Init(_) => c,
        ManifestItem::NewSst(l, id) => CatalogView {
            levels: if l < c.levels.len() {
                c.levels.update(l as int, c.levels[l as int].push(id))
            } else {
                c.levels
            },
            sst_id: max_u32(c.sst_id, id),
            ..c
        },
        ManifestItem::DelSst(l, id) => CatalogView {
            levels: if l < c.levels.len() {
                c.levels.update(l as int, remove_all(c.levels[l as int], id))
            } else {
                c.levels
            },
            ..c
        },
        ManifestItem::NewVSst(id) => CatalogView { vssts: add_unique(c.vssts, id), vsst_id: max_u32(c.vsst_id, id), ..c },
        ManifestItem::DelVSst(id) => CatalogView { vssts: remove_all(c.vssts, id), vsst_rc: remove_key(c.vsst_rc, id), ..c },
        ManifestItem::VSstRefCnt(id, n) => CatalogView { vsst_rc: remove_key(c.vsst_rc, id).push((id, n)), ..c },
        ManifestItem::MaxSeqNum(s) => CatalogView { seq_num: s, ..c },
        ManifestItem::FreezeAndCreateWal(old, new) => CatalogView {
            frozen_wals: add_unique(c.frozen_wals, old),
            log_id: max_u32(c.log_id, new),
            ..c
        },
        ManifestItem::DelFrozenWal(id) => CatalogView { frozen_wals: remove_all(c.frozen_wals, id), ..c },
    }
}

/// The catalog after `items`, in order, from `c`.
pub open spec fn replay_from(c: CatalogView, items: Seq<ManifestItem>) -> CatalogView
    decreases items.len(),
{
    if items.len() == 0 {
        c
    } else {
        apply_item(replay_from(c, items.drop_last()), items.last())
    }
}

/// The catalog of an empty store.
pub open spec fn empty_catalog() -> CatalogView {
    CatalogView {
        levels: Seq::new(SST_LEVEL_LIMIT as nat, |i: int| Seq::<u32>::empty()),
        vssts: Seq::empty(),
        vsst_rc: Seq::empty(),
        frozen_wals: Seq::empty(),
        sst_id: 0,
        vsst_id: 0,
        log_id: 0,
        seq_num: 1,
    }
}

/// The catalog a manifest describes.
pub open spec fn replay(items: Seq<ManifestItem>) -> CatalogView {
    replay_from(empty_catalog(), items)
}

proof fn lemma_replay_concat(c: CatalogView, a: Seq<ManifestItem>, b: Seq<ManifestItem>)
    ensures
        replay_from(c, a + b) == replay_from(replay_from(c, a), b),
    decreases b.len(),
{
    if b.len() == 0 {
        assert(a + b =~= a);
    } else {
        assert((a + b).drop_last() =~= a + b.drop_last());
        lemma_replay_concat(c, a, b.drop_last());
    }
}

impl Catalog {
    /// The catalog of an empty store.
    pub fn new() -> (r: Catalog)
        ensures
            r@ == empty_catalog(),
    {
        let mut levels: Vec<Vec<u32>> = Vec::new();
        let mut i: usize = 0;
        while i < SST_LEVEL_LIMIT
            invariant
                i <= SST_LEVEL_LIMIT,
                levels@.len() == i,
                forall|j: int| 0 <= j < i ==> (#[trigger] levels@[j])@ == Seq::<u32>::empty(),
            decreases SST_LEVEL_LIMIT - i,
        {
            levels.push(Vec::new());
            i = i + 1;
        }
        let r = Catalog {
            levels,
            vssts: Vec::new(),
            vsst_rc: Vec::new(),
            frozen_wals: Vec::new(),
            sst_id: 0,
            vsst_id: 0,
            log_id: 0,
            seq_num: 1,
        };
        assert(r@.levels =~= empty_catalog().levels);
        r
    }

    /// Applies one manifest item.
    pub fn apply(&mut self, m: ManifestItem)
        ensures
            final(self)@ == apply_item(old(self)@, m),
    {
        let ghost c = self@;
        match m {
            ManifestItem::Init(_) => {},
            ManifestItem::NewSst(l, id) => {
                if (l as usize) < self.levels.len() {
                    let mut lv = self.levels[l as usize].clone();
                    lv.push(id);
                    self.levels.set(l as usize, lv);
                }
                self.sst_id = if self.sst_id > id { self.sst_id } else { id };
            },
            ManifestItem::DelSst(l, id) => {
                if (l as usize) < self.levels.len() {
                    let lv = remove_all_exec(&self.levels[l as usize], id);
                    self.levels.set(l as usize, lv);
                }
            },
            ManifestItem::NewVSst(id) => {
                if !contains_exec(&self.vssts, id) {
                    self.vssts.push(id);
                }
                self.vsst_id = if self.vsst_id > id { self.vsst_id } else { id };
            },
            ManifestItem::DelVSst(id) => {
                self.vssts = remove_all_exec(&self.vssts, id);
                self.vsst_rc = remove_key_exec(&self.vsst_rc, id);
            },
            ManifestItem::VSstRefCnt(id, n) => {
                let mut rc = remove_key_exec(&self.vsst_rc, id);
                rc.push((id, n));
                self.vsst_rc = rc;
            },
            ManifestItem::MaxSeqNum(s) => {
                self.seq_num = s;
            },
            ManifestItem::FreezeAndCreateWal(old, new) => {
                if !contains_exec(&self.frozen_wals, old) {
                    self.frozen_wals.push(old);
                }
                self.log_id = if self.log_id > new { self.log_id } else { new };
            },
            ManifestItem::DelFrozenWal(id) => {
                self.frozen_wals = remove_all_exec(&self.frozen_wals, id);
            },
        }
        assert(self@.levels =~= apply_item(c, m).levels);
    }

    /// Applies manifest items in order.
    pub fn apply_items(&mut self, items: &Vec<ManifestItem>)
        ensures
            final(self)@ == replay_from(old(self)@, items@),
    {
        let ghost start = self@;
        let mut i: usize = 0;
        while i < items.len()
            invariant
                i <= items@.len(),
                self@ == replay_from(start, items@.subrange(0, i as int)),
            decreases items.len() - i,
        {
            self.apply(items[i]);
            proof {
                assert(items@.subrange(0, i as int + 1).drop_last() =~= items@.subrange(0, i as int));
            }
            i = i + 1;
        }
        assert(items@.subrange(0, i as int) =~= items@);
    }

    /// Replays manifest items, in order, from an empty catalog.
    pub fn replay(items: &Vec<ManifestItem>) -> (r: Catalog)
        ensures
            r@ == replay(items@),
    {
        let mut c = Catalog::new();
        let mut i: usize = 0;
        while i < items.len()
            invariant
                i <= items@.len(),
                c@ == replay(items@.subrange(0, i as int)),
            decreases items.len() - i,
        {
            c.apply(items[i]);
            proof {
                assert(items@.subrange(0, i as int + 1).drop_last() =~= items@.subrange(0, i as int));
            }
            i = i + 1;
        }
        assert(items@.subrange(0, i as int) =~= items@);
        c
    }
}

pub fn contains_exec(v: &Vec<u32>, x: u32) -> (r: bool)
    ensures
        r == v@.contains(x),
{
    let mut i: usize = 0;
    while i < v.len()
        invariant
            i <= v@.len(),
            forall|j: int| 0 <= j < i ==> v@[j] != x,
        decreases v.len() - i,
    {
        if v[i] == x {
            return true;
        }
        i = i + 1;
    }
    false
}

pub fn remove_all_exec(v: &Vec<u32>, x: u32) -> (r: Vec<u32>)
    ensures
        r@ == remove_all(v@, x),
{
    let mut out: Vec<u32> = Vec::new();
    let mut i: usize = 0;
    while i < v.len()
        invariant
            i <= v@.len(),
            out@ == remove_all(v@.subrange(0, i as int), x),
        decreases v.len() - i,
    {
        if v[i] != x {
            out.push(v[i]);
        }
        proof {
            assert(v@.subrange(0, i as int + 1).drop_last() =~= v@.subrange(0, i as int));
        }
        i = i + 1;
    }
    assert(v@.subrange(0, i as int) =~= v@);
    out
}

pub fn remove_key_exec(v: &Vec<(u32, u32)>, x: u32) -> (r: Vec<(u32, u32)>)
    ensures
        r@ == remove_key(v@, x),
{
    let mut out: Vec<(u32, u32)> = Vec::new();
    let mut i: usize = 0;
    while i < v.len()
        invariant
            i <= v@.len(),
            out@ == remove_key(v@.subrange(0, i as int), x),
        decreases v.len() - i,
    {
        if v[i].0 != x {
            out.push(v[i]);
        }
        proof {
            assert(v@.subrange(0, i as int + 1).drop_last() =~= v@.subrange(0, i as int));
        }
        i = i + 1;
    }
    assert(v@.subrange(0, i as int) =~= v@);
    out
}

pub open spec fn newsst_items(l: nat, ids: Seq<u32>) -> Seq<ManifestItem> {
    ids.map_values(|id: u32| ManifestItem::NewSst(l as u32, id))
}

/// `NewSst` items for the first `n` levels, level by level.
pub open spec fn sst_items(levels: Seq<Seq<u32>>, n: nat) -> Seq<ManifestItem>
    decreases n,
{
    if n == 0 {
        Seq::empty()
    } else {
        sst_items(levels, (n - 1) as nat) + newsst_items((n - 1) as nat, levels[n - 1])
    }
}

pub open spec fn vsst_items(vs: Seq<u32>) -> Seq<ManifestItem> {
    vs.map_values(|id: u32| ManifestItem::NewVSst(id))
}

pub open spec fn rc_items(rc: Seq<(u32, u32)>) -> Seq<ManifestItem> {
    rc.map_values(|p: (u32, u32)| ManifestItem::VSstRefCnt(p.0, p.1))
}

pub open spec fn wal_items(log_id: u32, frozen: Seq<u32>) -> Seq<ManifestItem> {
    seq![ManifestItem::FreezeAndCreateWal(log_id, log_id), ManifestItem::DelFrozenWal(log_id)]
        + frozen.map_values(|w: u32| ManifestItem::FreezeAndCreateWal(w, log_id))
}

/// The items that describe a catalog from scratch, written to a fresh
/// manifest when the store opens.
pub open spec fn snapshot_of(levels: Seq<Seq<u32>>, vssts: Seq<u32>, rc: Seq<(u32, u32)>, seq_num: u64, log_id: u32, frozen: Seq<u32>) -> Seq<ManifestItem> {
    seq![ManifestItem::Init(1)] + sst_items(levels, SST_LEVEL_LIMIT as nat) + vsst_items(vssts) + rc_items(rc)
        + seq![ManifestItem::MaxSeqNum(seq_num)] + wal_items(log_id, frozen)
}

pub open spec fn snapshot(c: CatalogView) -> Seq<ManifestItem> {
    snapshot_of(c.levels, c.vssts, c.vsst_rc, c.seq_num, c.log_id, c.frozen_wals)
}

/// The parts of a catalog that a snapshot records.
pub open spec fn same_live(a: CatalogView, b: CatalogView) -> bool {
    &&& a.levels == b.levels
    &&& a.vssts == b.vssts
    &&& a.vsst_rc == b.vsst_rc
    &&& a.frozen_wals == b.frozen_wals
    &&& a.log_id == b.log_id
    &&& a.seq_num == b.seq_num
}

/// Six levels; value tables, reference-count ids and frozen journals each
/// listed once.
pub open spec fn catalog_wf(c: CatalogView) -> bool {
    &&& c.levels.len() == SST_LEVEL_LIMIT
    &&& c.vssts.no_duplicates()
    &&& c.frozen_wals.no_duplicates()
    &&& forall|i: int, j: int| 0 <= i < j < c.vsst_rc.len() ==> (#[trigger] c.vsst_rc[i]).0 != (#[trigger] c.vsst_rc[j]).0
}

proof fn lemma_newsst(x: CatalogView, l: nat, ids: Seq<u32>)
    requires
        l < x.levels.len(),
        l < SST_LEVEL_LIMIT,
    ensures
        replay_from(x, newsst_items(l, ids)) == (CatalogView {
            levels: x.levels.update(l as int, x.levels[l as int] + ids),
            sst_id: replay_from(x, newsst_items(l, ids)).sst_id,
            ..x
        }),
    decreases ids.len(),
{
    if ids.len() == 0 {
        assert(x.levels[l as int] + ids =~= x.levels[l as int]);
        assert(x.levels.update(l as int, x.levels[l as int]) =~= x.levels);
    } else {
        assert(newsst_items(l, ids).drop_last() =~= newsst_items(l, ids.drop_last()));
        assert(newsst_items(l, ids).last() == ManifestItem::NewSst(l as u32, ids.last()));
        lemma_newsst(x, l, ids.drop_last());
        assert(x.levels[l as int] + ids =~= (x.levels[l as int] + ids.drop_last()).push(ids.last()));
        let y = replay_from(x, newsst_items(l, ids.drop_last()));
        assert(y.levels.update(l as int, y.levels[l as int].push(ids.last())) =~= x.levels.update(l as int, x.levels[l as int] + ids));
    }
}

proof fn lemma_sst_items(x: CatalogView, levels: Seq<Seq<u32>>, n: nat)
    requires
        x.levels.len() == levels.len(),
        levels.len() == SST_LEVEL_LIMIT,
        n <= levels.len(),
        forall|l: int| 0 <= l < levels.len() ==> (#[trigger] x.levels[l]) == Seq::<u32>::empty(),
    ensures
        replay_from(x, sst_items(levels, n)) == (CatalogView {
            levels: Seq::new(levels.len(), |l: int| if l < n { levels[l] } else { Seq::<u32>::empty() }),
            sst_id: replay_from(x, sst_items(levels, n)).sst_id,
            ..x
        }),
    decreases n,
{
    if n == 0 {
        assert(Seq::new(levels.len(), |l: int| if l < 0 { levels[l] } else { Seq::<u32>::empty() }) =~= x.levels);
    } else {
        let m = (n - 1) as nat;
        lemma_sst_items(x, levels, m);
        lemma_replay_concat(x, sst_items(levels, m), newsst_items(m, levels[m as int]));
        let y = replay_from(x, sst_items(levels, m));
        lemma_newsst(y, m, levels[m as int]);
        assert(y.levels.update(m as int, y.levels[m as int] + levels[m as int]) =~= Seq::new(levels.len(), |l: int| if l < n { levels[l] } else { Seq::<u32>::empty() }));
    }
}

proof fn lemma_vsst_items(x: CatalogView, vs: Seq<u32>)
    requires
        x.vssts == Seq::<u32>::empty(),
        vs.no_duplicates(),
    ensures
        replay_from(x, vsst_items(vs)) == (CatalogView {
            vssts: vs,
            vsst_id: replay_from(x, vsst_items(vs)).vsst_id,
            ..x
        }),
    decreases vs.len(),
{
    if vs.len() > 0 {
        assert(vsst_items(vs).drop_last() =~= vsst_items(vs.drop_last()));
        assert(vsst_items(vs).last() == ManifestItem::NewVSst(vs.last()));
        lemma_vsst_items(x, vs.drop_last());
        assert(!vs.drop_last().contains(vs.last()));
        assert(vs.drop_last().push(vs.last()) =~= vs);
    } else {
        assert(vs =~= Seq::<u32>::empty());
    }
}

proof fn lemma_remove_key_absent(s: Seq<(u32, u32)>, k: u32)
    requires
        forall|i: int| 0 <= i < s.len() ==> (#[trigger] s[i]).0 != k,
    ensures
        remove_key(s, k) == s,
    decreases s.len(),
{
    if s.len() > 0 {
        lemma_remove_key_absent(s.drop_last(), k);
        assert(s.drop_last().push(s.last()) =~= s);
    }
}

proof fn lemma_rc_items(x: CatalogView, rc: Seq<(u32, u32)>)
    requires
        x.vsst_rc == Seq::<(u32, u32)>::empty(),
        forall|i: int, j: int| 0 <= i < j < rc.len() ==> (#[trigger] rc[i]).0 != (#[trigger] rc[j]).0,
    ensures
        replay_from(x, rc_items(rc)) == (CatalogView { vsst_rc: rc, ..x }),
    decreases rc.len(),
{
    if rc.len() > 0 {
        let pre = rc.drop_last();
        assert(rc_items(rc).drop_last() =~= rc_items(pre));
        assert(rc_items(rc).last() == ManifestItem::VSstRefCnt(rc.last().0, rc.last().1));
        lemma_rc_items(x, pre);
        assert forall|i: int| 0 <= i < pre.len() implies (#[trigger] pre[i]).0 != rc.last().0 by {
            assert(pre[i] == rc[i]);
        }
        lemma_remove_key_absent(pre, rc.last().0);
        assert(pre.push(rc.last()) =~= rc);
    } else {
        assert(rc =~= Seq::<(u32, u32)>::empty());
    }
}

proof fn lemma_frozen_items(x: CatalogView, log_id: u32, frozen: Seq<u32>)
    requires
        x.frozen_wals == Seq::<u32>::empty(),
        x.log_id == log_id,
        frozen.no_duplicates(),
    ensures
        replay_from(x, frozen.map_values(|w: u32| ManifestItem::FreezeAndCreateWal(w, log_id))) == (CatalogView { frozen_wals: frozen, ..x }),
    decreases frozen.len(),
{
    if frozen.len() > 0 {
        let pre = frozen.drop_last();
        assert(frozen.map_values(|w: u32| ManifestItem::FreezeAndCreateWal(w, log_id)).drop_last() =~= pre.map_values(|w: u32| ManifestItem::FreezeAndCreateWal(w, log_id)));
        assert(frozen.map_values(|w: u32| ManifestItem::FreezeAndCreateWal(w, log_id)).last() == ManifestItem::FreezeAndCreateWal(frozen.last(), log_id));
        lemma_frozen_items(x, log_id, pre);
        assert(!pre.contains(frozen.last()));
        assert(pre.push(frozen.last()) =~= frozen);
    } else {
        assert(frozen =~= Seq::<u32>::empty());
    }
}

/// Replaying the snapshot of a catalog gives back every part the snapshot
/// records; so opening a store twice, each time replaying the manifest and
/// writing its snapshot, gives the same catalog both times.
pub proof fn lemma_open_is_idempotent(c: CatalogView)
    requires
        catalog_wf(c),
    ensures
        same_live(replay(snapshot(c)), c),
        replay(snapshot(replay(snapshot(c)))) == replay(snapshot(c)),
{
    let e = empty_catalog();
    let s0 = seq![ManifestItem::Init(1)];
    let s1 = sst_items(c.levels, SST_LEVEL_LIMIT as nat);
    let s2 = vsst_items(c.vssts);
    let s3 = rc_items(c.vsst_rc);
    let s4 = seq![ManifestItem::MaxSeqNum(c.seq_num)];
    let w0 = seq![ManifestItem::FreezeAndCreateWal(c.log_id, c.log_id), ManifestItem::DelFrozenWal(c.log_id)];
    let w1 = c.frozen_wals.map_values(|w: u32| ManifestItem::FreezeAndCreateWal(w, c.log_id));
    assert(snapshot(c) =~= s0 + s1 + s2 + s3 + s4 + w0 + w1);
    lemma_replay_concat(e, s0 + s1 + s2 + s3 + s4 + w0, w1);
    lemma_replay_concat(e, s0 + s1 + s2 + s3 + s4, w0);
    lemma_replay_concat(e, s0 + s1 + s2 + s3, s4);
    lemma_replay_concat(e, s0 + s1 + s2, s3);
    lemma_replay_concat(e, s0 + s1, s2);
    lemma_replay_concat(e, s0, s1);
    assert(s0.drop_last() =~= Seq::<ManifestItem>::empty());
    assert(replay_from(e, s0.drop_last()) == e);
    assert(s0.last() == ManifestItem::Init(1));
    let x0 = replay_from(e, s0);
    assert(x0 == e);
    lemma_sst_items(x0, c.levels, SST_LEVEL_LIMIT as nat);
    let x1 = replay_from(x0, s1);
    assert(x1.levels =~= c.levels);
    lemma_vsst_items(x1, c.vssts);
    let x2 = replay_from(x1, s2);
    lemma_rc_items(x2, c.vsst_rc);
    let x3 = replay_from(x2, s3);
    assert(s4.drop_last() =~= Seq::<ManifestItem>::empty());
    assert(replay_from(x3, s4.drop_last()) == x3);
    assert(s4.last() == ManifestItem::MaxSeqNum(c.seq_num));
    let x4 = replay_from(x3, s4);
    assert(x4.seq_num == c.seq_num);
    assert(w0.drop_last() =~= seq![ManifestItem::FreezeAndCreateWal(c.log_id, c.log_id)]);
    assert(w0.drop_last().drop_last() =~= Seq::<ManifestItem>::empty());
    assert(replay_from(x4, w0.drop_last().drop_last()) == x4);
    assert(w0.drop_last().last() == ManifestItem::FreezeAndCreateWal(c.log_id, c.log_id));
    assert(w0.last() == ManifestItem::DelFrozenWal(c.log_id));
    let x5 = replay_from(x4, w0);
    assert(x4.frozen_wals == Seq::<u32>::empty());
    assert(x4.log_id == 0);
    let x45 = replay_from(x4, w0.drop_last());
    assert(x45.frozen_wals =~= seq![c.log_id]);
    assert(x45.log_id == c.log_id);
    assert(add_unique(Seq::<u32>::empty(), c.log_id) =~= seq![c.log_id]);
    assert(remove_all(seq![c.log_id], c.log_id) =~= Seq::<u32>::empty()) by {
        assert(seq![c.log_id].drop_last() =~= Seq::<u32>::empty());
        assert(remove_all(Seq::<u32>::empty(), c.log_id) == Seq::<u32>::empty());
    }
    assert(x5.frozen_wals =~= Seq::<u32>::empty());
    assert(x5.log_id == c.log_id);
    lemma_frozen_items(x5, c.log_id, c.frozen_wals);
    let d = replay(snapshot(c));
    assert(same_live(d, c));
    assert(snapshot(d) == snapshot(c));
}

proof fn lemma_remove_all(s: Seq<u32>, x: u32)
    ensures
        forall|y: u32| #[trigger] remove_all(s, x).contains(y) ==> s.contains(y) && y != x,
        s.no_duplicates() ==> remove_all(s, x).no_duplicates(),
    decreases s.len(),
{
    if s.len() > 0 {
        let pre = s.drop_last();
        lemma_remove_all(pre, x);
        let r0 = remove_all(pre, x);
        assert forall|y: u32| remove_all(s, x).contains(y) implies s.contains(y) && y != x by {
            let r = remove_all(s, x);
            if s.last() == x {
                assert(r == r0);
                assert(r0.contains(y));
                let j = choose|j: int| 0 <= j < pre.len() && pre[j] == y;
                assert(s[j] == y);
            } else {
                assert(r == r0.push(s.last()));
                if y == s.last() {
                    assert(s[s.len() - 1] == y);
                } else {
                    let k = choose|k: int| 0 <= k < r.len() && r[k] == y;
                    assert(k < r0.len());
                    assert(r0[k] == y);
                    assert(r0.contains(y));
                    let j = choose|j: int| 0 <= j < pre.len() && pre[j] == y;
                    assert(s[j] == y);
                }
            }
        }
        if s.no_duplicates() {
            assert(pre.no_duplicates()) by {
                assert forall|i: int, j: int| 0 <= i < pre.len() && 0 <= j < pre.len() && i != j implies pre[i] != pre[j] by {
                    assert(pre[i] == s[i] && pre[j] == s[j]);
                }
            }
            if s.last() != x {
                assert(!r0.contains(s.last())) by {
                    if r0.contains(s.last()) {
                        let j = choose|j: int| 0 <= j < pre.len() && pre[j] == s.last();
                        assert(s[j] == s[s.len() - 1]);
                    }
                }
                let r = r0.push(s.last());
                assert forall|i: int, j: int| 0 <= i < r.len() && 0 <= j < r.len() && i != j implies r[i] != r[j] by {
                    if i < r0.len() && j < r0.len() {
                    } else if i < r0.len() {
                        assert(r0.contains(r[i]));
                    } else {
                        assert(r0.contains(r[j]));
                    }
                }
            }
        }
    }
}

proof fn lemma_remove_key(s: Seq<(u32, u32)>, x: u32)
    ensures
        forall|i: int| 0 <= i < remove_key(s, x).len() ==> (#[trigger] remove_key(s, x)[i]).0 != x && exists|j: int| 0 <= j < s.len() && s[j] == remove_key(s, x)[i],
        keys_unique(s) ==> keys_unique(remove_key(s, x)),
    decreases s.len(),
{
    if s.len() > 0 {
        let pre = s.drop_last();
        lemma_remove_key(pre, x);
        let r0 = remove_key(pre, x);
        let r = remove_key(s, x);
        assert forall|i: int| 0 <= i < r.len() implies (#[trigger] r[i]).0 != x && exists|j: int| 0 <= j < s.len() && s[j] == r[i] by {
            if s.last().0 != x && i == r0.len() {
                assert(s[s.len() - 1] == r[i]);
            } else {
                assert(r[i] == r0[i]);
                let j = choose|j: int| 0 <= j < pre.len() && pre[j] == r0[i];
                assert(s[j] == pre[j]);
            }
        }
        if keys_unique(s) {
            assert(keys_unique(pre)) by {
                assert forall|i: int, j: int| 0 <= i < j < pre.len() implies (#[trigger] pre[i]).0 != (#[trigger] pre[j]).0 by {
                    assert(pre[i] == s[i] && pre[j] == s[j]);
                }
            }
            assert forall|i: int, j: int| 0 <= i < j < r.len() implies (#[trigger] r[i]).0 != (#[trigger] r[j]).0 by {
                if s.last().0 != x && j == r0.len() {
                    let q = choose|q: int| 0 <= q < pre.len() && pre[q] == r0[i];
                    assert(s[q] == pre[q]);
                    assert(r[i] == r0[i]);
                } else {
                    assert(r[i] == r0[i] && r[j] == r0[j]);
                }
            }
        }
    }
}

/// Ids listed once each.
pub open spec fn keys_unique(rc: Seq<(u32, u32)>) -> bool {
    forall|i: int, j: int| 0 <= i < j < rc.len() ==> (#[trigger] rc[i]).0 != (#[trigger] rc[j]).0
}

proof fn lemma_apply_wf(c: CatalogView, m: ManifestItem)
    requires
        catalog_wf(c),
    ensures
        catalog_wf(apply_item(c, m)),
{
    assert(keys_unique(c.vsst_rc));
    match m {
        ManifestItem::NewVSst(id) => {
            if !c.vssts.contains(id) {
                let r = c.vssts.push(id);
                assert forall|i: int, j: int| 0 <= i < r.len() && 0 <= j < r.len() && i != j implies r[i] != r[j] by {
                    if i < c.vssts.len() && j < c.vssts.len() {
                    } else if i < c.vssts.len() {
                        assert(c.vssts.contains(r[i]));
                    } else {
                        assert(c.vssts.contains(r[j]));
                    }
                }
            }
        },
        ManifestItem::DelVSst(id) => {
            lemma_remove_all(c.vssts, id);
            lemma_remove_key(c.vsst_rc, id);
        },
        ManifestItem::VSstRefCnt(id, n) => {
            lemma_remove_key(c.vsst_rc, id);
            let r0 = remove_key(c.vsst_rc, id);
            let r = r0.push((id, n));
            assert forall|i: int, j: int| 0 <= i < j < r.len() implies (#[trigger] r[i]).0 != (#[trigger] r[j]).0 by {
                if j == r0.len() {
                    assert(r[i] == r0[i]);
                } else {
                    assert(r[i] == r0[i] && r[j] == r0[j]);
                }
            }
        },
        ManifestItem::FreezeAndCreateWal(old, _) => {
            if !c.frozen_wals.contains(old) {
                let r = c.frozen_wals.push(old);
                assert forall|i: int, j: int| 0 <= i < r.len() && 0 <= j < r.len() && i != j implies r[i] != r[j] by {
                    if i < c.frozen_wals.len() && j < c.frozen_wals.len() {
                    } else if i < c.frozen_wals.len() {
                        assert(c.frozen_wals.contains(r[i]));
                    } else {
                        assert(c.frozen_wals.contains(r[j]));
                    }
                }
            }
        },
        ManifestItem::DelFrozenWal(id) => {
            lemma_remove_all(c.frozen_wals, id);
        },
        _ => {},
    }
}

/// Every catalog a manifest describes is well formed.
pub proof fn lemma_replay_wf(items: Seq<ManifestItem>)
    ensures
        catalog_wf(replay(items)),
    decreases items.len(),
{
    if items.len() == 0 {
        assert(empty_catalog().vssts.no_duplicates());
        assert(empty_catalog().frozen_wals.no_duplicates());
    } else {
        lemma_replay_wf(items.drop_last());
        lemma_apply_wf(replay(items.drop_last()), items.last());
    }
}

/// Opening a store twice gives the same catalog both times, whatever its
/// manifest holds: each open replays the manifest and writes the snapshot
/// of what it found.
pub proof fn lemma_reopen_is_idempotent(items: Seq<ManifestItem>)
    ensures
        replay(snapshot(replay(snapshot(replay(items))))) == replay(snapshot(replay(items))),
{
    lemma_replay_wf(items);
    lemma_open_is_idempotent(replay(items));
}

impl Catalog {
    /// The items of this catalog's snapshot.
    pub fn snapshot(&self) -> (r: Vec<ManifestItem>)
        requires
            self.levels@.len() == SST_LEVEL_LIMIT,
        ensures
            r@ == snapshot(self@),
    {
        let ghost c = self@;
        let mut out: Vec<ManifestItem> = Vec::new();
        out.push(ManifestItem::Init(1));
        let mut l: usize = 0;
        while l < SST_LEVEL_LIMIT
            invariant
                l <= SST_LEVEL_LIMIT,
                c == self@,
                self.levels@.len() == SST_LEVEL_LIMIT,
                out@ == seq![ManifestItem::Init(1)] + sst_items(c.levels, l as nat),
            decreases SST_LEVEL_LIMIT - l,
        {
            let lv = &self.levels[l];
            let ghost base = out@;
            let mut i: usize = 0;
            while i < lv.len()
                invariant
                    i <= lv@.len(),
                    l < SST_LEVEL_LIMIT,
                    out@ == base + newsst_items(l as nat, lv@.subrange(0, i as int)),
                decreases lv.len() - i,
            {
                out.push(ManifestItem::NewSst(l as u32, lv[i]));
                proof {
                    assert(newsst_items(l as nat, lv@.subrange(0, i as int + 1)) =~= newsst_items(l as nat, lv@.subrange(0, i as int)).push(ManifestItem::NewSst(l as u32, lv@[i as int])));
                }
                i = i + 1;
            }
            proof {
                assert(lv@.subrange(0, i as int) =~= lv@);
                assert(c.levels[l as int] == lv@);
                assert(seq![ManifestItem::Init(1)] + sst_items(c.levels, (l + 1) as nat) =~= base + newsst_items(l as nat, lv@));
            }
            l = l + 1;
        }
        let ghost b2 = out@;
        let mut i: usize = 0;
        while i < self.vssts.len()
            invariant
                i <= self.vssts@.len(),
                out@ == b2 + vsst_items(self.vssts@.subrange(0, i as int)),
            decreases self.vssts.len() - i,
        {
            out.push(ManifestItem::NewVSst(self.vssts[i]));
            proof {
                assert(vsst_items(self.vssts@.subrange(0, i as int + 1)) =~= vsst_items(self.vssts@.subrange(0, i as int)).push(ManifestItem::NewVSst(self.vssts@[i as int])));
            }
            i = i + 1;
        }
        assert(self.vssts@.subrange(0, i as int) =~= self.vssts@);
        let ghost b3 = out@;
        let mut i: usize = 0;
        while i < self.vsst_rc.len()
            invariant
                i <= self.vsst_rc@.len(),
                out@ == b3 + rc_items(self.vsst_rc@.subrange(0, i as int)),
            decreases self.vsst_rc.len() - i,
        {
            let (id, n) = self.vsst_rc[i];
            out.push(ManifestItem::VSstRefCnt(id, n));
            proof {
                assert(rc_items(self.vsst_rc@.subrange(0, i as int + 1)) =~= rc_items(self.vsst_rc@.subrange(0, i as int)).push(ManifestItem::VSstRefCnt(id, n)));
            }
            i = i + 1;
        }
        assert(self.vsst_rc@.subrange(0, i as int) =~= self.vsst_rc@);
        out.push(ManifestItem::MaxSeqNum(self.seq_num));
        out.push(ManifestItem::FreezeAndCreateWal(self.log_id, self.log_id));
        out.push(ManifestItem::DelFrozenWal(self.log_id));
        let ghost b4 = out@;
        let mut i: usize = 0;
        while i < self.frozen_wals.len()
            invariant
                i <= self.frozen_wals@.len(),
                out@ == b4 + self.frozen_wals@.subrange(0, i as int).map_values(|w: u32| ManifestItem::FreezeAndCreateWal(w, self.log_id)),
            decreases self.frozen_wals.len() - i,
        {
            out.push(ManifestItem::FreezeAndCreateWal(self.frozen_wals[i], self.log_id));
            proof {
                assert(self.frozen_wals@.subrange(0, i as int + 1).map_values(|w: u32| ManifestItem::FreezeAndCreateWal(w, self.log_id)) =~= self.frozen_wals@.subrange(0, i as int).map_values(|w: u32| ManifestItem::FreezeAndCreateWal(w, self.log_id)).push(ManifestItem::FreezeAndCreateWal(self.frozen_wals@[i as int], self.log_id)));
            }
            i = i + 1;
        }
        assert(self.frozen_wals@.subrange(0, i as int) =~= self.frozen_wals@);
        assert(out@ =~= snapshot(self@));
        out
    }
}

} // verus!
