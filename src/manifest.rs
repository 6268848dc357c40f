//! Items of the manifest, the log of catalog changes.
use vstd::prelude::*;
use crate::codec::{le_u32, le_u64, u32_at, u64_at, lemma_u32_round_trip, lemma_u64_round_trip, put_u32_le, put_u64_le, get_u32_le, get_u64_le};
use std::sync::Arc;
use crate::record::{Record, RecordItem, spec_log_records, decode_log};

verus! {

/// One durable change of the catalog.
///
/// Encoded as `type:u8 | len:u32 | payload`, where `len` is the payload's
/// length and every integer is little-endian.
#[derive(Copy, Clone, PartialEq, Eq, Debug, Structural)]
pub enum ManifestItem {
    /// A fresh manifest (version).
    Init(i32),
    /// A table joins a level (level, sst id).
    NewSst(u32, u32),
    /// A table leaves a level (level, sst id).
    DelSst(u32, u32),
    /// A value table is created (vsst id).
    NewVSst(u32),
    /// A value table is deleted (vsst id).
    DelVSst(u32),
    /// The reference count of a value table (vsst id, count).
    VSstRefCnt(u32, u32),
    /// The highest sequence number handed out.
    MaxSeqNum(u64),
    /// The active journal is frozen and a new one started (old id, new id).
    FreezeAndCreateWal(u32, u32),
    /// A frozen journal has been flushed and removed (log id).
    DelFrozenWal(u32),
}

impl View for ManifestItem {
    type V = ManifestItem;

    open spec fn view(&self) -> ManifestItem {
        *self
    }
}

pub open spec fn spec_type_code(m: ManifestItem) -> u8 {
    match m {
        ManifestItem::Init(_) => 0,
        ManifestItem::NewSst(_, _) => 1,
        ManifestItem::DelSst(_, _) => 2,
        ManifestItem::NewVSst(_) => 3,
        ManifestItem::DelVSst(_) => 4,
        ManifestItem::MaxSeqNum(_) => 5,
        ManifestItem::VSstRefCnt(_, _) => 6,
        ManifestItem::FreezeAndCreateWal(_, _) => 7,
        ManifestItem::DelFrozenWal(_) => 8,
    }
}

/// Payload length of each item type; `None` for an unknown type.
pub open spec fn spec_payload_len(code: u8) -> Option<nat> {
    if code == 0 || code == 3 || code == 4 || code == 8 {
        Some(4)
    } else if code == 1 || code == 2 || code == 6 || code == 7 || code == 5 {
        Some(8)
    } else {
        None
    }
}

pub open spec fn spec_payload(m: ManifestItem) -> Seq<u8> {
    match m {
        ManifestItem::Init(v) => le_u32(#[verifier::truncate] (v as u32)),
        ManifestItem::NewSst(a, b) => le_u32(a) + le_u32(b),
        ManifestItem::DelSst(a, b) => le_u32(a) + le_u32(b),
        ManifestItem::NewVSst(a) => le_u32(a),
        ManifestItem::DelVSst(a) => le_u32(a),
        ManifestItem::VSstRefCnt(a, b) => le_u32(a) + le_u32(b),
        ManifestItem::MaxSeqNum(s) => le_u64(s),
        ManifestItem::FreezeAndCreateWal(a, b) => le_u32(a) + le_u32(b),
        ManifestItem::DelFrozenWal(a) => le_u32(a),
    }
}

pub open spec fn spec_manifest_item_encode(m: ManifestItem) -> Seq<u8> {
    seq![spec_type_code(m)] + le_u32(spec_payload(m).len() as u32) + spec_payload(m)
}

/// The item of type `code` whose payload starts at `p[0]`.
pub open spec fn spec_parse_payload(code: u8, p: Seq<u8>) -> ManifestItem {
    if code == 0 {
        ManifestItem::Init(#[verifier::truncate] (u32_at(p, 0) as i32))
    } else if code == 1 {
        ManifestItem::NewSst(u32_at(p, 0), u32_at(p, 4))
    } else if code == 2 {
        ManifestItem::DelSst(u32_at(p, 0), u32_at(p, 4))
    } else if code == 3 {
        ManifestItem::NewVSst(u32_at(p, 0))
    } else if code == 4 {
        ManifestItem::DelVSst(u32_at(p, 0))
    } else if code == 5 {
        ManifestItem::MaxSeqNum(u64_at(p, 0))
    } else if code == 6 {
        ManifestItem::VSstRefCnt(u32_at(p, 0), u32_at(p, 4))
    } else if code == 7 {
        ManifestItem::FreezeAndCreateWal(u32_at(p, 0), u32_at(p, 4))
    } else {
        ManifestItem::DelFrozenWal(u32_at(p, 0))
    }
}

/// The item at the front of `s`: a known type whose stored length is the
/// length of that type's payload, and the whole payload present.
pub open spec fn spec_manifest_item_decode(s: Seq<u8>) -> Option<(ManifestItem, nat)> {
    if s.len() < 5 {
        None
    } else {
        match spec_payload_len(s[0]) {
            None => None,
            Some(n) => if u32_at(s, 1) != n || s.len() < 5 + n {
                None
            } else {
                Some((spec_parse_payload(s[0], s.subrange(5, 5 + n as int)), 5 + n))
            },
        }
    }
}

impl ManifestItem {
    /// The item's type code.
    pub fn type_encode(&self) -> (r: u8)
        ensures
            r == spec_type_code(*self),
    {
        match self {
            ManifestItem::Init(_) => 0,
            ManifestItem::NewSst(_, _) => 1,
            ManifestItem::DelSst(_, _) => 2,
            ManifestItem::NewVSst(_) => 3,
            ManifestItem::DelVSst(_) => 4,
            ManifestItem::MaxSeqNum(_) => 5,
            ManifestItem::VSstRefCnt(_, _) => 6,
            ManifestItem::FreezeAndCreateWal(_, _) => 7,
            ManifestItem::DelFrozenWal(_) => 8,
        }
    }

    /// Length of the item's payload.
    pub fn content_size(&self) -> (r: usize)
        ensures
            r == spec_payload(*self).len(),
            spec_payload_len(spec_type_code(*self)) == Some(r as nat),
    {
        match self {
            ManifestItem::NewSst(_, _) => 8,
            ManifestItem::DelSst(_, _) => 8,
            ManifestItem::NewVSst(_) => 4,
            ManifestItem::DelVSst(_) => 4,
            ManifestItem::VSstRefCnt(_, _) => 8,
            ManifestItem::MaxSeqNum(_) => 8,
            ManifestItem::Init(_) => 4,
            ManifestItem::FreezeAndCreateWal(_, _) => 8,
            ManifestItem::DelFrozenWal(_) => 4,
        }
    }

    /// Appends the item's payload.
    pub fn put_content(&self, buf: &mut Vec<u8>)
        ensures
            final(buf)@ == old(buf)@ + spec_payload(*self),
    {
        match self {
            ManifestItem::Init(v) => put_u32_le(buf, *v as u32),
            ManifestItem::NewSst(a, b) => {
                put_u32_le(buf, *a);
                put_u32_le(buf, *b);
                assert(final(buf)@ =~= old(buf)@ + spec_payload(*self));
            },
            ManifestItem::DelSst(a, b) => {
                put_u32_le(buf, *a);
                put_u32_le(buf, *b);
                assert(final(buf)@ =~= old(buf)@ + spec_payload(*self));
            },
            ManifestItem::NewVSst(a) => put_u32_le(buf, *a),
            ManifestItem::DelVSst(a) => put_u32_le(buf, *a),
            ManifestItem::VSstRefCnt(a, b) => {
                put_u32_le(buf, *a);
                put_u32_le(buf, *b);
                assert(final(buf)@ =~= old(buf)@ + spec_payload(*self));
            },
            ManifestItem::MaxSeqNum(s) => put_u64_le(buf, *s),
            ManifestItem::FreezeAndCreateWal(a, b) => {
                put_u32_le(buf, *a);
                put_u32_le(buf, *b);
                assert(final(buf)@ =~= old(buf)@ + spec_payload(*self));
            },
            ManifestItem::DelFrozenWal(a) => put_u32_le(buf, *a),
        }
    }

    /// Decodes an item from the front of `data`.
    pub fn decode(data: &[u8]) -> (r: Option<ManifestItem>)
        ensures
            match r {
                Some(m) => spec_manifest_item_decode(data@) matches Some((v, _)) && v == m,
                None => spec_manifest_item_decode(data@) is None,
            },
    {
        assert(data@.subrange(0, data@.len() as int) =~= data@);
        match <ManifestItem as RecordItem>::decode_at(data, 0) {
            Some((m, _)) => Some(m),
            None => None,
        }
    }
}

proof fn lemma_payload_round_trip(m: ManifestItem, s: Seq<u8>)
    requires
        s.len() >= spec_payload(m).len(),
        s.subrange(0, spec_payload(m).len() as int) == spec_payload(m),
    ensures
        spec_parse_payload(spec_type_code(m), s) == m,
{
    match m {
        ManifestItem::Init(v) => {
            lemma_u32_round_trip(#[verifier::truncate] (v as u32), s, 0);
            assert(#[verifier::truncate] ((#[verifier::truncate] (v as u32)) as i32) == v) by (bit_vector);
        },
        ManifestItem::NewSst(a, b) | ManifestItem::DelSst(a, b) | ManifestItem::VSstRefCnt(a, b)
        | ManifestItem::FreezeAndCreateWal(a, b) => {
            let p = spec_payload(m);
            assert(s.subrange(0, 4) =~= p.subrange(0, 4));
            assert(s.subrange(4, 8) =~= p.subrange(4, 8));
            assert(p.subrange(0, 4) =~= le_u32(a));
            assert(p.subrange(4, 8) =~= le_u32(b));
            lemma_u32_round_trip(a, s, 0);
            lemma_u32_round_trip(b, s, 4);
        },
        ManifestItem::NewVSst(a) | ManifestItem::DelVSst(a) | ManifestItem::DelFrozenWal(a) => {
            lemma_u32_round_trip(a, s, 0);
        },
        ManifestItem::MaxSeqNum(x) => {
            lemma_u64_round_trip(x, s, 0);
        },
    }
}

impl RecordItem for ManifestItem {
    open spec fn spec_encode(v: ManifestItem) -> Seq<u8> {
        spec_manifest_item_encode(v)
    }

    open spec fn spec_decode(s: Seq<u8>) -> Option<(ManifestItem, nat)> {
        spec_manifest_item_decode(s)
    }

    open spec fn spec_fits(v: ManifestItem) -> bool {
        true
    }

    proof fn lemma_decode_encode(v: ManifestItem, rest: Seq<u8>) {
        let p = spec_payload(v);
        let s = spec_manifest_item_encode(v) + rest;
        assert(s[0] == spec_type_code(v));
        assert(s.subrange(1, 5) =~= le_u32(p.len() as u32));
        lemma_u32_round_trip(p.len() as u32, s, 1);
        let q = s.subrange(5, 5 + p.len() as int);
        assert(q =~= p);
        assert(q.subrange(0, p.len() as int) =~= p);
        lemma_payload_round_trip(v, q);
    }

    proof fn lemma_decode_len(s: Seq<u8>) {
    }

    fn encode(&self) -> (r: Vec<u8>) {
        let mut buf: Vec<u8> = Vec::new();
        buf.push(self.type_encode());
        put_u32_le(&mut buf, self.content_size() as u32);
        self.put_content(&mut buf);
        assert(buf@ =~= spec_manifest_item_encode(*self));
        buf
    }

    fn decode_at(data: &[u8], pos: usize) -> (r: Option<(ManifestItem, usize)>) {
        let ghost s = data@.subrange(pos as int, data@.len() as int);
        if data.len() - pos < 5 {
            return None;
        }
        let code = data[pos];
        let len = get_u32_le(data, pos + 1);
        assert(code == s[0]);
        assert(len == u32_at(s, 1));
        let n: usize = if code == 0 || code == 3 || code == 4 || code == 8 {
            4
        } else if code == 1 || code == 2 || code == 6 || code == 7 || code == 5 {
            8
        } else {
            return None;
        };
        if len as usize != n || data.len() - pos - 5 < n {
            return None;
        }
        let p = pos + 5;
        let ghost q = s.subrange(5, 5 + n as int);
        assert(q[0] == data@[p as int]);
        let a = get_u32_le(data, p);
        assert(a == u32_at(q, 0));
        let item = if code == 0 {
            ManifestItem::Init(a as i32)
        } else if code == 3 {
            ManifestItem::NewVSst(a)
        } else if code == 4 {
            ManifestItem::DelVSst(a)
        } else if code == 8 {
            ManifestItem::DelFrozenWal(a)
        } else if code == 5 {
            let x = get_u64_le(data, p);
            assert(x == u64_at(q, 0));
            ManifestItem::MaxSeqNum(x)
        } else {
            let b = get_u32_le(data, p + 4);
            assert(b == u32_at(q, 4));
            if code == 1 {
                ManifestItem::NewSst(a, b)
            } else if code == 2 {
                ManifestItem::DelSst(a, b)
            } else if code == 6 {
                ManifestItem::VSstRefCnt(a, b)
            } else {
                ManifestItem::FreezeAndCreateWal(a, b)
            }
        };
        Some((item, p + n))
    }

    fn duplicate(&self) -> (r: ManifestItem) {
        *self
    }
}

/// A manifest read back from its bytes.
pub struct Manifest {
    pub records: Vec<Arc<Record<ManifestItem>>>,
}

/// The items of records, in order.
pub open spec fn flatten_items(records: Seq<Seq<ManifestItem>>) -> Seq<ManifestItem>
    decreases records.len(),
{
    if records.len() == 0 {
        Seq::empty()
    } else {
        flatten_items(records.drop_last()) + records.last()
    }
}

impl Manifest {
    /// The manifest's records, read from the start of `data` up to its end or
    /// up to the first record that does not read back whole.
    pub fn decode(data: &[u8]) -> (r: Manifest)
        ensures
            r.records@.len() == spec_log_records::<ManifestItem>(data@).len(),
            forall|i: int| 0 <= i < r.records@.len() ==> (#[trigger] r.records@[i])@ == spec_log_records::<ManifestItem>(data@)[i],
    {
        Manifest { records: decode_log::<ManifestItem>(data) }
    }

    pub fn num_of_records(&self) -> (r: usize)
        ensures
            r == self.records@.len(),
    {
        self.records.len()
    }

    /// The record at `record_idx`, or `None` past the last one.
    pub fn read_record(&self, record_idx: usize) -> (r: Option<Arc<Record<ManifestItem>>>)
        ensures
            record_idx < self.records@.len() ==> r == Some(self.records@[record_idx as int]),
            record_idx >= self.records@.len() ==> r is None,
    {
        if record_idx >= self.records.len() {
            return None;
        }
        Some(self.records[record_idx].clone())
    }

    /// All items of all records, in order.
    pub fn items(&self) -> (r: Vec<ManifestItem>)
        ensures
            r@ == flatten_items(self.records@.map_values(|x: Arc<Record<ManifestItem>>| x@)),
    {
        let mut out: Vec<ManifestItem> = Vec::new();
        let mut i: usize = 0;
        let ghost rs = self.records@.map_values(|x: Arc<Record<ManifestItem>>| x@);
        while i < self.records.len()
            invariant
                i <= self.records@.len(),
                rs == self.records@.map_values(|x: Arc<Record<ManifestItem>>| x@),
                out@ == flatten_items(rs.subrange(0, i as int)),
            decreases self.records.len() - i,
        {
            let rec = &self.records[i];
            let ghost before = out@;
            let mut j: usize = 0;
            while j < rec.items.len()
                invariant
                    j <= rec.items@.len(),
                    out@ == before + rec@.subrange(0, j as int),
                decreases rec.items.len() - j,
            {
                out.push(rec.items[j]);
                proof {
                    assert(rec@.subrange(0, j as int + 1) =~= rec@.subrange(0, j as int).push(rec@[j as int]));
                }
                j = j + 1;
            }
            proof {
                assert(rec@.subrange(0, j as int) =~= rec@);
                assert(rs.subrange(0, i as int + 1).drop_last() =~= rs.subrange(0, i as int));
                assert(rs.subrange(0, i as int + 1).last() == rec@);
            }
            i = i + 1;
        }
        assert(rs.subrange(0, i as int) =~= rs);
        out
    }
}

} // verus!
