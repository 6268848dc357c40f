//! The logical key/value record and its encoding.
use vstd::prelude::*;
use crate::codec::{le_u32, le_u64, u32_at, u64_at, lemma_u32_round_trip, lemma_u64_round_trip, put_u32_le, put_u64_le, put_slice, get_u32_le, get_u64_le, copy_range};
use crate::value::OpType;

verus! {

/// Bit of `meta` that marks a value stored in a value table.
pub const SEPARATE_BIT: u32 = 256;

/// One key/value write as stored in blocks and journals.
///
/// Encoded as `meta:u32 | key_len:u64 | key | value_len:u64 | value`, all
/// integers little-endian. The low byte of `meta` is the operation code and
/// bit 8 marks a separated value.
#[derive(Clone, Debug)]
pub struct Entry {
    pub meta: u32,
    pub key: Vec<u8>,
    pub value: Vec<u8>,
}

pub struct EntryView {
    pub meta: u32,
    pub key: Seq<u8>,
    pub value: Seq<u8>,
}

impl View for Entry {
    type V = EntryView;

    open spec fn view(&self) -> EntryView {
        EntryView { meta: self.meta, key: self.key@, value: self.value@ }
    }
}

/// Lengths small enough for the encoded entry to be addressed.
pub open spec fn entry_fits(e: EntryView) -> bool {
    e.key.len() + e.value.len() + 20 <= usize::MAX
}

pub open spec fn spec_entry_size(e: EntryView) -> nat {
    20 + e.key.len() + e.value.len()
}

pub open spec fn spec_entry_encode(e: EntryView) -> Seq<u8> {
    le_u32(e.meta) + le_u64(e.key.len() as u64) + e.key + le_u64(e.value.len() as u64) + e.value
}

/// The entry encoded at the front of `s`, with the number of bytes it takes.
pub open spec fn spec_entry_decode(s: Seq<u8>) -> Option<(EntryView, nat)> {
    if s.len() < 12 {
        None
    } else {
        let klen = u64_at(s, 4);
        if klen > s.len() - 12 {
            None
        } else {
            let ko = 12 + klen;
            if s.len() - ko < 8 {
                None
            } else {
                let vlen = u64_at(s, ko);
                if vlen > s.len() - ko - 8 {
                    None
                } else {
                    Some(
                        (
                            EntryView {
                                meta: u32_at(s, 0),
                                key: s.subrange(12, ko),
                                value: s.subrange(ko + 8, ko + 8 + vlen),
                            },
                            (ko + 8 + vlen) as nat,
                        ),
                    )
                }
            }
        }
    }
}

pub open spec fn spec_is_separate(meta: u32) -> bool {
    (meta >> 8u32) & 1u32 == 1u32
}

pub proof fn lemma_entry_decode_encode(e: EntryView, rest: Seq<u8>)
    requires
        entry_fits(e),
    ensures
        spec_entry_decode(spec_entry_encode(e) + rest) == Some(
            (e, spec_entry_encode(e).len()),
        ),
        spec_entry_encode(e).len() == spec_entry_size(e),
{
    let s = spec_entry_encode(e) + rest;
    let kl = e.key.len() as int;
    let vl = e.value.len() as int;
    assert(s.subrange(0, 4) =~= le_u32(e.meta));
    lemma_u32_round_trip(e.meta, s, 0);
    assert(s.subrange(4, 12) =~= le_u64(kl as u64));
    lemma_u64_round_trip(kl as u64, s, 4);
    assert(s.subrange(12, 12 + kl) =~= e.key);
    assert(s.subrange(12 + kl, 20 + kl) =~= le_u64(vl as u64));
    lemma_u64_round_trip(vl as u64, s, 12 + kl);
    assert(s.subrange(20 + kl, 20 + kl + vl) =~= e.value);
}

pub proof fn lemma_entry_decode_len(s: Seq<u8>)
    ensures
        spec_entry_decode(s) matches Some((e, n)) ==> 20 <= n <= s.len() && n == spec_entry_size(e),
{
}

impl Entry {
    /// Number of bytes of the encoded entry.
    pub fn size(&self) -> (r: usize)
        requires
            entry_fits(self@),
        ensures
            r == spec_entry_size(self@),
    {
        4 + 8 + 8 + self.key.len() + self.value.len()
    }

    /// A copy of the entry.
    pub fn duplicate(&self) -> (r: Entry)
        ensures
            r@ == self@,
    {
        Entry { meta: self.meta, key: self.key.clone(), value: self.value.clone() }
    }

    pub fn has_value(&self) -> (r: bool)
        ensures
            r == (self.value@.len() > 0),
    {
        self.value.len() > 0
    }

    pub fn op_type(&self) -> (r: OpType)
        ensures
            r == OpType::spec_from((self.meta & 0xFFu32) as u8),
    {
        OpType::from((self.meta & 0xFF) as u8)
    }

    /// Whether the value is a reference into a value table.
    pub fn value_separate(&self) -> (r: bool)
        ensures
            r == spec_is_separate(self.meta),
    {
        Entry::is_separate(self.meta)
    }

    /// Whether `meta` marks a separated value.
    pub fn is_separate(meta: u32) -> (r: bool)
        ensures
            r == spec_is_separate(meta),
    {
        (meta >> 8) & 1 == 1
    }

    pub fn encode(&self) -> (r: Vec<u8>)
        ensures
            r@ == spec_entry_encode(self@),
    {
        let mut b: Vec<u8> = Vec::new();
        put_u32_le(&mut b, self.meta);
        put_u64_le(&mut b, self.key.len() as u64);
        put_slice(&mut b, self.key.as_slice());
        put_u64_le(&mut b, self.value.len() as u64);
        put_slice(&mut b, self.value.as_slice());
        assert(b@ =~= spec_entry_encode(self@));
        b
    }

    /// Decodes the entry that starts at `pos`, returning it and the position
    /// just past it; `None` when the bytes there do not hold a whole entry.
    pub fn decode_at(data: &[u8], pos: usize) -> (r: Option<(Entry, usize)>)
        requires
            pos <= data@.len(),
        ensures
            match r {
                Some((e, end)) => pos <= end <= data@.len() && spec_entry_decode(
                    data@.subrange(pos as int, data@.len() as int),
                ) == Some((e@, (end - pos) as nat)),
                None => spec_entry_decode(data@.subrange(pos as int, data@.len() as int)) is None,
            },
    {
        let ghost s = data@.subrange(pos as int, data@.len() as int);
        let rem = data.len() - pos;
        if rem < 12 {
            return None;
        }
        let meta = get_u32_le(data, pos);
        let klen = get_u64_le(data, pos + 4);
        assert(meta == u32_at(s, 0));
        assert(klen == u64_at(s, 4));
        if klen > (rem - 12) as u64 {
            return None;
        }
        let ko = pos + 12 + klen as usize;
        if data.len() - ko < 8 {
            return None;
        }
        let vlen = get_u64_le(data, ko);
        assert(vlen == u64_at(s, (ko - pos) as int));
        if vlen > (data.len() - ko - 8) as u64 {
            return None;
        }
        let key = copy_range(data, pos + 12, ko);
        let end = ko + 8 + vlen as usize;
        let value = copy_range(data, ko + 8, end);
        assert(key@ =~= s.subrange(12, (ko - pos) as int));
        assert(value@ =~= s.subrange((ko - pos) as int + 8, (end - pos) as int));
        Some((Entry { meta, key, value }, end))
    }

    /// Decodes an entry from the front of `data`.
    pub fn decode(data: &[u8]) -> (r: Option<Entry>)
        ensures
            match r {
                Some(e) => spec_entry_decode(data@) matches Some((v, _)) && v == e@,
                None => spec_entry_decode(data@) is None,
            },
    {
        assert(data@.subrange(0, data@.len() as int) =~= data@);
        match Entry::decode_at(data, 0) {
            Some((e, _)) => Some(e),
            None => None,
        }
    }
}

/// Builds entries field by field.
pub struct EntryBuilder {
    pub meta: u32,
    pub key: Vec<u8>,
    pub value: Vec<u8>,
}

impl EntryBuilder {
    pub fn new() -> (r: EntryBuilder)
        ensures
            r.meta == 0,
            r.key@.len() == 0,
            r.value@.len() == 0,
    {
        EntryBuilder { meta: 0, key: Vec::new(), value: Vec::new() }
    }

    /// Adds the operation code to the low byte of `meta`.
    pub fn op_type(&mut self, op_type: OpType) -> (r: &mut Self)
        ensures
            r.meta == old(self).meta | (op_type.spec_encode() as u32),
            r.key == old(self).key,
            r.value == old(self).value,
            *final(self) == *final(r),
    {
        self.meta = self.meta | (op_type.encode() as u32);
        self
    }

    /// Sets or clears the separated-value bit.
    pub fn kv_separate(&mut self, separate: bool) -> (r: &mut Self)
        ensures
            r.meta == if separate {
                old(self).meta | SEPARATE_BIT
            } else {
                old(self).meta & !SEPARATE_BIT
            },
            r.key == old(self).key,
            r.value == old(self).value,
            *final(self) == *final(r),
    {
        if separate {
            self.meta = self.meta | SEPARATE_BIT;
        } else {
            self.meta = self.meta & !SEPARATE_BIT;
        }
        self
    }

    pub fn key_value(&mut self, key: Vec<u8>, value: Vec<u8>) -> (r: &mut Self)
        ensures
            r.meta == old(self).meta,
            r.key == key,
            r.value == value,
            *final(self) == *final(r),
    {
        self.key = key;
        self.value = value;
        self
    }

    pub fn build(&self) -> (r: Entry)
        ensures
            r@ == (EntryView { meta: self.meta, key: self.key@, value: self.value@ }),
    {
        Entry { meta: self.meta, key: self.key.clone(), value: self.value.clone() }
    }

    /// The entry with no operation, key or value.
    pub fn empty() -> (r: Entry)
        ensures
            r.meta == 0,
            r.key@.len() == 0,
            r.value@.len() == 0,
    {
        Entry { meta: 0, key: Vec::new(), value: Vec::new() }
    }
}

/// Builds the entry of one operation: its code in `meta`, the separated bit
/// when asked, the key and the value.
pub fn make_entry(op: OpType, separate: bool, key: Vec<u8>, value: Vec<u8>) -> (r: Entry)
    ensures
        r.meta == if separate {
            (op.spec_encode() as u32) | SEPARATE_BIT
        } else {
            (op.spec_encode() as u32) & !SEPARATE_BIT
        },
        r.key == key,
        r.value == value,
{
    let code = op.encode() as u32;
    let meta = if separate {
        code | SEPARATE_BIT
    } else {
        code & !SEPARATE_BIT
    };
    Entry { meta, key, value }
}

} // verus!
