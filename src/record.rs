//! Checksummed frames of items, shared by the manifest and the journal.
//!
//! A record is `checksum:u32 | item_count:u64 | items...`, where the checksum
//! is the CRC-32 of everything after it.
use vstd::prelude::*;
use std::sync::Arc;
use crate::checksum::{checksum_ieee, crc32_ieee};
use crate::codec::{le_u32, le_u64, u32_at, u64_at, lemma_u32_round_trip, lemma_u64_round_trip, put_u32_le, put_u64_le, put_slice, get_u32_le, get_u64_le, copy_range};

verus! {

/// An item that a record can frame: it encodes itself, and decodes from the
/// front of a byte string.
pub trait RecordItem: Sized + View {
    spec fn spec_encode(v: Self::V) -> Seq<u8>;

    /// The item encoded at the front of `s` and the bytes it takes.
    spec fn spec_decode(s: Seq<u8>) -> Option<(Self::V, nat)>;

    /// Lengths small enough to be encoded.
    spec fn spec_fits(v: Self::V) -> bool;

    proof fn lemma_decode_encode(v: Self::V, rest: Seq<u8>)
        requires
            Self::spec_fits(v),
        ensures
            Self::spec_decode(Self::spec_encode(v) + rest) == Some(
                (v, Self::spec_encode(v).len()),
            ),
    ;

    proof fn lemma_decode_len(s: Seq<u8>)
        ensures
            Self::spec_decode(s) matches Some((v, n)) ==> 0 < n <= s.len(),
    ;

    fn encode(&self) -> (r: Vec<u8>)
        ensures
            r@ == Self::spec_encode(self@),
    ;

    fn decode_at(data: &[u8], pos: usize) -> (r: Option<(Self, usize)>)
        requires
            pos <= data@.len(),
        ensures
            match r {
                Some((x, end)) => pos <= end <= data@.len() && Self::spec_decode(
                    data@.subrange(pos as int, data@.len() as int),
                ) == Some((x@, (end - pos) as nat)),
                None => Self::spec_decode(data@.subrange(pos as int, data@.len() as int)) is None,
            },
    ;

    fn duplicate(&self) -> (r: Self)
        ensures
            r@ == self@,
    ;
}

/// Why a record could not be read.
#[derive(Copy, Clone, PartialEq, Eq, Debug, Structural)]
pub enum RecordError {
    /// Fewer bytes than the record header.
    Truncated,
    /// An item does not decode, or the bytes end inside one.
    BadItem,
    /// The stored checksum differs from the one computed.
    ChecksumMismatch,
}

pub open spec fn spec_items_encode<T: RecordItem>(items: Seq<T::V>) -> Seq<u8>
    decreases items.len(),
{
    if items.len() == 0 {
        Seq::empty()
    } else {
        T::spec_encode(items[0]) + spec_items_encode::<T>(items.drop_first())
    }
}

pub open spec fn spec_items_decode<T: RecordItem>(s: Seq<u8>, n: nat) -> Option<(Seq<T::V>, nat)>
    decreases n,
{
    if n == 0 {
        Some((Seq::empty(), 0))
    } else {
        match T::spec_decode(s) {
            None => None,
            Some((x, k)) => match spec_items_decode::<T>(s.subrange(k as int, s.len() as int), (n - 1) as nat) {
                None => None,
                Some((xs, m)) => Some((seq![x] + xs, k + m)),
            },
        }
    }
}

/// The bytes of a record holding `items`.
pub open spec fn spec_record_encode<T: RecordItem>(items: Seq<T::V>) -> Seq<u8> {
    let body = le_u64(items.len() as u64) + spec_items_encode::<T>(items);
    le_u32(crc32_ieee(body)) + body
}

/// What reading a record from the front of `s` gives: its items and its
/// length, or the error.
pub open spec fn spec_record_decode<T: RecordItem>(s: Seq<u8>) -> Result<(Seq<T::V>, nat), RecordError> {
    if s.len() < 12 {
        Err(RecordError::Truncated)
    } else {
        match spec_items_decode::<T>(s.subrange(12, s.len() as int), u64_at(s, 4) as nat) {
            None => Err(RecordError::BadItem),
            Some((items, m)) => if crc32_ieee(s.subrange(4, 12 + m as int)) == u32_at(s, 0) {
                Ok((items, 12 + m))
            } else {
                Err(RecordError::ChecksumMismatch)
            },
        }
    }
}

pub open spec fn prepend<T: RecordItem>(items: Seq<T::V>, off: nat, r: Option<(Seq<T::V>, nat)>) -> Option<(Seq<T::V>, nat)> {
    match r {
        Some((xs, m)) => Some((items + xs, off + m)),
        None => None,
    }
}

pub open spec fn all_fit<T: RecordItem>(items: Seq<T::V>) -> bool {
    forall|i: int| 0 <= i < items.len() ==> #[trigger] T::spec_fits(items[i])
}

proof fn lemma_items_encode_push<T: RecordItem>(items: Seq<T::V>, x: T::V)
    ensures
        spec_items_encode::<T>(items.push(x)) == spec_items_encode::<T>(items) + T::spec_encode(x),
    decreases items.len(),
{
    if items.len() == 0 {
        assert(items.push(x).drop_first() =~= Seq::<T::V>::empty());
        assert(spec_items_encode::<T>(Seq::<T::V>::empty()) =~= Seq::<u8>::empty());
        assert(T::spec_encode(x) + Seq::<u8>::empty() =~= T::spec_encode(x));
        assert(Seq::<u8>::empty() + T::spec_encode(x) =~= T::spec_encode(x));
    } else {
        assert(items.push(x).drop_first() =~= items.drop_first().push(x));
        lemma_items_encode_push::<T>(items.drop_first(), x);
        assert(spec_items_encode::<T>(items.push(x)) =~= spec_items_encode::<T>(items) + T::spec_encode(x));
    }
}

proof fn lemma_items_decode_encode<T: RecordItem>(items: Seq<T::V>, rest: Seq<u8>)
    requires
        all_fit::<T>(items),
    ensures
        spec_items_decode::<T>(spec_items_encode::<T>(items) + rest, items.len()) == Some(
            (items, spec_items_encode::<T>(items).len()),
        ),
    decreases items.len(),
{
    if items.len() == 0 {
        assert(items =~= Seq::<T::V>::empty());
    } else {
        let x = items[0];
        let tail = items.drop_first();
        assert(T::spec_fits(items[0]));
        assert(all_fit::<T>(tail)) by {
            assert forall|i: int| 0 <= i < tail.len() implies #[trigger] T::spec_fits(tail[i]) by {
                assert(tail[i] == items[i + 1]);
            }
        }
        let s = spec_items_encode::<T>(items) + rest;
        let tail_s = spec_items_encode::<T>(tail) + rest;
        assert(s =~= T::spec_encode(x) + tail_s);
        T::lemma_decode_encode(x, tail_s);
        let k = T::spec_encode(x).len();
        assert(s.subrange(k as int, s.len() as int) =~= tail_s);
        lemma_items_decode_encode::<T>(tail, rest);
        assert(seq![x] + tail =~= items);
    }
}

proof fn lemma_items_decode_len<T: RecordItem>(s: Seq<u8>, n: nat)
    ensures
        spec_items_decode::<T>(s, n) matches Some((xs, m)) ==> m <= s.len() && xs.len() == n,
    decreases n,
{
    if n > 0 {
        T::lemma_decode_len(s);
        if let Some((x, k)) = T::spec_decode(s) {
            lemma_items_decode_len::<T>(s.subrange(k as int, s.len() as int), (n - 1) as nat);
        }
    }
}

/// Reading back the bytes of a record gives the same items, whatever follows
/// the record.
pub proof fn lemma_record_round_trip<T: RecordItem>(items: Seq<T::V>, rest: Seq<u8>)
    requires
        all_fit::<T>(items),
        items.len() <= u64::MAX,
    ensures
        spec_record_decode::<T>(spec_record_encode::<T>(items) + rest) == Ok::<
            (Seq<T::V>, nat),
            RecordError,
        >((items, spec_record_encode::<T>(items).len())),
{
    let enc = spec_items_encode::<T>(items);
    let body = le_u64(items.len() as u64) + enc;
    let s = spec_record_encode::<T>(items) + rest;
    assert(s.subrange(0, 4) =~= le_u32(crc32_ieee(body)));
    lemma_u32_round_trip(crc32_ieee(body), s, 0);
    assert(s.subrange(4, 12) =~= le_u64(items.len() as u64));
    lemma_u64_round_trip(items.len() as u64, s, 4);
    assert(s.subrange(12, s.len() as int) =~= enc + rest);
    lemma_items_decode_encode::<T>(items, rest);
    assert(s.subrange(4, 12 + enc.len() as int) =~= body);
}

/// A group of items written and read as one unit.
pub struct Record<T> {
    pub items: Vec<T>,
}

impl<T: RecordItem> View for Record<T> {
    type V = Seq<T::V>;

    open spec fn view(&self) -> Seq<T::V> {
        self.items@.map_values(|x: T| x@)
    }
}

impl<T: RecordItem> Record<T> {
    pub fn encode(&self) -> (r: Vec<u8>)
        requires
            self.items@.len() <= u64::MAX,
        ensures
            r@ == spec_record_encode::<T>(self@),
    {
        let mut body: Vec<u8> = Vec::new();
        put_u64_le(&mut body, self.items.len() as u64);
        let mut i: usize = 0;
        while i < self.items.len()
            invariant
                i <= self.items@.len(),
                self.items@.len() <= u64::MAX,
                body@ == le_u64(self.items@.len() as u64) + spec_items_encode::<T>(
                    self@.subrange(0, i as int),
                ),
            decreases self.items.len() - i,
        {
            let e = self.items[i].encode();
            put_slice(&mut body, e.as_slice());
            proof {
                lemma_items_encode_push::<T>(self@.subrange(0, i as int), self@[i as int]);
                assert(self@.subrange(0, i as int + 1) =~= self@.subrange(0, i as int).push(self@[i as int]));
            }
            i = i + 1;
        }
        assert(self@.subrange(0, i as int) =~= self@);
        let checksum = checksum_ieee(body.as_slice());
        let mut out: Vec<u8> = Vec::new();
        put_u32_le(&mut out, checksum);
        put_slice(&mut out, body.as_slice());
        out
    }

    /// Reads the record that starts at `pos`; on success also the position
    /// just past it.
    pub fn decode_at(data: &[u8], pos: usize) -> (r: Result<(Record<T>, usize), RecordError>)
        requires
            pos <= data@.len(),
        ensures
            match r {
                Ok((rec, end)) => pos <= end <= data@.len() && spec_record_decode::<T>(
                    data@.subrange(pos as int, data@.len() as int),
                ) == Ok::<(Seq<T::V>, nat), RecordError>((rec@, (end - pos) as nat)),
                Err(e) => spec_record_decode::<T>(data@.subrange(pos as int, data@.len() as int))
                    == Err::<(Seq<T::V>, nat), RecordError>(e),
            },
    {
        let ghost s = data@.subrange(pos as int, data@.len() as int);
        if data.len() - pos < 12 {
            return Err(RecordError::Truncated);
        }
        let expect = get_u32_le(data, pos);
        let count = get_u64_le(data, pos + 4);
        assert(expect == u32_at(s, 0));
        assert(count == u64_at(s, 4));
        let ghost body = s.subrange(12, s.len() as int);
        let mut items: Vec<T> = Vec::new();
        let mut cur: usize = pos + 12;
        let mut i: u64 = 0;
        proof {
            assert(data@.subrange(cur as int, data@.len() as int) =~= body);
            if let Some((xs, m)) = spec_items_decode::<T>(body, count as nat) {
                assert(Seq::<T::V>::empty() + xs =~= xs);
            }
            assert(items@.map_values(|x: T| x@) =~= Seq::<T::V>::empty());
        }
        while i < count
            invariant
                i <= count,
                pos + 12 <= cur <= data@.len(),
                s == data@.subrange(pos as int, data@.len() as int),
                body == s.subrange(12, s.len() as int),
                s.len() >= 12,
                count == u64_at(s, 4),
                expect == u32_at(s, 0),
                spec_items_decode::<T>(body, count as nat) == prepend::<T>(
                    items@.map_values(|x: T| x@),
                    (cur - pos - 12) as nat,
                    spec_items_decode::<T>(data@.subrange(cur as int, data@.len() as int), (count - i) as nat),
                ),
            decreases count - i,
        {
            let ghost rest = data@.subrange(cur as int, data@.len() as int);
            match T::decode_at(data, cur) {
                None => {
                    assert(spec_items_decode::<T>(rest, (count - i) as nat) is None);
                    return Err(RecordError::BadItem);
                },
                Some((x, end)) => {
                    let ghost rest2 = data@.subrange(end as int, data@.len() as int);
                    assert(rest.subrange((end - cur) as int, rest.len() as int) =~= rest2);
                    let ghost old_items = items@.map_values(|x: T| x@);
                    items.push(x);
                    assert(items@.map_values(|x: T| x@) =~= old_items.push(x@));
                    proof {
                        let tail = spec_items_decode::<T>(rest2, (count - i - 1) as nat);
                        if let Some((xs, m)) = tail {
                            assert(old_items + (seq![x@] + xs) =~= old_items.push(x@) + xs);
                        }
                    }
                    cur = end;
                },
            }
            i = i + 1;
        }
        assert(items@.map_values(|x: T| x@) + Seq::<T::V>::empty() =~= items@.map_values(|x: T| x@));
        let framed = copy_range(data, pos + 4, cur);
        let actual = checksum_ieee(framed.as_slice());
        assert(framed@ =~= s.subrange(4, (cur - pos) as int));
        if actual != expect {
            return Err(RecordError::ChecksumMismatch);
        }
        Ok((Record { items }, cur))
    }

    pub fn num_of_items(&self) -> (r: usize)
        ensures
            r == self@.len(),
    {
        self.items.len()
    }

    pub fn item(&self, idx: usize) -> (r: &T)
        requires
            idx < self@.len(),
        ensures
            r@ == self@[idx as int],
    {
        &self.items[idx]
    }
}

/// Collects items into a record.
pub struct RecordBuilder<T> {
    pub items: Vec<T>,
}

impl<T: RecordItem> RecordBuilder<T> {
    pub fn new() -> (r: RecordBuilder<T>)
        ensures
            r.items@.len() == 0,
    {
        RecordBuilder { items: Vec::new() }
    }

    pub fn add(&mut self, item: T)
        ensures
            final(self).items@ == old(self).items@.push(item),
    {
        self.items.push(item);
    }

    pub fn build(self) -> (r: Record<T>)
        ensures
            r.items@ == self.items@,
    {
        Record { items: self.items }
    }
}

/// Walks the items of one record in order.
pub struct RecordIterator<T> {
    pub record: Arc<Record<T>>,
    pub idx: usize,
}

impl<T: RecordItem> RecordIterator<T> {
    pub fn create_and_seek_to_first(record: Arc<Record<T>>) -> (r: Self)
        ensures
            r.record == record,
            r.idx == 0,
    {
        RecordIterator { record, idx: 0 }
    }

    /// A copy of the current item.
    pub fn record_item(&self) -> (r: T)
        requires
            self.idx < self.record@.len(),
        ensures
            r@ == self.record@[self.idx as int],
    {
        self.record.item(self.idx).duplicate()
    }

    pub fn is_valid(&self) -> (r: bool)
        ensures
            r == (self.idx < self.record@.len()),
    {
        self.idx < self.record.num_of_items()
    }

    pub fn next(&mut self)
        requires
            old(self).idx < old(self).record@.len(),
        ensures
            final(self).record == old(self).record,
            final(self).idx == old(self).idx + 1,
    {
        let n = self.record.num_of_items();
        if self.idx < n {
            self.idx = self.idx + 1;
        }
    }
}

/// The records that a log's bytes hold: read from the start, up to the end
/// or the first record that does not read back whole (a torn tail).
pub open spec fn spec_log_records<T: RecordItem>(s: Seq<u8>) -> Seq<Seq<T::V>>
    decreases s.len(),
{
    if s.len() == 0 {
        Seq::empty()
    } else {
        match spec_record_decode::<T>(s) {
            Ok((items, n)) => if 0 < n <= s.len() {
                seq![items] + spec_log_records::<T>(s.subrange(n as int, s.len() as int))
            } else {
                Seq::empty()
            },
            Err(_) => Seq::empty(),
        }
    }
}

/// Reads a log's records, from the start of `data` up to its end or up to
/// the first record that does not read back whole.
pub fn decode_log<T: RecordItem>(data: &[u8]) -> (r: Vec<Arc<Record<T>>>)
    ensures
        r@.len() == spec_log_records::<T>(data@).len(),
        forall|i: int| 0 <= i < r@.len() ==> (#[trigger] r@[i])@ == spec_log_records::<T>(data@)[i],
{
    let mut records: Vec<Arc<Record<T>>> = Vec::new();
    let mut pos: usize = 0;
    let mut done = false;
    assert(data@.subrange(0, data@.len() as int) =~= data@);
    while pos < data.len() && !done
        invariant
            pos <= data@.len(),
            done ==> spec_log_records::<T>(data@.subrange(pos as int, data@.len() as int)) == Seq::<Seq<T::V>>::empty(),
            spec_log_records::<T>(data@) == records@.map_values(|r: Arc<Record<T>>| r@) + spec_log_records::<T>(data@.subrange(pos as int, data@.len() as int)),
        decreases data.len() - pos + if done { 0int } else { 1int },
    {
        let ghost s = data@.subrange(pos as int, data@.len() as int);
        match Record::<T>::decode_at(data, pos) {
            Ok((rec, end)) => {
                if end == pos {
                    done = true;
                    continue;
                }
                let ghost before = records@.map_values(|r: Arc<Record<T>>| r@);
                let ghost items = rec@;
                records.push(Arc::new(rec));
                proof {
                    assert(s.subrange((end - pos) as int, s.len() as int) =~= data@.subrange(end as int, data@.len() as int));
                    assert(records@.map_values(|r: Arc<Record<T>>| r@) =~= before.push(items));
                    assert(before.push(items) + spec_log_records::<T>(data@.subrange(end as int, data@.len() as int)) =~= before + (seq![items] + spec_log_records::<T>(data@.subrange(end as int, data@.len() as int))));
                }
                pos = end;
            },
            Err(_) => {
                done = true;
            },
        }
    }
    proof {
        let rest = data@.subrange(pos as int, data@.len() as int);
        if !done {
            assert(rest.len() == 0);
        }
        assert(spec_log_records::<T>(rest) =~= Seq::<Seq<T::V>>::empty());
        assert(records@.map_values(|r: Arc<Record<T>>| r@) + Seq::<Seq<T::V>>::empty() =~= records@.map_values(|r: Arc<Record<T>>| r@));
        assert forall|i: int| 0 <= i < records@.len() implies (#[trigger] records@[i])@ == spec_log_records::<T>(data@)[i] by {
            assert(records@.map_values(|r: Arc<Record<T>>| r@)[i] == records@[i]@);
        }
    }
    records
}

} // verus!
