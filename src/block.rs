//! Data blocks: the unit of SST reads.
//!
//! A block is `entries | offsets:u16 each | checksum:u32 | count:u16`, the
//! checksum being the CRC-32 of the entry region.
use vstd::prelude::*;
use core::cmp::Ordering;
use crate::checksum::{checksum_ieee, crc32_ieee};
use crate::codec::{le_u16, le_u32, u16_at, u32_at, lemma_u16_round_trip, lemma_u32_round_trip, put_u16_le, put_u32_le, put_slice, get_u16_le, get_u32_le, copy_range};
use crate::entry::{Entry, EntryView, entry_fits, spec_entry_size, spec_entry_encode, spec_entry_decode, lemma_entry_decode_encode};
use crate::order::{lex_lt, lex_le, lemma_lex_order, compare_bytes};

verus! {

/// Target size of a block in bytes.
pub const BLOCK_SIZE: usize = 4096;

#[derive(Clone, Debug)]
pub struct Block {
    pub data: Vec<u8>,
    pub offsets: Vec<u16>,
    pub checksum: u32,
    pub entry_num: u16,
}

/// Why a block could not be read.
#[derive(Copy, Clone, PartialEq, Eq, Debug, Structural)]
pub enum BlockError {
    /// The bytes are too short for the layout they announce.
    Truncated,
    /// The checksum does not match the entry region.
    CorruptBlock,
    /// An entry at a stored offset does not decode.
    BadEntry,
}

pub open spec fn spec_offsets_encode(offs: Seq<u16>) -> Seq<u8>
    decreases offs.len(),
{
    if offs.len() == 0 {
        Seq::empty()
    } else {
        spec_offsets_encode(offs.drop_last()) + le_u16(offs.last())
    }
}

pub open spec fn spec_block_encode(data: Seq<u8>, offs: Seq<u16>, checksum: u32, entry_num: u16) -> Seq<u8> {
    data + spec_offsets_encode(offs) + le_u32(checksum) + le_u16(entry_num)
}

proof fn lemma_offsets_encode_len(offs: Seq<u16>)
    ensures
        spec_offsets_encode(offs).len() == 2 * offs.len(),
    decreases offs.len(),
{
    if offs.len() > 0 {
        lemma_offsets_encode_len(offs.drop_last());
    }
}

proof fn lemma_offsets_read(offs: Seq<u16>, i: int)
    requires
        0 <= i < offs.len(),
    ensures
        u16_at(spec_offsets_encode(offs), 2 * i) == offs[i],
    decreases offs.len(),
{
    lemma_offsets_encode_len(offs);
    let pre = offs.drop_last();
    lemma_offsets_encode_len(pre);
    let s = spec_offsets_encode(offs);
    if i == offs.len() - 1 {
        assert(s.subrange(2 * i, 2 * i + 2) =~= le_u16(offs.last()));
        lemma_u16_round_trip(offs.last(), s, 2 * i);
    } else {
        lemma_offsets_read(pre, i);
        let sp = spec_offsets_encode(pre);
        assert(s[2 * i] == sp[2 * i]);
        assert(s[2 * i + 1] == sp[2 * i + 1]);
    }
}

/// The bytes are long enough for the count, checksum and offsets they
/// announce.
pub open spec fn block_fits(data: Seq<u8>) -> bool {
    data.len() >= 6 && data.len() - 6 >= 2 * u16_at(data, data.len() - 2)
}

/// Where a block's entry region ends.
pub open spec fn block_data_end(data: Seq<u8>) -> int {
    data.len() - 6 - 2 * u16_at(data, data.len() - 2)
}

/// An encoded block reads back as the block: same entry region, offsets,
/// checksum and count, when the count is the number of offsets.
pub proof fn lemma_block_round_trip(data: Seq<u8>, offs: Seq<u16>, checksum: u32, entry_num: u16)
    requires
        offs.len() == entry_num,
    ensures
        ({
            let e = spec_block_encode(data, offs, checksum, entry_num);
            &&& block_fits(e)
            &&& u16_at(e, e.len() - 2) == entry_num
            &&& u32_at(e, e.len() - 6) == checksum
            &&& block_data_end(e) == data.len()
            &&& e.subrange(0, data.len() as int) == data
            &&& forall|i: int| 0 <= i < offs.len() ==> #[trigger] offs[i] == u16_at(e, data.len() + 2 * i)
        }),
{
    let e = spec_block_encode(data, offs, checksum, entry_num);
    let oe = spec_offsets_encode(offs);
    lemma_offsets_encode_len(offs);
    let n = e.len();
    assert(e.subrange(n - 2, n as int) =~= le_u16(entry_num));
    lemma_u16_round_trip(entry_num, e, n - 2);
    assert(e.subrange(n - 6, n - 2) =~= le_u32(checksum));
    lemma_u32_round_trip(checksum, e, n - 6);
    assert(e.subrange(0, data.len() as int) =~= data);
    assert forall|i: int| 0 <= i < offs.len() implies #[trigger] offs[i] == u16_at(e, data.len() + 2 * i) by {
        lemma_offsets_read(offs, i);
        assert(e[data.len() + 2 * i] == oe[2 * i]);
        assert(e[data.len() + 2 * i + 1] == oe[2 * i + 1]);
    }
}

impl Block {
    pub fn encode(&self) -> (r: Vec<u8>)
        ensures
            r@ == spec_block_encode(self.data@, self.offsets@, self.checksum, self.entry_num),
            r@.len() == self.data@.len() + 2 * self.offsets@.len() + 6,
    {
        proof { lemma_offsets_encode_len(self.offsets@); }
        let mut b: Vec<u8> = Vec::new();
        put_slice(&mut b, self.data.as_slice());
        let mut i: usize = 0;
        while i < self.offsets.len()
            invariant
                i <= self.offsets@.len(),
                b@ == self.data@ + spec_offsets_encode(self.offsets@.subrange(0, i as int)),
            decreases self.offsets.len() - i,
        {
            put_u16_le(&mut b, self.offsets[i]);
            proof {
                let s2 = self.offsets@.subrange(0, i as int + 1);
                assert(s2.drop_last() =~= self.offsets@.subrange(0, i as int));
            }
            i = i + 1;
        }
        assert(self.offsets@.subrange(0, i as int) =~= self.offsets@);
        put_u32_le(&mut b, self.checksum);
        put_u16_le(&mut b, self.entry_num);
        b
    }

    /// Reads a block: the count from the last two bytes, the checksum before
    /// it, the offsets before that, the entry region first; fails when the
    /// bytes are too short or the checksum does not match.
    pub fn decode(data: &[u8]) -> (r: Result<Block, BlockError>)
        ensures
            r matches Ok(b) ==> {
                &&& spec_block_encode(b.data@, b.offsets@, b.checksum, b.entry_num) == data@
                &&& b.offsets@.len() == b.entry_num
                &&& b.checksum == crc32_ieee(b.data@)
                &&& b.entry_num == u16_at(data@, data@.len() - 2)
                &&& b.checksum == u32_at(data@, data@.len() - 6)
                &&& b.data@ == data@.subrange(0, block_data_end(data@))
                &&& forall|i: int| 0 <= i < b.offsets@.len() ==> #[trigger] b.offsets@[i] == u16_at(data@, block_data_end(data@) + 2 * i)
            },
            r matches Err(e) ==> (e == BlockError::Truncated || e == BlockError::CorruptBlock),
            block_fits(data@) == !(r == Err::<Block, BlockError>(BlockError::Truncated)),
            block_fits(data@) ==> (r == Err::<Block, BlockError>(BlockError::CorruptBlock) <==> crc32_ieee(data@.subrange(0, block_data_end(data@))) != u32_at(data@, data@.len() - 6)),
    {
        let len = data.len();
        if len < 6 {
            return Err(BlockError::Truncated);
        }
        let entry_num = get_u16_le(data, len - 2);
        let checksum = get_u32_le(data, len - 6);
        let n = entry_num as usize;
        if len - 6 < 2 * n {
            return Err(BlockError::Truncated);
        }
        let data_end = len - 6 - 2 * n;
        let mut offsets: Vec<u16> = Vec::new();
        let mut i: usize = 0;
        while i < n
            invariant
                i <= n,
                data_end + 2 * n + 6 == len,
                len == data@.len(),
                offsets@.len() == i,
                spec_offsets_encode(offsets@) == data@.subrange(data_end as int, data_end + 2 * i),
                forall|k: int| 0 <= k < i ==> #[trigger] offsets@[k] == u16_at(data@, data_end + 2 * k),
            decreases n - i,
        {
            let o = get_u16_le(data, data_end + 2 * i);
            let ghost before = offsets@;
            offsets.push(o);
            assert(forall|k: int| 0 <= k < i ==> offsets@[k] == before[k]);
            proof {
                assert(offsets@.drop_last() =~= before);
                assert(data@.subrange(data_end as int, data_end + 2 * i + 2) =~= data@.subrange(data_end as int, data_end + 2 * i) + data@.subrange(data_end + 2 * i, data_end + 2 * i + 2));
                assert(data@.subrange(data_end + 2 * i, data_end + 2 * i + 2) =~= le_u16(o)) by {
                    let x = o;
                    let b0 = data@[data_end + 2 * i];
                    let b1 = data@[data_end + 2 * i + 1];
                    assert(x == (b0 as u16) | ((b1 as u16) << 8u16));
                    assert((((b0 as u16) | ((b1 as u16) << 8u16)) as u8) == b0) by (bit_vector);
                    assert(((((b0 as u16) | ((b1 as u16) << 8u16)) >> 8u16) as u8) == b1) by (bit_vector);
                }
            }
            i = i + 1;
        }
        let body = copy_range(data, 0, data_end);
        let actual = checksum_ieee(body.as_slice());
        assert(data_end == block_data_end(data@));
        if actual != checksum {
            return Err(BlockError::CorruptBlock);
        }
        proof {
            let tail = data@.subrange(len - 6, len as int);
            assert(data@.subrange(len - 6, len - 2) =~= le_u32(checksum)) by {
                let x = checksum;
                let b0 = data@[len - 6];
                let b1 = data@[len - 5];
                let b2 = data@[len - 4];
                let b3 = data@[len - 3];
                assert(x == (b0 as u32) | ((b1 as u32) << 8u32) | ((b2 as u32) << 16u32) | ((b3 as u32) << 24u32));
                assert((((b0 as u32) | ((b1 as u32) << 8u32) | ((b2 as u32) << 16u32) | ((b3 as u32) << 24u32)) as u8) == b0) by (bit_vector);
                assert(((((b0 as u32) | ((b1 as u32) << 8u32) | ((b2 as u32) << 16u32) | ((b3 as u32) << 24u32)) >> 8u32) as u8) == b1) by (bit_vector);
                assert(((((b0 as u32) | ((b1 as u32) << 8u32) | ((b2 as u32) << 16u32) | ((b3 as u32) << 24u32)) >> 16u32) as u8) == b2) by (bit_vector);
                assert(((((b0 as u32) | ((b1 as u32) << 8u32) | ((b2 as u32) << 16u32) | ((b3 as u32) << 24u32)) >> 24u32) as u8) == b3) by (bit_vector);
            }
            assert(data@.subrange(len - 2, len as int) =~= le_u16(entry_num)) by {
                let x = entry_num;
                let b0 = data@[len - 2];
                let b1 = data@[len - 1];
                assert(x == (b0 as u16) | ((b1 as u16) << 8u16));
                assert((((b0 as u16) | ((b1 as u16) << 8u16)) as u8) == b0) by (bit_vector);
                assert(((((b0 as u16) | ((b1 as u16) << 8u16)) >> 8u16) as u8) == b1) by (bit_vector);
            }
            assert(data@ =~= body@ + spec_offsets_encode(offsets@) + le_u32(checksum) + le_u16(entry_num));
        }
        Ok(Block { data: body, offsets, checksum, entry_num })
    }

    /// The entry encoded at the `i`-th offset, if one is.
    pub open spec fn entry_at(&self, i: int) -> Option<EntryView> {
        let off = self.offsets@[i] as int;
        if off <= self.data@.len() {
            match spec_entry_decode(self.data@.subrange(off, self.data@.len() as int)) {
                Some((e, _)) => Some(e),
                None => None,
            }
        } else {
            None
        }
    }

    /// The entries at the block's offsets, in order; fails when one of them
    /// does not decode.
    pub fn entries(&self) -> (r: Result<Vec<Entry>, BlockError>)
        ensures
            r matches Ok(v) ==> v@.len() == self.offsets@.len() && forall|i: int| 0 <= i < v@.len() ==> self.entry_at(i) == Some((#[trigger] v@[i])@),
            r is Err ==> exists|i: int| 0 <= i < self.offsets@.len() && (#[trigger] self.entry_at(i)) is None,
    {
        let mut out: Vec<Entry> = Vec::new();
        let mut i: usize = 0;
        while i < self.offsets.len()
            invariant
                i <= self.offsets@.len(),
                out@.len() == i,
                forall|j: int| 0 <= j < i ==> self.entry_at(j) == Some((#[trigger] out@[j])@),
            decreases self.offsets.len() - i,
        {
            let off = self.offsets[i] as usize;
            if off > self.data.len() {
                assert(self.entry_at(i as int) is None);
                return Err(BlockError::BadEntry);
            }
            match Entry::decode_at(self.data.as_slice(), off) {
                Some((e, _)) => {
                    let ghost before = out@;
                    out.push(e);
                    proof {
                        assert forall|j: int| 0 <= j < i + 1 implies self.entry_at(j) == Some((#[trigger] out@[j])@) by {
                            if j < i {
                                assert(out@[j] == before[j]);
                            }
                        }
                    }
                },
                None => {
                    assert(self.entry_at(i as int) is None);
                    return Err(BlockError::BadEntry);
                },
            }
            i = i + 1;
        }
        Ok(out)
    }
}

/// Collects entries for one block.
pub struct BlockBuilder {
    pub data: Vec<Entry>,
    pub offsets: Vec<u16>,
    pub entry_size: usize,
}

/// The concatenated encodings of `es`.
pub open spec fn spec_entries_encode(es: Seq<EntryView>) -> Seq<u8>
    decreases es.len(),
{
    if es.len() == 0 {
        Seq::empty()
    } else {
        spec_entries_encode(es.drop_last()) + spec_entry_encode(es.last())
    }
}

impl BlockBuilder {
    pub open spec fn wf(&self) -> bool {
        &&& self.data@.len() == self.offsets@.len()
        &&& self.entry_size <= usize::MAX - 2 * BLOCK_SIZE
        &&& (self.data@.len() > 1 ==> self.entry_size <= BLOCK_SIZE)
        &&& self.data@.len() <= BLOCK_SIZE
        &&& (self.data@.len() == 0 ==> self.entry_size == 0)
        &&& self.entry_size >= 20 * self.data@.len()
        &&& spec_entries_encode(entry_views_of(self.data@)).len() == self.entry_size
        &&& forall|i: int| 0 <= i < self.data@.len() ==> entry_fits(#[trigger] self.data@[i]@)
    }

    /// Bytes of the block being built.
    pub open spec fn spec_size(&self) -> int {
        self.entry_size + 2 * self.offsets@.len() + 6
    }

    pub fn new() -> (r: BlockBuilder)
        ensures
            r.wf(),
            r.data@.len() == 0,
            r.entry_size == 0,
    {
        BlockBuilder { data: Vec::new(), offsets: Vec::new(), entry_size: 0 }
    }

    pub fn is_empty(&self) -> (r: bool)
        ensures
            r == (self.offsets@.len() == 0),
    {
        self.offsets.len() == 0
    }

    /// Bytes of the block as built so far.
    pub fn size(&self) -> (r: usize)
        requires
            self.wf(),
        ensures
            r == self.spec_size(),
    {
        self.entry_size + self.offsets.len() * 2 + 6
    }

    /// Adds `e` unless that would take the block past `BLOCK_SIZE`; the first
    /// entry is always taken.
    pub fn add(&mut self, e: &Entry) -> (r: bool)
        requires
            old(self).wf(),
            entry_fits(e@),
            spec_entry_size(e@) <= usize::MAX - 4 * BLOCK_SIZE,
        ensures
            final(self).wf(),
            r == (old(self).data@.len() == 0 || old(self).spec_size() + spec_entry_size(e@) <= BLOCK_SIZE),
            r ==> final(self).data@.map_values(|x: Entry| x@) == old(self).data@.map_values(|x: Entry| x@).push(e@),
            r ==> final(self).entry_size == old(self).entry_size + spec_entry_size(e@),
            !r ==> *final(self) == *old(self),
    {
        let es = e.size();
        if self.offsets.len() > 0 && (self.size() > BLOCK_SIZE || es > BLOCK_SIZE - self.size()) {
            return false;
        }
        let ghost before = self.data@;
        assert(self.entry_size <= BLOCK_SIZE);
        self.offsets.push(self.entry_size as u16);
        self.data.push(e.duplicate());
        self.entry_size = self.entry_size + es;
        assert(self.data@.map_values(|x: Entry| x@) =~= before.map_values(|x: Entry| x@).push(e@));
        proof {
            let ev = entry_views_of(self.data@);
            assert(ev =~= entry_views_of(before).push(e@));
            assert(ev.drop_last() =~= entry_views_of(before));
            lemma_entry_decode_encode(e@, Seq::empty());
            assert(spec_entry_encode(e@) + Seq::<u8>::empty() =~= spec_entry_encode(e@));
        }
        true
    }

    /// The block of the entries added.
    pub fn build(self) -> (r: Block)
        requires
            self.wf(),
        ensures
            r.data@ == spec_entries_encode(self.data@.map_values(|x: Entry| x@)),
            r.offsets@ == self.offsets@,
            r.checksum == crc32_ieee(r.data@),
            r.entry_num == self.data@.len(),
            r.data@.len() == self.entry_size,
    {
        let mut b: Vec<u8> = Vec::new();
        let mut i: usize = 0;
        let ghost es = self.data@.map_values(|x: Entry| x@);
        while i < self.data.len()
            invariant
                i <= self.data@.len(),
                es == self.data@.map_values(|x: Entry| x@),
                b@ == spec_entries_encode(es.subrange(0, i as int)),
            decreases self.data.len() - i,
        {
            let enc = self.data[i].encode();
            put_slice(&mut b, enc.as_slice());
            proof {
                assert(es.subrange(0, i as int + 1).drop_last() =~= es.subrange(0, i as int));
            }
            i = i + 1;
        }
        assert(es.subrange(0, i as int) =~= es);
        let checksum = checksum_ieee(b.as_slice());
        let entry_num = self.data.len() as u16;
        Block { data: b, offsets: self.offsets, checksum, entry_num }
    }
}

/// Entries with keys in ascending order.
pub open spec fn keys_ascending(es: Seq<EntryView>) -> bool {
    forall|i: int, j: int| 0 <= i < j < es.len() ==> lex_le(#[trigger] es[i].key, #[trigger] es[j].key)
}

/// A cursor over the entries of one block.
pub struct BlockIterator {
    pub entries: Vec<Entry>,
    pub idx: usize,
}

impl BlockIterator {
    pub open spec fn valid(&self) -> bool {
        self.idx < self.entries@.len()
    }

    /// A cursor at the first entry of `block`.
    pub fn create_and_seek_to_first(block: &Block) -> (r: Result<BlockIterator, BlockError>)
        ensures
            r matches Ok(it) ==> it.idx == 0 && it.holds(*block),
            r is Err ==> exists|i: int| 0 <= i < block.offsets@.len() && (#[trigger] block.entry_at(i)) is None,
    {
        let entries = block.entries()?;
        Ok(BlockIterator { entries, idx: 0 })
    }

    /// A cursor at the first entry of `block` whose key is at least `key`.
    pub fn create_and_seek_to_key(block: &Block, key: &[u8]) -> (r: Result<BlockIterator, BlockError>)
        ensures
            r matches Ok(it) ==> it.holds(*block) && (keys_ascending(entry_views_of(it.entries@)) ==> it.seeks(key@)),
            r is Err ==> exists|i: int| 0 <= i < block.offsets@.len() && (#[trigger] block.entry_at(i)) is None,
    {
        let entries = block.entries()?;
        let mut it = BlockIterator { entries, idx: 0 };
        it.seek_to_key(key);
        Ok(it)
    }

    /// The cursor's entries are those of `block`, in order.
    pub open spec fn holds(&self, block: Block) -> bool {
        &&& self.entries@.len() == block.offsets@.len()
        &&& forall|i: int| 0 <= i < self.entries@.len() ==> block.entry_at(i) == Some((#[trigger] self.entries@[i])@)
    }

    /// The cursor stands at the first entry whose key is at least `key`
    /// (past the end when there is none).
    pub open spec fn seeks(&self, key: Seq<u8>) -> bool {
        &&& self.idx <= self.entries@.len()
        &&& forall|j: int| 0 <= j < self.idx ==> lex_lt((#[trigger] self.entries@[j]).key@, key)
        &&& self.idx < self.entries@.len() ==> lex_le(key, self.entries@[self.idx as int].key@)
    }

    pub fn is_valid(&self) -> (r: bool)
        ensures
            r == self.valid(),
    {
        self.idx < self.entries.len()
    }

    pub fn entry(&self) -> (r: &Entry)
        requires
            self.valid(),
        ensures
            *r == self.entries@[self.idx as int],
    {
        &self.entries[self.idx]
    }

    pub fn key(&self) -> (r: &[u8])
        requires
            self.valid(),
        ensures
            r@ == self.entries@[self.idx as int].key@,
    {
        self.entries[self.idx].key.as_slice()
    }

    pub fn value(&self) -> (r: &[u8])
        requires
            self.valid(),
        ensures
            r@ == self.entries@[self.idx as int].value@,
    {
        self.entries[self.idx].value.as_slice()
    }

    pub fn meta(&self) -> (r: u32)
        requires
            self.valid(),
        ensures
            r == self.entries@[self.idx as int].meta,
    {
        self.entries[self.idx].meta
    }

    pub fn seek_to_first(&mut self)
        ensures
            final(self).entries == old(self).entries,
            final(self).idx == 0,
    {
        self.idx = 0;
    }

    pub fn next(&mut self)
        ensures
            final(self).entries == old(self).entries,
            old(self).valid() ==> final(self).idx == old(self).idx + 1,
            !old(self).valid() ==> final(self).idx == old(self).idx,
    {
        if self.idx < self.entries.len() {
            self.idx = self.idx + 1;
        }
    }

    /// Moves to the first entry whose key is at least `key`, by binary search.
    pub fn seek_to_key(&mut self, key: &[u8])
        ensures
            final(self).entries == old(self).entries,
            keys_ascending(entry_views_of(old(self).entries@)) ==> final(self).seeks(key@),
    {
        proof { lemma_lex_order(); }
        let ghost es = entry_views_of(self.entries@);
        let mut low: usize = 0;
        let mut high: usize = self.entries.len();
        while low < high
            invariant
                low <= high <= self.entries@.len(),
                es == entry_views_of(self.entries@),
                keys_ascending(es) ==> forall|j: int| 0 <= j < low ==> lex_lt((#[trigger] self.entries@[j]).key@, key@),
                keys_ascending(es) ==> forall|j: int| high <= j < self.entries@.len() ==> lex_le(key@, (#[trigger] self.entries@[j]).key@),
            decreases high - low,
        {
            proof { lemma_lex_order(); }
            let mid = low + (high - low) / 2;
            let c = compare_bytes(self.entries[mid].key.as_slice(), key);
            if matches!(c, Ordering::Less) {
                proof {
                    if keys_ascending(es) {
                        assert forall|j: int| 0 <= j < mid + 1 implies lex_lt((#[trigger] self.entries@[j]).key@, key@) by {
                            if j < mid {
                                assert(lex_le(es[j].key, es[mid as int].key));
                            }
                        }
                    }
                }
                low = mid + 1;
            } else {
                proof {
                    if keys_ascending(es) {
                        assert forall|j: int| mid <= j < self.entries@.len() implies lex_le(key@, (#[trigger] self.entries@[j]).key@) by {
                            if j > mid {
                                assert(lex_le(es[mid as int].key, es[j].key));
                            }
                        }
                    }
                }
                high = mid;
            }
        }
        self.idx = low;
    }
}

pub open spec fn entry_views_of(s: Seq<Entry>) -> Seq<EntryView> {
    s.map_values(|e: Entry| e@)
}

} // verus!
