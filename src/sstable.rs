//! Sorted string tables: the builder that lays out a file's bytes, and the
//! reader of a file's index.
//!
//! A file is `data blocks | meta blocks | bloom filter | filter_len:u32 |
//! filter_offset:u32 | meta_offset:u32`.
use vstd::prelude::*;
use core::cmp::Ordering;
use bloomfilter::Bloom;
use crate::block::{BlockBuilder, BLOCK_SIZE};
use crate::codec::{le_u32, le_u64, u32_at, u64_at, lemma_u32_round_trip, put_u32_le, put_u64_le, put_slice, get_u32_le, get_u64_le, copy_range};
use crate::entry::{Entry, EntryView, entry_fits, spec_entry_size, spec_entry_decode, spec_entry_encode, lemma_entry_decode_len, lemma_entry_decode_encode};
use crate::order::{lex_lt, lex_le, lemma_lex_order, compare_bytes};

verus! {

/// Where a data block starts, and its first and last keys.
///
/// Encoded as `offset:u32 | first_len:u64 | first_key | last_len:u64 |
/// last_key`.
#[derive(Clone, Debug)]
pub struct MetaBlock {
    pub offset: u32,
    pub first_key: Vec<u8>,
    pub last_key: Vec<u8>,
}

pub open spec fn spec_meta_encode(offset: u32, first: Seq<u8>, last: Seq<u8>) -> Seq<u8> {
    le_u32(offset) + le_u64(first.len() as u64) + first + le_u64(last.len() as u64) + last
}

impl MetaBlock {
    pub fn encode(&self) -> (r: Vec<u8>)
        ensures
            r@ == spec_meta_encode(self.offset, self.first_key@, self.last_key@),
    {
        let mut b: Vec<u8> = Vec::new();
        put_u32_le(&mut b, self.offset);
        put_u64_le(&mut b, self.first_key.len() as u64);
        put_slice(&mut b, self.first_key.as_slice());
        put_u64_le(&mut b, self.last_key.len() as u64);
        put_slice(&mut b, self.last_key.as_slice());
        assert(b@ =~= spec_meta_encode(self.offset, self.first_key@, self.last_key@));
        b
    }

    /// Reads the meta block at `pos`, if the bytes up to `end` hold a whole
    /// one, and the position just past it. A meta block is laid out as an
    /// entry is: the offset where the entry's flags stand, the first key as
    /// its key and the last key as its value.
    pub fn decode_at(data: &[u8], pos: usize, end: usize) -> (r: Option<(MetaBlock, usize)>)
        requires
            pos <= end <= data@.len(),
        ensures
            match spec_entry_decode(data@.subrange(pos as int, end as int)) {
                Some((e, n)) => r matches Some((m, next)) && meta_view(m) == e && next == pos + n,
                None => r is None,
            },
    {
        let region = copy_range(data, pos, end);
        assert(region@.subrange(0, region@.len() as int) =~= region@);
        match Entry::decode_at(region.as_slice(), 0) {
            Some((e, n)) => Some((MetaBlock { offset: e.meta, first_key: e.key, last_key: e.value }, pos + n)),
            None => None,
        }
    }
}

/// A meta block seen as the entry its layout matches.
pub open spec fn meta_view(m: MetaBlock) -> EntryView {
    EntryView { meta: m.offset, key: m.first_key@, value: m.last_key@ }
}

/// The meta blocks that fill `s` exactly, or `None`.
pub open spec fn spec_metas_decode(s: Seq<u8>) -> Option<Seq<EntryView>>
    decreases s.len(),
{
    if s.len() == 0 {
        Some(Seq::empty())
    } else {
        match spec_entry_decode(s) {
            Some((e, n)) => if 0 < n <= s.len() {
                match spec_metas_decode(s.subrange(n as int, s.len() as int)) {
                    Some(rest) => Some(seq![e] + rest),
                    None => None,
                }
            } else {
                None
            },
            None => None,
        }
    }
}

pub open spec fn prepend_metas(done: Seq<EntryView>, rest: Option<Seq<EntryView>>) -> Option<Seq<EntryView>> {
    match rest {
        Some(t) => Some(done + t),
        None => None,
    }
}

/// The trailer of a file is consistent: the filter and index regions it
/// names lie within the file.
pub open spec fn trailer_ok(f: Seq<u8>) -> bool {
    &&& f.len() >= 12
    &&& u32_at(f, f.len() - 12) <= f.len() - 12
    &&& u32_at(f, f.len() - 4) <= f.len() - 12 - u32_at(f, f.len() - 12)
    &&& (u32_at(f, f.len() - 12) == 0 || (u32_at(f, f.len() - 8) <= f.len() && u32_at(f, f.len() - 12) <= f.len() - u32_at(f, f.len() - 8)))
}

/// The filter region of a file with a consistent trailer.
pub open spec fn filter_region(f: Seq<u8>) -> Seq<u8> {
    f.subrange(u32_at(f, f.len() - 8) as int, u32_at(f, f.len() - 8) + u32_at(f, f.len() - 12))
}

/// The index region of a file with a consistent trailer.
pub open spec fn meta_region(f: Seq<u8>) -> Seq<u8> {
    f.subrange(u32_at(f, f.len() - 4) as int, f.len() - 12 - u32_at(f, f.len() - 12))
}

/// Declares `bloomfilter::Bloom`, a table's filter; the keys recorded in it
/// are named by `bloom_keys`.
#[verifier::external_type_specification]
#[verifier::external_body]
#[verifier::reject_recursive_types(T)]
pub struct ExBloom<T: ?Sized>(Bloom<T>);

/// The keys a bloom filter answers true for.
pub uninterp spec fn bloom_keys(b: Bloom<Vec<u8>>) -> Set<Seq<u8>>;

/// The number of bits a bloom filter hashes into.
pub uninterp spec fn bloom_bits(b: Bloom<Vec<u8>>) -> u64;

/// The length of a bloom filter's bit vector.
pub uninterp spec fn bloom_vec_len(b: Bloom<Vec<u8>>) -> usize;

/// The number of 32-bit words the bloom filter's bit vector stores.
pub uninterp spec fn bloom_storage_len(b: Bloom<Vec<u8>>) -> usize;

/// A filter that can be set and checked without panicking: it hashes into a
/// positive number of bits, all of which its bit vector counts and stores.
pub open spec fn bloom_ok(b: Bloom<Vec<u8>>) -> bool {
    &&& bloom_bits(b) > 0
    &&& bloom_vec_len(b) as int >= bloom_bits(b)
    &&& 32 * bloom_storage_len(b) >= bloom_bits(b)
}

/// The bytes from which a usable filter reads back.
pub uninterp spec fn filter_ok(data: Seq<u8>) -> bool;

/// The keys that the filter read back from `data` answers true for.
pub uninterp spec fn serialized_keys(data: Seq<u8>) -> Set<Seq<u8>>;

/// Relies on `Bloom::new`: a filter of `bitmap_size` bytes, that is
/// `8 * bitmap_size` bits, all counted and stored by its bit vector
/// (`BitVec::from_elem` allocates the words for them); it asserts that both
/// arguments are positive and needs the bit count to fit a `u64`.
#[verifier::external_body]
fn bloom_new(bitmap_size: usize, items_count: usize) -> (r: Bloom<Vec<u8>>)
    requires
        0 < bitmap_size <= 0x1000_0000,
        0 < items_count,
    ensures
        bloom_bits(r) == 8 * bitmap_size,
        bloom_vec_len(r) == 8 * bitmap_size,
        32 * bloom_storage_len(r) >= 8 * bitmap_size,
{
    Bloom::new(bitmap_size, items_count)
}

/// Relies on `Bloom::set`: it only turns bits on, so every key checked true
/// before still is, and the key set is checked true after; the bit count,
/// the bit vector's length and its storage stay. It divides by the bit count
/// and sets a bit below it, which `BitVec::set` asserts is below its length
/// and then indexes the storage word of, hence `bloom_ok`.
#[verifier::external_body]
fn bloom_set(b: &mut Bloom<Vec<u8>>, key: &Vec<u8>)
    requires
        bloom_ok(*old(b)),
    ensures
        bloom_keys(*old(b)).insert(key@).subset_of(bloom_keys(*final(b))),
        bloom_bits(*final(b)) == bloom_bits(*old(b)),
        bloom_vec_len(*final(b)) == bloom_vec_len(*old(b)),
        bloom_storage_len(*final(b)) == bloom_storage_len(*old(b)),
{
    b.set(key)
}

/// Relies on `Bloom::check`: true for the keys the filter answers true for.
/// It divides by the bit count and unwraps `BitVec::get` of a bit below it,
/// which is `None` past the length or past the stored words, hence
/// `bloom_ok`.
#[verifier::external_body]
fn bloom_check(b: &Bloom<Vec<u8>>, key: &Vec<u8>) -> (r: bool)
    requires
        bloom_ok(*b),
    ensures
        bloom_keys(*b).contains(key@) ==> r,
{
    b.check(key)
}

/// Relies on `Bloom::number_of_bits`: the bit count the filter hashes into.
#[verifier::external_body]
fn bloom_number_of_bits(b: &Bloom<Vec<u8>>) -> (r: u64)
    ensures
        r == bloom_bits(*b),
{
    b.number_of_bits()
}

/// Relies on `Bloom::bit_vec` and `BitVec::len`: the bit vector's length.
#[verifier::external_body]
fn bloom_bit_vec_len(b: &Bloom<Vec<u8>>) -> (r: usize)
    ensures
        r == bloom_vec_len(*b),
{
    b.bit_vec().len()
}

/// Relies on `Bloom::bit_vec` and `BitVec::storage`: the number of words the
/// bit vector stores.
#[verifier::external_body]
fn bloom_bit_vec_storage_len(b: &Bloom<Vec<u8>>) -> (r: usize)
    ensures
        r == bloom_storage_len(*b),
{
    b.bit_vec().storage().len()
}

/// Whether a filter (one read back from bytes, say) can be used.
fn bloom_is_ok(b: &Bloom<Vec<u8>>) -> (r: bool)
    ensures
        r == bloom_ok(*b),
{
    let bits = bloom_number_of_bits(b);
    let len = bloom_bit_vec_len(b);
    let words = bloom_bit_vec_storage_len(b);
    bits > 0 && len as u64 >= bits && (words as u128) * 32 >= bits as u128
}

/// The bytes postcard serialises a filter to.
pub uninterp spec fn bloom_serialized(b: Bloom<Vec<u8>>) -> Seq<u8>;

/// Relies on `postcard::to_allocvec`: the filter's serialised bytes, which
/// depend on the filter alone, or an error. The derived `Serialize` of
/// `Bloom` writes every field (bit vector, bit count, hash count, hash keys),
/// so the filter `postcard::from_bytes` reads back answers as this one does.
#[verifier::external_body]
fn bloom_to_bytes(b: &Bloom<Vec<u8>>) -> (r: Option<Vec<u8>>)
    ensures
        r matches Some(v) ==> {
            &&& v@ == bloom_serialized(*b)
            &&& serialized_keys(v@) == bloom_keys(*b)
            &&& (bloom_ok(*b) ==> filter_ok(v@))
        },
{
    postcard::to_allocvec(b).ok()
}

/// Relies on `postcard::from_bytes`: a filter read back from bytes, or
/// `None` when they do not hold one; which bytes give a usable filter is
/// named `filter_ok`, as the result depends on the bytes alone.
#[verifier::external_body]
fn bloom_from_bytes(data: &[u8]) -> (r: Option<Bloom<Vec<u8>>>)
    ensures
        filter_ok(data@) <==> (r matches Some(b) && bloom_ok(b)),
        r matches Some(b) ==> bloom_keys(b) == serialized_keys(data@),
{
    postcard::from_bytes(data).ok()
}

/// Why a table could not be built or read.
#[derive(Copy, Clone, PartialEq, Eq, Debug, Structural)]
pub enum SstError {
    /// The file is too short for its trailer, or a region it names lies
    /// outside the file.
    Truncated,
    /// The index region does not hold whole meta blocks.
    BadMeta,
    /// The bloom filter could not be written or read.
    BadFilter,
    /// The table would be too large for its 32-bit offsets.
    TooLarge,
}

/// Bytes of bloom filter per table.
pub const BLOOM_BITMAP_BYTES: usize = 20;
/// Items a bloom filter is sized for.
pub const BLOOM_ITEMS: usize = 1000;

/// An immutable table's index: its blocks' offsets and key ranges, and its
/// bloom filter.
#[derive(Clone)]
pub struct SsTable {
    pub id: u32,
    pub metas: Vec<MetaBlock>,
    pub meta_offset: u32,
    pub bloom: Option<Bloom<Vec<u8>>>,
    /// The keys the filter was built from, for a table built here.
    pub keys: Ghost<Set<Seq<u8>>>,
}

impl SsTable {
    /// Every key the table was built from is recorded in its filter.
    pub open spec fn wf(&self) -> bool {
        self.bloom matches Some(b) ==> bloom_ok(b) && self.keys@.subset_of(bloom_keys(b))
    }

    /// Reads a table's index from the whole of its file's bytes: the
    /// trailer, the meta blocks filling the index region, and the filter
    /// when its length is not zero.
    pub fn open(id: u32, file: &[u8]) -> (r: Result<SsTable, SstError>)
        ensures
            r matches Ok(t) ==> {
                &&& t.wf()
                &&& t.id == id
                &&& t.meta_offset == u32_at(file@, file@.len() - 4)
                &&& (t.bloom is None <==> u32_at(file@, file@.len() - 12) == 0)
                &&& spec_metas_decode(meta_region(file@)) == Some(t.metas@.map_values(|m: MetaBlock| meta_view(m)))
                &&& (t.bloom is Some ==> t.keys@ == serialized_keys(filter_region(file@)))
            },
            !trailer_ok(file@) <==> r == Err::<SsTable, SstError>(SstError::Truncated),
            trailer_ok(file@) ==> (r == Err::<SsTable, SstError>(SstError::BadMeta) <==> spec_metas_decode(meta_region(file@)) is None),
            trailer_ok(file@) && spec_metas_decode(meta_region(file@)) is Some ==> (r is Ok <==> (u32_at(file@, file@.len() - 12) == 0 || filter_ok(filter_region(file@)))),
            r matches Err(e) ==> e == SstError::Truncated || e == SstError::BadMeta || e == SstError::BadFilter,
    {
        let len = file.len();
        if len < 12 {
            return Err(SstError::Truncated);
        }
        let meta_offset = get_u32_le(file, len - 4);
        let filter_offset = get_u32_le(file, len - 8);
        let filter_len = get_u32_le(file, len - 12);
        if (filter_len as usize) > len - 12 || (meta_offset as usize) > len - 12 - filter_len as usize {
            return Err(SstError::Truncated);
        }
        let meta_end = len - 12 - filter_len as usize;
        if filter_len != 0 && ((filter_offset as usize) > len || (filter_len as usize) > len - filter_offset as usize) {
            return Err(SstError::Truncated);
        }
        let region = copy_range(file, meta_offset as usize, meta_end);
        let ghost rv = region@;
        assert(rv == meta_region(file@));
        let mut metas: Vec<MetaBlock> = Vec::new();
        let mut pos: usize = 0;
        assert(rv.subrange(0, rv.len() as int) =~= rv);
        while pos < region.len()
            invariant
                pos <= region@.len(),
                rv == region@,
                rv == meta_region(file@),
                trailer_ok(file@),
                filter_len == u32_at(file@, file@.len() - 12),
                filter_offset == u32_at(file@, file@.len() - 8),
                meta_offset == u32_at(file@, file@.len() - 4),
                len == file@.len(),
                spec_metas_decode(rv) == prepend_metas(metas@.map_values(|m: MetaBlock| meta_view(m)), spec_metas_decode(rv.subrange(pos as int, rv.len() as int))),
            decreases region.len() - pos,
        {
            let ghost rest = rv.subrange(pos as int, rv.len() as int);
            match Entry::decode_at(region.as_slice(), pos) {
                Some((e, next)) => {
                    proof { lemma_entry_decode_len(rest); }
                    let ghost before = metas@.map_values(|m: MetaBlock| meta_view(m));
                    let m = MetaBlock { offset: e.meta, first_key: e.key, last_key: e.value };
                    assert(meta_view(m) == e@);
                    metas.push(m);
                    proof {
                        let rest2 = rv.subrange(next as int, rv.len() as int);
                        assert(rest.subrange((next - pos) as int, rest.len() as int) =~= rest2);
                        assert(metas@.map_values(|m: MetaBlock| meta_view(m)) =~= before.push(e@));
                        if let Some(t) = spec_metas_decode(rest2) {
                            assert(before + (seq![e@] + t) =~= before.push(e@) + t);
                        }
                    }
                    pos = next;
                },
                None => {
                    assert(spec_metas_decode(rest) is None);
                    return Err(SstError::BadMeta);
                },
            }
        }
        proof {
            assert(rv.subrange(pos as int, rv.len() as int) =~= Seq::<u8>::empty());
            assert(metas@.map_values(|m: MetaBlock| meta_view(m)) + Seq::<EntryView>::empty() =~= metas@.map_values(|m: MetaBlock| meta_view(m)));
        }
        let mut keys: Ghost<Set<Seq<u8>>> = Ghost(Set::empty());
        let bloom = if filter_len == 0 {
            None
        } else {
            let fb = copy_range(file, filter_offset as usize, filter_offset as usize + filter_len as usize);
            assert(fb@ == filter_region(file@));
            match bloom_from_bytes(fb.as_slice()) {
                Some(b) => {
                    if !bloom_is_ok(&b) {
                        return Err(SstError::BadFilter);
                    }
                    keys = Ghost(serialized_keys(fb@));
                    Some(b)
                },
                None => {
                    return Err(SstError::BadFilter);
                },
            }
        };
        Ok(SsTable { id, metas, meta_offset, bloom, keys })
    }

    pub fn id(&self) -> (r: u32)
        ensures
            r == self.id,
    {
        self.id
    }

    pub fn num_of_blocks(&self) -> (r: usize)
        ensures
            r == self.metas@.len(),
    {
        self.metas.len()
    }

    /// Whether the table may hold `key`: always, without a filter; else what
    /// the filter answers, which is never false for a key the table was built
    /// from.
    pub fn maybe_contains_key(&self, key: &Vec<u8>) -> (r: bool)
        requires
            self.wf(),
        ensures
            self.keys@.contains(key@) ==> r,
            self.bloom is None ==> r,
    {
        match &self.bloom {
            None => true,
            Some(b) => bloom_check(b, key),
        }
    }

    /// The first key of the first block and the last key of the last one.
    pub fn key_range(&self) -> (r: (Vec<u8>, Vec<u8>))
        requires
            self.metas@.len() > 0,
        ensures
            r.0@ == self.metas@[0].first_key@,
            r.1@ == self.metas@[self.metas@.len() - 1].last_key@,
    {
        (self.metas[0].first_key.clone(), self.metas[self.metas.len() - 1].last_key.clone())
    }

    /// Whether the key ranges of the two tables share a key; an empty table
    /// overlaps nothing.
    pub fn is_overlap(&self, other: &SsTable) -> (r: bool)
        ensures
            r == (self.metas@.len() > 0 && other.metas@.len() > 0 && ranges_overlap(
                self.metas@[0].first_key@,
                self.metas@[self.metas@.len() - 1].last_key@,
                other.metas@[0].first_key@,
                other.metas@[other.metas@.len() - 1].last_key@,
            )),
    {
        if self.metas.len() == 0 || other.metas.len() == 0 {
            return false;
        }
        let (min_key, max_key) = self.key_range();
        let (other_min, other_max) = other.key_range();
        key_ranges_overlap(&min_key, &max_key, &other_min, &other_max)
    }

    /// The index of the last block whose first key is at most `key`, or 0
    /// when there is none.
    pub fn find_block_idx(&self, key: &[u8]) -> (r: usize)
        ensures
            self.metas@.len() == 0 ==> r == 0,
            self.metas@.len() > 0 ==> r < self.metas@.len(),
            metas_sorted(self.metas@) && r > 0 ==> lex_le(self.metas@[r as int].first_key@, key@),
            metas_sorted(self.metas@) && r + 1 < self.metas@.len() ==> lex_lt(key@, self.metas@[r + 1].first_key@),
            metas_sorted(self.metas@) && r == 0 && self.metas@.len() > 1 ==> lex_lt(key@, self.metas@[1].first_key@),
    {
        proof { lemma_lex_order(); }
        let mut low: usize = 0;
        let mut high: usize = self.metas.len();
        while low < high
            invariant
                low <= high <= self.metas@.len(),
                metas_sorted(self.metas@) ==> forall|j: int| 0 <= j < low ==> lex_le((#[trigger] self.metas@[j]).first_key@, key@),
                metas_sorted(self.metas@) ==> forall|j: int| high <= j < self.metas@.len() ==> lex_lt(key@, (#[trigger] self.metas@[j]).first_key@),
            decreases high - low,
        {
            proof { lemma_lex_order(); }
            let mid = low + (high - low) / 2;
            let c = compare_bytes(self.metas[mid].first_key.as_slice(), key);
            if matches!(c, Ordering::Greater) {
                proof {
                    if metas_sorted(self.metas@) {
                        assert forall|j: int| mid <= j < self.metas@.len() implies lex_lt(key@, (#[trigger] self.metas@[j]).first_key@) by {
                            if j > mid {
                                assert(lex_le(self.metas@[mid as int].first_key@, self.metas@[j].first_key@));
                            }
                        }
                    }
                }
                high = mid;
            } else {
                proof {
                    if metas_sorted(self.metas@) {
                        assert forall|j: int| 0 <= j < mid + 1 implies lex_le((#[trigger] self.metas@[j]).first_key@, key@) by {
                            if j < mid {
                                assert(lex_le(self.metas@[j].first_key@, self.metas@[mid as int].first_key@));
                            }
                        }
                    }
                }
                low = mid + 1;
            }
        }
        if low == 0 {
            0
        } else {
            low - 1
        }
    }

    /// The block at which a search for `key` starts: the one `find_block_idx`
    /// gives, moved back over blocks that end with `key` while the block
    /// after them starts with it, so that the first version of the key is
    /// met first.
    pub fn first_block_for_key(&self, key: &[u8]) -> (r: usize)
        ensures
            self.metas@.len() == 0 ==> r == 0,
            self.metas@.len() > 0 ==> r < self.metas@.len(),
            r > 0 ==> !(self.metas@[r as int].first_key@ == key@ && self.metas@[r - 1].last_key@ == key@),
    {
        let mut idx = self.find_block_idx(key);
        let ghost n = self.metas@.len();
        while idx > 0 && matches!(compare_bytes(self.metas[idx].first_key.as_slice(), key), Ordering::Equal)
            && matches!(compare_bytes(self.metas[idx - 1].last_key.as_slice(), key), Ordering::Equal)
            invariant
                n == self.metas@.len(),
                n == 0 ==> idx == 0,
                n > 0 ==> idx < n,
            decreases idx,
        {
            idx = idx - 1;
        }
        idx
    }

    /// Where block `idx` starts and ends in the file.
    pub fn block_range(&self, idx: usize) -> (r: (u32, u32))
        requires
            idx < self.metas@.len(),
        ensures
            r.0 == self.metas@[idx as int].offset,
            r.1 == if idx + 1 < self.metas@.len() {
                self.metas@[idx + 1].offset
            } else {
                self.meta_offset
            },
    {
        let start = self.metas[idx].offset;
        let end = if idx < self.metas.len() - 1 {
            self.metas[idx + 1].offset
        } else {
            self.meta_offset
        };
        (start, end)
    }
}

/// Meta blocks ordered by first key.
pub open spec fn metas_sorted(m: Seq<MetaBlock>) -> bool {
    forall|i: int, j: int| 0 <= i < j < m.len() ==> lex_le(#[trigger] m[i].first_key@, #[trigger] m[j].first_key@)
}

/// The closed key ranges `[a_min, a_max]` and `[b_min, b_max]` share a key.
pub open spec fn ranges_overlap(a_min: Seq<u8>, a_max: Seq<u8>, b_min: Seq<u8>, b_max: Seq<u8>) -> bool {
    lex_le(a_min, b_max) && lex_le(b_min, a_max)
}

/// Whether two closed key ranges share a key.
pub fn key_ranges_overlap(a_min: &Vec<u8>, a_max: &Vec<u8>, b_min: &Vec<u8>, b_max: &Vec<u8>) -> (r: bool)
    ensures
        r == ranges_overlap(a_min@, a_max@, b_min@, b_max@),
{
    proof { lemma_lex_order(); }
    let c1 = compare_bytes(a_min.as_slice(), b_max.as_slice());
    let c2 = compare_bytes(b_min.as_slice(), a_max.as_slice());
    !matches!(c1, Ordering::Greater) && !matches!(c2, Ordering::Greater)
}

/// Streams sorted entries into blocks, with an index and a bloom filter.
pub struct SsTableBuilder {
    pub builder: BlockBuilder,
    pub first_key: Vec<u8>,
    pub last_key: Vec<u8>,
    pub meta: Vec<MetaBlock>,
    pub data: Vec<u8>,
    pub bloom: Bloom<Vec<u8>>,
    pub keys: Ghost<Set<Seq<u8>>>,
    /// A block started past the reach of 32-bit offsets.
    pub too_large: bool,
}

/// The encoded meta blocks, in order.
pub open spec fn spec_metas_bytes(ms: Seq<MetaBlock>) -> Seq<u8>
    decreases ms.len(),
{
    if ms.len() == 0 {
        Seq::empty()
    } else {
        spec_metas_bytes(ms.drop_last()) + spec_meta_encode(ms.last().offset, ms.last().first_key@, ms.last().last_key@)
    }
}

proof fn lemma_metas_bytes_prefix(ms: Seq<MetaBlock>, i: int)
    requires
        0 <= i <= ms.len(),
    ensures
        spec_metas_bytes(ms.subrange(0, i)).len() <= spec_metas_bytes(ms).len(),
    decreases ms.len() - i,
{
    if i < ms.len() {
        lemma_metas_bytes_prefix(ms, i + 1);
        assert(ms.subrange(0, i + 1).drop_last() =~= ms.subrange(0, i));
    } else {
        assert(ms.subrange(0, i) =~= ms);
    }
}

proof fn lemma_metas_bytes_front(ms: Seq<MetaBlock>)
    requires
        ms.len() > 0,
    ensures
        spec_metas_bytes(ms) == spec_meta_encode(ms[0].offset, ms[0].first_key@, ms[0].last_key@) + spec_metas_bytes(ms.drop_first()),
    decreases ms.len(),
{
    if ms.len() == 1 {
        assert(ms.drop_first() =~= Seq::<MetaBlock>::empty());
        assert(ms.drop_last() =~= Seq::<MetaBlock>::empty());
        assert(spec_metas_bytes(Seq::<MetaBlock>::empty()) =~= Seq::<u8>::empty());
        assert(Seq::<u8>::empty() + spec_meta_encode(ms[0].offset, ms[0].first_key@, ms[0].last_key@) =~= spec_meta_encode(ms[0].offset, ms[0].first_key@, ms[0].last_key@) + Seq::<u8>::empty());
    } else {
        lemma_metas_bytes_front(ms.drop_last());
        assert(ms.drop_last().drop_first() =~= ms.drop_first().drop_last());
        assert(ms.drop_first().last() == ms.last());
        assert(ms.drop_last()[0] == ms[0]);
        let e0 = spec_meta_encode(ms[0].offset, ms[0].first_key@, ms[0].last_key@);
        let el = spec_meta_encode(ms.last().offset, ms.last().first_key@, ms.last().last_key@);
        assert(spec_metas_bytes(ms) =~= e0 + spec_metas_bytes(ms.drop_first().drop_last()) + el);
    }
}

/// The index a table writes reads back as its meta blocks.
pub proof fn lemma_metas_round_trip(ms: Seq<MetaBlock>)
    requires
        forall|i: int| 0 <= i < ms.len() ==> entry_fits(meta_view(#[trigger] ms[i])),
    ensures
        spec_metas_decode(spec_metas_bytes(ms)) == Some(ms.map_values(|m: MetaBlock| meta_view(m))),
    decreases ms.len(),
{
    if ms.len() == 0 {
        assert(spec_metas_bytes(ms) =~= Seq::<u8>::empty());
        assert(ms.map_values(|m: MetaBlock| meta_view(m)) =~= Seq::<EntryView>::empty());
    } else {
        let rest = ms.drop_first();
        assert forall|i: int| 0 <= i < rest.len() implies entry_fits(meta_view(#[trigger] rest[i])) by {
            assert(rest[i] == ms[i + 1]);
        }
        lemma_metas_round_trip(rest);
        lemma_metas_bytes_front(ms);
        let e0 = meta_view(ms[0]);
        assert(spec_meta_encode(ms[0].offset, ms[0].first_key@, ms[0].last_key@) == spec_entry_encode(e0));
        assert(entry_fits(meta_view(ms[0])));
        lemma_entry_decode_encode(e0, spec_metas_bytes(rest));
        let b = spec_metas_bytes(ms);
        let n = spec_entry_encode(e0).len();
        assert(b.subrange(n as int, b.len() as int) =~= spec_metas_bytes(rest));
        assert(seq![e0] + rest.map_values(|m: MetaBlock| meta_view(m)) =~= ms.map_values(|m: MetaBlock| meta_view(m)));
    }
}

/// A table's file opens: for the bytes `SsTableBuilder::build` returns with
/// its table, `SsTable::open` succeeds (its conditions for success hold), and
/// the opened filter answers true for every key the builder was given.
pub proof fn lemma_built_table_opens(bytes: Seq<u8>, metas: Seq<MetaBlock>, keys: Set<Seq<u8>>)
    requires
        trailer_ok(bytes),
        meta_region(bytes) == spec_metas_bytes(metas),
        forall|i: int| 0 <= i < metas.len() ==> entry_fits(meta_view(#[trigger] metas[i])),
        filter_ok(filter_region(bytes)),
        keys.subset_of(serialized_keys(filter_region(bytes))),
    ensures
        spec_metas_decode(meta_region(bytes)) == Some(metas.map_values(|m: MetaBlock| meta_view(m))),
        u32_at(bytes, bytes.len() - 12) == 0 || filter_ok(filter_region(bytes)),
        keys.subset_of(serialized_keys(filter_region(bytes))),
{
    lemma_metas_round_trip(metas);
}

impl SsTableBuilder {
    /// The meta block of the block being built.
    pub open spec fn last_meta(&self) -> MetaBlock {
        MetaBlock { offset: self.data@.len() as u32, first_key: self.first_key, last_key: self.last_key }
    }

    pub open spec fn wf(&self) -> bool {
        &&& self.builder.wf()
        &&& self.keys@.subset_of(bloom_keys(self.bloom))
        &&& bloom_ok(self.bloom)
    }

    pub fn new() -> (r: SsTableBuilder)
        ensures
            r.wf(),
            r.keys@ == Set::<Seq<u8>>::empty(),
            r.data@.len() == 0,
            r.builder.data@.len() == 0,
    {
        SsTableBuilder {
            builder: BlockBuilder::new(),
            first_key: Vec::new(),
            last_key: Vec::new(),
            meta: Vec::new(),
            data: Vec::new(),
            bloom: bloom_new(BLOOM_BITMAP_BYTES, BLOOM_ITEMS),
            keys: Ghost(Set::empty()),
            too_large: false,
        }
    }

    /// Bytes written so far plus the block being built.
    pub fn size(&self) -> (r: usize)
        requires
            self.wf(),
        ensures
            r == if self.data@.len() + self.builder.spec_size() <= usize::MAX {
                self.data@.len() + self.builder.spec_size()
            } else {
                usize::MAX as int
            },
    {
        let b = self.builder.size();
        if b > usize::MAX - self.data.len() {
            usize::MAX
        } else {
            self.data.len() + b
        }
    }

    /// Adds an entry (entries come in key order).
    pub fn add(&mut self, e: &Entry)
        requires
            old(self).wf(),
            entry_fits(e@),
            spec_entry_size(e@) <= usize::MAX - 4 * BLOCK_SIZE,
        ensures
            final(self).wf(),
            final(self).keys@ == old(self).keys@.insert(e.key@),
    {
        bloom_set(&mut self.bloom, &e.key);
        self.keys = Ghost(self.keys@.insert(e.key@));
        if self.first_key.len() == 0 {
            self.first_key = e.key.clone();
        }
        if self.builder.add(e) {
            self.last_key = e.key.clone();
            return;
        }
        self.finish_block();
        let ok = self.builder.add(e);
        assert(ok);
        self.first_key = e.key.clone();
        self.last_key = e.key.clone();
    }

    /// Closes the block being built and indexes it.
    fn finish_block(&mut self)
        requires
            old(self).wf(),
        ensures
            final(self).wf(),
            final(self).keys == old(self).keys,
            final(self).bloom == old(self).bloom,
            final(self).builder.data@.len() == 0,
            final(self).builder.entry_size == 0,
            final(self).too_large == (old(self).too_large || old(self).data@.len() > u32::MAX),
            old(self).data@.len() <= u32::MAX ==> {
                &&& final(self).data@.len() == old(self).data@.len() + old(self).builder.spec_size()
                &&& final(self).data@.subrange(0, old(self).data@.len() as int) == old(self).data@
                &&& final(self).meta@ == old(self).meta@.push(MetaBlock { offset: old(self).data@.len() as u32, first_key: old(self).first_key, last_key: old(self).last_key })
            },
    {
        let ghost d0 = self.data@;
        let mut old_builder = BlockBuilder::new();
        std::mem::swap(&mut self.builder, &mut old_builder);
        let encoded = old_builder.build().encode();
        let mut first: Vec<u8> = Vec::new();
        std::mem::swap(&mut self.first_key, &mut first);
        let mut last: Vec<u8> = Vec::new();
        std::mem::swap(&mut self.last_key, &mut last);
        if self.data.len() > u32::MAX as usize {
            self.too_large = true;
            return;
        }
        self.meta.push(MetaBlock { offset: self.data.len() as u32, first_key: first, last_key: last });
        put_slice(&mut self.data, encoded.as_slice());
        assert(self.data@.subrange(0, d0.len() as int) =~= d0);
    }

    /// Number of blocks closed.
    pub fn len(&self) -> (r: usize)
        ensures
            r == self.meta@.len(),
    {
        self.meta.len()
    }

    /// Closes the last block and lays out the file: blocks, index, filter and
    /// trailer. Returns the table and the file's bytes.
    pub fn build(self, id: u32) -> (r: Result<(SsTable, Vec<u8>), SstError>)
        requires
            self.wf(),
        ensures
            r matches Ok((t, bytes)) ==> {
                &&& t.wf() && t.id == id && t.keys@ == self.keys@ && t.bloom is Some
                &&& t.metas@ == self.meta@.push(self.last_meta())
                &&& t.meta_offset == self.data@.len() + self.builder.spec_size()
                &&& bytes@.subrange(0, self.data@.len() as int) == self.data@
                &&& bytes@ == bytes@.subrange(0, t.meta_offset as int) + spec_metas_bytes(t.metas@)
                    + bloom_serialized(self.bloom) + le_u32(bloom_serialized(self.bloom).len() as u32)
                    + le_u32((t.meta_offset + spec_metas_bytes(t.metas@).len()) as u32) + le_u32(t.meta_offset)
                &&& trailer_ok(bytes@)
                &&& filter_region(bytes@) == bloom_serialized(self.bloom)
                &&& meta_region(bytes@) == spec_metas_bytes(t.metas@)
                &&& filter_ok(filter_region(bytes@))
                &&& self.keys@.subset_of(serialized_keys(filter_region(bytes@)))
            },
            r matches Err(e) ==> e == SstError::TooLarge || e == SstError::BadFilter,
            !self.too_large && self.data@.len() <= u32::MAX
                && self.data@.len() + self.builder.spec_size() + spec_metas_bytes(self.meta@.push(self.last_meta())).len()
                    + bloom_serialized(self.bloom).len() <= u32::MAX
                ==> r is Ok || r == Err::<(SsTable, Vec<u8>), SstError>(SstError::BadFilter),
    {
        let mut this = self;
        this.finish_block();
        if this.too_large || this.data.len() > u32::MAX as usize {
            return Err(SstError::TooLarge);
        }
        let meta_offset_usize = this.data.len();
        let ghost k0 = this.keys;
        let ghost b0 = this.bloom;
        let ghost d1 = this.data@;
        let ghost ms = this.meta@;
        let ghost within = self.data@.len() + self.builder.spec_size() + spec_metas_bytes(ms).len() + bloom_serialized(b0).len() <= u32::MAX;
        let mut i: usize = 0;
        while i < this.meta.len()
            invariant
                i <= this.meta@.len(),
                this.meta@ == ms,
                this.data@.len() <= u32::MAX,
                meta_offset_usize == d1.len(),
                meta_offset_usize <= u32::MAX,
                this.data@ == d1 + spec_metas_bytes(ms.subrange(0, i as int)),
                this.keys == k0,
                this.bloom == b0,
                k0@.subset_of(bloom_keys(b0)),
                bloom_ok(b0),
                within ==> d1.len() + spec_metas_bytes(ms).len() + bloom_serialized(b0).len() <= u32::MAX,
                within == (self.data@.len() + self.builder.spec_size() + spec_metas_bytes(ms).len() + bloom_serialized(b0).len() <= u32::MAX),
                ms == self.meta@.push(self.last_meta()),
                b0 == self.bloom,
                d1.len() == self.data@.len() + self.builder.spec_size(),
            decreases this.meta.len() - i,
        {
            let enc = this.meta[i].encode();
            proof {
                lemma_metas_bytes_prefix(ms, i as int + 1);
                assert(ms.subrange(0, i as int + 1).drop_last() =~= ms.subrange(0, i as int));
                assert(ms.subrange(0, i as int + 1).last() == ms[i as int]);
                assert(enc@ == spec_meta_encode(ms[i as int].offset, ms[i as int].first_key@, ms[i as int].last_key@));
            }
            if enc.len() > u32::MAX as usize - this.data.len() {
                return Err(SstError::TooLarge);
            }
            put_slice(&mut this.data, enc.as_slice());
            i = i + 1;
        }
        assert(ms.subrange(0, i as int) =~= ms);
        let filter = match bloom_to_bytes(&this.bloom) {
            Some(f) => f,
            None => {
                return Err(SstError::BadFilter);
            },
        };
        if filter.len() > u32::MAX as usize - this.data.len() {
            return Err(SstError::TooLarge);
        }
        let ghost d2 = this.data@;
        let filter_offset = this.data.len() as u32;
        let filter_len = filter.len() as u32;
        put_slice(&mut this.data, filter.as_slice());
        put_u32_le(&mut this.data, filter_len);
        put_u32_le(&mut this.data, filter_offset);
        put_u32_le(&mut this.data, meta_offset_usize as u32);
        proof {
            assert(this.data@.subrange(0, d1.len() as int) =~= d1);
            assert(this.data@.subrange(0, self.data@.len() as int) =~= self.data@);
            assert(this.data@ =~= this.data@.subrange(0, d1.len() as int) + spec_metas_bytes(ms) + bloom_serialized(b0) + le_u32(filter_len) + le_u32(filter_offset) + le_u32(meta_offset_usize as u32));
            let f = this.data@;
            let n = f.len();
            assert(f.subrange(n - 12, n - 8) =~= le_u32(filter_len));
            assert(f.subrange(n - 8, n - 4) =~= le_u32(filter_offset));
            assert(f.subrange(n - 4, n as int) =~= le_u32(meta_offset_usize as u32));
            lemma_u32_round_trip(filter_len, f, n - 12);
            lemma_u32_round_trip(filter_offset, f, n - 8);
            lemma_u32_round_trip(meta_offset_usize as u32, f, n - 4);
            assert(filter_region(f) =~= bloom_serialized(b0));
            assert(meta_region(f) =~= spec_metas_bytes(ms));
        }
        let table = SsTable {
            id,
            metas: this.meta,
            meta_offset: meta_offset_usize as u32,
            bloom: Some(this.bloom),
            keys: this.keys,
        };
        Ok((table, this.data))
    }
}

} // verus!
