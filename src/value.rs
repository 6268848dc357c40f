//! Operation types and internal keys.
use vstd::prelude::*;
use core::cmp::Ordering;
use crate::order::{lex_cmp, compare_bytes};
use crate::codec::{le_u64, put_slice, put_u64_le};

verus! {

/// What an entry records: a write, a deletion, or (in memory only) a lookup
/// probe that sorts before every real version of its key.
#[derive(Copy, Clone, PartialEq, Eq, Debug, Structural)]
pub enum OpType {
    Get,
    Put,
    Delete,
}

impl OpType {
    pub open spec fn spec_from(num: u8) -> OpType {
        if num == 2 {
            OpType::Delete
        } else if num == 1 {
            OpType::Put
        } else {
            OpType::Get
        }
    }

    pub open spec fn spec_encode(self) -> u8 {
        match self {
            OpType::Get => 255,
            OpType::Put => 1,
            OpType::Delete => 2,
        }
    }

    /// The operation with code `num`; unknown codes read as `Get`.
    pub fn from(num: u8) -> (r: OpType)
        ensures
            r == OpType::spec_from(num),
    {
        if num == 2 {
            OpType::Delete
        } else if num == 1 {
            OpType::Put
        } else {
            OpType::Get
        }
    }

    /// The on-disk code: Put = 1, Delete = 2, Get = 255.
    pub fn encode(&self) -> (r: u8)
        ensures
            r == self.spec_encode(),
    {
        match self {
            OpType::Get => 255,
            OpType::Put => 1,
            OpType::Delete => 2,
        }
    }
}

/// The internal key: a user key with its sequence number and operation.
#[derive(Clone, Debug)]
pub struct Key {
    pub user_key: Vec<u8>,
    pub seq_num: u64,
    pub op_type: OpType,
}

pub struct KeyView {
    pub user_key: Seq<u8>,
    pub seq_num: u64,
    pub op_type: OpType,
}

impl View for Key {
    type V = KeyView;

    open spec fn view(&self) -> KeyView {
        KeyView { user_key: self.user_key@, seq_num: self.seq_num, op_type: self.op_type }
    }
}

/// Order of internal keys: user key ascending, then sequence number
/// descending (newer first), then by operation code descending (so a probe
/// comes first and a deletion before a write of the same sequence number).
pub open spec fn key_cmp(a: KeyView, b: KeyView) -> Ordering {
    if a.user_key != b.user_key {
        lex_cmp(a.user_key, b.user_key)
    } else if a.seq_num != b.seq_num {
        if a.seq_num > b.seq_num {
            Ordering::Less
        } else {
            Ordering::Greater
        }
    } else if a.op_type.spec_encode() > b.op_type.spec_encode() {
        Ordering::Less
    } else if a.op_type.spec_encode() < b.op_type.spec_encode() {
        Ordering::Greater
    } else {
        Ordering::Equal
    }
}

/// The encoded internal key: the user key, the seven low bytes of the
/// sequence number little-endian, and the operation code.
pub open spec fn spec_key_encode(k: KeyView) -> Seq<u8> {
    k.user_key + le_u64(k.seq_num).subrange(0, 7) + seq![k.op_type.spec_encode()]
}

impl Key {
    pub fn new(key: Vec<u8>, seq_num: u64, op_type: OpType) -> (r: Key)
        ensures
            r@ == (KeyView { user_key: key@, seq_num, op_type }),
    {
        Key { user_key: key, seq_num, op_type }
    }

    pub fn encode(&self) -> (r: Vec<u8>)
        ensures
            r@ == spec_key_encode(self@),
    {
        let mut b: Vec<u8> = Vec::new();
        put_slice(&mut b, self.user_key.as_slice());
        let mut s: Vec<u8> = Vec::new();
        put_u64_le(&mut s, self.seq_num);
        let mut i: usize = 0;
        while i < 7
            invariant
                i <= 7,
                s@ == le_u64(self.seq_num),
                b@ == self.user_key@ + s@.subrange(0, i as int),
            decreases 7 - i,
        {
            b.push(s[i]);
            proof {
                assert(s@.subrange(0, i as int + 1) =~= s@.subrange(0, i as int).push(s@[i as int]));
            }
            i = i + 1;
        }
        b.push(self.op_type.encode());
        assert(b@ =~= spec_key_encode(self@));
        b
    }

    /// Length of the encoded key.
    pub fn len(&self) -> (r: usize)
        requires
            self.user_key@.len() + 8 <= usize::MAX,
        ensures
            r == self.user_key@.len() + 8,
    {
        8 + self.user_key.len()
    }

    /// Compares two internal keys by `key_cmp`.
    pub fn compare(&self, other: &Key) -> (r: Ordering)
        ensures
            r == key_cmp(self@, other@),
    {
        match compare_bytes(self.user_key.as_slice(), other.user_key.as_slice()) {
            Ordering::Less => Ordering::Less,
            Ordering::Greater => Ordering::Greater,
            Ordering::Equal => {
                if self.seq_num > other.seq_num {
                    Ordering::Less
                } else if self.seq_num < other.seq_num {
                    Ordering::Greater
                } else {
                    let a = self.op_type.encode();
                    let b = other.op_type.encode();
                    if a > b {
                        Ordering::Less
                    } else if a < b {
                        Ordering::Greater
                    } else {
                        Ordering::Equal
                    }
                }
            }
        }
    }
}

} // verus!
