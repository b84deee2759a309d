use vstd::prelude::*;

use crate::checksum::{checksum, crc32c_of, new_id};
use crate::constants::BLOCK_SIZE;

verus! {

/// One erasure-code shard: its payload, its index in the chunk, a random
/// identifier and the checksum of the payload taken when it was made.
#[derive(Debug, Clone)]
pub struct Block {
    pub id: u128,
    pub position: usize,
    pub data: Vec<u8>,
    pub crc: u32,
}

impl Block {
    /// Whether the block may be used: its id is not the empty sentinel and
    /// its payload still has the checksum recorded for it.
    pub open spec fn is_intact(&self) -> bool {
        self.id != 0 && crc32c_of(self.data@) == self.crc
    }

    /// A placeholder block: sentinel id, zero payload, zero checksum.
    pub fn empty() -> (r: Block)
        ensures
            r.id == 0,
            r.position == 0,
            r.data@ == Seq::new(BLOCK_SIZE as nat, |i: int| 0u8),
            r.crc == 0,
    {
        Block { id: 0, position: 0, data: zeros(BLOCK_SIZE), crc: 0 }
    }

    /// The payload if the block is intact, `None` if it must be treated as
    /// erased.
    pub fn inner_data_as_vec(&self) -> (r: Option<Vec<u8>>)
        ensures
            self.is_intact() <==> r is Some,
            r matches Some(v) ==> v@ == self.data@,
    {
        if self.id == 0 {
            return None;
        }
        let crc = checksum(self.data.as_slice());
        if crc != self.crc {
            return None;
        }
        Some(self.data.clone())
    }

    /// A zero-filled shard of the default size at `position`, with a fresh
    /// id and the checksum of its payload.
    pub fn parity(position: usize) -> (r: Box<Block>)
        ensures
            r.id != 0,
            r.position == position,
            r.data@ == Seq::new(BLOCK_SIZE as nat, |i: int| 0u8),
            r.crc == crc32c_of(r.data@),
            r.is_intact(),
    {
        let v = zeros(BLOCK_SIZE);
        let crc = checksum(v.as_slice());
        Box::new(Block { id: new_id(), position, data: v, crc })
    }
}

/// A vector of `n` zero bytes.
pub(crate) fn zeros(n: usize) -> (r: Vec<u8>)
    ensures
        r@ == Seq::new(n as nat, |i: int| 0u8),
{
    let mut v: Vec<u8> = Vec::new();
    let mut i: usize = 0;
    while i < n
        invariant
            i <= n,
            v@ == Seq::new(i as nat, |j: int| 0u8),
        decreases n - i,
    {
        v.push(0u8);
        i = i + 1;
        assert(v@ =~= Seq::new(i as nat, |j: int| 0u8));
    }
    v
}

} // verus!
