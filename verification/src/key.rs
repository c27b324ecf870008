//! What names a cached block.
use vstd::prelude::*;

verus! {

/// The MD5 digest of an object's contents.
#[derive(Copy, Clone, PartialEq, Eq, Structural, Debug)]
pub struct Md5Digest(pub u128);

/// One block of one object: the object's digest and the number of the block in it.
#[derive(Copy, Clone, PartialEq, Eq, Structural, Debug)]
pub struct BlockKey {
    pub digest: Md5Digest,
    pub block: u64,
}

impl BlockKey {
    /// The exclusive or of both halves of the digest and of the block number.
    pub open spec fn spec_hash(self) -> u64 {
        ((self.digest.0 % 0x1_0000_0000_0000_0000) as u64) ^ ((self.digest.0
            / 0x1_0000_0000_0000_0000) as u64) ^ self.block
    }

    /// The hash bucket of the key among `n` buckets.
    pub open spec fn bucket(self, n: int) -> int {
        self.spec_hash() as int % n
    }

    pub fn hash(&self) -> (r: u64)
        ensures
            r == self.spec_hash(),
    {
        let d: u128 = self.digest.0;
        assert(d as u64 == (d % 0x1_0000_0000_0000_0000) as u64) by (bit_vector);
        assert((d >> 64) as u64 == (d / 0x1_0000_0000_0000_0000) as u64) by (bit_vector);
        (d as u64) ^ ((d >> 64) as u64) ^ self.block
    }
}

} // verus!
