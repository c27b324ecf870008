//! An allocator that has exactly one region to give.
use vstd::prelude::*;

verus! {

/// The region was given away before.
#[derive(Copy, Clone, PartialEq, Eq, Structural, Debug)]
pub struct AllocError;

/// Gives its region to the first that asks.
pub struct FixedSizeByteAlloc<'a> {
    data: Option<&'a mut [u8]>,
}

impl<'a> FixedSizeByteAlloc<'a> {
    /// The bytes of the region, unless it was given away.
    pub closed spec fn data(&self) -> Option<Seq<u8>> {
        match self.data {
            Some(region) => Some(region@),
            None => None,
        }
    }

    pub fn new(data: &'a mut [u8]) -> (r: FixedSizeByteAlloc<'a>)
        ensures
            r.data() == Some(old(data)@),
    {
        FixedSizeByteAlloc { data: Some(data) }
    }

    /// The whole region, whatever size and alignment are asked for.
    pub fn allocate(&mut self, _size: usize, _align: usize) -> (r: Result<&'a mut [u8], AllocError>)
        ensures
            final(self).data() is None,
            match old(self).data() {
                Some(bytes) => r matches Ok(region) && region@ == bytes,
                None => r is Err,
            },
    {
        match self.data.take() {
            Some(region) => Ok(region),
            None => Err(AllocError),
        }
    }

    /// Does nothing: a region once given away does not come back.
    pub fn deallocate(&mut self)
        ensures
            final(self).data() == old(self).data(),
    {
    }
}

} // verus!
