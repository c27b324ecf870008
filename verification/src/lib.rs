//! A demand-mapped view of remote objects, backed by a persistent block cache.
//!
//! Remote bytes appear as plain memory. The first touch of a page faults; the
//! fault is turned into the block of the object that holds the page; the block
//! is downloaded once into a least-recently-used cache kept in one contiguous
//! byte region (a mapped file, so that it survives restarts) and mapped in.
//!
//! This crate is everything that is decided or computed on the way; what maps
//! memory, receives faults and talks to the network hands it plain values.
use vstd::prelude::*;

pub mod allocator;
pub mod bytes;
pub mod disk;
pub mod fault;
pub mod format;
pub mod index;
pub mod key;
pub mod laws;
pub mod layout;
pub mod links;
pub mod model;
pub mod region;
pub mod reopen;
pub mod requests;
pub mod runs;
pub mod s3;
pub mod slots;
pub mod steps;
pub mod texts;

verus! {

/// Granularity of page faults.
pub const PAGE_SIZE: usize = 16384;

/// A usual block size.
pub const ONE_MB: usize = 1048576;

/// Rounding an address down.
pub trait AlignDown: Sized {
    /// The address.
    spec fn addr(self) -> usize;

    /// The address with the bits below `align` cleared.
    fn align_down(self, align: usize) -> (r: Self)
        requires
            align > 0,
        ensures
            r.addr() == self.addr() & !((align - 1) as usize),
    ;
}

impl AlignDown for usize {
    open spec fn addr(self) -> usize {
        self
    }

    fn align_down(self, align: usize) -> (r: Self) {
        self & !(align - 1)
    }
}

} // verus!
