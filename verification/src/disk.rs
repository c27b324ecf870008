//! Mapped objects over one block cache.
use std::sync::Arc;
use vstd::prelude::*;

use crate::fault;
use crate::fault::FaultPlan;
use crate::index;
use crate::key::{BlockKey, Md5Digest};
use crate::layout;
use crate::region;
use crate::region::Cache;
use crate::reopen::OpenError;
use crate::requests;
use crate::requests::{PtrRange, ReqData, Requests};
use crate::slots;
use crate::slots::{Acquired, Block, Wait};
use crate::{AlignDown, PAGE_SIZE};

verus! {

/// Objects that are mapped on demand, and the cache of their blocks.
pub struct DiskAlloc<'a, Req, Cb> {
    pub cache: Cache<'a>,
    pub requests: Requests<Arc<ReqData<Req, Cb>>>,
}

/// What a page fault needs next.
pub enum FaultStep<Req, Cb> {
    /// No mapped object holds the address.
    Unmapped,
    /// The fault is to be looked at again later.
    Wait(Wait),
    /// The block is to be downloaded and published, then mapped.
    Fetch(Block, FaultPlan, Arc<ReqData<Req, Cb>>),
    /// The block is to be mapped, then released.
    Remap(Block, FaultPlan),
}

/// The block of the object mapped at `range` that holds the address `page`.
pub open spec fn block_key<Req, Cb>(
    req: ReqData<Req, Cb>,
    range: PtrRange,
    page: usize,
    block_size: int,
) -> BlockKey {
    BlockKey { digest: req.md5_digest, block: ((page - range.0) / block_size) as u64 }
}

impl<'a, Req, Cb> DiskAlloc<'a, Req, Cb> {
    pub open spec fn wf(&self) -> bool {
        self.cache.wf() && self.requests.wf()
    }

    /// Over the mapped cache file `region`: a new one if it was just `created`, else what
    /// an earlier session left there, which `Cache::is_sound` tells whether to work on.
    pub fn new(region: &'a mut [u8], created: bool, capacity: u32, block_size: usize) -> (r: Result<
        DiskAlloc<'a, Req, Cb>,
        OpenError,
    >)
        requires
            layout::layout_exists(capacity, block_size),
            layout::region_size(capacity as int, block_size as int) <= old(region)@.len(),
        ensures
            ({
                let st = region::decode(old(region)@, capacity as int, block_size as int);
                &&& r is Ok <==> created || st.hdr.capacity == capacity && st.hdr.block_size
                    == block_size
                &&& r is Err ==> final(region)@ == old(region)@
                &&& match r {
                    Ok(disk) => {
                        &&& disk.cache.shaped()
                        &&& disk.requests.wf()
                        &&& disk.requests@ == Map::<PtrRange, Arc<ReqData<Req, Cb>>>::empty()
                        &&& disk.cache.slots() == capacity
                        &&& disk.cache.spec_block_size() == block_size
                        &&& created ==> disk.wf() && disk.cache@ == slots::fresh(
                            capacity,
                            block_size,
                            st.blocks,
                        ) && disk.cache.model() == slots::vacant(capacity as int, st.blocks)
                            && slots::cleared(
                            disk.cache.bytes(),
                            old(region)@,
                            capacity as int,
                            block_size as int,
                        )
                        &&& !created ==> disk.cache.bytes() == old(region)@ && (disk.wf()
                            <==> index::sound(st, capacity as int, block_size as int))
                    },
                    Err(OpenError::Capacity) => st.hdr.capacity != capacity,
                    Err(OpenError::BlockSize) => {
                        &&& st.hdr.capacity == capacity
                        &&& st.hdr.block_size != block_size
                    },
                }
            }),
    {
        let cache: Cache = if created {
            Cache::new(capacity, block_size, region)
        } else {
            match Cache::from_raw(region, capacity, block_size) {
                Ok(cache) => cache,
                Err(e) => {
                    return Err(e);
                },
            }
        };
        Ok(DiskAlloc { cache, requests: Requests::new() })
    }

    /// Lets the `size` addresses from `start` on stand for the bytes of an object.
    pub fn callback_buffer(
        &mut self,
        start: usize,
        size: usize,
        data: Req,
        md5: Md5Digest,
        cb: Cb,
    ) -> (r: PtrRange)
        requires
            old(self).requests.wf(),
            start + size <= usize::MAX,
        ensures
            final(self).requests.wf(),
            final(self).cache == old(self).cache,
            r.0 == start,
            r.1 == start + size,
            final(self).requests@ == old(self).requests@.insert(
                r,
                Arc::new(ReqData { cb, data, md5_digest: md5 }),
            ),
    {
        let range: PtrRange = PtrRange(start, start + size);
        self.requests.insert(range, Arc::new(ReqData { cb, data, md5_digest: md5 }));
        range
    }

    /// One look at a page fault at `addr`.
    pub fn fault(&mut self, addr: usize) -> (r: FaultStep<Req, Cb>)
        requires
            old(self).wf(),
        ensures
            final(self).wf(),
            final(self).requests@ == old(self).requests@,
            final(self).cache.same_region(&old(self).cache),
            final(self).cache@.hdr.lock == old(self).cache@.hdr.lock,
            old(self).cache.model().step(final(self).cache.model()),
            ({
                let page = fault::page_of(addr);
                let size = old(self).cache.spec_block_size();
                match requests::located(old(self).requests@, page) {
                    None => r is Unmapped && final(self).cache@ == old(self).cache@,
                    Some(range) => {
                        let req = old(self).requests@[range];
                        let key = block_key(*req, range, page, size);
                        let m = old(self).cache.model();
                        match m.slot_of(key) {
                            Some(i) => if m.ready(i) {
                                &&& r matches FaultStep::Remap(b, p) && b.of(&old(self).cache, i)
                                    && p.answers(range, page, size)
                                &&& i < old(self).cache.slots()
                                &&& final(self).cache.model() == m.used(i).pinned(i)
                            } else {
                                &&& r == FaultStep::<Req, Cb>::Wait(Wait::Loading(i))
                                &&& final(self).cache@ == old(self).cache@
                            },
                            None => match m.target() {
                                Some(i) => {
                                    &&& r matches FaultStep::Fetch(b, p, q) && b.of(
                                        &old(self).cache,
                                        i,
                                    ) && p.answers(range, page, size) && q == req
                                    &&& i < old(self).cache.slots()
                                    &&& final(self).cache.model() == m.admitted(i, key).pinned(i)
                                },
                                None => {
                                    &&& r == FaultStep::<Req, Cb>::Wait(Wait::Full)
                                    &&& final(self).cache@ == old(self).cache@
                                },
                            },
                        }
                    },
                }
            }),
    {
        let page: usize = addr.align_down(PAGE_SIZE);
        proof {
            assert(addr & !((16384 - 1) as usize) == addr - addr % 16384) by (bit_vector);
        }
        match self.requests.locate(page) {
            None => FaultStep::Unmapped,
            Some((range, req)) => {
                proof {
                    self.cache.lemma_shape();
                }
                let plan: FaultPlan = fault::plan(range, page, self.cache.block_size());
                let key: BlockKey = BlockKey { digest: req.md5_digest, block: plan.block_number };
                match self.cache.acquire(key) {
                    Acquired::Hit(block) => FaultStep::Remap(block, plan),
                    Acquired::Fetch(block) => FaultStep::Fetch(block, plan, req.clone()),
                    Acquired::Wait(wait) => FaultStep::Wait(wait),
                }
            },
        }
    }
}

} // verus!
