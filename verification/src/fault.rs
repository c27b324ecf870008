//! From the address of a page fault to the block that answers it.
use vstd::prelude::*;

use crate::layout;
use crate::requests::PtrRange;
use crate::PAGE_SIZE;

verus! {

/// The part of a mapped object that answers a page fault.
#[derive(Copy, Clone, PartialEq, Eq, Structural, Debug)]
pub struct FaultPlan {
    /// The number of the block in the object.
    pub block_number: u64,
    /// The first byte of the block in the object.
    pub start: usize,
    /// The first byte after the block in the object.
    pub end: usize,
    /// Where the block is to be mapped.
    pub dst: usize,
    /// How much is to be mapped, in whole pages.
    pub remap: usize,
}

/// The smaller of two numbers.
pub open spec fn min(a: int, b: int) -> int {
    if a <= b {
        a
    } else {
        b
    }
}

/// The page that holds the address `addr`.
pub open spec fn page_of(addr: usize) -> usize {
    (addr - addr % PAGE_SIZE) as usize
}

impl FaultPlan {
    /// What answers a fault at `page`, which lies in `range`, with blocks of `block_size` bytes.
    pub open spec fn answers(self, range: PtrRange, page: usize, block_size: int) -> bool {
        let total = range.1 - range.0;
        let block_number = (page - range.0) / block_size;
        &&& self.block_number == block_number
        &&& self.start == block_number * block_size
        &&& self.end == min(total, block_number * block_size + block_size)
        &&& self.dst == range.0 + block_number * block_size
        &&& self.remap == min(
            block_size,
            layout::round_up(total - block_number * block_size, PAGE_SIZE as int),
        )
    }

    /// The first and the last byte that a download has to bring.
    pub fn wanted(&self) -> (r: (usize, usize))
        requires
            self.start < self.end,
        ensures
            r.0 == self.start,
            r.1 == self.end - 1,
    {
        (self.start, self.end - 1)
    }

    /// How many bytes a download has to bring.
    pub fn wanted_len(&self) -> (r: usize)
        requires
            self.start <= self.end,
        ensures
            r == self.end - self.start,
    {
        self.end - self.start
    }
}

/// The plan for a fault at `page`.
pub fn plan(range: PtrRange, page: usize, block_size: usize) -> (r: FaultPlan)
    requires
        range.spec_contains(page),
        0 < block_size <= isize::MAX,
    ensures
        r.answers(range, page, block_size as int),
{
    let base: usize = range.0;
    let total: usize = range.1 - base;
    let block_number: usize = (page - base) / block_size;
    proof {
        lemma_block(page - base, block_size as int);
        assert(block_number * block_size == block_size * block_number) by (nonlinear_arith);
    }
    let start: usize = block_number * block_size;
    let left: usize = total - start;
    let end: usize = if left < block_size {
        total
    } else {
        start + block_size
    };
    let remap: usize = if left < block_size {
        let pages: usize = (left + (PAGE_SIZE - 1)) / PAGE_SIZE * PAGE_SIZE;
        if pages < block_size {
            pages
        } else {
            block_size
        }
    } else {
        block_size
    };
    FaultPlan { block_number: block_number as u64, start, end, dst: base + start, remap }
}

proof fn lemma_block(x: int, block_size: int)
    requires
        0 <= x,
        0 < block_size,
    ensures
        0 <= x / block_size,
        0 <= (x / block_size) * block_size <= x,
        x < (x / block_size) * block_size + block_size,
{
    vstd::arithmetic::div_mod::lemma_fundamental_div_mod(x, block_size);
    vstd::arithmetic::div_mod::lemma_mod_bound(x, block_size);
    vstd::arithmetic::div_mod::lemma_div_pos_is_pos(x, block_size);
    assert((x / block_size) * block_size == block_size * (x / block_size)) by (nonlinear_arith);
    assert(0 <= block_size * (x / block_size)) by (nonlinear_arith)
        requires
            0 <= x / block_size,
            0 < block_size,
    ;
}

} // verus!
