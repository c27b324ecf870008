//! Where the parts of a cache lie inside its byte region.
use vstd::prelude::*;

verus! {

/// Granularity of mappings: blocks start and end on multiples of it.
pub const PAGE: usize = 16384;

/// Stands for "no slot" in every link of the cache.
pub const NIL: u32 = 0xffff_ffff;

/// Bytes of the header record.
pub const HEADER_SIZE: usize = 72;

/// Bytes of one node record, padding included.
pub const NODE_SIZE: usize = 48;

/// Alignment of a node record.
pub const NODE_ALIGN: usize = 16;

/// `x` rounded up to a multiple of `align`.
pub open spec fn round_up(x: int, align: int) -> int {
    (x + align - 1) / align * align
}

/// Offsets of the parts of a region:
/// header, padding to a page, nodes, buckets, states, pins, padding to a page, blocks.
#[derive(Copy, Clone, PartialEq, Eq, Structural, Debug)]
pub struct RegionLayout {
    /// Bytes of the whole region.
    pub size: usize,
    /// Alignment of its first byte.
    pub align: usize,
    pub nodes_off: usize,
    pub buckets_off: usize,
    pub states_off: usize,
    pub pins_off: usize,
    pub blocks_off: usize,
}

pub open spec fn nodes_offset() -> int {
    round_up(round_up(HEADER_SIZE as int, PAGE as int), NODE_ALIGN as int)
}

pub open spec fn buckets_offset(capacity: int) -> int {
    round_up(nodes_offset() + capacity * NODE_SIZE, 4)
}

pub open spec fn states_offset(capacity: int) -> int {
    buckets_offset(capacity) + capacity * 4
}

pub open spec fn pins_offset(capacity: int) -> int {
    round_up(states_offset(capacity) + capacity, 2)
}

pub open spec fn blocks_offset(capacity: int) -> int {
    round_up(pins_offset(capacity) + capacity * 2, PAGE as int)
}

pub open spec fn region_size(capacity: int, block_size: int) -> int {
    round_up(blocks_offset(capacity) + capacity * block_size, PAGE as int)
}

/// A region can be laid out: `capacity` is a slot count, `block_size` a non-zero
/// number of whole pages, and the region is no larger than an allocation may be.
pub open spec fn layout_exists(capacity: u32, block_size: usize) -> bool {
    &&& 0 < capacity
    &&& capacity != NIL
    &&& block_size != 0
    &&& block_size % PAGE == 0
    &&& region_size(capacity as int, block_size as int) <= isize::MAX
}

pub proof fn lemma_offsets(capacity: u32, block_size: usize)
    requires
        0 < capacity,
        block_size % PAGE == 0,
    ensures
        nodes_offset() == PAGE,
        buckets_offset(capacity as int) == PAGE + 48 * capacity,
        states_offset(capacity as int) == PAGE + 52 * capacity,
        PAGE + 53 * capacity <= pins_offset(capacity as int) <= PAGE + 53 * capacity + 1,
        pins_offset(capacity as int) % 2 == 0,
        pins_offset(capacity as int) + 2 * capacity <= blocks_offset(capacity as int)
            < pins_offset(capacity as int) + 2 * capacity + PAGE,
        blocks_offset(capacity as int) % (PAGE as int) == 0,
        (capacity as int * block_size as int) % (PAGE as int) == 0,
        region_size(capacity as int, block_size as int) == blocks_offset(capacity as int)
            + capacity as int * block_size as int,
{
    let k = block_size as int / PAGE as int;
    assert(capacity as int * block_size as int == (capacity as int * k) * (PAGE as int))
        by (nonlinear_arith)
        requires
            block_size == k * PAGE,
    ;
}

/// The smallest multiple of `align` that is at least `x`.
fn pad_to(x: usize, align: usize) -> (r: usize)
    requires
        0 < align,
        x + align <= usize::MAX,
    ensures
        r == round_up(x as int, align as int),
        x <= r < x + align,
{
    let q: usize = (x + align - 1) / align;
    proof {
        vstd::arithmetic::div_mod::lemma_fundamental_div_mod(x + align - 1, align as int);
        assert(q * align == align * q) by (nonlinear_arith);
    }
    q * align
}

impl RegionLayout {
    /// The layout of a region of `capacity` slots with blocks of `block_size` bytes.
    pub open spec fn of(self, capacity: int, block_size: int) -> bool {
        &&& self.size == region_size(capacity, block_size)
        &&& self.align == PAGE
        &&& self.nodes_off == nodes_offset()
        &&& self.buckets_off == buckets_offset(capacity)
        &&& self.states_off == states_offset(capacity)
        &&& self.pins_off == pins_offset(capacity)
        &&& self.blocks_off == blocks_offset(capacity)
    }

    /// Whether `new` may be called on these arguments.
    pub fn fits(capacity: u32, block_size: usize) -> (r: bool)
        ensures
            r == layout_exists(capacity, block_size),
    {
        if capacity == 0 || capacity == NIL || block_size == 0 || block_size % PAGE != 0 {
            return false;
        }
        proof {
            lemma_offsets(capacity, block_size);
            assert(capacity as int * block_size as int <= 0xffff_ffff * 0xffff_ffff_ffff_ffff)
                by (nonlinear_arith)
                requires
                    capacity <= 0xffff_ffff,
                    block_size <= 0xffff_ffff_ffff_ffff,
            ;
        }
        let cap: u128 = capacity as u128;
        let pins: u128 = (PAGE as u128 + 53 * cap + 1) / 2 * 2;
        let blocks: u128 = (pins + 2 * cap + (PAGE as u128 - 1)) / (PAGE as u128) * (PAGE as u128);
        blocks + cap * block_size as u128 <= isize::MAX as u128
    }

    pub fn new(capacity: u32, block_size: usize) -> (r: RegionLayout)
        requires
            layout_exists(capacity, block_size),
        ensures
            r.of(capacity as int, block_size as int),
    {
        proof {
            lemma_offsets(capacity, block_size);
        }
        let cap: usize = capacity as usize;
        let header: usize = pad_to(HEADER_SIZE, PAGE);
        let nodes_off: usize = pad_to(header, NODE_ALIGN);
        let buckets_off: usize = pad_to(nodes_off + cap * NODE_SIZE, 4);
        let states_off: usize = buckets_off + cap * 4;
        let pins_off: usize = pad_to(states_off + cap, 2);
        let blocks_off: usize = pad_to(pins_off + cap * 2, PAGE);
        let size: usize = pad_to(blocks_off + cap * block_size, PAGE);
        RegionLayout {
            size,
            align: PAGE,
            nodes_off,
            buckets_off,
            states_off,
            pins_off,
            blocks_off,
        }
    }
}

} // verus!
