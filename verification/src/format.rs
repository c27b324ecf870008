//! What stands where in the bytes of a cache, and what makes them a sound one.
use vstd::prelude::*;

use crate::bytes;
use crate::index;
use crate::key::{BlockKey, Md5Digest};
use crate::layout;
use crate::layout::RegionLayout;
use crate::links;
use crate::region;
use crate::region::{Cache, Store};
use crate::slots;
use crate::slots::Block;

verus! {

/// The number in two bytes, least significant first.
pub open spec fn u16_at(s: Seq<u8>, at: int) -> int {
    s[at] + 0x100 * s[at + 1]
}

/// The number in four bytes, least significant first.
pub open spec fn u32_at(s: Seq<u8>, at: int) -> int {
    s[at] + 0x100 * s[at + 1] + 0x1_0000 * s[at + 2] + 0x100_0000 * s[at + 3]
}

/// The number in eight bytes, least significant first.
pub open spec fn u64_at(s: Seq<u8>, at: int) -> int {
    u32_at(s, at) + 0x1_0000_0000 * u32_at(s, at + 4)
}

/// The number in sixteen bytes, least significant first.
pub open spec fn u128_at(s: Seq<u8>, at: int) -> int {
    u64_at(s, at) + 0x1_0000_0000_0000_0000 * u64_at(s, at + 8)
}

/// `y` is the least multiple of `unit` from `x` on.
pub open spec fn next_multiple(y: int, x: int, unit: int) -> bool {
    y % unit == 0 && x <= y < x + unit
}

proof fn lemma_step(s: Seq<u8>, at: int, width: int)
    requires
        0 <= at,
        0 < width,
        at + width <= s.len(),
    ensures
        bytes::field(s, at, width) == s[at] + 256 * bytes::field(s, at + 1, width - 1),
{
    assert(s.subrange(at, at + width).drop_first() =~= s.subrange(at + 1, at + width));
}

proof fn lemma_none(s: Seq<u8>, at: int)
    requires
        0 <= at <= s.len(),
    ensures
        bytes::field(s, at, 0) == 0,
{
    assert(s.subrange(at, at).len() == 0);
}

proof fn lemma_u16(s: Seq<u8>, at: int)
    requires
        0 <= at,
        at + 2 <= s.len(),
    ensures
        bytes::field(s, at, 2) == u16_at(s, at),
        0 <= u16_at(s, at) < 0x1_0000,
{
    lemma_step(s, at, 2);
    lemma_step(s, at + 1, 1);
    lemma_none(s, at + 2);
}

proof fn lemma_u8(s: Seq<u8>, at: int)
    requires
        0 <= at < s.len(),
    ensures
        bytes::field(s, at, 1) == s[at],
{
    lemma_step(s, at, 1);
    lemma_none(s, at + 1);
}

/// A number of `width` bytes and what is behind its first four.
proof fn lemma_four(s: Seq<u8>, at: int, width: int)
    requires
        0 <= at,
        4 <= width,
        at + width <= s.len(),
    ensures
        bytes::field(s, at, width) == u32_at(s, at) + 0x1_0000_0000 * bytes::field(
            s,
            at + 4,
            width - 4,
        ),
        0 <= u32_at(s, at) < 0x1_0000_0000,
{
    lemma_step(s, at, width);
    lemma_step(s, at + 1, width - 1);
    lemma_step(s, at + 2, width - 2);
    lemma_step(s, at + 3, width - 3);
}

proof fn lemma_u32(s: Seq<u8>, at: int)
    requires
        0 <= at,
        at + 4 <= s.len(),
    ensures
        bytes::field(s, at, 4) == u32_at(s, at),
        0 <= u32_at(s, at) < 0x1_0000_0000,
{
    lemma_four(s, at, 4);
    lemma_none(s, at + 4);
}

proof fn lemma_u64(s: Seq<u8>, at: int)
    requires
        0 <= at,
        at + 8 <= s.len(),
    ensures
        bytes::field(s, at, 8) == u64_at(s, at),
        0 <= u64_at(s, at) < 0x1_0000_0000_0000_0000,
{
    lemma_four(s, at, 8);
    lemma_u32(s, at + 4);
}

proof fn lemma_u128(s: Seq<u8>, at: int)
    requires
        0 <= at,
        at + 16 <= s.len(),
    ensures
        bytes::field(s, at, 16) == u128_at(s, at),
        0 <= u128_at(s, at) < 0x1_0000_0000_0000_0000_0000_0000_0000_0000,
{
    lemma_four(s, at, 16);
    lemma_four(s, at + 4, 12);
    lemma_u64(s, at + 8);
    lemma_u64(s, at);
}

/// A region of `n` slots starts with a page for its header. Then come the nodes of 48 bytes,
/// the buckets of four, the states of one, the pin counts of two from an even place on, and
/// the blocks from a page boundary on, with which it ends.
pub proof fn law_offsets(
    capacity: u32,
    block_size: usize,
    region: RegionLayout,
    pins_at: int,
    blocks_at: int,
)
    requires
        layout::layout_exists(capacity, block_size),
        region.of(capacity as int, block_size as int),
        next_multiple(pins_at, 16384 + 53 * capacity, 2),
        next_multiple(blocks_at, pins_at + 2 * capacity, 16384),
    ensures
        region.nodes_off == 16384,
        region.buckets_off == 16384 + 48 * capacity,
        region.states_off == 16384 + 52 * capacity,
        region.pins_off == pins_at,
        region.blocks_off == blocks_at,
        region.size == blocks_at + capacity * block_size,
        layout::region_size(capacity as int, block_size as int) == region.size,
        region.align == 16384,
{
    layout::lemma_offsets(capacity, block_size);
}

/// A region can be laid out for every number of slots but zero and the one that stands for no
/// slot, and for blocks of any number of whole pages but none, as long as all of it is no
/// larger than an allocation may be. Nothing else is refused.
pub proof fn law_fits(capacity: u32, block_size: usize, pins_at: int, blocks_at: int)
    requires
        next_multiple(pins_at, 16384 + 53 * capacity, 2),
        next_multiple(blocks_at, pins_at + 2 * capacity, 16384),
    ensures
        layout::layout_exists(capacity, block_size) <==> {
            &&& 0 < capacity < 0xffff_ffff
            &&& 0 < block_size
            &&& block_size % 16384 == 0
            &&& blocks_at + capacity * block_size <= isize::MAX
        },
{
    if 0 < capacity && block_size % 16384 == 0 {
        layout::lemma_offsets(capacity, block_size);
    }
}

/// What the header of a region is read as.
pub proof fn law_header_bytes(s: Seq<u8>, capacity: int, block_size: int)
    requires
        72 <= s.len(),
        0 <= capacity,
    ensures
        ({
            let hdr = region::decode(s, capacity, block_size).hdr;
            &&& hdr.lock == u32_at(s, 0)
            &&& hdr.capacity == u32_at(s, 4)
            &&& hdr.block_size == u64_at(s, 8)
            &&& hdr.head == u32_at(s, 16)
            &&& hdr.tail == u32_at(s, 20)
            &&& hdr.free == u32_at(s, 24)
            &&& hdr.len == u32_at(s, 28)
            &&& hdr.nodes_off == u64_at(s, 32)
            &&& hdr.buckets_off == u64_at(s, 40)
            &&& hdr.states_off == u64_at(s, 48)
            &&& hdr.pins_off == u64_at(s, 56)
            &&& hdr.blocks_off == u64_at(s, 64)
        }),
{
    region::law_format(s, capacity, block_size);
    lemma_u32(s, 0);
    lemma_u32(s, 4);
    lemma_u64(s, 8);
    lemma_u32(s, 16);
    lemma_u32(s, 20);
    lemma_u32(s, 24);
    lemma_u32(s, 28);
    lemma_u64(s, 32);
    lemma_u64(s, 40);
    lemma_u64(s, 48);
    lemma_u64(s, 56);
    lemma_u64(s, 64);
}

/// What the records of slot `i` are read as.
pub proof fn law_slot_bytes(
    s: Seq<u8>,
    capacity: u32,
    block_size: usize,
    pins_at: int,
    blocks_at: int,
    i: int,
)
    requires
        layout::layout_exists(capacity, block_size),
        next_multiple(pins_at, 16384 + 53 * capacity, 2),
        next_multiple(blocks_at, pins_at + 2 * capacity, 16384),
        blocks_at + capacity * block_size <= s.len(),
        0 <= i < capacity,
    ensures
        ({
            let st = region::decode(s, capacity as int, block_size as int);
            let at = 16384 + 48 * i;
            &&& st.nodes.len() == capacity
            &&& st.buckets.len() == capacity
            &&& st.states.len() == capacity
            &&& st.pins.len() == capacity
            &&& st.blocks.len() == capacity
            &&& st.nodes[i].key.digest.0 == u128_at(s, at)
            &&& st.nodes[i].key.block == u64_at(s, at + 16)
            &&& st.nodes[i].prev == u32_at(s, at + 32)
            &&& st.nodes[i].next == u32_at(s, at + 36)
            &&& st.nodes[i].chain == u32_at(s, at + 40)
            &&& st.buckets[i] == u32_at(s, 16384 + 48 * capacity + 4 * i)
            &&& st.states[i] == s[16384 + 52 * capacity + i]
            &&& st.pins[i] == u16_at(s, pins_at + 2 * i)
            &&& st.blocks[i] == s.subrange(
                blocks_at + i * block_size,
                blocks_at + i * block_size + block_size,
            )
        }),
{
    let n = capacity as int;
    let at = 16384 + 48 * i;
    region::law_format(s, n, block_size as int);
    layout::lemma_offsets(capacity, block_size);
    assert(0 <= n * block_size) by (nonlinear_arith)
        requires
            0 <= n,
            0 <= block_size,
    ;
    lemma_u128(s, at);
    lemma_u64(s, at + 16);
    lemma_u32(s, at + 32);
    lemma_u32(s, at + 36);
    lemma_u32(s, at + 40);
    lemma_u32(s, 16384 + 48 * n + 4 * i);
    lemma_u8(s, 16384 + 52 * n + i);
    lemma_u16(s, pins_at + 2 * i);
}

/// What a sound cache holds is in the bytes of its region.
pub proof fn law_contents_bytes(cache: &Cache, pins_at: int, blocks_at: int, i: int)
    requires
        cache.wf(),
        next_multiple(pins_at, 16384 + 53 * cache.slots(), 2),
        next_multiple(blocks_at, pins_at + 2 * cache.slots(), 16384),
        0 <= i < cache.slots(),
    ensures
        ({
            let s = cache.bytes();
            let n = cache.slots();
            let size = cache.spec_block_size();
            let m = cache.model();
            &&& blocks_at + n * size <= s.len()
            &&& m.keys.len() == u32_at(s, 28)
            &&& m.states.len() == n
            &&& m.pins.len() == n
            &&& m.blocks.len() == n
            &&& i < m.keys.len() ==> m.keys[i].digest.0 == u128_at(s, 16384 + 48 * i)
                && m.keys[i].block == u64_at(s, 16384 + 48 * i + 16)
            &&& m.states[i] == s[16384 + 52 * n + i]
            &&& m.pins[i] == u16_at(s, pins_at + 2 * i)
            &&& m.blocks[i] == s.subrange(blocks_at + i * size, blocks_at + i * size + size)
            &&& m.order.len() == 0 ==> u32_at(s, 16) == 0xffff_ffff && u32_at(s, 20) == 0xffff_ffff
            &&& m.order.len() > 0 ==> u32_at(s, 16) == m.order[0] && u32_at(s, 20)
                == m.order.last()
        }),
{
    cache.lemma_shape();
    let (capacity, block_size) = cache.lemma_exists();
    layout::lemma_offsets(capacity, block_size);
    law_header_bytes(cache.bytes(), cache.slots(), cache.spec_block_size());
    law_slot_bytes(cache.bytes(), capacity, block_size, pins_at, blocks_at, i);
}

proof fn lemma_aligned(start: int, n: int, i: int, size: int)
    requires
        start % 16384 == 0,
        size % 16384 == 0,
        0 <= size,
        0 <= i < n,
    ensures
        (start + i * size) % 16384 == 0,
        0 <= i * size,
        start + i * size + size <= start + n * size,
{
    let per = size / 16384;
    assert(i * size == (i * per) * 16384) by (nonlinear_arith)
        requires
            size == per * 16384,
    ;
    assert(0 <= i * size) by (nonlinear_arith)
        requires
            0 <= i,
            0 <= size,
    ;
    assert(i * size + size <= n * size) by (nonlinear_arith)
        requires
            i + 1 <= n,
            0 <= size,
    ;
}

/// A handle points at the bytes of its block in the region, wherever its slot is.
pub proof fn law_handle_bytes(cache: &Cache, block: Block, i: u32)
    requires
        cache.wf(),
        i < cache.slots(),
        block.of(cache, i),
    ensures
        block.slot == i,
        block.len == cache.spec_block_size(),
        block.off + block.len <= cache.bytes().len(),
        block.off % 16384 == 0,
        cache.bytes().subrange(block.off as int, block.off + block.len)
            == cache.model().blocks[i as int],
{
    cache.lemma_shape();
    let (capacity, block_size) = cache.lemma_exists();
    layout::lemma_offsets(capacity, block_size);
    region::law_format(cache.bytes(), cache.slots(), cache.spec_block_size());
    lemma_aligned(
        layout::blocks_offset(cache.slots()),
        cache.slots(),
        i as int,
        cache.spec_block_size(),
    );
}

/// Handles on different blocks point at bytes that do not overlap.
pub proof fn law_handles_apart(cache: &Cache, a: Block, b: Block, i: u32, j: u32)
    requires
        cache.wf(),
        i < cache.slots(),
        j < cache.slots(),
        i != j,
        a.of(cache, i),
        b.of(cache, j),
    ensures
        a.off + a.len <= b.off || b.off + b.len <= a.off,
{
    let size = cache.spec_block_size();
    cache.lemma_shape();
    if i < j {
        assert(i * size + size <= j * size) by (nonlinear_arith)
            requires
                i + 1 <= j,
                0 <= size,
        ;
    } else {
        assert(j * size + size <= i * size) by (nonlinear_arith)
            requires
                j + 1 <= i,
                0 <= size,
        ;
    }
}

/// The bytes that belong to records.
pub proof fn law_record_bytes(
    capacity: u32,
    block_size: usize,
    pins_at: int,
    blocks_at: int,
    x: int,
)
    requires
        0 < capacity,
        block_size % 16384 == 0,
        next_multiple(pins_at, 16384 + 53 * capacity, 2),
        next_multiple(blocks_at, pins_at + 2 * capacity, 16384),
    ensures
        region::recorded(capacity as int, block_size as int, x) <==> {
            let k = (x - 16384) % 48;
            ||| 0 <= x < 72
            ||| 16384 <= x < 16384 + 48 * capacity && (k < 24 || 32 <= k < 44)
            ||| 16384 + 48 * capacity <= x < 16384 + 53 * capacity
            ||| pins_at <= x < pins_at + 2 * capacity
            ||| blocks_at <= x < blocks_at + capacity * block_size
        },
{
    layout::lemma_offsets(capacity, block_size);
    reveal(region::node_field);
}

/// What a block is filled with: the data, cut or continued with zeros to the size of a block.
pub proof fn law_filling(data: Seq<u8>, size: int)
    requires
        0 <= size,
    ensures
        region::padded(data, size).len() == size,
        forall|i: int|
            0 <= i < size && i < data.len() ==> #[trigger] region::padded(data, size)[i] == data[i],
        forall|i: int| data.len() <= i < size ==> #[trigger] region::padded(data, size)[i] == 0,
        slots::zeros(size) == region::padded(Seq::empty(), size),
        data.len() == size ==> region::padded(data, size) == data,
{
    assert(slots::zeros(size) =~= region::padded(Seq::empty(), size));
}

proof fn lemma_lock(cache: &Cache)
    requires
        cache.wf(),
    ensures
        cache.bytes().len() >= 72,
        cache@.hdr.lock == u32_at(cache.bytes(), 0),
{
    cache.lemma_shape();
    let (capacity, block_size) = cache.lemma_exists();
    layout::lemma_offsets(capacity, block_size);
    assert(0 <= capacity * block_size) by (nonlinear_arith);
    law_header_bytes(cache.bytes(), cache.slots(), cache.spec_block_size());
}

/// An operation leaves the lock word alone, and every byte between and behind the records, and
/// keeps the cache sound.
pub proof fn law_left_alone(new: &Cache, old: &Cache)
    requires
        new.kept(old),
        old.wf(),
    ensures
        new.wf(),
        new.slots() == old.slots(),
        new.spec_block_size() == old.spec_block_size(),
        new.bytes().len() == old.bytes().len(),
        u32_at(new.bytes(), 0) == u32_at(old.bytes(), 0),
        forall|x: int|
            0 <= x < old.bytes().len() && !region::recorded(
                old.slots(),
                old.spec_block_size(),
                x,
            ) ==> #[trigger] new.bytes()[x] == old.bytes()[x],
{
    lemma_lock(new);
    lemma_lock(old);
}

/// What a new cache is: its header, the list of its slots never used, empty buckets, and
/// nothing held.
pub proof fn law_fresh(
    capacity: u32,
    block_size: usize,
    blocks: Seq<Seq<u8>>,
    pins_at: int,
    blocks_at: int,
    i: int,
)
    requires
        layout::layout_exists(capacity, block_size),
        next_multiple(pins_at, 16384 + 53 * capacity, 2),
        next_multiple(blocks_at, pins_at + 2 * capacity, 16384),
        0 <= i < capacity,
    ensures
        ({
            let st = slots::fresh(capacity, block_size, blocks);
            &&& st.hdr.lock == 0
            &&& st.hdr.capacity == capacity
            &&& st.hdr.block_size == block_size
            &&& st.hdr.head == 0xffff_ffff
            &&& st.hdr.tail == 0xffff_ffff
            &&& st.hdr.free == 0
            &&& st.hdr.len == 0
            &&& st.hdr.nodes_off == 16384
            &&& st.hdr.buckets_off == 16384 + 48 * capacity
            &&& st.hdr.states_off == 16384 + 52 * capacity
            &&& st.hdr.pins_off == pins_at
            &&& st.hdr.blocks_off == blocks_at
            &&& st.nodes.len() == capacity
            &&& st.nodes[i].key == (BlockKey { digest: Md5Digest(0), block: 0 })
            &&& st.nodes[i].prev == 0xffff_ffff
            &&& st.nodes[i].next == if i + 1 < capacity {
                i + 1
            } else {
                0xffff_ffff
            }
            &&& st.nodes[i].chain == 0xffff_ffff
            &&& st.buckets.len() == capacity
            &&& st.buckets[i] == 0xffff_ffff
            &&& st.states.len() == capacity
            &&& st.states[i] == 0
            &&& st.pins.len() == capacity
            &&& st.pins[i] == 0
            &&& st.blocks == blocks
            &&& slots::vacant(capacity as int, blocks).keys.len() == 0
            &&& slots::vacant(capacity as int, blocks).order.len() == 0
            &&& slots::vacant(capacity as int, blocks).states[i] == 0
            &&& slots::vacant(capacity as int, blocks).pins[i] == 0
            &&& slots::vacant(capacity as int, blocks).blocks == blocks
        }),
{
    layout::lemma_offsets(capacity, block_size);
    assert(0 <= capacity * block_size) by (nonlinear_arith);
}

/// The bytes of a new cache are zero in front of the blocks, wherever no record is: behind the
/// header, inside the nodes, and around the pin counts. Behind the blocks they are what they
/// were.
pub proof fn law_cleared(
    s: Seq<u8>,
    was: Seq<u8>,
    capacity: u32,
    block_size: usize,
    pins_at: int,
    blocks_at: int,
    x: int,
)
    requires
        layout::layout_exists(capacity, block_size),
        next_multiple(pins_at, 16384 + 53 * capacity, 2),
        next_multiple(blocks_at, pins_at + 2 * capacity, 16384),
        blocks_at + capacity * block_size <= was.len(),
        slots::cleared(s, was, capacity as int, block_size as int),
        0 <= x < was.len(),
    ensures
        s.len() == was.len(),
        72 <= x < 16384 ==> s[x] == 0,
        16384 <= x < 16384 + 48 * capacity && (24 <= (x - 16384) % 48 < 32 || 44 <= (x - 16384) % 48)
            ==> s[x] == 0,
        16384 + 53 * capacity <= x < pins_at ==> s[x] == 0,
        pins_at + 2 * capacity <= x < blocks_at ==> s[x] == 0,
        blocks_at + capacity * block_size <= x ==> s[x] == was[x],
{
    layout::lemma_offsets(capacity, block_size);
    law_record_bytes(capacity, block_size, pins_at, blocks_at, x);
    assert(0 <= capacity * block_size) by (nonlinear_arith);
}

/// The entry of `s` behind entry `k`, or the number that stands for no slot.
pub open spec fn after(s: Seq<u32>, k: int) -> u32 {
    if k + 1 < s.len() {
        s[k + 1]
    } else {
        0xffff_ffff
    }
}

/// The header describes a region of `n` slots.
pub open spec fn head_whole(
    st: Store,
    n: int,
    block_size: int,
    pins_at: int,
    blocks_at: int,
) -> bool {
    &&& st.hdr.capacity == n
    &&& st.hdr.block_size == block_size
    &&& st.hdr.nodes_off == 16384
    &&& st.hdr.buckets_off == 16384 + 48 * n
    &&& st.hdr.states_off == 16384 + 52 * n
    &&& st.hdr.pins_off == pins_at
    &&& st.hdr.blocks_off == blocks_at
}

/// The slots never used are linked upwards, and the slots in use are linked both ways in the
/// order `o`.
pub open spec fn order_whole(st: Store, n: int, o: Seq<u32>) -> bool {
    let used = st.hdr.len;
    &&& used <= n
    &&& st.hdr.free == if used < n {
        used
    } else {
        0xffff_ffff
    }
    &&& forall|i: int|
        used <= i < n ==> (#[trigger] st.nodes[i]).next == if i + 1 < n {
            i + 1
        } else {
            0xffff_ffff
        }
    &&& o.no_duplicates()
    &&& forall|x: u32| #[trigger] o.contains(x) <==> x < used
    &&& st.hdr.head == after(o, -1)
    &&& st.hdr.tail == if o.len() > 0 {
        o.last()
    } else {
        0xffff_ffff
    }
    &&& forall|k: int|
        0 <= k < o.len() ==> st.nodes[(#[trigger] o[k]) as int].next == after(o, k)
            && st.nodes[o[k] as int].prev == if k > 0 {
            o[k - 1]
        } else {
            0xffff_ffff
        }
}

/// Hash bucket `b` lists the slots `s`, which are in use and have keys of that bucket.
pub open spec fn chain_whole(st: Store, n: int, b: int, s: Seq<u32>) -> bool {
    &&& s.no_duplicates()
    &&& st.buckets[b] == after(s, -1)
    &&& forall|k: int|
        0 <= k < s.len() ==> (#[trigger] s[k]) < st.hdr.len && st.nodes[s[k] as int].chain == after(
            s,
            k,
        ) && st.nodes[s[k] as int].key.spec_hash() as int % n == b
}

/// The hash buckets list `chains`, with each slot in use in the bucket of its key, and no key
/// is held twice.
pub open spec fn hash_whole(st: Store, n: int, chains: Seq<Seq<u32>>) -> bool {
    let used = st.hdr.len;
    &&& chains.len() == n
    &&& forall|b: int| 0 <= b < n ==> #[trigger] chain_whole(st, n, b, chains[b])
    &&& forall|i: u32|
        i < used ==> #[trigger] chains[st.nodes[i as int].key.spec_hash() as int % n].contains(i)
    &&& forall|i: int, j: int|
        #![trigger st.nodes[i], st.nodes[j]]
        0 <= i < j < used ==> st.nodes[i].key != st.nodes[j].key
}

proof fn lemma_order_if(st: Store, n: int, o: Seq<u32>)
    requires
        0 < n < 0xffff_ffff,
        st.nodes.len() == n,
        order_whole(st, n, o),
    ensures
        index::order(st) == o,
        index::ordered(st, None),
{
    let used = st.hdr.len as int;
    assert forall|k: int| 0 <= k < o.len() implies (#[trigger] o[k]) < used by {
        assert(o.contains(o[k]));
    }
    assert forall|k: int| 0 <= k < o.len() implies index::nexts(st)[(#[trigger] o[k]) as int]
        == links::or_nil(o, k + 1) by {
        assert(index::nexts(st)[o[k] as int] == st.nodes[o[k] as int].next);
    }
    assert(index::listed(st, o));
    index::lemma_order(st, o);
}

proof fn lemma_hash_if(st: Store, n: int, chains: Seq<Seq<u32>>)
    requires
        0 < n < 0xffff_ffff,
        st.nodes.len() == n,
        st.buckets.len() == n,
        st.hdr.len <= n,
        hash_whole(st, n, chains),
    ensures
        index::hashed(st, None),
{
    let used = st.hdr.len as int;
    assert forall|b: int| 0 <= b < n implies index::bucket_list(st, b) == chains[b]
        && #[trigger] index::bucket_ok(st, None, b) by {
        let s = chains[b];
        assert(chain_whole(st, n, b, s));
        assert forall|k: int| 0 <= k < s.len() implies index::chains(st)[(#[trigger] s[k]) as int]
            == links::or_nil(s, k + 1) by {
            assert(index::chains(st)[s[k] as int] == st.nodes[s[k] as int].chain);
        }
        assert(links::path(index::chains(st), st.buckets[b], s));
        links::lemma_walk(index::chains(st), st.buckets[b], s);
    }
    assert forall|i: int|
        #![trigger st.nodes[i]]
        index::holds(i, used, None) implies index::bucket_list(
        st,
        st.nodes[i].key.bucket(n),
    ).contains(i as u32) by {
        let b = st.nodes[i].key.spec_hash() as int % n;
        vstd::arithmetic::div_mod::lemma_mod_bound(st.nodes[i].key.spec_hash() as int, n);
        assert(chains[st.nodes[(i as u32) as int].key.spec_hash() as int % n].contains(i as u32));
        assert(index::bucket_ok(st, None, b));
    }
    assert forall|i: int, j: int|
        #![trigger st.nodes[i], st.nodes[j]]
        index::holds(i, used, None) && index::holds(j, used, None) && i != j implies st.nodes[i].key
        != st.nodes[j].key by {
        if i < j {
            assert(st.nodes[i].key != st.nodes[j].key);
        } else {
            assert(st.nodes[j].key != st.nodes[i].key);
        }
    }
}

proof fn lemma_order_only_if(st: Store, n: int)
    requires
        0 < n < 0xffff_ffff,
        st.nodes.len() == n,
        index::ordered(st, None),
    ensures
        order_whole(st, n, index::order(st)),
{
    let used = st.hdr.len as int;
    let o = index::order(st);
    assert forall|x: u32| #[trigger] o.contains(x) <==> x < used by {
        if o.contains(x) {
            assert(index::holds(o[o.index_of(x)] as int, used, None));
        }
        if x < used {
            assert(index::holds(x as int, used, None));
        }
    }
    assert forall|k: int| 0 <= k < o.len() implies st.nodes[(#[trigger] o[k]) as int].next == after(
        o,
        k,
    ) by {
        assert(index::nexts(st)[o[k] as int] == links::or_nil(o, k + 1));
    }
}

proof fn lemma_hash_only_if(st: Store, n: int)
    requires
        0 < n < 0xffff_ffff,
        st.nodes.len() == n,
        st.buckets.len() == n,
        index::hashed(st, None),
    ensures
        hash_whole(st, n, Seq::new(n as nat, |b: int| index::bucket_list(st, b))),
{
    let used = st.hdr.len as int;
    let chains = Seq::new(n as nat, |b: int| index::bucket_list(st, b));
    assert forall|b: int| 0 <= b < n implies #[trigger] chain_whole(st, n, b, chains[b]) by {
        assert(index::bucket_ok(st, None, b));
        let s = chains[b];
        assert forall|k: int| 0 <= k < s.len() implies (#[trigger] s[k]) < st.hdr.len
            && st.nodes[s[k] as int].chain == after(s, k)
            && st.nodes[s[k] as int].key.spec_hash() as int % n == b by {
            assert(index::holds(s[k] as int, used, None));
            assert(index::chains(st)[s[k] as int] == links::or_nil(s, k + 1));
        }
    }
    assert forall|i: u32| i < used implies #[trigger] chains[st.nodes[i as int].key.spec_hash()
        as int % n].contains(i) by {
        vstd::arithmetic::div_mod::lemma_mod_bound(st.nodes[i as int].key.spec_hash() as int, n);
        assert(index::holds(i as int, used, None));
        assert(index::bucket_list(st, st.nodes[i as int].key.bucket(n)).contains(i));
    }
    assert forall|i: int, j: int|
        #![trigger st.nodes[i], st.nodes[j]]
        0 <= i < j < used implies st.nodes[i].key != st.nodes[j].key by {
        assert(index::holds(i, used, None) && index::holds(j, used, None));
    }
}

/// An index whose header, order and buckets fit together is sound, whatever the lock word, the
/// states, the counts of handles and the blocks are.
pub proof fn law_sound_if(
    st: Store,
    capacity: u32,
    block_size: usize,
    pins_at: int,
    blocks_at: int,
    o: Seq<u32>,
    chains: Seq<Seq<u32>>,
)
    requires
        layout::layout_exists(capacity, block_size),
        next_multiple(pins_at, 16384 + 53 * capacity, 2),
        next_multiple(blocks_at, pins_at + 2 * capacity, 16384),
        st.nodes.len() == capacity,
        st.buckets.len() == capacity,
        head_whole(st, capacity as int, block_size as int, pins_at, blocks_at),
        order_whole(st, capacity as int, o),
        hash_whole(st, capacity as int, chains),
    ensures
        index::sound(st, capacity as int, block_size as int),
        index::model(st).order == o,
{
    layout::lemma_offsets(capacity, block_size);
    lemma_order_if(st, capacity as int, o);
    lemma_hash_if(st, capacity as int, chains);
}

/// The header, the order and the buckets of a sound index fit together.
pub proof fn law_sound_only_if(
    st: Store,
    capacity: u32,
    block_size: usize,
    pins_at: int,
    blocks_at: int,
)
    requires
        layout::layout_exists(capacity, block_size),
        next_multiple(pins_at, 16384 + 53 * capacity, 2),
        next_multiple(blocks_at, pins_at + 2 * capacity, 16384),
        st.nodes.len() == capacity,
        st.buckets.len() == capacity,
        index::sound(st, capacity as int, block_size as int),
    ensures
        head_whole(st, capacity as int, block_size as int, pins_at, blocks_at),
        order_whole(st, capacity as int, index::model(st).order),
        exists|chains: Seq<Seq<u32>>| hash_whole(st, capacity as int, chains),
{
    layout::lemma_offsets(capacity, block_size);
    lemma_order_only_if(st, capacity as int);
    lemma_hash_only_if(st, capacity as int);
}

/// A cache in a region of its shape can be worked on exactly if its index is sound.
pub proof fn law_workable(cache: &Cache)
    requires
        cache.shaped(),
    ensures
        cache.wf() <==> index::sound(cache@, cache.slots(), cache.spec_block_size()),
{
}

/// The hash of a key mixes both halves of the digest with the block number; two blocks of one
/// object differ in it as their numbers do.
pub proof fn law_hash(a: BlockKey, b: BlockKey)
    ensures
        a.spec_hash() ^ a.block == ((a.digest.0 % 0x1_0000_0000_0000_0000) as u64) ^ ((a.digest.0
            / 0x1_0000_0000_0000_0000) as u64),
        a.digest == b.digest ==> a.spec_hash() ^ b.spec_hash() == a.block ^ b.block,
        forall|n: int| 0 < n ==> #[trigger] a.bucket(n) == a.spec_hash() as int % n,
{
    let x = ((a.digest.0 % 0x1_0000_0000_0000_0000) as u64);
    let y = ((a.digest.0 / 0x1_0000_0000_0000_0000) as u64);
    let p = a.block;
    let q = b.block;
    assert((x ^ y ^ p) ^ (x ^ y ^ q) == p ^ q) by (bit_vector);
    assert((x ^ y ^ p) ^ p == x ^ y) by (bit_vector);
}

} // verus!
