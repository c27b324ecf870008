//! The records of a cache inside its byte region: typed reads and writes.
use vstd::prelude::*;

use crate::bytes;
use crate::key::{BlockKey, Md5Digest};
use crate::layout;
use crate::layout::{RegionLayout, HEADER_SIZE, NODE_SIZE, PAGE};

verus! {

/// The first record of a region.
#[derive(Copy, Clone, PartialEq, Eq, Structural, Debug)]
pub struct Header {
    /// Taken by whoever works on the region; never touched by the cache itself.
    pub lock: u32,
    pub capacity: u32,
    pub block_size: u64,
    /// Most recently used slot.
    pub head: u32,
    /// Least recently used slot.
    pub tail: u32,
    /// First slot that was never used.
    pub free: u32,
    /// Number of slots in use.
    pub len: u32,
    pub nodes_off: u64,
    pub buckets_off: u64,
    pub states_off: u64,
    pub pins_off: u64,
    pub blocks_off: u64,
}

/// The record of one slot.
#[derive(Copy, Clone, PartialEq, Eq, Structural, Debug)]
pub struct Node {
    pub key: BlockKey,
    /// Neighbour towards the most recently used slot.
    pub prev: u32,
    /// Neighbour towards the least recently used slot, or the next unused slot.
    pub next: u32,
    /// Next slot of the same hash bucket.
    pub chain: u32,
}

/// Everything that a region stores.
#[verifier::ext_equal]
pub struct Store {
    pub hdr: Header,
    pub nodes: Seq<Node>,
    pub buckets: Seq<u32>,
    pub states: Seq<u8>,
    pub pins: Seq<u16>,
    pub blocks: Seq<Seq<u8>>,
}

/// The header that the bytes `s` of a region start with.
pub open spec fn header_at(s: Seq<u8>) -> Header {
    Header {
        lock: bytes::field(s, 0, 4) as u32,
        capacity: bytes::field(s, 4, 4) as u32,
        block_size: bytes::field(s, 8, 8) as u64,
        head: bytes::field(s, 16, 4) as u32,
        tail: bytes::field(s, 20, 4) as u32,
        free: bytes::field(s, 24, 4) as u32,
        len: bytes::field(s, 28, 4) as u32,
        nodes_off: bytes::field(s, 32, 8) as u64,
        buckets_off: bytes::field(s, 40, 8) as u64,
        states_off: bytes::field(s, 48, 8) as u64,
        pins_off: bytes::field(s, 56, 8) as u64,
        blocks_off: bytes::field(s, 64, 8) as u64,
    }
}

/// The record of slot `i`.
pub open spec fn node_at(s: Seq<u8>, i: int) -> Node {
    let at = layout::nodes_offset() + NODE_SIZE * i;
    Node {
        key: BlockKey {
            digest: Md5Digest(bytes::field(s, at, 16) as u128),
            block: bytes::field(s, at + 16, 8) as u64,
        },
        prev: bytes::field(s, at + 32, 4) as u32,
        next: bytes::field(s, at + 36, 4) as u32,
        chain: bytes::field(s, at + 40, 4) as u32,
    }
}

/// The first slot of hash bucket `b`.
pub open spec fn bucket_at(s: Seq<u8>, capacity: int, b: int) -> u32 {
    bytes::field(s, layout::buckets_offset(capacity) + 4 * b, 4) as u32
}

/// The state of slot `i`.
pub open spec fn state_at(s: Seq<u8>, capacity: int, i: int) -> u8 {
    bytes::field(s, layout::states_offset(capacity) + i, 1) as u8
}

/// The pin count of slot `i`.
pub open spec fn pin_at(s: Seq<u8>, capacity: int, i: int) -> u16 {
    bytes::field(s, layout::pins_offset(capacity) + 2 * i, 2) as u16
}

/// The block of slot `i`.
pub open spec fn block_at(s: Seq<u8>, capacity: int, block_size: int, i: int) -> Seq<u8> {
    s.subrange(
        layout::blocks_offset(capacity) + i * block_size,
        layout::blocks_offset(capacity) + i * block_size + block_size,
    )
}

/// Byte `x` of the nodes belongs to a field of one.
#[verifier::opaque]
pub open spec fn node_field(x: int) -> bool {
    let k = x % (NODE_SIZE as int);
    k < 24 || 32 <= k < 44
}

/// Where the fields of node `i` are.
proof fn lemma_node_field(i: int, off: int, width: int)
    requires
        0 <= off,
        off + width <= 24 || 32 <= off && off + width <= 44,
    ensures
        forall|x: int|
            NODE_SIZE * i + off <= x < NODE_SIZE * i + off + width ==> #[trigger] node_field(x),
{
    assert forall|x: int|
        NODE_SIZE * i + off <= x < NODE_SIZE * i + off + width implies #[trigger] node_field(x) by {
        reveal(node_field);
    }
}

/// Byte `x` of a region belongs to a record. The others pad the records, or lie behind the
/// last block.
pub open spec fn recorded(capacity: int, block_size: int, x: int) -> bool {
    let in_nodes = x - layout::nodes_offset();
    ||| 0 <= x < HEADER_SIZE
    ||| 0 <= in_nodes < capacity * NODE_SIZE && node_field(in_nodes)
    ||| layout::buckets_offset(capacity) <= x < layout::buckets_offset(capacity) + capacity * 4
    ||| layout::states_offset(capacity) <= x < layout::states_offset(capacity) + capacity
    ||| layout::pins_offset(capacity) <= x < layout::pins_offset(capacity) + capacity * 2
    ||| layout::blocks_offset(capacity) <= x < layout::blocks_offset(capacity) + capacity
        * block_size
}

/// What the bytes `s` of a region of `capacity` slots with blocks of `block_size` bytes store.
pub closed spec fn decode(s: Seq<u8>, capacity: int, block_size: int) -> Store {
    Store {
        hdr: header_at(s),
        nodes: Seq::new(capacity as nat, |i: int| node_at(s, i)),
        buckets: Seq::new(capacity as nat, |b: int| bucket_at(s, capacity, b)),
        states: Seq::new(capacity as nat, |i: int| state_at(s, capacity, i)),
        pins: Seq::new(capacity as nat, |i: int| pin_at(s, capacity, i)),
        blocks: Seq::new(capacity as nat, |i: int| block_at(s, capacity, block_size, i)),
    }
}

/// What a region stores is in the bytes of its records: no other byte matters.
pub proof fn law_recorded(a: Seq<u8>, b: Seq<u8>, capacity: u32, block_size: usize)
    requires
        layout::layout_exists(capacity, block_size),
        layout::region_size(capacity as int, block_size as int) <= a.len() == b.len(),
        forall|x: int|
            0 <= x < a.len() && recorded(capacity as int, block_size as int, x)
                ==> #[trigger] a[x] == b[x],
    ensures
        decode(a, capacity as int, block_size as int) == decode(
            b,
            capacity as int,
            block_size as int,
        ),
{
    let n = capacity as int;
    let size = block_size as int;
    let p = decode(a, n, size);
    let q = decode(b, n, size);
    layout::lemma_offsets(capacity, block_size);
    lemma_block_bounds(n, size, 0);
    assert forall|x: int, w: int|
        0 <= x && 0 <= w && x + w <= a.len() && (forall|y: int|
            x <= y < x + w ==> #[trigger] recorded(n, size, y)) implies #[trigger] bytes::field(
        a,
        x,
        w,
    ) == bytes::field(b, x, w) by {
        assert forall|y: int| x <= y < x + w implies a[y] == b[y] by {
            assert(recorded(n, size, y));
        }
        assert(a.subrange(x, x + w) =~= b.subrange(x, x + w));
    }
    assert(p.hdr == q.hdr);
    assert forall|i: int| 0 <= i < n implies #[trigger] p.nodes[i] == q.nodes[i] by {
        lemma_node_field(i, 0, 24);
        lemma_node_field(i, 32, 12);
    }
    assert(p.nodes =~= q.nodes);
    assert(p.buckets =~= q.buckets);
    assert(p.states =~= q.states);
    assert(p.pins =~= q.pins);
    assert forall|i: int| 0 <= i < n implies #[trigger] p.blocks[i] == q.blocks[i] by {
        lemma_block_bounds(n, size, i);
        assert(block_at(a, n, size, i) =~= block_at(b, n, size, i));
    }
    assert(p.blocks =~= q.blocks);
}

/// Where each record stands in the bytes of a region; numbers are little-endian.
pub proof fn law_format(s: Seq<u8>, capacity: int, block_size: int)
    requires
        0 <= capacity,
    ensures
        ({
            let st = decode(s, capacity, block_size);
            &&& st.hdr == header_at(s)
            &&& st.nodes.len() == capacity
            &&& st.buckets.len() == capacity
            &&& st.states.len() == capacity
            &&& st.pins.len() == capacity
            &&& st.blocks.len() == capacity
            &&& forall|i: int| 0 <= i < capacity ==> #[trigger] st.nodes[i] == node_at(s, i)
            &&& forall|i: int|
                0 <= i < capacity ==> #[trigger] st.buckets[i] == bucket_at(s, capacity, i)
            &&& forall|i: int|
                0 <= i < capacity ==> #[trigger] st.states[i] == state_at(s, capacity, i)
            &&& forall|i: int|
                0 <= i < capacity ==> #[trigger] st.pins[i] == pin_at(s, capacity, i)
            &&& forall|i: int|
                0 <= i < capacity ==> #[trigger] st.blocks[i] == block_at(
                    s,
                    capacity,
                    block_size,
                    i,
                )
        }),
{
}

/// A block cache over a byte region.
///
/// The region holds all of it: a header, a doubly linked list of the used slots by
/// recency, a hash table from block keys to slots, the state and the pin count of
/// each slot, and the blocks. What it stores therefore outlives the value.
pub struct Cache<'a> {
    region: &'a mut [u8],
    capacity: u32,
    block_size: usize,
    layout: RegionLayout,
}

impl<'a> View for Cache<'a> {
    type V = Store;

    /// What the region stores.
    open spec fn view(&self) -> Store {
        decode(self.bytes(), self.slots(), self.spec_block_size())
    }
}

impl<'a> Cache<'a> {
    /// The bytes of the region.
    pub closed spec fn bytes(&self) -> Seq<u8> {
        self.region@
    }

    /// The number of slots.
    pub closed spec fn slots(&self) -> int {
        self.capacity as int
    }

    /// Bytes of one block.
    pub closed spec fn spec_block_size(&self) -> int {
        self.block_size as int
    }

    /// The region is large enough for its slots.
    pub closed spec fn shaped(&self) -> bool {
        &&& layout::layout_exists(self.capacity, self.block_size)
        &&& self.layout.of(self.capacity as int, self.block_size as int)
        &&& self.layout.size <= self.region@.len()
    }

    /// `self` is over a region like that of `other`, with the same bytes where no record is.
    pub open spec fn same_region(&self, other: &Self) -> bool {
        &&& self.shaped() == other.shaped()
        &&& self.slots() == other.slots()
        &&& self.spec_block_size() == other.spec_block_size()
        &&& self.bytes().len() == other.bytes().len()
        &&& forall|x: int|
            0 <= x < self.bytes().len() && !recorded(self.slots(), self.spec_block_size(), x)
                ==> #[trigger] self.bytes()[x] == other.bytes()[x]
    }

    /// A shaped cache lies in a region that can be laid out.
    pub(crate) proof fn lemma_exists(&self) -> (r: (u32, usize))
        requires
            self.shaped(),
        ensures
            r.0 == self.slots(),
            r.1 == self.spec_block_size(),
            layout::layout_exists(r.0, r.1),
    {
        (self.capacity, self.block_size)
    }

    /// How a shaped cache reads: one record per slot, blocks of equal size.
    pub(crate) proof fn lemma_shape(&self)
        requires
            self.shaped(),
        ensures
            0 < self.slots() < 0xffff_ffff,
            0 < self.spec_block_size() <= isize::MAX,
            self.spec_block_size() % (PAGE as int) == 0,
            self@.nodes.len() == self.slots(),
            self@.buckets.len() == self.slots(),
            self@.states.len() == self.slots(),
            self@.pins.len() == self.slots(),
            self@.blocks.len() == self.slots(),
            layout::region_size(self.slots(), self.spec_block_size()) <= self.bytes().len() <= usize::MAX,
            layout::blocks_offset(self.slots()) + self.slots() * self.spec_block_size() == layout::region_size(
                self.slots(),
                self.spec_block_size(),
            ),
            forall|i: int| 0 <= i < self.slots() ==> (#[trigger] self@.blocks[i]).len()
                == self.spec_block_size(),
    {
        layout::lemma_offsets(self.capacity, self.block_size);
        lemma_block_bounds(self.capacity as int, self.block_size as int, 0);
        assert(self.region@.len() == self.region.len());
        assert forall|i: int| 0 <= i < self.slots() implies (#[trigger] self@.blocks[i]).len()
            == self.spec_block_size() by {
            lemma_block_bounds(self.capacity as int, self.block_size as int, i);
        }
    }
}

proof fn lemma_block_bounds(capacity: int, block_size: int, i: int)
    requires
        0 <= i < capacity,
        0 < block_size,
    ensures
        0 <= i * block_size,
        i * block_size + block_size <= capacity * block_size,
{
    assert(0 <= i * block_size) by (nonlinear_arith)
        requires
            0 <= i,
            0 < block_size,
    ;
    assert(i * block_size + block_size <= capacity * block_size) by (nonlinear_arith)
        requires
            i + 1 <= capacity,
            0 < block_size,
    ;
}

/// A write clear of the blocks keeps them, and every part of the index that it does not meet.
proof fn lemma_put(a: Seq<u8>, b: Seq<u8>, capacity: u32, block_size: usize, off: int, width: int)
    requires
        layout::layout_exists(capacity, block_size),
        layout::region_size(capacity as int, block_size as int) <= a.len(),
        bytes::differs_only_at(a, b, off, width),
        0 <= off,
        0 <= width,
        off + width <= layout::blocks_offset(capacity as int),
    ensures
        ({
            let n = capacity as int;
            let before = decode(a, n, block_size as int);
            let after = decode(b, n, block_size as int);
            &&& after.blocks == before.blocks
            &&& PAGE <= off ==> after.hdr == before.hdr
            &&& (off + width <= PAGE || layout::buckets_offset(n) <= off) ==> after.nodes
                == before.nodes
            &&& (off + width <= layout::buckets_offset(n) || layout::states_offset(n) <= off)
                ==> after.buckets == before.buckets
            &&& (off + width <= layout::states_offset(n) || layout::pins_offset(n) <= off)
                ==> after.states == before.states
            &&& (off + width <= layout::pins_offset(n)) ==> after.pins == before.pins
        }),
{
    let n = capacity as int;
    let before = decode(a, n, block_size as int);
    let after = decode(b, n, block_size as int);
    layout::lemma_offsets(capacity, block_size);
    bytes::lemma_field_frame(a, b, off, width);
    assert(after.blocks =~= before.blocks) by {
        assert forall|i: int| 0 <= i < n implies after.blocks[i] == before.blocks[i] by {
            lemma_block_bounds(n, block_size as int, i);
            assert(block_at(b, n, block_size as int, i) =~= block_at(a, n, block_size as int, i));
        }
    }
    if off + width <= PAGE || layout::buckets_offset(n) <= off {
        assert(after.nodes =~= before.nodes);
    }
    if off + width <= layout::buckets_offset(n) || layout::states_offset(n) <= off {
        assert(after.buckets =~= before.buckets);
    }
    if off + width <= layout::states_offset(n) || layout::pins_offset(n) <= off {
        assert(after.states =~= before.states);
    }
    if off + width <= layout::pins_offset(n) {
        assert(after.pins =~= before.pins);
    }
}

impl<'a> Cache<'a> {
    fn put(&mut self, off: usize, width: usize, v: u128)
        requires
            off + width <= old(self).bytes().len(),
            v < bytes::span(width as nat),
            forall|x: int|
                off <= x < off + width ==> #[trigger] recorded(
                    old(self).slots(),
                    old(self).spec_block_size(),
                    x,
                ),
        ensures
            final(self).same_region(old(self)),
            final(self).capacity == old(self).capacity,
            final(self).block_size == old(self).block_size,
            final(self).layout == old(self).layout,
            bytes::field(final(self).bytes(), off as int, width as int) == v,
            bytes::differs_only_at(
                old(self).bytes(),
                final(self).bytes(),
                off as int,
                width as int,
            ),
    {
        bytes::store(self.region, off, width, v);
        assert forall|x: int|
            0 <= x < self.bytes().len() && !recorded(
                self.slots(),
                self.spec_block_size(),
                x,
            ) implies #[trigger] self.bytes()[x] == old(self).bytes()[x] by {
            assert(!recorded(old(self).slots(), old(self).spec_block_size(), x));
        }
    }

    pub(crate) fn head(&self) -> (r: u32)
        requires
            self.shaped(),
        ensures
            r == self@.hdr.head,
    {
        proof {
            layout::lemma_offsets(self.capacity, self.block_size);
            bytes::lemma_spans();
        }
        bytes::load(self.region, 16, 4) as u32
    }

    pub(crate) fn set_head(&mut self, v: u32)
        requires
            old(self).shaped(),
        ensures
            final(self).same_region(old(self)),
            final(self)@ == (Store { hdr: Header { head: v, ..old(self)@.hdr }, ..old(self)@ }),
    {
        proof {
            layout::lemma_offsets(self.capacity, self.block_size);
            bytes::lemma_spans();
        }
        self.put(16, 4, v as u128);
        proof {
            lemma_put(old(self).bytes(), self.bytes(), self.capacity, self.block_size, 16, 4);
            bytes::lemma_field_frame(old(self).bytes(), self.bytes(), 16, 4);
        }
    }

    pub(crate) fn tail(&self) -> (r: u32)
        requires
            self.shaped(),
        ensures
            r == self@.hdr.tail,
    {
        proof {
            layout::lemma_offsets(self.capacity, self.block_size);
            bytes::lemma_spans();
        }
        bytes::load(self.region, 20, 4) as u32
    }

    pub(crate) fn set_tail(&mut self, v: u32)
        requires
            old(self).shaped(),
        ensures
            final(self).same_region(old(self)),
            final(self)@ == (Store { hdr: Header { tail: v, ..old(self)@.hdr }, ..old(self)@ }),
    {
        proof {
            layout::lemma_offsets(self.capacity, self.block_size);
            bytes::lemma_spans();
        }
        self.put(20, 4, v as u128);
        proof {
            lemma_put(old(self).bytes(), self.bytes(), self.capacity, self.block_size, 20, 4);
            bytes::lemma_field_frame(old(self).bytes(), self.bytes(), 20, 4);
        }
    }

    pub(crate) fn free(&self) -> (r: u32)
        requires
            self.shaped(),
        ensures
            r == self@.hdr.free,
    {
        proof {
            layout::lemma_offsets(self.capacity, self.block_size);
            bytes::lemma_spans();
        }
        bytes::load(self.region, 24, 4) as u32
    }

    pub(crate) fn set_free(&mut self, v: u32)
        requires
            old(self).shaped(),
        ensures
            final(self).same_region(old(self)),
            final(self)@ == (Store { hdr: Header { free: v, ..old(self)@.hdr }, ..old(self)@ }),
    {
        proof {
            layout::lemma_offsets(self.capacity, self.block_size);
            bytes::lemma_spans();
        }
        self.put(24, 4, v as u128);
        proof {
            lemma_put(old(self).bytes(), self.bytes(), self.capacity, self.block_size, 24, 4);
            bytes::lemma_field_frame(old(self).bytes(), self.bytes(), 24, 4);
        }
    }

    pub(crate) fn len(&self) -> (r: u32)
        requires
            self.shaped(),
        ensures
            r == self@.hdr.len,
    {
        proof {
            layout::lemma_offsets(self.capacity, self.block_size);
            bytes::lemma_spans();
        }
        bytes::load(self.region, 28, 4) as u32
    }

    pub(crate) fn set_len(&mut self, v: u32)
        requires
            old(self).shaped(),
        ensures
            final(self).same_region(old(self)),
            final(self)@ == (Store { hdr: Header { len: v, ..old(self)@.hdr }, ..old(self)@ }),
    {
        proof {
            layout::lemma_offsets(self.capacity, self.block_size);
            bytes::lemma_spans();
        }
        self.put(28, 4, v as u128);
        proof {
            lemma_put(old(self).bytes(), self.bytes(), self.capacity, self.block_size, 28, 4);
            bytes::lemma_field_frame(old(self).bytes(), self.bytes(), 28, 4);
        }
    }

    fn node_off(&self, i: u32) -> (r: usize)
        requires
            self.shaped(),
            i < self.slots(),
        ensures
            r == layout::nodes_offset() + NODE_SIZE * i,
            r + NODE_SIZE <= layout::buckets_offset(self.slots()) <= self.bytes().len(),
    {
        proof {
            layout::lemma_offsets(self.capacity, self.block_size);
            lemma_block_bounds(self.capacity as int, self.block_size as int, 0);
        }
        self.layout.nodes_off + NODE_SIZE * i as usize
    }

    /// The record of slot `i`.
    pub(crate) fn node(&self, i: u32) -> (r: Node)
        requires
            self.shaped(),
            i < self.slots(),
        ensures
            r == self@.nodes[i as int],
    {
        let at: usize = self.node_off(i);
        proof {
            bytes::lemma_spans();
        }
        Node {
            key: BlockKey {
                digest: Md5Digest(bytes::load(self.region, at, 16)),
                block: bytes::load(self.region, at + 16, 8) as u64,
            },
            prev: bytes::load(self.region, at + 32, 4) as u32,
            next: bytes::load(self.region, at + 36, 4) as u32,
            chain: bytes::load(self.region, at + 40, 4) as u32,
        }
    }

    pub(crate) fn set_prev(&mut self, i: u32, v: u32)
        requires
            old(self).shaped(),
            i < old(self).slots(),
        ensures
            final(self).same_region(old(self)),
            final(self)@ == (Store {
                nodes: old(self)@.nodes.update(
                    i as int,
                    Node { prev: v, ..old(self)@.nodes[i as int] },
                ),
                ..old(self)@
            }),
    {
        let at: usize = self.node_off(i);
        proof {
            layout::lemma_offsets(self.capacity, self.block_size);
            bytes::lemma_spans();
            lemma_node_field(i as int, 32, 4);
        }
        self.put(at + 32, 4, v as u128);
        proof {
            lemma_put(old(self).bytes(), self.bytes(), self.capacity, self.block_size, at + 32, 4);
            bytes::lemma_field_frame(old(self).bytes(), self.bytes(), at + 32, 4);
            assert(self@.nodes =~= old(self)@.nodes.update(
                i as int,
                Node { prev: v, ..old(self)@.nodes[i as int] },
            ));
        }
    }

    pub(crate) fn set_next(&mut self, i: u32, v: u32)
        requires
            old(self).shaped(),
            i < old(self).slots(),
        ensures
            final(self).same_region(old(self)),
            final(self)@ == (Store {
                nodes: old(self)@.nodes.update(
                    i as int,
                    Node { next: v, ..old(self)@.nodes[i as int] },
                ),
                ..old(self)@
            }),
    {
        let at: usize = self.node_off(i);
        proof {
            layout::lemma_offsets(self.capacity, self.block_size);
            bytes::lemma_spans();
            lemma_node_field(i as int, 36, 4);
        }
        self.put(at + 36, 4, v as u128);
        proof {
            lemma_put(old(self).bytes(), self.bytes(), self.capacity, self.block_size, at + 36, 4);
            bytes::lemma_field_frame(old(self).bytes(), self.bytes(), at + 36, 4);
            assert(self@.nodes =~= old(self)@.nodes.update(
                i as int,
                Node { next: v, ..old(self)@.nodes[i as int] },
            ));
        }
    }

    pub(crate) fn set_chain(&mut self, i: u32, v: u32)
        requires
            old(self).shaped(),
            i < old(self).slots(),
        ensures
            final(self).same_region(old(self)),
            final(self)@ == (Store {
                nodes: old(self)@.nodes.update(
                    i as int,
                    Node { chain: v, ..old(self)@.nodes[i as int] },
                ),
                ..old(self)@
            }),
    {
        let at: usize = self.node_off(i);
        proof {
            layout::lemma_offsets(self.capacity, self.block_size);
            bytes::lemma_spans();
            lemma_node_field(i as int, 40, 4);
        }
        self.put(at + 40, 4, v as u128);
        proof {
            lemma_put(old(self).bytes(), self.bytes(), self.capacity, self.block_size, at + 40, 4);
            bytes::lemma_field_frame(old(self).bytes(), self.bytes(), at + 40, 4);
            assert(self@.nodes =~= old(self)@.nodes.update(
                i as int,
                Node { chain: v, ..old(self)@.nodes[i as int] },
            ));
        }
    }

    pub(crate) fn set_key(&mut self, i: u32, key: BlockKey)
        requires
            old(self).shaped(),
            i < old(self).slots(),
        ensures
            final(self).same_region(old(self)),
            final(self)@ == (Store {
                nodes: old(self)@.nodes.update(i as int, Node { key, ..old(self)@.nodes[i as int] }),
                ..old(self)@
            }),
    {
        let at: usize = self.node_off(i);
        proof {
            layout::lemma_offsets(self.capacity, self.block_size);
            bytes::lemma_spans();
            lemma_node_field(i as int, 0, 24);
        }
        self.put(at, 16, key.digest.0);
        let ghost mid = *self;
        proof {
            lemma_put(old(self).bytes(), self.bytes(), self.capacity, self.block_size, at as int, 16);
            bytes::lemma_field_frame(old(self).bytes(), self.bytes(), at as int, 16);
        }
        self.put(at + 16, 8, key.block as u128);
        proof {
            lemma_put(mid.bytes(), self.bytes(), self.capacity, self.block_size, at + 16, 8);
            bytes::lemma_field_frame(mid.bytes(), self.bytes(), at + 16, 8);
            assert(self@.nodes =~= old(self)@.nodes.update(
                i as int,
                Node { key, ..old(self)@.nodes[i as int] },
            ));
        }
    }

    /// The first slot of hash bucket `i`.
    pub(crate) fn bucket(&self, i: u32) -> (r: u32)
        requires
            self.shaped(),
            i < self.slots(),
        ensures
            r == self@.buckets[i as int],
    {
        proof {
            layout::lemma_offsets(self.capacity, self.block_size);
            lemma_block_bounds(self.capacity as int, self.block_size as int, 0);
            bytes::lemma_spans();
        }
        bytes::load(self.region, self.layout.buckets_off + 4 * i as usize, 4) as u32
    }

    pub(crate) fn set_bucket(&mut self, i: u32, v: u32)
        requires
            old(self).shaped(),
            i < old(self).slots(),
        ensures
            final(self).same_region(old(self)),
            final(self)@ == (Store {
                buckets: old(self)@.buckets.update(i as int, v),
                ..old(self)@
            }),
    {
        proof {
            layout::lemma_offsets(self.capacity, self.block_size);
            lemma_block_bounds(self.capacity as int, self.block_size as int, 0);
            bytes::lemma_spans();
        }
        let at: usize = self.layout.buckets_off + 4 * i as usize;
        self.put(at, 4, v as u128);
        proof {
            lemma_put(
                old(self).bytes(),
                self.bytes(),
                self.capacity,
                self.block_size,
                at as int,
                4,
            );
            bytes::lemma_field_frame(old(self).bytes(), self.bytes(), at as int, 4);
            assert(self@.buckets =~= old(self)@.buckets.update(i as int, v));
        }
    }

    /// The state of slot `i`.
    pub(crate) fn state(&self, i: u32) -> (r: u8)
        requires
            self.shaped(),
            i < self.slots(),
        ensures
            r == self@.states[i as int],
    {
        proof {
            layout::lemma_offsets(self.capacity, self.block_size);
            lemma_block_bounds(self.capacity as int, self.block_size as int, 0);
            bytes::lemma_spans();
        }
        bytes::load(self.region, self.layout.states_off + i as usize, 1) as u8
    }

    pub(crate) fn set_state(&mut self, i: u32, v: u8)
        requires
            old(self).shaped(),
            i < old(self).slots(),
        ensures
            final(self).same_region(old(self)),
            final(self)@ == (Store {
                states: old(self)@.states.update(i as int, v),
                ..old(self)@
            }),
    {
        proof {
            layout::lemma_offsets(self.capacity, self.block_size);
            lemma_block_bounds(self.capacity as int, self.block_size as int, 0);
            bytes::lemma_spans();
        }
        let at: usize = self.layout.states_off + i as usize;
        self.put(at, 1, v as u128);
        proof {
            lemma_put(
                old(self).bytes(),
                self.bytes(),
                self.capacity,
                self.block_size,
                at as int,
                1,
            );
            bytes::lemma_field_frame(old(self).bytes(), self.bytes(), at as int, 1);
            assert(self@.states =~= old(self)@.states.update(i as int, v));
        }
    }

    /// How many handles of slot `i` are out.
    pub(crate) fn pin(&self, i: u32) -> (r: u16)
        requires
            self.shaped(),
            i < self.slots(),
        ensures
            r == self@.pins[i as int],
    {
        proof {
            layout::lemma_offsets(self.capacity, self.block_size);
            lemma_block_bounds(self.capacity as int, self.block_size as int, 0);
            bytes::lemma_spans();
        }
        bytes::load(self.region, self.layout.pins_off + 2 * i as usize, 2) as u16
    }

    pub(crate) fn set_pin(&mut self, i: u32, v: u16)
        requires
            old(self).shaped(),
            i < old(self).slots(),
        ensures
            final(self).same_region(old(self)),
            final(self)@ == (Store {
                pins: old(self)@.pins.update(i as int, v),
                ..old(self)@
            }),
    {
        proof {
            layout::lemma_offsets(self.capacity, self.block_size);
            lemma_block_bounds(self.capacity as int, self.block_size as int, 0);
            bytes::lemma_spans();
        }
        let at: usize = self.layout.pins_off + 2 * i as usize;
        self.put(at, 2, v as u128);
        proof {
            lemma_put(
                old(self).bytes(),
                self.bytes(),
                self.capacity,
                self.block_size,
                at as int,
                2,
            );
            bytes::lemma_field_frame(old(self).bytes(), self.bytes(), at as int, 2);
            assert(self@.pins =~= old(self)@.pins.update(i as int, v));
        }
    }

    /// The header record.
    pub(crate) fn header(&self) -> (r: Header)
        requires
            self.shaped(),
        ensures
            r == self@.hdr,
    {
        proof {
            layout::lemma_offsets(self.capacity, self.block_size);
            bytes::lemma_spans();
        }
        Header {
            lock: bytes::load(self.region, 0, 4) as u32,
            capacity: bytes::load(self.region, 4, 4) as u32,
            block_size: bytes::load(self.region, 8, 8) as u64,
            head: bytes::load(self.region, 16, 4) as u32,
            tail: bytes::load(self.region, 20, 4) as u32,
            free: bytes::load(self.region, 24, 4) as u32,
            len: bytes::load(self.region, 28, 4) as u32,
            nodes_off: bytes::load(self.region, 32, 8) as u64,
            buckets_off: bytes::load(self.region, 40, 8) as u64,
            states_off: bytes::load(self.region, 48, 8) as u64,
            pins_off: bytes::load(self.region, 56, 8) as u64,
            blocks_off: bytes::load(self.region, 64, 8) as u64,
        }
    }

    /// Writes one field of the header.
    fn put_header(&mut self, off: usize, width: usize, v: u128)
        requires
            old(self).shaped(),
            off + width <= HEADER_SIZE,
            v < bytes::span(width as nat),
        ensures
            final(self).same_region(old(self)),
            final(self)@ == (Store { hdr: header_at(final(self).bytes()), ..old(self)@ }),
            bytes::field(final(self).bytes(), off as int, width as int) == v,
            forall|x: int, w: int|
                0 <= x && 0 <= w && x + w <= PAGE && (x + w <= off || off + width <= x)
                    ==> #[trigger] bytes::field(final(self).bytes(), x, w) == bytes::field(
                    old(self).bytes(),
                    x,
                    w,
                ),
    {
        proof {
            layout::lemma_offsets(self.capacity, self.block_size);
            lemma_block_bounds(self.capacity as int, self.block_size as int, 0);
        }
        self.put(off, width, v);
        proof {
            lemma_put(
                old(self).bytes(),
                self.bytes(),
                self.capacity,
                self.block_size,
                off as int,
                width as int,
            );
            bytes::lemma_field_frame(old(self).bytes(), self.bytes(), off as int, width as int);
        }
    }

    pub(crate) fn set_header(&mut self, h: Header)
        requires
            old(self).shaped(),
        ensures
            final(self).same_region(old(self)),
            final(self)@ == (Store { hdr: h, ..old(self)@ }),
    {
        proof {
            bytes::lemma_spans();
        }
        self.put_header(0, 4, h.lock as u128);
        self.put_header(4, 4, h.capacity as u128);
        self.put_header(8, 8, h.block_size as u128);
        self.put_header(16, 4, h.head as u128);
        self.put_header(20, 4, h.tail as u128);
        self.put_header(24, 4, h.free as u128);
        self.put_header(28, 4, h.len as u128);
        self.put_header(32, 8, h.nodes_off as u128);
        self.put_header(40, 8, h.buckets_off as u128);
        self.put_header(48, 8, h.states_off as u128);
        self.put_header(56, 8, h.pins_off as u128);
        self.put_header(64, 8, h.blocks_off as u128);
        assert(header_at(self.bytes()) == h);
    }

    /// The number of slots.
    pub fn capacity(&self) -> (r: u32)
        ensures
            r == self.slots(),
    {
        self.capacity
    }

    /// Bytes of one block.
    pub fn block_size(&self) -> (r: usize)
        ensures
            r == self.spec_block_size(),
    {
        self.block_size
    }

    /// Bytes of the whole region.
    pub fn on_disk_size(&self) -> (r: usize)
        requires
            self.shaped(),
        ensures
            r == layout::region_size(self.slots(), self.spec_block_size()),
    {
        self.layout.size
    }

    /// Where the block of slot `i` starts in the region.
    pub fn block_off(&self, i: u32) -> (r: usize)
        requires
            self.shaped(),
            i < self.slots(),
        ensures
            r == layout::blocks_offset(self.slots()) + i * self.spec_block_size(),
            r + self.spec_block_size() <= self.bytes().len(),
            self@.blocks[i as int] == self.bytes().subrange(
                r as int,
                r + self.spec_block_size(),
            ),
    {
        proof {
            layout::lemma_offsets(self.capacity, self.block_size);
            lemma_block_bounds(self.capacity as int, self.block_size as int, i as int);
            assert(self.region@.len() == self.region.len());
        }
        self.layout.blocks_off + i as usize * self.block_size
    }

    /// The block of slot `i`.
    pub fn block(&self, i: u32) -> (r: &[u8])
        requires
            self.shaped(),
            i < self.slots(),
        ensures
            r@ == self@.blocks[i as int],
    {
        let off: usize = self.block_off(i);
        proof {
            assert(self.region@.len() == self.region.len());
        }
        vstd::slice::slice_subrange(self.region, off, off + self.block_size)
    }

    /// Puts `data` into the block of slot `i`, cut or padded with zeros to the block's size.
    pub(crate) fn set_block(&mut self, i: u32, data: &[u8])
        requires
            old(self).shaped(),
            i < old(self).slots(),
        ensures
            final(self).same_region(old(self)),
            final(self)@ == (Store {
                blocks: old(self)@.blocks.update(
                    i as int,
                    padded(data@, old(self).spec_block_size()),
                ),
                ..old(self)@
            }),
    {
        let off: usize = self.block_off(i);
        let n: usize = self.block_size;
        proof {
            assert(self.region@.len() == self.region.len());
        }
        let mut k: usize = 0;
        while k < n
            invariant
                k <= n,
                n == self.block_size,
                off + n <= self.region@.len() <= usize::MAX,
                self.capacity == old(self).capacity,
                self.block_size == old(self).block_size,
                self.layout == old(self).layout,
                bytes::differs_only_at(old(self).bytes(), self.bytes(), off as int, n as int),
                forall|j: int| 0 <= j < k ==> #[trigger] self.region@[off + j] == padded(
                    data@,
                    n as int,
                )[j],
            decreases n - k,
        {
            let byte: u8 = if k < data.len() {
                data[k]
            } else {
                0
            };
            self.region[off + k] = byte;
            k += 1;
        }
        proof {
            let filled = self.bytes().subrange(off as int, off + n);
            assert forall|j: int| 0 <= j < n implies #[trigger] filled[j] == padded(
                data@,
                n as int,
            )[j] by {
                assert(filled[j] == self.region@[off + j]);
            }
            assert(filled =~= padded(data@, n as int));
            lemma_block_bounds(self.capacity as int, self.block_size as int, i as int);
            lemma_fill(
                old(self).bytes(),
                self.bytes(),
                self.capacity,
                self.block_size,
                i as int,
                padded(data@, n as int),
            );
        }
    }

    /// Clears everything in front of the blocks.
    pub(crate) fn zero_index(&mut self)
        requires
            old(self).shaped(),
        ensures
            final(self).shaped(),
            final(self).slots() == old(self).slots(),
            final(self).spec_block_size() == old(self).spec_block_size(),
            final(self).bytes() == Seq::new(
                old(self).bytes().len(),
                |x: int|
                    if x < layout::blocks_offset(old(self).slots()) {
                        0u8
                    } else {
                        old(self).bytes()[x]
                    },
            ),
            final(self)@.states == Seq::new(old(self).slots() as nat, |i: int| 0u8),
            final(self)@.pins == Seq::new(old(self).slots() as nat, |i: int| 0u16),
            final(self)@.blocks == old(self)@.blocks,
    {
        proof {
            layout::lemma_offsets(self.capacity, self.block_size);
            lemma_block_bounds(self.capacity as int, self.block_size as int, 0);
            assert(self.region@.len() == self.region.len());
        }
        let n: usize = self.layout.blocks_off;
        let mut k: usize = 0;
        while k < n
            invariant
                k <= n <= self.region@.len(),
                self.capacity == old(self).capacity,
                self.block_size == old(self).block_size,
                self.layout == old(self).layout,
                bytes::differs_only_at(old(self).bytes(), self.bytes(), 0, n as int),
                forall|j: int| 0 <= j < k ==> #[trigger] self.region@[j] == 0,
            decreases n - k,
        {
            self.region[k] = 0;
            k += 1;
        }
        proof {
            lemma_put(
                old(self).bytes(),
                self.bytes(),
                self.capacity,
                self.block_size,
                0,
                n as int,
            );
            assert forall|x: int, w: int| 0 <= x && 0 <= w && x + w <= n implies
                #[trigger] bytes::field(self.bytes(), x, w) == 0 by {
                bytes::lemma_zeros(self.bytes().subrange(x, x + w));
            }
            assert(self@.states =~= Seq::new(self.slots() as nat, |i: int| 0u8));
            assert(self@.pins =~= Seq::new(self.slots() as nat, |i: int| 0u16));
        }
    }

    /// A cache over `region`, taken as it is.
    pub(crate) fn attach(region: &'a mut [u8], capacity: u32, block_size: usize) -> (r: Cache<'a>)
        requires
            layout::layout_exists(capacity, block_size),
            layout::region_size(capacity as int, block_size as int) <= old(region)@.len(),
        ensures
            r.shaped(),
            r.bytes() == old(region)@,
            r.slots() == capacity,
            r.spec_block_size() == block_size,
    {
        let layout: RegionLayout = RegionLayout::new(capacity, block_size);
        Cache { region, capacity, block_size, layout }
    }

    /// The offsets of the parts of the region.
    pub fn layout(&self) -> (r: RegionLayout)
        requires
            self.shaped(),
        ensures
            r.of(self.slots(), self.spec_block_size()),
    {
        self.layout
    }
}

/// The first `n` bytes of `data` followed by endless zeros.
pub open spec fn padded(data: Seq<u8>, n: int) -> Seq<u8> {
    Seq::new(
        n as nat,
        |i: int|
            if i < data.len() {
                data[i]
            } else {
                0u8
            },
    )
}

/// Filling one block keeps the index and the other blocks.
proof fn lemma_fill(
    a: Seq<u8>,
    b: Seq<u8>,
    capacity: u32,
    block_size: usize,
    i: int,
    data: Seq<u8>,
)
    requires
        layout::layout_exists(capacity, block_size),
        layout::region_size(capacity as int, block_size as int) <= a.len(),
        0 <= i < capacity,
        data.len() == block_size,
        bytes::differs_only_at(
            a,
            b,
            layout::blocks_offset(capacity as int) + i * block_size,
            block_size as int,
        ),
        block_at(b, capacity as int, block_size as int, i) == data,
    ensures
        decode(b, capacity as int, block_size as int) == (Store {
            blocks: decode(a, capacity as int, block_size as int).blocks.update(i, data),
            ..decode(a, capacity as int, block_size as int)
        }),
{
    let n = capacity as int;
    let size = block_size as int;
    let at = layout::blocks_offset(n) + i * size;
    let before = decode(a, n, size);
    let after = decode(b, n, size);
    layout::lemma_offsets(capacity, block_size);
    lemma_block_bounds(n, size, i);
    bytes::lemma_field_frame(a, b, at, size);
    assert(after.nodes =~= before.nodes);
    assert(after.buckets =~= before.buckets);
    assert(after.states =~= before.states);
    assert(after.pins =~= before.pins);
    assert forall|k: int| 0 <= k < n implies #[trigger] after.blocks[k] == before.blocks.update(
        i,
        data,
    )[k] by {
        lemma_block_bounds(n, size, k);
        if k != i {
            if k < i {
                lemma_block_bounds(i, size, k);
            } else {
                lemma_block_bounds(k, size, i);
            }
            assert(block_at(b, n, size, k) =~= block_at(a, n, size, k));
        }
    }
    assert(after.blocks =~= before.blocks.update(i, data));
}

} // verus!
