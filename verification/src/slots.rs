//! The block cache: the operations on blocks and the handles that they give out.
use vstd::prelude::*;

use crate::index;
use crate::key::{BlockKey, Md5Digest};
use crate::layout;
use crate::layout::{RegionLayout, NIL};
use crate::links;
use crate::model::Model;
use crate::region;
use crate::region::{Cache, Header, Node, Store};

verus! {

/// State of a slot that never held a block.
pub const EMPTY: u8 = 0;

/// State of a slot whose block is being fetched.
pub const LOADING: u8 = 1;

/// State of a slot whose block can be read.
pub const READY: u8 = 2;

/// A handle on a block: while it is out, the block keeps its slot.
#[derive(Debug)]
pub struct Block {
    pub slot: u32,
    /// Where the block starts in the region.
    pub off: usize,
    pub len: usize,
}

/// Why a block cannot be had yet.
#[derive(Copy, Clone, PartialEq, Eq, Structural, Debug)]
pub enum Wait {
    /// Somebody else is fetching it, into this slot.
    Loading(u32),
    /// Every slot is being read or fetched into.
    Full,
}

/// What a request for a block meets.
#[derive(Debug)]
pub enum Acquired {
    /// The block can be read.
    Hit(Block),
    /// The caller is to fetch the block and to publish it.
    Fetch(Block),
    /// The request is to be made again later.
    Wait(Wait),
}

impl Block {
    /// A handle on slot `slot` of `cache`.
    pub open spec fn of(self, cache: &Cache, slot: u32) -> bool {
        &&& self.slot == slot
        &&& self.off == layout::blocks_offset(cache.slots()) + slot * cache.spec_block_size()
        &&& self.len == cache.spec_block_size()
    }

    fn new(cache: &Cache, slot: u32) -> (r: Block)
        requires
            cache.shaped(),
            slot < cache.slots(),
        ensures
            r.of(cache, slot),
    {
        Block { slot, off: cache.block_off(slot), len: cache.block_size() }
    }

    /// The bytes of the block.
    pub fn deref<'b>(&self, cache: &'b Cache) -> (r: &'b [u8])
        requires
            cache.wf(),
            self.slot < cache.slots(),
        ensures
            r@ == cache.model().blocks[self.slot as int],
    {
        cache.block(self.slot)
    }
}

/// `n` zero bytes.
pub open spec fn zeros(n: int) -> Seq<u8> {
    Seq::new(n as nat, |i: int| 0u8)
}

impl<'a> Cache<'a> {
    /// The cache lies in the region of `old`, is sound, and has left the lock word alone.
    pub open spec fn kept(&self, old: &Self) -> bool {
        &&& self.same_region(old)
        &&& self.wf()
        &&& self@.hdr.lock == old@.hdr.lock
    }

    /// Makes slot `i` the most recently used one and hands out one more handle of it.
    fn touch(&mut self, i: u32)
        requires
            old(self).wf(),
            i < old(self)@.hdr.len,
        ensures
            final(self).kept(old(self)),
            final(self).model() == old(self).model().used(i).pinned(i),
    {
        proof {
            self.lemma_shape();
            assert(index::holds(i as int, self@.hdr.len as int, None));
            assert(index::order(self@).contains(i));
        }
        self.promote(i);
        let ghost mid = self@;
        proof {
            index::lemma_promoted_ordered(mid, old(self)@, i);
            index::lemma_hashed_frame(mid, old(self)@, None);
        }
        self.add_pin(i);
        proof {
            index::lemma_ordered_frame(self@, mid, None);
            index::lemma_hashed_frame(self@, mid, None);
            assert(self.model().keys =~= old(self).model().keys);
        }
    }

    /// Counts one more handle of slot `i`.
    fn add_pin(&mut self, i: u32)
        requires
            old(self).shaped(),
            i < old(self).slots(),
        ensures
            final(self).same_region(old(self)),
            final(self)@ == (Store { pins: old(self).model().pinned(i).pins, ..old(self)@ }),
    {
        let pin: u16 = self.pin(i);
        self.set_pin(i, pin.wrapping_add(1));
    }

    /// One attempt to get at the block `key`.
    pub fn acquire(&mut self, key: BlockKey) -> (r: Acquired)
        requires
            old(self).wf(),
        ensures
            final(self).kept(old(self)),
            old(self).model().step(final(self).model()),
            match old(self).model().slot_of(key) {
                Some(i) => if old(self).model().ready(i) {
                    &&& r matches Acquired::Hit(b) && b.of(old(self), i)
                    &&& i < old(self).slots()
                    &&& final(self).model() == old(self).model().used(i).pinned(i)
                } else {
                    &&& r == Acquired::Wait(Wait::Loading(i))
                    &&& final(self)@ == old(self)@
                },
                None => match old(self).model().target() {
                    Some(i) => {
                        &&& r matches Acquired::Fetch(b) && b.of(old(self), i)
                        &&& i < old(self).slots()
                        &&& final(self).model() == old(self).model().admitted(i, key).pinned(i)
                    },
                    None => {
                        &&& r == Acquired::Wait(Wait::Full)
                        &&& final(self)@ == old(self)@
                    },
                },
            },
    {
        proof {
            self.lemma_shape();
        }
        let i: u32 = self.find(key);
        if i != NIL {
            if self.state(i) == READY {
                self.touch(i);
                assert(old(self).model().hits(self.model(), i));
                return Acquired::Hit(Block::new(self, i));
            }
            return Acquired::Wait(Wait::Loading(i));
        }
        match self.insert(key) {
            Some(i) => {
                let ghost mid = self@;
                self.add_pin(i);
                proof {
                    index::lemma_ordered_frame(self@, mid, None);
                    index::lemma_hashed_frame(self@, mid, None);
                    assert(self.model() =~= old(self).model().admitted(i, key).pinned(i));
                    assert(old(self).model().admits(self.model(), i, key));
                }
                Acquired::Fetch(Block::new(self, i))
            },
            None => Acquired::Wait(Wait::Full),
        }
    }

    /// A handle on the block `key`, if it is cached and can be read.
    pub fn get(&mut self, key: BlockKey) -> (r: Option<Block>)
        requires
            old(self).wf(),
        ensures
            final(self).kept(old(self)),
            old(self).model().step(final(self).model()),
            match old(self).model().slot_of(key) {
                Some(i) => if old(self).model().ready(i) {
                    &&& r matches Some(b) && b.of(old(self), i)
                    &&& i < old(self).slots()
                    &&& final(self).model() == old(self).model().used(i).pinned(i)
                } else {
                    r is None && final(self)@ == old(self)@
                },
                None => r is None && final(self)@ == old(self)@,
            },
    {
        proof {
            self.lemma_shape();
        }
        let i: u32 = self.find(key);
        if i == NIL || self.state(i) != READY {
            return None;
        }
        self.touch(i);
        assert(old(self).model().hits(self.model(), i));
        Some(Block::new(self, i))
    }

    /// Puts `data`, padded with zeros, into a block that was to be fetched.
    pub fn publish(&mut self, block: &Block, data: &[u8])
        requires
            old(self).wf(),
            block.slot < old(self).slots(),
        ensures
            final(self).kept(old(self)),
            final(self).model() == old(self).model().published(
                block.slot,
                region::padded(data@, old(self).spec_block_size()),
            ),
            block.slot < old(self).model().keys.len() && old(
                self,
            ).model().states[block.slot as int] == LOADING ==> old(self).model().step(
                final(self).model(),
            ),
    {
        proof {
            self.lemma_shape();
        }
        self.set_block(block.slot, data);
        self.set_state(block.slot, READY);
        proof {
            index::lemma_ordered_frame(self@, old(self)@, None);
            index::lemma_hashed_frame(self@, old(self)@, None);
            let data = region::padded(data@, self.spec_block_size());
            assert(self.model() =~= old(self).model().published(block.slot, data));
            if block.slot < old(self).model().keys.len() && old(
                self,
            ).model().states[block.slot as int] == LOADING {
                assert(old(self).model().publishes(self.model(), block.slot, data));
            }
        }
    }

    /// Gives a handle back.
    pub fn release(&mut self, block: Block)
        requires
            old(self).wf(),
            block.slot < old(self).slots(),
        ensures
            final(self).kept(old(self)),
            final(self).model() == old(self).model().released(block.slot),
            block.slot < old(self).model().keys.len() && old(
                self,
            ).model().pins[block.slot as int] > 0 ==> old(self).model().step(final(self).model()),
    {
        proof {
            self.lemma_shape();
        }
        let pin: u16 = self.pin(block.slot);
        self.set_pin(block.slot, pin.wrapping_sub(1));
        proof {
            index::lemma_ordered_frame(self@, old(self)@, None);
            index::lemma_hashed_frame(self@, old(self)@, None);
            assert(self.model() =~= old(self).model().released(block.slot));
            if block.slot < old(self).model().keys.len() && old(
                self,
            ).model().pins[block.slot as int] > 0 {
                assert(old(self).model().releases(self.model(), block.slot));
            }
        }
    }

    /// A handle on the block `key`, which `fetch` writes over zeros if it is not cached.
    ///
    /// `fetch` is called only if the block is not held. A block that is being fetched, or that
    /// there is no room for, is to be waited for before the call: during it nobody else can
    /// work on the cache, so that waiting in it would not end.
    pub fn get_or_fetch<F: FnOnce(&mut [u8])>(&mut self, key: BlockKey, fetch: F) -> (r: Block)
        requires
            old(self).wf(),
            old(self).model().available(key),
            old(self).model().slot_of(key) is None ==> forall|buf: &mut [u8]|
                (*buf)@ == zeros(old(self).spec_block_size()) ==> #[trigger] call_requires(
                    fetch,
                    (buf,),
                ),
        ensures
            final(self).kept(old(self)),
            match old(self).model().slot_of(key) {
                Some(i) => {
                    &&& r.of(old(self), i)
                    &&& i < old(self).slots()
                    &&& final(self).model() == old(self).model().used(i).pinned(i)
                },
                None => {
                    let i = old(self).model().target()->0;
                    &&& r.of(old(self), i)
                    &&& i < old(self).slots()
                    &&& exists|buf: &mut [u8]|
                        {
                            &&& (*buf)@ == zeros(old(self).spec_block_size())
                            &&& #[trigger] call_ensures(fetch, (buf,), ())
                            &&& final(self).model() == old(self).model().admitted(
                                i,
                                key,
                            ).pinned(i).published(
                                i,
                                region::padded((*final(buf))@, old(self).spec_block_size()),
                            )
                        }
                },
            },
    {
        self.try_get_or_fetch(key, fetch).unwrap()
    }

    /// A handle on the block `key`, which `fetch` writes over zeros if it is not cached; or why
    /// it cannot be had yet.
    ///
    /// `fetch` is called only if the block is not held and a slot can be had for it.
    pub fn try_get_or_fetch<F: FnOnce(&mut [u8])>(&mut self, key: BlockKey, fetch: F) -> (r: Result<
        Block,
        Wait,
    >)
        requires
            old(self).wf(),
            old(self).model().slot_of(key) is None && old(self).model().target() is Some
                ==> forall|buf: &mut [u8]|
                (*buf)@ == zeros(old(self).spec_block_size()) ==> #[trigger] call_requires(
                    fetch,
                    (buf,),
                ),
        ensures
            final(self).kept(old(self)),
            match old(self).model().slot_of(key) {
                Some(i) => if old(self).model().ready(i) {
                    &&& r matches Ok(b) && b.of(old(self), i)
                    &&& i < old(self).slots()
                    &&& final(self).model() == old(self).model().used(i).pinned(i)
                } else {
                    &&& r == Err::<Block, Wait>(Wait::Loading(i))
                    &&& final(self)@ == old(self)@
                },
                None => match old(self).model().target() {
                    Some(i) => {
                        &&& r matches Ok(b) && b.of(old(self), i)
                        &&& i < old(self).slots()
                        &&& exists|buf: &mut [u8]|
                            {
                                &&& (*buf)@ == zeros(old(self).spec_block_size())
                                &&& #[trigger] call_ensures(fetch, (buf,), ())
                                &&& final(self).model() == old(self).model().admitted(
                                    i,
                                    key,
                                ).pinned(i).published(
                                    i,
                                    region::padded(
                                        (*final(buf))@,
                                        old(self).spec_block_size(),
                                    ),
                                )
                            }
                    },
                    None => {
                        &&& r == Err::<Block, Wait>(Wait::Full)
                        &&& final(self)@ == old(self)@
                    },
                },
            },
    {
        match self.acquire(key) {
            Acquired::Hit(block) => Ok(block),
            Acquired::Fetch(block) => {
                let mut buf: Vec<u8> = vec![0u8; self.block_size()];
                assert(buf@ =~= zeros(self.spec_block_size()));
                fetch(buf.as_mut_slice());
                self.publish(&block, buf.as_slice());
                Ok(block)
            },
            Acquired::Wait(wait) => Err(wait),
        }
    }
}

/// The contents of a cache that never held a block; its blocks are whatever was there.
pub open spec fn vacant(slots: int, blocks: Seq<Seq<u8>>) -> Model {
    Model {
        order: Seq::empty(),
        keys: Seq::empty(),
        states: Seq::new(slots as nat, |i: int| EMPTY),
        pins: Seq::new(slots as nat, |i: int| 0u16),
        blocks,
    }
}

/// The record of slot `i` of `n` before its first use.
pub open spec fn blank_node(i: int, n: int) -> Node {
    Node {
        key: BlockKey { digest: Md5Digest(0), block: 0 },
        prev: NIL,
        next: index::slot_or_nil(i + 1, n),
        chain: NIL,
    }
}

/// What a region stores before its first use; its blocks are whatever was there.
pub open spec fn fresh(capacity: u32, block_size: usize, blocks: Seq<Seq<u8>>) -> Store {
    let n = capacity as int;
    Store {
        hdr: Header {
            lock: 0,
            capacity,
            block_size: block_size as u64,
            head: NIL,
            tail: NIL,
            free: 0,
            len: 0,
            nodes_off: layout::nodes_offset() as u64,
            buckets_off: layout::buckets_offset(n) as u64,
            states_off: layout::states_offset(n) as u64,
            pins_off: layout::pins_offset(n) as u64,
            blocks_off: layout::blocks_offset(n) as u64,
        },
        nodes: Seq::new(capacity as nat, |i: int| blank_node(i, n)),
        buckets: Seq::new(capacity as nat, |b: int| NIL),
        states: Seq::new(capacity as nat, |i: int| EMPTY),
        pins: Seq::new(capacity as nat, |i: int| 0u16),
        blocks,
    }
}

/// Where no record is, the bytes of a new cache are zero in front of the blocks, and behind
/// them what they were in the region `was`.
pub open spec fn cleared(bytes: Seq<u8>, was: Seq<u8>, capacity: int, block_size: int) -> bool {
    &&& bytes.len() == was.len()
    &&& forall|x: int|
        0 <= x < layout::blocks_offset(capacity) && !region::recorded(capacity, block_size, x)
            ==> #[trigger] bytes[x] == 0
    &&& forall|x: int|
        layout::region_size(capacity, block_size) <= x < bytes.len() ==> #[trigger] bytes[x]
            == was[x]
}

proof fn lemma_vacant(st: Store, n: int)
    requires
        0 < n < NIL,
        st.nodes.len() == n,
        st.buckets.len() == n,
        st.hdr.head == NIL,
        st.hdr.tail == NIL,
        st.hdr.free == 0,
        st.hdr.len == 0,
        forall|i: int| 0 <= i < n ==> #[trigger] st.nodes[i] == blank_node(i, n),
        forall|i: int| 0 <= i < n ==> #[trigger] st.buckets[i] == NIL,
    ensures
        index::order(st) == Seq::<u32>::empty(),
        index::ordered(st, None),
        index::hashed(st, None),
{
    assert(index::listed(st, Seq::empty()));
    index::lemma_order(st, Seq::empty());
    assert forall|b: int| 0 <= b < n implies #[trigger] index::bucket_ok(st, None, b) by {
        assert(links::path(index::chains(st), st.buckets[b], Seq::empty()));
        links::lemma_walk(index::chains(st), st.buckets[b], Seq::empty());
    }
}

impl<'a> Cache<'a> {
    /// A cache without blocks, laid out in `region`.
    ///
    /// Only what lies in front of the blocks is written.
    pub fn new(capacity: u32, block_size: usize, region: &'a mut [u8]) -> (r: Cache<'a>)
        requires
            layout::layout_exists(capacity, block_size),
            layout::region_size(capacity as int, block_size as int) <= old(region)@.len(),
        ensures
            r.wf(),
            r.slots() == capacity,
            r.spec_block_size() == block_size,
            cleared(r.bytes(), old(region)@, capacity as int, block_size as int),
            r@ == fresh(
                capacity,
                block_size,
                region::decode(old(region)@, capacity as int, block_size as int).blocks,
            ),
            r.model() == vacant(
                capacity as int,
                region::decode(
                    old(region)@,
                    capacity as int,
                    block_size as int,
                ).blocks,
            ),
    {
        let mut cache: Cache = Cache::attach(region, capacity, block_size);
        let ghost blocks = cache@.blocks;
        let layout: RegionLayout = cache.layout();
        cache.zero_index();
        let ghost zeroed = cache.bytes();
        cache.set_header(
            Header {
                lock: 0,
                capacity,
                block_size: block_size as u64,
                head: NIL,
                tail: NIL,
                free: 0,
                len: 0,
                nodes_off: layout.nodes_off as u64,
                buckets_off: layout.buckets_off as u64,
                states_off: layout.states_off as u64,
                pins_off: layout.pins_off as u64,
                blocks_off: layout.blocks_off as u64,
            },
        );
        let ghost start = cache@;
        let mut i: u32 = 0;
        proof {
            cache.lemma_shape();
        }
        while i < capacity
            invariant
                i <= capacity,
                capacity < NIL,
                cache.shaped(),
                cache.slots() == capacity,
                cache.spec_block_size() == block_size,
                cache.bytes().len() == zeroed.len() == old(region)@.len(),
                forall|x: int|
                    0 <= x < zeroed.len() && !region::recorded(
                        capacity as int,
                        block_size as int,
                        x,
                    ) ==> #[trigger] cache.bytes()[x] == zeroed[x],
                cache@.nodes.len() == capacity,
                cache@.buckets.len() == capacity,
                cache@.hdr == start.hdr,
                cache@.states == start.states,
                cache@.pins == start.pins,
                cache@.blocks == start.blocks,
                forall|j: int|
                    0 <= j < i ==> #[trigger] cache@.nodes[j] == blank_node(j, capacity as int),
                forall|j: int| 0 <= j < i ==> #[trigger] cache@.buckets[j] == NIL,
            decreases capacity - i,
        {
            cache.set_key(i, BlockKey { digest: Md5Digest(0), block: 0 });
            cache.set_prev(i, NIL);
            cache.set_next(
                i,
                if i + 1 < capacity {
                    i + 1
                } else {
                    NIL
                },
            );
            cache.set_chain(i, NIL);
            cache.set_bucket(i, NIL);
            i += 1;
        }
        proof {
            lemma_vacant(cache@, capacity as int);
            assert(cache.model() =~= vacant(capacity as int, blocks));
            assert(cache@ =~= fresh(capacity, block_size, blocks));
        }
        cache
    }
}

} // verus!
