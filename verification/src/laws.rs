//! What holds of the library as a whole.
use vstd::prelude::*;

use crate::disk;
use crate::fault;
use crate::fault::FaultPlan;
use crate::index;
use crate::key::{BlockKey, Md5Digest};
use crate::layout;
use crate::layout::{NIL, PAGE};
use crate::links;
use crate::model::Model;
use crate::region;
use crate::region::Cache;
use crate::requests;
use crate::requests::{PtrRange, ReqData};
use crate::s3;
use crate::slots::{LOADING, READY};
use crate::{AlignDown, ONE_MB, PAGE_SIZE};

verus! {

proof fn lemma_all_below(s: Seq<u32>, n: int)
    requires
        s.no_duplicates(),
        0 <= n <= NIL,
        forall|k: int| 0 <= k < s.len() ==> (#[trigger] s[k]) < n,
        forall|i: u32| i < n ==> #[trigger] s.contains(i),
    ensures
        s.len() == n,
    decreases n,
{
    if n > 0 {
        let x = (n - 1) as u32;
        assert(s.contains(x));
        let p = s.index_of(x);
        let t = links::without(s, x);
        links::lemma_without(s, x, p);
        assert forall|k: int| 0 <= k < t.len() implies (#[trigger] t[k]) < n - 1 by {
            assert(t.contains(t[k]));
            assert(s.contains(t[k]));
            let j = s.index_of(t[k]);
            assert(s[j] < n);
        }
        assert forall|i: u32| i < n - 1 implies #[trigger] t.contains(i) by {
            assert(s.contains(i));
        }
        lemma_all_below(t, n - 1);
    } else if s.len() > 0 {
        assert(s[0] < n);
    }
}

/// A sound cache holds each block at most once, no more blocks than it has slots, and
/// its recency list names each slot in use exactly once.
pub proof fn law_contents(cache: &Cache)
    requires
        cache.wf(),
    ensures
        cache.model().valid(),
        cache.model().states.len() == cache.slots(),
        forall|i: int|
            0 <= i < cache.slots() ==> (#[trigger] cache.model().blocks[i]).len()
                == cache.spec_block_size(),
{
    cache.lemma_shape();
    let m = cache.model();
    let st = cache@;
    assert forall|i: u32| i < m.keys.len() implies #[trigger] m.order.contains(i) by {
        assert(index::holds(i as int, st.hdr.len as int, None));
    }
    assert forall|k: int| 0 <= k < m.order.len() implies (#[trigger] m.order[k]) < m.keys.len() by {
        assert(index::holds(m.order[k] as int, st.hdr.len as int, None));
    }
    lemma_all_below(m.order, m.keys.len() as int);
    assert forall|i: int, j: int| 0 <= i < j < m.keys.len() implies m.keys[i] != m.keys[j] by {
        assert(m.keys[i] == st.nodes[i].key && m.keys[j] == st.nodes[j].key);
        assert(index::holds(i, st.hdr.len as int, None));
        assert(index::holds(j, st.hdr.len as int, None));
    }
}

/// The bytes that a cache leaves behind can be taken up again: a cache over the same bytes
/// is sound and holds the same blocks under the same keys, in the same order of use.
pub proof fn law_reopen(cache: &Cache, again: &Cache)
    requires
        cache.wf(),
        again.shaped(),
        again.bytes() == cache.bytes(),
        again.slots() == cache.slots(),
        again.spec_block_size() == cache.spec_block_size(),
    ensures
        region::decode(cache.bytes(), cache.slots(), cache.spec_block_size()).hdr.capacity
            == cache.slots(),
        region::decode(cache.bytes(), cache.slots(), cache.spec_block_size()).hdr.block_size
            == cache.spec_block_size(),
        again.wf(),
        again.model() == cache.model(),
{
}

/// In a valid cache a key is found in exactly the slot that has it.
proof fn lemma_slot_of(m: Model, key: BlockKey, i: int)
    requires
        m.valid(),
        0 <= i < m.keys.len(),
        m.keys[i] == key,
    ensures
        m.slot_of(key) == Some(i as u32),
{
    assert(m.keys.contains(key));
    let j = m.keys.index_of(key);
    assert(m.keys[j] == key);
}

proof fn lemma_last_idle(m: Model, k: int)
    requires
        0 <= k <= m.order.len(),
    ensures
        match m.last_idle(k) {
            Some(v) => exists|j: int|
                #![trigger m.order[j]]
                0 <= j < k && m.order[j] == v && m.idle(v) && forall|x: int|
                    j < x < k ==> !m.idle(#[trigger] m.order[x]),
            None => forall|x: int| 0 <= x < k ==> !m.idle(#[trigger] m.order[x]),
        },
    decreases k,
{
    if k > 0 {
        if m.idle(m.order[k - 1]) {
            assert(m.order[k - 1] == m.order[k - 1]);
        } else {
            lemma_last_idle(m, k - 1);
            if let Some(v) = m.last_idle(k - 1) {
                let j = choose|j: int|
                    #![trigger m.order[j]]
                    0 <= j < k - 1 && m.order[j] == v && m.idle(v) && forall|x: int|
                        j < x < k - 1 ==> !m.idle(#[trigger] m.order[x]);
                assert(m.order[j] == v);
            }
        }
    }
}

/// The slot that gives up its block is the least recently used one of those that can be
/// read and are not being read; there is one if there is such a slot at all.
pub proof fn law_victim(m: Model)
    ensures
        match m.victim() {
            Some(v) => exists|j: int|
                #![trigger m.order[j]]
                0 <= j < m.order.len() && m.order[j] == v && m.idle(v) && forall|x: int|
                    j < x < m.order.len() ==> !m.idle(#[trigger] m.order[x]),
            None => forall|x: int| 0 <= x < m.order.len() ==> !m.idle(#[trigger] m.order[x]),
        },
{
    lemma_last_idle(m, m.order.len() as int);
}

/// A slot in use makes room only if it is idle: a block that is being fetched, or that
/// somebody has a handle on, stays.
pub proof fn law_busy_stays(m: Model, i: u32)
    requires
        m.valid(),
        i < m.keys.len(),
        !m.idle(i),
    ensures
        m.target() != Some(i),
{
    law_victim(m);
}

/// A block outlives every idle block that was used less recently.
pub proof fn law_recent_stays(m: Model, recent: int, other: int)
    requires
        m.valid(),
        0 <= recent < other < m.order.len(),
        m.idle(m.order[other]),
    ensures
        m.target() != Some(m.order[recent]),
{
    law_victim(m);
    assert(m.order[recent] < m.keys.len());
    if m.victim() == Some(m.order[recent]) {
        let v = m.order[recent];
        let j = choose|j: int|
            #![trigger m.order[j]]
            0 <= j < m.order.len() && m.order[j] == v && m.idle(v) && forall|x: int|
                j < x < m.order.len() ==> !m.idle(#[trigger] m.order[x]);
        assert(m.order[j] == m.order[recent]);
        assert(!m.idle(m.order[other]));
    }
}

/// While a free slot is left nothing is evicted.
pub proof fn law_free_first(m: Model, key: BlockKey, i: u32, held: BlockKey)
    requires
        m.valid(),
        m.target() == Some(i),
        m.keys.len() < m.states.len(),
        m.keys.contains(held),
        !m.keys.contains(key),
    ensures
        m.admitted(i, key).slot_of(held) == m.slot_of(held),
{
    let j = m.keys.index_of(held);
    lemma_slot_of(m, held, j);
    let n = m.admitted(i, key);
    assert(n.keys[j] == held);
    assert(n.keys.contains(held));
    let k = n.keys.index_of(held);
    assert(n.keys[k] == held);
    if k < m.keys.len() {
        assert(m.keys[k] == n.keys[k]);
    }
}

/// What is fetched for a key is what is read for it from then on, and making room for it
/// touches no other block than the one that gives up its slot.
pub proof fn law_read_back(m: Model, key: BlockKey, i: u32, data: Seq<u8>)
    requires
        m.valid(),
        m.slot_of(key) is None,
        m.target() == Some(i),
    ensures
        ({
            let n = m.admitted(i, key).pinned(i).published(i, data);
            &&& n.valid()
            &&& n.slot_of(key) == Some(i)
            &&& n.ready(i)
            &&& n.pins[i as int] == 1
            &&& n.blocks[i as int] == data
            &&& n.order[0] == i
            &&& forall|j: u32|
                #![trigger m.keys[j as int]]
                j < m.keys.len() && j != i ==> {
                    &&& n.slot_of(m.keys[j as int]) == Some(j)
                    &&& n.states[j as int] == m.states[j as int]
                    &&& n.pins[j as int] == m.pins[j as int]
                    &&& n.blocks[j as int] == m.blocks[j as int]
                }
            &&& i < m.keys.len() ==> n.slot_of(m.keys[i as int]) is None
        }),
{
    let n = m.admitted(i, key).pinned(i).published(i, data);
    lemma_target(m, i);
    lemma_admitted_valid(m, i, key);
    assert(n.valid());
    assert(n.keys[i as int] == key);
    lemma_slot_of(n, key, i as int);
    assert forall|j: u32|
        #![trigger m.keys[j as int]]
        j < m.keys.len() && j != i implies n.slot_of(m.keys[j as int]) == Some(j) by {
        assert(n.keys[j as int] == m.keys[j as int]);
        lemma_slot_of(n, m.keys[j as int], j as int);
    }
    if i < m.keys.len() {
        let gone = m.keys[i as int];
        assert(m.keys.contains(gone));
        if n.keys.contains(gone) {
            let k = n.keys.index_of(gone);
            assert(n.keys[k] == gone);
            if k != i {
                assert(m.keys[k] == gone);
            }
        }
    }
}

pub proof fn lemma_target(m: Model, i: u32)
    requires
        m.valid(),
        m.target() == Some(i),
    ensures
        i <= m.keys.len(),
        i < m.states.len(),
        m.order.contains(i) <==> i < m.keys.len(),
{
    law_victim(m);
    if m.order.contains(i) {
        let k = m.order.index_of(i);
        assert(m.order[k] < m.keys.len());
    }
}

pub proof fn lemma_used_valid(m: Model, i: u32)
    requires
        m.valid(),
        i < m.keys.len(),
    ensures
        m.used(i).valid(),
        m.used(i).order[0] == i,
{
    assert(m.order.contains(i));
    let p = m.order.index_of(i);
    let w = links::without(m.order, i);
    let t = m.used(i).order;
    links::lemma_without(m.order, i, p);
    lemma_front(w, i, t);
    assert forall|k: int| 0 <= k < t.len() implies (#[trigger] t[k]) < m.keys.len() by {
        if k > 0 {
            assert(t[k] == w[k - 1]);
            assert(w.contains(w[k - 1]));
            assert(m.order.contains(w[k - 1]));
            let j = m.order.index_of(w[k - 1]);
            assert(m.order[j] < m.keys.len());
        }
    }
    assert forall|x: u32| x < m.keys.len() implies #[trigger] t.contains(x) by {
        assert(m.order.contains(x));
        if x != i {
            assert(w.contains(x));
        }
    }
}

proof fn lemma_front(w: Seq<u32>, i: u32, t: Seq<u32>)
    requires
        w.no_duplicates(),
        !w.contains(i),
        t == seq![i] + w,
    ensures
        t.no_duplicates(),
        t.len() == w.len() + 1,
        t[0] == i,
        forall|x: u32| #[trigger] t.contains(x) <==> x == i || w.contains(x),
{
    assert forall|a: int, b: int| 0 <= a < b < t.len() implies t[a] != t[b] by {
        assert(t[b] == w[b - 1]);
        assert(w.contains(w[b - 1]));
        if a > 0 {
            assert(t[a] == w[a - 1]);
        }
    }
    assert forall|x: u32| #[trigger] t.contains(x) <==> x == i || w.contains(x) by {
        if w.contains(x) {
            assert(t[w.index_of(x) + 1] == x);
        }
        if x == i {
            assert(t[0] == x);
        }
        if t.contains(x) && x != i {
            let k = t.index_of(x);
            assert(t[k] == w[k - 1]);
        }
    }
}

proof fn lemma_admitted_valid(m: Model, i: u32, key: BlockKey)
    requires
        m.valid(),
        m.target() == Some(i),
        !m.keys.contains(key),
    ensures
        m.admitted(i, key).valid(),
{
    lemma_target(m, i);
    let n = m.admitted(i, key);
    assert forall|a: int, b: int| 0 <= a < b < n.keys.len() implies n.keys[a] != n.keys[b] by {
        if a != i {
            assert(n.keys[a] == m.keys[a]);
            assert(m.keys.contains(m.keys[a]));
        }
        if b != i {
            assert(n.keys[b] == m.keys[b]);
            assert(m.keys.contains(m.keys[b]));
        }
    }
    if i < m.keys.len() {
        lemma_used_valid(m, i);
        assert(n.order == m.used(i).order);
    } else {
        lemma_front(m.order, i, n.order);
        assert forall|k: int| 0 <= k < n.order.len() implies (#[trigger] n.order[k])
            < n.keys.len() by {
            if k > 0 {
                assert(n.order[k] == m.order[k - 1]);
            }
        }
    }
}

/// Giving a handle back undoes handing it out.
pub proof fn law_release(m: Model, i: u32)
    requires
        i < m.pins.len(),
    ensures
        m.pinned(i).released(i) == m,
        m.released(i).pinned(i) == m,
{
    assert(m.pinned(i).released(i) =~= m);
    assert(m.released(i).pinned(i) =~= m);
}

/// Whatever is done to the cache, a block that is being fetched stays under its key until
/// it is published, so that nobody fetches it again.
pub proof fn law_fetched_once(m: Model, n: Model, key: BlockKey, i: u32)
    requires
        m.valid(),
        m.step(n),
        m.slot_of(key) == Some(i),
        m.states[i as int] == LOADING,
    ensures
        n.slot_of(key) == Some(i),
        n.states[i as int] == LOADING || n.states[i as int] == READY && exists|data: Seq<u8>|
            n == #[trigger] m.published(i, data),
{
    law_step(m, n);
    let k = m.keys.index_of(key);
    assert(m.keys[k] == key);
    if exists|j: u32, other: BlockKey| m.admits(n, j, other) {
        let (j, other) = choose|j: u32, other: BlockKey| m.admits(n, j, other);
        law_busy_stays(m, i);
        assert(n.keys[i as int] == key);
    }
    lemma_slot_of(n, key, i as int);
}

/// Whatever is done to the cache, a block that somebody has a handle on keeps its slot and
/// its bytes.
pub proof fn law_handle(m: Model, n: Model, key: BlockKey, i: u32)
    requires
        m.valid(),
        m.step(n),
        m.slot_of(key) == Some(i),
        m.ready(i),
        m.pins[i as int] > 0,
    ensures
        n.slot_of(key) == Some(i),
        n.ready(i),
        n.blocks[i as int] == m.blocks[i as int],
{
    law_step(m, n);
    let k = m.keys.index_of(key);
    assert(m.keys[k] == key);
    if exists|j: u32, other: BlockKey| m.admits(n, j, other) {
        let (j, other) = choose|j: u32, other: BlockKey| m.admits(n, j, other);
        law_busy_stays(m, i);
        assert(n.keys[i as int] == key);
    }
    lemma_slot_of(n, key, i as int);
}

/// Whatever is done to a valid cache leaves it valid.
pub proof fn law_step(m: Model, n: Model)
    requires
        m.valid(),
        m.step(n),
    ensures
        n.valid(),
{
    if exists|i: u32| m.hits(n, i) {
        let i = choose|i: u32| m.hits(n, i);
        lemma_used_valid(m, i);
    } else if exists|i: u32, key: BlockKey| m.admits(n, i, key) {
        let (i, key) = choose|i: u32, key: BlockKey| m.admits(n, i, key);
        lemma_admitted_valid(m, i, key);
    }
}

/// Fetching a block is two operations: making room for it, then publishing it.
pub proof fn law_fetch(m: Model, key: BlockKey, i: u32, data: Seq<u8>)
    requires
        m.valid(),
        m.slot_of(key) is None,
        m.target() == Some(i),
    ensures
        m.step(m.admitted(i, key).pinned(i)),
        m.admitted(i, key).pinned(i).step(m.admitted(i, key).pinned(i).published(i, data)),
{
    lemma_target(m, i);
    let mid = m.admitted(i, key).pinned(i);
    assert(m.admits(mid, i, key));
    assert(mid.publishes(mid.published(i, data), i, data));
}

/// The parts of a region follow each other without overlap, each where its records may
/// stand; the blocks start on page boundaries and the last one ends with the region.
pub proof fn law_layout(capacity: u32, block_size: usize, i: int)
    requires
        layout::layout_exists(capacity, block_size),
        0 <= i < capacity,
    ensures
        ({
            let n = capacity as int;
            let size = block_size as int;
            &&& layout::HEADER_SIZE <= layout::nodes_offset()
            &&& layout::nodes_offset() % (layout::NODE_ALIGN as int) == 0
            &&& layout::nodes_offset() + n * layout::NODE_SIZE <= layout::buckets_offset(n)
            &&& layout::buckets_offset(n) % 4 == 0
            &&& layout::buckets_offset(n) + n * 4 <= layout::states_offset(n)
            &&& layout::states_offset(n) + n <= layout::pins_offset(n)
            &&& layout::pins_offset(n) % 2 == 0
            &&& layout::pins_offset(n) + n * 2 <= layout::blocks_offset(n)
            &&& (layout::blocks_offset(n) + i * size) % (PAGE as int) == 0
            &&& layout::blocks_offset(n) + i * size + size <= layout::region_size(n, size)
            &&& i == n - 1 ==> layout::blocks_offset(n) + i * size + size
                == layout::region_size(n, size)
        }),
{
    let n = capacity as int;
    let size = block_size as int;
    layout::lemma_offsets(capacity, block_size);
    let pages = size / (PAGE as int);
    assert(i * size == (i * pages) * (PAGE as int)) by (nonlinear_arith)
        requires
            size == pages * PAGE,
    ;
    assert(i * size + size == (i + 1) * size) by (nonlinear_arith);
    assert((i + 1) * size <= n * size) by (nonlinear_arith)
        requires
            i + 1 <= n,
            0 < size,
    ;
}

/// Rounding an address down to a power of two gives the greatest multiple of it that is
/// not above the address.
pub proof fn law_align_down(a: usize, align: usize, n: nat)
    requires
        align == vstd::arithmetic::power2::pow2(n),
    ensures
        a & !((align - 1) as usize) == a - a % align,
{
    let mask = (align - 1) as usize;
    vstd::arithmetic::power2::lemma_pow2_pos(n);
    assert(n < 64) by {
        if n >= 64 {
            vstd::arithmetic::power2::lemma2_to64();
            if n > 64 {
                vstd::arithmetic::power2::lemma_pow2_strictly_increases(64, n);
            }
        }
    }
    assert(a & !mask == a - (a & mask)) by (bit_vector);
    vstd::bits::lemma_u64_low_bits_mask_is_mod(a as u64, n);
    assert((a as u64) & (mask as u64) == (a & mask) as u64);
}

/// A fault is answered by the block that holds the faulting address, and the block lies
/// inside the object.
pub proof fn law_fault_block(range: PtrRange, page: usize, block_size: usize, plan: FaultPlan)
    requires
        range.spec_contains(page),
        0 < block_size,
        plan.answers(range, page, block_size as int),
    ensures
        plan.start <= page - range.0 < plan.end <= range.1 - range.0,
        plan.end - plan.start <= block_size,
        plan.start == plan.block_number * block_size,
{
    let x = page - range.0;
    let size = block_size as int;
    vstd::arithmetic::div_mod::lemma_fundamental_div_mod(x, size);
    vstd::arithmetic::div_mod::lemma_mod_bound(x, size);
    assert((x / size) * size == size * (x / size)) by (nonlinear_arith);
}

/// Two faults in one object are answered by the same block or by blocks that do not overlap.
pub proof fn law_fault_tiles(
    range: PtrRange,
    page: usize,
    other_page: usize,
    block_size: usize,
    plan: FaultPlan,
    other: FaultPlan,
)
    requires
        range.spec_contains(page),
        range.spec_contains(other_page),
        0 < block_size,
        plan.answers(range, page, block_size as int),
        other.answers(range, other_page, block_size as int),
    ensures
        plan == other || plan.end <= other.start || other.end <= plan.start,
{
    let size = block_size as int;
    let a = plan.block_number as int;
    let b = other.block_number as int;
    if a < b {
        assert(a * size + size <= b * size) by (nonlinear_arith)
            requires
                a + 1 <= b,
                0 < size,
        ;
    } else if b < a {
        assert(b * size + size <= a * size) by (nonlinear_arith)
            requires
                b + 1 <= a,
                0 < size,
        ;
    }
}

/// What is mapped for a fault covers every address of the faulting page that stands for a
/// byte of the object, and is a whole number of pages that the block has.
pub proof fn law_fault_covers(
    range: PtrRange,
    page: usize,
    block_size: usize,
    plan: FaultPlan,
    addr: usize,
)
    requires
        range.spec_contains(page),
        range.0 % PAGE_SIZE == 0,
        page % PAGE_SIZE == 0,
        0 < block_size,
        block_size % PAGE_SIZE == 0,
        plan.answers(range, page, block_size as int),
        page <= addr < page + PAGE_SIZE,
        addr < range.1,
    ensures
        plan.dst <= addr < plan.dst + plan.remap,
        plan.remap <= block_size,
        plan.remap % PAGE_SIZE == 0,
        plan.dst % PAGE_SIZE == 0,
{
    law_fault_block(range, page, block_size, plan);
    let size = block_size as int;
    let k = plan.block_number as int;
    let pages = size / (PAGE_SIZE as int);
    assert(k * size == (k * pages) * (PAGE_SIZE as int)) by (nonlinear_arith)
        requires
            size == pages * PAGE_SIZE,
    ;
    let x = page - range.0;
    vstd::arithmetic::div_mod::lemma_fundamental_div_mod(x, size);
    vstd::arithmetic::div_mod::lemma_mod_bound(x, size);
    assert((x / size) * size == size * (x / size)) by (nonlinear_arith);
    assert(x < k * size + size);
    assert(x % (PAGE_SIZE as int) == 0);
    assert(addr - range.0 < k * size + size);
}

/// An address is its own number; a page has 16384 bytes, and 64 pages are a mebibyte.
pub proof fn law_units(a: usize)
    ensures
        a.addr() == a,
        PAGE_SIZE == 16384,
        PAGE == 16384,
        ONE_MB == 64 * PAGE_SIZE,
{
}

/// The page of an address starts at the last multiple of the page size that is not above it.
pub proof fn law_page(addr: usize)
    ensures
        fault::page_of(addr) % 16384 == 0,
        fault::page_of(addr) <= addr < fault::page_of(addr) + 16384,
{
}

/// What answers a fault: the block that holds the page, up to the end of the object at the
/// latest, mapped where it belongs. All of the block is mapped, in `pages` bytes, which is
/// what is left of the object in whole pages, or in the size of a block if that is less; so
/// that no page is replaced that holds no byte of the object.
pub proof fn law_fault_extent(
    range: PtrRange,
    page: usize,
    block_size: usize,
    plan: FaultPlan,
    pages: int,
)
    requires
        range.0 <= page < range.1,
        0 < block_size,
        plan.answers(range, page, block_size as int),
        pages % 16384 == 0,
        range.1 - range.0 - plan.start <= pages < range.1 - range.0 - plan.start + 16384,
    ensures
        plan.start == plan.block_number * block_size,
        plan.start <= page - range.0 < plan.start + block_size,
        range.1 - range.0 - plan.start <= block_size ==> plan.end == range.1 - range.0,
        range.1 - range.0 - plan.start > block_size ==> plan.end == plan.start + block_size,
        plan.dst == range.0 + plan.start,
        pages <= block_size ==> plan.remap == pages,
        pages > block_size ==> plan.remap == block_size,
        plan.dst + plan.remap < range.1 + 16384,
        plan.dst + plan.remap >= range.0 + plan.end,
{
    law_fault_block(range, page, block_size, plan);
    let x = page - range.0;
    let size = block_size as int;
    vstd::arithmetic::div_mod::lemma_fundamental_div_mod(x, size);
    vstd::arithmetic::div_mod::lemma_mod_bound(x, size);
    assert((x / size) * size == size * (x / size)) by (nonlinear_arith);
}

/// A fault asks for the block of its own object that holds the faulting page.
pub proof fn law_fault_key<Req, Cb>(
    req: &ReqData<Req, Cb>,
    range: PtrRange,
    page: usize,
    block_size: usize,
)
    requires
        range.0 <= page < range.1,
        0 < block_size,
    ensures
        ({
            let key = disk::block_key(*req, range, page, block_size as int);
            &&& key.digest == req.md5_digest
            &&& key.block * block_size <= page - range.0 < key.block * block_size + block_size
        }),
{
    let x = page - range.0;
    let size = block_size as int;
    vstd::arithmetic::div_mod::lemma_fundamental_div_mod(x, size);
    vstd::arithmetic::div_mod::lemma_mod_bound(x, size);
    vstd::arithmetic::div_mod::lemma_div_pos_is_pos(x, size);
    assert((x / size) * size == size * (x / size)) by (nonlinear_arith);
    assert(x / size <= x) by (nonlinear_arith)
        requires
            x == size * (x / size) + x % size,
            0 <= x % size,
            0 <= x / size,
            1 <= size,
    ;
}

/// A fault at any byte of an object is answered by a block that has that byte.
pub proof fn law_fault_byte(range: PtrRange, block_size: usize, plan: FaultPlan, x: int)
    requires
        range.0 % PAGE_SIZE == 0,
        0 < block_size,
        block_size % PAGE_SIZE == 0,
        0 <= x < range.1 - range.0,
        plan.answers(range, fault::page_of((range.0 + x) as usize), block_size as int),
    ensures
        range.spec_contains(fault::page_of((range.0 + x) as usize)),
        plan.start <= x < plan.end,
{
    let addr = (range.0 + x) as usize;
    let page = fault::page_of(addr);
    assert(page % PAGE_SIZE == 0);
    assert(range.0 <= page);
    law_fault_covers(range, page, block_size, plan, addr);
}

/// Block number `block` of `object`, padded with zeros to `block_size` bytes.
pub open spec fn image(object: Seq<u8>, block: int, block_size: int) -> Seq<u8> {
    region::padded(
        object.subrange(
            block * block_size,
            fault::min(object.len() as int, block * block_size + block_size),
        ),
        block_size,
    )
}

/// Every block that can be read is the block of the object that its key names.
pub open spec fn coherent(m: Model, objects: Map<Md5Digest, Seq<u8>>, block_size: int) -> bool {
    forall|i: u32|
        #![trigger m.keys[i as int]]
        i < m.keys.len() && m.ready(i) ==> m.blocks[i as int] == image(
            objects[m.keys[i as int].digest],
            m.keys[i as int].block as int,
            block_size,
        )
}

/// As long as every download brings the block that was asked for, every block that can be
/// read is the one that its key names, whatever is done to the cache.
pub proof fn law_coherent(
    m: Model,
    n: Model,
    objects: Map<Md5Digest, Seq<u8>>,
    block_size: int,
)
    requires
        m.valid(),
        coherent(m, objects, block_size),
        m.step(n),
        forall|i: u32, data: Seq<u8>| #[trigger]
            m.publishes(n, i, data) ==> data == image(
                objects[m.keys[i as int].digest],
                m.keys[i as int].block as int,
                block_size,
            ),
    ensures
        coherent(n, objects, block_size),
{
    if exists|j: u32, key: BlockKey| m.admits(n, j, key) {
        let (j, key) = choose|j: u32, key: BlockKey| m.admits(n, j, key);
        lemma_target(m, j);
        assert forall|i: u32|
            #![trigger n.keys[i as int]]
            i < n.keys.len() && n.ready(i) implies n.blocks[i as int] == image(
            objects[n.keys[i as int].digest],
            n.keys[i as int].block as int,
            block_size,
        ) by {
            assert(i != j);
            assert(n.keys[i as int] == m.keys[i as int]);
        }
    } else {
        assert(n.keys == m.keys);
        assert forall|i: u32|
            #![trigger n.keys[i as int]]
            i < n.keys.len() && n.ready(i) implies n.blocks[i as int] == image(
            objects[n.keys[i as int].digest],
            n.keys[i as int].block as int,
            block_size,
        ) by {
            assert(m.keys[i as int] == n.keys[i as int]);
        }
    }
}

/// An address mapped for a fault reads as the byte of the object that it stands for.
pub proof fn law_mapped_bytes(
    range: PtrRange,
    page: usize,
    block_size: usize,
    plan: FaultPlan,
    object: Seq<u8>,
    addr: usize,
)
    requires
        range.spec_contains(page),
        0 < block_size,
        plan.answers(range, page, block_size as int),
        object.len() == range.1 - range.0,
        plan.dst <= addr < plan.dst + plan.remap,
        addr < range.1,
    ensures
        image(object, plan.block_number as int, block_size as int)[addr - plan.dst] == object[addr
            - range.0],
{
    law_fault_block(range, page, block_size, plan);
}

/// A download that brings the bytes that a fault asks for brings the block of the object.
pub proof fn law_brought(
    range: PtrRange,
    page: usize,
    block_size: usize,
    plan: FaultPlan,
    object: Seq<u8>,
)
    requires
        range.spec_contains(page),
        0 < block_size,
        plan.answers(range, page, block_size as int),
        object.len() == range.1 - range.0,
    ensures
        region::padded(object.subrange(plan.start as int, plan.end as int), block_size as int)
            == image(object, plan.block_number as int, block_size as int),
{
}

/// As long as the cache is coherent, an address mapped for a fault with a block that can be
/// read shows the byte of the object that the address stands for.
pub proof fn law_read_through<Req, Cb>(
    m: Model,
    objects: Map<Md5Digest, Seq<u8>>,
    req: &ReqData<Req, Cb>,
    range: PtrRange,
    page: usize,
    block_size: usize,
    plan: FaultPlan,
    i: u32,
    addr: usize,
)
    requires
        m.valid(),
        coherent(m, objects, block_size as int),
        objects[req.md5_digest].len() == range.1 - range.0,
        range.spec_contains(page),
        0 < block_size,
        plan.answers(range, page, block_size as int),
        m.slot_of(disk::block_key(*req, range, page, block_size as int)) == Some(i),
        m.ready(i),
        plan.dst <= addr < plan.dst + plan.remap,
        addr < range.1,
    ensures
        m.blocks[i as int][addr - plan.dst] == objects[req.md5_digest][addr - range.0],
{
    let key = disk::block_key(*req, range, page, block_size as int);
    let k = m.keys.index_of(key);
    assert(m.keys[k] == key);
    law_mapped_bytes(range, page, block_size, plan, objects[req.md5_digest], addr);
}

/// An address is found in the range that holds it, if no other range overlaps that one.
pub proof fn law_located<R>(m: Map<PtrRange, R>, p: usize, k: PtrRange)
    requires
        forall|a: PtrRange| #[trigger]
            m.contains_key(a) && a != k ==> a.0 <= a.1 && (a.1 <= k.0 || k.1 <= a.0),
        m.contains_key(k),
        k.spec_contains(p),
    ensures
        requests::located(m, p) == Some(k),
{
    assert forall|x: PtrRange| #[trigger] m.contains_key(x) && x.0 <= p implies x.le(k) by {
        if x != k {
            assert(x.1 <= k.0 || k.1 <= x.0);
        }
    }
    assert(requests::is_floor(m, p, k));
    requests::lemma_located(m, p, k);
}

/// Of the ranges that start at or before an address only the last one is looked at, and of
/// those that start together the longest: the address is found in it, or not at all.
pub proof fn law_floor<R>(m: Map<PtrRange, R>, p: usize, k: PtrRange)
    ensures
        m.contains_key(k) && k.0 <= p && (forall|x: PtrRange| #[trigger]
            m.contains_key(x) && x.0 <= p ==> x.0 < k.0 || x.0 == k.0 && x.1 <= k.1)
            ==> requests::located(m, p) == if p < k.1 {
            Some(k)
        } else {
            None
        },
        (forall|x: PtrRange| #[trigger] m.contains_key(x) ==> x.0 > p) ==> requests::located(m, p)
            is None,
        requests::located(m, p) == Some(k) ==> {
            &&& m.contains_key(k)
            &&& k.0 <= p < k.1
            &&& forall|x: PtrRange| #[trigger]
                m.contains_key(x) && x.0 <= p ==> x.0 < k.0 || x.0 == k.0 && x.1 <= k.1
        },
{
    if m.contains_key(k) && k.0 <= p && forall|x: PtrRange| #[trigger]
        m.contains_key(x) && x.0 <= p ==> x.0 < k.0 || x.0 == k.0 && x.1 <= k.1 {
        assert forall|x: PtrRange| #[trigger] m.contains_key(x) && x.0 <= p implies x.le(k) by {}
        assert(requests::is_floor(m, p, k));
        requests::lemma_located(m, p, k);
    }
    let f = choose|f: PtrRange| requests::is_floor(m, p, f);
    if requests::is_floor(m, p, f) {
        assert forall|x: PtrRange| #[trigger] m.contains_key(x) && x.0 <= p implies x.0 < f.0
            || x.0 == f.0 && x.1 <= f.1 by {
            assert(x.le(f));
        }
    }
}

/// A range holds the addresses from its start on that are below its end.
pub proof fn law_range(range: PtrRange, p: usize)
    ensures
        range.spec_contains(p) <==> p >= range.0 && p < range.1,
{
}

/// A range that was found is known and holds the address.
pub proof fn law_located_holds<R>(m: Map<PtrRange, R>, p: usize)
    ensures
        requests::located(m, p) matches Some(k) ==> m.contains_key(k) && k.spec_contains(p),
{
}

proof fn lemma_decimal(n: nat)
    ensures
        s3::digits_value(s3::decimal(n), 10) == Some(n),
        s3::decimal(n).len() > 0,
        s3::decimal(n)[0] != s3::PLUS,
    decreases n,
{
    let s = s3::decimal(n);
    if n < 10 {
        assert(s.drop_last() =~= Seq::empty());
        assert(s3::digits_value(s.drop_last(), 10) == Some(0nat));
    } else {
        lemma_decimal(n / 10);
        assert(s.drop_last() =~= s3::decimal(n / 10));
        assert(s[0] == s3::decimal(n / 10)[0]);
    }
}

/// A number that is written in decimal digits is read back.
pub proof fn law_decimal(n: nat, max: nat)
    requires
        n <= max,
    ensures
        s3::number(s3::decimal(n), 10, max) == Some(n),
{
    lemma_decimal(n);
}

/// A weak entity tag names the same digest as the strong one.
pub proof fn law_weak_tag(tag: Seq<u8>)
    ensures
        s3::tag_digest(Some(seq![s3::UPPER_W, s3::SLASH] + tag)) == s3::tag_digest(Some(tag)),
{
    let weak = seq![s3::UPPER_W, s3::SLASH] + tag;
    assert(weak.skip(2) =~= tag);
}

} // verus!
