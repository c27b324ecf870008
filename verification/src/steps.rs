//! What each operation on a cache does, slot by slot.
use vstd::prelude::*;

use crate::key::BlockKey;
use crate::laws;
use crate::links;
use crate::model::{Model, Op};
use crate::runs;

verus! {

/// Slot `j` comes before slot `k` in `order`.
pub open spec fn before(order: Seq<u32>, j: u32, k: u32) -> bool {
    exists|a: int, b: int|
        #![trigger order[a], order[b]]
        0 <= a < b < order.len() && order[a] == j && order[b] == k
}

/// Slot `i` came to the front, and the other slots kept their places among each other.
pub open spec fn brought_forward(new: Seq<u32>, old: Seq<u32>, i: u32) -> bool {
    &&& new.len() > 0
    &&& new[0] == i
    &&& new.no_duplicates()
    &&& forall|x: u32| #[trigger] new.contains(x) <==> x == i || old.contains(x)
    &&& forall|j: u32, k: u32|
        j != i && k != i ==> (#[trigger] before(new, j, k) <==> before(old, j, k))
}

proof fn lemma_forward(new: Seq<u32>, old: Seq<u32>, i: u32)
    requires
        old.no_duplicates(),
        new == seq![i] + if old.contains(i) {
            links::without(old, i)
        } else {
            old
        },
    ensures
        brought_forward(new, old, i),
{
    let p = old.index_of(i);
    let rest = if old.contains(i) {
        links::without(old, i)
    } else {
        old
    };
    if old.contains(i) {
        links::lemma_without(old, i, p);
    }
    assert forall|a: int, b: int| 0 <= a < b < new.len() implies new[a] != new[b] by {
        assert(new[b] == rest[b - 1]);
        assert(rest.contains(rest[b - 1]));
        if a > 0 {
            assert(new[a] == rest[a - 1]);
        }
    }
    assert forall|x: u32| #[trigger] new.contains(x) <==> x == i || old.contains(x) by {
        if x == i {
            assert(new[0] == x);
        } else if old.contains(x) {
            assert(rest.contains(x));
            assert(new[rest.index_of(x) + 1] == x);
        } else if new.contains(x) {
            let k = new.index_of(x);
            assert(new[k] == rest[k - 1]);
            assert(rest.contains(x));
        }
    }
    assert forall|j: u32, k: u32| j != i && k != i implies (#[trigger] before(new, j, k)
        <==> before(old, j, k)) by {
        if before(new, j, k) {
            let (a, b) = choose|a: int, b: int|
                #![trigger new[a], new[b]]
                0 <= a < b < new.len() && new[a] == j && new[b] == k;
            assert(new[a] == rest[a - 1] && new[b] == rest[b - 1]);
            if old.contains(i) {
                let x = if a - 1 < p {
                    a - 1
                } else {
                    a
                };
                let y = if b - 1 < p {
                    b - 1
                } else {
                    b
                };
                assert(old[x] == j && old[y] == k);
            } else {
                assert(old[a - 1] == j && old[b - 1] == k);
            }
        }
        if before(old, j, k) {
            let (a, b) = choose|a: int, b: int|
                #![trigger old[a], old[b]]
                0 <= a < b < old.len() && old[a] == j && old[b] == k;
            if old.contains(i) {
                let x = if a < p {
                    a
                } else {
                    a - 1
                };
                let y = if b < p {
                    b
                } else {
                    b - 1
                };
                assert(rest[x] == j && rest[y] == k);
                assert(new[x + 1] == j && new[y + 1] == k);
            } else {
                assert(new[a + 1] == j && new[b + 1] == k);
            }
        }
    }
}

/// A key is found in the slot that has it, and nowhere if no slot has it.
pub proof fn law_found(m: Model, key: BlockKey, i: u32)
    requires
        m.valid(),
    ensures
        m.slot_of(key) == Some(i) <==> i < m.keys.len() && m.keys[i as int] == key,
        m.slot_of(key) is None <==> forall|j: int|
            0 <= j < m.keys.len() ==> #[trigger] m.keys[j] != key,
{
    if m.keys.contains(key) {
        let j = m.keys.index_of(key);
        assert(m.keys[j] == key);
    }
    if i < m.keys.len() && m.keys[i as int] == key {
        assert(m.keys.contains(key));
        let j = m.keys.index_of(key);
        assert(m.keys[j] == key);
    }
}

/// Handing out a handle on a block moves its slot to the front of the recency list, keeps the
/// other slots in their order, and adds one to the count of handles of that slot, whatever
/// handles are out; nothing else changes.
pub proof fn law_hit(m: Model, i: u32)
    requires
        m.valid(),
        i < m.keys.len(),
    ensures
        ({
            let n = m.used(i).pinned(i);
            &&& brought_forward(n.order, m.order, i)
            &&& n.order.len() == m.order.len()
            &&& n.keys == m.keys
            &&& n.states == m.states
            &&& n.blocks == m.blocks
            &&& n.pins.len() == m.pins.len()
            &&& n.pins[i as int] == (m.pins[i as int] + 1) % 65536
            &&& forall|j: int|
                0 <= j < m.pins.len() && j != i ==> #[trigger] n.pins[j] == m.pins[j]
        }),
{
    assert(m.order.contains(i));
    let n = m.used(i).pinned(i);
    lemma_forward(n.order, m.order, i);
    laws::lemma_used_valid(m, i);
}

/// Slot `i` can give up its block: the block can be read, and nobody has a handle on it.
pub open spec fn unused(m: Model, i: u32) -> bool {
    m.states[i as int] == 2 && m.pins[i as int] == 0
}

/// A new block goes into the first slot that was never used. If there is none, it goes into
/// the slot that comes last in the recency list among those whose block can be read and has
/// no handle out. If there is none of these either, there is no room.
pub proof fn law_room(m: Model, i: u32)
    requires
        m.valid(),
    ensures
        m.keys.len() < m.states.len() ==> m.target() == Some(m.keys.len() as u32),
        m.keys.len() == m.states.len() ==> {
            &&& m.target() == Some(i) <==> {
                &&& m.order.contains(i)
                &&& unused(m, i)
                &&& forall|j: u32| #[trigger] before(m.order, i, j) ==> !unused(m, j)
            }
            &&& m.target() is None <==> forall|j: u32| j < m.keys.len() ==> !#[trigger] unused(m, j)
        },
{
    if m.keys.len() == m.states.len() {
        laws::law_victim(m);
        if let Some(v) = m.target() {
            let a = choose|a: int|
                #![trigger m.order[a]]
                0 <= a < m.order.len() && m.order[a] == v && m.idle(v) && forall|x: int|
                    a < x < m.order.len() ==> !m.idle(#[trigger] m.order[x]);
            assert(m.order[a] == v);
            assert(unused(m, v));
            assert(v < m.keys.len());
            assert forall|j: u32| #[trigger] before(m.order, v, j) implies !unused(m, j) by {
                let (x, y) = choose|x: int, y: int|
                    #![trigger m.order[x], m.order[y]]
                    0 <= x < y < m.order.len() && m.order[x] == v && m.order[y] == j;
                assert(x == a);
                assert(!m.idle(m.order[y]));
            }
            if m.order.contains(i) && i != v && unused(m, i) && forall|j: u32| #[trigger]
                before(m.order, i, j) ==> !unused(m, j) {
                let b = m.order.index_of(i);
                assert(m.order[b] == i);
                if b < a {
                    assert(before(m.order, i, v));
                } else {
                    assert(!m.idle(m.order[b]));
                }
            }
        } else {
            assert forall|j: u32| j < m.keys.len() implies !#[trigger] unused(m, j) by {
                assert(m.order.contains(j));
                let x = m.order.index_of(j);
                assert(!m.idle(m.order[x]));
            }
            if m.order.contains(i) {
                let x = m.order.index_of(i);
                assert(m.order[x] < m.keys.len());
            }
        }
    }
}

/// A block can be had at once exactly if its slot can be read, or if it has no slot and there
/// is room for it.
pub proof fn law_had_at_once(m: Model, key: BlockKey)
    requires
        m.valid(),
    ensures
        m.available(key) <==> {
            ||| exists|i: int|
                0 <= i < m.keys.len() && #[trigger] m.keys[i] == key && m.states[i] == 2
            ||| (forall|i: int| 0 <= i < m.keys.len() ==> #[trigger] m.keys[i] != key) && (
            m.keys.len() < m.states.len() || exists|j: u32|
                j < m.keys.len() && #[trigger] unused(m, j))
        },
{
    law_found(m, key, 0);
    law_room(m, 0);
    if m.keys.contains(key) {
        let i = m.keys.index_of(key);
        law_found(m, key, i as u32);
        assert(m.keys[i] == key);
    } else {
        assert forall|i: int| 0 <= i < m.keys.len() implies #[trigger] m.keys[i] != key by {
            assert(m.keys.contains(m.keys[i]));
        }
    }
}

/// Making room for a block gives it the slot, marks it as being fetched, hands out the first
/// handle on it and moves it to the front of the recency list, which keeps the other slots in
/// their order. The other slots keep key, state, handles and bytes; the bytes of the slot are
/// still what they were.
pub proof fn law_admit(m: Model, key: BlockKey, i: u32)
    requires
        m.valid(),
        m.slot_of(key) is None,
        m.target() == Some(i),
    ensures
        ({
            let n = m.admitted(i, key).pinned(i);
            &&& brought_forward(n.order, m.order, i)
            &&& n.keys.len() == if i < m.keys.len() {
                m.keys.len()
            } else {
                m.keys.len() + 1
            }
            &&& n.keys[i as int] == key
            &&& n.states.len() == m.states.len()
            &&& n.states[i as int] == 1
            &&& n.pins.len() == m.pins.len()
            &&& n.pins[i as int] == 1
            &&& n.blocks == m.blocks
            &&& forall|j: int|
                0 <= j < m.keys.len() && j != i ==> #[trigger] n.keys[j] == m.keys[j]
            &&& forall|j: int|
                0 <= j < m.states.len() && j != i ==> #[trigger] n.states[j] == m.states[j]
            &&& forall|j: int|
                0 <= j < m.pins.len() && j != i ==> #[trigger] n.pins[j] == m.pins[j]
        }),
{
    laws::lemma_target(m, i);
    let n = m.admitted(i, key).pinned(i);
    lemma_forward(n.order, m.order, i);
}

/// Publishing a block sets its bytes and lets it be read; nothing else changes.
pub proof fn law_publish(m: Model, i: u32, data: Seq<u8>)
    requires
        m.valid(),
        i < m.states.len(),
    ensures
        ({
            let n = m.published(i, data);
            &&& n.order == m.order
            &&& n.keys == m.keys
            &&& n.pins == m.pins
            &&& n.states.len() == m.states.len()
            &&& n.states[i as int] == 2
            &&& n.blocks.len() == m.blocks.len()
            &&& n.blocks[i as int] == data
            &&& forall|j: int|
                0 <= j < m.states.len() && j != i ==> #[trigger] n.states[j] == m.states[j]
            &&& forall|j: int|
                0 <= j < m.blocks.len() && j != i ==> #[trigger] n.blocks[j] == m.blocks[j]
        }),
{
}

/// Giving a handle back takes one off the count of handles of its slot; nothing else changes.
pub proof fn law_give_back(m: Model, i: u32)
    requires
        m.valid(),
        i < m.pins.len(),
    ensures
        ({
            let n = m.released(i);
            &&& n.order == m.order
            &&& n.keys == m.keys
            &&& n.states == m.states
            &&& n.blocks == m.blocks
            &&& n.pins.len() == m.pins.len()
            &&& n.pins[i as int] == (m.pins[i as int] + 65535) % 65536
            &&& forall|j: int|
                0 <= j < m.pins.len() && j != i ==> #[trigger] n.pins[j] == m.pins[j]
        }),
{
}

/// When slot `i` was last used in the first `k` operations, or a negative number.
pub open spec fn last_use(ops: Seq<Op>, i: u32, k: int) -> int
    decreases k,
{
    if k <= 0 {
        -1
    } else {
        match ops[k - 1] {
            Op::Hit(j) if j == i => k - 1,
            Op::Admit(j, _) if j == i => k - 1,
            _ => last_use(ops, i, k - 1),
        }
    }
}

proof fn lemma_last_use(ops: Seq<Op>, i: u32, k: int)
    requires
        0 <= k,
    ensures
        -1 <= last_use(ops, i, k) < k,
    decreases k,
{
    if k > 0 {
        lemma_last_use(ops, i, k - 1);
    }
}

proof fn lemma_first_is_before(o: Seq<u32>, x: u32, y: u32)
    requires
        o.len() > 0,
        o.no_duplicates(),
        o.contains(x),
        o.contains(y),
        x != y,
    ensures
        o[0] == x ==> before(o, x, y),
        o[0] == y ==> !before(o, x, y),
{
    let a = o.index_of(x);
    let b = o.index_of(y);
    assert(o[a] == x && o[b] == y);
    if o[0] == x {
        assert(b > 0);
        assert(o[0] == x && o[b] == y);
    }
}

/// Whatever is done to a cache, with whatever handles out, the slots are in the order in which
/// they were last handed out: of two slots the one whose block was asked for later comes
/// first, and those not asked for since keep their order.
pub proof fn law_order_of_use(ms: Seq<Model>, ops: Seq<Op>, k: int, x: u32, y: u32)
    requires
        runs::trace(ms, ops),
        ms[0].valid(),
        0 <= k <= ops.len(),
        x != y,
        x < ms[k].keys.len(),
        y < ms[k].keys.len(),
    ensures
        before(ms[k].order, x, y) <==> {
            ||| last_use(ops, x, k) > last_use(ops, y, k)
            ||| last_use(ops, x, k) < 0 && last_use(ops, y, k) < 0 && before(ms[0].order, x, y)
        },
    decreases k,
{
    runs::law_trace(ms, ops, k);
    if k > 0 {
        let m = ms[k - 1];
        let n = ms[k];
        assert(m.does(ops[k - 1], ms[k - 1 + 1]));
        runs::law_trace(ms, ops, k - 1);
        lemma_last_use(ops, x, k - 1);
        lemma_last_use(ops, y, k - 1);
        assert(n.order.contains(x) && n.order.contains(y));
        match ops[k - 1] {
            Op::Hit(i) => {
                law_hit(m, i);
                lemma_first_is_before(n.order, x, y);
                law_order_of_use(ms, ops, k - 1, x, y);
            },
            Op::Admit(i, key) => {
                laws::lemma_target(m, i);
                law_admit(m, key, i);
                lemma_first_is_before(n.order, x, y);
                if x != i && y != i {
                    law_order_of_use(ms, ops, k - 1, x, y);
                }
            },
            _ => {
                law_order_of_use(ms, ops, k - 1, x, y);
            },
        }
    }
}

} // verus!
