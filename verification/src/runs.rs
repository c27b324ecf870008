//! What holds of the library over any number of operations.
use vstd::prelude::*;

use crate::disk;
use crate::fault;
use crate::fault::FaultPlan;
use crate::key::{BlockKey, Md5Digest};
use crate::laws;
use crate::layout::NIL;
use crate::links;
use crate::model::{Model, Op};
use crate::region;
use crate::requests;
use crate::requests::{PtrRange, ReqData};
use crate::slots;
use crate::slots::{LOADING, READY};
use crate::PAGE_SIZE;
use std::sync::Arc;

verus! {

/// A cache went through the states `ms` by the operations `ops`.
pub open spec fn trace(ms: Seq<Model>, ops: Seq<Op>) -> bool {
    &&& ms.len() == ops.len() + 1
    &&& forall|k: int| 0 <= k < ops.len() ==> ms[k].does(#[trigger] ops[k], ms[k + 1])
}

/// One step is one operation.
pub proof fn law_op(m: Model, n: Model)
    ensures
        m.step(n) <==> exists|op: Op| m.does(op, n),
{
    if n == m {
        assert(m.does(Op::Wait, n));
    }
    if exists|i: u32| m.hits(n, i) {
        let i = choose|i: u32| m.hits(n, i);
        assert(m.does(Op::Hit(i), n));
    }
    if exists|i: u32, key: BlockKey| m.admits(n, i, key) {
        let (i, key) = choose|i: u32, key: BlockKey| m.admits(n, i, key);
        assert(m.does(Op::Admit(i, key), n));
    }
    if exists|i: u32, data: Seq<u8>| m.publishes(n, i, data) {
        let (i, data) = choose|i: u32, data: Seq<u8>| m.publishes(n, i, data);
        assert(m.does(Op::Publish(i, data), n));
    }
    if exists|i: u32| m.releases(n, i) {
        let i = choose|i: u32| m.releases(n, i);
        assert(m.does(Op::Release(i), n));
    }
}

/// Whatever is done to a valid cache, and however often, leaves it valid.
pub proof fn law_trace(ms: Seq<Model>, ops: Seq<Op>, k: int)
    requires
        trace(ms, ops),
        ms[0].valid(),
        0 <= k <= ops.len(),
    ensures
        ms[k].valid(),
        ms[k].states.len() == ms[0].states.len(),
    decreases k,
{
    if k > 0 {
        law_trace(ms, ops, k - 1);
        assert(ms[k - 1].does(ops[k - 1], ms[k - 1 + 1]));
        law_op(ms[k - 1], ms[k]);
        laws::law_step(ms[k - 1], ms[k]);
    }
}

/// How many more handles on slot `i` are out after the first `k` operations.
pub open spec fn handed_out(ops: Seq<Op>, i: u32, k: int) -> int
    decreases k,
{
    if k <= 0 {
        0
    } else {
        handed_out(ops, i, k - 1) + match ops[k - 1] {
            Op::Hit(j) if j == i => 1int,
            Op::Admit(j, _) if j == i => 1int,
            Op::Release(j) if j == i => -1int,
            _ => 0int,
        }
    }
}

/// While a handle on a block is out, its slot keeps the key and the bytes, whatever else is
/// done and however often, and nobody is told to fetch into that slot.
///
/// One handle stays out, others come and go, and there are never more than can be counted.
pub proof fn law_handle_kept(ms: Seq<Model>, ops: Seq<Op>, key: BlockKey, i: u32, k: int)
    requires
        trace(ms, ops),
        ms[0].valid(),
        ms[0].slot_of(key) == Some(i),
        ms[0].ready(i),
        forall|j: int|
            0 <= j <= ops.len() ==> 1 <= ms[0].pins[i as int] + #[trigger] handed_out(ops, i, j)
                <= u16::MAX,
        0 <= k <= ops.len(),
    ensures
        ms[k].valid(),
        ms[k].slot_of(key) == Some(i),
        ms[k].ready(i),
        ms[k].blocks[i as int] == ms[0].blocks[i as int],
        ms[k].pins[i as int] == ms[0].pins[i as int] + handed_out(ops, i, k),
        forall|j: int|
            0 <= j < k ==> (#[trigger] ops[j] matches Op::Admit(other, _) ==> other != i),
    decreases k,
{
    assert(ms[0].pins[i as int] + handed_out(ops, i, 0) >= 1);
    if k > 0 {
        law_handle_kept(ms, ops, key, i, k - 1);
        let m = ms[k - 1];
        let n = ms[k];
        assert(m.does(ops[k - 1], ms[k - 1 + 1]));
        assert(1 <= ms[0].pins[i as int] + handed_out(ops, i, k - 1));
        assert(ms[0].pins[i as int] + handed_out(ops, i, k) <= u16::MAX);
        law_op(m, n);
        laws::law_step(m, n);
        laws::law_handle(m, n, key, i);
        let x = m.keys.index_of(key);
        assert(m.keys[x] == key);
        laws::law_busy_stays(m, i);
    }
}

/// While a block is being fetched it stays under its key, whatever else is done and however
/// often, and nobody else is told to fetch it.
pub proof fn law_fetch_kept(ms: Seq<Model>, ops: Seq<Op>, key: BlockKey, i: u32, k: int)
    requires
        trace(ms, ops),
        ms[0].valid(),
        ms[0].slot_of(key) == Some(i),
        ms[0].states[i as int] == LOADING,
        forall|j: int|
            0 <= j < ops.len() ==> (#[trigger] ops[j] matches Op::Publish(other, _) ==> other != i),
        0 <= k <= ops.len(),
    ensures
        ms[k].valid(),
        ms[k].slot_of(key) == Some(i),
        ms[k].states[i as int] == LOADING,
        forall|j: int|
            0 <= j < k ==> (#[trigger] ops[j] matches Op::Admit(_, other) ==> other != key),
    decreases k,
{
    if k > 0 {
        law_fetch_kept(ms, ops, key, i, k - 1);
        let m = ms[k - 1];
        let n = ms[k];
        assert(m.does(ops[k - 1], ms[k - 1 + 1]));
        law_op(m, n);
        laws::law_step(m, n);
        laws::law_fetched_once(m, n, key, i);
        let x = m.keys.index_of(key);
        assert(m.keys[x] == key);
    }
}

/// While every slot is being read or fetched into there is no room, so that nobody is told
/// to fetch anything.
pub proof fn law_full(m: Model)
    requires
        m.valid(),
        m.keys.len() == m.states.len(),
        forall|i: u32| i < m.keys.len() ==> !#[trigger] m.idle(i),
    ensures
        m.target() is None,
{
    laws::law_victim(m);
}

/// Waiting for a block that is being fetched ends when it is published, whatever else was
/// done until then: the block can be had at once, and reads as what was published.
pub proof fn law_fetch_awaited(
    ms: Seq<Model>,
    ops: Seq<Op>,
    key: BlockKey,
    i: u32,
    data: Seq<u8>,
)
    requires
        trace(ms, ops),
        ms[0].valid(),
        ms[0].slot_of(key) == Some(i),
        ms[0].states[i as int] == LOADING,
        ops.len() > 0,
        ops.last() == Op::Publish(i, data),
        forall|j: int|
            0 <= j < ops.len() - 1 ==> (#[trigger] ops[j] matches Op::Publish(other, _) ==> other
                != i),
    ensures
        ms.last().slot_of(key) == Some(i),
        ms.last().ready(i),
        ms.last().available(key),
        ms.last().blocks[i as int] == data,
{
    let k = ops.len() - 1;
    let before = ops.drop_last();
    assert forall|j: int| 0 <= j < before.len() implies ms.drop_last()[j].does(
        #[trigger] before[j],
        ms.drop_last()[j + 1],
    ) by {
        assert(ms[j].does(ops[j], ms[j + 1]));
    }
    assert forall|j: int| 0 <= j < before.len() implies (#[trigger] before[j] matches Op::Publish(
        other,
        _,
    ) ==> other != i) by {
        assert(ops[j] == before[j]);
    }
    law_fetch_kept(ms.drop_last(), before, key, i, k);
    assert(ms[k].does(ops[k], ms[k + 1]));
    let x = ms[k].keys.index_of(key);
    assert(ms[k].keys[x] == key);
}

/// Waiting for room ends when the last handle on some block is given back: its slot is the
/// one that makes room, and any block that is not held can be fetched at once.
pub proof fn law_room_awaited(m: Model, i: u32, key: BlockKey)
    requires
        m.valid(),
        m.target() is None,
        i < m.keys.len(),
        m.ready(i),
        m.pins[i as int] == 1,
        m.slot_of(key) is None,
    ensures
        m.releases(m.released(i), i),
        m.released(i).target() == Some(i),
        m.released(i).available(key),
{
    let n = m.released(i);
    laws::law_victim(m);
    laws::law_victim(n);
    assert(n.idle(i));
    assert(n.order.contains(i));
    let x = n.order.index_of(i);
    assert(n.order[x] == i);
    assert forall|j: int| 0 <= j < n.order.len() && n.order[j] != i implies !n.idle(
        #[trigger] n.order[j],
    ) by {
        assert(!m.idle(m.order[j]));
    }
}

/// Every block can be read and nobody reads one.
pub open spec fn quiet(m: Model) -> bool {
    forall|i: u32| i < m.keys.len() ==> #[trigger] m.idle(i)
}

/// `m` after the block `key` was asked for, fetched as `data` if it was not held, and given
/// back.
pub open spec fn served(m: Model, key: BlockKey, data: Seq<u8>) -> Model {
    match m.slot_of(key) {
        Some(i) => m.used(i).pinned(i).released(i),
        None => match m.target() {
            Some(i) => m.admitted(i, key).pinned(i).published(i, data).released(i),
            None => m,
        },
    }
}

/// The keys that are held, the most recently used first.
pub open spec fn by_recency(m: Model) -> Seq<BlockKey> {
    Seq::new(m.order.len(), |k: int| m.keys[m.order[k] as int])
}

/// `past` with `key` put in front.
pub open spec fn remembered(past: Seq<BlockKey>, key: BlockKey) -> Seq<BlockKey> {
    seq![key] + if past.contains(key) {
        past.remove(past.index_of(key))
    } else {
        past
    }
}

/// The distinct keys of `past`, which was there before, and of the requests `keys`, the most
/// recently requested first.
pub open spec fn recall(past: Seq<BlockKey>, keys: Seq<BlockKey>) -> Seq<BlockKey>
    decreases keys.len(),
{
    if keys.len() == 0 {
        past
    } else {
        remembered(recall(past, keys.drop_last()), keys.last())
    }
}

/// The first `n` entries of `s`, or all of them.
pub open spec fn newest(s: Seq<BlockKey>, n: int) -> Seq<BlockKey> {
    s.take(fault::min(s.len() as int, n))
}

/// When `key` was last requested, or a negative number.
pub open spec fn last_request(keys: Seq<BlockKey>, key: BlockKey) -> int
    decreases keys.len(),
{
    if keys.len() == 0 {
        -1
    } else if keys.last() == key {
        keys.len() - 1
    } else {
        last_request(keys.drop_last(), key)
    }
}

proof fn lemma_remembered(past: Seq<BlockKey>, key: BlockKey)
    requires
        past.no_duplicates(),
    ensures
        remembered(past, key).no_duplicates(),
        forall|x: BlockKey| #[trigger]
            remembered(past, key).contains(x) <==> x == key || past.contains(x),
        forall|p: int|
            0 <= p < past.len() && past[p] == key ==> remembered(past, key) == seq![key]
                + #[trigger] past.remove(p),
{
    let r = remembered(past, key);
    let p = past.index_of(key);
    let t = if past.contains(key) {
        past.remove(p)
    } else {
        past
    };
    assert(r == seq![key] + t);
    assert forall|k: int| 0 <= k < t.len() implies #[trigger] t[k] != key && past.contains(t[k]) by {
        if past.contains(key) {
            assert(t[k] == if k < p {
                past[k]
            } else {
                past[k + 1]
            });
        } else {
            assert(past.contains(past[k]));
        }
    }
    assert forall|a: int, b: int| 0 <= a < b < r.len() implies r[a] != r[b] by {
        assert(r[b] == t[b - 1]);
        if a > 0 {
            assert(r[a] == t[a - 1]);
            if past.contains(key) {
                let x = if a - 1 < p {
                    a - 1
                } else {
                    a
                };
                let y = if b - 1 < p {
                    b - 1
                } else {
                    b
                };
                assert(t[a - 1] == past[x] && t[b - 1] == past[y]);
            }
        }
    }
    assert forall|x: BlockKey| #[trigger] r.contains(x) <==> x == key || past.contains(x) by {
        if r.contains(x) && x != key {
            let k = r.index_of(x);
            assert(r[k] == t[k - 1]);
        }
        if x == key {
            assert(r[0] == x);
        } else if past.contains(x) {
            let k = past.index_of(x);
            if past.contains(key) {
                let y = if k < p {
                    k
                } else {
                    k - 1
                };
                assert(t[y] == x);
                assert(r[y + 1] == x);
            } else {
                assert(r[k + 1] == x);
            }
        }
    }
}

proof fn lemma_recall(past: Seq<BlockKey>, keys: Seq<BlockKey>)
    requires
        past.no_duplicates(),
    ensures
        recall(past, keys).no_duplicates(),
        forall|x: BlockKey| #[trigger]
            recall(past, keys).contains(x) <==> past.contains(x) || keys.contains(x),
    decreases keys.len(),
{
    if keys.len() > 0 {
        let rest = keys.drop_last();
        lemma_recall(past, rest);
        lemma_remembered(recall(past, rest), keys.last());
        assert forall|x: BlockKey| #[trigger] recall(past, keys).contains(x) <==> past.contains(x)
            || keys.contains(x) by {
            if rest.contains(x) {
                assert(keys[rest.index_of(x)] == x);
            }
            if keys.contains(x) && x != keys.last() {
                assert(rest[keys.index_of(x)] == x);
            }
            assert(keys[keys.len() - 1] == keys.last());
        }
    }
}

proof fn lemma_last_request(keys: Seq<BlockKey>, key: BlockKey)
    ensures
        -1 <= last_request(keys, key) < keys.len(),
    decreases keys.len(),
{
    if keys.len() > 0 {
        lemma_last_request(keys.drop_last(), key);
    }
}

/// What is recalled of requests is each requested key once, later requested ones first.
pub proof fn law_recall(keys: Seq<BlockKey>)
    ensures
        recall(Seq::empty(), keys).no_duplicates(),
        forall|x: BlockKey| #[trigger]
            recall(Seq::empty(), keys).contains(x) <==> keys.contains(x),
        forall|a: int, b: int|
            #![trigger recall(Seq::empty(), keys)[a], recall(Seq::empty(), keys)[b]]
            0 <= a < b < recall(Seq::empty(), keys).len() ==> last_request(
                keys,
                recall(Seq::empty(), keys)[a],
            ) > last_request(keys, recall(Seq::empty(), keys)[b]),
    decreases keys.len(),
{
    lemma_recall(Seq::empty(), keys);
    if keys.len() > 0 {
        let rest = keys.drop_last();
        let key = keys.last();
        law_recall(rest);
        let past = recall(Seq::empty(), rest);
        let r = recall(Seq::empty(), keys);
        let p = past.index_of(key);
        assert forall|a: int, b: int|
            #![trigger r[a], r[b]]
            0 <= a < b < r.len() implies last_request(keys, r[a]) > last_request(keys, r[b]) by {
            let x = if past.contains(key) && a - 1 >= p {
                a
            } else {
                a - 1
            };
            let y = if past.contains(key) && b - 1 >= p {
                b
            } else {
                b - 1
            };
            assert(r[b] == past[y]);
            lemma_last_request(rest, r[b]);
            assert(r[0] == key);
            assert(r[b] != key);
            if a > 0 {
                assert(r[a] == past[x]);
                assert(r[a] != key);
            }
        }
    }
}

/// The requests alone are recalled first.
proof fn lemma_recall_first(past: Seq<BlockKey>, keys: Seq<BlockKey>)
    requires
        past.no_duplicates(),
    ensures
        recall(Seq::empty(), keys).len() <= recall(past, keys).len(),
        forall|q: int|
            0 <= q < recall(Seq::empty(), keys).len() ==> #[trigger] recall(past, keys)[q]
                == recall(Seq::empty(), keys)[q],
    decreases keys.len(),
{
    if keys.len() > 0 {
        let rest = keys.drop_last();
        let key = keys.last();
        lemma_recall_first(past, rest);
        lemma_recall(past, rest);
        lemma_recall(Seq::empty(), rest);
        let r = recall(past, rest);
        let d = recall(Seq::empty(), rest);
        lemma_remembered(r, key);
        lemma_remembered(d, key);
        if d.contains(key) {
            let p = d.index_of(key);
            assert(r[p] == key);
            assert(remembered(r, key) == seq![key] + r.remove(p));
            assert(remembered(d, key) == seq![key] + d.remove(p));
        } else if r.contains(key) {
            let p = r.index_of(key);
            assert(p >= d.len()) by {
                if p < d.len() {
                    assert(d[p] == key);
                }
            }
        }
    }
}

/// What falls out of a bounded memory is not missed later.
proof fn lemma_newest(r: Seq<BlockKey>, key: BlockKey, n: int)
    requires
        r.no_duplicates(),
        0 < n,
    ensures
        newest(remembered(newest(r, n), key), n) == newest(remembered(r, key), n),
{
    let s = newest(r, n);
    assert(s.no_duplicates());
    lemma_remembered(r, key);
    lemma_remembered(s, key);
    if s.contains(key) {
        let p = s.index_of(key);
        assert(r[p] == key);
        assert(remembered(r, key) == seq![key] + r.remove(p));
        assert(remembered(s, key) == seq![key] + s.remove(p));
    } else if r.contains(key) {
        let p = r.index_of(key);
        assert(p >= s.len()) by {
            if p < s.len() {
                assert(s[p] == key);
            }
        }
    }
    assert(newest(remembered(s, key), n) =~= newest(remembered(r, key), n));
}

proof fn lemma_by_recency(m: Model)
    requires
        m.valid(),
    ensures
        by_recency(m).no_duplicates(),
        forall|x: BlockKey| #[trigger] by_recency(m).contains(x) <==> m.slot_of(x) is Some,
{
    let r = by_recency(m);
    assert forall|a: int, b: int| 0 <= a < b < r.len() implies r[a] != r[b] by {
        assert(m.order[a] != m.order[b]);
    }
    assert forall|x: BlockKey| #[trigger] r.contains(x) <==> m.slot_of(x) is Some by {
        if r.contains(x) {
            assert(m.keys[m.order[r.index_of(x)] as int] == x);
        }
        if m.keys.contains(x) {
            let i = m.keys.index_of(x) as u32;
            assert(m.order.contains(i));
            assert(r[m.order.index_of(i)] == x);
        }
    }
}

/// Serving one request puts its key in front of those that are held, and the one that was
/// requested least recently makes room if need be.
pub proof fn law_served(m: Model, key: BlockKey, data: Seq<u8>)
    requires
        m.valid(),
        quiet(m),
    ensures
        served(m, key, data).valid(),
        quiet(served(m, key, data)),
        served(m, key, data).states.len() == m.states.len(),
        by_recency(served(m, key, data)) == newest(
            remembered(by_recency(m), key),
            m.states.len() as int,
        ),
{
    let n = served(m, key, data);
    let r = by_recency(m);
    lemma_by_recency(m);
    lemma_remembered(r, key);
    match m.slot_of(key) {
        Some(i) => {
            assert(m.keys[m.keys.index_of(key)] == key);
            assert(m.order.contains(i));
            let p = m.order.index_of(i);
            laws::law_release(m.used(i), i);
            laws::lemma_used_valid(m, i);
            links::lemma_without(m.order, i, p);
            assert(n == m.used(i));
            assert(r[p] == key);
            assert(remembered(r, key) == seq![key] + r.remove(p));
            assert(by_recency(n) =~= seq![key] + r.remove(p));
            assert forall|j: u32| j < n.keys.len() implies #[trigger] n.idle(j) by {
                assert(m.idle(j));
            }
        },
        None => {
            assert(!r.contains(key));
            if m.keys.len() == m.states.len() {
                let last = m.order.len() - 1;
                assert(m.idle(m.order[last]));
                assert(m.victim() == Some(m.order[last]));
            }
            let i = m.target()->0;
            laws::lemma_target(m, i);
            laws::law_read_back(m, key, i, data);
            assert(n.valid());
            assert forall|j: u32| j < n.keys.len() implies #[trigger] n.idle(j) by {
                if j != i {
                    assert(m.idle(j));
                }
            }
            if i < m.keys.len() {
                let last = m.order.len() - 1;
                links::lemma_without(m.order, i, last);
            }
            assert(by_recency(n) =~= newest(remembered(r, key), m.states.len() as int));
        },
    }
}

/// A cache went through the states `ms` by serving requests for `keys` one after the other,
/// each given back before the next; `datas` is what was fetched where something was.
pub open spec fn session(ms: Seq<Model>, keys: Seq<BlockKey>, datas: Seq<Seq<u8>>) -> bool {
    &&& ms.len() == keys.len() + 1
    &&& datas.len() == keys.len()
    &&& forall|k: int|
        0 <= k < keys.len() ==> ms[k + 1] == served(ms[k], #[trigger] keys[k], datas[k])
}

/// Over any number of requests a cache holds what was requested most recently, as much of
/// it as it has slots.
pub proof fn law_session(ms: Seq<Model>, keys: Seq<BlockKey>, datas: Seq<Seq<u8>>, k: int)
    requires
        session(ms, keys, datas),
        ms[0].valid(),
        quiet(ms[0]),
        0 <= k <= keys.len(),
    ensures
        ms[k].valid(),
        quiet(ms[k]),
        ms[k].states.len() == ms[0].states.len(),
        by_recency(ms[k]) == newest(
            recall(by_recency(ms[0]), keys.take(k)),
            ms[0].states.len() as int,
        ),
        forall|key: BlockKey| #[trigger]
            ms[k].slot_of(key) is Some <==> newest(
                recall(by_recency(ms[0]), keys.take(k)),
                ms[0].states.len() as int,
            ).contains(key),
    decreases k,
{
    let r = by_recency(ms[0]);
    let n = ms[0].states.len() as int;
    lemma_by_recency(ms[0]);
    if k == 0 {
        assert(recall(r, keys.take(0)) == r);
        assert(newest(r, n) =~= r);
    } else {
        law_session(ms, keys, datas, k - 1);
        assert(keys.take(k).drop_last() =~= keys.take(k - 1));
        assert(keys.take(k).last() == keys[k - 1]);
        assert(ms[k - 1 + 1] == served(ms[k - 1], keys[k - 1], datas[k - 1]));
        law_served(ms[k - 1], keys[k - 1], datas[k - 1]);
        lemma_recall(r, keys.take(k - 1));
        lemma_newest(recall(r, keys.take(k - 1)), keys[k - 1], n);
        lemma_by_recency(ms[k]);
    }
}

/// A cache that starts empty holds, after any number of requests, exactly the most recently
/// requested distinct keys, as many as it has slots; and a request is answered by a fetch
/// exactly if its key is not one of them.
pub proof fn law_least_recent_goes(
    ms: Seq<Model>,
    keys: Seq<BlockKey>,
    datas: Seq<Seq<u8>>,
    k: int,
)
    requires
        session(ms, keys, datas),
        ms[0].valid(),
        ms[0].keys.len() == 0,
        0 <= k <= keys.len(),
    ensures
        forall|key: BlockKey| #[trigger]
            ms[k].slot_of(key) is Some <==> newest(
                recall(Seq::empty(), keys.take(k)),
                ms[0].states.len() as int,
            ).contains(key),
        ms[k].keys.len() == fault::min(
            recall(Seq::empty(), keys.take(k)).len() as int,
            ms[0].states.len() as int,
        ),
        k < keys.len() ==> (ms[k].slot_of(keys[k]) is None <==> !newest(
            recall(Seq::empty(), keys.take(k)),
            ms[0].states.len() as int,
        ).contains(keys[k])),
{
    assert(by_recency(ms[0]) =~= Seq::empty());
    law_session(ms, keys, datas, k);
    assert(by_recency(ms[k]).len() == ms[k].keys.len());
}

/// The blocks that the faults `plans` ask for, of the object `digest`.
pub open spec fn asked(plans: Seq<FaultPlan>, digest: Md5Digest) -> Seq<BlockKey> {
    Seq::new(plans.len(), |k: int| BlockKey { digest, block: plans[k].block_number })
}

/// The plans answer faults at `pages` of the object mapped at `range`.
pub open spec fn answered(
    plans: Seq<FaultPlan>,
    pages: Seq<usize>,
    range: PtrRange,
    block_size: usize,
) -> bool {
    &&& plans.len() == pages.len()
    &&& forall|k: int|
        0 <= k < plans.len() ==> (#[trigger] plans[k]).answers(range, pages[k], block_size as int)
            && range.spec_contains(pages[k])
}

/// Fault number `k` is answered by a download.
pub open spec fn downloads(
    ms: Seq<Model>,
    plans: Seq<FaultPlan>,
    digest: Md5Digest,
    k: int,
) -> bool {
    ms[k].slot_of(asked(plans, digest)[k]) is None
}

/// The page of byte `x` of the object mapped at `range` is one of `pages`.
pub open spec fn touched(pages: Seq<usize>, range: PtrRange, x: int) -> bool {
    pages.contains(fault::page_of((range.0 + x) as usize))
}

/// A download brought byte `x` of the object.
pub open spec fn brought(
    ms: Seq<Model>,
    plans: Seq<FaultPlan>,
    digest: Md5Digest,
    x: int,
) -> bool {
    exists|k: int|
        0 <= k < plans.len() && #[trigger] downloads(ms, plans, digest, k) && plans[k].start <= x
            < plans[k].end
}

proof fn lemma_distinct_blocks(s: Seq<BlockKey>, digest: Md5Digest, n: int)
    requires
        s.no_duplicates(),
        0 <= n <= NIL,
        forall|k: int| 0 <= k < s.len() ==> (#[trigger] s[k]).digest == digest && s[k].block < n,
    ensures
        s.len() <= n,
{
    let t = Seq::new(s.len(), |k: int| s[k].block as u32);
    assert forall|a: int, b: int| 0 <= a < b < t.len() implies t[a] != t[b] by {
        assert(s[a] != s[b]);
        assert(s[a].digest == digest && s[b].digest == digest);
    }
    assert forall|k: int| 0 <= k < t.len() implies (#[trigger] t[k]) < n by {
        assert(s[k].block < n);
    }
    links::lemma_distinct_len(t, n);
}

/// Of an object that fits in the cache, and that nothing is held of, each block is downloaded
/// exactly at the first fault that it answers, and never again.
pub proof fn law_downloaded_once(
    ms: Seq<Model>,
    plans: Seq<FaultPlan>,
    pages: Seq<usize>,
    datas: Seq<Seq<u8>>,
    range: PtrRange,
    digest: Md5Digest,
    block_size: usize,
    k: int,
)
    requires
        0 < block_size,
        answered(plans, pages, range, block_size),
        session(ms, asked(plans, digest), datas),
        ms[0].valid(),
        quiet(ms[0]),
        forall|j: int| 0 <= j < ms[0].keys.len() ==> (#[trigger] ms[0].keys[j]).digest != digest,
        range.1 - range.0 <= ms[0].states.len() * block_size,
        0 <= k < plans.len(),
    ensures
        downloads(ms, plans, digest, k) <==> forall|j: int|
            0 <= j < k ==> #[trigger] plans[j] != plans[k],
{
    let keys = asked(plans, digest);
    let key = keys[k];
    let h = keys.take(k);
    let past = by_recency(ms[0]);
    let n = ms[0].states.len() as int;
    let size = block_size as int;
    law_session(ms, keys, datas, k);
    lemma_by_recency(ms[0]);
    lemma_recall(past, h);
    lemma_recall(Seq::empty(), h);
    lemma_recall_first(past, h);
    let r = recall(past, h);
    let d = recall(Seq::empty(), h);
    assert forall|q: int| 0 <= q < d.len() implies (#[trigger] d[q]).digest == digest && d[q].block
        < n by {
        assert(d.contains(d[q]));
        assert(h.contains(d[q]));
        let j = h.index_of(d[q]);
        assert(keys[j] == d[q]);
        laws::law_fault_block(range, pages[j], block_size, plans[j]);
        let b = plans[j].block_number as int;
        assert(b < n) by (nonlinear_arith)
            requires
                b * size < n * size,
                0 < size,
        ;
    }
    lemma_distinct_blocks(d, digest, n);
    assert(!past.contains(key)) by {
        if past.contains(key) {
            assert(ms[0].keys.contains(key));
            assert(ms[0].keys[ms[0].keys.index_of(key)].digest == digest);
        }
    }
    if h.contains(key) {
        let j = h.index_of(key);
        assert(keys[j] == key);
        assert(plans[j].answers(range, pages[j], size) && plans[k].answers(range, pages[k], size));
        assert(plans[j] == plans[k]);
        assert(d.contains(key));
        let q = d.index_of(key);
        assert(r[q] == key);
        assert(newest(r, n)[q] == key);
        assert(newest(r, n).contains(key));
    } else {
        assert(!newest(r, n).contains(key)) by {
            if newest(r, n).contains(key) {
                let q = newest(r, n).index_of(key);
                assert(r[q] == key);
                assert(r.contains(key));
            }
        }
        assert forall|j: int| 0 <= j < k implies #[trigger] plans[j] != plans[k] by {
            assert(h[j] == keys[j]);
            if plans[j] == plans[k] {
                assert(h.contains(key));
            }
        }
    }
}

/// When every page of such an object was touched, in whatever order and however often, the
/// downloads brought each byte of it exactly once, and no more than a block at a time.
pub proof fn law_downloaded_whole(
    ms: Seq<Model>,
    plans: Seq<FaultPlan>,
    pages: Seq<usize>,
    datas: Seq<Seq<u8>>,
    range: PtrRange,
    digest: Md5Digest,
    block_size: usize,
)
    requires
        0 < block_size,
        block_size % PAGE_SIZE == 0,
        range.0 % PAGE_SIZE == 0,
        answered(plans, pages, range, block_size),
        session(ms, asked(plans, digest), datas),
        ms[0].valid(),
        quiet(ms[0]),
        forall|j: int| 0 <= j < ms[0].keys.len() ==> (#[trigger] ms[0].keys[j]).digest != digest,
        range.1 - range.0 <= ms[0].states.len() * block_size,
        forall|x: int| 0 <= x < range.1 - range.0 ==> #[trigger] touched(pages, range, x),
    ensures
        forall|k: int|
            0 <= k < plans.len() ==> (#[trigger] plans[k]).start < plans[k].end <= range.1 - range.0
                && plans[k].end - plans[k].start <= block_size,
        forall|j: int, k: int|
            #![trigger downloads(ms, plans, digest, j), downloads(ms, plans, digest, k)]
            0 <= j < k < plans.len() && downloads(ms, plans, digest, j) && downloads(
                ms,
                plans,
                digest,
                k,
            ) ==> plans[j].end <= plans[k].start || plans[k].end <= plans[j].start,
        forall|x: int|
            0 <= x < range.1 - range.0 ==> #[trigger] brought(ms, plans, digest, x),
{
    let size = block_size as int;
    assert forall|k: int| 0 <= k < plans.len() implies (#[trigger] plans[k]).start < plans[k].end
        <= range.1 - range.0 && plans[k].end - plans[k].start <= block_size by {
        laws::law_fault_block(range, pages[k], block_size, plans[k]);
    }
    assert forall|j: int, k: int|
        #![trigger downloads(ms, plans, digest, j), downloads(ms, plans, digest, k)]
        0 <= j < k < plans.len() && downloads(ms, plans, digest, j) && downloads(
            ms,
            plans,
            digest,
            k,
        ) implies plans[j].end <= plans[k].start || plans[k].end <= plans[j].start by {
        law_downloaded_once(ms, plans, pages, datas, range, digest, block_size, k);
        assert(plans[j] != plans[k]);
        laws::law_fault_tiles(range, pages[j], pages[k], block_size, plans[j], plans[k]);
    }
    assert forall|x: int| 0 <= x < range.1 - range.0 implies #[trigger] brought(
        ms,
        plans,
        digest,
        x,
    ) by {
        let page = fault::page_of((range.0 + x) as usize);
        assert(touched(pages, range, x));
        let k = pages.index_of(page);
        assert(plans[k].answers(range, pages[k], size));
        laws::law_fault_byte(range, block_size, plans[k], x);
        let f = lemma_first(plans, k);
        law_downloaded_once(ms, plans, pages, datas, range, digest, block_size, f);
        assert(downloads(ms, plans, digest, f));
    }
}

/// The first entry that is the same as entry `k`.
proof fn lemma_first(plans: Seq<FaultPlan>, k: int) -> (f: int)
    requires
        0 <= k < plans.len(),
    ensures
        0 <= f <= k,
        plans[f] == plans[k],
        forall|j: int| 0 <= j < f ==> #[trigger] plans[j] != plans[f],
    decreases k,
{
    if exists|j: int| 0 <= j < k && #[trigger] plans[j] == plans[k] {
        let j = choose|j: int| 0 <= j < k && #[trigger] plans[j] == plans[k];
        lemma_first(plans, j)
    } else {
        k
    }
}

/// Operation `op` on `m` is a request for the block `key` that was not in vain.
pub open spec fn asks(m: Model, op: Op, key: BlockKey) -> bool {
    match op {
        Op::Hit(i) => m.slot_of(key) == Some(i),
        Op::Admit(_, other) => other == key,
        _ => false,
    }
}

/// Operation `op` makes room for the block `key`, which is then to be downloaded.
pub open spec fn makes_room(op: Op, key: BlockKey) -> bool {
    op matches Op::Admit(_, other) && other == key
}

/// What is held was held from the start, or room was made for it since.
proof fn lemma_origin(ms: Seq<Model>, ops: Seq<Op>, key: BlockKey, k: int)
    requires
        trace(ms, ops),
        0 <= k <= ops.len(),
        ms[k].keys.contains(key),
        !ms[0].keys.contains(key),
    ensures
        exists|q: int| 0 <= q < k && makes_room(#[trigger] ops[q], key),
    decreases k,
{
    let m = ms[k - 1];
    assert(m.does(ops[k - 1], ms[k - 1 + 1]));
    if m.keys.contains(key) {
        lemma_origin(ms, ops, key, k - 1);
        let q = choose|q: int|
            0 <= q < k - 1 && makes_room(#[trigger] ops[q], key);
        assert(makes_room(ops[q], key));
    } else {
        let x = ms[k].keys.index_of(key);
        assert(ms[k].keys[x] == key);
        if let Op::Admit(i, other) = ops[k - 1] {
            if other != key {
                assert(m.keys[x] == key);
            }
        } else {
            assert(ms[k].keys == m.keys);
        }
    }
}

/// Byte `x` of the object mapped at `range` lies in a page that one of the faults `plans`
/// mapped.
pub open spec fn mapped(plans: Seq<FaultPlan>, range: PtrRange, x: int) -> bool {
    let page = fault::page_of((range.0 + x) as usize);
    exists|k: int|
        0 <= k < plans.len() && (#[trigger] plans[k]).dst <= page < plans[k].dst + plans[k].remap
}

/// The faults `plans` of one mapping of the object `digest` were answered by the operations
/// at the places `at` of a trace. What is mapped does not fault again, so that they ask for
/// different blocks; anything else may have been done in between, except that nothing of the
/// object was fetched otherwise.
pub open spec fn faulted_in(
    ms: Seq<Model>,
    ops: Seq<Op>,
    plans: Seq<FaultPlan>,
    pages: Seq<usize>,
    at: Seq<int>,
    range: PtrRange,
    digest: Md5Digest,
    block_size: usize,
) -> bool {
    &&& trace(ms, ops)
    &&& answered(plans, pages, range, block_size)
    &&& plans.no_duplicates()
    &&& at.len() == plans.len()
    &&& forall|k: int|
        0 <= k < at.len() ==> 0 <= #[trigger] at[k] < ops.len() && asks(
            ms[at[k]],
            ops[at[k]],
            asked(plans, digest)[k],
        )
    &&& forall|q: int|
        0 <= q < ops.len() ==> (#[trigger] ops[q] matches Op::Admit(_, key) ==> key.digest == digest
            ==> at.contains(q))
}

/// While an object is mapped that nothing was held of, each of its faults is answered by a
/// download of its own; once all of its pages are mapped, the downloads brought each byte of
/// it exactly once, and no more than a block at a time. It does not matter how large the
/// cache is, what it holds, and what else it is used for meanwhile.
pub proof fn law_mapping_downloaded(
    ms: Seq<Model>,
    ops: Seq<Op>,
    plans: Seq<FaultPlan>,
    pages: Seq<usize>,
    at: Seq<int>,
    range: PtrRange,
    digest: Md5Digest,
    block_size: usize,
)
    requires
        0 < block_size,
        block_size % PAGE_SIZE == 0,
        range.0 % PAGE_SIZE == 0,
        faulted_in(ms, ops, plans, pages, at, range, digest, block_size),
        forall|j: int| 0 <= j < ms[0].keys.len() ==> (#[trigger] ms[0].keys[j]).digest != digest,
    ensures
        forall|k: int|
            0 <= k < plans.len() ==> makes_room(ops[#[trigger] at[k]], asked(plans, digest)[k]),
        forall|k: int|
            0 <= k < plans.len() ==> (#[trigger] plans[k]).start < plans[k].end <= range.1 - range.0
                && plans[k].end - plans[k].start <= block_size,
        forall|j: int, k: int|
            #![trigger plans[j], plans[k]]
            0 <= j < k < plans.len() ==> plans[j].end <= plans[k].start || plans[k].end
                <= plans[j].start,
        forall|x: int|
            #![trigger mapped(plans, range, x)]
            0 <= x < range.1 - range.0 && mapped(plans, range, x) ==> exists|k: int|
                0 <= k < plans.len() && (#[trigger] plans[k]).start <= x < plans[k].end,
{
    let size = block_size as int;
    let keys = asked(plans, digest);
    assert forall|k: int| 0 <= k < plans.len() implies makes_room(
        ops[#[trigger] at[k]],
        keys[k],
    ) by {
        let p = at[k];
        let m = ms[p];
        let key = keys[k];
        assert(asks(m, ops[p], key));
        if m.keys.contains(key) {
            if ms[0].keys.contains(key) {
                assert(ms[0].keys[ms[0].keys.index_of(key)].digest == digest);
            }
            lemma_origin(ms, ops, key, p);
            let q = choose|q: int|
                0 <= q < p && makes_room(#[trigger] ops[q], key);
            assert(makes_room(ops[q], key));
            assert(at.contains(q));
            let j = at.index_of(q);
            assert(at[j] == q);
            assert(asks(ms[at[j]], ops[at[j]], keys[j]));
            assert(keys[j] == key);
            assert(plans[j].answers(range, pages[j], size) && plans[k].answers(
                range,
                pages[k],
                size,
            ));
            assert(plans[j] == plans[k]);
        }
    }
    assert forall|k: int| 0 <= k < plans.len() implies (#[trigger] plans[k]).start < plans[k].end
        <= range.1 - range.0 && plans[k].end - plans[k].start <= block_size by {
        laws::law_fault_block(range, pages[k], block_size, plans[k]);
    }
    assert forall|j: int, k: int|
        #![trigger plans[j], plans[k]]
        0 <= j < k < plans.len() implies plans[j].end <= plans[k].start || plans[k].end
        <= plans[j].start by {
        laws::law_fault_tiles(range, pages[j], pages[k], block_size, plans[j], plans[k]);
    }
    assert forall|x: int|
        #![trigger mapped(plans, range, x)]
        0 <= x < range.1 - range.0 && mapped(plans, range, x) implies exists|k: int|
        0 <= k < plans.len() && (#[trigger] plans[k]).start <= x < plans[k].end by {
        let addr = (range.0 + x) as usize;
        let page = fault::page_of(addr);
        let k = choose|k: int|
            0 <= k < plans.len() && (#[trigger] plans[k]).dst <= page < plans[k].dst
                + plans[k].remap;
        let p = plans[k];
        assert(p.answers(range, pages[k], size));
        let b = p.block_number as int;
        let per = size / (PAGE_SIZE as int);
        assert(b * size == (b * per) * (PAGE_SIZE as int)) by (nonlinear_arith)
            requires
                size == per * PAGE_SIZE,
        ;
        assert(p.start <= x < p.end);
    }
}

/// Slots never used have no handles out.
pub open spec fn spare(m: Model) -> bool {
    forall|i: int| m.keys.len() <= i < m.pins.len() ==> #[trigger] m.pins[i] == 0
}

/// An empty cache is valid and quiet, no handles are out, and it holds nothing of any object.
pub proof fn law_vacant(
    slots: int,
    blocks: Seq<Seq<u8>>,
    objects: Map<Md5Digest, Seq<u8>>,
    block_size: int,
)
    requires
        0 < slots < NIL,
        blocks.len() == slots,
    ensures
        slots::vacant(slots, blocks).valid(),
        quiet(slots::vacant(slots, blocks)),
        spare(slots::vacant(slots, blocks)),
        laws::coherent(slots::vacant(slots, blocks), objects, block_size),
{
}

/// Slots never used have no handles out, whatever is done and however often.
pub proof fn law_spare(ms: Seq<Model>, ops: Seq<Op>, k: int)
    requires
        trace(ms, ops),
        ms[0].valid(),
        spare(ms[0]),
        0 <= k <= ops.len(),
    ensures
        spare(ms[k]),
    decreases k,
{
    if k > 0 {
        law_spare(ms, ops, k - 1);
        law_trace(ms, ops, k - 1);
        let m = ms[k - 1];
        let n = ms[k];
        assert(m.does(ops[k - 1], ms[k - 1 + 1]));
        if let Op::Admit(i, _) = ops[k - 1] {
            laws::lemma_target(m, i);
        }
        assert forall|i: int| n.keys.len() <= i < n.pins.len() implies #[trigger] n.pins[i] == 0 by {
            assert(m.pins[i] == 0);
        }
    }
}

/// A request that was served and given back leaves every count of handles as it was, whether
/// its block was held or fetched; so does a fault, once it is answered.
pub proof fn law_pins_restored(m: Model, key: BlockKey, data: Seq<u8>)
    requires
        m.valid(),
        spare(m),
        m.available(key),
    ensures
        served(m, key, data).pins == m.pins,
{
    match m.slot_of(key) {
        Some(i) => {
            assert(m.keys[m.keys.index_of(key)] == key);
            laws::law_release(m.used(i), i);
        },
        None => {
            let i = m.target()->0;
            laws::lemma_target(m, i);
            laws::law_victim(m);
            assert(m.pins[i as int] == 0);
            assert(served(m, key, data).pins =~= m.pins);
        },
    }
}

/// While one block is being fetched another one can be fetched and given back, if there is
/// room for both; in the end both are held.
pub proof fn law_fetches_overlap(
    m: Model,
    first: BlockKey,
    second: BlockKey,
    i: u32,
    first_data: Seq<u8>,
    second_data: Seq<u8>,
)
    requires
        m.valid(),
        first != second,
        m.slot_of(first) is None,
        m.slot_of(second) is None,
        m.target() == Some(i),
        m.keys.len() + 1 < m.states.len() || exists|j: u32|
            j < m.keys.len() && j != i && #[trigger] m.idle(j),
    ensures
        ({
            let mid = m.admitted(i, first).pinned(i);
            let n = served(mid, second, second_data).published(i, first_data);
            &&& mid.slot_of(second) is None
            &&& mid.target() matches Some(j) && j != i && {
                &&& n.valid()
                &&& n.slot_of(first) == Some(i)
                &&& n.slot_of(second) == Some(j)
                &&& n.ready(i)
                &&& n.ready(j)
                &&& n.blocks[i as int] == first_data
                &&& n.blocks[j as int] == second_data
            }
        }),
{
    let mid = m.admitted(i, first).pinned(i);
    laws::lemma_target(m, i);
    laws::law_fetch(m, first, i, first_data);
    laws::law_step(m, mid);
    assert(mid.keys[i as int] == first);
    assert(!mid.keys.contains(second)) by {
        if mid.keys.contains(second) {
            let x = mid.keys.index_of(second);
            assert(mid.keys[x] == second);
            assert(m.keys[x] == second);
            assert(m.keys.contains(second));
        }
    }
    laws::law_victim(mid);
    laws::law_busy_stays(mid, i);
    if m.keys.len() + 1 >= m.states.len() {
        let j = choose|j: u32| j < m.keys.len() && j != i && #[trigger] m.idle(j);
        assert(mid.idle(j));
        assert(mid.order.contains(j));
        let x = mid.order.index_of(j);
        assert(mid.order[x] == j);
    }
    let j = mid.target()->0;
    laws::lemma_target(mid, j);
    laws::law_read_back(mid, second, j, second_data);
    let filled = mid.admitted(j, second).pinned(j).published(j, second_data);
    assert(mid.keys[i as int] == first);
    assert(filled.slot_of(first) == Some(i));
    let n = served(mid, second, second_data).published(i, first_data);
    assert(n.keys == filled.keys);
    assert(n.order == filled.order);
}

/// Every download of a trace brought the block that its slot was given to.
pub open spec fn faithful(
    ms: Seq<Model>,
    ops: Seq<Op>,
    objects: Map<Md5Digest, Seq<u8>>,
    block_size: int,
) -> bool {
    forall|k: int|
        0 <= k < ops.len() ==> (#[trigger] ops[k] matches Op::Publish(i, data) ==> data
            == laws::image(
            objects[ms[k].keys[i as int].digest],
            ms[k].keys[i as int].block as int,
            block_size,
        ))
}

/// As long as every download brings what was asked for, every block that can be read is the
/// one that its key names, whatever is done and however often.
pub proof fn law_stays_coherent(
    ms: Seq<Model>,
    ops: Seq<Op>,
    objects: Map<Md5Digest, Seq<u8>>,
    block_size: int,
    k: int,
)
    requires
        trace(ms, ops),
        ms[0].valid(),
        laws::coherent(ms[0], objects, block_size),
        faithful(ms, ops, objects, block_size),
        0 <= k <= ops.len(),
    ensures
        laws::coherent(ms[k], objects, block_size),
    decreases k,
{
    if k > 0 {
        law_stays_coherent(ms, ops, objects, block_size, k - 1);
        law_trace(ms, ops, k - 1);
        let m = ms[k - 1];
        let n = ms[k];
        let op = ops[k - 1];
        assert(m.does(op, ms[k - 1 + 1]));
        law_op(m, n);
        assert forall|i: u32, data: Seq<u8>| #[trigger] m.publishes(n, i, data) implies data
            == laws::image(
            objects[m.keys[i as int].digest],
            m.keys[i as int].block as int,
            block_size,
        ) by {
            assert(n.states[i as int] == READY);
            assert(n.blocks[i as int] == data);
            if let Op::Admit(j, _) = op {
                laws::lemma_target(m, j);
            }
            if let Op::Publish(j, d) = op {
                assert(n.states == m.states.update(j as int, READY));
                assert(j == i);
                assert(d == data);
            } else {
                assert(n.states[i as int] != READY);
            }
        }
        laws::law_coherent(m, n, objects, block_size);
    }
}

/// From the registration of an object to a read: however the cache was used in between, as
/// long as every download brought what was asked for, a fault in the object finds it, and the
/// block that is mapped for it shows the byte of the object at the faulting address.
pub proof fn law_reads_object<Req, Cb>(
    ms: Seq<Model>,
    ops: Seq<Op>,
    objects: Map<Md5Digest, Seq<u8>>,
    known: Map<PtrRange, Arc<ReqData<Req, Cb>>>,
    range: PtrRange,
    req: Arc<ReqData<Req, Cb>>,
    block_size: usize,
    plan: FaultPlan,
    i: u32,
    addr: usize,
)
    requires
        trace(ms, ops),
        ms[0].valid(),
        laws::coherent(ms[0], objects, block_size as int),
        faithful(ms, ops, objects, block_size as int),
        forall|a: PtrRange| #[trigger]
            known.contains_key(a) && a != range ==> a.0 <= a.1 && (a.1 <= range.0 || range.1
                <= a.0),
        objects[req.md5_digest].len() == range.1 - range.0,
        range.0 % PAGE_SIZE == 0,
        0 < block_size,
        block_size % PAGE_SIZE == 0,
        range.spec_contains(addr),
        plan.answers(range, fault::page_of(addr), block_size as int),
        ms.last().slot_of(
            disk::block_key(*req, range, fault::page_of(addr), block_size as int),
        ) == Some(i),
        ms.last().ready(i),
    ensures
        requests::located(known.insert(range, req), fault::page_of(addr)) == Some(range),
        known.insert(range, req)[range] == req,
        plan.dst <= addr < plan.dst + plan.remap,
        ms.last().blocks[i as int][addr - plan.dst] == objects[req.md5_digest][addr - range.0],
{
    let page = fault::page_of(addr);
    let all = known.insert(range, req);
    let last = ops.len() as int;
    law_stays_coherent(ms, ops, objects, block_size as int, last);
    law_trace(ms, ops, last);
    laws::law_fault_byte(range, block_size, plan, addr - range.0);
    assert(all.contains_key(range));
    laws::law_located(all, page, range);
    laws::law_fault_covers(range, page, block_size, plan, addr);
    laws::law_read_through(
        ms[last],
        objects,
        &*req,
        range,
        page,
        block_size,
        plan,
        i,
        addr,
    );
}

/// The first touch of an object: the block is fetched, as the bytes that the fault asks for,
/// and what is then mapped shows the byte of the object at the faulting address.
pub proof fn law_first_touch<Req, Cb>(
    m: Model,
    objects: Map<Md5Digest, Seq<u8>>,
    range: PtrRange,
    req: ReqData<Req, Cb>,
    block_size: usize,
    plan: FaultPlan,
    i: u32,
    addr: usize,
)
    requires
        m.valid(),
        laws::coherent(m, objects, block_size as int),
        objects[req.md5_digest].len() == range.1 - range.0,
        range.0 % PAGE_SIZE == 0,
        0 < block_size,
        block_size % PAGE_SIZE == 0,
        range.spec_contains(addr),
        plan.answers(range, fault::page_of(addr), block_size as int),
        m.slot_of(disk::block_key(req, range, fault::page_of(addr), block_size as int)) is None,
        m.target() == Some(i),
    ensures
        ({
            let key = disk::block_key(req, range, fault::page_of(addr), block_size as int);
            let bytes = objects[req.md5_digest].subrange(plan.start as int, plan.end as int);
            let data = region::padded(bytes, block_size as int);
            let n = m.admitted(i, key).pinned(i).published(i, data);
            &&& laws::coherent(n, objects, block_size as int)
            &&& plan.dst <= addr < plan.dst + plan.remap
            &&& n.blocks[i as int][addr - plan.dst] == objects[req.md5_digest][addr - range.0]
        }),
{
    let page = fault::page_of(addr);
    let size = block_size as int;
    let key = disk::block_key(req, range, page, size);
    let object = objects[req.md5_digest];
    let data = region::padded(object.subrange(plan.start as int, plan.end as int), size);
    let mid = m.admitted(i, key).pinned(i);
    let n = mid.published(i, data);
    laws::lemma_target(m, i);
    laws::law_fetch(m, key, i, data);
    laws::law_fault_byte(range, block_size, plan, addr - range.0);
    laws::law_fault_covers(range, page, block_size, plan, addr);
    laws::law_brought(range, page, block_size, plan, object);
    laws::law_read_back(m, key, i, data);
    let ms = seq![m, mid, n];
    let ops = seq![Op::Admit(i, key), Op::Publish(i, data)];
    assert(mid.keys[i as int] == key);
    assert(m.does(ops[0], ms[1]));
    assert(mid.does(ops[1], ms[2]));
    assert(trace(ms, ops));
    assert(faithful(ms, ops, objects, size));
    law_stays_coherent(ms, ops, objects, size, 2);
    laws::law_read_through(n, objects, &req, range, page, block_size, plan, i, addr);
}

} // verus!
