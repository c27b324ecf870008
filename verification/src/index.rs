//! The index of a cache: its recency list, its hash chains, and the slots never used.
use vstd::prelude::*;

use crate::key::BlockKey;
use crate::layout;
use crate::layout::NIL;
use crate::links;
use crate::model::Model;
use crate::region::{Cache, Header, Node, Store};
use crate::slots::{LOADING, READY};

verus! {

/// The links from each slot towards the least recently used one.
pub open spec fn nexts(st: Store) -> Seq<u32> {
    Seq::new(st.nodes.len(), |i: int| st.nodes[i].next)
}

/// The links from each slot to the next one of its bucket.
pub open spec fn chains(st: Store) -> Seq<u32> {
    Seq::new(st.nodes.len(), |i: int| st.nodes[i].chain)
}

/// The slots by recency of use, the most recently used first.
pub open spec fn order(st: Store) -> Seq<u32> {
    links::walk(nexts(st), st.hdr.head, st.nodes.len())
}

/// The slots of hash bucket `b`.
pub open spec fn bucket_list(st: Store, b: int) -> Seq<u32> {
    links::walk(chains(st), st.buckets[b], st.nodes.len())
}

/// The recency list is doubly linked from head to tail and visits the slots `s`.
pub open spec fn listed(st: Store, s: Seq<u32>) -> bool {
    &&& links::path(nexts(st), st.hdr.head, s)
    &&& st.hdr.tail == links::or_nil(s, s.len() - 1)
    &&& forall|k: int|
        0 <= k < s.len() ==> st.nodes[(#[trigger] s[k]) as int].prev == links::or_nil(s, k - 1)
}

/// `new` differs from `old` at most in the ends of the recency list and in the links
/// of the slots `s`.
pub open spec fn relinked(new: Store, old: Store, s: Seq<u32>) -> bool {
    &&& new.hdr == Header { head: new.hdr.head, tail: new.hdr.tail, ..old.hdr }
    &&& new.buckets == old.buckets
    &&& new.states == old.states
    &&& new.pins == old.pins
    &&& new.blocks == old.blocks
    &&& new.nodes.len() == old.nodes.len()
    &&& forall|j: int|
        0 <= j < new.nodes.len() ==> (#[trigger] new.nodes[j]).key == old.nodes[j].key
            && new.nodes[j].chain == old.nodes[j].chain
    &&& forall|j: int|
        0 <= j < new.nodes.len() && !s.contains(j as u32) ==> #[trigger] new.nodes[j]
            == old.nodes[j]
}

pub proof fn lemma_order(st: Store, s: Seq<u32>)
    requires
        listed(st, s),
        st.nodes.len() <= NIL,
    ensures
        order(st) == s,
{
    links::lemma_walk(nexts(st), st.hdr.head, s);
}

/// The slot number `i`, or `NIL` if the region has no slot of that number.
pub open spec fn slot_or_nil(i: int, slots: int) -> u32 {
    if i < slots {
        i as u32
    } else {
        NIL
    }
}

/// Slot `i` is one of the `used` slots in use, and not the one that `hole` names.
pub open spec fn holds(i: int, used: int, hole: Option<u32>) -> bool {
    0 <= i < used && hole != Some(i as u32)
}

/// The slots never used are linked in ascending order.
pub open spec fn free_listed(st: Store) -> bool {
    let n = st.nodes.len() as int;
    let used = st.hdr.len as int;
    &&& 0 < n < NIL
    &&& used <= n
    &&& st.hdr.free == slot_or_nil(used, n)
    &&& forall|i: int|
        used <= i < n ==> (#[trigger] st.nodes[i]).next == slot_or_nil(i + 1, n)
}

/// The recency list visits each slot in use once, except the slot that `hole` names,
/// and the slots never used are linked in ascending order.
pub open spec fn ordered(st: Store, hole: Option<u32>) -> bool {
    let used = st.hdr.len as int;
    &&& free_listed(st)
    &&& listed(st, order(st))
    &&& forall|k: int| 0 <= k < order(st).len() ==> holds((#[trigger] order(st)[k]) as int, used, hole)
    &&& forall|i: u32| holds(i as int, used, hole) ==> #[trigger] order(st).contains(i)
}

/// Hash bucket `b` lists only slots in use whose keys belong to it.
pub open spec fn bucket_ok(st: Store, hole: Option<u32>, b: int) -> bool {
    let n = st.nodes.len() as int;
    let s = bucket_list(st, b);
    &&& links::path(chains(st), st.buckets[b], s)
    &&& forall|k: int|
        0 <= k < s.len() ==> holds((#[trigger] s[k]) as int, st.hdr.len as int, hole)
            && st.nodes[s[k] as int].key.bucket(n) == b
}

/// Each slot in use, except the slot that `hole` names, is listed by the hash bucket
/// of its key, and no two of them have the same key.
pub open spec fn hashed(st: Store, hole: Option<u32>) -> bool {
    let n = st.nodes.len() as int;
    let used = st.hdr.len as int;
    &&& 0 < n < NIL
    &&& used <= n
    &&& st.buckets.len() == n
    &&& forall|b: int| 0 <= b < n ==> #[trigger] bucket_ok(st, hole, b)
    &&& forall|i: int|
        #![trigger st.nodes[i]]
        holds(i, used, hole) ==> bucket_list(st, st.nodes[i].key.bucket(n)).contains(i as u32)
    &&& forall|i: int, j: int|
        #![trigger st.nodes[i], st.nodes[j]]
        holds(i, used, hole) && holds(j, used, hole) && i != j ==> st.nodes[i].key
            != st.nodes[j].key
}

/// The contents that a region stores.
pub open spec fn model(st: Store) -> Model {
    Model {
        order: order(st),
        keys: Seq::new(st.hdr.len as nat, |i: int| st.nodes[i].key),
        states: st.states,
        pins: st.pins,
        blocks: st.blocks,
    }
}

/// What is left when the neighbours `prev` and `next` of a slot are linked to each other.
spec fn detached(st: Store, prev: u32, next: u32) -> Store {
    let mid = if prev != NIL {
        Store {
            nodes: st.nodes.update(prev as int, Node { next, ..st.nodes[prev as int] }),
            ..st
        }
    } else {
        Store { hdr: Header { head: next, ..st.hdr }, ..st }
    };
    if next != NIL {
        Store {
            nodes: mid.nodes.update(next as int, Node { prev, ..mid.nodes[next as int] }),
            ..mid
        }
    } else {
        Store { hdr: Header { tail: prev, ..mid.hdr }, ..mid }
    }
}

proof fn lemma_detach(st: Store, o: Seq<u32>, p: int)
    requires
        listed(st, o),
        st.nodes.len() <= NIL,
        0 <= p < o.len(),
    ensures
        ({
            let new = detached(st, st.nodes[o[p] as int].prev, st.nodes[o[p] as int].next);
            &&& listed(new, links::without(o, o[p]))
            &&& relinked(new, st, o)
        }),
{
    let i = o[p];
    let prev = st.nodes[i as int].prev;
    let next = st.nodes[i as int].next;
    let new = detached(st, prev, next);
    let t = links::without(o, i);
    assert(next == nexts(st)[i as int]);
    assert(next == links::or_nil(o, p + 1));
    assert(prev == links::or_nil(o, p - 1));
    if p > 0 {
        assert(o[p - 1] < st.nodes.len());
        assert(o.contains(prev));
    }
    if p + 1 < o.len() {
        assert(o[p + 1] < st.nodes.len());
        assert(o.contains(next));
    }
    assert(new.nodes.len() == st.nodes.len());
    assert forall|j: int| 0 <= j < st.nodes.len() implies #[trigger] new.nodes[j] == (Node {
        prev: if j == next {
            prev
        } else {
            st.nodes[j].prev
        },
        next: if j == prev {
            next
        } else {
            st.nodes[j].next
        },
        ..st.nodes[j]
    }) by {}
    assert(relinked(new, st, o));
    assert(links::path(nexts(new), new.hdr.head, t)) by {
        if p == 0 {
            assert(nexts(new) =~= nexts(st));
        } else {
            assert(nexts(new) =~= nexts(st).update(o[p - 1] as int, next));
        }
        links::lemma_path_remove(nexts(st), st.hdr.head, o, p, nexts(new), new.hdr.head);
    }
    links::lemma_without(o, i, p);
    assert forall|k: int| 0 <= k < t.len() implies new.nodes[(#[trigger] t[k]) as int].prev
        == links::or_nil(t, k - 1) by {
        if k < p {
            assert(t[k] == o[k]);
            if p + 1 < o.len() {
                assert(o[k] != o[p + 1]);
            }
            if k > 0 {
                assert(t[k - 1] == o[k - 1]);
            }
        } else {
            assert(t[k] == o[k + 1]);
            if k > p {
                assert(o[k + 1] != o[p + 1]);
                assert(t[k - 1] == o[k]);
            } else if k > 0 {
                assert(t[k - 1] == o[k - 1]);
            }
        }
    }
}

impl<'a> Cache<'a> {
    /// Takes slot `i` out of the recency list.
    pub(crate) fn detach(&mut self, i: u32)
        requires
            old(self).shaped(),
            listed(old(self)@, order(old(self)@)),
            order(old(self)@).contains(i),
        ensures
            final(self).same_region(old(self)),
            order(final(self)@) == links::without(order(old(self)@), i),
            listed(final(self)@, order(final(self)@)),
            relinked(final(self)@, old(self)@, order(old(self)@)),
    {
        let ghost o = order(self@);
        let ghost p = o.index_of(i);
        proof {
            self.lemma_shape();
            assert(o[p] == i);
            assert(p > 0 ==> o[p - 1] < self.slots());
            assert(p + 1 < o.len() ==> o[p + 1] < self.slots());
        }
        let node: Node = self.node(i);
        let prev: u32 = node.prev;
        let next: u32 = node.next;
        assert(next == nexts(self@)[i as int]);
        if prev != NIL {
            self.set_next(prev, next);
        } else {
            self.set_head(next);
        }
        if next != NIL {
            self.set_prev(next, prev);
        } else {
            self.set_tail(prev);
        }
        proof {
            assert(self@ =~= detached(old(self)@, prev, next));
            lemma_detach(old(self)@, o, p);
            lemma_order(self@, links::without(o, i));
        }
    }

    /// Puts slot `i` at the front of the recency list.
    pub(crate) fn push_front(&mut self, i: u32)
        requires
            old(self).shaped(),
            listed(old(self)@, order(old(self)@)),
            i < old(self).slots(),
            !order(old(self)@).contains(i),
        ensures
            final(self).same_region(old(self)),
            order(final(self)@) == seq![i] + order(old(self)@),
            listed(final(self)@, order(final(self)@)),
            relinked(final(self)@, old(self)@, seq![i] + order(old(self)@)),
    {
        let ghost o = order(self@);
        proof {
            self.lemma_shape();
            assert(o.len() > 0 ==> o[0] < self.slots());
        }
        let first: u32 = self.head();
        self.set_prev(i, NIL);
        self.set_next(i, first);
        if first != NIL {
            self.set_prev(first, i);
        } else {
            self.set_tail(i);
        }
        self.set_head(i);
        proof {
            let t = seq![i] + o;
            links::lemma_path_push(nexts(old(self)@), old(self)@.hdr.head, o, i);
            assert(nexts(self@) =~= nexts(old(self)@).update(i as int, first));
            assert forall|k: int| 0 <= k < t.len() implies self@.nodes[(#[trigger] t[k]) as int].prev
                == links::or_nil(t, k - 1) by {
                if k > 0 {
                    assert(t[k] == o[k - 1]);
                    assert(o.contains(o[k - 1]));
                    if k > 1 {
                        assert(o[k - 1] != o[0]);
                        assert(t[k - 1] == o[k - 2]);
                    }
                }
            }
            if o.len() > 0 {
                assert(t[t.len() - 1] == o[o.len() - 1]);
            }
            assert forall|j: int| 0 <= j < self@.nodes.len() && !t.contains(j as u32) implies
                #[trigger] self@.nodes[j] == old(self)@.nodes[j] by {
                assert(t[0] == i);
                if o.len() > 0 {
                    assert(t[1] == o[0]);
                }
            }
            lemma_order(self@, t);
        }
    }

    /// Makes slot `i` the most recently used one.
    pub(crate) fn promote(&mut self, i: u32)
        requires
            old(self).shaped(),
            listed(old(self)@, order(old(self)@)),
            order(old(self)@).contains(i),
        ensures
            final(self).same_region(old(self)),
            order(final(self)@) == seq![i] + links::without(order(old(self)@), i),
            listed(final(self)@, order(final(self)@)),
            relinked(final(self)@, old(self)@, order(old(self)@)),
    {
        proof {
            self.lemma_shape();
            links::lemma_without(order(self@), i, order(self@).index_of(i));
        }
        self.detach(i);
        let ghost mid = self@;
        self.push_front(i);
        proof {
            let o = order(old(self)@);
            let t = seq![i] + order(mid);
            assert forall|j: int| 0 <= j < self@.nodes.len() && !o.contains(j as u32) implies
                #[trigger] self@.nodes[j] == old(self)@.nodes[j] by {
                assert(!t.contains(j as u32)) by {
                    if t.contains(j as u32) {
                        let k = t.index_of(j as u32);
                        if k > 0 {
                            assert(t[k] == order(mid)[k - 1]);
                            assert(order(mid).contains(j as u32));
                        }
                    }
                }
                assert(self@.nodes[j] == mid.nodes[j]);
            }
        }
    }
}

proof fn lemma_bucket(key: BlockKey, n: int)
    requires
        0 < n,
    ensures
        0 <= key.bucket(n) < n,
{
    vstd::arithmetic::div_mod::lemma_mod_bound(key.spec_hash() as int, n);
}

impl<'a> Cache<'a> {
    /// The hash bucket of `key`.
    pub(crate) fn bucket_of(&self, key: BlockKey) -> (r: u32)
        requires
            self.shaped(),
        ensures
            r == key.bucket(self.slots()),
            r < self.slots(),
    {
        let n: u32 = self.capacity();
        proof {
            self.lemma_shape();
            lemma_bucket(key, n as int);
        }
        (key.hash() % n as u64) as u32
    }

    /// The slot that holds the block `key`, or `NIL`.
    pub(crate) fn find(&self, key: BlockKey) -> (r: u32)
        requires
            self.shaped(),
            hashed(self@, None),
        ensures
            r == match self.model().slot_of(key) {
                Some(i) => i,
                None => NIL,
            },
            r != NIL ==> r < self@.hdr.len,
    {
        let ghost keys = self.model().keys;
        let b: u32 = self.bucket_of(key);
        let ghost s = bucket_list(self@, b as int);
        let ghost mut k: int = 0;
        proof {
            self.lemma_shape();
            assert(bucket_ok(self@, None, b as int));
        }
        let mut cur: u32 = self.bucket(b);
        while cur != NIL
            invariant
                self.shaped(),
                self@.nodes.len() == self.slots(),
                hashed(self@, None),
                keys == self.model().keys,
                b == key.bucket(self.slots()),
                s == bucket_list(self@, b as int),
                bucket_ok(self@, None, b as int),
                0 <= k <= s.len(),
                cur == links::or_nil(s, k),
                forall|j: int| 0 <= j < k ==> self@.nodes[(#[trigger] s[j]) as int].key != key,
            decreases s.len() - k,
        {
            assert(cur == s[k]);
            let node: Node = self.node(cur);
            if node.key == key {
                proof {
                    assert(keys[cur as int] == key);
                    let j = keys.index_of(key);
                    assert(keys[j] == self@.nodes[j].key);
                    assert(holds(j, self@.hdr.len as int, None));
                }
                return cur;
            }
            assert(node.chain == chains(self@)[s[k] as int]);
            cur = node.chain;
            proof {
                k = k + 1;
            }
        }
        proof {
            assert forall|i: int| 0 <= i < self@.hdr.len implies (#[trigger] keys[i])
                != key by {
                assert(keys[i] == self@.nodes[i].key);
                if self@.nodes[i].key == key {
                    assert(holds(i, self@.hdr.len as int, None));
                    assert(s.contains(i as u32));
                    let j = s.index_of(i as u32);
                    assert(s[j] == i);
                    assert(k == s.len()) by {
                        if k < s.len() {
                            assert(s[k] < self.slots());
                        }
                    }
                }
            }
        }
        NIL
    }
}

/// `new` differs from `old` at most in the hash buckets and in the links of their lists.
pub open spec fn rechained(new: Store, old: Store) -> bool {
    &&& new.hdr == old.hdr
    &&& new.states == old.states
    &&& new.pins == old.pins
    &&& new.blocks == old.blocks
    &&& new.nodes.len() == old.nodes.len()
    &&& forall|j: int|
        0 <= j < new.nodes.len() ==> #[trigger] new.nodes[j] == (Node {
            chain: new.nodes[j].chain,
            ..old.nodes[j]
        })
}

/// What is left when `prev`, or the head of bucket `b`, points at `next`.
spec fn unchained(st: Store, b: int, prev: u32, next: u32) -> Store {
    if prev == NIL {
        Store { buckets: st.buckets.update(b, next), ..st }
    } else {
        Store {
            nodes: st.nodes.update(prev as int, Node { chain: next, ..st.nodes[prev as int] }),
            ..st
        }
    }
}

/// The hash bucket of slot `i` lists the same slots without `i`, in the same order; the
/// other buckets list what they did.
pub open spec fn unlisted(new: Store, old: Store, i: u32) -> bool {
    let n = old.nodes.len() as int;
    let b = old.nodes[i as int].key.bucket(n);
    &&& bucket_list(new, b) == links::without(bucket_list(old, b), i)
    &&& forall|c: int|
        0 <= c < n && c != b ==> #[trigger] bucket_list(new, c) == bucket_list(old, c)
}

proof fn lemma_unchain(st: Store, b: int, p: int)
    requires
        hashed(st, None),
        0 <= b < st.nodes.len(),
        0 <= p < bucket_list(st, b).len(),
    ensures
        ({
            let s = bucket_list(st, b);
            let new = unchained(st, b, links::or_nil(s, p - 1), links::or_nil(s, p + 1));
            &&& rechained(new, st)
            &&& hashed(new, Some(s[p]))
            &&& unlisted(new, st, s[p])
        }),
{
    let n = st.nodes.len() as int;
    let used = st.hdr.len as int;
    let s = bucket_list(st, b);
    let i = s[p];
    let next = links::or_nil(s, p + 1);
    let new = unchained(st, b, links::or_nil(s, p - 1), next);
    assert(bucket_ok(st, None, b));
    assert(chains(st)[i as int] == next);
    if p > 0 {
        assert(s[p - 1] < n);
        assert(chains(new) =~= chains(st).update(s[p - 1] as int, next));
    } else {
        assert(chains(new) =~= chains(st));
    }
    links::lemma_without(s, i, p);
    assert(bucket_list(new, b) == links::without(s, i)) by {
        links::lemma_path_remove(chains(st), st.buckets[b], s, p, chains(new), new.buckets[b]);
        links::lemma_walk(chains(new), new.buckets[b], links::without(s, i));
    }
    assert forall|c: int| 0 <= c < n && c != b implies #[trigger] bucket_list(new, c)
        == bucket_list(st, c) && links::path(chains(new), new.buckets[c], bucket_list(st, c)) by {
        let t = bucket_list(st, c);
        assert(bucket_ok(st, None, c));
        assert forall|k: int| 0 <= k < t.len() implies chains(new)[(#[trigger] t[k]) as int]
            == chains(st)[t[k] as int] by {
            if p > 0 {
                assert(t[k] != s[p - 1]);
            }
        }
        links::lemma_path_frame(chains(st), st.buckets[c], t, chains(new));
        links::lemma_walk(chains(new), new.buckets[c], t);
    }
    assert forall|c: int| 0 <= c < n implies #[trigger] bucket_ok(new, Some(i), c) by {
        assert(bucket_ok(st, None, c));
        let t = bucket_list(new, c);
        if c == b {
            links::lemma_path_remove(chains(st), st.buckets[b], s, p, chains(new), new.buckets[b]);
            assert forall|k: int| 0 <= k < t.len() implies holds(
                (#[trigger] t[k]) as int,
                used,
                Some(i),
            ) && new.nodes[t[k] as int].key.bucket(n) == c by {
                assert(t.contains(t[k]));
                assert(s.contains(t[k]));
                let j = s.index_of(t[k]);
                assert(s[j] == t[k]);
            }
        } else {
            assert(bucket_list(new, c) == bucket_list(st, c));
            assert forall|k: int| 0 <= k < t.len() implies holds(
                (#[trigger] t[k]) as int,
                used,
                Some(i),
            ) && new.nodes[t[k] as int].key.bucket(n) == c by {
                assert(st.nodes[t[k] as int].key.bucket(n) == c);
                assert(st.nodes[i as int].key.bucket(n) == b);
            }
        }
    }
    assert forall|j: int|
        #![trigger new.nodes[j]]
        holds(j, used, Some(i)) implies bucket_list(new, new.nodes[j].key.bucket(n)).contains(
        j as u32,
    ) by {
        assert(new.nodes[j].key == st.nodes[j].key);
        lemma_bucket(st.nodes[j].key, n);
        let c = st.nodes[j].key.bucket(n);
        assert(bucket_list(st, c).contains(j as u32));
        if c != b {
            assert(bucket_list(new, c) == bucket_list(st, c));
        }
    }
    assert forall|j: int, k: int|
        #![trigger new.nodes[j], new.nodes[k]]
        holds(j, used, Some(i)) && holds(k, used, Some(i)) && j != k implies new.nodes[j].key
        != new.nodes[k].key by {
        assert(new.nodes[j].key == st.nodes[j].key);
        assert(new.nodes[k].key == st.nodes[k].key);
    }
}

impl<'a> Cache<'a> {
    /// Takes slot `i` out of the list of its hash bucket.
    pub(crate) fn unchain(&mut self, i: u32)
        requires
            old(self).shaped(),
            hashed(old(self)@, None),
            i < old(self)@.hdr.len,
        ensures
            final(self).same_region(old(self)),
            rechained(final(self)@, old(self)@),
            hashed(final(self)@, Some(i)),
            unlisted(final(self)@, old(self)@, i),
    {
        proof {
            self.lemma_shape();
        }
        let key: BlockKey = self.node(i).key;
        let b: u32 = self.bucket_of(key);
        let ghost s = bucket_list(self@, b as int);
        let ghost p = s.index_of(i);
        let ghost mut k: int = 0;
        proof {
            assert(bucket_ok(self@, None, b as int));
            assert(holds(i as int, self@.hdr.len as int, None));
            assert(s.contains(i));
            assert(s[p] == i);
        }
        let mut cur: u32 = self.bucket(b);
        let mut prev: u32 = NIL;
        while cur != i
            invariant
                self.shaped(),
                self@ == old(self)@,
                self.same_region(old(self)),
                self@.nodes.len() == self.slots(),
                s == bucket_list(self@, b as int),
                bucket_ok(self@, None, b as int),
                0 <= k <= p < s.len(),
                s[p] == i,
                cur == links::or_nil(s, k),
                prev == links::or_nil(s, k - 1),
            decreases p - k,
        {
            assert(cur == s[k]);
            assert(self@.nodes[cur as int].chain == chains(self@)[s[k] as int]);
            prev = cur;
            cur = self.node(cur).chain;
            proof {
                k = k + 1;
            }
        }
        assert(k == p) by {
            assert(s[k] == s[p]);
        }
        let next: u32 = self.node(cur).chain;
        assert(next == chains(self@)[s[p] as int]);
        if prev == NIL {
            self.set_bucket(b, next);
        } else {
            self.set_chain(prev, next);
        }
        proof {
            lemma_unchain(old(self)@, b as int, p);
        }
    }
}

/// What only the recency list is about is kept by changes elsewhere.
pub proof fn lemma_ordered_frame(new: Store, old: Store, hole: Option<u32>)
    requires
        ordered(old, hole),
        new.hdr == old.hdr,
        new.nodes.len() == old.nodes.len(),
        forall|j: int|
            0 <= j < new.nodes.len() ==> (#[trigger] new.nodes[j]).prev == old.nodes[j].prev
                && new.nodes[j].next == old.nodes[j].next,
    ensures
        order(new) == order(old),
        ordered(new, hole),
{
    assert(nexts(new) =~= nexts(old));
    assert(listed(new, order(new)));
}

/// What only the hash buckets are about is kept by changes elsewhere.
pub proof fn lemma_hashed_frame(new: Store, old: Store, hole: Option<u32>)
    requires
        hashed(old, hole),
        new.hdr.len == old.hdr.len,
        new.buckets == old.buckets,
        new.nodes.len() == old.nodes.len(),
        forall|j: int|
            0 <= j < new.nodes.len() ==> (#[trigger] new.nodes[j]).key == old.nodes[j].key
                && new.nodes[j].chain == old.nodes[j].chain,
    ensures
        hashed(new, hole),
{
    let n = new.nodes.len() as int;
    let used = new.hdr.len as int;
    assert(chains(new) =~= chains(old));
    assert forall|b: int| 0 <= b < n implies #[trigger] bucket_ok(new, hole, b) by {
        assert(bucket_ok(old, hole, b));
    }
    assert forall|i: int|
        #![trigger new.nodes[i]]
        holds(i, used, hole) implies bucket_list(new, new.nodes[i].key.bucket(n)).contains(
        i as u32,
    ) by {
        assert(old.nodes[i].key == new.nodes[i].key);
    }
    assert forall|i: int, j: int|
        #![trigger new.nodes[i], new.nodes[j]]
        holds(i, used, hole) && holds(j, used, hole) && i != j implies new.nodes[i].key
        != new.nodes[j].key by {
        assert(old.nodes[i].key == new.nodes[i].key);
        assert(old.nodes[j].key == new.nodes[j].key);
    }
}

/// Taking a slot out of the recency list leaves a hole there.
proof fn lemma_detached_ordered(new: Store, old: Store, i: u32)
    requires
        ordered(old, None),
        order(old).contains(i),
        order(new) == links::without(order(old), i),
        listed(new, order(new)),
        relinked(new, old, order(old)),
    ensures
        ordered(new, Some(i)),
{
    let o = order(old);
    links::lemma_without(o, i, o.index_of(i));
    let n = old.nodes.len() as int;
    let used = old.hdr.len as int;
    assert forall|j: int| used <= j < n implies (#[trigger] new.nodes[j]).next == slot_or_nil(
        j + 1,
        n,
    ) by {
        assert(!o.contains(j as u32)) by {
            if o.contains(j as u32) {
                let k = o.index_of(j as u32);
                assert(holds(o[k] as int, used, None));
            }
        }
        assert(old.nodes[j].next == slot_or_nil(j + 1, n));
    }
    assert forall|k: int| 0 <= k < order(new).len() implies holds(
        (#[trigger] order(new)[k]) as int,
        used,
        Some(i),
    ) by {
        let x = order(new)[k];
        assert(order(new).contains(x));
        assert(o.contains(x));
        let j = o.index_of(x);
        assert(holds(o[j] as int, used, None));
    }
    assert forall|x: u32| holds(x as int, used, Some(i)) implies #[trigger] order(new).contains(
        x,
    ) by {
        assert(holds(x as int, used, None));
        assert(o.contains(x));
    }
}

impl<'a> Cache<'a> {
    /// The contents of the cache.
    pub open spec fn model(&self) -> Model {
        model(self@)
    }

    /// Takes the first slot that was never used.
    pub(crate) fn pop_free(&mut self) -> (r: Option<u32>)
        requires
            old(self).shaped(),
            free_listed(old(self)@),
        ensures
            final(self).same_region(old(self)),
            free_listed(final(self)@),
            match r {
                None => {
                    &&& old(self)@.hdr.len == old(self).slots()
                    &&& final(self)@ == old(self)@
                },
                Some(i) => {
                    &&& i == old(self)@.hdr.len < old(self).slots()
                    &&& final(self)@ == popped(old(self)@)
                },
            },
    {
        proof {
            self.lemma_shape();
        }
        let free: u32 = self.free();
        if free == NIL {
            return None;
        }
        let next: u32 = self.node(free).next;
        self.set_free(next);
        let len: u32 = self.len();
        self.set_len(len + 1);
        Some(free)
    }
}

/// `st` after its first slot that was never used was taken.
pub open spec fn popped(st: Store) -> Store {
    Store {
        hdr: Header {
            free: slot_or_nil(st.hdr.len + 1, st.nodes.len() as int),
            len: (st.hdr.len + 1) as u32,
            ..st.hdr
        },
        ..st
    }
}

/// A slot that was just taken is a hole in the recency list and in the hash buckets.
proof fn lemma_popped(old: Store)
    requires
        ordered(old, None),
        hashed(old, None),
        old.hdr.len < old.nodes.len(),
    ensures
        order(popped(old)) == order(old),
        ordered(popped(old), Some(old.hdr.len)),
        hashed(popped(old), Some(old.hdr.len)),
{
    let st = popped(old);
    let i = old.hdr.len;
    let n = st.nodes.len() as int;
    let used = st.hdr.len as int;
    assert(nexts(st) =~= nexts(old));
    assert(chains(st) =~= chains(old));
    assert forall|k: int| 0 <= k < order(st).len() implies holds(
        (#[trigger] order(st)[k]) as int,
        used,
        Some(i),
    ) by {
        assert(holds(order(old)[k] as int, i as int, None));
    }
    assert forall|x: u32| holds(x as int, used, Some(i)) implies #[trigger] order(st).contains(
        x,
    ) by {
        assert(holds(x as int, i as int, None));
    }
    assert forall|b: int| 0 <= b < n implies #[trigger] bucket_ok(st, Some(i), b) by {
        assert(bucket_ok(old, None, b));
        let s = bucket_list(st, b);
        assert forall|k: int| 0 <= k < s.len() implies holds((#[trigger] s[k]) as int, used, Some(i))
            && st.nodes[s[k] as int].key.bucket(n) == b by {
            assert(holds(s[k] as int, i as int, None));
        }
    }
}

/// The header `hdr` belongs to a region of `slots` slots with blocks of `block_size` bytes.
pub open spec fn records(hdr: Header, slots: int, block_size: int) -> bool {
    &&& hdr.capacity == slots
    &&& hdr.block_size == block_size
    &&& hdr.nodes_off == layout::nodes_offset()
    &&& hdr.buckets_off == layout::buckets_offset(slots)
    &&& hdr.states_off == layout::states_offset(slots)
    &&& hdr.pins_off == layout::pins_offset(slots)
    &&& hdr.blocks_off == layout::blocks_offset(slots)
}

/// A region that stores `st` holds a sound cache.
pub open spec fn sound(st: Store, slots: int, block_size: int) -> bool {
    &&& records(st.hdr, slots, block_size)
    &&& ordered(st, None)
    &&& hashed(st, None)
}

/// Filling a hole at the front of the list of its new bucket.
proof fn lemma_chain(st: Store, i: u32, key: BlockKey)
    requires
        hashed(st, Some(i)),
        i < st.hdr.len,
        forall|j: int|
            holds(j, st.hdr.len as int, Some(i)) ==> (#[trigger] st.nodes[j]).key != key,
    ensures
        hashed(chained(st, i, key), None),
        forall|c: int|
            0 <= c < st.nodes.len() ==> #[trigger] bucket_list(chained(st, i, key), c) == if c
                == key.bucket(st.nodes.len() as int) {
                seq![i] + bucket_list(st, c)
            } else {
                bucket_list(st, c)
            },
{
    let n = st.nodes.len() as int;
    let used = st.hdr.len as int;
    let b = key.bucket(n);
    let new = chained(st, i, key);
    let s = bucket_list(st, b);
    lemma_bucket(key, n);
    assert(bucket_ok(st, Some(i), b));
    assert(!s.contains(i)) by {
        if s.contains(i) {
            assert(holds(s[s.index_of(i)] as int, used, Some(i)));
        }
    }
    assert(chains(new) =~= chains(st).update(i as int, st.buckets[b]));
    links::lemma_path_push(chains(st), st.buckets[b], s, i);
    links::lemma_walk(chains(new), i, seq![i] + s);
    assert(bucket_list(new, b) == seq![i] + s);
    assert forall|c: int| 0 <= c < n && c != b implies #[trigger] bucket_list(new, c)
        == bucket_list(st, c) && links::path(chains(new), new.buckets[c], bucket_list(st, c)) by {
        let t = bucket_list(st, c);
        assert(bucket_ok(st, Some(i), c));
        assert forall|k: int| 0 <= k < t.len() implies chains(new)[(#[trigger] t[k]) as int]
            == chains(st)[t[k] as int] by {
            assert(holds(t[k] as int, used, Some(i)));
        }
        links::lemma_path_frame(chains(st), st.buckets[c], t, chains(new));
        links::lemma_walk(chains(new), new.buckets[c], t);
    }
    assert forall|c: int| 0 <= c < n implies #[trigger] bucket_ok(new, None, c) by {
        assert(bucket_ok(st, Some(i), c));
        let t = bucket_list(new, c);
        let u = bucket_list(st, c);
        assert forall|k: int| 0 <= k < t.len() implies holds((#[trigger] t[k]) as int, used, None)
            && new.nodes[t[k] as int].key.bucket(n) == c by {
            if c == b && k > 0 {
                assert(t[k] == u[k - 1]);
                assert(holds(u[k - 1] as int, used, Some(i)));
            } else if c != b {
                assert(t[k] == u[k]);
                assert(holds(u[k] as int, used, Some(i)));
            }
        }
    }
    assert forall|j: int|
        #![trigger new.nodes[j]]
        holds(j, used, None) implies bucket_list(new, new.nodes[j].key.bucket(n)).contains(
        j as u32,
    ) by {
        if j == i {
            assert((seq![i] + s)[0] == i);
        } else {
            assert(holds(j, used, Some(i)));
            assert(new.nodes[j] == st.nodes[j]);
            let c = st.nodes[j].key.bucket(n);
            lemma_bucket(st.nodes[j].key, n);
            assert(bucket_list(st, c).contains(j as u32));
            if c == b {
                let k = s.index_of(j as u32);
                assert((seq![i] + s)[k + 1] == s[k]);
            } else {
                assert(bucket_list(new, c) == bucket_list(st, c));
            }
        }
    }
    assert forall|j: int, k: int|
        #![trigger new.nodes[j], new.nodes[k]]
        holds(j, used, None) && holds(k, used, None) && j != k implies new.nodes[j].key
        != new.nodes[k].key by {
        assert(j != i ==> new.nodes[j] == st.nodes[j] && holds(j, used, Some(i)));
        assert(k != i ==> new.nodes[k] == st.nodes[k] && holds(k, used, Some(i)));
    }
}

/// Slot `i` given to `key` and put in front of the bucket of that key.
spec fn chained(st: Store, i: u32, key: BlockKey) -> Store {
    let b = key.bucket(st.nodes.len() as int);
    Store {
        nodes: st.nodes.update(i as int, Node { key, chain: st.buckets[b], ..st.nodes[i as int] }),
        buckets: st.buckets.update(b, i),
        ..st
    }
}

/// Filling a hole at the front of the recency list.
proof fn lemma_pushed_ordered(new: Store, old: Store, i: u32)
    requires
        ordered(old, Some(i)),
        i < old.hdr.len,
        order(new) == seq![i] + order(old),
        listed(new, order(new)),
        relinked(new, old, seq![i] + order(old)),
    ensures
        ordered(new, None),
{
    let o = order(old);
    let t = seq![i] + o;
    let n = old.nodes.len() as int;
    let used = old.hdr.len as int;
    assert forall|k: int| 0 <= k < t.len() implies holds((#[trigger] t[k]) as int, used, None) by {
        if k > 0 {
            assert(holds(o[k - 1] as int, used, Some(i)));
        }
    }
    assert forall|j: int| used <= j < n implies (#[trigger] new.nodes[j]).next == slot_or_nil(
        j + 1,
        n,
    ) by {
        assert(!t.contains(j as u32)) by {
            if t.contains(j as u32) {
                assert(holds(t[t.index_of(j as u32)] as int, used, None));
            }
        }
        assert(old.nodes[j].next == slot_or_nil(j + 1, n));
    }
    assert forall|x: u32| holds(x as int, used, None) implies #[trigger] order(new).contains(x) by {
        if x == i {
            assert(t[0] == i);
        } else {
            assert(holds(x as int, used, Some(i)));
            assert(o.contains(x));
            assert(t[o.index_of(x) + 1] == x);
        }
    }
}

/// Moving a slot to the front of the recency list.
pub proof fn lemma_promoted_ordered(new: Store, old: Store, i: u32)
    requires
        ordered(old, None),
        order(old).contains(i),
        order(new) == seq![i] + links::without(order(old), i),
        listed(new, order(new)),
        relinked(new, old, order(old)),
    ensures
        ordered(new, None),
{
    let o = order(old);
    let w = links::without(o, i);
    let t = order(new);
    let n = old.nodes.len() as int;
    let used = old.hdr.len as int;
    links::lemma_without(o, i, o.index_of(i));
    assert forall|j: int| used <= j < n implies (#[trigger] new.nodes[j]).next == slot_or_nil(
        j + 1,
        n,
    ) by {
        assert(!o.contains(j as u32)) by {
            if o.contains(j as u32) {
                assert(holds(o[o.index_of(j as u32)] as int, used, None));
            }
        }
        assert(old.nodes[j].next == slot_or_nil(j + 1, n));
    }
    assert forall|k: int| 0 <= k < t.len() implies holds((#[trigger] t[k]) as int, used, None) by {
        if k > 0 {
            assert(w.contains(w[k - 1]));
            assert(holds(o[o.index_of(w[k - 1])] as int, used, None));
        } else {
            assert(holds(o[o.index_of(i)] as int, used, None));
        }
    }
    assert forall|x: u32| holds(x as int, used, None) implies #[trigger] t.contains(x) by {
        assert(o.contains(x));
        if x == i {
            assert(t[0] == i);
        } else {
            assert(w.contains(x));
            assert(t[w.index_of(x) + 1] == x);
        }
    }
}

impl<'a> Cache<'a> {
    /// The cache is sound and remembers what its region is.
    pub open spec fn wf(&self) -> bool {
        self.shaped() && sound(self@, self.slots(), self.spec_block_size())
    }

    /// Takes the least recently used idle slot away from its block.
    pub(crate) fn evict(&mut self) -> (r: Option<u32>)
        requires
            old(self).shaped(),
            ordered(old(self)@, None),
            hashed(old(self)@, None),
        ensures
            final(self).same_region(old(self)),
            r == old(self).model().victim(),
            match r {
                None => final(self)@ == old(self)@,
                Some(v) => {
                    &&& order(old(self)@).contains(v)
                    &&& v < old(self)@.hdr.len
                    &&& order(final(self)@) == links::without(order(old(self)@), v)
                    &&& ordered(final(self)@, Some(v))
                    &&& hashed(final(self)@, Some(v))
                    &&& unlisted(final(self)@, old(self)@, v)
                    &&& final(self)@.hdr == Header {
                        head: final(self)@.hdr.head,
                        tail: final(self)@.hdr.tail,
                        ..old(self)@.hdr
                    }
                    &&& final(self)@.states == old(self)@.states
                    &&& final(self)@.pins == old(self)@.pins
                    &&& final(self)@.blocks == old(self)@.blocks
                    &&& final(self)@.nodes.len() == old(self)@.nodes.len()
                    &&& forall|j: int|
                        0 <= j < old(self)@.nodes.len() ==> (#[trigger] final(self)@.nodes[j]).key
                            == old(self)@.nodes[j].key
                },
            },
    {
        let ghost o = order(self@);
        let ghost m = self.model();
        let ghost mut k: int = o.len() as int;
        proof {
            self.lemma_shape();
        }
        let mut cur: u32 = self.tail();
        let mut found: bool = false;
        while cur != NIL && !found
            invariant
                self.shaped(),
                self@ == old(self)@,
                self.same_region(old(self)),
                self@.nodes.len() == self.slots(),
                o == order(self@),
                m == model(self@),
                listed(self@, o),
                0 <= k <= o.len(),
                cur == links::or_nil(o, k - 1),
                m.victim() == m.last_idle(k),
                found ==> k > 0 && m.idle(cur),
            decreases k + if found {
                0int
            } else {
                1int
            },
        {
            assert(cur == o[k - 1]);
            assert(self@.nodes[o[k - 1] as int].prev == links::or_nil(o, k - 2));
            if self.pin(cur) == 0 && self.state(cur) == READY {
                found = true;
            } else {
                cur = self.node(cur).prev;
                proof {
                    k = k - 1;
                }
            }
        }
        if !found {
            assert(k == 0) by {
                if k > 0 {
                    assert(o[k - 1] < self.slots());
                }
            }
            return None;
        }
        let victim: u32 = cur;
        proof {
            assert(o[k - 1] == victim);
            assert(o.contains(victim));
            assert(holds(o[k - 1] as int, self@.hdr.len as int, None));
        }
        self.detach(victim);
        let ghost mid = self@;
        proof {
            lemma_detached_ordered(mid, old(self)@, victim);
            lemma_hashed_frame(mid, old(self)@, None);
            assert(chains(mid) =~= chains(old(self)@));
        }
        self.unchain(victim);
        proof {
            lemma_ordered_frame(self@, mid, Some(victim));
            let n = mid.nodes.len() as int;
            lemma_bucket(mid.nodes[victim as int].key, n);
            assert(forall|c: int|
                0 <= c < n ==> #[trigger] bucket_list(mid, c) == bucket_list(old(self)@, c));
        }
        Some(victim)
    }

    /// Takes the slot that a new block goes into.
    fn take_slot(&mut self) -> (r: Option<u32>)
        requires
            old(self).wf(),
        ensures
            final(self).same_region(old(self)),
            r == old(self).model().target(),
            match r {
                None => final(self)@ == old(self)@,
                Some(i) => emptied(final(self)@, old(self)@, i),
            },
    {
        proof {
            self.lemma_shape();
        }
        match self.pop_free() {
            Some(i) => {
                assert(!order(old(self)@).contains(i)) by {
                    if order(old(self)@).contains(i) {
                        let k = order(old(self)@).index_of(i);
                        assert(holds(order(old(self)@)[k] as int, old(self)@.hdr.len as int, None));
                    }
                }
                proof {
                    lemma_popped(old(self)@);
                    assert(chains(self@) =~= chains(old(self)@));
                    assert forall|c: int| 0 <= c < self@.nodes.len() implies #[trigger] bucket_list(
                        self@,
                        c,
                    ) == bucket_without(old(self)@, c, i) by {
                        lemma_unlisted_free(old(self)@, c, i);
                    }
                }
                Some(i)
            },
            None => {
                let victim: Option<u32> = self.evict();
                proof {
                    if let Some(v) = victim {
                        lemma_unlisted(self@, old(self)@, v);
                    }
                }
                victim
            },
        }
    }

    /// Gives slot `i` to `key` and puts it in front of the bucket of that key.
    fn chain_in(&mut self, i: u32, key: BlockKey)
        requires
            old(self).shaped(),
            i < old(self).slots(),
        ensures
            final(self).same_region(old(self)),
            final(self)@ == chained(old(self)@, i, key),
    {
        proof {
            self.lemma_shape();
        }
        let b: u32 = self.bucket_of(key);
        self.set_key(i, key);
        let first: u32 = self.bucket(b);
        self.set_chain(i, first);
        self.set_bucket(b, i);
        assert(self@.nodes =~= chained(old(self)@, i, key).nodes);
    }

    /// Makes room for the block `key` and marks it as being fetched.
    pub(crate) fn insert(&mut self, key: BlockKey) -> (r: Option<u32>)
        requires
            old(self).wf(),
            old(self).model().slot_of(key) is None,
        ensures
            final(self).same_region(old(self)),
            final(self).wf(),
            r == old(self).model().target(),
            match r {
                None => final(self)@ == old(self)@,
                Some(i) => {
                    &&& i < old(self).slots()
                    &&& final(self).model() == old(self).model().admitted(i, key)
                    &&& final(self)@.hdr.lock == old(self)@.hdr.lock
                    &&& fronted(final(self)@, old(self)@, i, key)
                },
            },
    {
        proof {
            self.lemma_shape();
        }
        let i: u32 = match self.take_slot() {
            Some(i) => i,
            None => {
                return None;
            },
        };
        let ghost mid = self@;
        self.chain_in(i, key);
        self.set_state(i, LOADING);
        self.set_pin(i, 0);
        let ghost marked = self@;
        proof {
            lemma_admit(old(self)@, mid, i, key);
        }
        self.push_front(i);
        proof {
            lemma_admitted(old(self)@, mid, marked, self@, i, key);
        }
        Some(i)
    }
}

/// The slots of hash bucket `c` without `i`.
pub open spec fn bucket_without(st: Store, c: int, i: u32) -> Seq<u32> {
    let s = bucket_list(st, c);
    if s.contains(i) {
        links::without(s, i)
    } else {
        s
    }
}

/// Slot `i` stands in front of the hash bucket of `key`; behind it, and in the other
/// buckets, is what there was without `i`, in the same order.
pub open spec fn fronted(new: Store, old: Store, i: u32, key: BlockKey) -> bool {
    forall|c: int|
        0 <= c < old.nodes.len() ==> #[trigger] bucket_list(new, c) == if c == key.bucket(
            old.nodes.len() as int,
        ) {
            seq![i] + bucket_without(old, c, i)
        } else {
            bucket_without(old, c, i)
        }
}

/// A slot never used is in no hash bucket.
proof fn lemma_unlisted_free(st: Store, c: int, i: u32)
    requires
        hashed(st, None),
        0 <= c < st.nodes.len(),
        st.hdr.len <= i,
    ensures
        bucket_without(st, c, i) == bucket_list(st, c),
{
    assert(bucket_ok(st, None, c));
    let s = bucket_list(st, c);
    if s.contains(i) {
        assert(holds(s[s.index_of(i)] as int, st.hdr.len as int, None));
    }
}

/// A slot is in no other hash bucket than its own.
proof fn lemma_unlisted(new: Store, old: Store, i: u32)
    requires
        hashed(old, None),
        i < old.hdr.len,
        unlisted(new, old, i),
    ensures
        forall|c: int|
            0 <= c < old.nodes.len() ==> #[trigger] bucket_list(new, c) == bucket_without(old, c, i),
{
    let n = old.nodes.len() as int;
    let b = old.nodes[i as int].key.bucket(n);
    lemma_bucket(old.nodes[i as int].key, n);
    assert(holds(i as int, old.hdr.len as int, None));
    assert(bucket_list(old, b).contains(i));
    assert forall|c: int| 0 <= c < n implies #[trigger] bucket_list(new, c) == bucket_without(
        old,
        c,
        i,
    ) by {
        let s = bucket_list(old, c);
        assert(bucket_ok(old, None, c));
        if c != b && s.contains(i) {
            assert(old.nodes[s[s.index_of(i)] as int].key.bucket(n) == c);
        }
    }
}

/// Slot `i` was taken out of the lists of `old`, or was never in them.
spec fn emptied(new: Store, old: Store, i: u32) -> bool {
    &&& i < old.nodes.len()
    &&& i <= old.hdr.len
    &&& new.hdr.len == if i < old.hdr.len {
        old.hdr.len as int
    } else {
        i + 1
    }
    &&& order(new) == if order(old).contains(i) {
        links::without(order(old), i)
    } else {
        order(old)
    }
    &&& ordered(new, Some(i))
    &&& hashed(new, Some(i))
    &&& forall|c: int|
        0 <= c < old.nodes.len() ==> #[trigger] bucket_list(new, c) == bucket_without(old, c, i)
    &&& new.hdr == Header {
        head: new.hdr.head,
        tail: new.hdr.tail,
        free: new.hdr.free,
        len: new.hdr.len,
        ..old.hdr
    }
    &&& new.states == old.states
    &&& new.pins == old.pins
    &&& new.blocks == old.blocks
    &&& new.nodes.len() == old.nodes.len()
    &&& forall|j: int|
        0 <= j < old.nodes.len() ==> (#[trigger] new.nodes[j]).key == old.nodes[j].key
}

/// `st` after slot `i` was given to `key` and marked as being fetched.
spec fn marked_loading(st: Store, i: u32, key: BlockKey) -> Store {
    let hung = chained(st, i, key);
    Store {
        states: hung.states.update(i as int, LOADING),
        pins: hung.pins.update(i as int, 0),
        ..hung
    }
}

proof fn lemma_admit(old: Store, mid: Store, i: u32, key: BlockKey)
    requires
        emptied(mid, old, i),
        !model(old).keys.contains(key),
    ensures
        ({
            let marked = marked_loading(mid, i, key);
            &&& ordered(marked, Some(i))
            &&& hashed(marked, None)
            &&& order(marked) == order(mid)
            &&& !order(marked).contains(i)
            &&& fronted(marked, old, i, key)
        }),
{
    let marked = marked_loading(mid, i, key);
    let m = model(old);
    assert forall|j: int| holds(j, mid.hdr.len as int, Some(i)) implies (
    #[trigger] mid.nodes[j]).key != key by {
        assert(m.keys[j] == old.nodes[j].key);
        assert(mid.nodes[j].key == old.nodes[j].key);
        if mid.nodes[j].key == key {
            assert(m.keys.contains(key));
        }
    }
    lemma_chain(mid, i, key);
    let hung = chained(mid, i, key);
    assert(chains(marked) =~= chains(hung));
    assert forall|c: int| 0 <= c < old.nodes.len() implies #[trigger] bucket_list(marked, c)
        == if c == key.bucket(old.nodes.len() as int) {
        seq![i] + bucket_without(old, c, i)
    } else {
        bucket_without(old, c, i)
    } by {
        assert(bucket_list(marked, c) == bucket_list(hung, c));
        assert(bucket_list(mid, c) == bucket_without(old, c, i));
    }
    lemma_hashed_frame(marked, chained(mid, i, key), None);
    lemma_ordered_frame(marked, mid, Some(i));
    if order(marked).contains(i) {
        let k = order(marked).index_of(i);
        assert(holds(order(marked)[k] as int, marked.hdr.len as int, Some(i)));
    }
}

proof fn lemma_admitted(
    old: Store,
    mid: Store,
    marked: Store,
    new: Store,
    i: u32,
    key: BlockKey,
)
    requires
        emptied(mid, old, i),
        marked == marked_loading(mid, i, key),
        ordered(marked, Some(i)),
        hashed(marked, None),
        order(marked) == order(mid),
        fronted(marked, old, i, key),
        order(new) == seq![i] + order(marked),
        listed(new, order(new)),
        relinked(new, marked, seq![i] + order(marked)),
    ensures
        ordered(new, None),
        hashed(new, None),
        model(new) == model(old).admitted(i, key),
        fronted(new, old, i, key),
{
    assert(chains(new) =~= chains(marked));
    assert(forall|c: int|
        0 <= c < old.nodes.len() ==> #[trigger] bucket_list(new, c) == bucket_list(marked, c));
    lemma_pushed_ordered(new, marked, i);
    lemma_hashed_frame(new, marked, None);
    let want = model(old).admitted(i, key);
    assert(model(new).order =~= want.order);
    assert(model(new).keys =~= want.keys);
}

} // verus!
