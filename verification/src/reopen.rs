//! Taking up a region that an earlier session left behind.
use vstd::prelude::*;

use crate::bytes;
use crate::index;
use crate::key::BlockKey;
use crate::layout;
use crate::layout::NIL;
use crate::links;
use crate::region;
use crate::region::{Cache, Header, Node, Store};

verus! {

/// Why a region cannot be taken up.
#[derive(Copy, Clone, PartialEq, Eq, Structural, Debug)]
pub enum OpenError {
    /// It was laid out for another number of slots.
    Capacity,
    /// It was laid out for another block size.
    BlockSize,
}

/// The recency list from its head: the slots `s` were met, `cur` comes next.
spec fn met(st: Store, s: Seq<u32>, cur: u32) -> bool {
    &&& s.no_duplicates()
    &&& forall|k: int| 0 <= k < s.len() ==> (#[trigger] s[k]) < st.hdr.len
    &&& st.hdr.head == if s.len() > 0 {
        s[0]
    } else {
        cur
    }
    &&& forall|k: int|
        0 <= k < s.len() ==> st.nodes[(#[trigger] s[k]) as int].next == if k + 1 < s.len() {
            s[k + 1]
        } else {
            cur
        }
    &&& forall|k: int|
        0 <= k < s.len() ==> st.nodes[(#[trigger] s[k]) as int].prev == links::or_nil(s, k - 1)
}

/// The slots `s` are where a sound recency list starts.
spec fn leads(st: Store, s: Seq<u32>, cur: u32) -> bool {
    let o = index::order(st);
    &&& s.len() <= o.len()
    &&& s == o.take(s.len() as int)
    &&& cur == links::or_nil(o, s.len() as int)
}

proof fn lemma_met(st: Store, s: Seq<u32>)
    requires
        met(st, s, NIL),
        0 < st.nodes.len() < NIL,
        st.hdr.len <= st.nodes.len(),
        st.hdr.tail == links::or_nil(s, s.len() - 1),
    ensures
        index::listed(st, s),
        index::order(st) == s,
{
    assert forall|k: int| 0 <= k < s.len() implies index::nexts(st)[(#[trigger] s[k]) as int]
        == links::or_nil(s, k + 1) by {
        assert(index::nexts(st)[s[k] as int] == st.nodes[s[k] as int].next);
    }
    links::lemma_walk(index::nexts(st), st.hdr.head, s);
}

impl<'a> Cache<'a> {
    /// Whether the slots never used are linked in ascending order.
    fn check_free(&self) -> (r: bool)
        requires
            self.shaped(),
        ensures
            r == index::free_listed(self@),
    {
        proof {
            self.lemma_shape();
        }
        let n: u32 = self.capacity();
        let used: u32 = self.len();
        if used > n {
            return false;
        }
        let first: u32 = if used < n {
            used
        } else {
            NIL
        };
        if self.free() != first {
            return false;
        }
        let mut i: u32 = used;
        while i < n
            invariant
                self.shaped(),
                n == self.slots() == self@.nodes.len(),
                n < NIL,
                used == self@.hdr.len,
                used <= i <= n,
                forall|j: int|
                    used <= j < i ==> (#[trigger] self@.nodes[j]).next == index::slot_or_nil(
                        j + 1,
                        n as int,
                    ),
            decreases n - i,
        {
            let next: u32 = if i + 1 < n {
                i + 1
            } else {
                NIL
            };
            if self.node(i).next != next {
                assert(self@.nodes[i as int].next != index::slot_or_nil(i + 1, n as int));
                return false;
            }
            i += 1;
        }
        true
    }

    /// Whether the recency list holds together.
    pub(crate) fn check_order(&self) -> (r: bool)
        requires
            self.shaped(),
        ensures
            r == index::ordered(self@, None),
    {
        proof {
            self.lemma_shape();
        }
        if !self.check_free() {
            return false;
        }
        let n: u32 = self.capacity();
        let used: u32 = self.len();
        let ghost st = self@;
        let ghost mut s: Seq<u32> = Seq::empty();
        let mut seen: Vec<bool> = vec![false; n as usize];
        let mut prev: u32 = NIL;
        let mut cur: u32 = self.head();
        proof {
            if index::ordered(st, None) {
                assert(s =~= index::order(st).take(0));
            }
        }
        while cur != NIL
            invariant
                self.shaped(),
                st == self@,
                n == self.slots() == st.nodes.len(),
                0 < n < NIL,
                used == st.hdr.len,
                used <= n,
                met(st, s, cur),
                prev == links::or_nil(s, s.len() - 1),
                index::ordered(st, None) ==> leads(st, s, cur),
                seen@.len() == n,
                forall|j: int|
                    0 <= j < n ==> #[trigger] seen@[j] == s.contains(j as u32),
                s.len() <= used,
            decreases used - s.len(),
        {
            proof {
                if index::ordered(st, None) {
                    let o = index::order(st);
                    let k = s.len() as int;
                    assert(o[k] == cur);
                    assert(index::holds(o[k] as int, used as int, None));
                    if s.contains(cur) {
                        let j = s.index_of(cur);
                        assert(o[j] == s[j]);
                    }
                    assert(st.nodes[o[k] as int].prev == links::or_nil(o, k - 1));
                    if k > 0 {
                        assert(s[k - 1] == o[k - 1]);
                    }
                }
            }
            if cur >= used || seen[cur as usize] {
                return false;
            }
            let node: Node = self.node(cur);
            if node.prev != prev {
                return false;
            }
            seen.set(cur as usize, true);
            let ghost t = s.push(cur);
            proof {
                assert forall|j: int| 0 <= j < n implies #[trigger] seen@[j] == t.contains(
                    j as u32,
                ) by {
                    if s.contains(j as u32) {
                        assert(t[s.index_of(j as u32)] == j as u32);
                    }
                    if t.contains(j as u32) {
                        let k = t.index_of(j as u32);
                        if k < s.len() {
                            assert(s[k] == j as u32);
                        }
                    }
                    if j == cur {
                        assert(t[s.len() as int] == cur);
                    }
                }
                assert(!s.contains(cur));
                assert(met(st, t, node.next)) by {
                    assert forall|k: int| 0 <= k < t.len() implies st.nodes[(
                    #[trigger] t[k]) as int].prev == links::or_nil(t, k - 1) by {
                        if k < s.len() {
                            assert(t[k] == s[k]);
                        }
                    }
                    assert forall|k: int| 0 <= k < t.len() implies st.nodes[(
                    #[trigger] t[k]) as int].next == if k + 1 < t.len() {
                        t[k + 1]
                    } else {
                        node.next
                    } by {
                        if k < s.len() {
                            assert(t[k] == s[k]);
                        }
                    }
                }
                links::lemma_distinct_len(t, used as int);
                if index::ordered(st, None) {
                    let o = index::order(st);
                    assert(t =~= o.take(t.len() as int));
                    assert(index::nexts(st)[o[s.len() as int] as int] == links::or_nil(
                        o,
                        t.len() as int,
                    ));
                }
                s = t;
            }
            prev = cur;
            cur = node.next;
        }
        if self.tail() != prev {
            proof {
                if index::ordered(st, None) {
                    assert(index::order(st) =~= s) by {
                        let o = index::order(st);
                        if s.len() < o.len() {
                            assert(index::holds(o[s.len() as int] as int, used as int, None));
                        }
                    }
                }
            }
            return false;
        }
        proof {
            lemma_met(st, s);
        }
        let mut i: u32 = 0;
        while i < used
            invariant
                i <= used <= n,
                st == self@,
                seen@.len() == n,
                used == st.hdr.len,
                s == index::order(st),
                forall|j: int|
                    0 <= j < n ==> #[trigger] seen@[j] == s.contains(j as u32),
                forall|x: u32| x < i ==> #[trigger] s.contains(x),
            decreases used - i,
        {
            assert(seen@[i as int] == s.contains(i));
            if !seen[i as usize] {
                assert(index::holds(i as int, used as int, None));
                assert(!index::ordered(st, None));
                return false;
            }
            i += 1;
        }
        true
    }
}

/// Hash bucket `b` is as it should be, and its keys differ.
spec fn bucket_sound(st: Store, b: int) -> bool {
    let s = index::bucket_list(st, b);
    &&& index::bucket_ok(st, None, b)
    &&& forall|j: int, k: int|
        0 <= j < k < s.len() ==> st.nodes[(#[trigger] s[j]) as int].key != st.nodes[(
        #[trigger] s[k]) as int].key
}

/// Hash bucket `b` from its first slot: the slots `s` were met, `cur` comes next.
spec fn met_in(st: Store, b: int, s: Seq<u32>, cur: u32) -> bool {
    &&& s.no_duplicates()
    &&& st.buckets[b] == if s.len() > 0 {
        s[0]
    } else {
        cur
    }
    &&& forall|k: int|
        0 <= k < s.len() ==> (#[trigger] s[k]) < st.hdr.len
            && st.nodes[s[k] as int].key.bucket(st.nodes.len() as int) == b
    &&& forall|k: int|
        0 <= k < s.len() ==> st.nodes[(#[trigger] s[k]) as int].chain == if k + 1 < s.len() {
            s[k + 1]
        } else {
            cur
        }
    &&& forall|j: int, k: int|
        0 <= j < k < s.len() ==> st.nodes[(#[trigger] s[j]) as int].key != st.nodes[(
        #[trigger] s[k]) as int].key
}

/// The slots `s` are where the list of a sound bucket starts.
spec fn leads_in(st: Store, b: int, s: Seq<u32>, cur: u32) -> bool {
    let o = index::bucket_list(st, b);
    &&& s.len() <= o.len()
    &&& s == o.take(s.len() as int)
    &&& cur == links::or_nil(o, s.len() as int)
}

proof fn lemma_met_in(st: Store, b: int, s: Seq<u32>)
    requires
        met_in(st, b, s, NIL),
        0 < st.nodes.len() < NIL,
        st.hdr.len <= st.nodes.len(),
        0 <= b < st.nodes.len(),
    ensures
        bucket_sound(st, b),
        index::bucket_list(st, b) == s,
{
    assert forall|k: int| 0 <= k < s.len() implies index::chains(st)[(#[trigger] s[k]) as int]
        == links::or_nil(s, k + 1) by {
        assert(index::chains(st)[s[k] as int] == st.nodes[s[k] as int].chain);
    }
    links::lemma_walk(index::chains(st), st.buckets[b], s);
}

/// The index is sound exactly if every bucket is and every slot in use is in its bucket.
proof fn lemma_hashed_iff(st: Store)
    requires
        0 < st.nodes.len() < NIL,
        st.hdr.len <= st.nodes.len(),
        st.buckets.len() == st.nodes.len(),
    ensures
        index::hashed(st, None) <==> {
            &&& forall|b: int| 0 <= b < st.nodes.len() ==> #[trigger] bucket_sound(st, b)
            &&& forall|i: int|
                #![trigger st.nodes[i]]
                0 <= i < st.hdr.len ==> index::bucket_list(
                    st,
                    st.nodes[i].key.bucket(st.nodes.len() as int),
                ).contains(i as u32)
        },
{
    let n = st.nodes.len() as int;
    let used = st.hdr.len as int;
    if index::hashed(st, None) {
        assert forall|b: int| 0 <= b < n implies #[trigger] bucket_sound(st, b) by {
            let s = index::bucket_list(st, b);
            assert(index::bucket_ok(st, None, b));
            assert forall|j: int, k: int| 0 <= j < k < s.len() implies st.nodes[(
            #[trigger] s[j]) as int].key != st.nodes[(#[trigger] s[k]) as int].key by {
                assert(index::holds(s[j] as int, used, None));
                assert(index::holds(s[k] as int, used, None));
                assert(s[j] != s[k]);
            }
        }
        assert forall|i: int|
            #![trigger st.nodes[i]]
            0 <= i < used implies index::bucket_list(st, st.nodes[i].key.bucket(n)).contains(
            i as u32,
        ) by {
            assert(index::holds(i, used, None));
        }
    }
    if {
        &&& forall|b: int| 0 <= b < st.nodes.len() ==> #[trigger] bucket_sound(st, b)
        &&& forall|i: int|
            #![trigger st.nodes[i]]
            0 <= i < st.hdr.len ==> index::bucket_list(
                st,
                st.nodes[i].key.bucket(st.nodes.len() as int),
            ).contains(i as u32)
    } {
        assert forall|b: int| 0 <= b < n implies #[trigger] index::bucket_ok(st, None, b) by {
            assert(bucket_sound(st, b));
        }
        assert forall|i: int, j: int|
            #![trigger st.nodes[i], st.nodes[j]]
            index::holds(i, used, None) && index::holds(j, used, None) && i
                != j implies st.nodes[i].key != st.nodes[j].key by {
            if st.nodes[i].key == st.nodes[j].key {
                let b = st.nodes[i].key.bucket(n);
                let s = index::bucket_list(st, b);
                vstd::arithmetic::div_mod::lemma_mod_bound(
                    st.nodes[i].key.spec_hash() as int,
                    n,
                );
                assert(bucket_sound(st, b));
                let x = s.index_of(i as u32);
                let y = s.index_of(j as u32);
                assert(s[x] == i as u32 && s[y] == j as u32);
                if x < y {
                    assert(st.nodes[s[x] as int].key != st.nodes[s[y] as int].key);
                } else {
                    assert(st.nodes[s[y] as int].key != st.nodes[s[x] as int].key);
                }
            }
        }
    }
}

impl<'a> Cache<'a> {
    /// Whether one of the slots `chain` has the key `key`.
    fn repeats(&self, chain: &Vec<u32>, key: BlockKey) -> (r: bool)
        requires
            self.shaped(),
            forall|k: int| 0 <= k < chain@.len() ==> (#[trigger] chain@[k]) < self.slots(),
        ensures
            r == exists|k: int|
                0 <= k < chain@.len() && self@.nodes[(#[trigger] chain@[k]) as int].key == key,
    {
        let mut i: usize = 0;
        while i < chain.len()
            invariant
                i <= chain@.len(),
                self.shaped(),
                forall|k: int| 0 <= k < chain@.len() ==> (#[trigger] chain@[k]) < self.slots(),
                forall|k: int|
                    0 <= k < i ==> self@.nodes[(#[trigger] chain@[k]) as int].key != key,
            decreases chain@.len() - i,
        {
            if self.node(chain[i]).key == key {
                assert(self@.nodes[chain@[i as int] as int].key == key);
                return true;
            }
            i += 1;
        }
        false
    }

    /// Whether hash bucket `b` is as it should be; marks its slots in `seen`.
    fn check_bucket(&self, b: u32, seen: &mut Vec<bool>) -> (r: bool)
        requires
            self.shaped(),
            b < self.slots(),
            self@.hdr.len <= self.slots(),
            old(seen)@.len() == self.slots(),
        ensures
            r == bucket_sound(self@, b as int),
            r ==> final(seen)@ == Seq::new(
                self.slots() as nat,
                |j: int|
                    old(seen)@[j] || index::bucket_list(self@, b as int).contains(j as u32),
            ),
    {
        proof {
            self.lemma_shape();
        }
        let n: u32 = self.capacity();
        let used: u32 = self.len();
        let ghost st = self@;
        let ghost o = index::bucket_list(st, b as int);
        let mut chain: Vec<u32> = Vec::new();
        let mut cur: u32 = self.bucket(b);
        proof {
            assert(chain@ =~= o.take(0));
        }
        while cur != NIL
            invariant
                self.shaped(),
                st == self@,
                o == index::bucket_list(st, b as int),
                n == self.slots() == st.nodes.len(),
                b < n < NIL,
                used == st.hdr.len,
                used <= n,
                met_in(st, b as int, chain@, cur),
                bucket_sound(st, b as int) ==> leads_in(st, b as int, chain@, cur),
                seen@.len() == n,
                forall|j: int|
                    0 <= j < n ==> #[trigger] seen@[j] == (old(seen)@[j] || chain@.contains(
                        j as u32,
                    )),
                chain@.len() <= used,
            decreases used - chain@.len(),
        {
            let ghost s = chain@;
            proof {
                if bucket_sound(st, b as int) {
                    let k = s.len() as int;
                    assert(o[k] == cur);
                    assert(index::holds(o[k] as int, used as int, None));
                    assert forall|j: int| 0 <= j < k implies st.nodes[(#[trigger] s[j]) as int].key
                        != st.nodes[cur as int].key by {
                        assert(o[j] == s[j]);
                    }
                }
            }
            if cur >= used {
                return false;
            }
            let node: Node = self.node(cur);
            if self.bucket_of(node.key) != b || self.repeats(&chain, node.key) {
                return false;
            }
            seen.set(cur as usize, true);
            chain.push(cur);
            proof {
                let t = chain@;
                assert forall|j: int| 0 <= j < n implies #[trigger] seen@[j] == (old(seen)@[j]
                    || t.contains(j as u32)) by {
                    if s.contains(j as u32) {
                        assert(t[s.index_of(j as u32)] == j as u32);
                    }
                    if t.contains(j as u32) {
                        let k = t.index_of(j as u32);
                        if k < s.len() {
                            assert(s[k] == j as u32);
                        }
                    }
                    if j == cur {
                        assert(t[s.len() as int] == cur);
                    }
                }
                assert(met_in(st, b as int, t, node.chain)) by {
                    assert forall|k: int| 0 <= k < t.len() implies st.nodes[(
                    #[trigger] t[k]) as int].chain == if k + 1 < t.len() {
                        t[k + 1]
                    } else {
                        node.chain
                    } by {
                        if k < s.len() {
                            assert(t[k] == s[k]);
                        }
                    }
                    assert forall|j: int, k: int| 0 <= j < k < t.len() implies st.nodes[(
                    #[trigger] t[j]) as int].key != st.nodes[(#[trigger] t[k]) as int].key by {
                        assert(t[j] == s[j]);
                        if k < s.len() {
                            assert(t[k] == s[k]);
                        }
                    }
                    assert forall|k: int| 0 <= k < t.len() implies (#[trigger] t[k]) < st.hdr.len
                        && st.nodes[t[k] as int].key.bucket(n as int) == b by {
                        if k < s.len() {
                            assert(t[k] == s[k]);
                        }
                    }
                }
                links::lemma_distinct_len(t, used as int);
                if bucket_sound(st, b as int) {
                    assert(t =~= o.take(t.len() as int));
                    assert(index::chains(st)[o[s.len() as int] as int] == links::or_nil(
                        o,
                        t.len() as int,
                    ));
                }
            }
            cur = node.chain;
        }
        proof {
            lemma_met_in(st, b as int, chain@);
        }
        true
    }

    /// Whether the hash buckets hold together.
    pub(crate) fn check_buckets(&self) -> (r: bool)
        requires
            self.shaped(),
            self@.hdr.len <= self.slots(),
        ensures
            r == index::hashed(self@, None),
    {
        proof {
            self.lemma_shape();
            lemma_hashed_iff(self@);
        }
        let n: u32 = self.capacity();
        let used: u32 = self.len();
        let ghost st = self@;
        let mut seen: Vec<bool> = vec![false; n as usize];
        let mut b: u32 = 0;
        while b < n
            invariant
                b <= n,
                self.shaped(),
                st == self@,
                n == self.slots() == st.nodes.len(),
                used == st.hdr.len,
                used <= n < NIL,
                seen@.len() == n,
                index::hashed(st, None) ==> forall|c: int|
                    0 <= c < n ==> #[trigger] bucket_sound(st, c),
                forall|c: int| 0 <= c < b ==> #[trigger] bucket_sound(st, c),
                forall|j: int|
                    0 <= j < n ==> #[trigger] seen@[j] == (st.nodes[j].key.bucket(n as int) < b
                        && index::bucket_list(st, st.nodes[j].key.bucket(n as int)).contains(
                        j as u32,
                    )),
            decreases n - b,
        {
            let ghost before = seen@;
            if !self.check_bucket(b, &mut seen) {
                return false;
            }
            proof {
                assert forall|j: int| 0 <= j < n implies #[trigger] seen@[j] == (
                st.nodes[j].key.bucket(n as int) < b + 1 && index::bucket_list(
                    st,
                    st.nodes[j].key.bucket(n as int),
                ).contains(j as u32)) by {
                    let s = index::bucket_list(st, b as int);
                    if s.contains(j as u32) {
                        assert(s[s.index_of(j as u32)] == j as u32);
                    }
                    assert(before[j] == (st.nodes[j].key.bucket(n as int) < b
                        && index::bucket_list(st, st.nodes[j].key.bucket(n as int)).contains(
                        j as u32,
                    )));
                }
            }
            b += 1;
        }
        let mut i: u32 = 0;
        while i < used
            invariant
                i <= used <= n,
                st == self@,
                n == st.nodes.len(),
                0 < n,
                seen@.len() == n,
                used == st.hdr.len,
                forall|j: int|
                    0 <= j < n ==> #[trigger] seen@[j] == (st.nodes[j].key.bucket(n as int) < n
                        && index::bucket_list(st, st.nodes[j].key.bucket(n as int)).contains(
                        j as u32,
                    )),
                forall|j: int|
                    0 <= j < i ==> index::bucket_list(
                        st,
                        (#[trigger] st.nodes[j]).key.bucket(n as int),
                    ).contains(j as u32),
            decreases used - i,
        {
            proof {
                vstd::arithmetic::div_mod::lemma_mod_bound(
                    st.nodes[i as int].key.spec_hash() as int,
                    n as int,
                );
            }
            if !seen[i as usize] {
                assert(index::holds(i as int, used as int, None));
                assert(!index::bucket_list(
                    st,
                    st.nodes[i as int].key.bucket(n as int),
                ).contains(i));
                return false;
            }
            i += 1;
        }
        true
    }

    /// Whether the header describes a region of this shape.
    fn check_header(&self) -> (r: bool)
        requires
            self.shaped(),
        ensures
            r == index::records(self@.hdr, self.slots(), self.spec_block_size()),
    {
        let hdr: Header = self.header();
        let layout: layout::RegionLayout = self.layout();
        hdr.capacity == self.capacity() && hdr.block_size == self.block_size() as u64
            && hdr.nodes_off == layout.nodes_off as u64 && hdr.buckets_off
            == layout.buckets_off as u64 && hdr.states_off == layout.states_off as u64
            && hdr.pins_off == layout.pins_off as u64 && hdr.blocks_off
            == layout.blocks_off as u64
    }

    /// Whether the index holds together, so that the cache can be worked on.
    pub fn is_sound(&self) -> (r: bool)
        requires
            self.shaped(),
        ensures
            r == self.wf(),
    {
        proof {
            self.lemma_shape();
        }
        self.check_header() && self.check_order() && self.check_buckets()
    }

    /// The cache that an earlier session left in `region`.
    ///
    /// Of the header only the number of slots and the block size are looked at; whether
    /// the rest holds together is for `is_sound` to say.
    pub fn from_raw(region: &'a mut [u8], capacity: u32, block_size: usize) -> (r: Result<
        Cache<'a>,
        OpenError,
    >)
        requires
            layout::layout_exists(capacity, block_size),
            layout::region_size(capacity as int, block_size as int) <= old(region)@.len(),
        ensures
            ({
                let st = region::decode(old(region)@, capacity as int, block_size as int);
                &&& r is Ok <==> st.hdr.capacity == capacity && st.hdr.block_size == block_size
                &&& r is Err ==> final(region)@ == old(region)@
                &&& match r {
                    Ok(cache) => {
                        &&& cache.shaped()
                        &&& cache.bytes() == old(region)@
                        &&& cache.slots() == capacity
                        &&& cache.spec_block_size() == block_size
                        &&& cache.wf() <==> index::sound(st, capacity as int, block_size as int)
                    },
                    Err(OpenError::Capacity) => st.hdr.capacity != capacity,
                    Err(OpenError::BlockSize) => {
                        &&& st.hdr.capacity == capacity
                        &&& st.hdr.block_size != block_size
                    },
                }
            }),
    {
        proof {
            layout::lemma_offsets(capacity, block_size);
            bytes::lemma_spans();
            region::law_format(region@, capacity as int, block_size as int);
            assert(0 <= capacity * block_size) by (nonlinear_arith);
        }
        if bytes::load(region, 4, 4) as u32 != capacity {
            return Err(OpenError::Capacity);
        }
        if bytes::load(region, 8, 8) as u64 != block_size as u64 {
            return Err(OpenError::BlockSize);
        }
        Ok(Cache::attach(region, capacity, block_size))
    }
}

} // verus!
