//! Linked lists of slots that are threaded through arrays of slot numbers.
use vstd::prelude::*;

use crate::layout::NIL;

verus! {

/// The entry of `s` at `k`, or `NIL` beyond its ends.
pub open spec fn or_nil(s: Seq<u32>, k: int) -> u32 {
    if 0 <= k < s.len() {
        s[k]
    } else {
        NIL
    }
}

/// Following `links` from `start` visits the slots `s`, each once, and ends.
pub open spec fn path(links: Seq<u32>, start: u32, s: Seq<u32>) -> bool {
    &&& s.no_duplicates()
    &&& forall|k: int| 0 <= k < s.len() ==> (#[trigger] s[k]) < links.len()
    &&& start == or_nil(s, 0)
    &&& forall|k: int| 0 <= k < s.len() ==> links[(#[trigger] s[k]) as int] == or_nil(s, k + 1)
}

/// The slots met by following `links` from `start`, `fuel` of them at most.
pub open spec fn walk(links: Seq<u32>, start: u32, fuel: nat) -> Seq<u32>
    decreases fuel,
{
    if fuel == 0 || start == NIL {
        Seq::empty()
    } else if start >= links.len() {
        seq![start]
    } else {
        seq![start] + walk(links, links[start as int], (fuel - 1) as nat)
    }
}

/// `s` without the slot `i`.
pub open spec fn without(s: Seq<u32>, i: u32) -> Seq<u32> {
    s.remove(s.index_of(i))
}

proof fn lemma_walk_from(links: Seq<u32>, start: u32, s: Seq<u32>, k: int, fuel: nat)
    requires
        path(links, start, s),
        links.len() <= NIL,
        0 <= k <= s.len(),
        s.len() - k <= fuel,
    ensures
        walk(links, or_nil(s, k), fuel) == s.skip(k),
    decreases fuel,
{
    if k < s.len() {
        lemma_walk_from(links, start, s, k + 1, (fuel - 1) as nat);
        assert(seq![s[k]] + s.skip(k + 1) =~= s.skip(k));
    } else {
        assert(s.skip(k) =~= Seq::empty());
    }
}

proof fn lemma_small_set(s: Set<u32>, n: int)
    requires
        s.finite(),
        0 <= n,
        forall|x: u32| #[trigger] s.contains(x) ==> x < n,
    ensures
        s.len() <= n,
    decreases n,
{
    if n == 0 {
        assert(s =~= Set::empty());
    } else if n - 1 <= u32::MAX && s.contains((n - 1) as u32) {
        lemma_small_set(s.remove((n - 1) as u32), n - 1);
    } else {
        lemma_small_set(s, n - 1);
    }
}

/// A list without repetition is no longer than the range of its entries.
pub proof fn lemma_distinct_len(s: Seq<u32>, n: int)
    requires
        s.no_duplicates(),
        0 <= n,
        forall|k: int| 0 <= k < s.len() ==> (#[trigger] s[k]) < n,
    ensures
        s.len() <= n,
{
    s.unique_seq_to_set();
    lemma_small_set(s.to_set(), n);
}

/// A path is found by walking it.
pub proof fn lemma_walk(links: Seq<u32>, start: u32, s: Seq<u32>)
    requires
        path(links, start, s),
        links.len() <= NIL,
    ensures
        s.len() <= links.len(),
        walk(links, start, links.len()) == s,
{
    lemma_distinct_len(s, links.len() as int);
    lemma_walk_from(links, start, s, 0, links.len());
    assert(s.skip(0) =~= s);
}

/// What `without` keeps, and where.
pub proof fn lemma_without(s: Seq<u32>, i: u32, p: int)
    requires
        s.no_duplicates(),
        0 <= p < s.len(),
        s[p] == i,
    ensures
        s.index_of(i) == p,
        without(s, i) == s.remove(p),
        without(s, i).no_duplicates(),
        without(s, i).len() == s.len() - 1,
        forall|k: int| 0 <= k < p ==> #[trigger] without(s, i)[k] == s[k],
        forall|k: int| p <= k < s.len() - 1 ==> #[trigger] without(s, i)[k] == s[k + 1],
        forall|x: u32| #[trigger] without(s, i).contains(x) <==> s.contains(x) && x != i,
{
    let t = s.remove(p);
    assert(s.contains(i));
    assert(s.index_of(i) == p);
    assert forall|x: u32| #[trigger] t.contains(x) <==> s.contains(x) && x != i by {
        if s.contains(x) && x != i {
            let k = s.index_of(x);
            if k < p {
                assert(t[k] == x);
            } else {
                assert(t[k - 1] == x);
            }
        }
        if t.contains(x) {
            let k = t.index_of(x);
            assert(x == if k < p {
                s[k]
            } else {
                s[k + 1]
            });
        }
    }
}

/// Links off a path do not matter to it.
pub proof fn lemma_path_frame(links: Seq<u32>, start: u32, s: Seq<u32>, other: Seq<u32>)
    requires
        path(links, start, s),
        other.len() == links.len(),
        forall|k: int| 0 <= k < s.len() ==> other[(#[trigger] s[k]) as int] == links[s[k] as int],
    ensures
        path(other, start, s),
{
}

/// A slot leaves a path when what pointed at it points past it.
pub proof fn lemma_path_remove(
    links: Seq<u32>,
    start: u32,
    s: Seq<u32>,
    p: int,
    new_links: Seq<u32>,
    new_start: u32,
)
    requires
        path(links, start, s),
        0 <= p < s.len(),
        p == 0 ==> new_links == links && new_start == links[s[p] as int],
        p > 0 ==> new_links == links.update(s[p - 1] as int, links[s[p] as int]) && new_start
            == start,
    ensures
        path(new_links, new_start, without(s, s[p])),
{
    let t = without(s, s[p]);
    lemma_without(s, s[p], p);
    assert forall|k: int| 0 <= k < t.len() implies new_links[(#[trigger] t[k]) as int] == or_nil(
        t,
        k + 1,
    ) by {
        if k < p {
            assert(t[k] == s[k]);
            if k + 1 < p {
                assert(t[k + 1] == s[k + 1]);
                assert(s[k] != s[p - 1]);
            } else if k + 1 < t.len() {
                assert(t[k + 1] == s[k + 2]);
            }
        } else {
            assert(t[k] == s[k + 1]);
            if p > 0 {
                assert(s[k + 1] != s[p - 1]);
            }
            if k + 1 < t.len() {
                assert(t[k + 1] == s[k + 2]);
            }
        }
    }
    if t.len() > 0 {
        assert(t[0] == if p == 0 {
            s[1]
        } else {
            s[0]
        });
    }
}

/// A slot enters a path at its front.
pub proof fn lemma_path_push(links: Seq<u32>, start: u32, s: Seq<u32>, i: u32)
    requires
        path(links, start, s),
        i < links.len(),
        !s.contains(i),
    ensures
        path(links.update(i as int, start), i, seq![i] + s),
{
    let t = seq![i] + s;
    let new_links = links.update(i as int, start);
    assert forall|k: int| 0 <= k < t.len() implies new_links[(#[trigger] t[k]) as int] == or_nil(
        t,
        k + 1,
    ) by {
        if k > 0 {
            assert(t[k] == s[k - 1]);
            assert(s.contains(s[k - 1]));
        }
        if k + 1 < t.len() {
            assert(t[k + 1] == s[k]);
        }
    }
    assert(t.no_duplicates()) by {
        assert forall|a: int, b: int| 0 <= a < b < t.len() implies t[a] != t[b] by {
            assert(t[b] == s[b - 1]);
            assert(s.contains(s[b - 1]));
            if a > 0 {
                assert(t[a] == s[a - 1]);
            }
        }
    }
}

} // verus!
