//! Which addresses stand for which remote object.
use vstd::prelude::*;

use crate::key::Md5Digest;

verus! {

/// A half-open range of addresses: the first one, and the first one after it.
#[derive(Copy, Clone, PartialEq, Eq, Structural, PartialOrd, Ord, Debug)]
pub struct PtrRange(pub usize, pub usize);

/// An end of a range of addresses.
#[derive(Copy, Clone, PartialEq, Eq, Structural, Debug)]
pub enum Bound {
    /// The address belongs to the range.
    Included(usize),
    /// The address does not belong to the range.
    Excluded(usize),
}

/// How to get at the bytes of an object.
pub struct ReqData<Req, Cb> {
    /// Called with `data`, the range of bytes that is wanted and the place to put them.
    pub cb: Cb,
    pub data: Req,
    pub md5_digest: Md5Digest,
}

impl PtrRange {
    /// Ranges are ordered by where they start, then by where they end.
    pub open spec fn le(self, other: PtrRange) -> bool {
        self.0 < other.0 || self.0 == other.0 && self.1 <= other.1
    }

    pub open spec fn spec_contains(self, p: usize) -> bool {
        self.0 <= p < self.1
    }

    /// Where the range starts.
    pub fn start_bound(&self) -> (r: Bound)
        ensures
            r == Bound::Included(self.0),
    {
        Bound::Included(self.0)
    }

    /// Where the range ends.
    pub fn end_bound(&self) -> (r: Bound)
        ensures
            r == Bound::Excluded(self.1),
    {
        Bound::Excluded(self.1)
    }

    /// Whether `p` lies in the range.
    pub fn contains(&self, p: usize) -> (r: bool)
        ensures
            r == self.spec_contains(p),
    {
        self.0 <= p && p < self.1
    }
}

/// A map from address ranges to what is known about them, kept in the order of the ranges.
pub struct Requests<R> {
    entries: Vec<(PtrRange, R)>,
}

spec fn has<R>(entries: Seq<(PtrRange, R)>, k: PtrRange) -> bool {
    exists|i: int| 0 <= i < entries.len() && (#[trigger] entries[i]).0 == k
}

spec fn at<R>(entries: Seq<(PtrRange, R)>, k: PtrRange) -> R {
    entries[choose|i: int| 0 <= i < entries.len() && (#[trigger] entries[i]).0 == k].1
}

spec fn ascending<R>(entries: Seq<(PtrRange, R)>) -> bool {
    forall|i: int, j: int|
        0 <= i < j < entries.len() ==> (#[trigger] entries[i]).0.le((#[trigger] entries[j]).0)
            && entries[i].0 != entries[j].0
}

/// `k` is the last range of `m` that starts at or before `p`.
pub open spec fn is_floor<R>(m: Map<PtrRange, R>, p: usize, k: PtrRange) -> bool {
    &&& m.contains_key(k)
    &&& k.0 <= p
    &&& forall|x: PtrRange| #[trigger] m.contains_key(x) && x.0 <= p ==> x.le(k)
}

/// The last range of `m` that starts at or before `p`, if `p` lies in it.
pub open spec fn located<R>(m: Map<PtrRange, R>, p: usize) -> Option<PtrRange> {
    let k = choose|k: PtrRange| is_floor(m, p, k);
    if is_floor(m, p, k) && k.spec_contains(p) {
        Some(k)
    } else {
        None
    }
}

/// There is only one such range.
pub proof fn lemma_located<R>(m: Map<PtrRange, R>, p: usize, k: PtrRange)
    requires
        is_floor(m, p, k),
    ensures
        located(m, p) == if p < k.1 {
            Some(k)
        } else {
            None
        },
{
    let x = choose|x: PtrRange| is_floor(m, p, x);
    assert(x.le(k) && k.le(x));
}

impl<R> View for Requests<R> {
    type V = Map<PtrRange, R>;

    closed spec fn view(&self) -> Map<PtrRange, R> {
        Map::new(|k: PtrRange| has(self.entries@, k), |k: PtrRange| at(self.entries@, k))
    }
}

impl<R> Requests<R> {
    pub closed spec fn wf(&self) -> bool {
        ascending(self.entries@)
    }

    proof fn lemma_entry(&self, i: int)
        requires
            self.wf(),
            0 <= i < self.entries@.len(),
        ensures
            self@.contains_key(self.entries@[i].0),
            self@[self.entries@[i].0] == self.entries@[i].1,
    {
        let e = self.entries@;
        let k = e[i].0;
        let j = choose|j: int| 0 <= j < e.len() && (#[trigger] e[j]).0 == k;
        assert(e[i].0 == k);
        if i < j {
            assert(e[i].0 != e[j].0);
        } else if j < i {
            assert(e[j].0 != e[i].0);
        }
    }

    pub fn new() -> (r: Requests<R>)
        ensures
            r.wf(),
            r@ == Map::<PtrRange, R>::empty(),
    {
        let r = Requests { entries: Vec::new() };
        assert(r@ =~= Map::<PtrRange, R>::empty());
        r
    }

    /// How many entries start before `p`, or at it.
    fn rank(&self, p: usize) -> (r: usize)
        requires
            self.wf(),
        ensures
            r <= self.entries@.len(),
            forall|i: int| 0 <= i < r ==> (#[trigger] self.entries@[i]).0.0 <= p,
            forall|i: int| r <= i < self.entries@.len() ==> (#[trigger] self.entries@[i]).0.0 > p,
    {
        let mut lo: usize = 0;
        let mut hi: usize = self.entries.len();
        while lo < hi
            invariant
                self.wf(),
                lo <= hi <= self.entries@.len(),
                forall|i: int| 0 <= i < lo ==> (#[trigger] self.entries@[i]).0.0 <= p,
                forall|i: int|
                    hi <= i < self.entries@.len() ==> (#[trigger] self.entries@[i]).0.0 > p,
            decreases hi - lo,
        {
            let mid: usize = lo + (hi - lo) / 2;
            if self.entries[mid].0.0 <= p {
                assert forall|i: int| 0 <= i < mid + 1 implies (#[trigger] self.entries@[i]).0.0
                    <= p by {
                    if i < mid {
                        assert(self.entries@[i].0.le(self.entries@[mid as int].0));
                    }
                }
                lo = mid + 1;
            } else {
                assert forall|i: int| mid <= i < self.entries@.len() implies (
                #[trigger] self.entries@[i]).0.0 > p by {
                    if mid < i {
                        assert(self.entries@[mid as int].0.le(self.entries@[i].0));
                    }
                }
                hi = mid;
            }
        }
        lo
    }

    /// The last range that starts at or before `p`, if `p` lies in it.
    pub fn locate(&self, p: usize) -> (r: Option<(PtrRange, &R)>)
        requires
            self.wf(),
        ensures
            match located(self@, p) {
                Some(k) => r == Some((k, &self@[k])),
                None => r is None,
            },
    {
        let n: usize = self.rank(p);
        if n == 0 {
            assert forall|k: PtrRange| !#[trigger] is_floor(self@, p, k) by {
                if is_floor(self@, p, k) {
                    assert(has(self.entries@, k));
                }
            }
            return None;
        }
        let entry: &(PtrRange, R) = &self.entries[n - 1];
        let range: PtrRange = entry.0;
        proof {
            self.lemma_entry(n - 1);
            assert forall|x: PtrRange| #[trigger] self@.contains_key(x) && x.0 <= p implies x.le(
                range,
            ) by {
                let i = choose|i: int|
                    0 <= i < self.entries@.len() && (#[trigger] self.entries@[i]).0 == x;
                assert(has(self.entries@, x));
                if i < n - 1 {
                    assert(self.entries@[i].0.le(self.entries@[n - 1].0));
                }
            }
            lemma_located(self@, p, range);
        }
        if range.contains(p) {
            Some((range, &entry.1))
        } else {
            None
        }
    }

    /// Sets what is known about `range`.
    pub fn insert(&mut self, range: PtrRange, value: R)
        requires
            old(self).wf(),
        ensures
            final(self).wf(),
            final(self)@ == old(self)@.insert(range, value),
    {
        let mut i: usize = 0;
        while i < self.entries.len() && (self.entries[i].0.0 < range.0 || (self.entries[i].0.0
            == range.0 && self.entries[i].0.1 < range.1))
            invariant
                self.entries@ == old(self).entries@,
                i <= self.entries@.len(),
                forall|j: int|
                    0 <= j < i ==> (#[trigger] self.entries@[j]).0.le(range)
                        && self.entries@[j].0 != range,
            decreases self.entries@.len() - i,
        {
            i += 1;
        }
        let ghost e = self.entries@;
        proof {
            assert forall|j: int| i <= j < e.len() implies range.le((#[trigger] e[j]).0) by {
                if i < j {
                    assert(e[i as int].0.le(e[j].0));
                }
            }
        }
        if i < self.entries.len() && self.entries[i].0 == range {
            self.entries[i] = (range, value);
            proof {
                let f = self.entries@;
                assert(ascending(f));
                assert forall|k: PtrRange| self@.contains_key(k) == #[trigger] old(
                    self,
                )@.insert(range, value).contains_key(k) by {
                    if has(e, k) {
                        let j = choose|j: int| 0 <= j < e.len() && (#[trigger] e[j]).0 == k;
                        assert(f[j].0 == k);
                    }
                    if has(f, k) {
                        let j = choose|j: int| 0 <= j < f.len() && (#[trigger] f[j]).0 == k;
                        assert(e[j].0 == k);
                    }
                    assert(f[i as int].0 == range);
                }
                assert forall|k: PtrRange| #[trigger] self@.contains_key(k) implies self@[k]
                    == old(self)@.insert(range, value)[k] by {
                    let j = choose|j: int| 0 <= j < f.len() && (#[trigger] f[j]).0 == k;
                    self.lemma_entry(j);
                    old(self).lemma_entry(j);
                }
                assert(self@ =~= old(self)@.insert(range, value));
            }
        } else {
            proof {
                assert forall|j: int| i <= j < e.len() implies range != (#[trigger] e[j]).0 by {
                    if i < j {
                        assert(e[i as int].0.le(e[j].0));
                        assert(e[i as int].0 != e[j].0);
                    }
                }
            }
            self.entries.insert(i, (range, value));
            proof {
                let f = self.entries@;
                assert(f == e.insert(i as int, (range, value)));
                assert forall|a: int, b: int| 0 <= a < b < f.len() implies (
                #[trigger] f[a]).0.le((#[trigger] f[b]).0) && f[a].0 != f[b].0 by {
                    let x = if a < i {
                        a
                    } else {
                        a - 1
                    };
                    let y = if b < i {
                        b
                    } else {
                        b - 1
                    };
                    if a != i {
                        assert(f[a] == e[x]);
                    }
                    if b != i {
                        assert(f[b] == e[y]);
                    }
                }
                assert(ascending(f));
                assert forall|k: PtrRange| self@.contains_key(k) == #[trigger] old(
                    self,
                )@.insert(range, value).contains_key(k) by {
                    if has(e, k) {
                        let j = choose|j: int| 0 <= j < e.len() && (#[trigger] e[j]).0 == k;
                        let x = if j < i {
                            j
                        } else {
                            j + 1
                        };
                        assert(f[x].0 == k);
                    }
                    if has(f, k) && k != range {
                        let j = choose|j: int| 0 <= j < f.len() && (#[trigger] f[j]).0 == k;
                        let x = if j < i {
                            j
                        } else {
                            j - 1
                        };
                        assert(e[x].0 == k);
                    }
                    assert(f[i as int].0 == range);
                }
                assert forall|k: PtrRange| #[trigger] self@.contains_key(k) implies self@[k]
                    == old(self)@.insert(range, value)[k] by {
                    let j = choose|j: int| 0 <= j < f.len() && (#[trigger] f[j]).0 == k;
                    self.lemma_entry(j);
                    if j < i {
                        old(self).lemma_entry(j);
                    } else if j > i {
                        assert(f[j] == e[j - 1]);
                        old(self).lemma_entry(j - 1);
                    }
                }
                assert(self@ =~= old(self)@.insert(range, value));
            }
        }
    }
}

/// The last range that starts at or before `p`, if `p` lies in it, and what is known about it.
pub fn get_containing<R: Clone>(map: &Requests<R>, p: usize) -> (r: Option<(PtrRange, R)>)
    requires
        map.wf(),
    ensures
        match located(map@, p) {
            Some(k) => r matches Some((range, v)) && range == k && cloned(map@[k], v),
            None => r is None,
        },
{
    match map.locate(p) {
        Some((k, v)) => Some((k, v.clone())),
        None => None,
    }
}

} // verus!
