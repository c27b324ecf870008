//! What a block cache is, apart from how it is linked together.
use vstd::prelude::*;

use crate::key::BlockKey;
use crate::layout::NIL;
use crate::links;
use crate::slots::{LOADING, READY};

verus! {

/// The contents of a cache.
///
/// Slots are numbered from zero and taken in that order; the slots in use are those
/// that have a key.
#[verifier::ext_equal]
pub struct Model {
    /// The slots in use by recency, the most recently used first.
    pub order: Seq<u32>,
    /// The key of each slot in use.
    pub keys: Seq<BlockKey>,
    /// The state of each slot.
    pub states: Seq<u8>,
    /// How many handles of each slot are out.
    pub pins: Seq<u16>,
    /// The block of each slot.
    pub blocks: Seq<Seq<u8>>,
}

/// What is done to a cache.
pub enum Op {
    /// A block was asked for in vain.
    Wait,
    /// A handle on the block of a slot was handed out.
    Hit(u32),
    /// Room was made in a slot for a block, and a handle on it handed out.
    Admit(u32, BlockKey),
    /// The block of a slot was filled, and can be read from then on.
    Publish(u32, Seq<u8>),
    /// A handle on the block of a slot was given back.
    Release(u32),
}

impl Model {
    /// Each slot in use is in the recency list once, and no key is held twice.
    pub open spec fn valid(self) -> bool {
        &&& 0 < self.states.len() < NIL
        &&& self.pins.len() == self.states.len()
        &&& self.blocks.len() == self.states.len()
        &&& self.keys.len() <= self.states.len()
        &&& self.keys.no_duplicates()
        &&& self.order.no_duplicates()
        &&& self.order.len() == self.keys.len()
        &&& forall|k: int| 0 <= k < self.order.len() ==> (#[trigger] self.order[k]) < self.keys.len()
        &&& forall|i: u32| i < self.keys.len() ==> #[trigger] self.order.contains(i)
    }

    /// The slot that holds the block `key`.
    pub open spec fn slot_of(self, key: BlockKey) -> Option<u32> {
        if self.keys.contains(key) {
            Some(self.keys.index_of(key) as u32)
        } else {
            None
        }
    }

    /// The block of slot `i` can be read.
    pub open spec fn ready(self, i: u32) -> bool {
        self.states[i as int] == READY
    }

    /// Slot `i` may give up its block: it can be read and nobody does.
    pub open spec fn idle(self, i: u32) -> bool {
        self.pins[i as int] == 0 && self.ready(i)
    }

    /// The least recently used idle slot among the first `k` in recency order.
    pub open spec fn last_idle(self, k: int) -> Option<u32>
        decreases k,
    {
        if k <= 0 {
            None
        } else if self.idle(self.order[k - 1]) {
            Some(self.order[k - 1])
        } else {
            self.last_idle(k - 1)
        }
    }

    /// The slot that gives up its block when one is needed.
    pub open spec fn victim(self) -> Option<u32> {
        self.last_idle(self.order.len() as int)
    }

    /// The slot that a new block goes into: one never used, else the victim.
    pub open spec fn target(self) -> Option<u32> {
        if self.keys.len() < self.states.len() {
            Some(self.keys.len() as u32)
        } else {
            self.victim()
        }
    }

    /// The block `key` can be had at once, by reading it or by fetching it.
    pub open spec fn available(self, key: BlockKey) -> bool {
        match self.slot_of(key) {
            Some(i) => self.ready(i),
            None => self.target() is Some,
        }
    }

    /// Slot `i` became the most recently used one.
    pub open spec fn used(self, i: u32) -> Model {
        Model {
            order: seq![i] + if self.order.contains(i) {
                links::without(self.order, i)
            } else {
                self.order
            },
            ..self
        }
    }

    /// One more handle of slot `i` is out; the count wraps around.
    pub open spec fn pinned(self, i: u32) -> Model {
        Model {
            pins: self.pins.update(
                i as int,
                if self.pins[i as int] == u16::MAX {
                    0
                } else {
                    (self.pins[i as int] + 1) as u16
                },
            ),
            ..self
        }
    }

    /// One handle of slot `i` came back; the count wraps around.
    pub open spec fn released(self, i: u32) -> Model {
        Model {
            pins: self.pins.update(
                i as int,
                if self.pins[i as int] == 0 {
                    u16::MAX
                } else {
                    (self.pins[i as int] - 1) as u16
                },
            ),
            ..self
        }
    }

    /// Slot `i` was given to the block `key`, which is still to be fetched.
    pub open spec fn admitted(self, i: u32, key: BlockKey) -> Model {
        Model {
            keys: if i < self.keys.len() {
                self.keys.update(i as int, key)
            } else {
                self.keys.push(key)
            },
            states: self.states.update(i as int, LOADING),
            pins: self.pins.update(i as int, 0),
            ..self.used(i)
        }
    }

    /// The block of slot `i` became `data`, and can be read.
    pub open spec fn published(self, i: u32, data: Seq<u8>) -> Model {
        Model {
            states: self.states.update(i as int, READY),
            blocks: self.blocks.update(i as int, data),
            ..self
        }
    }
}

impl Model {
    /// `next` comes from handing out a handle on the block of slot `i`.
    pub open spec fn hits(self, next: Model, i: u32) -> bool {
        &&& i < self.keys.len()
        &&& self.ready(i)
        &&& next == self.used(i).pinned(i)
    }

    /// `next` comes from making room in slot `i` for the block `key`, which is not held.
    pub open spec fn admits(self, next: Model, i: u32, key: BlockKey) -> bool {
        &&& self.slot_of(key) is None
        &&& self.target() == Some(i)
        &&& next == self.admitted(i, key).pinned(i)
    }

    /// `next` comes from publishing a block that was being fetched.
    pub open spec fn publishes(self, next: Model, i: u32, data: Seq<u8>) -> bool {
        &&& i < self.keys.len()
        &&& self.states[i as int] == LOADING
        &&& next == self.published(i, data)
    }

    /// `next` comes from giving a handle back.
    pub open spec fn releases(self, next: Model, i: u32) -> bool {
        &&& i < self.keys.len()
        &&& self.pins[i as int] > 0
        &&& next == self.released(i)
    }

    /// `next` comes from the operation `op`.
    pub open spec fn does(self, op: Op, next: Model) -> bool {
        match op {
            Op::Wait => next == self,
            Op::Hit(i) => self.hits(next, i),
            Op::Admit(i, key) => self.admits(next, i, key),
            Op::Publish(i, data) => self.publishes(next, i, data),
            Op::Release(i) => self.releases(next, i),
        }
    }

    /// `next` comes from one operation.
    pub open spec fn step(self, next: Model) -> bool {
        ||| next == self
        ||| exists|i: u32| self.hits(next, i)
        ||| exists|i: u32, key: BlockKey| self.admits(next, i, key)
        ||| exists|i: u32, data: Seq<u8>| self.publishes(next, i, data)
        ||| exists|i: u32| self.releases(next, i)
    }
}

} // verus!
