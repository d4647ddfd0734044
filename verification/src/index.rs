//! The cache index: the resident entries, their recency, and the two-phase
//! eviction that lets several write-backs be under way at once.

use crate::entry::{Entry, State};
use crate::lane::{lemma_without_members, without, LruLane, LruLaneIterator};
use std::collections::VecDeque;
use vstd::prelude::*;

verus! {

/// What the index keeps for one resident key.
#[derive(Debug, Clone, Copy, PartialEq, Eq, Structural)]
pub struct Slot {
    /// The record.
    pub entry: Entry,
    /// The entry was picked for eviction, and the pick was not called off.
    pub evicting: bool,
    /// The entry is in use and must not be picked for eviction.
    pub pinned: bool,
}

/// The slot in which a key starts out: reserved, not loaded, in use.
pub open spec fn fresh_slot(key: u32) -> Slot {
    Slot { entry: Entry { key, value: 0, state: State::Unloaded }, evicting: false, pinned: true }
}

/// The slot may be picked for eviction.
pub open spec fn reclaimable(slot: Slot) -> bool {
    !slot.evicting && !slot.pinned
}

/// The key that a scan from the least recently used end of `recency` picks for
/// eviction: the first one whose slot may be picked.
pub open spec fn victim_key(recency: Seq<u32>, table: Map<u32, Slot>) -> Option<u32>
    decreases recency.len(),
{
    if recency.len() == 0 {
        None
    } else if reclaimable(table[recency.last()]) {
        Some(recency.last())
    } else {
        victim_key(recency.drop_last(), table)
    }
}

/// The dirty entries among `recency`, the least recently used first.
pub open spec fn dirty_in(recency: Seq<u32>, table: Map<u32, Slot>) -> Seq<Entry>
    decreases recency.len(),
{
    if recency.len() == 0 {
        Seq::empty()
    } else if table[recency.last()].entry.state is Dirty {
        seq![table[recency.last()].entry] + dirty_in(recency.drop_last(), table)
    } else {
        dirty_in(recency.drop_last(), table)
    }
}

/// The list `recency` with `key` moved to the front.
pub open spec fn moved_front(recency: Seq<u32>, key: u32) -> Seq<u32> {
    seq![key] + recency.remove(recency.index_of(key))
}

/// How many of `slots` are marked as evicting.
pub open spec fn count_evicting(slots: Seq<Slot>) -> nat
    decreases slots.len(),
{
    if slots.len() == 0 {
        0
    } else {
        count_evicting(slots.drop_last()) + if slots.last().evicting {
            1nat
        } else {
            0nat
        }
    }
}

/// No more slots are marked than there are slots.
proof fn lemma_count_bound(slots: Seq<Slot>)
    ensures
        count_evicting(slots) <= slots.len(),
    decreases slots.len(),
{
    if slots.len() > 0 {
        lemma_count_bound(slots.drop_last());
    }
}

/// One more slot counts for one if it is marked.
proof fn lemma_count_push(slots: Seq<Slot>, slot: Slot)
    ensures
        count_evicting(slots.push(slot)) == count_evicting(slots) + if slot.evicting {
            1nat
        } else {
            0nat
        },
{
    assert(slots.push(slot).drop_last() =~= slots);
}

/// Replacing one slot changes the count by how the marks of the two differ.
proof fn lemma_count_update(slots: Seq<Slot>, i: int, slot: Slot)
    requires
        0 <= i < slots.len(),
    ensures
        count_evicting(slots.update(i, slot)) + (if slots[i].evicting {
            1nat
        } else {
            0nat
        }) == count_evicting(slots) + (if slot.evicting {
            1nat
        } else {
            0nat
        }),
    decreases slots.len(),
{
    if i == slots.len() - 1 {
        assert(slots.update(i, slot).drop_last() =~= slots.drop_last());
    } else {
        lemma_count_update(slots.drop_last(), i, slot);
        assert(slots.update(i, slot).drop_last() =~= slots.drop_last().update(i, slot));
    }
}

/// The cache index. `recency()` lists the resident keys, the most recently used
/// first, and `table()` gives the slot of each.
pub struct CacheIndex {
    capacity: usize,
    threshold: usize,
    lane: LruLane,
    slots: Vec<Slot>,
    free: VecDeque<usize>,
    n_evicting: usize,
}

impl CacheIndex {
    /// The recency lane that orders the slots.
    pub closed spec fn lane(&self) -> &LruLane {
        &self.lane
    }

    /// The resident keys, from the most recently used to the least recently used.
    pub closed spec fn recency(&self) -> Seq<u32> {
        Seq::new(self.lane.order().len(), |j: int| self.lane.key_of(self.lane.order()[j] as int))
    }

    /// The slot of each resident key.
    pub closed spec fn table(&self) -> Map<u32, Slot> {
        Map::new(
            |k: u32| self.lane.index_map().contains_key(k),
            |k: u32| self.slots@[self.lane.index_map()[k] as int],
        )
    }

    /// The index of the slot that holds the resident key `key`.
    pub closed spec fn slot_of(&self, key: u32) -> usize {
        self.lane.index_map()[key]
    }

    /// How many slots have been allocated so far.
    pub closed spec fn slot_count(&self) -> nat {
        self.slots@.len()
    }

    /// The freed slots that await reuse, the one that was freed first in front.
    pub closed spec fn free_slots(&self) -> Seq<usize> {
        self.free@
    }

    /// The number of resident entries from which on every miss asks for an eviction.
    pub closed spec fn room(&self) -> usize {
        self.capacity
    }

    /// The number of entries that may be marked as evicting before a miss stops
    /// asking for more.
    pub closed spec fn reclaim_threshold(&self) -> usize {
        self.threshold
    }

    /// The number of entries that are marked as evicting.
    pub closed spec fn evictions(&self) -> nat {
        count_evicting(self.slots@)
    }

    /// The key that `reclaim` would pick now.
    pub open spec fn victim(&self) -> Option<u32> {
        victim_key(self.recency(), self.table())
    }

    /// A linked slot holds a resident entry under the key that the lane has for
    /// it; a slot that is not linked carries no mark.
    pub closed spec fn slot_ok(&self, i: int) -> bool {
        if self.lane.order().contains(i as usize) {
            &&& self.slots@[i].entry.key == self.lane.key_of(i)
            &&& self.slots@[i].entry.state !is Uninitialized
            &&& self.slots@[i].entry.state !is Stale
        } else {
            &&& !self.slots@[i].evicting
            &&& !self.slots@[i].pinned
        }
    }

    /// Well-formedness: list and key map agree, the counters are right, and the
    /// freed slots are exactly set aside.
    pub closed spec fn wf(&self) -> bool {
        &&& self.lane.wf()
        &&& self.lane.slot_count() == self.slots@.len()
        &&& 2 <= self.capacity
        &&& 1 <= self.threshold < self.capacity
        &&& self.n_evicting == count_evicting(self.slots@)
        &&& self.lane.order().len() + self.free@.len() == self.slots@.len()
        &&& self.free@.no_duplicates()
        &&& forall|j: int|
            0 <= j < self.free@.len() ==> (#[trigger] self.free@[j]) < self.slots@.len()
                && !self.lane.order().contains(self.free@[j])
        &&& forall|i: int| 0 <= i < self.slots@.len() ==> #[trigger] self.slot_ok(i)
    }

    /// In a well-formed index no key is resident twice, the table holds exactly
    /// the resident keys, each under its own key and in a state that a resident
    /// entry can have, and the limits are in the order that they must have.
    pub proof fn lemma_wf(&self)
        requires
            self.wf(),
        ensures
            self.lane().wf(),
            self.recency().no_duplicates(),
            forall|k: u32| self.table().contains_key(k) <==> self.recency().contains(k),
            forall|k: u32| #[trigger]
                self.table().contains_key(k) ==> {
                    &&& self.table()[k].entry.key == k
                    &&& self.table()[k].entry.state !is Uninitialized
                    &&& self.table()[k].entry.state !is Stale
                    &&& self.slot_of(k) < self.slot_count()
                    &&& !self.free_slots().contains(self.slot_of(k))
                },
            forall|a: u32, b: u32|
                self.table().contains_key(a) && self.table().contains_key(b) && a != b
                    ==> self.slot_of(a) != self.slot_of(b),
            2 <= self.room(),
            1 <= self.reclaim_threshold() < self.room(),
    {
        self.lemma_keys();
        assert forall|k: u32| #[trigger] self.table().contains_key(k) implies {
            &&& self.table()[k].entry.key == k
            &&& self.table()[k].entry.state !is Uninitialized
            &&& self.table()[k].entry.state !is Stale
            &&& self.slot_of(k) < self.slot_count()
            &&& !self.free_slots().contains(self.slot_of(k))
        } by {
            let s = self.lane.index_map()[k];
            assert(self.slot_ok(s as int));
            if self.free@.contains(s) {
                let j = self.free@.index_of(s);
                assert(self.free@[j] == s);
            }
        }
    }

    /// How the keys in recency order relate to the slots in list order.
    proof fn lemma_keys(&self)
        requires
            self.lane.wf(),
        ensures
            self.recency().len() == self.lane.order().len(),
            self.recency().no_duplicates(),
            forall|j: int|
                0 <= j < self.recency().len() ==> #[trigger] self.recency()[j] == self.lane.key_of(
                    self.lane.order()[j] as int,
                ) && self.lane.index_map().contains_key(self.recency()[j])
                    && self.lane.index_map()[self.recency()[j]] == self.lane.order()[j],
            forall|k: u32|
                self.lane.index_map().contains_key(k) <==> self.recency().contains(k),
            forall|k: u32| #[trigger]
                self.lane.index_map().contains_key(k) ==> {
                    &&& self.lane.order().contains(self.lane.index_map()[k])
                    &&& self.lane.index_map()[k] < self.lane.slot_count()
                    &&& self.lane.key_of(self.lane.index_map()[k] as int) == k
                    &&& self.recency().index_of(k) == self.lane.order().index_of(
                        self.lane.index_map()[k],
                    )
                    &&& 0 <= self.recency().index_of(k) < self.recency().len()
                    &&& self.recency()[self.recency().index_of(k)] == k
                },
    {
        self.lane.lemma_order_in_bounds();
        let order = self.lane.order();
        let recency = self.recency();
        assert forall|j: int| 0 <= j < recency.len() implies #[trigger] recency[j]
            == self.lane.key_of(order[j] as int) && self.lane.index_map().contains_key(recency[j])
            && self.lane.index_map()[recency[j]] == order[j] by {
            let s = order[j];
        }
        assert forall|a: int, b: int|
            0 <= a < recency.len() && 0 <= b < recency.len() && a != b implies recency[a]
            != recency[b] by {
            assert(self.lane.index_map()[recency[a]] == order[a]);
            assert(self.lane.index_map()[recency[b]] == order[b]);
        }
        assert forall|k: u32| #[trigger] self.lane.index_map().contains_key(k) implies {
            &&& order.contains(self.lane.index_map()[k])
            &&& self.lane.index_map()[k] < self.lane.slot_count()
            &&& self.lane.key_of(self.lane.index_map()[k] as int) == k
            &&& recency.index_of(k) == order.index_of(self.lane.index_map()[k])
            &&& 0 <= recency.index_of(k) < recency.len()
            &&& recency[recency.index_of(k)] == k
        } by {
            let s = self.lane.index_map()[k];
            let p = order.index_of(s);
            assert(order[p] == s);
            assert(recency[p] == k);
            let q = recency.index_of(k);
            assert(recency[q] == k);
        }
        assert forall|k: u32| self.lane.index_map().contains_key(k) <==> recency.contains(k) by {
            if self.lane.index_map().contains_key(k) {
                let p = order.index_of(self.lane.index_map()[k]);
                assert(recency[p] == k);
            }
            if recency.contains(k) {
                let q = recency.index_of(k);
                assert(recency[q] == k);
            }
        }
    }

    /// An empty index for `capacity` resident entries, of which up to
    /// `threshold` may be evicting at once.
    pub fn new(capacity: usize, threshold: usize) -> (index: CacheIndex)
        requires
            2 <= capacity,
            1 <= threshold < capacity,
        ensures
            index.wf(),
            index.recency() == Seq::<u32>::empty(),
            index.table() == Map::<u32, Slot>::empty(),
            index.free_slots() == Seq::<usize>::empty(),
            index.slot_count() == 0,
            index.evictions() == 0,
            index.room() == capacity,
            index.reclaim_threshold() == threshold,
    {
        let index = CacheIndex {
            capacity,
            threshold,
            lane: LruLane::new(capacity),
            slots: Vec::new(),
            free: VecDeque::new(),
            n_evicting: 0,
        };
        proof {
            assert(index.recency() =~= Seq::<u32>::empty());
            assert(index.table() =~= Map::<u32, Slot>::empty());
        }
        index
    }

    /// The number of resident entries from which on every miss asks for an eviction.
    pub fn capacity(&self) -> (n: usize)
        ensures
            n == self.room(),
    {
        self.capacity
    }

    /// The number of entries that may be evicting at once.
    pub fn threshold(&self) -> (n: usize)
        ensures
            n == self.reclaim_threshold(),
    {
        self.threshold
    }

    /// The number of resident entries.
    pub fn len(&self) -> (n: usize)
        requires
            self.wf(),
        ensures
            n == self.recency().len(),
    {
        proof {
            self.lemma_keys();
        }
        self.slots.len() - self.free.len()
    }

    /// The number of entries that are marked as evicting.
    pub fn evicting(&self) -> (n: usize)
        requires
            self.wf(),
        ensures
            n == self.evictions(),
    {
        self.n_evicting
    }

    /// Whether `key` is resident.
    pub fn contains(&self, key: u32) -> (resident: bool)
        ensures
            resident == self.table().contains_key(key),
    {
        self.lane.lookup(key).is_some()
    }

    /// The resident entry of `key`, without a change to its recency.
    pub fn get_untouched(&self, key: u32) -> (entry: &Entry)
        requires
            self.wf(),
            self.table().contains_key(key),
        ensures
            *entry == self.table()[key].entry,
    {
        proof {
            self.lemma_keys();
        }
        let i = self.lane.lookup(key).unwrap();
        &self.slots[i].entry
    }

    /// Whether the resident `key` is marked as evicting.
    pub fn is_evicting(&self, key: u32) -> (evicting: bool)
        requires
            self.wf(),
            self.table().contains_key(key),
        ensures
            evicting == self.table()[key].evicting,
    {
        proof {
            self.lemma_keys();
        }
        let i = self.lane.lookup(key).unwrap();
        self.slots[i].evicting
    }
    /// Everything about where the slots lie is the same in `self` and `other`.
    pub open spec fn same_layout(&self, other: &CacheIndex) -> bool {
        &&& self.free_slots() == other.free_slots()
        &&& self.slot_count() == other.slot_count()
        &&& self.room() == other.room()
        &&& self.reclaim_threshold() == other.reclaim_threshold()
        &&& forall|k: u32|
            self.table().contains_key(k) && other.table().contains_key(k) ==> #[trigger] self.slot_of(k)
                == other.slot_of(k)
    }

    /// The key that is picked for eviction is resident, and was neither in use
    /// nor marked already.
    pub proof fn lemma_victim(recency: Seq<u32>, table: Map<u32, Slot>)
        ensures
            victim_key(recency, table) matches Some(key) ==> recency.contains(key) && reclaimable(
                table[key],
            ),
            victim_key(recency, table) is None ==> forall|j: int|
                0 <= j < recency.len() ==> !reclaimable(table[#[trigger] recency[j]]),
        decreases recency.len(),
    {
        if recency.len() > 0 {
            let last = recency.len() - 1;
            if reclaimable(table[recency.last()]) {
                assert(recency[last] == recency.last());
            } else {
                Self::lemma_victim(recency.drop_last(), table);
                if let Some(key) = victim_key(recency, table) {
                    let j = recency.drop_last().index_of(key);
                    assert(recency[j] == key);
                }
                if victim_key(recency, table) is None {
                    assert forall|j: int| 0 <= j < recency.len() implies !reclaimable(
                        table[#[trigger] recency[j]],
                    ) by {
                        if j < last {
                            assert(recency.drop_last()[j] == recency[j]);
                        }
                    }
                }
            }
        }
    }

    /// Replaces what the index keeps for the resident `key`.
    fn put_slot(&mut self, key: u32, slot: Slot)
        requires
            old(self).wf(),
            old(self).table().contains_key(key),
            slot.entry.key == key,
            slot.entry.state !is Uninitialized,
            slot.entry.state !is Stale,
        ensures
            final(self).wf(),
            final(self).recency() == old(self).recency(),
            final(self).table() == old(self).table().insert(key, slot),
            final(self).evictions() + (if old(self).table()[key].evicting {
                1nat
            } else {
                0nat
            }) == old(self).evictions() + (if slot.evicting {
                1nat
            } else {
                0nat
            }),
            final(self).same_layout(old(self)),
            final(self).lane() == old(self).lane(),
    {
        let ghost before = *self;
        proof {
            before.lemma_keys();
        }
        let i = self.lane.lookup(key).unwrap();
        let was = self.slots[i].evicting;
        self.slots[i] = slot;
        proof {
            lemma_count_update(before.slots@, i as int, slot);
            lemma_count_bound(self.slots@);
        }
        if was && !slot.evicting {
            self.n_evicting = self.n_evicting - 1;
        } else if !was && slot.evicting {
            assert(count_evicting(self.slots@) == self.n_evicting + 1);
            assert(self.slots@.len() == self.slots.len());
            self.n_evicting = self.n_evicting + 1;
        }
        proof {
            assert forall|s: int| 0 <= s < self.slots@.len() implies #[trigger] self.slot_ok(s) by {
                assert(before.slot_ok(s));
            }
            assert(self.recency() =~= before.recency());
            assert(self.table() =~= before.table().insert(key, slot)) by {
                assert forall|k: u32| #[trigger] self.table().contains_key(k) implies self.table()[k]
                    == before.table().insert(key, slot)[k] by {
                    if k != key {
                        assert(before.lane.index_map()[k] != i);
                    }
                }
            }
        }
    }

    /// Moves the resident `key` to the front of the recency order and calls off
    /// its eviction, if one was marked.
    pub fn touch(&mut self, key: u32)
        requires
            old(self).wf(),
            old(self).table().contains_key(key),
        ensures
            final(self).wf(),
            final(self).recency() == moved_front(old(self).recency(), key),
            final(self).table() == old(self).table().insert(
                key,
                Slot { evicting: false, ..old(self).table()[key] },
            ),
            final(self).evictions() + (if old(self).table()[key].evicting {
                1nat
            } else {
                0nat
            }) == old(self).evictions(),
            final(self).same_layout(old(self)),
    {
        let ghost before = *self;
        proof {
            before.lemma_keys();
            before.lane.lemma_order_in_bounds();
        }
        let i = self.lane.lookup(key).unwrap();
        self.lane.touch(i);
        proof {
            assert(self.slots@.len() == self.slots.len());
            let order = before.lane.order();
            let p = order.index_of(i);
            lemma_without_members(order, i);
            assert forall|s: int| 0 <= s < self.slots@.len() implies #[trigger] self.slot_ok(s) by {
                assert(before.slot_ok(s));
                let su = s as usize;
                if s == i {
                    assert(self.lane.order()[0] == i);
                } else if order.contains(su) {
                    assert(without(order, i).contains(su));
                    let w = without(order, i).index_of(su);
                    assert(without(order, i)[w] == su);
                    assert(self.lane.order()[w + 1] == su);
                } else if self.lane.order().contains(su) {
                    let w = self.lane.order().index_of(su);
                    assert(self.lane.order()[w] == su);
                    assert(without(order, i)[w - 1] == su);
                }
            }
            assert forall|j: int| 0 <= j < self.free@.len() implies !self.lane.order().contains(
                #[trigger] self.free@[j],
            ) by {
                let f = self.free@[j];
                assert(!order.contains(f));
                if self.lane.order().contains(f) {
                    let w = self.lane.order().index_of(f);
                    assert(self.lane.order()[w] == f);
                    assert(f != i);
                    assert(without(order, i)[w - 1] == f);
                }
            }
            assert(self.recency() =~= moved_front(before.recency(), key)) by {
                assert(before.recency().index_of(key) == p);
                assert forall|j: int| 0 <= j < self.recency().len() implies self.recency()[j]
                    == moved_front(before.recency(), key)[j] by {
                    if j > 0 {
                        assert(self.lane.order()[j] == order.remove(p)[j - 1]);
                        assert(before.recency().remove(p)[j - 1] == before.recency()[if j - 1 < p {
                            j - 1
                        } else {
                            j
                        }]);
                    }
                }
            }
            assert(self.table() =~= before.table());
            assert(self.wf());
        }
        let slot = Slot { entry: self.slots[i].entry, evicting: false, pinned: self.slots[i].pinned };
        proof {
            assert(self.slot_ok(i as int));
            assert(self.lane.order()[0] == i);
        }
        self.put_slot(key, slot);
    }

    /// Marks the resident `key` as in use, so that no eviction picks it.
    pub fn pin(&mut self, key: u32)
        requires
            old(self).wf(),
            old(self).table().contains_key(key),
        ensures
            final(self).wf(),
            final(self).recency() == old(self).recency(),
            final(self).table() == old(self).table().insert(
                key,
                Slot { pinned: true, ..old(self).table()[key] },
            ),
            final(self).evictions() == old(self).evictions(),
            final(self).same_layout(old(self)),
    {
        proof {
            self.lemma_wf();
        }
        let i = self.lane.lookup(key).unwrap();
        let slot = Slot { entry: self.slots[i].entry, evicting: self.slots[i].evicting, pinned: true };
        self.put_slot(key, slot);
    }

    /// Marks the resident `key` as no longer in use.
    pub fn unpin(&mut self, key: u32)
        requires
            old(self).wf(),
            old(self).table().contains_key(key),
        ensures
            final(self).wf(),
            final(self).recency() == old(self).recency(),
            final(self).table() == old(self).table().insert(
                key,
                Slot { pinned: false, ..old(self).table()[key] },
            ),
            final(self).evictions() == old(self).evictions(),
            final(self).same_layout(old(self)),
    {
        proof {
            self.lemma_wf();
        }
        let i = self.lane.lookup(key).unwrap();
        let slot = Slot { entry: self.slots[i].entry, evicting: self.slots[i].evicting, pinned: false };
        self.put_slot(key, slot);
    }

    /// Sets the value and the state of the resident `key`, and leaves its marks
    /// as they are.
    pub fn store(&mut self, key: u32, value: u64, state: State)
        requires
            old(self).wf(),
            old(self).table().contains_key(key),
            state is Unloaded || state is Fresh || state is Dirty,
        ensures
            final(self).wf(),
            final(self).recency() == old(self).recency(),
            final(self).table() == old(self).table().insert(
                key,
                Slot { entry: Entry { key, value, state }, ..old(self).table()[key] },
            ),
            final(self).evictions() == old(self).evictions(),
            final(self).same_layout(old(self)),
    {
        proof {
            self.lemma_wf();
        }
        let i = self.lane.lookup(key).unwrap();
        let slot = Slot {
            entry: Entry { key, value, state },
            evicting: self.slots[i].evicting,
            pinned: self.slots[i].pinned,
        };
        self.put_slot(key, slot);
    }
    /// The slot that the next miss takes: the freed slot that has waited
    /// longest once `room()` slots exist, and a new slot where none is free.
    pub open spec fn next_slot(&self) -> nat {
        if self.slot_count() >= self.room() && self.free_slots().len() > 0 {
            self.free_slots()[0] as nat
        } else {
            self.slot_count()
        }
    }

    /// The key that a miss on `key` marks for eviction, if any: none while the
    /// index, `key` included, holds fewer than `room()` entries or
    /// `reclaim_threshold()` evictions are marked already.
    pub open spec fn planned_victim(&self, key: u32) -> Option<u32> {
        if self.recency().len() + 1 >= self.room() && self.evictions() < self.reclaim_threshold() {
            victim_key(seq![key] + self.recency(), self.table().insert(key, fresh_slot(key)))
        } else {
            None
        }
    }

    /// Finds the slot that `reclaim` picks.
    fn scan(&self) -> (found: Option<usize>)
        requires
            self.wf(),
        ensures
            match self.victim() {
                Some(key) => found == Some(self.slot_of(key)) && self.table().contains_key(key),
                None => found is None,
            },
    {
        proof {
            self.lemma_keys();
            self.lane.lemma_order_in_bounds();
            assert(self.recency().subrange(0, self.recency().len() as int) =~= self.recency());
        }
        let ghost order = self.lane.order();
        let ghost recency = self.recency();
        let mut iter = LruLaneIterator::new(&self.lane);
        loop
            invariant
                self.wf(),
                iter.wf(),
                iter.lane() == &self.lane,
                order == self.lane.order(),
                recency == self.recency(),
                recency.len() == order.len(),
                iter.remaining().len() <= order.len(),
                forall|j: int|
                    0 <= j < iter.remaining().len() ==> #[trigger] iter.remaining()[j]
                        == order[iter.remaining().len() - 1 - j],
                victim_key(recency, self.table()) == victim_key(
                    recency.subrange(0, iter.remaining().len() as int),
                    self.table(),
                ),
            decreases iter.remaining().len(),
        {
            let ghost rest = iter.remaining();
            let ghost m = rest.len() as int;
            match iter.next() {
                Some(i) => {
                    proof {
                        self.lemma_keys();
                        self.lane.lemma_order_in_bounds();
                        assert(rest[0] == order[m - 1]);
                        assert(recency[m - 1] == self.lane.key_of(i as int));
                        assert(self.lane.index_map()[recency[m - 1]] == i);
                        assert(recency.subrange(0, m).last() == recency[m - 1]);
                        assert(recency.subrange(0, m).drop_last() =~= recency.subrange(0, m - 1));
                        assert forall|j: int| 0 <= j < iter.remaining().len() implies #[trigger]
                            iter.remaining()[j] == order[iter.remaining().len() - 1 - j] by {
                            assert(iter.remaining()[j] == rest[j + 1]);
                        }
                    }
                    if !self.slots[i].evicting && !self.slots[i].pinned {
                        return Some(i);
                    }
                },
                None => {
                    proof {
                        assert(recency.subrange(0, 0).len() == 0);
                    }
                    return None;
                },
            }
        }
    }

    /// Picks a victim: scans from the least recently used entry toward the most
    /// recently used one for the first that is neither marked as evicting nor in
    /// use, marks it, and returns it. Returns `None` where there is no such entry.
    pub fn reclaim(&mut self) -> (victim: Option<Entry>)
        requires
            old(self).wf(),
        ensures
            final(self).wf(),
            final(self).recency() == old(self).recency(),
            final(self).same_layout(old(self)),
            match old(self).victim() {
                Some(key) => {
                    &&& victim == Some(old(self).table()[key].entry)
                    &&& old(self).table().contains_key(key)
                    &&& reclaimable(old(self).table()[key])
                    &&& final(self).table() == old(self).table().insert(
                        key,
                        Slot { evicting: true, ..old(self).table()[key] },
                    )
                    &&& final(self).evictions() == old(self).evictions() + 1
                },
                None => {
                    &&& victim is None
                    &&& final(self).table() == old(self).table()
                    &&& final(self).evictions() == old(self).evictions()
                },
            },
            old(self).evictions() < old(self).reclaim_threshold() ==> final(self).evictions()
                <= final(self).reclaim_threshold(),
    {
        proof {
            self.lemma_wf();
            Self::lemma_victim(self.recency(), self.table());
        }
        match self.scan() {
            Some(i) => {
                let key = self.slots[i].entry.key;
                let slot = Slot { entry: self.slots[i].entry, evicting: true, pinned: self.slots[i].pinned };
                self.put_slot(key, slot);
                Some(slot.entry)
            },
            None => None,
        }
    }

    /// Picks one more victim, as `reclaim` does: for use when a write-back has
    /// completed for an entry whose eviction was called off.
    pub fn evicting_new(&mut self) -> (victim: Option<Entry>)
        requires
            old(self).wf(),
        ensures
            final(self).wf(),
            final(self).recency() == old(self).recency(),
            final(self).same_layout(old(self)),
            match old(self).victim() {
                Some(key) => {
                    &&& victim == Some(old(self).table()[key].entry)
                    &&& old(self).table().contains_key(key)
                    &&& reclaimable(old(self).table()[key])
                    &&& final(self).table() == old(self).table().insert(
                        key,
                        Slot { evicting: true, ..old(self).table()[key] },
                    )
                    &&& final(self).evictions() == old(self).evictions() + 1
                },
                None => {
                    &&& victim is None
                    &&& final(self).table() == old(self).table()
                    &&& final(self).evictions() == old(self).evictions()
                },
            },
            old(self).evictions() < old(self).reclaim_threshold() ==> final(self).evictions()
                <= final(self).reclaim_threshold(),
    {
        self.reclaim()
    }

    /// Makes the non-resident `key` resident, as the most recently used entry,
    /// reserved and in use.
    fn insert(&mut self, key: u32)
        requires
            old(self).wf(),
            !old(self).table().contains_key(key),
        ensures
            final(self).wf(),
            final(self).recency() == seq![key] + old(self).recency(),
            final(self).table() == old(self).table().insert(key, fresh_slot(key)),
            final(self).evictions() == old(self).evictions(),
            final(self).slot_of(key) == old(self).next_slot(),
            final(self).room() == old(self).room(),
            final(self).reclaim_threshold() == old(self).reclaim_threshold(),
            old(self).next_slot() == old(self).slot_count() ==> final(self).slot_count()
                == old(self).slot_count() + 1 && final(self).free_slots() == old(self).free_slots(),
            old(self).next_slot() != old(self).slot_count() ==> final(self).slot_count()
                == old(self).slot_count() && final(self).free_slots()
                == old(self).free_slots().drop_first(),
            forall|k: u32|
                old(self).table().contains_key(k) ==> #[trigger] final(self).slot_of(k) == old(self).slot_of(k),
    {
        let ghost before = *self;
        let fresh = Slot {
            entry: Entry { key, value: 0, state: State::Unloaded },
            evicting: false,
            pinned: true,
        };
        proof {
            before.lemma_keys();
            before.lane.lemma_order_in_bounds();
            assert(self.slots@.len() == self.slots.len());
        }
        let reuse = self.slots.len() >= self.capacity && self.free.len() > 0;
        if reuse {
            let i = self.free.pop_front().unwrap();
            proof {
                assert(before.free@[0] == i);
                assert(before.slot_ok(i as int));
            }
            self.lane.reuse(i, key);
            self.slots[i] = fresh;
            proof {
                lemma_count_update(before.slots@, i as int, fresh);
                assert(self.free@ =~= before.free@.drop_first());
                assert forall|j: int| 0 <= j < self.free@.len() implies (#[trigger] self.free@[j])
                    < self.slots@.len() && !self.lane.order().contains(self.free@[j]) by {
                    let f = self.free@[j];
                    assert(f == before.free@[j + 1]);
                    if self.lane.order().contains(f) {
                        let w = self.lane.order().index_of(f);
                        assert(self.lane.order()[w] == f);
                        assert(before.lane.order()[w - 1] == f);
                    }
                }
                assert forall|s: int| 0 <= s < self.slots@.len() implies #[trigger] self.slot_ok(
                    s,
                ) by {
                    assert(before.slot_ok(s));
                    let su = s as usize;
                    if s == i {
                        assert(self.lane.order()[0] == i);
                    } else if before.lane.order().contains(su) {
                        let w = before.lane.order().index_of(su);
                        assert(before.lane.order()[w] == su);
                        assert(self.lane.order()[w + 1] == su);
                    } else if self.lane.order().contains(su) {
                        let w = self.lane.order().index_of(su);
                        assert(self.lane.order()[w] == su);
                        assert(before.lane.order()[w - 1] == su);
                    }
                }
            }
        } else {
            let i = self.lane.allot(key);
            self.slots.push(fresh);
            proof {
                lemma_count_push(before.slots@, fresh);
                assert forall|j: int| 0 <= j < self.free@.len() implies (#[trigger] self.free@[j])
                    < self.slots@.len() && !self.lane.order().contains(self.free@[j]) by {
                    let f = self.free@[j];
                    if self.lane.order().contains(f) {
                        let w = self.lane.order().index_of(f);
                        assert(self.lane.order()[w] == f);
                        assert(before.lane.order()[w - 1] == f);
                    }
                }
                assert forall|s: int| 0 <= s < self.slots@.len() implies #[trigger] self.slot_ok(
                    s,
                ) by {
                    let su = s as usize;
                    if s == i {
                        assert(self.lane.order()[0] == i);
                    } else {
                        assert(before.slot_ok(s));
                        if before.lane.order().contains(su) {
                            let w = before.lane.order().index_of(su);
                            assert(before.lane.order()[w] == su);
                            assert(self.lane.order()[w + 1] == su);
                        } else if self.lane.order().contains(su) {
                            let w = self.lane.order().index_of(su);
                            assert(self.lane.order()[w] == su);
                            assert(before.lane.order()[w - 1] == su);
                        }
                    }
                }
            }
        }
        proof {
            assert(self.recency() =~= seq![key] + before.recency()) by {
                assert forall|j: int| 0 <= j < self.recency().len() implies self.recency()[j] == (
                seq![key] + before.recency())[j] by {
                    if j > 0 {
                        assert(self.lane.order()[j] == before.lane.order()[j - 1]);
                        assert(before.lane.order()[j - 1] < before.lane.slot_count());
                        assert(before.lane.order().contains(before.lane.order()[j - 1]));
                    }
                }
            }
            assert(self.table() =~= before.table().insert(key, fresh_slot(key))) by {
                assert forall|k: u32| #[trigger] self.table().contains_key(k) implies self.table()[k]
                    == before.table().insert(key, fresh_slot(key))[k] by {
                    if k != key {
                        let s = before.lane.index_map()[k];
                        assert(before.lane.order().contains(s));
                    }
                }
            }
        }
    }

    /// Makes the non-resident `key` resident as the most recently used entry:
    /// reserved, not loaded, and in use. It gets the freed slot that has waited
    /// longest once `room()` slots exist, and a new slot where none is free. If
    /// the index then holds `room()` entries or more and fewer than
    /// `reclaim_threshold()` evictions are marked, a victim is picked as `reclaim`
    /// does. Returns the new entry and the victim.
    pub fn get_with_evicting(&mut self, key: u32) -> (r: (Entry, Option<Entry>))
        requires
            old(self).wf(),
            !old(self).table().contains_key(key),
        ensures
            final(self).wf(),
            r.0 == fresh_slot(key).entry,
            final(self).recency() == seq![key] + old(self).recency(),
            final(self).slot_of(key) == old(self).next_slot(),
            final(self).room() == old(self).room(),
            final(self).reclaim_threshold() == old(self).reclaim_threshold(),
            old(self).next_slot() == old(self).slot_count() ==> final(self).slot_count()
                == old(self).slot_count() + 1 && final(self).free_slots() == old(self).free_slots(),
            old(self).next_slot() != old(self).slot_count() ==> final(self).slot_count()
                == old(self).slot_count() && final(self).free_slots()
                == old(self).free_slots().drop_first(),
            forall|k: u32|
                old(self).table().contains_key(k) ==> #[trigger] final(self).slot_of(k) == old(self).slot_of(k),
            match old(self).planned_victim(key) {
                Some(out) => {
                    &&& out != key
                    &&& old(self).table().contains_key(out)
                    &&& reclaimable(old(self).table()[out])
                    &&& r.1 == Some(old(self).table()[out].entry)
                    &&& final(self).table() == old(self).table().insert(key, fresh_slot(key)).insert(
                        out,
                        Slot { evicting: true, ..old(self).table()[out] },
                    )
                    &&& final(self).evictions() == old(self).evictions() + 1
                },
                None => {
                    &&& r.1 is None
                    &&& final(self).table() == old(self).table().insert(key, fresh_slot(key))
                    &&& final(self).evictions() == old(self).evictions()
                },
            },
            old(self).evictions() <= old(self).reclaim_threshold() ==> final(self).evictions()
                <= final(self).reclaim_threshold(),
    {
        let ghost before = *self;
        self.insert(key);
        let ghost mid = *self;
        let entry = Entry { key, value: 0, state: State::Unloaded };
        proof {
            Self::lemma_victim(mid.recency(), mid.table());
        }
        let victim = if self.len() >= self.capacity && self.n_evicting < self.threshold {
            self.reclaim()
        } else {
            None
        };
        proof {
            assert forall|k: u32| before.table().contains_key(k) implies #[trigger] self.slot_of(k)
                == before.slot_of(k) by {
                assert(mid.slot_of(k) == before.slot_of(k));
            }
        }
        (entry, victim)
    }

    /// Ends the residency of `key`, whose write-back has completed: takes the key
    /// out of the index, clears its marks, and puts its slot at the back of the
    /// freed slots.
    pub fn evicting_done(&mut self, key: u32)
        requires
            old(self).wf(),
            old(self).table().contains_key(key),
        ensures
            final(self).wf(),
            final(self).recency() == old(self).recency().remove(old(self).recency().index_of(key)),
            final(self).table() == old(self).table().remove(key),
            final(self).evictions() + (if old(self).table()[key].evicting {
                1nat
            } else {
                0nat
            }) == old(self).evictions(),
            final(self).free_slots() == old(self).free_slots().push(old(self).slot_of(key)),
            final(self).slot_count() == old(self).slot_count(),
            final(self).room() == old(self).room(),
            final(self).reclaim_threshold() == old(self).reclaim_threshold(),
            forall|k: u32|
                final(self).table().contains_key(k) ==> #[trigger] final(self).slot_of(k)
                    == old(self).slot_of(k),
    {
        let ghost before = *self;
        proof {
            before.lemma_keys();
            before.lane.lemma_order_in_bounds();
            assert(self.slots@.len() == self.slots.len());
        }
        let i = self.lane.lookup(key).unwrap();
        let was = self.slots[i].evicting;
        let blank = Slot { entry: Default::default(), evicting: false, pinned: false };
        self.lane.retire(i);
        self.slots[i] = blank;
        self.free.push_back(i);
        if was {
            proof {
                lemma_count_update(before.slots@, i as int, blank);
            }
            self.n_evicting = self.n_evicting - 1;
        }
        proof {
            let order = before.lane.order();
            let p = order.index_of(i);
            lemma_count_update(before.slots@, i as int, blank);
            lemma_without_members(order, i);
            assert(before.slot_ok(i as int));
            assert forall|a: int, b: int|
                0 <= a < self.free@.len() && 0 <= b < self.free@.len() && a != b implies self.free@[a]
                != self.free@[b] by {
                if a < before.free@.len() {
                    assert(before.free@[a] == self.free@[a]);
                }
                if b < before.free@.len() {
                    assert(before.free@[b] == self.free@[b]);
                }
            }
            assert forall|j: int| 0 <= j < self.free@.len() implies (#[trigger] self.free@[j])
                < self.slots@.len() && !self.lane.order().contains(self.free@[j]) by {
                if j < before.free@.len() {
                    assert(before.free@[j] == self.free@[j]);
                }
            }
            assert forall|s: int| 0 <= s < self.slots@.len() implies #[trigger] self.slot_ok(s) by {
                assert(before.slot_ok(s));
            }
            assert(self.recency() =~= before.recency().remove(before.recency().index_of(key))) by {
                assert(before.recency().index_of(key) == p);
                assert forall|j: int| 0 <= j < self.recency().len() implies self.recency()[j]
                    == before.recency().remove(p)[j] by {
                    assert(self.lane.order()[j] == order[if j < p {
                        j
                    } else {
                        j + 1
                    }]);
                }
            }
            assert(self.table() =~= before.table().remove(key)) by {
                assert forall|k: u32| #[trigger] self.table().contains_key(k) implies self.table()[k]
                    == before.table().remove(key)[k] by {
                    assert(before.lane.index_map()[k] != i);
                }
            }
        }
    }

    /// The dirty entries, the least recently used first.
    pub fn dirty_entries(&self) -> (dirty: Vec<Entry>)
        requires
            self.wf(),
        ensures
            dirty@ == dirty_in(self.recency(), self.table()),
    {
        proof {
            self.lemma_keys();
            self.lane.lemma_order_in_bounds();
            assert(self.recency().subrange(0, self.recency().len() as int) =~= self.recency());
        }
        let ghost order = self.lane.order();
        let ghost recency = self.recency();
        let mut dirty: Vec<Entry> = Vec::new();
        let mut iter = LruLaneIterator::new(&self.lane);
        loop
            invariant
                self.wf(),
                iter.wf(),
                iter.lane() == &self.lane,
                order == self.lane.order(),
                recency == self.recency(),
                recency.len() == order.len(),
                iter.remaining().len() <= order.len(),
                forall|j: int|
                    0 <= j < iter.remaining().len() ==> #[trigger] iter.remaining()[j]
                        == order[iter.remaining().len() - 1 - j],
                dirty_in(recency, self.table()) == dirty@ + dirty_in(
                    recency.subrange(0, iter.remaining().len() as int),
                    self.table(),
                ),
            ensures
                dirty@ == dirty_in(recency, self.table()),
            decreases iter.remaining().len(),
        {
            let ghost rest = iter.remaining();
            let ghost m = rest.len() as int;
            let ghost found = dirty@;
            match iter.next() {
                Some(i) => {
                    proof {
                        self.lemma_keys();
                        self.lane.lemma_order_in_bounds();
                        assert(rest[0] == order[m - 1]);
                        assert(recency[m - 1] == self.lane.key_of(i as int));
                        assert(self.lane.index_map()[recency[m - 1]] == i);
                        assert(recency.subrange(0, m).last() == recency[m - 1]);
                        assert(recency.subrange(0, m).drop_last() =~= recency.subrange(0, m - 1));
                        assert forall|j: int| 0 <= j < iter.remaining().len() implies #[trigger]
                            iter.remaining()[j] == order[iter.remaining().len() - 1 - j] by {
                            assert(iter.remaining()[j] == rest[j + 1]);
                        }
                    }
                    match self.slots[i].entry.state {
                        State::Dirty => {
                            dirty.push(self.slots[i].entry);
                            proof {
                                let tail = dirty_in(recency.subrange(0, m - 1), self.table());
                                assert(found + (seq![self.slots@[i as int].entry] + tail) =~= dirty@
                                    + tail);
                            }
                        },
                        _ => {},
                    }
                },
                None => {
                    proof {
                        assert(recency.subrange(0, 0).len() == 0);
                        assert(dirty@ + Seq::<Entry>::empty() =~= dirty@);
                    }
                    break ;
                },
            }
        }
        dirty
    }
}

} // verus!