//! Caches that hand out one entry per lock: a cache of a single slot, and a
//! cache of many slots that replaces the least recently used.

use crate::entry::{loaded, settled, Entry, Lazy, State};
use crate::lane::{lru_first, LruLane, LruLaneIterator};
use vstd::prelude::*;

verus! {

/// What a settled entry turns into when it is locked for `key`: left alone if
/// it already holds `key`, and else reserved for `key`, remembering the key of a
/// dirty record that has to be written back first.
pub open spec fn prepared(entry: Entry, key: u32) -> Entry {
    match entry.state {
        State::Uninitialized => Entry { key, value: 0, state: State::Unloaded },
        State::Fresh => if entry.key != key {
            Entry { key, value: entry.value, state: State::Unloaded }
        } else {
            entry
        },
        State::Dirty => if entry.key != key {
            Entry { key, value: entry.value, state: State::Stale(entry.key) }
        } else {
            entry
        },
        _ => entry,
    }
}

/// Readies a settled entry for a lock on `key`.
pub fn prepare_entry(entry: &mut Entry, key: u32)
    requires
        settled(*old(entry)),
    ensures
        *final(entry) == prepared(*old(entry), key),
{
    match entry.state {
        State::Uninitialized => {
            entry.init();
            entry.key = key;
        },
        State::Fresh => {
            if entry.key != key {
                entry.state = State::Unloaded;
                entry.key = key;
            }
        },
        State::Dirty => {
            if entry.key != key {
                entry.state = State::Stale(entry.key);
                entry.key = key;
            }
        },
        _ => {},
    }
}

/// A cache of entries. A lock on a key hands out the one entry that stands for
/// the key from then on; the caller loads it and leaves it loaded.
pub trait Cache {
    /// The cache is consistent and every entry is at rest.
    spec fn wf(&self) -> bool;

    /// The entries, by slot.
    spec fn slots(&self) -> Seq<Entry>;

    /// The slot that a lock on `key` hands out.
    spec fn slot_for(&self, key: u32) -> int;

    /// In a consistent cache every entry is at rest, a lock hands out an
    /// existing slot, a key that is loaded anywhere is loaded in the slot that a
    /// lock on it hands out, and the slots can be counted by the machine.
    proof fn lemma_slot_for(&self, key: u32)
        requires
            self.wf(),
        ensures
            0 <= self.slot_for(key) < self.slots().len() <= usize::MAX,
            forall|j: int| 0 <= j < self.slots().len() ==> settled(#[trigger] self.slots()[j]),
            forall|j: int|
                0 <= j < self.slots().len() && loaded(#[trigger] self.slots()[j]) && self.slots()[j].key
                    == key ==> j == self.slot_for(key),
    ;

    /// Hands out the entry for `key`, readied as `prepared` says. The cache is
    /// consistent again once the caller leaves the entry loaded under `key`.
    fn lock(&mut self, key: u32) -> (entry: &mut Entry)
        requires
            old(self).wf(),
        ensures
            *entry == prepared(old(self).slots()[old(self).slot_for(key)], key),
            final(self).slots() == old(self).slots().update(old(self).slot_for(key), *final(entry)),
            loaded(*final(entry)) && final(entry).key == key ==> final(self).wf(),
    ;

    /// The slots whose entries are dirty, each once.
    fn dirty_entries(&self) -> (dirty: Vec<usize>)
        requires
            self.wf(),
        ensures
            dirty@.no_duplicates(),
            forall|j: int|
                0 <= j < self.slots().len() && self.slots()[j].state is Dirty ==> dirty@.contains(
                    j as usize,
                ),
            forall|a: int|
                0 <= a < dirty@.len() ==> (#[trigger] dirty@[a]) < self.slots().len()
                    && self.slots()[dirty@[a] as int].state is Dirty,
    ;

    /// Hands out the entry in `slot`. The cache is consistent again once the
    /// caller leaves the entry under the same key, loaded if it was loaded.
    fn entry(&mut self, slot: usize) -> (entry: &mut Entry)
        requires
            old(self).wf(),
            slot < old(self).slots().len(),
        ensures
            *entry == old(self).slots()[slot as int],
            final(self).slots() == old(self).slots().update(slot as int, *final(entry)),
            final(entry).key == entry.key && (loaded(*final(entry)) <==> loaded(*entry)) && settled(
                *final(entry),
            ) ==> final(self).wf(),
    ;
}

/// A cache of one slot: every lock on another key replaces the record.
pub struct SingleCache {
    entry: Entry,
}

impl SingleCache {
    /// A cache whose one slot has never held a record.
    pub fn new() -> (cache: SingleCache)
        ensures
            cache.wf(),
            cache.slots() == seq![Entry { key: 0, value: 0, state: State::Uninitialized }],
    {
        SingleCache { entry: Default::default() }
    }
}

impl Cache for SingleCache {
    /// The one entry is at rest.
    closed spec fn wf(&self) -> bool {
        settled(self.entry)
    }

    /// The one entry.
    closed spec fn slots(&self) -> Seq<Entry> {
        seq![self.entry]
    }

    /// Every lock hands out the one slot.
    open spec fn slot_for(&self, key: u32) -> int {
        0
    }

    proof fn lemma_slot_for(&self, key: u32) {
    }

    fn lock(&mut self, key: u32) -> (entry: &mut Entry) {
        prepare_entry(&mut self.entry, key);
        &mut self.entry
    }

    fn dirty_entries(&self) -> (dirty: Vec<usize>) {
        let mut dirty: Vec<usize> = Vec::new();
        match self.entry.state {
            State::Dirty => {
                dirty.push(0);
                assert(dirty@[0] == 0);
            },
            _ => {},
        }
        dirty
    }

    fn entry(&mut self, slot: usize) -> (entry: &mut Entry) {
        &mut self.entry
    }
}

/// Those of `slots` whose entries among `entries` are dirty, in the same order.
pub open spec fn dirty_among(slots: Seq<usize>, entries: Seq<Entry>) -> Seq<usize>
    decreases slots.len(),
{
    if slots.len() == 0 {
        Seq::empty()
    } else if entries[slots.last() as int].state is Dirty {
        dirty_among(slots.drop_last(), entries).push(slots.last())
    } else {
        dirty_among(slots.drop_last(), entries)
    }
}

/// A cache of a fixed number of slots. A lock on a key that is not resident
/// takes a slot that was never used while there is one, and else the slot of
/// the least recently used key.
pub struct LruCache {
    entries: Vec<Entry>,
    lane: LruLane,
}

impl LruCache {
    /// The recency lane of the cache.
    pub closed spec fn lane(&self) -> &LruLane {
        &self.lane
    }

    /// A cache of `capacity` slots, none used yet.
    pub fn new(capacity: usize) -> (cache: LruCache)
        ensures
            cache.slots().len() == capacity,
            forall|j: int|
                0 <= j < capacity ==> #[trigger] cache.slots()[j] == (Entry {
                    key: 0,
                    value: 0,
                    state: State::Uninitialized,
                }),
            cache.lane().wf(),
            cache.lane().order() == Seq::<usize>::empty(),
            cache.lane().slot_count() == 0,
            cache.lane().index_map() == Map::<u32, usize>::empty(),
            cache.lane().limit() == capacity,
            capacity > 0 ==> cache.wf(),
    {
        let mut entries: Vec<Entry> = Vec::with_capacity(capacity);
        let mut i: usize = 0;
        while i < capacity
            invariant
                i <= capacity,
                entries@.len() == i,
                forall|j: int|
                    0 <= j < i ==> #[trigger] entries@[j] == (Entry {
                        key: 0,
                        value: 0,
                        state: State::Uninitialized,
                    }),
            decreases capacity - i,
        {
            entries.push(Default::default());
            i += 1;
        }
        LruCache { entries, lane: LruLane::new(capacity) }
    }

    /// The resident slots, the least recently used first.
    pub fn resident_slots(&self) -> (slots: Vec<usize>)
        requires
            self.wf(),
        ensures
            slots@ == lru_first(self.lane().order()),
    {
        let mut slots: Vec<usize> = Vec::new();
        let mut iter = LruLaneIterator::new(&self.lane);
        loop
            invariant
                iter.wf(),
                iter.lane() == &self.lane,
                slots@ + iter.remaining() == lru_first(self.lane.order()),
            ensures
                slots@ == lru_first(self.lane.order()),
            decreases iter.remaining().len(),
        {
            let ghost rest = iter.remaining();
            match iter.next() {
                Some(i) => {
                    proof {
                        assert(slots@.push(i) + rest.drop_first() =~= slots@ + rest);
                    }
                    slots.push(i);
                },
                None => {
                    proof {
                        assert(slots@ + rest =~= slots@);
                    }
                    break ;
                },
            }
        }
        slots
    }
}

impl Cache for LruCache {
    /// The lane is well formed and has as many slots at most as the cache, all
    /// of them linked; the entries in those slots are loaded under the keys that
    /// the lane has for them; the other entries have never been used.
    closed spec fn wf(&self) -> bool {
        &&& self.lane.wf()
        &&& self.lane.limit() == self.entries@.len()
        &&& 0 < self.entries@.len()
        &&& self.lane.slot_count() <= self.entries@.len()
        &&& forall|i: usize| i < self.lane.slot_count() ==> self.lane.order().contains(i)
        &&& forall|i: int|
            0 <= i < self.lane.slot_count() ==> loaded(#[trigger] self.entries@[i])
                && self.entries@[i].key == self.lane.key_of(i)
        &&& forall|i: int|
            self.lane.slot_count() <= i < self.entries@.len() ==> (#[trigger] self.entries@[i]).state
                is Uninitialized
    }

    closed spec fn slots(&self) -> Seq<Entry> {
        self.entries@
    }

    /// The slot of a resident key is its own. Another key gets the slot of the
    /// least recently used key once every slot is used, and the next unused slot
    /// before.
    closed spec fn slot_for(&self, key: u32) -> int {
        if self.lane.index_map().contains_key(key) {
            self.lane.index_map()[key] as int
        } else if self.lane.slot_count() >= self.lane.limit() {
            self.lane.order().last() as int
        } else {
            self.lane.slot_count() as int
        }
    }

    proof fn lemma_slot_for(&self, key: u32) {
        self.lane.lemma_order_in_bounds();
        assert(self.entries@.len() == self.entries.len());
        let order = self.lane.order();
        if self.lane.index_map().contains_key(key) {
            let s = self.lane.index_map()[key];
            let j = order.index_of(s);
            assert(order[j] == s);
        } else if self.lane.slot_count() >= self.lane.limit() {
            assert(order.contains(0usize));
            let last = order.len() - 1;
            assert(order[last] < self.lane.slot_count());
        }
        assert forall|j: int|
            0 <= j < self.slots().len() && loaded(#[trigger] self.slots()[j]) && self.slots()[j].key
                == key implies j == self.slot_for(key) by {
            assert(j < self.lane.slot_count());
            assert(order.contains(j as usize));
            let p = order.index_of(j as usize);
            assert(order[p] == j);
        }
    }

    /// Hands out the entry for `key` and makes the key the most recently used,
    /// as `LruLane::index` does.
    fn lock(&mut self, key: u32) -> (entry: &mut Entry)
        ensures
            final(self).lane().wf(),
            final(self).lane().index_step(
                old(self).lane(),
                key,
                (
                    old(self).slot_for(key) as usize,
                    !old(self).lane().index_map().contains_key(key) && old(self).lane().slot_count()
                        < old(self).lane().limit(),
                ),
            ),
    {
        let ghost before = *self;
        proof {
            before.lemma_slot_for(key);
            before.lane.lemma_order_in_bounds();
            if before.lane.slot_count() >= before.lane.limit() {
                assert(before.lane.order().contains(0usize));
            }
        }
        let (i, uninitialized) = self.lane.index(key);
        proof {
            self.lane.lemma_order_in_bounds();
            assert(self.lane.order()[0] == i);
            lemma_stays_dense(&before.lane, &self.lane, i);
        }
        if uninitialized {
            self.entries[i].state = State::Uninitialized;
        }
        prepare_entry(&mut self.entries[i], key);
        proof {
            assert(self.entries@[i as int] == prepared(before.entries@[i as int], key));
            assert forall|s: int| 0 <= s < self.lane.slot_count() && s != i implies loaded(
                #[trigger] self.entries@[s],
            ) && self.entries@[s].key == self.lane.key_of(s) by {
                assert(self.entries@[s] == before.entries@[s]);
            }
        }
        &mut self.entries[i]
    }

    /// The slots whose entries are dirty, the least recently used first.
    fn dirty_entries(&self) -> (dirty: Vec<usize>)
        ensures
            dirty@ == dirty_among(lru_first(self.lane().order()), self.slots()),
    {
        let slots = self.resident_slots();
        let mut dirty: Vec<usize> = Vec::with_capacity(slots.len());
        proof {
            self.lane.lemma_order_in_bounds();
        }
        let ghost order = self.lane.order();
        let mut n: usize = 0;
        proof {
            assert(slots@.subrange(0, 0) =~= Seq::<usize>::empty());
        }
        while n < slots.len()
            invariant
                n <= slots@.len(),
                dirty@ == dirty_among(slots@.subrange(0, n as int), self.entries@),
                slots@ == lru_first(order),
                order == self.lane.order(),
                order.no_duplicates(),
                forall|j: int| 0 <= j < order.len() ==> #[trigger] order[j] < self.lane.slot_count(),
                self.lane.slot_count() <= self.entries@.len(),
                forall|a: int|
                    0 <= a < dirty@.len() ==> exists|b: int|
                        0 <= b < n && slots@[b] == #[trigger] dirty@[a],
                forall|a: int|
                    0 <= a < dirty@.len() ==> self.entries@[(#[trigger] dirty@[a]) as int].state
                        is Dirty,
                forall|b: int|
                    0 <= b < n && self.entries@[(#[trigger] slots@[b]) as int].state is Dirty
                        ==> dirty@.contains(slots@[b]),
                dirty@.no_duplicates(),
            decreases slots@.len() - n,
        {
            let i = slots[n];
            proof {
                assert(slots@[n as int] == order[order.len() - 1 - n]);
                assert(slots@.subrange(0, n + 1).drop_last() =~= slots@.subrange(0, n as int));
                assert(slots@.subrange(0, n + 1).last() == i);
            }
            match self.entries[i].state {
                State::Dirty => {
                    proof {
                        let grown = dirty@.push(i);
                        assert forall|a: int, b: int|
                            0 <= a < grown.len() && 0 <= b < grown.len() && a != b implies grown[a]
                            != grown[b] by {
                            if a < dirty@.len() {
                                let w = choose|w: int| 0 <= w < n && slots@[w] == dirty@[a];
                                assert(slots@[w] == order[order.len() - 1 - w]);
                            }
                            if b < dirty@.len() {
                                let w = choose|w: int| 0 <= w < n && slots@[w] == dirty@[b];
                                assert(slots@[w] == order[order.len() - 1 - w]);
                            }
                        }
                        assert forall|b: int|
                            0 <= b < n + 1 && self.entries@[(#[trigger] slots@[b]) as int].state
                                is Dirty implies grown.contains(slots@[b]) by {
                            if b < n {
                                let w = dirty@.index_of(slots@[b]);
                                assert(grown[w] == slots@[b]);
                            } else {
                                assert(grown[dirty@.len() as int] == i);
                            }
                        }
                        assert forall|a: int| 0 <= a < grown.len() implies exists|b: int|
                            0 <= b < n + 1 && slots@[b] == #[trigger] grown[a] by {
                            if a < dirty@.len() {
                                let w = choose|w: int| 0 <= w < n && slots@[w] == dirty@[a];
                                assert(slots@[w] == grown[a]);
                            } else {
                                assert(slots@[n as int] == grown[a]);
                            }
                        }
                    }
                    dirty.push(i);
                },
                _ => {},
            }
            n += 1;
        }
        proof {
            assert(slots@.subrange(0, n as int) =~= slots@);
            assert forall|j: int|
                0 <= j < self.slots().len() && self.slots()[j].state is Dirty implies dirty@.contains(
                j as usize,
            ) by {
                assert(j < self.lane.slot_count());
                assert(order.contains(j as usize));
                let p = order.index_of(j as usize);
                assert(slots@[order.len() - 1 - p] == j);
            }
        }
        dirty
    }

    fn entry(&mut self, slot: usize) -> (entry: &mut Entry) {
        &mut self.entries[slot]
    }
}

/// A lane in which every allocated slot is linked stays so through `index`.
proof fn lemma_stays_dense(before: &LruLane, after: &LruLane, slot: usize)
    requires
        before.linked(),
        after.linked(),
        forall|i: usize| i < before.slot_count() ==> before.order().contains(i),
        after.order() == seq![slot] + crate::lane::without(before.order(), slot)
            && before.order().contains(slot) && after.slot_count() == before.slot_count() || after.order()
            == seq![slot] + before.order().drop_last() && before.order().len() > 0 && slot
            == before.order().last() && after.slot_count() == before.slot_count() || after.order()
            == seq![slot] + before.order() && after.slot_count() == before.slot_count() + 1 && slot
            == before.slot_count(),
    ensures
        forall|i: usize| i < after.slot_count() ==> after.order().contains(i),
{
    before.lemma_order_in_bounds();
    assert forall|i: usize| i < after.slot_count() implies after.order().contains(i) by {
        if i == slot {
            assert(after.order()[0] == i);
        } else {
            assert(before.order().contains(i));
            let p = before.order().index_of(i);
            assert(before.order()[p] == i);
            if after.order() == seq![slot] + before.order() {
                assert(after.order()[p + 1] == i);
            } else if before.order().contains(slot) && after.order() == seq![slot]
                + crate::lane::without(before.order(), slot) {
                crate::lane::lemma_without_members(before.order(), slot);
                let w = crate::lane::without(before.order(), slot).index_of(i);
                assert(after.order()[w + 1] == i);
            } else {
                assert(p < before.order().len() - 1);
                assert(after.order()[p + 1] == i);
            }
        }
    }
}

} // verus!
