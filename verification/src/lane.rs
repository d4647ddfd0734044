//! The recency lane: a doubly-linked list of slot indices, threaded through a
//! vector of slots, together with the map from each key to the slot that holds it.

use std::collections::HashMap;
use vstd::prelude::*;

verus! {

/// One slot of the lane: the key it stands for and its two neighbours in the list.
pub struct LruLaneEntry {
    pub key: u32,
    pub next: Option<usize>,
    pub prev: Option<usize>,
}

impl LruLaneEntry {
    /// A slot for `key` that is not linked to any neighbour.
    pub fn new(key: u32) -> (entry: LruLaneEntry)
        ensures
            entry.key == key,
            entry.next is None,
            entry.prev is None,
    {
        LruLaneEntry { key, next: None, prev: None }
    }
}

/// The list `order` with the slot `slot` taken out.
pub open spec fn without(order: Seq<usize>, slot: usize) -> Seq<usize> {
    order.remove(order.index_of(slot))
}

/// Slots in the order in which the least recently used comes first.
pub open spec fn lru_first(order: Seq<usize>) -> Seq<usize> {
    Seq::new(order.len(), |j: int| order[order.len() - 1 - j])
}

/// The recency lane. `order()` lists the linked slots, most recently used first.
pub struct LruLane {
    capacity: usize,
    keys: HashMap<u32, usize>,
    entries: Vec<LruLaneEntry>,
    head: Option<usize>,
    tail: Option<usize>,
    order: Ghost<Seq<usize>>,
}

impl LruLane {
    /// The linked slots, from the most recently used to the least recently used.
    pub closed spec fn order(&self) -> Seq<usize> {
        self.order@
    }

    /// How many slots have been allocated, linked or not.
    pub closed spec fn slot_count(&self) -> nat {
        self.entries@.len()
    }

    /// The key that slot `slot` stands for.
    pub closed spec fn key_of(&self, slot: int) -> u32 {
        self.entries@[slot].key
    }

    /// The map from resident keys to their slots.
    pub closed spec fn index_map(&self) -> Map<u32, usize> {
        self.keys@
    }

    /// The number of slots beyond which `index` recycles instead of allocating.
    pub closed spec fn limit(&self) -> usize {
        self.capacity
    }

    /// The slot at place `j` of the list is allocated and points at its two
    /// neighbours in the list.
    pub closed spec fn link_at(&self, j: int) -> bool {
        let order = self.order@;
        let e = self.entries@[order[j] as int];
        &&& order[j] < self.entries@.len()
        &&& e.prev == (if j > 0 { Some(order[j - 1]) } else { None::<usize> })
        &&& e.next == (if j + 1 < order.len() { Some(order[j + 1]) } else { None::<usize> })
    }

    /// The list structure is sound: `order()` is exactly what the links spell out.
    pub closed spec fn linked(&self) -> bool {
        let order = self.order@;
        &&& order.no_duplicates()
        &&& self.head == (if order.len() > 0 { Some(order[0]) } else { None::<usize> })
        &&& self.tail == (if order.len() > 0 { Some(order.last()) } else { None::<usize> })
        &&& forall|j: int| 0 <= j < order.len() ==> #[trigger] self.link_at(j)
    }

    /// The key map and the list agree on membership.
    pub open spec fn indexed(&self) -> bool {
        &&& forall|j: int|
            0 <= j < self.order().len() ==> {
                let slot = #[trigger] self.order()[j];
                &&& self.index_map().contains_key(self.key_of(slot as int))
                &&& self.index_map()[self.key_of(slot as int)] == slot
            }
        &&& forall|k: u32| #[trigger]
            self.index_map().contains_key(k) ==> {
                &&& self.order().contains(self.index_map()[k])
                &&& self.key_of(self.index_map()[k] as int) == k
            }
    }

    /// Well-formedness: a sound list whose members are exactly the indexed keys.
    pub open spec fn wf(&self) -> bool {
        &&& self.linked()
        &&& self.indexed()
    }

    /// Everything but the list order is the same in `self` and `other`.
    pub open spec fn same_slots(&self, other: &LruLane) -> bool {
        &&& self.slot_count() == other.slot_count()
        &&& self.limit() == other.limit()
        &&& self.index_map() == other.index_map()
        &&& forall|s: int|
            #![trigger self.key_of(s)]
            #![trigger other.key_of(s)]
            0 <= s < self.slot_count() ==> self.key_of(s) == other.key_of(s)
    }

    /// Every linked slot is an allocated slot, and no slot is linked twice.
    pub proof fn lemma_order_in_bounds(&self)
        requires
            self.linked(),
        ensures
            self.order().no_duplicates(),
            forall|j: int| 0 <= j < self.order().len() ==> #[trigger] self.order()[j] < self.slot_count(),
    {
        assert forall|j: int| 0 <= j < self.order().len() implies #[trigger] self.order()[j]
            < self.slot_count() by {
            assert(self.link_at(j));
        }
    }

    /// An empty lane that starts to recycle slots once `capacity` of them exist.
    pub fn new(capacity: usize) -> (lane: LruLane)
        ensures
            lane.wf(),
            lane.order() == Seq::<usize>::empty(),
            lane.slot_count() == 0,
            lane.index_map() == Map::<u32, usize>::empty(),
            lane.limit() == capacity,
    {
        LruLane {
            capacity,
            keys: HashMap::with_capacity(capacity),
            entries: Vec::with_capacity(capacity),
            head: None,
            tail: None,
            order: Ghost(Seq::empty()),
        }
    }

    /// Links the unlinked slot `i` in as the most recently used.
    pub fn push_front(&mut self, i: usize)
        requires
            old(self).linked(),
            i < old(self).slot_count(),
            !old(self).order().contains(i),
        ensures
            final(self).linked(),
            final(self).order() == seq![i] + old(self).order(),
            final(self).same_slots(old(self)),
    {
        let ghost before = *self;
        proof {
            if before.order@.len() > 0 {
                assert(before.link_at(0));
            }
        }
        let new_head = Some(i);
        self.entries[i].next = self.head;
        self.entries[i].prev = None;
        if self.tail.is_none() {
            self.tail = new_head;
        } else {
            if let Some(head_i) = self.head {
                self.entries[head_i].prev = new_head;
            }
        }
        self.head = new_head;
        proof {
            self.order@ = seq![i] + before.order@;
            let order = self.order@;
            assert forall|j: int| 0 <= j < order.len() implies #[trigger] self.link_at(j) by {
                if j > 0 {
                    assert(before.link_at(j - 1));
                    assert(order[j] == before.order@[j - 1]);
                    assert(before.order@.contains(order[j]));
                    if j + 1 < order.len() {
                        assert(order[j + 1] == before.order@[j]);
                    }
                } else {
                    if before.order@.len() > 0 {
                        assert(before.link_at(0));
                        assert(order[1] == before.order@[0]);
                    }
                }
            }
            assert forall|a: int, b: int|
                0 <= a < order.len() && 0 <= b < order.len() && a != b implies order[a]
                != order[b] by {
                if a > 0 && b > 0 {
                    assert(before.order@[a - 1] != before.order@[b - 1]);
                } else if a > 0 {
                    assert(before.order@.contains(before.order@[a - 1]));
                } else {
                    assert(before.order@.contains(before.order@[b - 1]));
                }
            }
        }
    }

    /// Takes the linked slot `i` out of the list.
    pub fn unlink(&mut self, i: usize)
        requires
            old(self).linked(),
            old(self).order().contains(i),
        ensures
            final(self).linked(),
            final(self).order() == without(old(self).order(), i),
            final(self).same_slots(old(self)),
    {
        let ghost before = *self;
        let ghost p = before.order@.index_of(i);
        proof {
            assert(before.link_at(p));
            if p > 0 {
                assert(before.link_at(p - 1));
            }
            if p + 1 < before.order@.len() {
                assert(before.link_at(p + 1));
            }
        }
        let next = self.entries[i].next;
        let prev = self.entries[i].prev;

        if i == self.head.unwrap() {
            self.head = next;
        } else {
            self.entries[prev.unwrap()].next = next;
        }

        if i == self.tail.unwrap() {
            self.tail = prev;
        } else {
            self.entries[next.unwrap()].prev = prev;
        }
        proof {
            self.order@ = before.order@.remove(p);
            let old_order = before.order@;
            let order = self.order@;
            assert forall|j: int| 0 <= j < order.len() implies #[trigger] self.link_at(j) by {
                let oj = if j < p { j } else { j + 1 };
                assert(order[j] == old_order[oj]);
                assert(before.link_at(oj));
                assert(old_order[oj] != i);
                if j > 0 {
                    assert(order[j - 1] == old_order[if j - 1 < p { j - 1 } else { j }]);
                }
                if j + 1 < order.len() {
                    assert(order[j + 1] == old_order[if j + 1 < p { j + 1 } else { j + 2 }]);
                }
            }
            assert forall|a: int, b: int|
                0 <= a < order.len() && 0 <= b < order.len() && a != b implies order[a]
                != order[b] by {
                let oa = if a < p { a } else { a + 1 };
                let ob = if b < p { b } else { b + 1 };
                assert(order[a] == old_order[oa]);
                assert(order[b] == old_order[ob]);
            }
        }
    }

    /// Takes the least recently used slot out of the list and returns it.
    pub fn pop_back(&mut self) -> (slot: usize)
        requires
            old(self).linked(),
            old(self).order().len() > 0,
        ensures
            final(self).linked(),
            slot == old(self).order().last(),
            final(self).order() == old(self).order().drop_last(),
            final(self).same_slots(old(self)),
    {
        let old_tail_i = self.tail.unwrap();
        proof {
            let order = self.order@;
            let last = order.len() - 1;
            assert(order[last] == old_tail_i);
            assert(order.index_of(old_tail_i) == last);
            assert(order.remove(last) =~= order.drop_last());
        }
        self.unlink(old_tail_i);
        old_tail_i
    }

    /// Makes the linked slot `i` the most recently used.
    pub fn touch(&mut self, i: usize)
        requires
            old(self).linked(),
            old(self).order().contains(i),
        ensures
            final(self).linked(),
            final(self).order() == seq![i] + without(old(self).order(), i),
            final(self).same_slots(old(self)),
            old(self).indexed() ==> final(self).indexed(),
    {
        let ghost before = *self;
        proof {
            before.lemma_order_in_bounds();
        }
        if i != self.head.unwrap() {
            self.unlink(i);
            proof {
                lemma_without_members(before.order@, i);
            }
            self.push_front(i);
        } else {
            proof {
                assert(before.order@[0] == i);
                assert(before.order@.index_of(i) == 0);
                assert(seq![i] + before.order@.remove(0) =~= before.order@);
            }
        }
        proof {
            lemma_without_members(before.order@, i);
            if before.indexed() {
                let order = self.order@;
                assert forall|j: int| 0 <= j < order.len() implies {
                    let slot = #[trigger] self.order()[j];
                    &&& self.index_map().contains_key(self.key_of(slot as int))
                    &&& self.index_map()[self.key_of(slot as int)] == slot
                } by {
                    let slot = order[j];
                    if j > 0 {
                        assert(without(before.order@, i)[j - 1] == slot);
                        assert(without(before.order@, i).contains(slot));
                    }
                    assert(before.order@.contains(slot));
                    let oj = before.order@.index_of(slot);
                    assert(before.order()[oj] == slot);
                }
                assert forall|k: u32| #[trigger] self.index_map().contains_key(k) implies {
                    &&& self.order().contains(self.index_map()[k])
                    &&& self.key_of(self.index_map()[k] as int) == k
                } by {
                    let slot = self.index_map()[k];
                    assert(before.order().contains(slot));
                    if slot == i {
                        assert(order[0] == slot);
                    } else {
                        assert(without(before.order@, i).contains(slot));
                        let w = without(before.order@, i).index_of(slot);
                        assert(order[w + 1] == slot);
                    }
                }
            }
        }
    }

    /// The list and the key map agree on every slot: a slot is linked once at
    /// most, every linked slot is the one that the map names for the slot's key,
    /// and every key of the map names a linked slot that stands for that key.
    pub proof fn lemma_list_agrees_with_map(&self)
        requires
            self.wf(),
        ensures
            self.order().no_duplicates(),
            forall|j: int|
                0 <= j < self.order().len() ==> {
                    let slot = #[trigger] self.order()[j];
                    &&& slot < self.slot_count()
                    &&& self.index_map().contains_key(self.key_of(slot as int))
                    &&& self.index_map()[self.key_of(slot as int)] == slot
                },
            forall|k: u32| #[trigger]
                self.index_map().contains_key(k) ==> {
                    &&& self.order().contains(self.index_map()[k])
                    &&& self.index_map()[k] < self.slot_count()
                    &&& self.key_of(self.index_map()[k] as int) == k
                },
            forall|a: int, b: int|
                0 <= a < self.order().len() && 0 <= b < self.order().len() && a != b ==> self.key_of(
                    self.order()[a] as int,
                ) != self.key_of(self.order()[b] as int),
    {
        self.lemma_order_in_bounds();
        assert forall|k: u32| #[trigger] self.index_map().contains_key(k) implies self.index_map()[k]
            < self.slot_count() by {
            let j = self.order().index_of(self.index_map()[k]);
            assert(self.order()[j] == self.index_map()[k]);
        }
        assert forall|a: int, b: int|
            0 <= a < self.order().len() && 0 <= b < self.order().len() && a != b implies self.key_of(
            self.order()[a] as int,
        ) != self.key_of(self.order()[b] as int) by {
            let sa = self.order()[a];
            let sb = self.order()[b];
            assert(self.index_map()[self.key_of(sa as int)] == sa);
            assert(self.index_map()[self.key_of(sb as int)] == sb);
        }
    }

    /// The most recently used slot.
    pub fn head(&self) -> (slot: Option<usize>)
        requires
            self.linked(),
        ensures
            slot == (if self.order().len() > 0 {
                Some(self.order()[0])
            } else {
                None::<usize>
            }),
    {
        self.head
    }

    /// The least recently used slot.
    pub fn tail(&self) -> (slot: Option<usize>)
        requires
            self.linked(),
        ensures
            slot == (if self.order().len() > 0 {
                Some(self.order().last())
            } else {
                None::<usize>
            }),
    {
        self.tail
    }

    /// The slot that follows the linked slot `i` toward the least recently used.
    pub fn next(&self, i: usize) -> (slot: Option<usize>)
        requires
            self.linked(),
            self.order().contains(i),
        ensures
            slot == (if self.order().index_of(i) + 1 < self.order().len() {
                Some(self.order()[self.order().index_of(i) + 1])
            } else {
                None::<usize>
            }),
    {
        proof {
            let j = self.order().index_of(i);
            assert(self.link_at(j));
        }
        self.entries[i].next
    }

    /// The slot that comes before the linked slot `i`, toward the most recently
    /// used.
    pub fn prev(&self, i: usize) -> (slot: Option<usize>)
        requires
            self.linked(),
            self.order().contains(i),
        ensures
            slot == (if self.order().index_of(i) > 0 {
                Some(self.order()[self.order().index_of(i) - 1])
            } else {
                None::<usize>
            }),
    {
        proof {
            let j = self.order().index_of(i);
            assert(self.link_at(j));
        }
        self.entries[i].prev
    }

    /// The slot that holds `key`, if the key is resident.
    pub fn lookup(&self, key: u32) -> (slot: Option<usize>)
        ensures
            slot == (if self.index_map().contains_key(key) {
                Some(self.index_map()[key])
            } else {
                None::<usize>
            }),
    {
        match self.keys.get(&key) {
            Some(i) => Some(*i),
            None => None,
        }
    }

    /// The key that the allocated slot `i` stands for.
    pub fn key_at(&self, i: usize) -> (key: u32)
        requires
            i < self.slot_count(),
        ensures
            key == self.key_of(i as int),
    {
        self.entries[i].key
    }

    /// The number of allocated slots.
    pub fn len(&self) -> (n: usize)
        ensures
            n == self.slot_count(),
    {
        self.entries.len()
    }

    /// The number of slots beyond which `index` recycles instead of allocating.
    pub fn capacity(&self) -> (n: usize)
        ensures
            n == self.limit(),
    {
        self.capacity
    }

    /// Allocates a fresh slot for the non-resident `key` and makes it the most
    /// recently used.
    pub fn allot(&mut self, key: u32) -> (slot: usize)
        requires
            old(self).wf(),
            !old(self).index_map().contains_key(key),
        ensures
            final(self).wf(),
            slot == old(self).slot_count(),
            final(self).order() == seq![slot] + old(self).order(),
            final(self).index_map() == old(self).index_map().insert(key, slot),
            final(self).slot_count() == old(self).slot_count() + 1,
            final(self).limit() == old(self).limit(),
            final(self).key_of(slot as int) == key,
            forall|s: int| 0 <= s < old(self).slot_count() ==> final(self).key_of(s) == old(self).key_of(s),
    {
        let ghost before = *self;
        proof {
            before.lemma_order_in_bounds();
        }
        self.entries.push(LruLaneEntry::new(key));
        let slot = self.entries.len() - 1;
        proof {
            lemma_links_kept(&before, self);
            if self.order@.contains(slot) {
                let j = self.order@.index_of(slot);
                assert(before.order()[j] < before.slot_count());
            }
        }
        let ghost mid0 = *self;
        self.push_front(slot);
        let ghost mid = *self;
        self.keys.insert(key, slot);
        proof {
            assert(mid.key_of(slot as int) == mid0.key_of(slot as int));
            assert forall|s: int| 0 <= s < before.slot_count() implies self.key_of(s)
                == before.key_of(s) by {
                assert(mid.key_of(s) == mid0.key_of(s));
                assert(mid0.entries@[s] == before.entries@[s]);
            }
            lemma_links_kept(&mid, self);
            lemma_adopted(&before, self, slot, key);
        }
        slot
    }

    /// Gives the unlinked slot `i` to the non-resident `key` and makes it the
    /// most recently used.
    pub fn reuse(&mut self, i: usize, key: u32)
        requires
            old(self).wf(),
            i < old(self).slot_count(),
            !old(self).order().contains(i),
            !old(self).index_map().contains_key(key),
        ensures
            final(self).wf(),
            final(self).order() == seq![i] + old(self).order(),
            final(self).index_map() == old(self).index_map().insert(key, i),
            final(self).slot_count() == old(self).slot_count(),
            final(self).limit() == old(self).limit(),
            final(self).key_of(i as int) == key,
            forall|s: int|
                0 <= s < old(self).slot_count() && s != i ==> final(self).key_of(s) == old(self).key_of(s),
    {
        let ghost before = *self;
        proof {
            before.lemma_order_in_bounds();
        }
        self.entries[i].key = key;
        proof {
            lemma_links_kept(&before, self);
            assert(self.key_of(i as int) == key);
        }
        let ghost mid0 = *self;
        self.push_front(i);
        let ghost mid = *self;
        self.keys.insert(key, i);
        proof {
            assert(mid.key_of(i as int) == mid0.key_of(i as int));
            assert forall|s: int| 0 <= s < before.slot_count() && s != i implies self.key_of(s)
                == before.key_of(s) by {
                assert(mid.key_of(s) == mid0.key_of(s));
                assert(mid0.entries@[s] == before.entries@[s]);
            }
            lemma_links_kept(&mid, self);
            lemma_adopted(&before, self, i, key);
        }
    }

    /// Takes the linked slot `i` out of the list and its key out of the map.
    pub fn retire(&mut self, i: usize)
        requires
            old(self).wf(),
            old(self).order().contains(i),
        ensures
            final(self).wf(),
            final(self).order() == without(old(self).order(), i),
            final(self).index_map() == old(self).index_map().remove(old(self).key_of(i as int)),
            final(self).slot_count() == old(self).slot_count(),
            final(self).limit() == old(self).limit(),
            forall|s: int| 0 <= s < old(self).slot_count() ==> final(self).key_of(s) == old(self).key_of(s),
    {
        let ghost before = *self;
        proof {
            before.lemma_order_in_bounds();
            let j = before.order().index_of(i);
            assert(before.order()[j] == i);
        }
        self.unlink(i);
        let ghost mid = *self;
        let key = self.entries[i].key;
        self.keys.remove(&key);
        proof {
            lemma_links_kept(&mid, self);
            lemma_retired(&before, self, i);
        }
    }

    /// How `index` on `key`, with the result `r`, leads from `before` to `self`.
    pub open spec fn index_step(&self, before: &LruLane, key: u32, r: (usize, bool)) -> bool {
        &&& self.limit() == before.limit()
        &&& before.index_map().contains_key(key) ==> {
            &&& r == (before.index_map()[key], false)
            &&& self.order() == seq![r.0] + without(before.order(), r.0)
            &&& self.same_slots(before)
        }
        &&& !before.index_map().contains_key(key) && before.slot_count() >= before.limit() ==> {
            &&& r == (before.order().last(), false)
            &&& self.order() == seq![r.0] + before.order().drop_last()
            &&& self.index_map() == before.index_map().remove(before.key_of(r.0 as int)).insert(
                key,
                r.0,
            )
            &&& self.slot_count() == before.slot_count()
            &&& self.key_of(r.0 as int) == key
            &&& forall|s: int|
                0 <= s < before.slot_count() && s != r.0 ==> self.key_of(s) == before.key_of(s)
        }
        &&& !before.index_map().contains_key(key) && before.slot_count() < before.limit() ==> {
            &&& r == (before.slot_count() as usize, true)
            &&& self.order() == seq![r.0] + before.order()
            &&& self.index_map() == before.index_map().insert(key, r.0)
            &&& self.slot_count() == before.slot_count() + 1
            &&& self.key_of(r.0 as int) == key
            &&& forall|s: int| 0 <= s < before.slot_count() ==> self.key_of(s) == before.key_of(s)
        }
    }

    /// Finds the slot for `key`, making it the most recently used. A resident key
    /// keeps its slot. Otherwise the key gets a fresh slot while fewer than the
    /// limit exist (the flag in the result is then set), and else takes over the
    /// slot of the least recently used key, which stops being resident.
    pub fn index(&mut self, key: u32) -> (r: (usize, bool))
        requires
            old(self).wf(),
            !old(self).index_map().contains_key(key) && old(self).slot_count() >= old(self).limit()
                ==> old(self).order().len() > 0,
        ensures
            final(self).wf(),
            final(self).index_step(old(self), key, r),
    {
        let ghost before = *self;
        if let Some(i) = self.lookup(key) {
            self.touch(i);
            return (i, false);
        }
        let mut uninitialized = false;

        let new_head_i = if self.entries.len() >= self.capacity {
            proof {
                before.lemma_order_in_bounds();
                let last = before.order().len() - 1;
                assert(before.order()[last] == before.order().last());
            }
            let i = self.pop_back();
            let ghost mid = *self;
            let old_key = self.entries[i].key;
            self.keys.remove(&old_key);
            proof {
                lemma_links_kept(&mid, self);
                let last = before.order().len() - 1;
                assert(before.order().index_of(i) == last);
                assert(before.order().remove(last) =~= before.order().drop_last());
                lemma_retired(&before, self, i);
                lemma_without_members(before.order(), i);
            }
            self.reuse(i, key);
            i
        } else {
            uninitialized = true;
            self.allot(key)
        };

        (new_head_i, uninitialized)
    }

    /// The resident keys, the least recently used first.
    pub fn keys(&self) -> (keys: Vec<u32>)
        requires
            self.linked(),
        ensures
            keys@.len() == self.order().len(),
            forall|j: int|
                0 <= j < keys@.len() ==> keys@[j] == self.key_of(
                    #[trigger] lru_first(self.order())[j] as int,
                ),
    {
        let mut keys: Vec<u32> = Vec::new();
        let mut iter = LruLaneIterator::new(self);
        loop
            invariant
                iter.wf(),
                iter.lane() == self,
                self.linked(),
                keys@.len() + iter.remaining().len() == self.order().len(),
                iter.remaining() == lru_first(self.order()).skip(keys@.len() as int),
                forall|j: int|
                    0 <= j < keys@.len() ==> keys@[j] == self.key_of(
                        #[trigger] lru_first(self.order())[j] as int,
                    ),
            ensures
                keys@.len() == self.order().len(),
            decreases iter.remaining().len(),
        {
            let ghost before = iter.remaining();
            match iter.next() {
                Some(i) => {
                    proof {
                        self.lemma_order_in_bounds();
                        assert(before[0] == lru_first(self.order())[keys@.len() as int]);
                        assert(iter.remaining() =~= lru_first(self.order()).skip(keys@.len() as int + 1));
                    }
                    keys.push(self.key_at(i));
                },
                None => {
                    break ;
                },
            }
        }
        keys
    }
}

/// Walks a lane from the least recently used slot to the most recently used.
pub struct LruLaneIterator<'a> {
    lru_lane: &'a LruLane,
    pos: Option<usize>,
    rank: Ghost<int>,
}

impl<'a> LruLaneIterator<'a> {
    /// The lane that is being walked.
    pub closed spec fn lane(&self) -> &LruLane {
        self.lru_lane
    }

    /// The walker stands on a linked slot of a sound lane, or past its end.
    pub closed spec fn wf(&self) -> bool {
        &&& self.lru_lane.linked()
        &&& -1 <= self.rank@ < self.lru_lane.order().len()
        &&& self.pos == (if self.rank@ >= 0 {
            Some(self.lru_lane.order()[self.rank@])
        } else {
            None::<usize>
        })
    }

    /// The slots still to come, in the order in which `next` yields them.
    pub closed spec fn remaining(&self) -> Seq<usize> {
        Seq::new((self.rank@ + 1) as nat, |j: int| self.lru_lane.order()[self.rank@ - j])
    }

    /// A walker that starts at the least recently used slot of `lru_lane`.
    pub fn new(lru_lane: &'a LruLane) -> (iter: LruLaneIterator<'a>)
        requires
            lru_lane.linked(),
        ensures
            iter.wf(),
            iter.lane() == lru_lane,
            iter.remaining() == lru_first(lru_lane.order()),
    {
        let iter = LruLaneIterator {
            lru_lane,
            pos: lru_lane.tail,
            rank: Ghost(lru_lane.order().len() - 1),
        };
        proof {
            assert(iter.remaining() =~= lru_first(lru_lane.order()));
        }
        iter
    }

    /// Yields the next slot toward the most recently used one; `None` once the
    /// most recently used slot has been yielded.
    pub fn next(&mut self) -> (slot: Option<usize>)
        requires
            old(self).wf(),
        ensures
            final(self).wf(),
            final(self).lane() == old(self).lane(),
            old(self).remaining().len() == 0 ==> slot is None && final(self).remaining()
                == old(self).remaining(),
            old(self).remaining().len() > 0 ==> slot == Some(old(self).remaining()[0])
                && final(self).remaining() == old(self).remaining().drop_first(),
    {
        let ghost before = *self;
        if let Some(i) = self.pos {
            proof {
                assert(self.lru_lane.link_at(self.rank@));
            }
            self.pos = self.lru_lane.entries[i].prev;
            proof {
                self.rank@ = self.rank@ - 1;
                assert(self.remaining() =~= before.remaining().drop_first());
            }
            Some(i)
        } else {
            None
        }
    }
}

/// Soundness of the list depends on the links alone, not on keys or the key map.
proof fn lemma_links_kept(before: &LruLane, after: &LruLane)
    requires
        before.linked(),
        after.order@ == before.order@,
        after.head == before.head,
        after.tail == before.tail,
        after.entries@.len() >= before.entries@.len(),
        forall|s: int|
            0 <= s < before.entries@.len() ==> (#[trigger] after.entries@[s]).next
                == before.entries@[s].next && after.entries@[s].prev == before.entries@[s].prev,
    ensures
        after.linked(),
{
    assert forall|j: int| 0 <= j < after.order@.len() implies #[trigger] after.link_at(j) by {
        assert(before.link_at(j));
    }
}

/// A sound lane stays well formed when the unlinked slot `slot` is given to the
/// non-resident `key` and linked in front.
proof fn lemma_adopted(before: &LruLane, after: &LruLane, slot: usize, key: u32)
    requires
        before.wf(),
        !before.order().contains(slot),
        !before.index_map().contains_key(key),
        after.linked(),
        after.order() == seq![slot] + before.order(),
        after.index_map() == before.index_map().insert(key, slot),
        after.key_of(slot as int) == key,
        forall|s: int|
            0 <= s < before.slot_count() && s != slot ==> after.key_of(s) == before.key_of(s),
    ensures
        after.wf(),
{
    before.lemma_order_in_bounds();
    assert forall|j: int| 0 <= j < after.order().len() implies {
        let s = #[trigger] after.order()[j];
        &&& after.index_map().contains_key(after.key_of(s as int))
        &&& after.index_map()[after.key_of(s as int)] == s
    } by {
        if j > 0 {
            let s = before.order()[j - 1];
            assert(after.order()[j] == s);
            assert(before.order().contains(s));
        }
    }
    assert forall|k: u32| #[trigger] after.index_map().contains_key(k) implies {
        &&& after.order().contains(after.index_map()[k])
        &&& after.key_of(after.index_map()[k] as int) == k
    } by {
        if k == key {
            assert(after.order()[0] == slot);
        } else {
            let s = before.index_map()[k];
            let j = before.order().index_of(s);
            assert(before.order()[j] == s);
            assert(after.order()[j + 1] == s);
        }
    }
}

/// A sound lane stays well formed when the linked slot `slot` leaves the list
/// and its key leaves the map.
proof fn lemma_retired(before: &LruLane, after: &LruLane, slot: usize)
    requires
        before.wf(),
        before.order().contains(slot),
        after.linked(),
        after.order() == without(before.order(), slot),
        after.index_map() == before.index_map().remove(before.key_of(slot as int)),
        after.slot_count() == before.slot_count(),
        forall|s: int| 0 <= s < before.slot_count() ==> after.key_of(s) == before.key_of(s),
    ensures
        after.wf(),
{
    before.lemma_order_in_bounds();
    lemma_without_members(before.order(), slot);
    assert forall|j: int| 0 <= j < after.order().len() implies {
        let s = #[trigger] after.order()[j];
        &&& after.index_map().contains_key(after.key_of(s as int))
        &&& after.index_map()[after.key_of(s as int)] == s
    } by {
        let s = after.order()[j];
        assert(after.order().contains(s));
        let oj = before.order().index_of(s);
        assert(before.order()[oj] == s);
        let os = before.order().index_of(slot);
        assert(before.order()[os] == slot);
    }
    assert forall|k: u32| #[trigger] after.index_map().contains_key(k) implies {
        &&& after.order().contains(after.index_map()[k])
        &&& after.key_of(after.index_map()[k] as int) == k
    } by {
        let s = before.index_map()[k];
        let oj = before.order().index_of(s);
        assert(before.order()[oj] == s);
    }
}

/// Taking a slot out of a duplicate-free list removes that slot and no other.
pub proof fn lemma_without_members(order: Seq<usize>, slot: usize)
    requires
        order.no_duplicates(),
        order.contains(slot),
    ensures
        without(order, slot).len() == order.len() - 1,
        without(order, slot).no_duplicates(),
        !without(order, slot).contains(slot),
        forall|s: usize| s != slot ==> (without(order, slot).contains(s) <==> order.contains(s)),
{
    let p = order.index_of(slot);
    let rest = without(order, slot);
    assert forall|j: int| 0 <= j < rest.len() implies rest[j] == order[if j < p { j } else { j + 1 }] by {}
    assert forall|a: int, b: int| 0 <= a < rest.len() && 0 <= b < rest.len() && a != b implies rest[a]
        != rest[b] by {
        assert(rest[a] == order[if a < p { a } else { a + 1 }]);
        assert(rest[b] == order[if b < p { b } else { b + 1 }]);
    }
    if rest.contains(slot) {
        let j = rest.index_of(slot);
        assert(rest[j] == order[if j < p { j } else { j + 1 }]);
    }
    assert forall|s: usize| s != slot implies (rest.contains(s) <==> order.contains(s)) by {
        if rest.contains(s) {
            let j = rest.index_of(s);
            assert(rest[j] == order[if j < p { j } else { j + 1 }]);
        }
        if order.contains(s) {
            let j = order.index_of(s);
            assert(rest[if j < p { j } else { j - 1 }] == s);
        }
    }
}

} // verus!
