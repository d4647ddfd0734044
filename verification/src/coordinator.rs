//! The buffer coordinator: it arbitrates the locks on keys, one holder at a
//! time and in the order of arrival, and ties them to the reads and write-backs
//! that residency takes.
//!
//! The coordinator is a state machine. Each event that reaches it (a lock or an
//! unlock from a client, a completion from the store) changes its state and
//! yields the actions to carry out: requests to the store and entries to hand to
//! clients.

use crate::entry::{Entry, State};
use crate::error::{Error, IoError};
use crate::index::{dirty_in, fresh_slot, moved_front, reclaimable, victim_key, CacheIndex, Slot};
use std::collections::HashMap;
use std::collections::VecDeque;
use vstd::prelude::*;

verus! {

/// One place in the queue of a key.
#[derive(Debug, Clone, Copy, PartialEq, Eq, Structural)]
pub enum Waiter {
    /// A client, named by the number under which its reply is sent.
    Client(u64),
    /// The write-back of the key, which is under way.
    Writeback,
}

/// The transfer that is under way for a key.
#[derive(Debug, Clone, Copy, PartialEq, Eq, Structural)]
pub enum IoOp {
    /// The record is being read.
    Read,
    /// The value is being written as the record.
    Write(u64),
}

/// What the coordinator asks to be done.
#[derive(Debug, Clone, Copy, PartialEq, Eq, Structural)]
pub enum Action {
    /// Read the record of the key from the store.
    Read(u32),
    /// Write the value as the record of the key to the store.
    Write(u32, u64),
    /// Hand the entry to the client: it holds the lock from now on.
    Grant(u64, Entry),
}

/// What a client asks for.
#[derive(Debug, Clone, Copy, PartialEq, Eq, Structural)]
pub enum DataRequest {
    /// The client with this number asks for the lock on the key.
    Lock(u32, u64),
    /// The holder gives the lock on the key back, with the value it leaves and
    /// whether it changed the record.
    Unlock(u32, u64, bool),
}

/// What the store reports.
#[derive(Debug, Clone, Copy)]
pub enum IoResponse {
    /// The read of the key has ended, with the value read.
    Read(u32, Result<u64, IoError>),
    /// The write of the key has ended.
    Write(u32, Result<(), IoError>),
}

/// The buffer coordinator.
pub struct Coordinator {
    cache: CacheIndex,
    queues: HashMap<u32, VecDeque<Waiter>>,
    in_flight: HashMap<u32, IoOp>,
}

/// The number of the client in the place `waiter`.
pub open spec fn client_of(waiter: Waiter) -> u64 {
    match waiter {
        Waiter::Client(client) => client,
        Waiter::Writeback => 0,
    }
}

/// The slot of an entry whose write-back has been asked for.
pub open spec fn leaving(slot: Slot) -> Slot {
    Slot { entry: slot.entry, evicting: true, pinned: true }
}

/// The table `table` once the eviction of `victim` has begun: a dirty victim
/// stays until its write-back completes, a clean one leaves at once.
pub open spec fn table_after(table: Map<u32, Slot>, victim: Option<u32>) -> Map<u32, Slot> {
    match victim {
        Some(out) => if table[out].entry.state is Dirty {
            table.insert(out, leaving(table[out]))
        } else {
            table.remove(out)
        },
        None => table,
    }
}

/// The recency order `recency` once the eviction of `victim` has begun.
pub open spec fn recency_after(recency: Seq<u32>, table: Map<u32, Slot>, victim: Option<u32>) -> Seq<
    u32,
> {
    match victim {
        Some(out) => if table[out].entry.state is Dirty {
            recency
        } else {
            recency.remove(recency.index_of(out))
        },
        None => recency,
    }
}

/// The queues `queues` once the eviction of `victim` has begun: a dirty victim
/// gets a queue with its write-back in front.
pub open spec fn queues_after(
    queues: Map<u32, Seq<Waiter>>,
    table: Map<u32, Slot>,
    victim: Option<u32>,
) -> Map<u32, Seq<Waiter>> {
    match victim {
        Some(out) => if table[out].entry.state is Dirty {
            queues.insert(out, seq![Waiter::Writeback])
        } else {
            queues
        },
        None => queues,
    }
}

/// The transfers `in_flight` once the eviction of `victim` has begun.
pub open spec fn in_flight_after(
    in_flight: Map<u32, IoOp>,
    table: Map<u32, Slot>,
    victim: Option<u32>,
) -> Map<u32, IoOp> {
    match victim {
        Some(out) => if table[out].entry.state is Dirty {
            in_flight.insert(out, IoOp::Write(table[out].entry.value))
        } else {
            in_flight
        },
        None => in_flight,
    }
}

/// The victim that leaves at once: a victim that is not dirty.
pub open spec fn gone_at_once(table: Map<u32, Slot>, victim: Option<u32>) -> Option<u32> {
    match victim {
        Some(out) => if table[out].entry.state is Dirty {
            None
        } else {
            Some(out)
        },
        None => None,
    }
}

/// Where the slots of `after` lie, given where those of `before` lay: no slot
/// was allocated, no key has changed its slot, and the slot of the key `gone`,
/// if one is named, has joined the freed slots at the back.
pub open spec fn layout_after(after: &CacheIndex, before: &CacheIndex, gone: Option<u32>) -> bool {
    &&& after.slot_count() == before.slot_count()
    &&& after.free_slots() == (match gone {
        Some(key) => before.free_slots().push(before.slot_of(key)),
        None => before.free_slots(),
    })
    &&& forall|k: u32|
        after.table().contains_key(k) && before.table().contains_key(k) ==> #[trigger] after.slot_of(k)
            == before.slot_of(k)
}

/// The number of marked evictions once the eviction of `victim` has begun,
/// where `evictions` were marked before the victim was picked.
pub open spec fn evictions_after(evictions: nat, table: Map<u32, Slot>, victim: Option<u32>) -> nat {
    match victim {
        Some(out) => if table[out].entry.state is Dirty {
            evictions + 1
        } else {
            evictions
        },
        None => evictions,
    }
}

/// The write that the eviction of `victim` asks for: one exactly if the victim
/// is dirty.
pub open spec fn writes_for(table: Map<u32, Slot>, victim: Option<u32>) -> Seq<Action> {
    match victim {
        Some(out) => if table[out].entry.state is Dirty {
            seq![Action::Write(out, table[out].entry.value)]
        } else {
            Seq::empty()
        },
        None => Seq::empty(),
    }
}

impl Coordinator {
    /// The cache index.
    pub closed spec fn cache(&self) -> &CacheIndex {
        &self.cache
    }

    /// The queue of each key that has one: the holder or the write-back in
    /// front, the waiting clients behind it in the order of their arrival.
    pub closed spec fn queues(&self) -> Map<u32, Seq<Waiter>> {
        Map::new(|k: u32| self.queues@.contains_key(k), |k: u32| self.queues@[k]@)
    }

    /// The keys for which a request went to the store and no completion has
    /// come back, each with the kind of the request.
    pub closed spec fn in_flight(&self) -> Map<u32, IoOp> {
        self.in_flight@
    }

    /// The client that holds the lock on `key`, if any: the one in front of the
    /// queue, once no transfer is under way for the key.
    pub open spec fn holder(&self, key: u32) -> Option<u64> {
        if self.queues().contains_key(key) && !self.in_flight().contains_key(key) {
            match self.queues()[key][0] {
                Waiter::Client(client) => Some(client),
                Waiter::Writeback => None,
            }
        } else {
            None
        }
    }

    /// What holds of each key.
    pub open spec fn key_ok(&self, key: u32) -> bool {
        let table = self.cache().table();
        let queues = self.queues();
        let in_flight = self.in_flight();
        &&& queues.contains_key(key) ==> {
            &&& queues[key].len() > 0
            &&& table.contains_key(key)
            &&& forall|j: int| 1 <= j < queues[key].len() ==> #[trigger] queues[key][j] is Client
            &&& queues[key][0] is Writeback ==> in_flight.contains_key(key) && in_flight[key] is Write
        }
        &&& table.contains_key(key) ==> {
            &&& table[key].pinned <==> queues.contains_key(key)
            &&& table[key].entry.state is Unloaded <==> in_flight.contains_key(key)
                && in_flight[key] is Read
            &&& table[key].evicting ==> queues.contains_key(key) && queues[key].len() == 1
                && queues[key][0] is Writeback
            &&& in_flight.contains_key(key) && in_flight[key] is Write ==> table[key].entry.state
                is Dirty && in_flight[key] == IoOp::Write(table[key].entry.value)
        }
        &&& in_flight.contains_key(key) ==> {
            &&& queues.contains_key(key)
            &&& in_flight[key] is Read ==> queues[key][0] is Client
            &&& in_flight[key] is Write ==> queues[key][0] is Writeback
        }
    }

    /// Well-formedness: the cache index is well formed, and queues, transfers
    /// and entries agree for every key.
    pub open spec fn wf(&self) -> bool {
        &&& self.cache().wf()
        &&& forall|key: u32| #[trigger] self.key_ok(key)
    }

    /// A coordinator over an empty cache index for `capacity` resident entries,
    /// of which up to `threshold` may be evicting at once.
    pub fn new(capacity: usize, threshold: usize) -> (coordinator: Coordinator)
        requires
            2 <= capacity,
            1 <= threshold < capacity,
        ensures
            coordinator.wf(),
            coordinator.queues() == Map::<u32, Seq<Waiter>>::empty(),
            coordinator.in_flight() == Map::<u32, IoOp>::empty(),
            coordinator.cache().recency() == Seq::<u32>::empty(),
            coordinator.cache().table() == Map::<u32, Slot>::empty(),
            coordinator.cache().room() == capacity,
            coordinator.cache().reclaim_threshold() == threshold,
            coordinator.cache().evictions() == 0,
            coordinator.cache().slot_count() == 0,
            coordinator.cache().free_slots() == Seq::<usize>::empty(),
    {
        let coordinator = Coordinator {
            cache: CacheIndex::new(capacity, threshold),
            queues: HashMap::new(),
            in_flight: HashMap::new(),
        };
        proof {
            assert(coordinator.queues() =~= Map::<u32, Seq<Waiter>>::empty());
            assert forall|key: u32| #[trigger] coordinator.key_ok(key) by {}
        }
        coordinator
    }

    /// For every key with a transfer under way there is a queue, and what stands
    /// in front of it matches the transfer: a client for a read, the write-back
    /// for a write.
    pub proof fn lemma_in_flight_heads(&self, key: u32)
        requires
            self.wf(),
            self.in_flight().contains_key(key),
        ensures
            self.queues().contains_key(key),
            self.queues()[key].len() > 0,
            self.in_flight()[key] is Read ==> self.queues()[key][0] is Client,
            self.in_flight()[key] is Write ==> self.queues()[key][0] is Writeback,
    {
        assert(self.key_ok(key));
    }

    /// The cache index.
    pub fn index(&self) -> (index: &CacheIndex)
        ensures
            index == self.cache(),
    {
        &self.cache
    }

    /// How many places the queue of `key` has: none where the key has no queue.
    pub fn queue_len(&self, key: u32) -> (n: usize)
        ensures
            n == (if self.queues().contains_key(key) {
                self.queues()[key].len()
            } else {
                0
            }),
    {
        match self.queues.get(&key) {
            Some(queue) => queue.len(),
            None => 0,
        }
    }

    /// Says whether the wait for the transfers that are under way is over, after
    /// `waited` units of time of the `limit` that is allowed for it: over once no
    /// transfer is under way, not over while the time allowed has not passed, and
    /// failed with `ShutdownTimeout` once it has.
    pub fn drained_within(&self, waited: u64, limit: u64) -> (r: Result<bool, Error>)
        ensures
            r == (if self.in_flight().len() == 0 {
                Ok::<bool, Error>(true)
            } else if waited < limit {
                Ok::<bool, Error>(false)
            } else {
                Err::<bool, Error>(Error::ShutdownTimeout)
            }),
    {
        if self.in_flight.len() == 0 {
            Ok(true)
        } else if waited < limit {
            Ok(false)
        } else {
            Err(Error::ShutdownTimeout)
        }
    }

    /// Whether no transfer is under way.
    pub fn is_drained(&self) -> (drained: bool)
        ensures
            drained == (self.in_flight().len() == 0),
    {
        self.in_flight.len() == 0
    }
    /// Locks change hands in order. Every grant among `actions` goes to the
    /// client in front of its key's queue, for a key that nobody held or that
    /// `released` names, with the entry as the cache has it; whoever held a lock
    /// on another key than `released` still holds it; and nobody has come to hold
    /// a lock without a grant.
    pub open spec fn handed_over(
        &self,
        before: &Coordinator,
        actions: Seq<Action>,
        released: Option<u32>,
    ) -> bool {
        &&& forall|j: int|
            0 <= j < actions.len() ==> (#[trigger] actions[j] matches Action::Grant(client, entry) ==> {
                &&& self.holder(entry.key) == Some(client)
                &&& before.holder(entry.key) is None || released == Some(entry.key)
                &&& self.cache().table().contains_key(entry.key)
                &&& self.cache().table()[entry.key].entry == entry
            })
        &&& forall|key: u32|
            released != Some(key) && (#[trigger] before.holder(key)) is Some ==> self.holder(key)
                == before.holder(key)
        &&& forall|key: u32|
            (#[trigger] self.holder(key)) is Some && (self.holder(key) != before.holder(key)
                || released == Some(key)) ==> exists|j: int|
                0 <= j < actions.len() && actions[j] == Action::Grant(
                    self.holder(key)->0,
                    self.cache().table()[key].entry,
                )
    }

    /// The clients that hold a lock on `key`.
    pub open spec fn holders(&self, key: u32) -> Set<u64> {
        match self.holder(key) {
            Some(client) => set![client],
            None => Set::empty(),
        }
    }

    /// The clients to which `actions` grant the lock on `key`.
    pub open spec fn granted(actions: Seq<Action>, key: u32) -> Set<u64> {
        Set::new(
            |client: u64|
                exists|j: int|
                    0 <= j < actions.len() && (#[trigger] actions[j] matches Action::Grant(to, entry)
                        && to == client && entry.key == key),
        )
    }

    /// At most one client holds the lock on a key. The locks on `key` that are
    /// out after a step (those that were out before it, less the one that the
    /// step took back, and those that the step granted) are the one of the
    /// holder that the coordinator knows, or none.
    pub proof fn lemma_one_handle(
        &self,
        before: &Coordinator,
        actions: Seq<Action>,
        released: Option<u32>,
        key: u32,
    )
        requires
            self.wf(),
            self.handed_over(before, actions, released),
        ensures
            self.holders(key).len() <= 1,
            self.holders(key) == (if released == Some(key) {
                Set::<u64>::empty()
            } else {
                before.holders(key)
            }).union(Self::granted(actions, key)),
    {
        self.cache().lemma_wf();
        let out = (if released == Some(key) {
            Set::<u64>::empty()
        } else {
            before.holders(key)
        }).union(Self::granted(actions, key));
        assert forall|client: u64| out.contains(client) implies self.holders(key).contains(client) by {
            if Self::granted(actions, key).contains(client) {
                let j = choose|j: int|
                    0 <= j < actions.len() && (#[trigger] actions[j] matches Action::Grant(to, entry)
                        && to == client && entry.key == key);
                assert(actions[j] is Grant);
            } else {
                assert(before.holder(key) is Some);
            }
        }
        assert forall|client: u64| self.holders(key).contains(client) implies out.contains(client) by {
            if self.holder(key) != before.holder(key) || released == Some(key) {
                assert(self.key_ok(key));
                let j = choose|j: int|
                    0 <= j < actions.len() && actions[j] == Action::Grant(
                        self.holder(key)->0,
                        self.cache().table()[key].entry,
                    );
                assert(actions[j] matches Action::Grant(to, entry) && to == client && entry.key
                    == key);
            }
        }
        assert(self.holders(key) =~= out);
        if self.holder(key) is Some {
            assert(self.holders(key).len() == 1) by {
                vstd::set::axiom_set_insert_len(Set::<u64>::empty(), self.holder(key)->0);
            }
        }
    }

    /// How a lock of `key` by `client` leads from `before` to `self`, with
    /// `actions` to carry out.
    pub open spec fn lock_step(
        &self,
        before: &Coordinator,
        key: u32,
        client: u64,
        actions: Seq<Action>,
    ) -> bool {
        &&& before.queues().contains_key(key) ==> {
            &&& actions == Seq::<Action>::empty()
            &&& self.queues() == before.queues().insert(
                key,
                before.queues()[key].push(Waiter::Client(client)),
            )
            &&& self.in_flight() == before.in_flight()
            &&& self.cache().recency() == moved_front(before.cache().recency(), key)
            &&& self.cache().table() == before.cache().table().insert(
                key,
                Slot { evicting: false, ..before.cache().table()[key] },
            )
            &&& self.cache().evictions() + (if before.cache().table()[key].evicting {
                1nat
            } else {
                0nat
            }) == before.cache().evictions()
            &&& layout_after(self.cache(), before.cache(), None)
        }
        &&& !before.queues().contains_key(key) && before.cache().table().contains_key(key) ==> {
            &&& actions == seq![Action::Grant(client, before.cache().table()[key].entry)]
            &&& self.queues() == before.queues().insert(key, seq![Waiter::Client(client)])
            &&& self.in_flight() == before.in_flight()
            &&& self.cache().recency() == moved_front(before.cache().recency(), key)
            &&& self.cache().table() == before.cache().table().insert(
                key,
                Slot { pinned: true, ..before.cache().table()[key] },
            )
            &&& self.cache().evictions() == before.cache().evictions()
            &&& layout_after(self.cache(), before.cache(), None)
        }
        &&& !before.cache().table().contains_key(key) ==> {
            let table = before.cache().table().insert(key, fresh_slot(key));
            let recency = seq![key] + before.cache().recency();
            let victim = before.cache().planned_victim(key);
            &&& actions == seq![Action::Read(key)] + writes_for(table, victim)
            &&& self.queues() == queues_after(
                before.queues().insert(key, seq![Waiter::Client(client)]),
                table,
                victim,
            )
            &&& self.in_flight() == in_flight_after(
                before.in_flight().insert(key, IoOp::Read),
                table,
                victim,
            )
            &&& self.cache().table() == table_after(table, victim)
            &&& self.cache().recency() == recency_after(recency, table, victim)
            &&& self.cache().evictions() == evictions_after(
                before.cache().evictions(),
                table,
                victim,
            )
            &&& self.cache().slot_of(key) == before.cache().next_slot()
            &&& self.cache().slot_count() == (if before.cache().next_slot()
                == before.cache().slot_count() {
                before.cache().slot_count() + 1
            } else {
                before.cache().slot_count()
            })
            &&& self.cache().free_slots() == ({
                let free = if before.cache().next_slot() == before.cache().slot_count() {
                    before.cache().free_slots()
                } else {
                    before.cache().free_slots().drop_first()
                };
                match gone_at_once(table, victim) {
                    Some(out) => free.push(before.cache().slot_of(out)),
                    None => free,
                }
            })
            &&& forall|k: u32|
                self.cache().table().contains_key(k) && before.cache().table().contains_key(k)
                    ==> #[trigger] self.cache().slot_of(k) == before.cache().slot_of(k)
        }
    }

    /// How an unlock of `key`, which leaves `value` and says whether the record
    /// is `dirty`, leads from `before`, where some client holds the key, to
    /// `self`: the value is kept, a dirty record is marked so, and the lock
    /// passes to the next client in the queue, if there is one.
    pub open spec fn unlock_step(
        &self,
        before: &Coordinator,
        key: u32,
        value: u64,
        dirty: bool,
        actions: Seq<Action>,
    ) -> bool {
        let slot = before.cache().table()[key];
        let state = if dirty {
            State::Dirty
        } else {
            slot.entry.state
        };
        let entry = Entry { key, value, state };
        let rest = before.queues()[key].drop_first();
        &&& self.in_flight() == before.in_flight()
        &&& self.cache().recency() == before.cache().recency()
        &&& self.cache().evictions() == before.cache().evictions()
        &&& layout_after(self.cache(), before.cache(), None)
        &&& rest.len() > 0 ==> {
            &&& actions == seq![Action::Grant(client_of(rest[0]), entry)]
            &&& self.queues() == before.queues().insert(key, rest)
            &&& self.cache().table() == before.cache().table().insert(key, Slot { entry, ..slot })
        }
        &&& rest.len() == 0 ==> {
            &&& actions == Seq::<Action>::empty()
            &&& self.queues() == before.queues().remove(key)
            &&& self.cache().table() == before.cache().table().insert(
                key,
                Slot { entry, pinned: false, ..slot },
            )
        }
    }

    /// How the completion of the read of `key` with `value` leads from `before`,
    /// where that read is under way, to `self`: the entry is loaded and fresh,
    /// and the client in front of the queue gets it.
    pub open spec fn read_step(
        &self,
        before: &Coordinator,
        key: u32,
        value: u64,
        actions: Seq<Action>,
    ) -> bool {
        let entry = Entry { key, value, state: State::Fresh };
        &&& actions == seq![Action::Grant(client_of(before.queues()[key][0]), entry)]
        &&& self.queues() == before.queues()
        &&& self.in_flight() == before.in_flight().remove(key)
        &&& self.cache().recency() == before.cache().recency()
        &&& self.cache().evictions() == before.cache().evictions()
        &&& layout_after(self.cache(), before.cache(), None)
        &&& self.cache().table() == before.cache().table().insert(
            key,
            Slot { entry, ..before.cache().table()[key] },
        )
    }

    /// How the completion of the write-back of `key` leads from `before`, where
    /// that write is under way, to `self`. Where no client has asked for the key
    /// meanwhile, the key stops being resident. Where one has, the entry stays,
    /// fresh now, that client gets it, and the eviction of another victim
    /// begins if the cache picks one.
    pub open spec fn write_step(&self, before: &Coordinator, key: u32, actions: Seq<Action>) -> bool {
        let slot = before.cache().table()[key];
        let rest = before.queues()[key].drop_first();
        &&& rest.len() == 0 ==> {
            &&& actions == Seq::<Action>::empty()
            &&& self.queues() == before.queues().remove(key)
            &&& self.in_flight() == before.in_flight().remove(key)
            &&& self.cache().table() == before.cache().table().remove(key)
            &&& self.cache().recency() == before.cache().recency().remove(
                before.cache().recency().index_of(key),
            )
            &&& self.cache().evictions() + (if slot.evicting {
                1nat
            } else {
                0nat
            }) == before.cache().evictions()
            &&& layout_after(self.cache(), before.cache(), Some(key))
        }
        &&& rest.len() > 0 ==> {
            let entry = Entry { key, value: slot.entry.value, state: State::Fresh };
            let table = before.cache().table().insert(key, Slot { entry, ..slot });
            let victim = victim_key(before.cache().recency(), table);
            &&& actions == seq![Action::Grant(client_of(rest[0]), entry)] + writes_for(table, victim)
            &&& self.queues() == queues_after(before.queues().insert(key, rest), table, victim)
            &&& self.in_flight() == in_flight_after(before.in_flight().remove(key), table, victim)
            &&& self.cache().table() == table_after(table, victim)
            &&& self.cache().recency() == recency_after(before.cache().recency(), table, victim)
            &&& self.cache().evictions() == evictions_after(
                before.cache().evictions(),
                table,
                victim,
            )
            &&& layout_after(self.cache(), before.cache(), gone_at_once(table, victim))
        }
    }

    /// Begins the eviction of the victim that the cache has just marked.
    fn evict(&mut self, victim: Entry, actions: &mut Vec<Action>)
        requires
            old(self).cache().wf(),
            old(self).cache().table().contains_key(victim.key),
            old(self).cache().table()[victim.key] == (Slot {
                entry: victim,
                evicting: true,
                pinned: false,
            }),
            victim.state is Fresh || victim.state is Dirty,
            !old(self).queues().contains_key(victim.key),
            !old(self).in_flight().contains_key(victim.key),
            forall|k: u32| k != victim.key ==> #[trigger] old(self).key_ok(k),
        ensures
            final(self).wf(),
            final(self).cache().room() == old(self).cache().room(),
            final(self).cache().reclaim_threshold() == old(self).cache().reclaim_threshold(),
            layout_after(
                final(self).cache(),
                old(self).cache(),
                if victim.state is Dirty {
                    None
                } else {
                    Some(victim.key)
                },
            ),
            victim.state is Dirty ==> {
                &&& final(self).cache().table() == old(self).cache().table().insert(
                    victim.key,
                    leaving(old(self).cache().table()[victim.key]),
                )
                &&& final(self).cache().recency() == old(self).cache().recency()
                &&& final(self).cache().evictions() == old(self).cache().evictions()
                &&& final(self).queues() == old(self).queues().insert(
                    victim.key,
                    seq![Waiter::Writeback],
                )
                &&& final(self).in_flight() == old(self).in_flight().insert(
                    victim.key,
                    IoOp::Write(victim.value),
                )
                &&& final(actions)@ == old(actions)@.push(Action::Write(victim.key, victim.value))
            },
            !(victim.state is Dirty) ==> {
                &&& final(self).cache().table() == old(self).cache().table().remove(victim.key)
                &&& final(self).cache().recency() == old(self).cache().recency().remove(
                    old(self).cache().recency().index_of(victim.key),
                )
                &&& final(self).cache().evictions() + 1 == old(self).cache().evictions()
                &&& final(self).queues() == old(self).queues()
                &&& final(self).in_flight() == old(self).in_flight()
                &&& final(actions)@ == old(actions)@
            },
    {
        let ghost before = *self;
        match victim.state {
            State::Dirty => {
                let mut queue: VecDeque<Waiter> = VecDeque::new();
                queue.push_back(Waiter::Writeback);
                self.queues.insert(victim.key, queue);
                self.in_flight.insert(victim.key, IoOp::Write(victim.value));
                self.cache.pin(victim.key);
                actions.push(Action::Write(victim.key, victim.value));
                proof {
                    assert(self.queues() =~= before.queues().insert(
                        victim.key,
                        seq![Waiter::Writeback],
                    ));
                    assert forall|k: u32| #[trigger] self.key_ok(k) by {
                        if k != victim.key {
                            assert(before.key_ok(k));
                        }
                    }
                }
            },
            _ => {
                self.cache.evicting_done(victim.key);
                proof {
                    assert(self.queues() =~= before.queues());
                    assert forall|k: u32| #[trigger] self.key_ok(k) by {
                        if k != victim.key {
                            assert(before.key_ok(k));
                        }
                    }
                }
            },
        }
    }

    /// A client asks for the lock on `key`. It joins the back of the key's
    /// queue. If it is first there, it gets the entry at once where the key is
    /// resident; where it is not, the key becomes resident, a read is asked for,
    /// and an eviction begins if the cache picks a victim. If it is not first,
    /// it waits, and the key is moved to the front of the recency order, which
    /// calls off an eviction of the key.
    pub fn lock(&mut self, key: u32, client: u64) -> (actions: Vec<Action>)
        requires
            old(self).wf(),
        ensures
            final(self).wf(),
            final(self).handed_over(old(self), actions@, None),
            final(self).cache().room() == old(self).cache().room(),
            final(self).cache().reclaim_threshold() == old(self).cache().reclaim_threshold(),
            old(self).cache().evictions() <= old(self).cache().reclaim_threshold()
                ==> final(self).cache().evictions() <= final(self).cache().reclaim_threshold(),
            final(self).lock_step(old(self), key, client, actions@),
    {
        let ghost before = *self;
        let mut actions: Vec<Action> = Vec::new();
        proof {
            assert(before.key_ok(key));
            before.cache.lemma_wf();
        }
        match self.queues.remove(&key) {
            Some(mut queue) => {
                let ghost waiting = queue@;
                queue.push_back(Waiter::Client(client));
                self.queues.insert(key, queue);
                self.cache.touch(key);
                proof {
                    assert(self.queues() =~= before.queues().insert(
                        key,
                        waiting.push(Waiter::Client(client)),
                    ));
                    assert forall|k: u32| #[trigger] self.key_ok(k) by {
                        assert(before.key_ok(k));
                    }
                }
            },
            None => {
                let mut queue: VecDeque<Waiter> = VecDeque::new();
                queue.push_back(Waiter::Client(client));
                self.queues.insert(key, queue);
                proof {
                    assert(self.queues() =~= before.queues().insert(
                        key,
                        seq![Waiter::Client(client)],
                    ));
                }
                if self.cache.contains(key) {
                    self.cache.touch(key);
                    self.cache.pin(key);
                    let entry = *self.cache.get_untouched(key);
                    actions.push(Action::Grant(client, entry));
                    proof {
                        assert(self.cache.table() =~= before.cache.table().insert(
                            key,
                            Slot { pinned: true, ..before.cache.table()[key] },
                        ));
                        assert forall|k: u32| #[trigger] self.key_ok(k) by {
                            assert(before.key_ok(k));
                        }
                        assert(actions@[0] == Action::Grant(client, entry));
                    }
                } else {
                    let (entry, victim) = self.cache.get_with_evicting(key);
                    actions.push(Action::Read(key));
                    self.in_flight.insert(key, IoOp::Read);
                    proof {
                        assert forall|k: u32|
                            victim.is_some() ==> k != victim.unwrap().key implies #[trigger] self.key_ok(
                            k,
                        ) by {
                            assert(before.key_ok(k));
                        }
                    }
                    match victim {
                        Some(out) => {
                            proof {
                                let chosen = before.cache.planned_victim(key)->0;
                                assert(before.key_ok(chosen));
                                assert(out.key == chosen);
                                assert(self.queues() =~= before.queues().insert(
                                    key,
                                    seq![Waiter::Client(client)],
                                ));
                            }
                            self.evict(out, &mut actions);
                            proof {
                                let table = before.cache.table().insert(key, fresh_slot(key));
                                let chosen = before.cache.planned_victim(key);
                                assert(self.cache.table() =~= table_after(table, chosen));
                                assert(actions@ =~= seq![Action::Read(key)] + writes_for(
                                    table,
                                    chosen,
                                ));
                                let recency = seq![key] + before.cache.recency();
                                assert(self.cache.recency() =~= recency_after(
                                    recency,
                                    table,
                                    chosen,
                                ));
                            }
                        },
                        None => {
                            proof {
                                assert(actions@ =~= seq![Action::Read(key)] + Seq::<Action>::empty());
                            }
                        },
                    }
                }
            },
        }
        proof {
            self.lemma_handed_over_lock(&before, actions@, key, client);
        }
        actions
    }

    /// The hand-over law for a lock: a grant goes out exactly when the client is
    /// first in the queue of a resident key.
    proof fn lemma_handed_over_lock(&self, before: &Coordinator, actions: Seq<Action>, key: u32, client: u64)
        requires
            before.wf(),
            self.wf(),
            forall|k: u32| k != key ==> #[trigger] before.holder(k) == self.holder(k),
            before.queues().contains_key(key) ==> actions.len() == 0 && self.holder(key)
                == before.holder(key),
            !before.queues().contains_key(key) && before.cache().table().contains_key(key) ==> {
                &&& actions == seq![Action::Grant(client, before.cache().table()[key].entry)]
                &&& self.holder(key) == Some(client)
                &&& self.cache().table().contains_key(key)
                &&& self.cache().table()[key].entry == before.cache().table()[key].entry
            },
            !before.cache().table().contains_key(key) ==> {
                &&& self.holder(key) is None
                &&& forall|j: int| 0 <= j < actions.len() ==> !(#[trigger] actions[j] is Grant)
            },
        ensures
            self.handed_over(before, actions, None),
    {
        assert(before.key_ok(key));
        before.cache().lemma_wf();
        assert forall|k: u32|
            (#[trigger] self.holder(k)) is Some && (self.holder(k) != before.holder(k) || None::<u32>
                == Some(k)) implies exists|j: int|
            0 <= j < actions.len() && actions[j] == Action::Grant(
                self.holder(k)->0,
                self.cache().table()[k].entry,
            ) by {
            assert(k == key);
            assert(actions[0] == Action::Grant(client, before.cache().table()[key].entry));
        }
    }
    /// Whether a client holds the lock on `key`.
    pub fn is_held(&self, key: u32) -> (held: bool)
        requires
            self.wf(),
        ensures
            held == self.holder(key).is_some(),
    {
        proof {
            assert(self.key_ok(key));
        }
        if self.in_flight.contains_key(&key) {
            return false;
        }
        match self.queues.get(&key) {
            Some(queue) => {
                match queue[0] {
                    Waiter::Client(_) => true,
                    Waiter::Writeback => false,
                }
            },
            None => false,
        }
    }

    /// The kind of transfer that is under way for `key`, if any.
    pub fn transfer(&self, key: u32) -> (op: Option<IoOp>)
        ensures
            op == (if self.in_flight().contains_key(key) {
                Some(self.in_flight()[key])
            } else {
                None::<IoOp>
            }),
    {
        match self.in_flight.get(&key) {
            Some(op) => Some(*op),
            None => None,
        }
    }

    /// The holder of `key` gives the lock back, leaving `value` and saying
    /// whether the record is `dirty`. Fails with `InvariantViolation`, and changes
    /// nothing, exactly when nobody holds the key.
    pub fn unlock(&mut self, key: u32, value: u64, dirty: bool) -> (r: Result<Vec<Action>, Error>)
        requires
            old(self).wf(),
        ensures
            final(self).wf(),
            final(self).cache().room() == old(self).cache().room(),
            final(self).cache().reclaim_threshold() == old(self).cache().reclaim_threshold(),
            old(self).holder(key) is None ==> r is Err && r->Err_0 == Error::InvariantViolation
                && *final(self) == *old(self),
            old(self).holder(key) is Some ==> r is Ok && final(self).unlock_step(
                old(self),
                key,
                value,
                dirty,
                r->Ok_0@,
            ) && final(self).handed_over(old(self), r->Ok_0@, Some(key)),
    {
        let ghost before = *self;
        proof {
            assert(before.key_ok(key));
            before.cache.lemma_wf();
        }
        if !self.is_held(key) {
            return Err(Error::InvariantViolation);
        }
        let mut actions: Vec<Action> = Vec::new();
        let mut queue = self.queues.remove(&key).unwrap();
        let ghost waiting = queue@;
        queue.pop_front();
        proof {
            assert(queue@ =~= waiting.drop_first());
        }
        let state = if dirty {
            State::Dirty
        } else {
            self.cache.get_untouched(key).state
        };
        self.cache.store(key, value, state);
        let entry = Entry { key, value, state };
        if queue.len() > 0 {
            match queue[0] {
                Waiter::Client(next) => {
                    actions.push(Action::Grant(next, entry));
                },
                Waiter::Writeback => {
                    assert(waiting[1] is Client);
                    assert(false);
                },
            }
            self.queues.insert(key, queue);
            proof {
                assert(waiting[1] is Client);
                assert(self.queues() =~= before.queues().insert(key, waiting.drop_first()));
                assert forall|k: u32| #[trigger] self.key_ok(k) by {
                    assert(before.key_ok(k));
                    if k == key {
                        assert forall|j: int| 1 <= j < self.queues()[key].len() implies #[trigger]
                            self.queues()[key][j] is Client by {
                            assert(waiting[j + 1] is Client);
                        }
                    }
                }
                assert(actions@ =~= seq![Action::Grant(client_of(waiting.drop_first()[0]), entry)]);
            }
        } else {
            self.cache.unpin(key);
            proof {
                assert(self.queues() =~= before.queues().remove(key));
                assert(self.cache.table() =~= before.cache.table().insert(
                    key,
                    Slot { entry, pinned: false, ..before.cache.table()[key] },
                ));
                assert forall|k: u32| #[trigger] self.key_ok(k) by {
                    assert(before.key_ok(k));
                }
            }
        }
        proof {
            self.lemma_handed_over(&before, actions@, key, Some(key));
        }
        Ok(actions)
    }

    /// The read of `key` has ended with `result`. Fails with
    /// `InvariantViolation` exactly when no read is under way for the key, and
    /// else with the error that the store reported, if it reported one; a
    /// failure changes nothing.
    pub fn read_done(&mut self, key: u32, result: Result<u64, IoError>) -> (r: Result<
        Vec<Action>,
        Error,
    >)
        requires
            old(self).wf(),
        ensures
            final(self).wf(),
            final(self).cache().room() == old(self).cache().room(),
            final(self).cache().reclaim_threshold() == old(self).cache().reclaim_threshold(),
            !(old(self).in_flight().contains_key(key) && old(self).in_flight()[key] is Read) ==> r
                is Err && r->Err_0 == Error::InvariantViolation && *final(self) == *old(self),
            old(self).in_flight().contains_key(key) && old(self).in_flight()[key] is Read ==> match result {
                Ok(value) => r is Ok && final(self).read_step(old(self), key, value, r->Ok_0@)
                    && final(self).handed_over(old(self), r->Ok_0@, None),
                Err(e) => r is Err && r->Err_0 == Error::Io(e) && *final(self) == *old(self),
            },
    {
        let ghost before = *self;
        proof {
            assert(before.key_ok(key));
            before.cache.lemma_wf();
        }
        match self.transfer(key) {
            Some(IoOp::Read) => {},
            _ => {
                return Err(Error::InvariantViolation);
            },
        }
        let value = match result {
            Ok(value) => value,
            Err(e) => {
                return Err(Error::Io(e));
            },
        };
        let mut actions: Vec<Action> = Vec::new();
        self.in_flight.remove(&key);
        self.cache.store(key, value, State::Fresh);
        let entry = Entry { key, value, state: State::Fresh };
        match self.queues.get(&key) {
            Some(queue) => {
                match queue[0] {
                    Waiter::Client(client) => {
                        actions.push(Action::Grant(client, entry));
                    },
                    Waiter::Writeback => {
                        assert(false);
                    },
                }
            },
            None => {
                assert(false);
            },
        }
        proof {
            assert(self.queues() =~= before.queues());
            assert forall|k: u32| #[trigger] self.key_ok(k) by {
                assert(before.key_ok(k));
            }
            assert(actions@ =~= seq![Action::Grant(client_of(before.queues()[key][0]), entry)]);
            self.lemma_handed_over(&before, actions@, key, None);
        }
        Ok(actions)
    }

    /// The write-back of `key` has ended with `result`. Fails with
    /// `InvariantViolation` exactly when no write is under way for the key, and
    /// else with the error that the store reported, if it reported one; a
    /// failure changes nothing.
    pub fn write_done(&mut self, key: u32, result: Result<(), IoError>) -> (r: Result<
        Vec<Action>,
        Error,
    >)
        requires
            old(self).wf(),
        ensures
            final(self).wf(),
            final(self).cache().room() == old(self).cache().room(),
            final(self).cache().reclaim_threshold() == old(self).cache().reclaim_threshold(),
            final(self).cache().evictions() <= old(self).cache().evictions() + 1,
            !(old(self).in_flight().contains_key(key) && old(self).in_flight()[key] is Write) ==> r
                is Err && r->Err_0 == Error::InvariantViolation && *final(self) == *old(self),
            old(self).in_flight().contains_key(key) && old(self).in_flight()[key] is Write ==> match result {
                Ok(_) => r is Ok && final(self).write_step(old(self), key, r->Ok_0@)
                    && final(self).handed_over(old(self), r->Ok_0@, None),
                Err(e) => r is Err && r->Err_0 == Error::Io(e) && *final(self) == *old(self),
            },
            old(self).in_flight().contains_key(key) && old(self).in_flight()[key] is Write && result
                is Ok && (old(self).queues()[key].len() == 1 || old(self).cache().evictions()
                < old(self).cache().reclaim_threshold()) ==> final(self).cache().evictions()
                <= final(self).cache().reclaim_threshold() || final(self).cache().evictions()
                <= old(self).cache().evictions(),
    {
        let ghost before = *self;
        proof {
            assert(before.key_ok(key));
            before.cache.lemma_wf();
        }
        match self.transfer(key) {
            Some(IoOp::Write(_)) => {},
            _ => {
                return Err(Error::InvariantViolation);
            },
        }
        match result {
            Ok(_) => {},
            Err(e) => {
                return Err(Error::Io(e));
            },
        }
        let mut actions: Vec<Action> = Vec::new();
        self.in_flight.remove(&key);
        let mut queue = self.queues.remove(&key).unwrap();
        let ghost waiting = queue@;
        queue.pop_front();
        proof {
            assert(queue@ =~= waiting.drop_first());
        }
        if queue.len() > 0 {
            let value = self.cache.get_untouched(key).value;
            let entry = Entry { key, value, state: State::Fresh };
            match queue[0] {
                Waiter::Client(client) => {
                    actions.push(Action::Grant(client, entry));
                },
                Waiter::Writeback => {
                    assert(waiting[1] is Client);
                    assert(false);
                },
            }
            self.queues.insert(key, queue);
            self.cache.store(key, value, State::Fresh);
            proof {
                assert(waiting[1] is Client);
                assert(self.queues() =~= before.queues().insert(key, waiting.drop_first()));
                assert forall|k: u32| #[trigger] self.key_ok(k) by {
                    assert(before.key_ok(k));
                    if k == key {
                        assert forall|j: int| 1 <= j < self.queues()[key].len() implies #[trigger]
                            self.queues()[key][j] is Client by {
                            assert(waiting[j + 1] is Client);
                        }
                    }
                }
                assert(actions@ =~= seq![Action::Grant(client_of(waiting.drop_first()[0]), entry)]);
            }
            let ghost mid = *self;
            proof {
                mid.cache.lemma_wf();
                CacheIndex::lemma_victim(mid.cache.recency(), mid.cache.table());
            }
            let victim = self.cache.evicting_new();
            match victim {
                Some(out) => {
                    proof {
                        let chosen = mid.cache.victim()->0;
                        assert(mid.key_ok(chosen));
                        assert(out.key == chosen);
                        assert(self.queues() =~= mid.queues());
                        assert forall|k: u32| k != out.key implies #[trigger] self.key_ok(k) by {
                            assert(mid.key_ok(k));
                        }
                    }
                    self.evict(out, &mut actions);
                    proof {
                        let chosen = mid.cache.victim();
                        assert(self.cache.table() =~= table_after(mid.cache.table(), chosen));
                        assert(actions@ =~= seq![
                            Action::Grant(client_of(waiting.drop_first()[0]), entry),
                        ] + writes_for(mid.cache.table(), chosen));
                    }
                },
                None => {
                    proof {
                        assert(self.queues() =~= mid.queues());
                        assert forall|k: u32| #[trigger] self.key_ok(k) by {
                            assert(mid.key_ok(k));
                        }
                        assert(actions@ =~= seq![
                            Action::Grant(client_of(waiting.drop_first()[0]), entry),
                        ] + Seq::<Action>::empty());
                    }
                },
            }
        } else {
            self.cache.evicting_done(key);
            proof {
                assert(self.queues() =~= before.queues().remove(key));
                assert forall|k: u32| #[trigger] self.key_ok(k) by {
                    assert(before.key_ok(k));
                }
            }
        }
        proof {
            self.lemma_handed_over(&before, actions@, key, None);
        }
        Ok(actions)
    }

    /// The hand-over law for a step on `key` after which the holder of every
    /// other key is who it was.
    proof fn lemma_handed_over(
        &self,
        before: &Coordinator,
        actions: Seq<Action>,
        key: u32,
        released: Option<u32>,
    )
        requires
            before.wf(),
            self.wf(),
            forall|k: u32| k != key ==> #[trigger] before.holder(k) == self.holder(k),
            released is None ==> before.holder(key) is None,
            released is Some ==> released == Some(key),
            forall|j: int|
                0 <= j < actions.len() && (#[trigger] actions[j]) is Grant ==> j == 0 && self.holder(key)
                    is Some && actions[j] == Action::Grant(
                    self.holder(key)->0,
                    self.cache().table()[key].entry,
                ),
            self.holder(key) is Some && self.holder(key) != before.holder(key) ==> actions.len() > 0
                && actions[0] is Grant,
            self.holder(key) is Some && released is Some ==> actions.len() > 0 && actions[0] is Grant,
        ensures
            self.handed_over(before, actions, released),
    {
        assert(self.key_ok(key));
        self.cache().lemma_wf();
        assert forall|j: int| 0 <= j < actions.len() implies (#[trigger] actions[j] matches Action::Grant(
            client,
            entry,
        ) ==> {
            &&& self.holder(entry.key) == Some(client)
            &&& before.holder(entry.key) is None || released == Some(entry.key)
            &&& self.cache().table().contains_key(entry.key)
            &&& self.cache().table()[entry.key].entry == entry
        }) by {
            if actions[j] is Grant {
                assert(self.cache().table()[key].entry.key == key);
            }
        }
        assert forall|k: u32|
            (#[trigger] self.holder(k)) is Some && (self.holder(k) != before.holder(k) || released
                == Some(k)) implies exists|j: int|
            0 <= j < actions.len() && actions[j] == Action::Grant(
                self.holder(k)->0,
                self.cache().table()[k].entry,
            ) by {
            assert(k == key);
            assert(actions[0] is Grant);
        }
    }

    /// Carries out what a client asks for.
    pub fn handle_request(&mut self, request: DataRequest) -> (r: Result<Vec<Action>, Error>)
        requires
            old(self).wf(),
        ensures
            final(self).wf(),
            final(self).cache().room() == old(self).cache().room(),
            final(self).cache().reclaim_threshold() == old(self).cache().reclaim_threshold(),
            match request {
                DataRequest::Lock(key, client) => {
                    &&& r is Ok
                    &&& final(self).lock_step(old(self), key, client, r->Ok_0@)
                    &&& final(self).handed_over(old(self), r->Ok_0@, None)
                },
                DataRequest::Unlock(key, value, dirty) => {
                    &&& old(self).holder(key) is None ==> r is Err && r->Err_0
                        == Error::InvariantViolation && *final(self) == *old(self)
                    &&& old(self).holder(key) is Some ==> r is Ok && final(self).unlock_step(
                        old(self),
                        key,
                        value,
                        dirty,
                        r->Ok_0@,
                    ) && final(self).handed_over(old(self), r->Ok_0@, Some(key))
                },
            },
    {
        match request {
            DataRequest::Lock(key, client) => Ok(self.lock(key, client)),
            DataRequest::Unlock(key, value, dirty) => self.unlock(key, value, dirty),
        }
    }

    /// Takes in what the store reports.
    pub fn handle_response(&mut self, response: IoResponse) -> (r: Result<Vec<Action>, Error>)
        requires
            old(self).wf(),
        ensures
            final(self).wf(),
            final(self).cache().room() == old(self).cache().room(),
            final(self).cache().reclaim_threshold() == old(self).cache().reclaim_threshold(),
            match response {
                IoResponse::Read(key, result) => {
                    &&& !(old(self).in_flight().contains_key(key) && old(self).in_flight()[key]
                        is Read) ==> r is Err && r->Err_0 == Error::InvariantViolation && *final(self)
                        == *old(self)
                    &&& old(self).in_flight().contains_key(key) && old(self).in_flight()[key]
                        is Read ==> match result {
                        Ok(value) => r is Ok && final(self).read_step(old(self), key, value, r->Ok_0@)
                            && final(self).handed_over(old(self), r->Ok_0@, None),
                        Err(e) => r is Err && r->Err_0 == Error::Io(e) && *final(self) == *old(self),
                    }
                },
                IoResponse::Write(key, result) => {
                    &&& !(old(self).in_flight().contains_key(key) && old(self).in_flight()[key]
                        is Write) ==> r is Err && r->Err_0 == Error::InvariantViolation && *final(self)
                        == *old(self)
                    &&& old(self).in_flight().contains_key(key) && old(self).in_flight()[key]
                        is Write ==> match result {
                        Ok(_) => r is Ok && final(self).write_step(old(self), key, r->Ok_0@)
                            && final(self).handed_over(old(self), r->Ok_0@, None),
                        Err(e) => r is Err && r->Err_0 == Error::Io(e) && *final(self) == *old(self),
                    }
                },
            },
    {
        match response {
            IoResponse::Read(key, result) => self.read_done(key, result),
            IoResponse::Write(key, result) => self.write_done(key, result),
        }
    }

    /// The writes that bring the store up to date: one for each dirty entry, the
    /// least recently used first.
    pub fn write_back(&self) -> (actions: Vec<Action>)
        requires
            self.wf(),
        ensures
            actions@.len() == dirty_in(self.cache().recency(), self.cache().table()).len(),
            forall|j: int|
                0 <= j < actions@.len() ==> #[trigger] actions@[j] == Action::Write(
                    dirty_in(self.cache().recency(), self.cache().table())[j].key,
                    dirty_in(self.cache().recency(), self.cache().table())[j].value,
                ),
    {
        let dirty = self.cache.dirty_entries();
        let mut actions: Vec<Action> = Vec::new();
        let mut n: usize = 0;
        while n < dirty.len()
            invariant
                n <= dirty@.len(),
                actions@.len() == n,
                forall|j: int|
                    0 <= j < n ==> #[trigger] actions@[j] == Action::Write(
                        dirty@[j].key,
                        dirty@[j].value,
                    ),
            decreases dirty@.len() - n,
        {
            actions.push(Action::Write(dirty[n].key, dirty[n].value));
            n += 1;
        }
        actions
    }
}

} // verus!