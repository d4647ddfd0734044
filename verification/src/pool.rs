//! The pool in one piece: the coordinator over a store that answers at once.
//! Every transfer that a request asks for is carried out and completed before
//! the request returns.

use crate::coordinator::{client_of, Action, Coordinator, IoOp, IoResponse, Waiter};
use crate::dispatcher::{as_request, serve, IoRequest};
use crate::durability::{
    agrees, held, lemma_lock_keeps_values, lemma_read_keeps_values, lemma_unlock_sets_value,
    lemma_victim_loaded, lemma_write_back_completes, lemma_write_keeps_values, stored, written,
};
use crate::entry::{Entry, State};
use crate::error::Error;
use crate::index::{dirty_in, CacheIndex};
use crate::storage::Storage;
use vstd::prelude::*;

verus! {

/// A coordinator with its store.
pub struct Pool<S: Storage> {
    coordinator: Coordinator,
    storage: S,
}

/// Writing one more entry after others is writing the others and then the one.
proof fn lemma_written_push(store: Map<u32, u64>, entries: Seq<Entry>, last: Entry)
    ensures
        written(store, entries.push(last)) == written(store, entries).insert(last.key, last.value),
    decreases entries.len(),
{
    if entries.len() == 0 {
        assert(entries.push(last).drop_first() =~= Seq::<Entry>::empty());
        assert(written(store.insert(last.key, last.value), Seq::<Entry>::empty()) == store.insert(
            last.key,
            last.value,
        ));
    } else {
        let first = entries[0];
        assert(entries.push(last).drop_first() =~= entries.drop_first().push(last));
        lemma_written_push(store.insert(first.key, first.value), entries.drop_first(), last);
    }
}

impl<S: Storage> Pool<S> {
    /// The coordinator of the pool.
    pub closed spec fn coordinator(&self) -> &Coordinator {
        &self.coordinator
    }

    /// The store of the pool.
    pub closed spec fn storage(&self) -> &S {
        &self.storage
    }

    /// What the store holds, as a map.
    pub open spec fn records(storage: &S) -> Map<u32, u64> {
        Map::new(|k: u32| true, |k: u32| storage.value_at(k))
    }

    /// The value that the pool holds for `key`: the one in the cache where the
    /// key is loaded, and else the one in the store.
    pub open spec fn value_of(&self, key: u32) -> u64 {
        held(self.coordinator(), Self::records(self.storage()), key)
    }

    /// Well-formedness: coordinator and store are well formed, no transfer is
    /// under way, no entry is evicting, and every fresh entry holds what the
    /// store holds.
    pub open spec fn wf(&self) -> bool {
        &&& self.coordinator().wf()
        &&& self.storage().wf()
        &&& agrees(self.coordinator(), Self::records(self.storage()))
        &&& forall|k: u32| !self.coordinator().in_flight().contains_key(k)
        &&& self.coordinator().cache().evictions() == 0
    }

    /// The slot of a key that a client has come to hold by a miss: loaded with
    /// `value`, fresh, and in use.
    pub open spec fn loaded_slot(key: u32, value: u64) -> crate::index::Slot {
        crate::index::Slot {
            entry: Entry { key, value, state: State::Fresh },
            evicting: false,
            pinned: true,
        }
    }

    /// A pool over `storage`, with an empty cache for `capacity` resident
    /// entries, of which up to `threshold` may be evicting at once.
    pub fn new(capacity: usize, threshold: usize, storage: S) -> (pool: Pool<S>)
        requires
            2 <= capacity,
            1 <= threshold < capacity,
            storage.wf(),
        ensures
            pool.wf(),
            *pool.storage() == storage,
            forall|k: u32| #[trigger] pool.value_of(k) == storage.value_at(k),
            pool.coordinator().queues() == Map::<u32, Seq<Waiter>>::empty(),
            pool.coordinator().cache().table() == Map::<u32, crate::index::Slot>::empty(),
            pool.coordinator().cache().room() == capacity,
            pool.coordinator().cache().reclaim_threshold() == threshold,
    {
        Pool { coordinator: Coordinator::new(capacity, threshold), storage }
    }

    /// Gives the store back.
    pub fn into_storage(self) -> (storage: S)
        ensures
            storage == *self.storage(),
    {
        self.storage
    }

    /// The client asks for the lock on `key`. Where nobody holds the key, the
    /// client holds it from now on, and gets the entry with the value that the
    /// pool holds for the key, which a miss reads from the store; otherwise it
    /// waits in the queue of the key and gets nothing yet. No value changes. A
    /// failure of the store fails the request, and leaves a transfer under way
    /// that nothing completes: the pool is not to be used any more.
    pub fn lock(&mut self, key: u32, client: u64) -> (r: Result<Option<Entry>, Error>)
        requires
            old(self).wf(),
        ensures
            old(self).storage().unfailing() || old(self).coordinator().cache().table().contains_key(key)
                ==> r is Ok,
            r is Err ==> r->Err_0 is Io,
            r matches Ok(granted) ==> {
                &&& final(self).wf()
                &&& final(self).storage().unfailing() == old(self).storage().unfailing()
                &&& forall|k: u32| #[trigger] final(self).value_of(k) == old(self).value_of(k)
                &&& old(self).coordinator().queues().contains_key(key) ==> {
                    &&& granted is None
                    &&& final(self).coordinator().queues() == old(self).coordinator().queues().insert(
                        key,
                        old(self).coordinator().queues()[key].push(Waiter::Client(client)),
                    )
                }
                &&& !old(self).coordinator().queues().contains_key(key) ==> {
                    &&& granted matches Some(entry) && entry.key == key && entry.value
                        == old(self).value_of(key)
                    &&& final(self).coordinator().queues() == old(self).coordinator().queues().insert(
                        key,
                        seq![Waiter::Client(client)],
                    )
                }
                &&& old(self).coordinator().cache().table().contains_key(key) ==> {
                    &&& *final(self).storage() == *old(self).storage()
                    &&& final(self).coordinator().lock_step(
                        old(self).coordinator(),
                        key,
                        client,
                        match granted {
                            Some(entry) => seq![Action::Grant(client, entry)],
                            None => Seq::empty(),
                        },
                    )
                }
                &&& !old(self).coordinator().cache().table().contains_key(key) ==> {
                    let table = old(self).coordinator().cache().table();
                    let recency = seq![key] + old(self).coordinator().cache().recency();
                    let victim = old(self).coordinator().cache().planned_victim(key);
                    &&& final(self).coordinator().cache().table() == (match victim {
                        Some(out) => table.remove(out),
                        None => table,
                    }).insert(key, Self::loaded_slot(key, old(self).value_of(key)))
                    &&& final(self).coordinator().cache().recency() == (match victim {
                        Some(out) => recency.remove(recency.index_of(out)),
                        None => recency,
                    })
                    &&& forall|k: u32|
                        #[trigger] final(self).storage().value_at(k) == (if victim == Some(k)
                            && table[k].entry.state is Dirty {
                            table[k].entry.value
                        } else {
                            old(self).storage().value_at(k)
                        })
                }
            },
    {
        let ghost before = *self;
        let ghost store = Self::records(&self.storage);
        proof {
            before.coordinator.cache().lemma_wf();
            assert(before.coordinator.key_ok(key));
        }
        let actions = self.coordinator.lock(key, client);
        proof {
            lemma_lock_keeps_values(
                &before.coordinator,
                &self.coordinator,
                key,
                client,
                actions@,
                store,
            );
            assert(self.coordinator.key_ok(key));
            if before.coordinator.cache().table().contains_key(key) {
                assert(self.coordinator.in_flight() =~= before.coordinator.in_flight());
            }
        }
        if actions.len() == 0 {
            return Ok(None);
        }
        match actions[0] {
            Action::Grant(_, entry) => Ok(Some(entry)),
            Action::Read(_) => {
                let ghost table = before.coordinator.cache().table().insert(
                    key,
                    crate::index::fresh_slot(key),
                );
                let ghost recency = seq![key] + before.coordinator.cache().recency();
                let ghost victim = before.coordinator.cache().planned_victim(key);
                proof {
                    if let Some(out) = victim {
                        assert forall|k: u32| #[trigger] recency.contains(k) implies table.contains_key(
                            k,
                        ) by {
                            let j = recency.index_of(k);
                            assert(recency[j] == k);
                            if j > 0 {
                                assert(before.coordinator.cache().recency()[j - 1] == k);
                                assert(before.coordinator.cache().recency().contains(k));
                            }
                        }
                        lemma_victim_loaded(&before.coordinator, recency, table, out);
                    }
                }
                let entry = match self.fetch(key) {
                    Ok(entry) => entry,
                    Err(e) => {
                        return Err(e);
                    },
                };
                if actions.len() > 1 {
                    match actions[1] {
                        Action::Write(out, value) => {
                            proof {
                                assert(self.coordinator.key_ok(out));
                            }
                            match self.flush(out, value) {
                                Ok(_) => {},
                                Err(e) => {
                                    return Err(e);
                                },
                            }
                        },
                        _ => {
                            assert(false);
                        },
                    }
                }
                proof {
                    assert(self.coordinator.in_flight() =~= before.coordinator.in_flight());
                    assert(self.coordinator.queues() =~= before.coordinator.queues().insert(
                        key,
                        seq![Waiter::Client(client)],
                    ));
                    let old_table = before.coordinator.cache().table();
                    assert(self.coordinator.cache().table() =~= (match victim {
                        Some(out) => old_table.remove(out),
                        None => old_table,
                    }).insert(key, Self::loaded_slot(key, before.value_of(key))));
                    assert forall|k: u32|
                        #[trigger] self.storage.value_at(k) == (if victim == Some(k)
                            && old_table[k].entry.state is Dirty {
                            old_table[k].entry.value
                        } else {
                            before.storage.value_at(k)
                        }) by {
                        assert(Self::records(&before.storage)[k] == before.storage.value_at(k));
                    }
                }
                Ok(Some(entry))
            },
            Action::Write(_, _) => {
                assert(false);
                Ok(None)
            },
        }
    }

    /// The pool is well formed but for the transfers that are under way.
    spec fn settling(&self) -> bool {
        &&& self.coordinator.wf()
        &&& self.storage.wf()
        &&& agrees(&self.coordinator, Self::records(&self.storage))
    }

    /// Reads the record of `key`, for which a read is under way, and takes the
    /// completion in.
    fn fetch(&mut self, key: u32) -> (r: Result<Entry, Error>)
        requires
            old(self).settling(),
            old(self).coordinator.in_flight().contains_key(key),
            old(self).coordinator.in_flight()[key] is Read,
        ensures
            old(self).storage.unfailing() ==> r is Ok,
            r is Err ==> r->Err_0 is Io,
            r matches Ok(entry) ==> {
                &&& final(self).settling()
                &&& final(self).storage.unfailing() == old(self).storage.unfailing()
                &&& Self::records(&final(self).storage) == Self::records(&old(self).storage)
                &&& entry == (Entry { key, value: old(self).value_of(key), state: State::Fresh })
                &&& final(self).coordinator.read_step(
                    &old(self).coordinator,
                    key,
                    old(self).value_of(key),
                    seq![Action::Grant(client_of(old(self).coordinator.queues()[key][0]), entry)],
                )
                &&& final(self).coordinator.queues() == old(self).coordinator.queues()
                &&& final(self).coordinator.in_flight() == old(self).coordinator.in_flight().remove(
                    key,
                )
                &&& final(self).coordinator.cache().room() == old(self).coordinator.cache().room()
                &&& final(self).coordinator.cache().reclaim_threshold()
                    == old(self).coordinator.cache().reclaim_threshold()
                &&& forall|k: u32| #[trigger] final(self).value_of(k) == old(self).value_of(k)
                &&& forall|k: u32|
                    k != key ==> (#[trigger] final(self).coordinator.cache().table().contains_key(k)
                        <==> old(self).coordinator.cache().table().contains_key(k))
            },
    {
        let ghost before = *self;
        let ghost store = Self::records(&self.storage);
        proof {
            assert(before.coordinator.key_ok(key));
        }
        let response = serve(&mut self.storage, IoRequest::Read(key));
        proof {
            assert(Self::records(&self.storage) =~= store);
        }
        let actions = match self.coordinator.handle_response(response) {
            Ok(actions) => actions,
            Err(e) => {
                return Err(e);
            },
        };
        proof {
            lemma_read_keeps_values(
                &before.coordinator,
                &self.coordinator,
                key,
                stored(store, key),
                actions@,
                store,
            );
        }
        match actions[0] {
            Action::Grant(_, entry) => Ok(entry),
            _ => {
                assert(false);
                Ok(Entry { key, value: 0, state: State::Fresh })
            },
        }
    }

    /// Writes `value` as the record of `out`, for which that write-back is
    /// under way and nobody waits, and takes the completion in: the key stops
    /// being resident.
    fn flush(&mut self, out: u32, value: u64) -> (r: Result<(), Error>)
        requires
            old(self).settling(),
            old(self).coordinator.in_flight().contains_key(out),
            old(self).coordinator.in_flight()[out] == IoOp::Write(value),
            old(self).coordinator.queues()[out].len() == 1,
        ensures
            old(self).storage.unfailing() ==> r is Ok,
            r is Err ==> r->Err_0 is Io,
            r is Ok ==> {
                &&& final(self).settling()
                &&& final(self).storage.unfailing() == old(self).storage.unfailing()
                &&& final(self).coordinator.write_step(&old(self).coordinator, out, Seq::empty())
                &&& forall|k: u32|
                    #[trigger] final(self).storage.value_at(k) == (if k == out {
                        value
                    } else {
                        old(self).storage.value_at(k)
                    })
                &&& final(self).coordinator.queues() == old(self).coordinator.queues().remove(out)
                &&& final(self).coordinator.in_flight() == old(self).coordinator.in_flight().remove(
                    out,
                )
                &&& final(self).coordinator.cache().room() == old(self).coordinator.cache().room()
                &&& final(self).coordinator.cache().reclaim_threshold()
                    == old(self).coordinator.cache().reclaim_threshold()
                &&& forall|k: u32| #[trigger] final(self).value_of(k) == old(self).value_of(k)
            },
    {
        let ghost before = *self;
        let ghost store = Self::records(&self.storage);
        proof {
            assert(before.coordinator.key_ok(out));
        }
        let response = serve(&mut self.storage, IoRequest::Write(out, value));
        proof {
            if response matches IoResponse::Write(_, Ok(_)) {
                assert(Self::records(&self.storage) =~= store.insert(out, value));
            }
        }
        let actions = match self.coordinator.handle_response(response) {
            Ok(actions) => actions,
            Err(e) => {
                return Err(e);
            },
        };
        proof {
            lemma_write_keeps_values(
                &before.coordinator,
                &self.coordinator,
                out,
                actions@,
                store,
                value,
            );
        }
        Ok(())
    }

    /// The holder gives the lock on `key` back, leaving `value` and saying
    /// whether the record is `dirty`. The pool holds `value` for `key` from now
    /// on. The next client in the queue of the key, if there is one, holds the
    /// lock now: it is returned with the entry that it gets. Fails with
    /// `InvariantViolation`, and changes nothing, exactly when nobody holds the
    /// key.
    pub fn unlock(&mut self, key: u32, value: u64, dirty: bool) -> (r: Result<
        Option<(u64, Entry)>,
        Error,
    >)
        requires
            old(self).wf(),
            dirty || value == old(self).value_of(key),
        ensures
            final(self).wf(),
            *final(self).storage() == *old(self).storage(),
            old(self).coordinator().holder(key) is None ==> r is Err && r->Err_0
                == Error::InvariantViolation && *final(self) == *old(self),
            old(self).coordinator().holder(key) is Some ==> {
                &&& r is Ok
                &&& final(self).coordinator().unlock_step(
                    old(self).coordinator(),
                    key,
                    value,
                    dirty,
                    match r->Ok_0 {
                        Some((next, entry)) => seq![Action::Grant(next, entry)],
                        None => Seq::empty(),
                    },
                )
                &&& final(self).value_of(key) == value
                &&& forall|k: u32| k != key ==> #[trigger] final(self).value_of(k) == old(self).value_of(k)
                &&& old(self).coordinator().queues()[key].len() == 1 ==> r->Ok_0 is None
                    && final(self).coordinator().queues()
                    == old(self).coordinator().queues().remove(key)
                &&& old(self).coordinator().queues()[key].len() > 1 ==> (r->Ok_0 matches Some(
                    (next, entry),
                ) && Waiter::Client(next) == old(self).coordinator().queues()[key][1] && entry.key
                    == key && entry.value == value) && final(self).coordinator().queues()
                    == old(self).coordinator().queues().insert(
                    key,
                    old(self).coordinator().queues()[key].drop_first(),
                )
            },
    {
        let ghost before = *self;
        let ghost store = Self::records(&self.storage);
        proof {
            before.coordinator.cache().lemma_wf();
            assert(before.coordinator.key_ok(key));
        }
        let actions = match self.coordinator.unlock(key, value, dirty) {
            Ok(actions) => actions,
            Err(e) => {
                return Err(e);
            },
        };
        proof {
            lemma_unlock_sets_value(
                &before.coordinator,
                &self.coordinator,
                key,
                value,
                dirty,
                actions@,
                store,
            );
            assert(self.coordinator.key_ok(key));
            assert(before.coordinator.queues()[key][1] is Client || before.coordinator.queues()[key].len()
                == 1);
        }
        if actions.len() == 0 {
            return Ok(None);
        }
        match actions[0] {
            Action::Grant(next, entry) => Ok(Some((next, entry))),
            _ => {
                assert(false);
                Ok(None)
            },
        }
    }

    /// Brings the store up to date: writes every dirty record, the least
    /// recently used first, and has the store make the writes durable. It stops
    /// at the first failure of the store. The pool holds for every key what it
    /// held, whatever the outcome; after a success the store holds the same.
    pub fn shutdown(&mut self) -> (r: Result<(), Error>)
        requires
            old(self).wf(),
        ensures
            final(self).wf(),
            final(self).coordinator() == old(self).coordinator(),
            final(self).storage().unfailing() == old(self).storage().unfailing(),
            forall|k: u32| #[trigger] final(self).value_of(k) == old(self).value_of(k),
            old(self).storage().unfailing() ==> r is Ok,
            r is Err ==> r->Err_0 is Io,
            r is Ok ==> forall|k: u32| #[trigger]
                final(self).storage().value_at(k) == old(self).value_of(k),
    {
        let ghost before = *self;
        let ghost store = Self::records(&self.storage);
        let ghost dirty = dirty_in(self.coordinator.cache().recency(), self.coordinator.cache().table());
        let writes = self.coordinator.write_back();
        let mut n: usize = 0;
        proof {
            assert(dirty.subrange(0, 0) =~= Seq::<Entry>::empty());
            assert(Self::records(&self.storage) =~= written(store, dirty.subrange(0, 0)));
            before.coordinator.cache().lemma_wf();
            let recency = before.coordinator.cache().recency();
            let table = before.coordinator.cache().table();
            assert forall|j: int| 0 <= j < recency.len() implies table[#[trigger] recency[j]].entry.key
                == recency[j] by {
                assert(recency.contains(recency[j]));
            }
            assert forall|j: int| 0 <= j < dirty.len() implies table.contains_key(
                (#[trigger] dirty[j]).key,
            ) && table[dirty[j].key].entry == dirty[j] && dirty[j].state is Dirty by {
                Self::lemma_dirty_members(recency, table, j);
            }
        }
        while n < writes.len()
            invariant
                n <= writes@.len(),
                before == *old(self),
                before.wf(),
                self.coordinator == before.coordinator,
                self.storage.wf(),
                self.storage.unfailing() == before.storage.unfailing(),
                store == Self::records(&before.storage),
                dirty == dirty_in(
                    before.coordinator.cache().recency(),
                    before.coordinator.cache().table(),
                ),
                writes@.len() == dirty.len(),
                forall|j: int|
                    0 <= j < writes@.len() ==> #[trigger] writes@[j] == Action::Write(
                        dirty[j].key,
                        dirty[j].value,
                    ),
                forall|j: int|
                    0 <= j < dirty.len() ==> before.coordinator.cache().table().contains_key(
                        (#[trigger] dirty[j]).key,
                    ) && before.coordinator.cache().table()[dirty[j].key].entry == dirty[j]
                        && dirty[j].state is Dirty,
                Self::records(&self.storage) == written(store, dirty.subrange(0, n as int)),
                agrees(&self.coordinator, Self::records(&self.storage)),
                forall|k: u32| #[trigger] self.value_of(k) == before.value_of(k),
            decreases writes@.len() - n,
        {
            let ghost now = Self::records(&self.storage);
            let ghost head = *self;
            match as_request(writes[n]) {
                Some(request) => {
                    let response = serve(&mut self.storage, request);
                    match response {
                        IoResponse::Write(_, Ok(_)) => {},
                        IoResponse::Write(_, Err(e)) => {
                            proof {
                                let entry = dirty[n as int];
                                assert forall|k: u32| #[trigger] self.value_of(k) == before.value_of(
                                    k,
                                ) by {
                                    assert(head.value_of(k) == before.value_of(k));
                                    if k != entry.key {
                                        assert(Self::records(&self.storage)[k] == now[k]);
                                    }
                                }
                            }
                            return Err(Error::Io(e));
                        },
                        IoResponse::Read(_, _) => {
                            assert(false);
                        },
                    }
                    proof {
                        let entry = dirty[n as int];
                        assert(Self::records(&self.storage) =~= now.insert(entry.key, entry.value));
                        lemma_written_push(store, dirty.subrange(0, n as int), entry);
                        assert(dirty.subrange(0, n as int).push(entry) =~= dirty.subrange(0, n + 1));
                        assert forall|k: u32| #[trigger] self.value_of(k) == before.value_of(k) by {
                            assert(head.value_of(k) == before.value_of(k));
                            if k != entry.key {
                                assert(Self::records(&self.storage)[k] == now[k]);
                            }
                        }
                    }
                },
                None => {
                    assert(false);
                },
            }
            n += 1;
        }
        proof {
            assert(dirty.subrange(0, n as int) =~= dirty);
            assert forall|k: u32| #[trigger] self.storage.value_at(k) == before.value_of(k) by {
                lemma_write_back_completes(&before.coordinator, store, k);
                assert(Self::records(&self.storage)[k] == self.storage.value_at(k));
            }
        }
        match self.storage.sync() {
            Ok(_) => Ok(()),
            Err(e) => Err(Error::Io(e)),
        }
    }

    /// Every entry that `dirty_in` lists is a resident entry that is dirty.
    proof fn lemma_dirty_members(recency: Seq<u32>, table: Map<u32, crate::index::Slot>, n: int)
        requires
            0 <= n < dirty_in(recency, table).len(),
            forall|j: int| 0 <= j < recency.len() ==> table[#[trigger] recency[j]].entry.key == recency[j],
        ensures
            recency.contains(dirty_in(recency, table)[n].key),
            table[dirty_in(recency, table)[n].key].entry == dirty_in(recency, table)[n],
            dirty_in(recency, table)[n].state is Dirty,
        decreases recency.len(),
    {
        let last = recency.last();
        let rest = recency.drop_last();
        assert(recency[recency.len() - 1] == last);
        assert forall|j: int| 0 <= j < rest.len() implies table[#[trigger] rest[j]].entry.key
            == rest[j] by {
            assert(rest[j] == recency[j]);
        }
        if table[last].entry.state is Dirty {
            if n > 0 {
                Self::lemma_dirty_members(rest, table, n - 1);
                let key = dirty_in(rest, table)[n - 1].key;
                let j = rest.index_of(key);
                assert(recency[j] == key);
            }
        } else {
            Self::lemma_dirty_members(rest, table, n);
            let key = dirty_in(rest, table)[n].key;
            let j = rest.index_of(key);
            assert(recency[j] == key);
        }
    }
}

} // verus!
