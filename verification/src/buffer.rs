//! The buffer: a cache in front of a store. A lock on a key hands out the
//! entry of the key, loaded; `sync` brings the store up to date.

use crate::cache::{prepared, Cache};
use crate::entry::{loaded, settled, Entry, State};
use crate::error::IoError;
use crate::storage::Storage;
use vstd::prelude::*;

verus! {

/// What a client may do to the entry it was handed: it keeps the key, leaves
/// the entry loaded, and marks it dirty if it changes the value.
pub open spec fn kept(handed: Entry, left: Entry) -> bool {
    &&& left.key == handed.key
    &&& loaded(left)
    &&& left.state is Fresh ==> handed.state is Fresh && left.value == handed.value
}

/// What a client does to a buffer that it locks on `key`, leaves `value` in
/// the entry and marks the entry dirty: the buffer holds `value` for `key`, and
/// for every other key what it held.
pub open spec fn wrote<B: Buffer>(before: &B, after: &B, key: u32, value: u64) -> bool {
    &&& after.value_of(key) == value
    &&& forall|k: u32| k != key ==> #[trigger] after.value_of(k) == before.value_of(k)
}

/// The value that was written last for `key` among `writes`, and `start` where
/// none was.
pub open spec fn last_written(writes: Seq<(u32, u64)>, key: u32, start: u64) -> u64
    decreases writes.len(),
{
    if writes.len() == 0 {
        start
    } else if writes.last().0 == key {
        writes.last().1
    } else {
        last_written(writes.drop_last(), key, start)
    }
}

/// Written values reach the store. Let a buffer go through the states
/// `states` by critical sections that write `writes`, one after the other, and
/// let `synced` be what a successful `sync` makes of the last of them. Then the
/// store holds for every key the value that was written last for it, and what
/// the buffer held at first where none was written.
pub proof fn lemma_writes_reach_store<B: Buffer>(
    states: Seq<B>,
    writes: Seq<(u32, u64)>,
    synced: B,
    key: u32,
)
    requires
        states.len() == writes.len() + 1,
        forall|i: int|
            0 <= i < writes.len() ==> wrote(&states[i], &#[trigger] states[i + 1], writes[i].0, writes[i].1),
        forall|k: u32| #[trigger] synced.stored(k) == states.last().value_of(k),
    ensures
        synced.stored(key) == last_written(writes, key, states[0].value_of(key)),
{
    lemma_writes_add_up(states, writes, key);
}

/// After a sequence of critical sections a buffer holds for every key the
/// value that was written last for it.
pub proof fn lemma_writes_add_up<B: Buffer>(states: Seq<B>, writes: Seq<(u32, u64)>, key: u32)
    requires
        states.len() == writes.len() + 1,
        forall|i: int|
            0 <= i < writes.len() ==> wrote(&states[i], &#[trigger] states[i + 1], writes[i].0, writes[i].1),
    ensures
        states.last().value_of(key) == last_written(writes, key, states[0].value_of(key)),
    decreases writes.len(),
{
    if writes.len() > 0 {
        let n = writes.len() as int;
        assert(wrote(&states[n - 1], &states[n - 1 + 1], writes[n - 1].0, writes[n - 1].1));
        if writes.last().0 != key {
            let shorter = states.drop_last();
            assert forall|i: int| 0 <= i < writes.drop_last().len() implies wrote(
                &shorter[i],
                &#[trigger] shorter[i + 1],
                writes.drop_last()[i].0,
                writes.drop_last()[i].1,
            ) by {
                assert(wrote(&states[i], &states[i + 1], writes[i].0, writes[i].1));
            }
            lemma_writes_add_up(shorter, writes.drop_last(), key);
        }
    }
}

/// Takes the outcome of the read of an entry's record into the entry: a value
/// that was read makes the entry fresh, a failure leaves it as it is.
pub fn fill(entry: &mut Entry, fetched: Result<u64, IoError>) -> (r: Result<(), IoError>)
    ensures
        match fetched {
            Ok(value) => r is Ok && *final(entry) == (Entry {
                key: old(entry).key,
                value,
                state: State::Fresh,
            }),
            Err(e) => r == Err::<(), IoError>(e) && *final(entry) == *old(entry),
        },
{
    match fetched {
        Ok(value) => {
            entry.value = value;
            entry.state = State::Fresh;
            Ok(())
        },
        Err(e) => Err(e),
    }
}

/// A buffer of records by key.
pub trait Buffer {
    /// The buffer is consistent.
    spec fn wf(&self) -> bool;

    /// The value that the buffer holds for `key`: the one in the cache where
    /// the key is loaded, and else the one in the store.
    spec fn value_of(&self, key: u32) -> u64;

    /// The value that the store behind the buffer holds for `key`.
    spec fn stored(&self, key: u32) -> u64;

    /// The store behind the buffer is of a kind whose transfers never fail.
    spec fn unfailing(&self) -> bool;

    /// Whether `key` is loaded in the cache.
    spec fn resident(&self, key: u32) -> bool;

    /// Hands out the entry of `key`, loaded with the value that the buffer holds
    /// for the key. It succeeds where the key is loaded already, and where the
    /// store does not fail. The record of `key` in the store is not written.
    /// Once the caller leaves the entry as `kept` says, the buffer is consistent
    /// and holds for `key` what the caller left and for every other key what it
    /// held.
    fn lock(&mut self, key: u32) -> (r: Result<&mut Entry, IoError>)
        requires
            old(self).wf(),
        ensures
            old(self).resident(key) || old(self).unfailing() ==> r is Ok,
            r matches Ok(entry) ==> {
                &&& entry.key == key
                &&& loaded(*entry)
                &&& entry.value == old(self).value_of(key)
                &&& old(self).resident(key) || entry.state is Fresh
                &&& kept(*entry, *final(entry)) ==> {
                    &&& final(self).wf()
                    &&& final(self).unfailing() == old(self).unfailing()
                    &&& final(self).resident(key)
                    &&& final(self).value_of(key) == final(entry).value
                    &&& final(self).stored(key) == old(self).stored(key)
                    &&& forall|k: u32|
                        k != key ==> #[trigger] final(self).value_of(k) == old(self).value_of(k)
                }
            },
    ;

    /// Writes every dirty record to the store. The buffer holds for every key
    /// what it held; after a success the store holds the same.
    fn sync(&mut self) -> (r: Result<(), IoError>)
        requires
            old(self).wf(),
        ensures
            final(self).wf(),
            final(self).unfailing() == old(self).unfailing(),
            old(self).unfailing() ==> r is Ok,
            forall|k: u32| #[trigger] final(self).value_of(k) == old(self).value_of(k),
            forall|k: u32| #[trigger] final(self).resident(k) == old(self).resident(k),
            r is Ok ==> forall|k: u32| #[trigger] final(self).stored(k) == old(self).value_of(k),
    ;
}

/// A buffer made of a cache and a store.
pub struct BufferImpl<C: Cache, S: Storage> {
    cache: C,
    storage: S,
}

impl<C: Cache, S: Storage> BufferImpl<C, S> {
    /// The cache of the buffer.
    pub closed spec fn cache(&self) -> &C {
        &self.cache
    }

    /// The store of the buffer.
    pub closed spec fn storage(&self) -> &S {
        &self.storage
    }

    /// Every fresh entry holds what the store holds for its key.
    pub open spec fn coherent(slots: Seq<Entry>, storage: &S) -> bool {
        forall|j: int|
            0 <= j < slots.len() && (#[trigger] slots[j]).state is Fresh ==> slots[j].value
                == storage.value_at(slots[j].key)
    }

    /// The slot `j` of `slots` is loaded with `key`.
    pub open spec fn holds(slots: Seq<Entry>, key: u32, j: int) -> bool {
        0 <= j < slots.len() && loaded(slots[j]) && slots[j].key == key
    }

    /// The two entries hold the same key and value, and are both loaded or both not.
    pub open spec fn same_entry(a: Entry, b: Entry) -> bool {
        a.key == b.key && a.value == b.value && (loaded(a) <==> loaded(b))
    }

    /// The two lists of entries agree slot by slot, up to their states.
    pub open spec fn same_entries(a: Seq<Entry>, b: Seq<Entry>) -> bool {
        &&& a.len() == b.len()
        &&& forall|j: int| 0 <= j < a.len() ==> Self::same_entry(#[trigger] a[j], b[j])
    }

    /// A buffer over `cache` and `storage`.
    pub fn new(cache: C, storage: S) -> (buffer: BufferImpl<C, S>)
        ensures
            *buffer.cache() == cache,
            *buffer.storage() == storage,
    {
        BufferImpl { cache, storage }
    }

    /// In a consistent buffer a key is loaded in at most one slot, the one that
    /// a lock on it hands out, and the value held for it is read off there.
    proof fn lemma_value_of(&self, key: u32)
        requires
            self.cache.wf(),
        ensures
            0 <= self.cache.slot_for(key) < self.cache.slots().len() <= usize::MAX,
            forall|j: int| 0 <= j < self.cache.slots().len() ==> settled(#[trigger] self.cache.slots()[j]),
            forall|j: int| Self::holds(self.cache.slots(), key, j) ==> j == self.cache.slot_for(key),
            self.resident(key) <==> exists|j: int| Self::holds(self.cache.slots(), key, j),
            forall|j: int|
                Self::holds(self.cache.slots(), key, j) ==> self.value_of(key)
                    == self.cache.slots()[j].value,
            !self.resident(key) ==> self.value_of(key) == self.storage.value_at(key),
    {
        self.cache.lemma_slot_for(key);
        if self.resident(key) {
            assert(Self::holds(self.cache.slots(), key, self.cache.slot_for(key)));
        }
    }

    /// Two buffers whose caches agree up to the states of the entries, and whose
    /// stores agree on every key that is not loaded, hold the same values.
    proof fn lemma_same(a: &Self, b: &Self)
        requires
            a.cache.wf(),
            b.cache.wf(),
            Self::same_entries(a.cache.slots(), b.cache.slots()),
            forall|k: u32| !b.resident(k) ==> #[trigger] a.storage.value_at(k) == b.storage.value_at(k),
        ensures
            forall|k: u32| #[trigger] a.value_of(k) == b.value_of(k),
            forall|k: u32| #[trigger] a.resident(k) == b.resident(k),
    {
        assert forall|k: u32| a.value_of(k) == b.value_of(k) && a.resident(k) == b.resident(k) by {
            a.lemma_value_of(k);
            b.lemma_value_of(k);
            if a.resident(k) {
                let j = a.cache.slot_for(k);
                assert(Self::holds(a.cache.slots(), k, j));
                assert(Self::same_entry(a.cache.slots()[j], b.cache.slots()[j]));
                assert(Self::holds(b.cache.slots(), k, j));
            }
            if b.resident(k) {
                let j = b.cache.slot_for(k);
                assert(Self::holds(b.cache.slots(), k, j));
                assert(Self::same_entry(a.cache.slots()[j], b.cache.slots()[j]));
                assert(Self::holds(a.cache.slots(), k, j));
            }
        }
    }

    /// What a lock leaves behind. The entry in the slot for `key` was readied,
    /// a dirty record in it was written back, and `handed` went to the caller,
    /// who left `left` as `kept` says: then `after` is consistent, holds for
    /// `key` what the caller left, and for every other key what `before` held.
    proof fn lemma_handed(before: &Self, after: &Self, key: u32, handed: Entry, left: Entry)
        requires
            before.wf(),
            after.cache.wf(),
            after.cache.slots() == before.cache.slots().update(before.cache.slot_for(key), left),
            kept(handed, left),
            handed.key == key,
            loaded(handed),
            handed.state is Fresh ==> handed.value == after.storage.value_at(key),
            after.storage.wf(),
            after.storage.unfailing() == before.storage.unfailing(),
            ({
                let was = before.cache.slots()[before.cache.slot_for(key)];
                forall|k: u32|
                    #[trigger] after.storage.value_at(k) == (if was.state is Dirty && was.key != key
                        && k == was.key {
                        was.value
                    } else {
                        before.storage.value_at(k)
                    })
            }),
        ensures
            after.wf(),
            after.unfailing() == before.unfailing(),
            after.resident(key),
            after.value_of(key) == left.value,
            after.stored(key) == before.stored(key),
            forall|k: u32| k != key ==> #[trigger] after.value_of(k) == before.value_of(k),
    {
        let i = before.cache.slot_for(key);
        let was = before.cache.slots()[i];
        let slots = after.cache.slots();
        before.lemma_value_of(key);
        assert forall|j: int|
            0 <= j < slots.len() && (#[trigger] slots[j]).state is Fresh implies slots[j].value
            == after.storage.value_at(slots[j].key) by {
            if j != i {
                assert(slots[j] == before.cache.slots()[j]);
                if was.state is Dirty && was.key != key && slots[j].key == was.key {
                    before.lemma_value_of(was.key);
                    assert(Self::holds(before.cache.slots(), was.key, j));
                    assert(Self::holds(before.cache.slots(), was.key, i));
                }
            }
        }
        after.lemma_value_of(key);
        assert(Self::holds(slots, key, i));
        assert forall|k: u32| k != key implies #[trigger] after.value_of(k) == before.value_of(k) by {
            before.lemma_value_of(k);
            after.lemma_value_of(k);
            if after.resident(k) {
                let j2 = after.cache.slot_for(k);
                assert(Self::holds(slots, k, j2));
                assert(j2 != i);
                assert(slots[j2] == before.cache.slots()[j2]);
                assert(Self::holds(before.cache.slots(), k, j2));
                assert(before.resident(k));
            } else if before.resident(k) {
                let j = before.cache.slot_for(k);
                assert(Self::holds(before.cache.slots(), k, j));
                if j != i {
                    assert(slots[j] == before.cache.slots()[j]);
                    assert(Self::holds(slots, k, j));
                    assert(false);
                }
                assert(was.key == k);
                assert(before.value_of(k) == was.value);
                assert(after.value_of(k) == after.storage.value_at(k));
            } else {
                if was.state is Dirty && was.key == k {
                    assert(Self::holds(before.cache.slots(), k, i));
                }
            }
        }
    }
}

impl<C: Cache, S: Storage> Buffer for BufferImpl<C, S> {
    open spec fn wf(&self) -> bool {
        &&& self.cache().wf()
        &&& self.storage().wf()
        &&& Self::coherent(self.cache().slots(), self.storage())
    }

    open spec fn value_of(&self, key: u32) -> u64 {
        let entry = self.cache().slots()[self.cache().slot_for(key)];
        if loaded(entry) && entry.key == key {
            entry.value
        } else {
            self.storage().value_at(key)
        }
    }

    open spec fn stored(&self, key: u32) -> u64 {
        self.storage().value_at(key)
    }

    open spec fn unfailing(&self) -> bool {
        self.storage().unfailing()
    }

    open spec fn resident(&self, key: u32) -> bool {
        let entry = self.cache().slots()[self.cache().slot_for(key)];
        loaded(entry) && entry.key == key
    }

    /// Locks the entry for `key` in the cache and loads it: a dirty record that
    /// the entry still holds is written to the store first, and the record of
    /// `key` is read from the store unless the entry holds it already. After a
    /// failure the entry is left as it was readied, and the buffer is not to be
    /// used any more; in the store no record has changed but, at most, the one
    /// of the key that the entry held.
    fn lock(&mut self, key: u32) -> (r: Result<&mut Entry, IoError>)
        ensures
            r is Err ==> !old(self).resident(key) && final(self).storage().wf() && forall|k: u32|
                k != old(self).cache().slots()[old(self).cache().slot_for(key)].key
                    ==> #[trigger] final(self).stored(k) == old(self).stored(k),
    {
        let ghost before = *self;
        proof {
            before.lemma_value_of(key);
        }
        let ghost i = before.cache.slot_for(key);
        let ghost was = before.cache.slots()[i];
        let entry = self.cache.lock(key);
        let ghost readied = *entry;
        proof {
            assert(settled(was));
            assert(readied == prepared(was, key));
            assert(readied.key == key);
        }
        match entry.state {
            State::Unloaded => {
                let fetched = self.storage.read(key);
                match fill(entry, fetched) {
                    Ok(_) => {},
                    Err(e) => {
                        return Err(e);
                    },
                }
            },
            State::Stale(stale_key) => {
                match self.storage.write(stale_key, entry.value) {
                    Ok(_) => {},
                    Err(e) => {
                        return Err(e);
                    },
                }
                let fetched = self.storage.read(key);
                match fill(entry, fetched) {
                    Ok(_) => {},
                    Err(e) => {
                        return Err(e);
                    },
                }
            },
            _ => {},
        }
        let ghost handed = *entry;
        let ghost storage = self.storage;
        proof {
            assert(handed.key == key);
            assert(loaded(handed));
            assert(handed.state is Fresh ==> handed.value == storage.value_at(key));
            assert(storage.unfailing() == before.storage.unfailing());
            assert forall|k: u32|
                #[trigger] storage.value_at(k) == (if was.state is Dirty && was.key != key && k
                    == was.key {
                    was.value
                } else {
                    before.storage.value_at(k)
                }) by {}
            assert(handed.value == before.value_of(key));
        }
        assert forall|after: BufferImpl<C, S>, left: Entry|
            #![trigger after.cache.slots(), before.cache.slots().update(i, left)]
            kept(handed, left) && after.cache.wf() && after.cache.slots()
                == before.cache.slots().update(i, left) && after.storage == storage implies {
            &&& after.wf()
            &&& after.unfailing() == before.unfailing()
            &&& after.resident(key)
            &&& after.value_of(key) == left.value
            &&& after.stored(key) == before.stored(key)
            &&& forall|k: u32| k != key ==> #[trigger] after.value_of(k) == before.value_of(k)
        } by {
            Self::lemma_handed(&before, &after, key, handed, left);
        }
        Ok(entry)
    }

    /// Writes the dirty entries to the store, each becoming fresh as it is
    /// written, and stops at the first write that fails; then has the store make
    /// the writes durable.
    fn sync(&mut self) -> (r: Result<(), IoError>) {
        let ghost before = *self;
        let dirty_entries = self.cache.dirty_entries();
        let mut n: usize = 0;
        proof {
            before.lemma_value_of(0);
        }
        while n < dirty_entries.len()
            invariant
                n <= dirty_entries@.len(),
                before == *old(self),
                before.wf(),
                before.cache.slots().len() <= usize::MAX,
                self.cache.wf(),
                self.storage.wf(),
                Self::coherent(self.cache.slots(), &self.storage),
                self.storage.unfailing() == before.storage.unfailing(),
                Self::same_entries(self.cache.slots(), before.cache.slots()),
                forall|k: u32|
                    !before.resident(k) ==> #[trigger] self.storage.value_at(k)
                        == before.storage.value_at(k),
                dirty_entries@.no_duplicates(),
                forall|a: int|
                    0 <= a < dirty_entries@.len() ==> (#[trigger] dirty_entries@[a])
                        < before.cache.slots().len() && before.cache.slots()[dirty_entries@[a] as int].state
                        is Dirty,
                forall|j: int|
                    0 <= j < before.cache.slots().len() && before.cache.slots()[j].state is Dirty
                        ==> dirty_entries@.contains(j as usize),
                forall|a: int|
                    n <= a < dirty_entries@.len() ==> self.cache.slots()[(#[trigger] dirty_entries@[a]) as int]
                        == before.cache.slots()[dirty_entries@[a] as int],
                forall|j: int|
                    0 <= j < self.cache.slots().len() && (#[trigger] self.cache.slots()[j]).state
                        is Dirty ==> before.cache.slots()[j].state is Dirty,
                forall|a: int|
                    0 <= a < n ==> !(self.cache.slots()[(#[trigger] dirty_entries@[a]) as int].state
                        is Dirty),
            decreases dirty_entries@.len() - n,
        {
            let slot = dirty_entries[n];
            let ghost mid = *self;
            proof {
                assert(mid.cache.slots()[slot as int] == before.cache.slots()[dirty_entries@[n as int] as int]);
            }
            let entry = self.cache.entry(slot);
            let key = entry.key;
            let value = entry.value;
            proof {
                mid.lemma_value_of(key);
                before.lemma_value_of(key);
                assert(Self::holds(mid.cache.slots(), key, slot as int));
                assert(Self::holds(before.cache.slots(), key, slot as int));
            }
            match self.storage.write(key, value) {
                Ok(_) => {},
                Err(e) => {
                    proof {
                        assert(self.cache.slots() =~= mid.cache.slots());
                        assert forall|j: int|
                            0 <= j < self.cache.slots().len() && (#[trigger] self.cache.slots()[j]).state
                                is Fresh implies self.cache.slots()[j].value == self.storage.value_at(
                            self.cache.slots()[j].key,
                        ) by {
                            if self.cache.slots()[j].key == key {
                                assert(Self::holds(mid.cache.slots(), key, j));
                            }
                        }
                        Self::lemma_same(self, &before);
                    }
                    return Err(e);
                },
            }
            entry.state = State::Fresh;
            proof {
                let slots = self.cache.slots();
                assert(slots =~= mid.cache.slots().update(
                    slot as int,
                    Entry { key, value, state: State::Fresh },
                ));
                assert forall|j: int|
                    0 <= j < slots.len() && (#[trigger] slots[j]).state is Fresh implies slots[j].value
                    == self.storage.value_at(slots[j].key) by {
                    if j != slot && slots[j].key == key {
                        assert(slots[j] == mid.cache.slots()[j]);
                        assert(Self::holds(mid.cache.slots(), key, j));
                    }
                }
                assert forall|a: int| n + 1 <= a < dirty_entries@.len() implies self.cache.slots()[(
                #[trigger] dirty_entries@[a]) as int] == before.cache.slots()[dirty_entries@[a] as int] by {
                    assert(dirty_entries@[a] != dirty_entries@[n as int]);
                    assert(mid.cache.slots()[dirty_entries@[a] as int]
                        == before.cache.slots()[dirty_entries@[a] as int]);
                }
                assert forall|a: int| 0 <= a < n + 1 implies !(self.cache.slots()[(
                #[trigger] dirty_entries@[a]) as int].state is Dirty) by {
                    if a < n {
                        assert(dirty_entries@[a] != dirty_entries@[n as int]);
                        assert(!(mid.cache.slots()[dirty_entries@[a] as int].state is Dirty));
                    }
                }
                assert forall|j: int|
                    0 <= j < self.cache.slots().len() && (#[trigger] self.cache.slots()[j]).state
                        is Dirty implies before.cache.slots()[j].state is Dirty by {
                    if j != slot {
                        assert(slots[j] == mid.cache.slots()[j]);
                    }
                }
                assert(Self::same_entries(slots, before.cache.slots())) by {
                    assert forall|j: int| 0 <= j < slots.len() implies Self::same_entry(
                        #[trigger] slots[j],
                        before.cache.slots()[j],
                    ) by {
                        assert(Self::same_entry(mid.cache.slots()[j], before.cache.slots()[j]));
                    }
                }
            }
            n += 1;
        }
        let r = self.storage.sync();
        proof {
            assert forall|j: int|
                0 <= j < self.cache.slots().len() && (#[trigger] self.cache.slots()[j]).state
                    is Fresh implies self.cache.slots()[j].value == self.storage.value_at(
                self.cache.slots()[j].key,
            ) by {}
            Self::lemma_same(self, &before);
            if r is Ok {
                assert forall|k: u32| #[trigger] self.stored(k) == before.value_of(k) by {
                    self.lemma_value_of(k);
                    if self.resident(k) {
                        let j = self.cache.slot_for(k);
                        assert(Self::holds(self.cache.slots(), k, j));
                        if self.cache.slots()[j].state is Dirty {
                            let ju = j as usize;
                            assert(before.cache.slots()[j].state is Dirty);
                            assert(dirty_entries@.contains(ju));
                            let a = dirty_entries@.index_of(ju);
                            assert(dirty_entries@[a] == ju);
                        }
                    }
                }
            }
        }
        r
    }
}

} // verus!
