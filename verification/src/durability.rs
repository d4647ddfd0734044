//! What the coordinator and the store hold together: a value that a client
//! leaves under a lock is the value of its key from then on, through every
//! eviction and reload, and is in the store once the pool has shut down.
//!
//! The store is taken as a map from keys to values that does what it is asked:
//! a read reports what the map holds, and a write has changed the map by the
//! time its completion is reported.

use crate::coordinator::{
    client_of, table_after, Action, Coordinator, IoOp,
};
use crate::entry::{loaded, Entry, State};
use crate::index::{dirty_in, fresh_slot, reclaimable, victim_key, CacheIndex, Slot};
use vstd::prelude::*;

verus! {

/// The value that `store` holds for `key`: zero where nothing was written.
pub open spec fn stored(store: Map<u32, u64>, key: u32) -> u64 {
    if store.contains_key(key) {
        store[key]
    } else {
        0
    }
}

/// The value that the pool holds for `key`: the one in the cache where the
/// key is loaded, and else the one in the store.
pub open spec fn held(coordinator: &Coordinator, store: Map<u32, u64>, key: u32) -> u64 {
    let table = coordinator.cache().table();
    if table.contains_key(key) && loaded(table[key].entry) {
        table[key].entry.value
    } else {
        stored(store, key)
    }
}

/// Every fresh entry holds what the store holds for its key.
pub open spec fn agrees(coordinator: &Coordinator, store: Map<u32, u64>) -> bool {
    forall|key: u32| #[trigger]
        coordinator.cache().table().contains_key(key) && coordinator.cache().table()[key].entry.state
            is Fresh ==> coordinator.cache().table()[key].entry.value == stored(store, key)
}

/// The store after the values of `entries` were written to it, one after the
/// other.
pub open spec fn written(store: Map<u32, u64>, entries: Seq<Entry>) -> Map<u32, u64>
    decreases entries.len(),
{
    if entries.len() == 0 {
        store
    } else {
        written(store.insert(entries[0].key, entries[0].value), entries.drop_first())
    }
}

/// The victim that the cache picks from `recency` and `table`, which are what
/// `before` has with, at most, keys added that are in use, is resident in
/// `before` and loaded, has no queue, and has no transfer under way.
pub proof fn lemma_victim_loaded(before: &Coordinator, recency: Seq<u32>, table: Map<u32, Slot>, out: u32)
    requires
        before.wf(),
        victim_key(recency, table) == Some(out),
        before.cache().table().contains_key(out) ==> table[out] == before.cache().table()[out],
        forall|k: u32| #[trigger] recency.contains(k) ==> table.contains_key(k),
        forall|k: u32|
            #[trigger] table.contains_key(k) && !before.cache().table().contains_key(k) ==> table[k].pinned,
    ensures
        before.cache().table().contains_key(out),
        loaded(before.cache().table()[out].entry),
        !before.queues().contains_key(out),
        !before.in_flight().contains_key(out),
{
    CacheIndex::lemma_victim(recency, table);
    before.cache().lemma_wf();
    assert(recency.contains(out));
    assert(table.contains_key(out));
    assert(before.key_ok(out));
}

/// A lock changes no value: the pool holds for every key what it held.
pub proof fn lemma_lock_keeps_values(
    before: &Coordinator,
    after: &Coordinator,
    key: u32,
    client: u64,
    actions: Seq<Action>,
    store: Map<u32, u64>,
)
    requires
        before.wf(),
        after.lock_step(before, key, client, actions),
        agrees(before, store),
    ensures
        agrees(after, store),
        forall|k: u32| #[trigger] held(after, store, k) == held(before, store, k),
{
    before.cache().lemma_wf();
    assert(before.key_ok(key));
    if !before.cache().table().contains_key(key) {
        let table = before.cache().table().insert(key, fresh_slot(key));
        let recency = seq![key] + before.cache().recency();
        let victim = before.cache().planned_victim(key);
        if let Some(out) = victim {
            assert forall|k: u32| #[trigger] recency.contains(k) implies table.contains_key(k) by {
                let j = recency.index_of(k);
                assert(recency[j] == k);
                if j > 0 {
                    assert(before.cache().recency()[j - 1] == k);
                    assert(before.cache().recency().contains(k));
                }
            }
            lemma_victim_loaded(before, recency, table, out);
        }
        assert forall|k: u32| #[trigger] held(after, store, k) == held(before, store, k) by {}
    }
}

/// An unlock sets the value of its key and no other. The client is to say
/// that the record is dirty if it leaves another value than the entry held.
pub proof fn lemma_unlock_sets_value(
    before: &Coordinator,
    after: &Coordinator,
    key: u32,
    value: u64,
    dirty: bool,
    actions: Seq<Action>,
    store: Map<u32, u64>,
)
    requires
        before.wf(),
        before.holder(key) is Some,
        after.unlock_step(before, key, value, dirty, actions),
        agrees(before, store),
        dirty || value == before.cache().table()[key].entry.value,
    ensures
        agrees(after, store),
        held(after, store, key) == value,
        forall|k: u32| k != key ==> #[trigger] held(after, store, k) == held(before, store, k),
        !dirty ==> after.cache().table()[key].entry == before.cache().table()[key].entry,
        forall|j: int| 0 <= j < actions.len() ==> !(#[trigger] actions[j] is Write),
{
    before.cache().lemma_wf();
    assert(before.key_ok(key));
    assert forall|k: u32| k != key implies #[trigger] held(after, store, k) == held(
        before,
        store,
        k,
    ) by {}
}

/// The completion of a read with the value that the store holds changes no
/// value.
pub proof fn lemma_read_keeps_values(
    before: &Coordinator,
    after: &Coordinator,
    key: u32,
    value: u64,
    actions: Seq<Action>,
    store: Map<u32, u64>,
)
    requires
        before.wf(),
        before.in_flight().contains_key(key) && before.in_flight()[key] is Read,
        after.read_step(before, key, value, actions),
        agrees(before, store),
        value == stored(store, key),
    ensures
        agrees(after, store),
        forall|k: u32| #[trigger] held(after, store, k) == held(before, store, k),
        actions == seq![Action::Grant(
            client_of(before.queues()[key][0]),
            Entry { key, value: held(before, store, key), state: State::Fresh },
        )],
{
    before.cache().lemma_wf();
    assert(before.key_ok(key));
    assert forall|k: u32| #[trigger] held(after, store, k) == held(before, store, k) by {}
}

/// The completion of a write-back, by which the store has come to hold the
/// value that was to be written, changes no value.
pub proof fn lemma_write_keeps_values(
    before: &Coordinator,
    after: &Coordinator,
    key: u32,
    actions: Seq<Action>,
    store: Map<u32, u64>,
    value: u64,
)
    requires
        before.wf(),
        before.in_flight().contains_key(key) && before.in_flight()[key] == IoOp::Write(value),
        after.write_step(before, key, actions),
        agrees(before, store),
    ensures
        agrees(after, store.insert(key, value)),
        forall|k: u32| #[trigger] held(after, store.insert(key, value), k) == held(before, store, k),
{
    before.cache().lemma_wf();
    assert(before.key_ok(key));
    let slot = before.cache().table()[key];
    let rest = before.queues()[key].drop_first();
    let now = store.insert(key, value);
    if rest.len() > 0 {
        let entry = Entry { key, value: slot.entry.value, state: State::Fresh };
        let table = before.cache().table().insert(key, Slot { entry, ..slot });
        let recency = before.cache().recency();
        let victim = victim_key(recency, table);
        if let Some(out) = victim {
            CacheIndex::lemma_victim(recency, table);
            assert(table.contains_key(out));
            assert(before.cache().table().contains_key(out));
            assert(before.key_ok(out));
            assert(out != key);
        }
        assert(after.cache().table() == table_after(table, victim));
        assert forall|k: u32| #[trigger] held(after, now, k) == held(before, store, k) by {}
        assert(agrees(after, now));
    } else {
        assert forall|k: u32| #[trigger] held(after, now, k) == held(before, store, k) by {}
    }
}

/// Writing the dirty entries among `recency` leaves in the store, for each of
/// their keys, the value of the entry, and for every other key what was there.
proof fn lemma_written(store: Map<u32, u64>, recency: Seq<u32>, table: Map<u32, Slot>, key: u32)
    requires
        recency.no_duplicates(),
        forall|j: int| 0 <= j < recency.len() ==> table[#[trigger] recency[j]].entry.key == recency[j],
    ensures
        stored(written(store, dirty_in(recency, table)), key) == (if recency.contains(key)
            && table[key].entry.state is Dirty {
            table[key].entry.value
        } else {
            stored(store, key)
        }),
    decreases recency.len(),
{
    if recency.len() > 0 {
        let last = recency.last();
        let rest = recency.drop_last();
        assert(recency[recency.len() - 1] == last);
        assert forall|j: int| 0 <= j < rest.len() implies table[#[trigger] rest[j]].entry.key
            == rest[j] by {
            assert(rest[j] == recency[j]);
        }
        assert(!rest.contains(last)) by {
            if rest.contains(last) {
                let j = rest.index_of(last);
                assert(recency[j] == last);
            }
        }
        assert(recency.contains(key) <==> key == last || rest.contains(key)) by {
            if recency.contains(key) {
                let j = recency.index_of(key);
                if j < rest.len() {
                    assert(rest[j] == key);
                }
            }
            if rest.contains(key) {
                let j = rest.index_of(key);
                assert(recency[j] == key);
            }
        }
        if table[last].entry.state is Dirty {
            let first = table[last].entry;
            let after = store.insert(first.key, first.value);
            let entries = dirty_in(recency, table);
            assert(entries == seq![first] + dirty_in(rest, table));
            assert(entries[0] == first);
            assert(entries.drop_first() =~= dirty_in(rest, table));
            lemma_written(after, rest, table, key);
        } else {
            lemma_written(store, rest, table, key);
        }
    }
}

/// After the write-back the store holds every value. Once no transfer is under
/// way, writing the dirty entries that `write_back` lists leaves in the store,
/// for every key, the value that the pool holds for it.
pub proof fn lemma_write_back_completes(coordinator: &Coordinator, store: Map<u32, u64>, key: u32)
    requires
        coordinator.wf(),
        agrees(coordinator, store),
        forall|k: u32| !coordinator.in_flight().contains_key(k),
    ensures
        stored(
            written(store, dirty_in(coordinator.cache().recency(), coordinator.cache().table())),
            key,
        ) == held(coordinator, store, key),
{
    let recency = coordinator.cache().recency();
    let table = coordinator.cache().table();
    coordinator.cache().lemma_wf();
    assert forall|j: int| 0 <= j < recency.len() implies table[#[trigger] recency[j]].entry.key
        == recency[j] by {
        assert(recency.contains(recency[j]));
    }
    lemma_written(store, recency, table, key);
    assert(coordinator.key_ok(key));
}

} // verus!
