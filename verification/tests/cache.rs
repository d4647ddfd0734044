use piyokvs::cache::{prepare_entry, Cache, LruCache, SingleCache};
use piyokvs::entry::{Entry, State};

#[test]
fn single_cache_state_changes() {
    let mut cache = SingleCache::new();

    {
        let guard = cache.lock(1);
        assert_eq!(guard.state, State::Unloaded);
        guard.state = State::Fresh;
    }
    assert_eq!(cache.lock(1).state, State::Fresh);

    {
        let guard = cache.lock(2);
        assert_eq!(guard.state, State::Unloaded);
        guard.state = State::Dirty;
    }
    assert_eq!(cache.lock(2).state, State::Dirty);

    assert_eq!(cache.lock(3).state, State::Stale(2));
}

#[test]
fn single_cache_dirty_entries() {
    let mut cache = SingleCache::new();
    assert!(cache.dirty_entries().is_empty());
    {
        let guard = cache.lock(7);
        guard.value = 70;
        guard.state = State::Fresh;
    }
    assert!(cache.dirty_entries().is_empty());
    cache.lock(7).state = State::Dirty;
    assert_eq!(cache.dirty_entries(), vec![0]);
    let entry = cache.entry(0);
    assert_eq!((entry.key, entry.value, entry.state), (7, 70, State::Dirty));
}

#[test]
fn prepare_entry_from_each_settled_state() {
    let mut entry = Entry::default();
    assert_eq!((entry.key, entry.value, entry.state), (0, 0, State::Uninitialized));
    entry.value = 9;
    prepare_entry(&mut entry, 5);
    assert_eq!((entry.key, entry.value, entry.state), (5, 0, State::Unloaded));

    let mut entry = Entry { key: 5, value: 50, state: State::Fresh };
    prepare_entry(&mut entry, 5);
    assert_eq!((entry.key, entry.value, entry.state), (5, 50, State::Fresh));
    prepare_entry(&mut entry, 6);
    assert_eq!((entry.key, entry.value, entry.state), (6, 50, State::Unloaded));

    let mut entry = Entry { key: 5, value: 50, state: State::Dirty };
    prepare_entry(&mut entry, 5);
    assert_eq!((entry.key, entry.value, entry.state), (5, 50, State::Dirty));
    prepare_entry(&mut entry, 6);
    assert_eq!((entry.key, entry.value, entry.state), (6, 50, State::Stale(5)));
}

fn load(cache: &mut LruCache, key: u32, value: u64, state: State) {
    let entry = cache.lock(key);
    entry.value = value;
    entry.state = state;
}

#[test]
fn lru_cache_takes_unused_slots_first() {
    let mut cache = LruCache::new(3);
    for key in 0..3u32 {
        let entry = cache.lock(10 + key);
        assert_eq!((entry.key, entry.value, entry.state), (10 + key, 0, State::Unloaded));
        entry.state = State::Fresh;
    }
    assert_eq!(cache.resident_slots(), vec![0, 1, 2]);
    assert!(cache.dirty_entries().is_empty());
}

#[test]
fn lru_cache_replaces_the_least_recently_used() {
    let mut cache = LruCache::new(3);
    load(&mut cache, 10, 100, State::Dirty);
    load(&mut cache, 11, 110, State::Fresh);
    load(&mut cache, 12, 120, State::Dirty);
    // A lock on a resident key leaves the entry alone and makes it the most recent.
    {
        let entry = cache.lock(10);
        assert_eq!((entry.key, entry.value, entry.state), (10, 100, State::Dirty));
    }
    assert_eq!(cache.resident_slots(), vec![1, 2, 0]);
    // Slot 1 holds the least recently used key; it is clean, so nothing is stale.
    {
        let entry = cache.lock(13);
        assert_eq!((entry.key, entry.value, entry.state), (13, 110, State::Unloaded));
        entry.value = 130;
        entry.state = State::Fresh;
    }
    assert_eq!(cache.resident_slots(), vec![2, 0, 1]);
    // Slot 2 holds a dirty record, which the next miss finds stale.
    {
        let entry = cache.lock(14);
        assert_eq!((entry.key, entry.value, entry.state), (14, 120, State::Stale(12)));
        entry.value = 140;
        entry.state = State::Dirty;
    }
    assert_eq!(cache.resident_slots(), vec![0, 1, 2]);
    // The dirty slots come least recently used first.
    assert_eq!(cache.dirty_entries(), vec![0, 2]);
}
