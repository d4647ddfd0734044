use piyokvs::entry::{Entry, State};
use piyokvs::index::CacheIndex;

fn triple(entry: &Entry) -> (u32, u64, State) {
    (entry.key, entry.value, entry.state)
}

/// Makes `key` resident, loaded with `value`, and no longer in use.
fn insert(index: &mut CacheIndex, key: u32, value: u64, state: State) -> Option<Entry> {
    let (entry, victim) = index.get_with_evicting(key);
    assert_eq!(triple(&entry), (key, 0, State::Unloaded));
    index.store(key, value, state);
    index.unpin(key);
    victim
}

#[test]
fn new_index_is_empty() {
    let index = CacheIndex::new(4, 1);
    assert_eq!(index.capacity(), 4);
    assert_eq!(index.threshold(), 1);
    assert_eq!(index.len(), 0);
    assert_eq!(index.evicting(), 0);
    assert!(!index.contains(0));
    assert!(index.dirty_entries().is_empty());
}

#[test]
fn no_victim_below_capacity() {
    let mut index = CacheIndex::new(4, 1);
    for key in 0..3u32 {
        assert!(insert(&mut index, key, 10 * key as u64, State::Fresh).is_none());
    }
    assert_eq!(index.len(), 3);
    assert_eq!(index.evicting(), 0);
    assert_eq!(triple(index.get_untouched(1)), (1, 10, State::Fresh));
}

#[test]
fn the_least_recently_used_is_picked_at_capacity() {
    let mut index = CacheIndex::new(3, 1);
    assert!(insert(&mut index, 10, 100, State::Dirty).is_none());
    assert!(insert(&mut index, 11, 110, State::Fresh).is_none());
    let victim = insert(&mut index, 12, 120, State::Fresh).unwrap();
    assert_eq!(triple(&victim), (10, 100, State::Dirty));
    assert!(index.contains(10));
    assert!(index.is_evicting(10));
    assert!(!index.is_evicting(11));
    assert_eq!(index.evicting(), 1);
    assert_eq!(index.len(), 3);
}

#[test]
fn the_threshold_bounds_the_evictions_of_misses() {
    let mut index = CacheIndex::new(3, 1);
    insert(&mut index, 10, 100, State::Dirty);
    insert(&mut index, 11, 110, State::Dirty);
    assert!(insert(&mut index, 12, 120, State::Dirty).is_some());
    // One eviction is marked: the next misses overfill the index and pick nobody.
    assert!(insert(&mut index, 13, 130, State::Dirty).is_none());
    assert!(insert(&mut index, 14, 140, State::Dirty).is_none());
    assert_eq!(index.len(), 5);
    assert_eq!(index.evicting(), 1);
    // Once the eviction is done, the next miss picks the next victim.
    index.evicting_done(10);
    assert!(!index.contains(10));
    assert_eq!(index.len(), 4);
    assert_eq!(index.evicting(), 0);
    let victim = insert(&mut index, 15, 150, State::Dirty).unwrap();
    assert_eq!(triple(&victim), (11, 110, State::Dirty));
}

#[test]
fn two_evictions_at_once_with_threshold_two() {
    let mut index = CacheIndex::new(3, 2);
    insert(&mut index, 10, 100, State::Dirty);
    insert(&mut index, 11, 110, State::Dirty);
    assert_eq!(insert(&mut index, 12, 120, State::Dirty).map(|e| e.key), Some(10));
    assert_eq!(insert(&mut index, 13, 130, State::Dirty).map(|e| e.key), Some(11));
    assert_eq!(insert(&mut index, 14, 140, State::Dirty).map(|e| e.key), None);
    assert_eq!(index.evicting(), 2);
}

#[test]
fn reclaim_skips_entries_that_are_evicting_or_in_use() {
    let mut index = CacheIndex::new(4, 3);
    insert(&mut index, 10, 100, State::Fresh);
    insert(&mut index, 11, 110, State::Fresh);
    insert(&mut index, 12, 120, State::Fresh);
    index.pin(10);
    assert_eq!(index.reclaim().map(|e| e.key), Some(11));
    assert_eq!(index.reclaim().map(|e| e.key), Some(12));
    assert_eq!(index.reclaim().map(|e| e.key), None);
    assert_eq!(index.evicting(), 2);
    index.unpin(10);
    assert_eq!(index.evicting_new().map(|e| e.key), Some(10));
    assert_eq!(index.evicting_new().map(|e| e.key), None);
    assert_eq!(index.evicting(), 3);
}

#[test]
fn touch_moves_to_the_front_and_calls_the_eviction_off() {
    let mut index = CacheIndex::new(4, 1);
    insert(&mut index, 0, 0, State::Dirty);
    insert(&mut index, 1, 1, State::Dirty);
    insert(&mut index, 2, 2, State::Dirty);
    assert_eq!(insert(&mut index, 3, 3, State::Dirty).map(|e| e.key), Some(0));
    assert!(index.is_evicting(0));
    // Key 4 arrives while the write-back of key 0 is under way.
    assert_eq!(insert(&mut index, 4, 4, State::Dirty).map(|e| e.key), None);
    // A lock on key 0 calls its eviction off.
    index.touch(0);
    index.pin(0);
    assert!(!index.is_evicting(0));
    assert_eq!(index.evicting(), 0);
    // The write-back completes: key 0 stays, and key 1 is the next victim.
    assert_eq!(index.evicting_new().map(|e| e.key), Some(1));
    assert!(index.contains(0));
    assert_eq!(triple(index.get_untouched(0)), (0, 0, State::Dirty));
    assert!(index.is_evicting(1));
}

#[test]
fn freed_slots_are_reused_and_the_index_stops_growing() {
    let mut index = CacheIndex::new(2, 1);
    insert(&mut index, 0, 0, State::Fresh);
    for key in 1..1000u32 {
        let victim = insert(&mut index, key, key as u64, State::Fresh).unwrap();
        assert_eq!(victim.key, key - 1);
        index.evicting_done(victim.key);
        assert_eq!(index.len(), 1);
        assert_eq!(index.evicting(), 0);
    }
    assert!(index.contains(999));
    assert!(!index.contains(998));
}

#[test]
fn store_keeps_the_marks() {
    let mut index = CacheIndex::new(2, 1);
    insert(&mut index, 0, 0, State::Fresh);
    assert_eq!(insert(&mut index, 1, 1, State::Fresh).map(|e| e.key), Some(0));
    index.store(0, 5, State::Dirty);
    assert!(index.is_evicting(0));
    assert_eq!(triple(index.get_untouched(0)), (0, 5, State::Dirty));
}

#[test]
fn dirty_entries_come_least_recently_used_first() {
    let mut index = CacheIndex::new(8, 1);
    insert(&mut index, 0, 100, State::Dirty);
    insert(&mut index, 1, 101, State::Fresh);
    insert(&mut index, 2, 102, State::Dirty);
    insert(&mut index, 3, 103, State::Dirty);
    index.touch(0);
    let dirty: Vec<(u32, u64)> = index.dirty_entries().iter().map(|e| (e.key, e.value)).collect();
    assert_eq!(dirty, vec![(2, 102), (3, 103), (0, 100)]);
}
