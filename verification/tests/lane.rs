use piyokvs::lane::{LruLane, LruLaneIterator};

fn walk(lane: &LruLane) -> Vec<usize> {
    let mut indices = Vec::new();
    let mut iter = LruLaneIterator::new(lane);
    while let Some(i) = iter.next() {
        indices.push(i);
    }
    indices
}

fn run(capacity: usize, input_keys: &[u32], expected: &[(usize, bool)]) -> LruLane {
    let mut lane = LruLane::new(capacity);
    for i in 0..input_keys.len() {
        assert_eq!(lane.index(input_keys[i]), expected[i]);
    }
    lane
}

#[test]
fn lru_cache_lane_evict() {
    let input_keys = [0, 1, 2, 3, 4, 5, 6];
    let expected = [
        (0, true),
        (1, true),
        (2, true),
        (0, false),
        (1, false),
        (2, false),
        (0, false),
    ];
    let lane = run(3, &input_keys, &expected);

    let mut keys = lane.keys();
    keys.sort();
    assert_eq!(keys, [4, 5, 6]);

    assert_eq!(walk(&lane), [1, 2, 0]);
}

#[test]
fn lru_cache_lane_touch_head() {
    let input_keys = [0, 1, 2, 3, 3, 4, 5, 6];
    let expected = [
        (0, true),
        (1, true),
        (2, true),
        (0, false),
        (0, false),
        (1, false),
        (2, false),
        (0, false),
    ];
    let lane = run(3, &input_keys, &expected);

    let mut keys = lane.keys();
    keys.sort();
    assert_eq!(keys, [4, 5, 6]);

    assert_eq!(walk(&lane), [1, 2, 0]);
}

#[test]
fn lru_cache_lane_touch_inbetween() {
    let input_keys = [0, 1, 2, 3, 2, 4, 5, 6];
    let expected = [
        (0, true),
        (1, true),
        (2, true),
        (0, false),
        (2, false),
        (1, false),
        (0, false),
        (2, false),
    ];
    let lane = run(3, &input_keys, &expected);

    let mut keys = lane.keys();
    keys.sort();
    assert_eq!(keys, [4, 5, 6]);

    assert_eq!(walk(&lane), [1, 0, 2]);
}

#[test]
fn lru_cahce_lane_touch_tail() {
    let input_keys = [0, 1, 2, 3, 1, 4, 5, 6];
    let expected = [
        (0, true),
        (1, true),
        (2, true),
        (0, false),
        (1, false),
        (2, false),
        (0, false),
        (1, false),
    ];
    let lane = run(3, &input_keys, &expected);

    let mut keys = lane.keys();
    keys.sort();
    assert_eq!(keys, [4, 5, 6]);

    assert_eq!(walk(&lane), [2, 0, 1]);
}

/// Checks that the links and the key map tell the same story.
fn check(lane: &LruLane) {
    let forward = {
        let mut slots = Vec::new();
        let mut at = lane.head();
        while let Some(i) = at {
            slots.push(i);
            at = lane.next(i);
        }
        slots
    };
    let mut backward = walk(lane);
    backward.reverse();
    assert_eq!(forward, backward);
    assert_eq!(lane.tail(), forward.last().copied());
    for (place, slot) in forward.iter().enumerate() {
        assert_eq!(lane.lookup(lane.key_at(*slot)), Some(*slot));
        let before = if place > 0 { Some(forward[place - 1]) } else { None };
        assert_eq!(lane.prev(*slot), before);
    }
    let mut slots = forward.clone();
    slots.sort();
    slots.dedup();
    assert_eq!(slots.len(), forward.len());
}

#[test]
fn the_list_and_the_key_map_agree() {
    let mut lane = LruLane::new(5);
    assert_eq!(lane.capacity(), 5);
    check(&lane);
    let mut seed: u32 = 7;
    for _ in 0..2000 {
        seed = seed.wrapping_mul(1664525).wrapping_add(1013904223);
        let key = (seed >> 16) % 12;
        let (slot, _) = lane.index(key);
        assert_eq!(lane.head(), Some(slot));
        assert_eq!(lane.key_at(slot), key);
        assert!(lane.len() <= 5);
        check(&lane);
    }
    assert_eq!(lane.len(), 5);
}

#[test]
fn the_parts_of_index_one_by_one() {
    let mut lane = LruLane::new(2);
    assert_eq!(lane.allot(10), 0);
    assert_eq!(lane.allot(11), 1);
    assert_eq!(lane.allot(12), 2);
    assert_eq!(walk(&lane), [0, 1, 2]);
    lane.touch(0);
    assert_eq!(walk(&lane), [1, 2, 0]);
    lane.touch(0);
    assert_eq!(walk(&lane), [1, 2, 0]);
    lane.retire(2);
    assert_eq!(walk(&lane), [1, 0]);
    assert_eq!(lane.lookup(12), None);
    lane.reuse(2, 13);
    assert_eq!(walk(&lane), [1, 0, 2]);
    assert_eq!(lane.lookup(13), Some(2));
    assert_eq!(lane.pop_back(), 1);
    assert_eq!(walk(&lane), [0, 2]);
    lane.push_front(1);
    assert_eq!(walk(&lane), [0, 2, 1]);
    lane.unlink(2);
    assert_eq!(walk(&lane), [0, 1]);
    assert_eq!(lane.keys(), [10, 11]);
    assert_eq!(lane.len(), 3);
    check(&lane);
}
