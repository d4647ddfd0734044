use std::collections::{HashMap, VecDeque};

use piyokvs::coordinator::{Action, Coordinator, DataRequest, IoOp, IoResponse};
use piyokvs::entry::{Entry, State};
use piyokvs::error::{Error, IoError};

/// A coordinator together with a store that answers its requests when told to.
struct Pool {
    coordinator: Coordinator,
    store: HashMap<u32, u64>,
    pending: VecDeque<Action>,
    grants: VecDeque<(u64, Entry)>,
    reads: Vec<u32>,
    writes: Vec<(u32, u64)>,
}

impl Pool {
    fn new(capacity: usize, threshold: usize) -> Pool {
        Pool {
            coordinator: Coordinator::new(capacity, threshold),
            store: HashMap::new(),
            pending: VecDeque::new(),
            grants: VecDeque::new(),
            reads: Vec::new(),
            writes: Vec::new(),
        }
    }

    fn take(&mut self, actions: Vec<Action>) {
        for action in actions {
            match action {
                Action::Grant(client, entry) => self.grants.push_back((client, entry)),
                Action::Read(key) => {
                    self.reads.push(key);
                    self.pending.push_back(action);
                }
                Action::Write(key, value) => {
                    self.writes.push((key, value));
                    self.pending.push_back(action);
                }
            }
        }
    }

    fn lock(&mut self, key: u32, client: u64) {
        let actions = self.coordinator.handle_request(DataRequest::Lock(key, client)).unwrap();
        self.take(actions);
    }

    fn unlock(&mut self, key: u32, value: u64, dirty: bool) {
        let actions =
            self.coordinator.handle_request(DataRequest::Unlock(key, value, dirty)).unwrap();
        self.take(actions);
    }

    /// Carries out the pending request at `position` and reports its completion.
    fn complete(&mut self, position: usize) {
        let response = match self.pending.remove(position).unwrap() {
            Action::Read(key) => IoResponse::Read(key, Ok(*self.store.get(&key).unwrap_or(&0))),
            Action::Write(key, value) => {
                self.store.insert(key, value);
                IoResponse::Write(key, Ok(()))
            }
            Action::Grant(..) => unreachable!(),
        };
        let actions = self.coordinator.handle_response(response).unwrap();
        self.take(actions);
    }

    fn settle(&mut self) {
        while !self.pending.is_empty() {
            self.complete(0);
        }
    }

    fn granted(&mut self) -> (u64, Entry) {
        self.grants.pop_front().expect("a grant")
    }

    /// The lock of `key` by `client`, with all transfers completed before the
    /// entry is taken.
    fn hold(&mut self, key: u32, client: u64) -> Entry {
        self.lock(key, client);
        self.settle();
        let (to, entry) = self.granted();
        assert_eq!(to, client);
        assert_eq!(entry.key, key);
        entry
    }

    fn shutdown(&mut self) {
        self.settle();
        assert!(self.coordinator.is_drained());
        for action in self.coordinator.write_back() {
            match action {
                Action::Write(key, value) => {
                    self.writes.push((key, value));
                    self.store.insert(key, value);
                }
                _ => panic!("write-back asks for writes only"),
            }
        }
    }

    fn stored(&self, key: u32) -> u64 {
        *self.store.get(&key).unwrap_or(&0)
    }
}

/// A small generator of numbers that look random and are the same on every run.
struct Dice(u64);

impl Dice {
    fn roll(&mut self, sides: u64) -> u64 {
        self.0 = self.0.wrapping_mul(6364136223846793005).wrapping_add(1442695040888963407);
        (self.0 >> 33) % sides
    }
}

#[test]
fn single_writer_identity() {
    let mut pool = Pool::new(2, 1);
    for key in 0..100u32 {
        let entry = pool.hold(key, 1);
        assert_eq!((entry.value, entry.state), (0, State::Fresh));
        pool.unlock(key, key as u64, true);
    }
    pool.shutdown();
    for key in 0..100u32 {
        assert_eq!(pool.stored(key), key as u64);
    }
}

#[test]
fn four_client_contended_increments() {
    let mut pool = Pool::new(20, 5);
    for key in 0..100u32 {
        for client in 0..4u64 {
            pool.lock(key, client);
        }
        for client in 0..4u64 {
            pool.settle();
            let (to, entry) = pool.granted();
            assert_eq!(to, client);
            assert_eq!((entry.key, entry.value), (key, client));
            assert!(pool.grants.is_empty());
            pool.unlock(key, entry.value + 1, true);
        }
    }
    pool.shutdown();
    for key in 0..100u32 {
        assert_eq!(pool.stored(key), 4);
    }
}

/// What a simulated client is doing.
enum Doing {
    Idle,
    Waiting,
    Holding(Entry),
}

/// Runs the clients in an interleaving picked by `dice`. Each client goes
/// through its list of keys, and increments the record where its flag says so.
fn run(pool: &mut Pool, dice: &mut Dice, plans: Vec<(Vec<u32>, bool)>) {
    let clients = plans.len();
    let mut doing: Vec<Doing> = plans.iter().map(|_| Doing::Idle).collect();
    let mut at: Vec<usize> = vec![0; clients];
    let mut left = clients;
    while left > 0 {
        while let Some((client, entry)) = pool.grants.pop_front() {
            // Nobody else holds the key that is granted.
            for other in doing.iter() {
                if let Doing::Holding(held) = other {
                    assert_ne!(held.key, entry.key);
                }
            }
            assert_eq!(entry.key, plans[client as usize].0[at[client as usize]]);
            match doing[client as usize] {
                Doing::Waiting => doing[client as usize] = Doing::Holding(entry),
                _ => panic!("a grant to a client that does not wait"),
            }
        }
        // A key with a transfer under way has a queue and no holder.
        for request in pool.pending.iter() {
            let (key, read) = match request {
                Action::Read(key) => (*key, true),
                Action::Write(key, _) => (*key, false),
                Action::Grant(..) => unreachable!(),
            };
            assert!(pool.coordinator.queue_len(key) > 0);
            assert!(!pool.coordinator.is_held(key));
            assert!(pool.coordinator.index().contains(key));
            assert_eq!(pool.coordinator.transfer(key) == Some(IoOp::Read), read);
        }
        let turn = dice.roll(clients as u64 + 1) as usize;
        if turn == clients {
            if !pool.pending.is_empty() {
                let position = dice.roll(pool.pending.len() as u64) as usize;
                pool.complete(position);
            }
            continue;
        }
        match doing[turn] {
            Doing::Idle => {
                if at[turn] < plans[turn].0.len() {
                    pool.lock(plans[turn].0[at[turn]], turn as u64);
                    doing[turn] = Doing::Waiting;
                }
            }
            Doing::Waiting => {
                if !pool.pending.is_empty() {
                    let position = dice.roll(pool.pending.len() as u64) as usize;
                    pool.complete(position);
                }
            }
            Doing::Holding(entry) => {
                assert_eq!(entry.key, plans[turn].0[at[turn]]);
                assert!(pool.coordinator.is_held(entry.key));
                if plans[turn].1 {
                    pool.unlock(entry.key, entry.value + 1, true);
                } else {
                    pool.unlock(entry.key, entry.value, false);
                }
                doing[turn] = Doing::Idle;
                at[turn] += 1;
                if at[turn] == plans[turn].0.len() {
                    left -= 1;
                }
            }
        }
    }
}

#[test]
fn contended_increments_in_any_order() {
    for seed in 0..20u64 {
        let mut pool = Pool::new(20, 5);
        let mut dice = Dice(seed);
        let plans = (0..4).map(|_| ((0..100u32).collect(), true)).collect();
        run(&mut pool, &mut dice, plans);
        pool.shutdown();
        for key in 0..100u32 {
            assert_eq!(pool.stored(key), 4);
        }
    }
}

#[test]
fn mixed_read_write() {
    let n_data: u32 = 10000;
    let mut pool = Pool::new(200, 20);
    let mut dice = Dice(42);
    let mut plans = Vec::new();
    for _ in 0..2 {
        let mut keys: Vec<u32> = (0..n_data).collect();
        for i in (1..keys.len()).rev() {
            let j = dice.roll(i as u64 + 1) as usize;
            keys.swap(i, j);
        }
        plans.push((keys, false));
    }
    for _ in 0..2 {
        let keys: Vec<u32> = (0..5000).map(|_| dice.roll(n_data as u64) as u32).collect();
        plans.push((keys, true));
    }
    run(&mut pool, &mut dice, plans);
    pool.shutdown();
    let sum: u64 = (0..n_data).map(|key| pool.stored(key)).sum();
    assert_eq!(sum, 10000);
}

#[test]
fn eviction_storm() {
    let mut pool = Pool::new(2, 1);
    for key in 0..10000u32 {
        pool.hold(key, 7);
        pool.unlock(key, key as u64, true);
        assert!(pool.coordinator.index().len() <= 3);
    }
    pool.shutdown();
    for key in 0..10000u32 {
        assert_eq!(pool.stored(key), key as u64);
    }
    // Every write after the first forces an eviction.
    assert!(pool.writes.len() >= 9998);
}

#[test]
fn touch_cancels_evict() {
    let mut pool = Pool::new(4, 1);
    for key in 0..3u32 {
        pool.hold(key, 1);
        pool.unlock(key, 100 + key as u64, true);
    }
    assert!(pool.writes.is_empty());
    // The fourth key fills the index: key 0 is picked and its write-back asked for.
    pool.lock(3, 1);
    assert_eq!(pool.pending.len(), 2);
    assert_eq!(pool.writes, vec![(0, 100)]);
    assert!(pool.coordinator.index().is_evicting(0));
    assert_eq!(pool.coordinator.transfer(0), Some(IoOp::Write(100)));
    // The read of key 3 completes; the write-back of key 0 is still under way.
    pool.complete(0);
    assert_eq!(pool.granted().0, 1);
    pool.unlock(3, 103, true);
    // A lock on key 0 calls the eviction off. The client waits for the write.
    pool.lock(0, 2);
    assert!(!pool.coordinator.index().is_evicting(0));
    assert!(pool.coordinator.index().contains(0));
    assert!(pool.grants.is_empty());
    assert!(!pool.coordinator.is_held(0));
    assert_eq!(pool.coordinator.queue_len(0), 2);
    // Key 4 arrives: the next victim is key 1.
    pool.lock(4, 3);
    assert_eq!(pool.writes, vec![(0, 100), (1, 101)]);
    assert!(pool.coordinator.index().is_evicting(1));
    // The write-back of key 0 completes: the waiting client gets the entry.
    pool.complete(0);
    let (client, entry) = pool.granted();
    assert_eq!(client, 2);
    assert_eq!((entry.key, entry.value, entry.state), (0, 100, State::Fresh));
    assert!(pool.coordinator.index().contains(0));
    assert!(pool.coordinator.is_held(0));
    // Its slot stays taken, so one more victim is picked: key 2, beside key 1.
    assert_eq!(pool.writes, vec![(0, 100), (1, 101), (2, 102)]);
    assert!(pool.coordinator.index().is_evicting(2));
    assert_eq!(pool.coordinator.index().evicting(), 2);
    pool.unlock(0, 100, false);
    pool.shutdown();
    for key in 0..4u32 {
        assert_eq!(pool.stored(key), 100 + key as u64);
    }
    assert_eq!(pool.stored(4), 0);
}

#[test]
fn never_written_key_is_zero() {
    let mut pool = Pool::new(2, 1);
    let entry = pool.hold(12345, 9);
    assert_eq!((entry.key, entry.value, entry.state), (12345, 0, State::Fresh));
    assert_eq!(pool.reads, vec![12345]);
}

#[test]
fn two_clients_on_one_key_take_turns() {
    let mut pool = Pool::new(2, 1);
    pool.lock(5, 1);
    pool.lock(5, 2);
    pool.settle();
    let (first, entry) = pool.granted();
    assert_eq!((first, entry.value), (1, 0));
    assert!(pool.grants.is_empty());
    assert_eq!(pool.coordinator.queue_len(5), 2);
    pool.unlock(5, entry.value + 10, true);
    let (second, entry) = pool.granted();
    assert_eq!((second, entry.value, entry.state), (2, 10, State::Dirty));
    pool.unlock(5, entry.value + 10, true);
    assert_eq!(pool.coordinator.queue_len(5), 0);
    assert!(!pool.coordinator.is_held(5));
    pool.shutdown();
    assert_eq!(pool.stored(5), 20);
    // One read brought the key in for both.
    assert_eq!(pool.reads, vec![5]);
}

#[test]
fn a_read_only_section_writes_nothing() {
    let mut pool = Pool::new(2, 1);
    pool.store.insert(1, 11);
    for key in 0..50u32 {
        let entry = pool.hold(key, 1);
        pool.unlock(key, entry.value, false);
    }
    pool.shutdown();
    assert!(pool.writes.is_empty());
    assert_eq!(pool.stored(1), 11);
}

#[test]
fn a_clean_victim_leaves_without_a_write() {
    let mut pool = Pool::new(2, 1);
    let entry = pool.hold(0, 1);
    pool.unlock(0, entry.value, false);
    pool.lock(1, 1);
    // Key 0 was picked, and has left at once.
    assert!(!pool.coordinator.index().contains(0));
    assert_eq!(pool.coordinator.index().evicting(), 0);
    assert_eq!(pool.pending.len(), 1);
    assert!(pool.writes.is_empty());
}

#[test]
fn a_held_key_is_never_the_victim() {
    let mut pool = Pool::new(2, 1);
    pool.hold(0, 1);
    pool.hold(1, 2);
    pool.hold(2, 3);
    pool.hold(3, 4);
    // All four are held: the index is over capacity and nothing is evicting.
    assert_eq!(pool.coordinator.index().len(), 4);
    assert_eq!(pool.coordinator.index().evicting(), 0);
    assert!(pool.writes.is_empty());
    pool.unlock(0, 5, true);
    pool.hold(4, 1);
    assert_eq!(pool.writes, vec![(0, 5)]);
}

#[test]
fn misuse_is_an_invariant_violation() {
    let mut pool = Pool::new(2, 1);
    let unlock = DataRequest::Unlock(3, 0, false);
    assert_eq!(pool.coordinator.handle_request(unlock).err(), Some(Error::InvariantViolation));
    let read = IoResponse::Read(3, Ok(0));
    assert_eq!(pool.coordinator.handle_response(read).err(), Some(Error::InvariantViolation));
    let write = IoResponse::Write(3, Ok(()));
    assert_eq!(pool.coordinator.handle_response(write).err(), Some(Error::InvariantViolation));
    pool.lock(3, 1);
    // The key is being read: nobody holds it yet, and no write is under way.
    assert_eq!(pool.coordinator.transfer(3), Some(IoOp::Read));
    assert_eq!(pool.coordinator.handle_request(unlock).err(), Some(Error::InvariantViolation));
    assert_eq!(pool.coordinator.handle_response(write).err(), Some(Error::InvariantViolation));
    pool.settle();
    assert_eq!(pool.coordinator.transfer(3), None);
    assert_eq!(pool.coordinator.handle_response(read).err(), Some(Error::InvariantViolation));
}

#[test]
fn a_failed_transfer_is_reported_and_changes_nothing() {
    let mut pool = Pool::new(2, 1);
    pool.lock(3, 1);
    let failed = IoResponse::Read(3, Err(IoError::UnexpectedEof));
    assert_eq!(
        pool.coordinator.handle_response(failed).err(),
        Some(Error::Io(IoError::UnexpectedEof))
    );
    assert_eq!(pool.coordinator.transfer(3), Some(IoOp::Read));
    pool.settle();
    assert_eq!(pool.granted().0, 1);
    pool.unlock(3, 30, true);
    pool.lock(4, 1);
    assert_eq!(pool.coordinator.transfer(3), Some(IoOp::Write(30)));
    let failed = IoResponse::Write(3, Err(IoError::Other));
    assert_eq!(pool.coordinator.handle_response(failed).err(), Some(Error::Io(IoError::Other)));
    assert_eq!(pool.coordinator.transfer(3), Some(IoOp::Write(30)));
    assert!(pool.coordinator.index().contains(3));
}

#[test]
fn the_drain_times_out_only_while_transfers_are_under_way() {
    let mut pool = Pool::new(2, 1);
    assert_eq!(pool.coordinator.drained_within(0, 0), Ok(true));
    assert_eq!(pool.coordinator.drained_within(100, 10), Ok(true));
    pool.lock(3, 1);
    assert!(!pool.coordinator.is_drained());
    assert_eq!(pool.coordinator.drained_within(0, 10), Ok(false));
    assert_eq!(pool.coordinator.drained_within(9, 10), Ok(false));
    assert_eq!(pool.coordinator.drained_within(10, 10), Err(Error::ShutdownTimeout));
    assert_eq!(pool.coordinator.drained_within(11, 10), Err(Error::ShutdownTimeout));
    pool.settle();
    assert!(pool.coordinator.is_drained());
    assert_eq!(pool.coordinator.drained_within(11, 10), Ok(true));
}

#[test]
fn write_back_lists_the_dirty_entries() {
    let mut pool = Pool::new(8, 1);
    for key in 0..4u32 {
        let entry = pool.hold(key, 1);
        pool.unlock(key, entry.value + key as u64, key % 2 == 1);
    }
    assert!(pool.coordinator.is_drained());
    let writes: Vec<(u32, u64)> = pool
        .coordinator
        .write_back()
        .iter()
        .map(|action| match action {
            Action::Write(key, value) => (*key, *value),
            _ => panic!("write-back asks for writes only"),
        })
        .collect();
    assert_eq!(writes, vec![(1, 1), (3, 3)]);
}
