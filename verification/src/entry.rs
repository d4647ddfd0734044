//! Cache entries and the states they pass through.

use vstd::prelude::*;

verus! {

/// A value that can be put back to its blank form before it is first used.
pub trait Lazy: Sized {
    /// What `init` turns `self` into.
    spec fn blank(&self) -> Self;

    fn init(&mut self)
        ensures
            *final(self) == old(self).blank(),
    ;
}

impl Lazy for u64 {
    open spec fn blank(&self) -> u64 {
        0
    }

    fn init(&mut self) {
        *self = 0;
    }
}

/// Where an entry stands between the cache and the backing store.
#[derive(Debug, Clone, Copy, PartialEq, Eq, Structural)]
pub enum State {
    /// The slot has never held a record.
    Uninitialized,
    /// The slot is reserved for its key; the record has not been read yet.
    Unloaded,
    /// The slot holds the record as the store has it.
    Fresh,
    /// The slot holds a record that is newer than the store's.
    Dirty,
    /// The slot is reserved for its key, and still holds the newer record of
    /// the key named here, which has to be written back first.
    Stale(u32),
}

/// A resident record: its key, its value, and its state.
#[derive(Debug, Clone, Copy, PartialEq, Eq, Structural)]
pub struct Entry {
    pub key: u32,
    pub value: u64,
    pub state: State,
}

/// The entry holds the record of its key.
pub open spec fn loaded(entry: Entry) -> bool {
    entry.state is Fresh || entry.state is Dirty
}

/// The entry is at rest: no read or write-back is owed for it.
pub open spec fn settled(entry: Entry) -> bool {
    entry.state is Uninitialized || loaded(entry)
}

impl Entry {
    /// Hands out the value cell for a transfer to or from the store, after which
    /// the entry counts as fresh.
    pub fn as_ptr(&mut self) -> (cell: &mut u64)
        requires
            old(self).state is Unloaded || old(self).state is Dirty || old(self).state is Stale,
        ensures
            *cell == old(self).value,
            *final(self) == (Entry { key: old(self).key, value: *final(cell), state: State::Fresh }),
    {
        self.state = State::Fresh;
        &mut self.value
    }

    /// The value of a loaded entry.
    pub fn as_ref(&self) -> (value: &u64)
        requires
            loaded(*self),
        ensures
            *value == self.value,
    {
        &self.value
    }

    /// The value cell of a loaded entry, for writing; the entry becomes dirty.
    pub fn as_mut(&mut self) -> (cell: &mut u64)
        requires
            loaded(*old(self)),
        ensures
            *cell == old(self).value,
            *final(self) == (Entry { key: old(self).key, value: *final(cell), state: State::Dirty }),
    {
        self.state = State::Dirty;
        &mut self.value
    }
}

impl Default for Entry {
    fn default() -> (entry: Entry)
        ensures
            entry == (Entry { key: 0, value: 0, state: State::Uninitialized }),
    {
        Entry { key: 0, value: 0, state: State::Uninitialized }
    }
}

impl Lazy for Entry {
    open spec fn blank(&self) -> Entry {
        Entry { key: self.key, value: self.value.blank(), state: State::Unloaded }
    }

    fn init(&mut self) {
        self.value.init();
        self.state = State::Unloaded;
    }
}

} // verus!
