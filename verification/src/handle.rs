//! The entry in the hands of the client that holds its lock.

use crate::coordinator::DataRequest;
use crate::entry::{Entry, State};
use vstd::prelude::*;

verus! {

/// An entry while a client holds the lock on its key. The client reads it,
/// and may change the value; it marks the entry dirty to have the change kept.
pub struct EntryHandle {
    key: u32,
    entry: Entry,
}

impl EntryHandle {
    /// The key that is locked.
    pub closed spec fn key(&self) -> u32 {
        self.key
    }

    /// The entry as the client sees it.
    pub closed spec fn entry(&self) -> Entry {
        self.entry
    }

    /// The handle to the entry that was granted. The client finds the entry
    /// fresh, whatever it is in the cache: the mark that it leaves says whether
    /// it, and not a holder before it, changed the record.
    pub fn new(granted: Entry) -> (handle: EntryHandle)
        ensures
            handle.key() == granted.key,
            handle.entry() == (Entry { state: State::Fresh, ..granted }),
    {
        EntryHandle {
            key: granted.key,
            entry: Entry { key: granted.key, value: granted.value, state: State::Fresh },
        }
    }

    /// The entry, for reading.
    pub fn as_ref(&self) -> (entry: &Entry)
        ensures
            *entry == self.entry(),
    {
        &self.entry
    }

    /// The entry, for writing.
    pub fn as_mut(&mut self) -> (entry: &mut Entry)
        ensures
            *entry == old(self).entry(),
            final(self).entry() == *final(entry),
            final(self).key() == old(self).key(),
    {
        &mut self.entry
    }

    /// Gives the handle up: the request that unlocks the key, with the value
    /// that the client leaves, and that says the record is dirty exactly if the
    /// client marked the entry so.
    pub fn unlock(self) -> (request: DataRequest)
        ensures
            request == DataRequest::Unlock(
                self.key(),
                self.entry().value,
                self.entry().state is Dirty,
            ),
    {
        let dirty = match self.entry.state {
            State::Dirty => true,
            _ => false,
        };
        DataRequest::Unlock(self.key, self.entry.value, dirty)
    }
}

} // verus!
