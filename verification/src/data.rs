//! A handle to the value cell of a record.

use vstd::prelude::*;

verus! {

/// A handle to the value cell of a record, for the time of one transfer.
pub struct DataPtr<'a>(pub &'a mut u64);

impl<'a> DataPtr<'a> {
    /// The value in the cell.
    pub open spec fn value(&self) -> u64 {
        *self.0
    }

    /// A handle to the cell behind `reference`: what is written through the
    /// handle is written to that cell.
    pub fn new(reference: &'a mut u64) -> (handle: DataPtr<'a>)
        ensures
            handle.value() == *old(reference),
            *final(handle.0) == *final(reference),
    {
        DataPtr(reference)
    }

    /// The value in the cell.
    pub fn as_ref(&self) -> (value: &u64)
        ensures
            *value == self.value(),
    {
        &*self.0
    }

    /// The cell, for writing.
    pub fn as_mut(&mut self) -> (value: &mut u64)
        ensures
            *value == old(self).value(),
            final(self).value() == *final(value),
            *final(final(self).0) == *final(old(self).0),
    {
        &mut *self.0
    }
}

} // verus!
