//! A handle to a cell that lives elsewhere.

use vstd::prelude::*;

verus! {

/// A handle to a cell of another owner, for the time of one transfer.
pub struct Sendable<'a, T> {
    pub cell: &'a mut T,
}

impl<'a, T> Sendable<'a, T> {
    /// The value in the cell.
    pub open spec fn value(&self) -> T {
        *self.cell
    }

    /// A handle to the cell behind `reference`: what is written through the
    /// handle is written to that cell.
    pub fn new(reference: &'a mut T) -> (handle: Sendable<'a, T>)
        ensures
            handle.value() == *old(reference),
            *final(handle.cell) == *final(reference),
    {
        Sendable { cell: reference }
    }

    /// The value in the cell.
    pub fn as_ref(&self) -> (value: &T)
        ensures
            *value == self.value(),
    {
        &*self.cell
    }

    /// The cell, for writing.
    pub fn as_mut(&mut self) -> (value: &mut T)
        ensures
            *value == old(self).value(),
            final(self).value() == *final(value),
            *final(final(self).cell) == *final(old(self).cell),
    {
        &mut *self.cell
    }
}

} // verus!
