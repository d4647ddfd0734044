//! Errors.

use vstd::prelude::*;

verus! {

/// Why a transfer to or from the backing store failed.
#[derive(Debug, Clone, Copy, PartialEq, Eq, Structural)]
pub enum IoError {
    /// The store ended before a whole record could be read.
    UnexpectedEof,
    /// The position of the record cannot be addressed.
    InvalidInput,
    /// The device reported a failure of another kind.
    Other,
}

/// Why the coordinator could not go on.
#[derive(Debug, Clone, Copy, PartialEq, Eq, Structural)]
pub enum Error {
    /// A transfer to or from the backing store failed.
    Io(IoError),
    /// An event arrived that contradicts the queues or the cache: an unlock of a
    /// key that nobody holds, or a completion that nothing asked for.
    InvariantViolation,
    /// The outstanding transfers did not complete in the time allowed.
    ShutdownTimeout,
}

} // verus!
