//! The work of one store worker: it takes a request, carries it out at the
//! position of the key, and reports the completion under the tag of the request.

use crate::coordinator::{Action, IoResponse};
use crate::storage::Storage;
use vstd::prelude::*;

verus! {

/// A request to the store.
#[derive(Debug, Clone, Copy, PartialEq, Eq, Structural)]
pub enum IoRequest {
    /// Read the record of the key.
    Read(u32),
    /// Write the value as the record of the key.
    Write(u32, u64),
}

/// The request that `action` makes of the store, if it makes one.
pub open spec fn request_of(action: Action) -> Option<IoRequest> {
    match action {
        Action::Read(key) => Some(IoRequest::Read(key)),
        Action::Write(key, value) => Some(IoRequest::Write(key, value)),
        Action::Grant(_, _) => None,
    }
}

/// The request that `action` makes of the store, if it makes one: a grant
/// makes none.
pub fn as_request(action: Action) -> (request: Option<IoRequest>)
    ensures
        request == request_of(action),
{
    match action {
        Action::Read(key) => Some(IoRequest::Read(key)),
        Action::Write(key, value) => Some(IoRequest::Write(key, value)),
        Action::Grant(_, _) => None,
    }
}

/// Carries out `request` on `storage` and reports how it ended. The report
/// names the key of the request and is of its kind. A read reports the value
/// that the store holds and changes nothing; a write that succeeds leaves its
/// value in the store, and no write changes the record of another key.
pub fn serve<S: Storage>(storage: &mut S, request: IoRequest) -> (response: IoResponse)
    requires
        old(storage).wf(),
    ensures
        final(storage).wf(),
        final(storage).unfailing() == old(storage).unfailing(),
        match request {
            IoRequest::Read(key) => {
                &&& response matches IoResponse::Read(k, result) && k == key && (result matches Ok(
                    value,
                ) ==> value == old(storage).value_at(key)) && (old(storage).unfailing() ==> result
                    is Ok)
                &&& forall|k: u32| #[trigger] final(storage).value_at(k) == old(storage).value_at(k)
            },
            IoRequest::Write(key, value) => {
                &&& response matches IoResponse::Write(k, result) && k == key && (result is Ok
                    ==> final(storage).value_at(key) == value) && (old(storage).unfailing() ==> result
                    is Ok)
                &&& forall|k: u32|
                    k != key ==> #[trigger] final(storage).value_at(k) == old(storage).value_at(k)
            },
        },
{
    match request {
        IoRequest::Read(key) => IoResponse::Read(key, storage.read(key)),
        IoRequest::Write(key, value) => IoResponse::Write(key, storage.write(key, value)),
    }
}

} // verus!
