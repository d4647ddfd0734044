//! A client of the buffer: it increments records picked at random.

use crate::buffer::Buffer;
use crate::entry::State;
use crate::error::IoError;
use rand::Rng;
use vstd::prelude::*;

verus! {

/// The sum of the values that `buffer` holds for the keys below `n`.
pub open spec fn total<B: Buffer>(buffer: &B, n: nat) -> int
    decreases n,
{
    if n == 0 {
        0
    } else {
        total(buffer, (n - 1) as nat) + buffer.value_of((n - 1) as u32)
    }
}

/// Where two buffers hold the same for every key but one below `n`, for which
/// the second holds one more, its total over the keys below `n` is one more.
pub proof fn lemma_total_incremented<B: Buffer>(before: &B, after: &B, key: u32, n: nat)
    requires
        n <= u32::MAX + 1,
        after.value_of(key) == before.value_of(key) + 1,
        forall|k: u32| k != key ==> #[trigger] after.value_of(k) == before.value_of(k),
    ensures
        total(after, n) == total(before, n) + if key < n {
            1int
        } else {
            0int
        },
    decreases n,
{
    if n > 0 {
        lemma_total_incremented(before, after, key, (n - 1) as nat);
    }
}

/// `rand::Rng::gen_range` on the generator of the current thread, over the keys
/// from zero up to `n_data`, which is left out. Nothing is claimed of the key
/// but that it lies in that range; the call panics on an empty range, which
/// the precondition rules out.
#[verifier::external_body]
fn random_key(n_data: u32) -> (key: u32)
    requires
        n_data > 0,
    ensures
        key < n_data,
{
    rand::thread_rng().gen_range(0..n_data)
}

/// Adds one to the record of `key` under its lock, and marks it dirty.
pub fn increment<B: Buffer>(buffer: &mut B, key: u32) -> (r: Result<(), IoError>)
    requires
        old(buffer).wf(),
        old(buffer).value_of(key) < u64::MAX,
    ensures
        old(buffer).resident(key) || old(buffer).unfailing() ==> r is Ok,
        r is Ok ==> {
            &&& final(buffer).wf()
            &&& final(buffer).unfailing() == old(buffer).unfailing()
            &&& final(buffer).resident(key)
            &&& final(buffer).value_of(key) == old(buffer).value_of(key) + 1
            &&& final(buffer).stored(key) == old(buffer).stored(key)
            &&& forall|k: u32| k != key ==> #[trigger] final(buffer).value_of(k) == old(buffer).value_of(k)
        },
{
    match buffer.lock(key) {
        Ok(entry) => {
            entry.value += 1;
            entry.state = State::Dirty;
            Ok(())
        },
        Err(e) => Err(e),
    }
}

/// A client that works on a buffer of its own.
pub struct Client<B: Buffer> {
    buffer: B,
}

impl<B: Buffer> Client<B> {
    /// The buffer that the client works on.
    pub closed spec fn buffer(&self) -> &B {
        &self.buffer
    }

    /// A client of `buffer`.
    pub fn new(buffer: B) -> (client: Client<B>)
        ensures
            *client.buffer() == buffer,
    {
        Client { buffer }
    }

    /// Gives the buffer back.
    pub fn into_buffer(self) -> (buffer: B)
        ensures
            buffer == *self.buffer(),
    {
        self.buffer
    }

    /// Increments `n_increments` times the record of a key picked at random
    /// below `n_data`, and stops at the first failure of the store. After a
    /// success the records below `n_data` add up to `n_increments` more than
    /// before, and no other record has changed.
    pub fn start(&mut self, n_data: u32, n_increments: usize) -> (r: Result<(), IoError>)
        requires
            old(self).buffer().wf(),
            n_data > 0,
            forall|k: u32| k < n_data ==> #[trigger] old(self).buffer().value_of(k) + n_increments <= u64::MAX,
        ensures
            old(self).buffer().unfailing() ==> r is Ok,
            r is Ok ==> {
                &&& final(self).buffer().wf()
                &&& final(self).buffer().unfailing() == old(self).buffer().unfailing()
                &&& total(final(self).buffer(), n_data as nat) == total(
                    old(self).buffer(),
                    n_data as nat,
                ) + n_increments
                &&& forall|k: u32|
                    k >= n_data ==> #[trigger] final(self).buffer().value_of(k)
                        == old(self).buffer().value_of(k)
                &&& forall|k: u32|
                    #[trigger] final(self).buffer().value_of(k) >= old(self).buffer().value_of(k)
            },
    {
        let mut done: usize = 0;
        while done < n_increments
            invariant
                done <= n_increments,
                n_data > 0,
                self.buffer.wf(),
                self.buffer.unfailing() == old(self).buffer().unfailing(),
                total(&self.buffer, n_data as nat) == total(old(self).buffer(), n_data as nat) + done,
                forall|k: u32|
                    k < n_data ==> #[trigger] self.buffer.value_of(k) + (n_increments - done)
                        <= u64::MAX,
                forall|k: u32|
                    k >= n_data ==> #[trigger] self.buffer.value_of(k) == old(self).buffer().value_of(
                        k,
                    ),
                forall|k: u32| #[trigger] self.buffer.value_of(k) >= old(self).buffer().value_of(k),
            decreases n_increments - done,
        {
            let key = random_key(n_data);
            let ghost before = self.buffer;
            match increment(&mut self.buffer, key) {
                Ok(_) => {},
                Err(e) => {
                    return Err(e);
                },
            }
            proof {
                lemma_total_incremented(&before, &self.buffer, key, n_data as nat);
            }
            done += 1;
        }
        Ok(())
    }
}

} // verus!
