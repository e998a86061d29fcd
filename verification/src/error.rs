//! Why the pool refused a request.

use vstd::prelude::*;

verus! {

/// The pool's errors. None of them leaves the pool in a broken state.
#[derive(Debug, PartialEq, Eq, Structural)]
pub enum Error<E = ()> {
    /// The verifier turned the transaction away, for the reason it gave.
    VerificationFailed(E),
    /// The transaction lost the conflict over an occupied nonce slot.
    NotCompetitive,
    /// The pool is at its limits and the transaction ranks too low to stay.
    PoolFull,
    /// No transaction of the pool has the hash that was asked for.
    NotFound,
}

} // verus!
