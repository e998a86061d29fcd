//! The boundary to transaction verification, which the pool does not do itself.

use crate::types::{UnverifiedTransaction, VerifiedTransaction};
use vstd::prelude::*;

verus! {

/// Turns a transaction as it arrived into a verified record, or says why not.
pub trait Verifier {
    /// Why a transaction did not pass.
    type Error;

    /// Verifies `tx`. The pool promises nothing of the outcome and assigns the
    /// record's insertion number itself.
    fn verify_transaction(&self, tx: UnverifiedTransaction) -> (r: Result<
        VerifiedTransaction,
        Self::Error,
    >);
}

/// The verifier that verifies nothing: it lets no transaction pass.
#[derive(Debug, Clone, Copy)]
pub struct NoopVerifier;

impl Verifier for NoopVerifier {
    type Error = ();

    fn verify_transaction(&self, _tx: UnverifiedTransaction) -> (r: Result<VerifiedTransaction, ()>)
        ensures
            r == Err::<VerifiedTransaction, ()>(()),
    {
        Err(())
    }
}

} // verus!
