//! The readiness oracle: whether a transaction can be included next.

use crate::types::VerifiedTransaction;
use vstd::prelude::*;
use vstd::std_specs::convert::FromSpecImpl;

verus! {

/// The verdict of a readiness oracle on one transaction.
#[derive(Debug, Clone, Copy, PartialEq, Eq, Structural)]
pub enum Readiness {
    /// The sender is blocked: neither this transaction nor any later one of
    /// the same sender is looked at again in this traversal.
    Stalled,
    /// The transaction is included now.
    Ready,
    /// The transaction is passed over; later ones are still looked at,
    /// those of the same sender too.
    Future,
}

impl From<bool> for Readiness {
    fn from(b: bool) -> (r: Self) {
        if b {
            Readiness::Ready
        } else {
            Readiness::Future
        }
    }
}

impl FromSpecImpl<bool> for Readiness {
    open spec fn obeys_from_spec() -> bool {
        true
    }

    open spec fn from_spec(b: bool) -> Self {
        if b {
            Readiness::Ready
        } else {
            Readiness::Future
        }
    }
}

/// A readiness oracle. It is asked once for each candidate of a traversal,
/// best first, and may remember what it was asked: `State` is what its
/// verdicts depend on. An oracle says what it remembers and how it judges by
/// `state`, `spec_is_ready` and `spec_next`; of one that leaves them as they
/// are, nothing is known but that it answers.
pub trait Ready {
    /// What the oracle remembers between two questions.
    type State;

    /// What the oracle remembers now.
    open spec fn state(&self) -> Self::State {
        arbitrary()
    }

    /// The verdict on `tx` of an oracle that remembers `state`.
    open spec fn spec_is_ready(state: Self::State, tx: VerifiedTransaction) -> Readiness {
        arbitrary()
    }

    /// What an oracle that remembered `state` remembers after it judged `tx`.
    open spec fn spec_next(state: Self::State, tx: VerifiedTransaction) -> Self::State {
        arbitrary()
    }

    /// Says whether `tx` can be included, given that every transaction found
    /// ready before it is included.
    fn is_ready(&mut self, tx: &VerifiedTransaction) -> (r: Readiness)
        ensures
            r == Self::spec_is_ready(old(self).state(), *tx),
            final(self).state() == Self::spec_next(old(self).state(), *tx),
    ;
}

/// The oracle to which everything is ready.
#[derive(Debug, Clone, Copy)]
pub struct AlwaysReady;

impl Ready for AlwaysReady {
    type State = ();

    open spec fn state(&self) -> () {
        ()
    }

    open spec fn spec_is_ready(state: (), tx: VerifiedTransaction) -> Readiness {
        Readiness::Ready
    }

    open spec fn spec_next(state: (), tx: VerifiedTransaction) -> () {
        ()
    }

    fn is_ready(&mut self, tx: &VerifiedTransaction) -> (r: Readiness) {
        Readiness::Ready
    }
}

} // verus!
