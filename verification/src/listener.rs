//! Notifications of what happens to transactions.

use crate::order::record;
use crate::types::{SharedTransaction, VerifiedTransaction};
use vstd::prelude::*;

verus! {

/// A sink for the pool's notifications. Every hook does nothing unless the
/// implementor says otherwise.
pub trait Listener {
    /// `tx` entered the pool, in place of `old` where there is one.
    fn added(&mut self, _tx: &VerifiedTransaction, _old: Option<&VerifiedTransaction>) {
    }

    /// `tx` was turned away.
    fn rejected(&mut self, _tx: &VerifiedTransaction) {
    }

    /// `tx` was evicted to keep the pool within its limits.
    fn dropped(&mut self, _tx: &VerifiedTransaction) {
    }

    /// `tx` was removed because it was found invalid after acceptance.
    fn invalid(&mut self, _tx: &VerifiedTransaction) {
    }

    /// `tx` was removed at its owner's request.
    fn cancelled(&mut self, _tx: &VerifiedTransaction) {
    }
}

/// The listener that ignores everything.
#[derive(Debug, Clone, Copy)]
pub struct NoopListener;

impl Listener for NoopListener {
}

/// One notification, as the pool hands it to a listener.
#[derive(Debug)]
pub enum Event {
    /// The first entered the pool, in place of the second where there is one.
    Added(SharedTransaction, Option<SharedTransaction>),
    /// The transaction was turned away.
    Rejected(SharedTransaction),
    /// The transaction was evicted to keep the pool within its limits.
    Dropped(SharedTransaction),
    /// The transaction was removed as invalid.
    Invalid(SharedTransaction),
    /// The transaction was removed at its owner's request.
    Cancelled(SharedTransaction),
}

/// Why a transaction is taken out of the pool on request.
#[derive(Debug, Clone, Copy, PartialEq, Eq, Structural)]
pub enum Removal {
    /// Its owner or an administrator asked for it.
    Cancelled,
    /// It was found invalid after it had been accepted.
    Invalid,
}

/// What an event says, with records in place of handles.
pub enum Notice {
    /// The first entered the pool, in place of the second where there is one.
    Added(VerifiedTransaction, Option<VerifiedTransaction>),
    /// The transaction was turned away.
    Rejected(VerifiedTransaction),
    /// The transaction was evicted to keep the pool within its limits.
    Dropped(VerifiedTransaction),
    /// The transaction was removed as invalid.
    Invalid(VerifiedTransaction),
    /// The transaction was removed at its owner's request.
    Cancelled(VerifiedTransaction),
}

impl Event {
    /// What this event says.
    pub open spec fn notice(self) -> Notice {
        match self {
            Event::Added(tx, old) => Notice::Added(
                record(tx),
                match old {
                    Some(previous) => Some(record(previous)),
                    None => None,
                },
            ),
            Event::Rejected(tx) => Notice::Rejected(record(tx)),
            Event::Dropped(tx) => Notice::Dropped(record(tx)),
            Event::Invalid(tx) => Notice::Invalid(record(tx)),
            Event::Cancelled(tx) => Notice::Cancelled(record(tx)),
        }
    }
}

/// What a sequence of events says, one by one.
pub open spec fn notices(events: Seq<Event>) -> Seq<Notice> {
    Seq::new(events.len(), |i: int| events[i].notice())
}

/// The number of evictions that `said` tells of.
pub open spec fn dropped_in(said: Seq<Notice>) -> nat
    decreases said.len(),
{
    if said.len() == 0 {
        0
    } else if said.last() is Dropped {
        dropped_in(said.drop_last()) + 1
    } else {
        dropped_in(said.drop_last())
    }
}

/// One notice tells of one eviction where it is a `Dropped`, of none else.
pub proof fn lemma_dropped_in_one(notice: Notice)
    ensures
        dropped_in(seq![notice]) == (if notice is Dropped {
            1nat
        } else {
            0nat
        }),
{
    let one = seq![notice];
    assert(one.last() == notice);
    assert(one.drop_last().len() == 0);
    assert(dropped_in(one.drop_last()) == 0);
}

/// The evictions of two sequences in a row are those of the one and those
/// of the other.
pub proof fn lemma_dropped_in_sum(a: Seq<Notice>, b: Seq<Notice>)
    ensures
        dropped_in(a + b) == dropped_in(a) + dropped_in(b),
    decreases b.len(),
{
    if b.len() == 0 {
        assert(a + b =~= a);
    } else {
        assert((a + b).drop_last() =~= a + b.drop_last());
        lemma_dropped_in_sum(a, b.drop_last());
    }
}

/// Hands `events` to `listener`, one hook call for each, first to last.
pub(crate) fn notify<L: Listener>(listener: &mut L, events: &Vec<Event>) {
    let mut i: usize = 0;
    while i < events.len()
        invariant
            i <= events.len(),
        decreases events.len() - i,
    {
        match &events[i] {
            Event::Added(tx, old) => {
                match old {
                    Some(previous) => listener.added(tx, Some(previous)),
                    None => listener.added(tx, None),
                }
            },
            Event::Rejected(tx) => listener.rejected(tx),
            Event::Dropped(tx) => listener.dropped(tx),
            Event::Invalid(tx) => listener.invalid(tx),
            Event::Cancelled(tx) => listener.cancelled(tx),
        }
        i += 1;
    }
}

} // verus!
