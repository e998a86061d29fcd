//! A readiness oracle that lets each sender's transactions through in the
//! order of their nonces.

use crate::limits::count_of;
use crate::ready::{Readiness, Ready};
use crate::traversal::{lemma_picked_in_order, stands_at, step, traverse};
use crate::types::{Address, U256, VerifiedTransaction};
use std::collections::HashMap;
use vstd::prelude::*;

verus! {

/// The nonce that `sender` is expected to use next, as `state` has it: 0
/// where nothing is known of the sender.
pub open spec fn expected(state: Map<u64, u128>, sender: Address) -> u128 {
    if state.contains_key(sender.0) {
        state[sender.0]
    } else {
        0
    }
}

/// An oracle that tracks, for each sender, the nonce that can be included
/// next. A transaction with that nonce is ready, and the sender's next nonce
/// is then one higher. A transaction with a higher nonce is for later. One
/// with a lower nonce is stale, and its sender stalled.
pub struct NonceTracker {
    next: HashMap<u64, u128>,
}

impl NonceTracker {
    /// An oracle that expects the nonce 0 of every sender.
    pub fn new() -> (r: Self)
        ensures
            r.state() == Map::<u64, u128>::empty(),
    {
        NonceTracker { next: HashMap::new() }
    }

    /// Makes `nonce` the nonce that `sender` is expected to use next.
    pub fn expect(&mut self, sender: Address, nonce: U256)
        ensures
            final(self).state() == old(self).state().insert(sender.0, nonce.0 as u128),
    {
        self.next.insert(sender.0, nonce.0 as u128);
    }

    /// The nonce that `sender` is expected to use next.
    pub fn next_nonce(&self, sender: &Address) -> (r: u128)
        ensures
            r == expected(self.state(), *sender),
    {
        match self.next.get(&sender.0) {
            Some(nonce) => *nonce,
            None => 0,
        }
    }
}

impl Ready for NonceTracker {
    type State = Map<u64, u128>;

    closed spec fn state(&self) -> Map<u64, u128> {
        self.next@
    }

    open spec fn spec_is_ready(state: Map<u64, u128>, tx: VerifiedTransaction) -> Readiness {
        if tx.nonce.0 == expected(state, tx.sender) {
            Readiness::Ready
        } else if tx.nonce.0 > expected(state, tx.sender) {
            Readiness::Future
        } else {
            Readiness::Stalled
        }
    }

    open spec fn spec_next(state: Map<u64, u128>, tx: VerifiedTransaction) -> Map<u64, u128> {
        if tx.nonce.0 == expected(state, tx.sender) {
            state.insert(tx.sender.0, (tx.nonce.0 + 1) as u128)
        } else {
            state
        }
    }

    fn is_ready(&mut self, tx: &VerifiedTransaction) -> (r: Readiness) {
        let wanted = self.next_nonce(&tx.sender);
        let nonce = tx.nonce.0 as u128;
        if nonce == wanted {
            self.next.insert(tx.sender.0, nonce + 1);
            Readiness::Ready
        } else if nonce > wanted {
            Readiness::Future
        } else {
            Readiness::Stalled
        }
    }
}

/// Whether the nonces of each sender in `picked` run on from the nonce that
/// `start` expects of it, one by one: an entry before which `picked` holds
/// `m` entries of the same sender has the nonce that is `m` above the
/// expected one.
pub open spec fn runs_from(picked: Seq<VerifiedTransaction>, start: Map<u64, u128>) -> bool {
    forall|k: int|
        0 <= k < picked.len() ==> (#[trigger] picked[k]).nonce.0 == expected(
            start,
            picked[k].sender,
        ) + count_of(picked.take(k), picked[k].sender)
}

/// What a pass with a nonce tracker picks runs on, for each sender, from
/// the nonce the tracker expected at the outset; and the tracker then
/// expects of each sender the nonce above the last one picked.
pub proof fn lemma_tracker_picks_runs(order: Seq<VerifiedTransaction>, start: Map<u64, u128>)
    ensures
        runs_from(traverse::<NonceTracker>(order, start).picked, start),
        forall|sender: Address|
            expected(traverse::<NonceTracker>(order, start).state, sender) == expected(
                start,
                sender,
            ) + #[trigger] count_of(traverse::<NonceTracker>(order, start).picked, sender),
    decreases order.len(),
{
    let after = traverse::<NonceTracker>(order, start);
    if order.len() == 0 {
        assert forall|sender: Address|
            expected(after.state, sender) == expected(start, sender) + #[trigger] count_of(
                after.picked,
                sender,
            ) by {}
    } else {
        let front = order.drop_last();
        let tx = order.last();
        let before = traverse::<NonceTracker>(front, start);
        lemma_tracker_picks_runs(front, start);
        assert(after == step::<NonceTracker>(before, tx));
        assert(expected(before.state, tx.sender) == expected(start, tx.sender) + count_of(
            before.picked,
            tx.sender,
        ));
        if after.picked == before.picked {
            assert(after.state == before.state);
        } else {
            assert(after.picked == before.picked.push(tx));
            assert(after.state == before.state.insert(tx.sender.0, (tx.nonce.0 + 1) as u128));
            assert(after.picked.drop_last() =~= before.picked);
            assert forall|k: int| 0 <= k < after.picked.len() implies (
            #[trigger] after.picked[k]).nonce.0 == expected(start, after.picked[k].sender)
                + count_of(after.picked.take(k), after.picked[k].sender) by {
                if k < before.picked.len() {
                    assert(after.picked.take(k) =~= before.picked.take(k));
                    assert(after.picked[k] == before.picked[k]);
                } else {
                    assert(after.picked.take(k) =~= before.picked);
                }
            }
            assert forall|sender: Address|
                expected(after.state, sender) == expected(start, sender) + #[trigger] count_of(
                    after.picked,
                    sender,
                ) by {
                assert(expected(before.state, sender) == expected(start, sender) + count_of(
                    before.picked,
                    sender,
                ));
            }
        }
    }
}

/// A pass with a nonce tracker picks nothing of a sender whose expected
/// nonce no entry of the order has.
pub proof fn lemma_tracker_skips_gaps(
    order: Seq<VerifiedTransaction>,
    start: Map<u64, u128>,
    sender: Address,
)
    requires
        forall|i: int|
            0 <= i < order.len() && (#[trigger] order[i]).sender == sender ==> order[i].nonce.0
                != expected(start, sender),
    ensures
        count_of(traverse::<NonceTracker>(order, start).picked, sender) == 0,
{
    let picked = traverse::<NonceTracker>(order, start).picked;
    lemma_tracker_picks_runs(order, start);
    lemma_picked_in_order::<NonceTracker>(order, start);
    let at = choose|at: Seq<int>| #[trigger] stands_at(picked, order, at);
    lemma_none_of_sender(picked, start, order, at, sender, picked.len() as int);
    assert(picked.take(picked.len() as int) =~= picked);
}

/// Where no entry of `order` has the nonce expected of `sender`, and
/// `picked` stands in `order` and runs from the expected nonces, no front
/// part of `picked` holds an entry of `sender`.
proof fn lemma_none_of_sender(
    picked: Seq<VerifiedTransaction>,
    start: Map<u64, u128>,
    order: Seq<VerifiedTransaction>,
    at: Seq<int>,
    sender: Address,
    n: int,
)
    requires
        stands_at(picked, order, at),
        runs_from(picked, start),
        0 <= n <= picked.len(),
        forall|i: int|
            0 <= i < order.len() && (#[trigger] order[i]).sender == sender ==> order[i].nonce.0
                != expected(start, sender),
    ensures
        count_of(picked.take(n), sender) == 0,
    decreases n,
{
    if n > 0 {
        lemma_none_of_sender(picked, start, order, at, sender, n - 1);
        assert(picked.take(n).drop_last() =~= picked.take(n - 1));
        assert(picked.take(n).last() == picked[n - 1]);
        if picked[n - 1].sender == sender {
            assert(picked[n - 1] == order[at[n - 1]]);
            assert(false);
        }
    }
}

} // verus!
