//! The limits of a pool and what an order weighs against them.

use crate::types::{Address, VerifiedTransaction};
use vstd::prelude::*;

verus! {

/// The limits a pool is configured with.
#[derive(Debug, Clone, Copy, PartialEq, Eq, Structural)]
pub struct Options {
    /// The highest number of transactions the pool holds.
    pub max_count: usize,
    /// The highest total cost of the transactions the pool holds.
    pub max_cost: u64,
    /// The highest number of transactions of one sender, where there is one.
    pub max_per_sender: Option<usize>,
}

/// The total cost of `order`: the sum of the `gas` of its entries.
pub open spec fn cost_of(order: Seq<VerifiedTransaction>) -> nat
    decreases order.len(),
{
    if order.len() == 0 {
        0
    } else {
        cost_of(order.drop_last()) + order.last().gas.0 as nat
    }
}

/// The number of entries of `order` that `sender` sent.
pub open spec fn count_of(order: Seq<VerifiedTransaction>, sender: Address) -> nat
    decreases order.len(),
{
    if order.len() == 0 {
        0
    } else if order.last().sender == sender {
        count_of(order.drop_last(), sender) + 1
    } else {
        count_of(order.drop_last(), sender)
    }
}

/// Whether `order` is within the limits on number and cost.
pub open spec fn within(options: Options, order: Seq<VerifiedTransaction>) -> bool {
    order.len() <= options.max_count && cost_of(order) <= options.max_cost
}

/// Whether `sender` may have one more transaction in `order`.
pub open spec fn sender_has_room(
    options: Options,
    order: Seq<VerifiedTransaction>,
    sender: Address,
) -> bool {
    match options.max_per_sender {
        Some(cap) => count_of(order, sender) < cap,
        None => true,
    }
}

/// The length of the longest front part of `order` that is within the
/// limits: what is left when the worst entries are evicted one by one until
/// the rest fits.
pub open spec fn fit(options: Options, order: Seq<VerifiedTransaction>) -> nat
    decreases order.len(),
{
    if order.len() == 0 || within(options, order) {
        order.len()
    } else {
        fit(options, order.drop_last())
    }
}

/// Entering an entry adds its cost.
pub proof fn lemma_cost_insert(order: Seq<VerifiedTransaction>, p: int, tx: VerifiedTransaction)
    requires
        0 <= p <= order.len(),
    ensures
        cost_of(order.insert(p, tx)) == cost_of(order) + tx.gas.0,
    decreases order.len(),
{
    let after = order.insert(p, tx);
    if p == order.len() {
        assert(after.drop_last() =~= order);
    } else {
        assert(after.drop_last() =~= order.drop_last().insert(p, tx));
        lemma_cost_insert(order.drop_last(), p, tx);
    }
}

/// Taking an entry out takes its cost off.
pub proof fn lemma_cost_remove(order: Seq<VerifiedTransaction>, k: int)
    requires
        0 <= k < order.len(),
    ensures
        cost_of(order.remove(k)) == cost_of(order) - order[k].gas.0,
    decreases order.len(),
{
    let after = order.remove(k);
    if k == order.len() - 1 {
        assert(after =~= order.drop_last());
    } else {
        assert(after.drop_last() =~= order.drop_last().remove(k));
        lemma_cost_remove(order.drop_last(), k);
    }
}

/// A front part costs no more than the whole.
pub proof fn lemma_cost_take(order: Seq<VerifiedTransaction>, n: int)
    requires
        0 <= n <= order.len(),
    ensures
        cost_of(order.take(n)) <= cost_of(order),
    decreases order.len(),
{
    if n == order.len() {
        assert(order.take(n) =~= order);
    } else {
        assert(order.take(n) =~= order.drop_last().take(n));
        lemma_cost_take(order.drop_last(), n);
    }
}

/// A front part of an order within the limits is within the limits.
pub proof fn lemma_within_take(options: Options, order: Seq<VerifiedTransaction>, n: int)
    requires
        within(options, order),
        0 <= n <= order.len(),
    ensures
        within(options, order.take(n)),
{
    lemma_cost_take(order, n);
}

/// Entering an entry counts one more for its sender and leaves the count of
/// every other sender.
pub proof fn lemma_count_insert(
    order: Seq<VerifiedTransaction>,
    p: int,
    tx: VerifiedTransaction,
    sender: Address,
)
    requires
        0 <= p <= order.len(),
    ensures
        count_of(order.insert(p, tx), sender) == count_of(order, sender) + (if tx.sender
            == sender {
            1nat
        } else {
            0nat
        }),
    decreases order.len(),
{
    let after = order.insert(p, tx);
    if p == order.len() {
        assert(after.drop_last() =~= order);
    } else {
        assert(after.drop_last() =~= order.drop_last().insert(p, tx));
        lemma_count_insert(order.drop_last(), p, tx, sender);
    }
}

/// Taking an entry out counts one less for its sender and leaves the count
/// of every other sender.
pub proof fn lemma_count_remove(order: Seq<VerifiedTransaction>, k: int, sender: Address)
    requires
        0 <= k < order.len(),
    ensures
        count_of(order.remove(k), sender) == count_of(order, sender) - (if order[k].sender
            == sender {
            1nat
        } else {
            0nat
        }),
    decreases order.len(),
{
    let after = order.remove(k);
    if k == order.len() - 1 {
        assert(after =~= order.drop_last());
    } else {
        assert(after.drop_last() =~= order.drop_last().remove(k));
        lemma_count_remove(order.drop_last(), k, sender);
    }
}

/// What fits is a front part, it is within the limits, and no longer front
/// part is.
pub proof fn lemma_fit_is_longest(options: Options, order: Seq<VerifiedTransaction>)
    ensures
        fit(options, order) <= order.len(),
        within(options, order.take(fit(options, order) as int)),
        forall|n: int|
            fit(options, order) < n <= order.len() ==> !within(options, #[trigger] order.take(n)),
    decreases order.len(),
{
    if order.len() == 0 || within(options, order) {
        assert(order.take(order.len() as int) =~= order);
    } else {
        let front = order.drop_last();
        lemma_fit_is_longest(options, front);
        let f = fit(options, front) as int;
        assert(order.take(f) =~= front.take(f));
        assert forall|n: int| f < n <= order.len() implies !within(
            options,
            #[trigger] order.take(n),
        ) by {
            if n == order.len() {
                assert(order.take(n) =~= order);
            } else {
                assert(order.take(n) =~= front.take(n));
            }
        }
    }
}

} // verus!
