//! How the senders' queues and the global order stay in step.

use crate::limits::{count_of, lemma_count_insert, lemma_count_remove};
use crate::order::{goes_before, lemma_goes_before_total, sorted};
use crate::scoring::Scoring;
use crate::senders::{ascending, below, lemma_below_splits, queue_of};
use crate::types::{Address, VerifiedTransaction, U256};
use vstd::prelude::*;

verus! {

/// The queue of each sender.
pub type Queues = spec_fn(Address) -> Seq<VerifiedTransaction>;

/// Whether `queues` hold exactly the entries of `order`, each in its
/// sender's queue.
pub open spec fn in_step(order: Seq<VerifiedTransaction>, queues: Queues) -> bool {
    &&& forall|i: int|
        0 <= i < order.len() ==> queues((#[trigger] order[i]).sender).contains(order[i])
    &&& forall|sender: Address, j: int|
        0 <= j < queues(sender).len() ==> order.contains(#[trigger] queues(sender)[j])
    &&& forall|sender: Address| (#[trigger] queues(sender)).len() == count_of(order, sender)
}

/// Whether every queue of `queues` holds its own sender's transactions,
/// each nonce once, in rising order.
pub open spec fn queues_sound(queues: Queues) -> bool {
    forall|sender: Address| queue_of(sender, #[trigger] queues(sender))
}

/// Whether no two entries of `order` have the same sender and nonce.
pub open spec fn one_per_slot(order: Seq<VerifiedTransaction>) -> bool {
    forall|i: int, j: int|
        0 <= i < j < order.len() ==> !((#[trigger] order[i]).sender == (#[trigger] order[j]).sender
            && order[i].nonce == order[j].nonce)
}

/// Whether an entry of `order` has the sender `sender` and the nonce `nonce`.
pub open spec fn holds_slot(
    order: Seq<VerifiedTransaction>,
    sender: Address,
    nonce: U256,
) -> bool {
    exists|i: int|
        0 <= i < order.len() && (#[trigger] order[i]).sender == sender && order[i].nonce == nonce
}

/// The index of an entry of `order` with the sender `sender` and the nonce
/// `nonce`, where there is one.
pub open spec fn slot_index(
    order: Seq<VerifiedTransaction>,
    sender: Address,
    nonce: U256,
) -> int {
    choose|i: int|
        0 <= i < order.len() && (#[trigger] order[i]).sender == sender && order[i].nonce == nonce
}

/// What a sequence holds after an insertion: the newcomer and what it held.
pub proof fn lemma_insert_contains<A>(s: Seq<A>, p: int, x: A, y: A)
    requires
        0 <= p <= s.len(),
    ensures
        s.insert(p, x).contains(y) <==> (y == x || s.contains(y)),
{
    let after = s.insert(p, x);
    if after.contains(y) {
        let j = choose|j: int| 0 <= j < after.len() && after[j] == y;
        if j < p {
            assert(s[j] == y);
        } else if j > p {
            assert(s[j - 1] == y);
        }
    }
    if y == x {
        assert(after[p] == y);
    }
    if s.contains(y) {
        let i = choose|i: int| 0 <= i < s.len() && s[i] == y;
        if i < p {
            assert(after[i] == y);
        } else {
            assert(after[i + 1] == y);
        }
    }
}

/// What a sequence holds after a removal: nothing new, and all it held but
/// what equals the entry that left.
pub proof fn lemma_remove_contains<A>(s: Seq<A>, k: int, y: A)
    requires
        0 <= k < s.len(),
    ensures
        s.remove(k).contains(y) ==> s.contains(y),
        s.contains(y) && y != s[k] ==> s.remove(k).contains(y),
{
    let after = s.remove(k);
    if after.contains(y) {
        let j = choose|j: int| 0 <= j < after.len() && after[j] == y;
        if j < k {
            assert(s[j] == y);
        } else {
            assert(s[j + 1] == y);
        }
    }
    if s.contains(y) && y != s[k] {
        let i = choose|i: int| 0 <= i < s.len() && s[i] == y;
        if i < k {
            assert(after[i] == y);
        } else {
            assert(after[i - 1] == y);
        }
    }
}

/// No record stands twice in a sorted order.
pub proof fn lemma_sorted_is_distinct<S: Scoring>(
    scoring: S,
    order: Seq<VerifiedTransaction>,
    i: int,
    j: int,
)
    requires
        sorted(scoring, order),
        0 <= i < order.len(),
        0 <= j < order.len(),
        i != j,
    ensures
        order[i] != order[j],
{
    lemma_goes_before_total(scoring, order[i], order[j]);
    if i < j {
        assert(goes_before(scoring, order[i], order[j]));
    } else {
        assert(goes_before(scoring, order[j], order[i]));
    }
}

/// No record stands twice in an ascending queue.
pub proof fn lemma_ascending_is_distinct(queue: Seq<VerifiedTransaction>, i: int, j: int)
    requires
        ascending(queue),
        0 <= i < queue.len(),
        0 <= j < queue.len(),
        i != j,
    ensures
        queue[i].nonce != queue[j].nonce,
{
    if i < j {
        assert(queue[i].nonce.0 < queue[j].nonce.0);
    } else {
        assert(queue[j].nonce.0 < queue[i].nonce.0);
    }
}

/// A sorted order in step with sound queues has one record for each sender
/// and nonce.
pub proof fn lemma_one_per_slot<S: Scoring>(
    scoring: S,
    order: Seq<VerifiedTransaction>,
    queues: Queues,
)
    requires
        sorted(scoring, order),
        queues_sound(queues),
        in_step(order, queues),
    ensures
        one_per_slot(order),
{
    assert forall|i: int, j: int| 0 <= i < j < order.len() implies !((#[trigger] order[i]).sender
        == (#[trigger] order[j]).sender && order[i].nonce == order[j].nonce) by {
        if order[i].sender == order[j].sender && order[i].nonce == order[j].nonce {
            let q = queues(order[i].sender);
            assert(queue_of(order[i].sender, q));
            assert(q.contains(order[i]));
            assert(q.contains(order[j]));
            let a = choose|a: int| 0 <= a < q.len() && q[a] == order[i];
            let b = choose|b: int| 0 <= b < q.len() && q[b] == order[j];
            if a != b {
                lemma_ascending_is_distinct(q, a, b);
            }
            lemma_sorted_is_distinct(scoring, order, i, j);
        }
    }
}

/// The queues after one of them took a newcomer in.
pub open spec fn queues_with(queues: Queues, k: int, tx: VerifiedTransaction) -> Queues {
    |sender: Address|
        if sender == tx.sender {
            queues(sender).insert(k, tx)
        } else {
            queues(sender)
        }
}

/// The queues after `sender`'s let its entry `k` go.
pub open spec fn queues_without(queues: Queues, sender: Address, k: int) -> Queues {
    |other: Address|
        if other == sender {
            queues(other).remove(k)
        } else {
            queues(other)
        }
}

/// Entering a transaction into the order and into its sender's queue keeps
/// the two in step.
pub proof fn lemma_enter_keeps_step(
    order: Seq<VerifiedTransaction>,
    queues: Queues,
    p: int,
    k: int,
    tx: VerifiedTransaction,
)
    requires
        in_step(order, queues),
        0 <= p <= order.len(),
        0 <= k <= queues(tx.sender).len(),
    ensures
        in_step(order.insert(p, tx), queues_with(queues, k, tx)),
{
    let after = order.insert(p, tx);
    let next = queues_with(queues, k, tx);
    assert forall|i: int| 0 <= i < after.len() implies next((#[trigger] after[i]).sender).contains(
        after[i],
    ) by {
        let e = after[i];
        if i != p {
            let oi = if i < p { i } else { i - 1 };
            assert(e == order[oi]);
            assert(queues(e.sender).contains(e));
        }
        if e.sender == tx.sender {
            lemma_insert_contains(queues(tx.sender), k, tx, e);
        }
    }
    assert forall|sender: Address, j: int| 0 <= j < next(sender).len() implies after.contains(
        #[trigger] next(sender)[j],
    ) by {
        let e = next(sender)[j];
        if sender == tx.sender && j != k {
            let oj = if j < k { j } else { j - 1 };
            assert(e == queues(sender)[oj]);
        }
        if !(sender == tx.sender && j == k) {
            assert(order.contains(e));
        }
        lemma_insert_contains(order, p, tx, e);
    }
    assert forall|sender: Address| (#[trigger] next(sender)).len() == count_of(after, sender) by {
        lemma_count_insert(order, p, tx, sender);
        assert(queues(sender).len() == count_of(order, sender));
    }
}

/// Taking a transaction out of the order and out of its sender's queue keeps
/// the two in step.
pub proof fn lemma_leave_keeps_step<S: Scoring>(
    scoring: S,
    order: Seq<VerifiedTransaction>,
    queues: Queues,
    i: int,
    k: int,
)
    requires
        sorted(scoring, order),
        queues_sound(queues),
        in_step(order, queues),
        0 <= i < order.len(),
        0 <= k < queues(order[i].sender).len(),
        queues(order[i].sender)[k] == order[i],
    ensures
        in_step(order.remove(i), queues_without(queues, order[i].sender, k)),
{
    let gone = order[i];
    let after = order.remove(i);
    let next = queues_without(queues, gone.sender, k);
    let q = queues(gone.sender);
    assert(queue_of(gone.sender, q));
    assert forall|m: int| 0 <= m < after.len() implies next((#[trigger] after[m]).sender).contains(
        after[m],
    ) by {
        let e = after[m];
        let om = if m < i { m } else { m + 1 };
        assert(e == order[om]);
        lemma_sorted_is_distinct(scoring, order, om, i);
        assert(queues(e.sender).contains(e));
        if e.sender == gone.sender {
            lemma_remove_contains(q, k, e);
        }
    }
    assert forall|sender: Address, j: int| 0 <= j < next(sender).len() implies after.contains(
        #[trigger] next(sender)[j],
    ) by {
        let e = next(sender)[j];
        if sender == gone.sender {
            let oj = if j < k { j } else { j + 1 };
            assert(e == q[oj]);
            lemma_ascending_is_distinct(q, oj, k);
            assert(order.contains(e));
        } else {
            assert(e == queues(sender)[j]);
            assert(queue_of(sender, queues(sender)));
            assert(e.sender == sender);
            assert(order.contains(e));
        }
        lemma_remove_contains(order, i, e);
    }
    assert forall|sender: Address| (#[trigger] next(sender)).len() == count_of(after, sender) by {
        lemma_count_remove(order, i, sender);
        assert(queues(sender).len() == count_of(order, sender));
    }
}

/// The queues after one of them exchanged its entry `k` for a newcomer.
pub open spec fn queues_exchanged(queues: Queues, k: int, tx: VerifiedTransaction) -> Queues {
    |sender: Address|
        if sender == tx.sender {
            queues(sender).update(k, tx)
        } else {
            queues(sender)
        }
}

/// In sound queues in step with the order, an entry of the order stands in
/// its sender's queue at the index that counts the lower nonces.
pub proof fn lemma_queue_index<S: Scoring>(
    scoring: S,
    order: Seq<VerifiedTransaction>,
    queues: Queues,
    i: int,
)
    requires
        queues_sound(queues),
        in_step(order, queues),
        0 <= i < order.len(),
    ensures
        below(queues(order[i].sender), order[i].nonce) < queues(
            order[i].sender,
        ).len(),
        queues(order[i].sender)[below(queues(order[i].sender), order[i].nonce) as int]
            == order[i],
{
    let e = order[i];
    let q = queues(e.sender);
    let k = below(q, e.nonce) as int;
    assert(queue_of(e.sender, q));
    assert(q.contains(e));
    let a = choose|a: int| 0 <= a < q.len() && q[a] == e;
    lemma_below_splits(q, e.nonce);
    if a < k {
        assert(q[a].nonce.0 < e.nonce.0);
    } else if a > k {
        assert(q[k].nonce.0 < q[a].nonce.0);
    }
}

/// Exchanging an entry of the order for a newcomer to the same queue, which
/// takes the entry's index there, keeps the order and the queues in step.
pub proof fn lemma_exchange_keeps_step<S: Scoring>(
    scoring: S,
    order: Seq<VerifiedTransaction>,
    queues: Queues,
    i: int,
    k: int,
    p: int,
    tx: VerifiedTransaction,
)
    requires
        sorted(scoring, order),
        queues_sound(queues),
        in_step(order, queues),
        0 <= i < order.len(),
        order[i].sender == tx.sender,
        0 <= k < queues(tx.sender).len(),
        queues(tx.sender)[k] == order[i],
        0 <= p < order.len(),
    ensures
        in_step(order.remove(i).insert(p, tx), queues_exchanged(queues, k, tx)),
{
    lemma_leave_keeps_step(scoring, order, queues, i, k);
    let without = queues_without(queues, tx.sender, k);
    lemma_enter_keeps_step(order.remove(i), without, p, k, tx);
    assert(queues(tx.sender).remove(k).insert(k, tx) =~= queues(tx.sender).update(k, tx));
    assert(queues_with(without, k, tx) =~= queues_exchanged(queues, k, tx));
}

} // verus!
