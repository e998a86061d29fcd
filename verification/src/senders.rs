//! The queues of the senders: for each sender its transactions by nonce.

use crate::order::{record, records};
use crate::types::{share, Address, SharedTransaction, U256, VerifiedTransaction};
use std::collections::HashMap;
use vstd::prelude::*;

verus! {

/// Whether the nonces of `queue` rise strictly from each entry to the next.
pub open spec fn ascending(queue: Seq<VerifiedTransaction>) -> bool {
    forall|i: int, j: int|
        0 <= i < j < queue.len() ==> (#[trigger] queue[i]).nonce.0 < (#[trigger] queue[j]).nonce.0
}

/// Whether `queue` can be the queue of `sender`: all its entries are of that
/// sender, and no nonce occurs twice.
pub open spec fn queue_of(sender: Address, queue: Seq<VerifiedTransaction>) -> bool {
    &&& forall|i: int| 0 <= i < queue.len() ==> (#[trigger] queue[i]).sender == sender
    &&& ascending(queue)
}

/// The number of entries of `queue` with a nonce below `nonce`.
pub open spec fn below(queue: Seq<VerifiedTransaction>, nonce: U256) -> nat
    decreases queue.len(),
{
    if queue.len() == 0 {
        0
    } else if queue.last().nonce.0 < nonce.0 {
        below(queue.drop_last(), nonce) + 1
    } else {
        below(queue.drop_last(), nonce)
    }
}

/// Whether an entry of `queue` has the nonce `nonce`.
pub open spec fn has_nonce(queue: Seq<VerifiedTransaction>, nonce: U256) -> bool {
    exists|i: int| 0 <= i < queue.len() && (#[trigger] queue[i]).nonce == nonce
}

/// Where the entries with a nonce below `nonce` are exactly the first `p`,
/// there are `p` of them.
pub proof fn lemma_below_is_split(queue: Seq<VerifiedTransaction>, nonce: U256, p: int)
    requires
        0 <= p <= queue.len(),
        forall|i: int| 0 <= i < p ==> (#[trigger] queue[i]).nonce.0 < nonce.0,
        forall|i: int| p <= i < queue.len() ==> (#[trigger] queue[i]).nonce.0 >= nonce.0,
    ensures
        below(queue, nonce) == p,
    decreases queue.len(),
{
    if queue.len() > 0 {
        let front = queue.drop_last();
        if p == queue.len() {
            lemma_below_is_split(front, nonce, p - 1);
        } else {
            lemma_below_is_split(front, nonce, p);
        }
    }
}

/// In an ascending queue the entries with a nonce below `nonce` are exactly
/// the first `below(queue, nonce)`.
pub proof fn lemma_below_splits(queue: Seq<VerifiedTransaction>, nonce: U256)
    requires
        ascending(queue),
    ensures
        below(queue, nonce) <= queue.len(),
        forall|i: int| 0 <= i < below(queue, nonce) ==> (#[trigger] queue[i]).nonce.0 < nonce.0,
        forall|i: int|
            below(queue, nonce) <= i < queue.len() ==> (#[trigger] queue[i]).nonce.0 >= nonce.0,
    decreases queue.len(),
{
    if queue.len() > 0 {
        let front = queue.drop_last();
        assert(ascending(front)) by {
            assert forall|i: int, j: int| 0 <= i < j < front.len() implies (
            #[trigger] front[i]).nonce.0 < (#[trigger] front[j]).nonce.0 by {
                assert(front[i] == queue[i] && front[j] == queue[j]);
            }
        }
        lemma_below_splits(front, nonce);
        if queue.last().nonce.0 < nonce.0 {
            assert forall|i: int| 0 <= i < front.len() implies (#[trigger] front[i]).nonce.0
                < nonce.0 by {
                assert(front[i] == queue[i]);
                assert(queue[i].nonce.0 < queue[queue.len() - 1].nonce.0);
            }
            lemma_below_is_split(front, nonce, front.len() as int);
            assert forall|i: int| 0 <= i < below(queue, nonce) implies (#[trigger] queue[i]).nonce.0
                < nonce.0 by {
                if i < front.len() {
                    assert(front[i] == queue[i]);
                }
            }
        } else {
            assert forall|i: int| 0 <= i < below(queue, nonce) implies (#[trigger] queue[i]).nonce.0
                < nonce.0 by {
                assert(front[i] == queue[i]);
            }
            assert forall|i: int| below(queue, nonce) <= i < queue.len() implies (
            #[trigger] queue[i]).nonce.0 >= nonce.0 by {
                if i < front.len() {
                    assert(front[i] == queue[i]);
                }
            }
        }
    }
}

/// The index of the first entry of `queue` whose nonce is not below `nonce`,
/// found by bisection.
fn first_not_below(queue: &Vec<SharedTransaction>, nonce: &U256) -> (p: usize)
    requires
        ascending(records(queue@)),
    ensures
        p == below(records(queue@), *nonce),
        p <= queue.len(),
        forall|i: int| 0 <= i < p ==> (#[trigger] records(queue@)[i]).nonce.0 < nonce.0,
        forall|i: int| p <= i < queue.len() ==> (#[trigger] records(queue@)[i]).nonce.0 >= nonce.0,
{
    let ghost q = records(queue@);
    let mut lo: usize = 0;
    let mut hi: usize = queue.len();
    while lo < hi
        invariant
            lo <= hi <= queue.len(),
            q == records(queue@),
            ascending(q),
            forall|i: int| 0 <= i < lo ==> (#[trigger] q[i]).nonce.0 < nonce.0,
            forall|i: int| hi <= i < q.len() ==> (#[trigger] q[i]).nonce.0 >= nonce.0,
        decreases hi - lo,
    {
        let mid = lo + (hi - lo) / 2;
        assert(record(queue@[mid as int]) == q[mid as int]);
        if queue[mid].nonce.0 < nonce.0 {
            assert forall|i: int| 0 <= i < mid + 1 implies (#[trigger] q[i]).nonce.0
                < nonce.0 by {
                if i < mid {
                    assert(q[i].nonce.0 < q[mid as int].nonce.0);
                }
            }
            lo = mid + 1;
        } else {
            assert forall|i: int| mid <= i < q.len() implies (#[trigger] q[i]).nonce.0
                >= nonce.0 by {
                if i > mid {
                    assert(q[mid as int].nonce.0 < q[i].nonce.0);
                }
            }
            hi = mid;
        }
    }
    proof {
        lemma_below_is_split(q, *nonce, lo as int);
    }
    lo
}

/// The queues of all senders. A sender without transactions has the empty
/// queue.
pub struct Senders {
    queues: HashMap<u64, Vec<SharedTransaction>>,
}

impl Senders {
    /// The queue of `sender`, lowest nonce first.
    pub closed spec fn queue(&self, sender: Address) -> Seq<VerifiedTransaction> {
        if self.queues@.contains_key(sender.0) {
            records(self.queues@[sender.0]@)
        } else {
            Seq::empty()
        }
    }

    /// Every queue holds its own sender's transactions, each nonce once, in
    /// rising order.
    pub open spec fn wf(&self) -> bool {
        forall|sender: Address| queue_of(sender, #[trigger] self.queue(sender))
    }

    /// No queues.
    pub fn new() -> (r: Self)
        ensures
            r.wf(),
            forall|sender: Address| #[trigger] r.queue(sender) == Seq::<VerifiedTransaction>::empty(),
    {
        Senders { queues: HashMap::new() }
    }

    /// The number of transactions of `sender`.
    pub fn count(&self, sender: &Address) -> (n: usize)
        ensures
            n == self.queue(*sender).len(),
    {
        match self.queues.get(&sender.0) {
            Some(queue) => queue.len(),
            None => 0,
        }
    }

    /// The transaction of `sender` with the nonce `nonce`, where there is one.
    pub fn find(&self, sender: &Address, nonce: &U256) -> (r: Option<SharedTransaction>)
        requires
            self.wf(),
        ensures
            match r {
                Some(handle) => self.queue(*sender).contains(*handle) && handle.nonce == *nonce,
                None => !has_nonce(self.queue(*sender), *nonce),
            },
    {
        let ghost q = self.queue(*sender);
        assert(queue_of(*sender, q));
        match self.queues.get(&sender.0) {
            Some(queue) => {
                let p = first_not_below(queue, nonce);
                if p < queue.len() && queue[p].nonce.0 == nonce.0 {
                    assert(q[p as int] == record(queue@[p as int]));
                    Some(share(&queue[p]))
                } else {
                    assert forall|i: int| 0 <= i < q.len() implies (#[trigger] q[i]).nonce
                        != *nonce by {
                        if i > p {
                            assert(q[p as int].nonce.0 < q[i].nonce.0);
                        }
                    }
                    None
                }
            },
            None => None,
        }
    }

    /// Handles to the transactions of `sender`, lowest nonce first.
    pub fn handles(&self, sender: &Address) -> (r: Vec<SharedTransaction>)
        ensures
            records(r@) == self.queue(*sender),
    {
        let mut out: Vec<SharedTransaction> = Vec::new();
        match self.queues.get(&sender.0) {
            Some(queue) => {
                let mut i: usize = 0;
                while i < queue.len()
                    invariant
                        i <= queue.len(),
                        out@ == queue@.take(i as int),
                    decreases queue.len() - i,
                {
                    out.push(share(&queue[i]));
                    assert(out@ =~= queue@.take(i + 1));
                    i += 1;
                }
                assert(out@ =~= queue@);
            },
            None => {
                assert(records(out@) =~= Seq::<VerifiedTransaction>::empty());
            },
        }
        out
    }

    /// Puts `tx` into its sender's queue. Where the queue holds a transaction
    /// with the same nonce, that one leaves and is returned.
    pub fn put(&mut self, tx: SharedTransaction) -> (r: Option<SharedTransaction>)
        requires
            old(self).wf(),
        ensures
            final(self).wf(),
            forall|sender: Address|
                sender != tx.sender ==> #[trigger] final(self).queue(sender) == old(self).queue(
                    sender,
                ),
            ({
                let before = old(self).queue(tx.sender);
                let k = below(before, tx.nonce) as int;
                match r {
                    Some(previous) => {
                        &&& k < before.len()
                        &&& before[k].nonce == tx.nonce
                        &&& *previous == before[k]
                        &&& final(self).queue(tx.sender) == before.update(k, *tx)
                    },
                    None => {
                        &&& !has_nonce(before, tx.nonce)
                        &&& k <= before.len()
                        &&& final(self).queue(tx.sender) == before.insert(k, *tx)
                    },
                }
            }),
    {
        let ghost new = record(tx);
        let ghost before = self.queue(tx.sender);
        assert(queue_of(new.sender, before));
        let key = tx.sender.0;
        let nonce = tx.nonce;
        let mut queue = match self.queues.remove(&key) {
            Some(queue) => queue,
            None => Vec::new(),
        };
        assert(records(queue@) =~= before);
        let p = first_not_below(&queue, &nonce);
        let occupied = p < queue.len() && queue[p].nonce.0 == nonce.0;
        let r = if occupied {
            assert(before[p as int] == record(queue@[p as int]));
            queue.push(tx);
            let previous = queue.swap_remove(p);
            assert(records(queue@) =~= before.update(p as int, new));
            Some(previous)
        } else {
            assert forall|i: int| 0 <= i < before.len() implies (#[trigger] before[i]).nonce
                != nonce by {
                if i > p {
                    assert(before[p as int].nonce.0 < before[i].nonce.0);
                }
            }
            queue.insert(p, tx);
            assert(records(queue@) =~= before.insert(p as int, new));
            None
        };
        let ghost after = records(queue@);
        self.queues.insert(key, queue);
        proof {
            assert(self.queue(new.sender) == after);
            assert forall|sender: Address| sender != new.sender implies #[trigger] self.queue(
                sender,
            ) == old(self).queue(sender) by {
                assert(sender.0 != key);
            }
            assert(queue_of(new.sender, after)) by {
                assert forall|i: int| 0 <= i < after.len() implies (#[trigger] after[i]).sender
                    == new.sender by {
                    if occupied {
                        if i != p {
                            assert(after[i] == before[i]);
                        }
                    } else {
                        if i < p {
                            assert(after[i] == before[i]);
                        } else if i > p {
                            assert(after[i] == before[i - 1]);
                        }
                    }
                }
                assert forall|i: int, j: int| 0 <= i < j < after.len() implies (
                #[trigger] after[i]).nonce.0 < (#[trigger] after[j]).nonce.0 by {
                    if occupied {
                        let bi = before[i];
                        let bj = before[j];
                        assert(bi.nonce.0 < bj.nonce.0);
                    } else {
                        let oi = if i < p { i } else { i - 1 };
                        let oj = if j < p { j } else { j - 1 };
                        if i != p {
                            assert(after[i] == before[oi]);
                        }
                        if j != p {
                            assert(after[j] == before[oj]);
                        }
                        if i != p && j != p {
                            assert(before[oi].nonce.0 < before[oj].nonce.0);
                        }
                    }
                }
            }
            assert forall|sender: Address| queue_of(sender, #[trigger] self.queue(sender)) by {
                if sender != new.sender {
                    assert(queue_of(sender, old(self).queue(sender)));
                }
            }
        }
        r
    }

    /// Takes the transaction of `sender` with the nonce `nonce` out of the
    /// queue and returns it, where there is one.
    pub fn take(&mut self, sender: &Address, nonce: &U256) -> (r: Option<SharedTransaction>)
        requires
            old(self).wf(),
        ensures
            final(self).wf(),
            forall|other: Address|
                other != *sender ==> #[trigger] final(self).queue(other) == old(self).queue(other),
            ({
                let before = old(self).queue(*sender);
                let k = below(before, *nonce) as int;
                match r {
                    Some(previous) => {
                        &&& k < before.len()
                        &&& before[k].nonce == *nonce
                        &&& *previous == before[k]
                        &&& final(self).queue(*sender) == before.remove(k)
                    },
                    None => {
                        &&& !has_nonce(before, *nonce)
                        &&& final(self).queue(*sender) == before
                    },
                }
            }),
    {
        let ghost before = self.queue(*sender);
        assert(queue_of(*sender, before));
        let key = sender.0;
        match self.queues.remove(&key) {
            None => {
                assert forall|other: Address| #[trigger] self.queue(other) == old(self).queue(
                    other,
                ) by {}
                assert forall|other: Address| queue_of(other, #[trigger] self.queue(other)) by {
                    assert(queue_of(other, old(self).queue(other)));
                }
                None
            },
            Some(mut queue) => {
                assert(records(queue@) =~= before);
                let p = first_not_below(&queue, nonce);
                let occupied = p < queue.len() && queue[p].nonce.0 == nonce.0;
                let r = if occupied {
                    assert(before[p as int] == record(queue@[p as int]));
                    let previous = queue.remove(p);
                    assert(records(queue@) =~= before.remove(p as int));
                    Some(previous)
                } else {
                    assert forall|i: int| 0 <= i < before.len() implies (#[trigger] before[i]).nonce
                        != *nonce by {
                        if i > p {
                            assert(before[p as int].nonce.0 < before[i].nonce.0);
                        }
                    }
                    None
                };
                let ghost after = records(queue@);
                if queue.len() > 0 {
                    self.queues.insert(key, queue);
                }
                proof {
                    assert(self.queue(*sender) =~= after);
                    assert forall|other: Address| other != *sender implies #[trigger] self.queue(
                        other,
                    ) == old(self).queue(other) by {
                        assert(other.0 != key);
                    }
                    assert(queue_of(*sender, after)) by {
                        if occupied {
                            assert forall|i: int| 0 <= i < after.len() implies (
                            #[trigger] after[i]).sender == *sender by {
                                let oi = if i < p { i } else { i + 1 };
                                assert(after[i] == before[oi]);
                            }
                            assert forall|i: int, j: int| 0 <= i < j < after.len() implies (
                            #[trigger] after[i]).nonce.0 < (#[trigger] after[j]).nonce.0 by {
                                let oi = if i < p { i } else { i + 1 };
                                let oj = if j < p { j } else { j + 1 };
                                assert(after[i] == before[oi] && after[j] == before[oj]);
                                assert(before[oi].nonce.0 < before[oj].nonce.0);
                            }
                        }
                    }
                    assert forall|other: Address| queue_of(other, #[trigger] self.queue(other)) by {
                        if other != *sender {
                            assert(queue_of(other, old(self).queue(other)));
                        }
                    }
                }
                r
            },
        }
    }
}

} // verus!
