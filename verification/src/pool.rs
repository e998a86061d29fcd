//! The pool: the global order and the senders' queues kept in step, within
//! the configured limits.

use crate::index::{
    holds_slot, in_step, lemma_enter_keeps_step, lemma_exchange_keeps_step,
    lemma_leave_keeps_step, lemma_one_per_slot, lemma_queue_index, queues_exchanged,
    one_per_slot, queues_sound, queues_with, queues_without, slot_index, Queues,
};
use crate::candidates::Candidates;
use crate::error::Error;
use crate::limits::{
    cost_of, count_of, fit, lemma_cost_insert, lemma_cost_remove, lemma_within_take,
    sender_has_room, within, Options,
};
use crate::listener::{notices, notify, Event, Listener, Notice, Removal};
use crate::order::{
    first_with_hash, id_is_new, ids_below, ids_distinct, lemma_ids_after_insert,
    lemma_ids_after_remove, place, placed, record, records, sorted,
};
use crate::ready::{Readiness, Ready};
use crate::ranking::Ranking;
use crate::scoring::{Scoring, ScoringChoice};
use crate::senders::{below, queue_of, Senders};
use crate::traversal::{step, traverse};
use crate::types::{
    share, Address, SharedTransaction, UnverifiedTransaction, VerifiedTransaction, H256, U256,
};
use crate::verify::Verifier;
use std::collections::HashSet;
use std::sync::Arc;
use vstd::prelude::*;

verus! {

/// `tx` with the insertion number `id`.
pub open spec fn stamped(tx: VerifiedTransaction, id: u64) -> VerifiedTransaction {
    VerifiedTransaction {
        hash: tx.hash,
        nonce: tx.nonce,
        gas_price: tx.gas_price,
        gas: tx.gas,
        sender: tx.sender,
        insertion_id: id,
    }
}

/// What is said when the entries of `order` from index `from` on are
/// evicted: one `Dropped` for each, the last entry first.
pub open spec fn evictions(order: Seq<VerifiedTransaction>, from: int) -> Seq<Notice> {
    Seq::new((order.len() - from) as nat, |i: int| Notice::Dropped(order[order.len() - 1 - i]))
}

/// What becomes of the pool, and what is handed back, once `new` has
/// entered at index `p` and `entered` is the order with it: `after` is the
/// part of `entered` that fits, and the result is a handle to `new` where
/// `new` is in that part, `PoolFull` where it is not.
pub open spec fn taken_in<E>(
    limits: Options,
    entered: Seq<VerifiedTransaction>,
    p: int,
    new: VerifiedTransaction,
    after: Seq<VerifiedTransaction>,
    r: Result<SharedTransaction, Error<E>>,
) -> bool {
    let n = fit(limits, entered) as int;
    &&& after == entered.take(n)
    &&& if p < n {
        r is Ok && record(r->Ok_0) == new
    } else {
        r == Err::<SharedTransaction, Error<E>>(Error::PoolFull)
    }
}

/// What is said once `new` has entered at index `p`, `entered` being the
/// order with it and `ousted` the transaction it took the slot of: one
/// `Added`, then a `Dropped` for each entry behind the part of `entered`
/// that fits; or, where `new` is not in that part, a `Dropped` for each
/// entry behind `new`, and one `Rejected`.
pub open spec fn said_of_entry(
    limits: Options,
    entered: Seq<VerifiedTransaction>,
    p: int,
    new: VerifiedTransaction,
    ousted: Option<VerifiedTransaction>,
) -> Seq<Notice> {
    let n = fit(limits, entered) as int;
    if p < n {
        seq![Notice::Added(new, ousted)] + evictions(entered, n)
    } else {
        seq![Notice::Added(new, ousted)] + evictions(entered, p + 1) + seq![Notice::Rejected(new)]
    }
}

/// What is said of `tx` when it is taken out for `reason`.
pub open spec fn parting(reason: Removal, tx: VerifiedTransaction) -> Notice {
    match reason {
        Removal::Cancelled => Notice::Cancelled(tx),
        Removal::Invalid => Notice::Invalid(tx),
    }
}

/// A pool of verified transactions under the scoring policy `S`.
pub struct Pool<S: Scoring> {
    ranking: Ranking<S>,
    senders: Senders,
    cost: u128,
    counter: u64,
    options: Options,
}

impl<S: Scoring> View for Pool<S> {
    type V = Seq<VerifiedTransaction>;

    /// The transactions of the pool, best first.
    closed spec fn view(&self) -> Seq<VerifiedTransaction> {
        self.ranking.order()
    }
}

impl<S: Scoring> Pool<S> {
    /// The scoring policy.
    pub closed spec fn policy(&self) -> S {
        self.ranking.policy()
    }

    /// The score table.
    pub closed spec fn scores(&self) -> Seq<S::Score> {
        self.ranking.scores()
    }

    /// The limits.
    pub closed spec fn limits(&self) -> Options {
        self.options
    }

    /// The running total of the cost.
    pub closed spec fn total_cost(&self) -> nat {
        self.cost as nat
    }

    /// The insertion number that the next accepted transaction gets.
    pub closed spec fn next_id(&self) -> u64 {
        self.counter
    }

    /// The queue of each sender, lowest nonce first.
    pub closed spec fn queues(&self) -> Queues {
        |sender: Address| self.senders.queue(sender)
    }

    /// The senders' queues are sound and in step with the global order.
    pub closed spec fn indexed(&self) -> bool {
        &&& self.senders.wf()
        &&& in_step(self.ranking.order(), self.queues())
    }

    /// What holds of the pool but for its limits: the order is sorted, it has
    /// a score for each entry and the policy finds the scores up to date, the
    /// queues are in step with it, the cost is tracked, and every insertion
    /// number was given out before, once.
    pub open spec fn sound(&self) -> bool {
        &&& self.indexed()
        &&& sorted(self.policy(), self@)
        &&& self.scores().len() == self@.len()
        &&& self.policy().scored(self@, self.scores())
        &&& self.total_cost() == cost_of(self@)
        &&& ids_below(self@, self.next_id())
        &&& ids_distinct(self@)
    }

    /// The pool's invariant: it is sound and within its limits.
    pub open spec fn wf(&self) -> bool {
        &&& self.sound()
        &&& within(self.limits(), self@)
    }

    /// An empty pool under `scoring`, with the limits `options`.
    pub fn new(scoring: S, options: Options) -> (pool: Self)
        ensures
            pool.wf(),
            pool@ == Seq::<VerifiedTransaction>::empty(),
            pool.policy() == scoring,
            pool.limits() == options,
            pool.next_id() == 0,
    {
        let pool = Pool {
            ranking: Ranking::new(scoring),
            senders: Senders::new(),
            cost: 0,
            counter: 0,
            options,
        };
        assert(pool.indexed()) by {
            assert forall|sender: Address| (#[trigger] pool.queues()(sender)).len() == count_of(
                pool.ranking.order(),
                sender,
            ) by {
                assert(pool.senders.queue(sender) == Seq::<VerifiedTransaction>::empty());
            }
        }
        pool
    }

    /// The number of transactions in the pool.
    pub fn len(&self) -> (n: usize)
        ensures
            n == self@.len(),
    {
        self.ranking.len()
    }

    /// Whether the pool holds no transaction.
    pub fn is_empty(&self) -> (r: bool)
        ensures
            r == (self@.len() == 0),
    {
        self.ranking.len() == 0
    }

    /// The limits the pool was made with.
    pub fn options(&self) -> (r: Options)
        ensures
            r == self.limits(),
    {
        self.options
    }

    /// The scoring policy.
    pub fn scoring(&self) -> (r: &S)
        ensures
            *r == self.policy(),
    {
        self.ranking.scoring()
    }

    /// The handle at index `i` of the global order.
    pub fn get(&self, i: usize) -> (handle: &SharedTransaction)
        requires
            i < self@.len(),
        ensures
            **handle == self@[i as int],
    {
        self.ranking.get(i)
    }

    /// The score at index `i` of the score table.
    pub fn score(&self, i: usize) -> (score: &S::Score)
        requires
            i < self.scores().len(),
        ensures
            *score == self.scores()[i as int],
    {
        self.ranking.score(i)
    }

    /// Handles to all transactions of the pool, best first.
    pub fn transactions(&self) -> (r: Vec<SharedTransaction>)
        ensures
            records(r@) == self@,
    {
        self.ranking.handles()
    }

    /// The total cost of the transactions in the pool.
    pub fn cost(&self) -> (r: u128)
        ensures
            r == self.total_cost(),
    {
        self.cost
    }

    /// The insertion number that the next accepted transaction gets.
    pub fn counter(&self) -> (r: u64)
        ensures
            r == self.next_id(),
    {
        self.counter
    }

    /// The transaction of `sender` with the nonce `nonce`, where the pool
    /// holds one.
    pub fn find(&self, sender: &Address, nonce: &U256) -> (r: Option<SharedTransaction>)
        requires
            self.wf(),
        ensures
            match r {
                Some(handle) => {
                    &&& holds_slot(self@, *sender, *nonce)
                    &&& *handle == self@[slot_index(self@, *sender, *nonce)]
                },
                None => !holds_slot(self@, *sender, *nonce),
            },
    {
        let r = self.senders.find(sender, nonce);
        proof {
            self.queues_are_sound();
            self.lemma_one_record_per_slot();
            let order = self@;
            let q = self.queues()(*sender);
            assert(queue_of(*sender, q));
            if r is Some {
                let a = choose|a: int| 0 <= a < q.len() && q[a] == record(r->Some_0);
                assert(order.contains(q[a]));
                let i = choose|i: int| 0 <= i < order.len() && order[i] == q[a];
                assert(order[i].sender == *sender && order[i].nonce == *nonce);
                let s = slot_index(order, *sender, *nonce);
                assert(s == i);
            } else if holds_slot(order, *sender, *nonce) {
                let i = slot_index(order, *sender, *nonce);
                assert(q.contains(order[i]));
                let a = choose|a: int| 0 <= a < q.len() && q[a] == order[i];
                assert(q[a].nonce == *nonce);
            }
        }
        r
    }

    /// The number of transactions of `sender` in the pool.
    pub fn sender_count(&self, sender: &Address) -> (n: usize)
        requires
            self.wf(),
        ensures
            n == count_of(self@, *sender),
    {
        proof {
            assert(self.queues()(*sender).len() == count_of(self@, *sender));
        }
        self.senders.count(sender)
    }

    /// Handles to the transactions of `sender`, lowest nonce first: the
    /// sender's queue. It holds the pool's transactions of that sender and
    /// no others, each nonce once.
    pub fn sender_queue(&self, sender: &Address) -> (r: Vec<SharedTransaction>)
        requires
            self.wf(),
        ensures
            queue_of(*sender, records(r@)),
            r@.len() == count_of(self@, *sender),
            forall|tx: VerifiedTransaction|
                records(r@).contains(tx) <==> self@.contains(tx) && tx.sender == *sender,
    {
        let r = self.senders.handles(sender);
        proof {
            self.queues_are_sound();
            let q = self.queues()(*sender);
            assert(q == records(r@));
            assert(queue_of(*sender, q));
            assert(q.len() == count_of(self@, *sender));
            assert forall|tx: VerifiedTransaction|
                q.contains(tx) <==> self@.contains(tx) && tx.sender == *sender by {
                if q.contains(tx) {
                    let a = choose|a: int| 0 <= a < q.len() && q[a] == tx;
                    assert(self@.contains(q[a]));
                }
                if self@.contains(tx) && tx.sender == *sender {
                    let i = choose|i: int| 0 <= i < self@.len() && self@[i] == tx;
                    assert(self.queues()(self@[i].sender).contains(self@[i]));
                }
            }
        }
        r
    }

    /// The queues, seen as a function, are sound where the index is.
    proof fn queues_are_sound(&self)
        requires
            self.senders.wf(),
        ensures
            queues_sound(self.queues()),
    {
        assert forall|sender: Address| queue_of(sender, #[trigger] self.queues()(sender)) by {
            assert(queue_of(sender, self.senders.queue(sender)));
        }
    }

    /// In a pool that meets its invariant, no two transactions have the same
    /// sender and nonce.
    pub proof fn lemma_one_record_per_slot(&self)
        requires
            self.wf(),
        ensures
            one_per_slot(self@),
    {
        self.queues_are_sound();
        lemma_one_per_slot(self.policy(), self@, self.queues());
    }

    /// Takes the entry at index `i` out of the order and out of its sender's
    /// queue, and takes its cost off the total.
    fn leave(&mut self, i: usize) -> (gone: SharedTransaction)
        requires
            old(self).sound(),
            i < old(self)@.len(),
        ensures
            final(self).sound(),
            final(self)@ == old(self)@.remove(i as int),
            *gone == old(self)@[i as int],
            final(self).policy() == old(self).policy(),
            final(self).limits() == old(self).limits(),
            final(self).next_id() == old(self).next_id(),
    {
        let ghost order = self@;
        let ghost queues = self.queues();
        let ghost k = below(queues(order[i as int].sender), order[i as int].nonce) as int;
        proof {
            self.queues_are_sound();
            lemma_queue_index(self.policy(), order, queues, i as int);
        }
        let gone = self.ranking.remove(i);
        let found = self.senders.take(&gone.sender, &gone.nonce);
        proof {
            assert(found is Some);
            lemma_leave_keeps_step(self.policy(), order, queues, i as int, k);
            assert(self.queues() =~= queues_without(queues, gone.sender, k));
            lemma_cost_remove(order, i as int);
            lemma_ids_after_remove(order, i as int, self.counter, 0);
        }
        self.cost = self.cost - gone.gas.0 as u128;
        gone
    }

    /// Enters `new`, whose slot is free, into the order and into its
    /// sender's queue, and adds its cost to the total. Returns the index it
    /// entered at.
    fn enter(&mut self, new: SharedTransaction) -> (p: usize)
        requires
            old(self).wf(),
            !holds_slot(old(self)@, new.sender, new.nonce),
            id_is_new(old(self)@, new.insertion_id),
            new.insertion_id < old(self).next_id(),
        ensures
            final(self).sound(),
            p == place(old(self).policy(), old(self)@, *new),
            p <= old(self)@.len(),
            final(self)@ == placed(old(self).policy(), old(self)@, *new),
            final(self).policy() == old(self).policy(),
            final(self).limits() == old(self).limits(),
            final(self).next_id() == old(self).next_id(),
    {
        let ghost order = self@;
        let ghost queues = self.queues();
        let ghost tx = record(new);
        let ghost q = queues(tx.sender);
        let ghost k = below(q, tx.nonce) as int;
        let gas = new.gas.0;
        let p = self.ranking.insert(share(&new));
        let previous = self.senders.put(new);
        proof {
            self.queues_are_sound();
            if previous is Some {
                assert(order.contains(q[k]));
                let i = choose|i: int| 0 <= i < order.len() && order[i] == q[k];
                assert(queue_of(tx.sender, old(self).senders.queue(tx.sender)));
                assert(order[i].sender == tx.sender && order[i].nonce == tx.nonce);
                assert(false);
            }
            lemma_enter_keeps_step(order, queues, p as int, k, tx);
            assert(self.queues() =~= queues_with(queues, k, tx));
            lemma_cost_insert(order, p as int, tx);
            lemma_ids_after_insert(order, p as int, tx, self.counter);
        }
        self.cost = self.cost + gas as u128;
        p
    }

    /// Puts `new` in the place of the entry at index `i`, which holds the
    /// same slot, in the order and in the sender's queue, and exchanges the
    /// costs. Returns the handle that left and the index `new` ended up at.
    fn supersede(&mut self, i: usize, new: SharedTransaction) -> (r: (SharedTransaction, usize))
        requires
            old(self).wf(),
            i < old(self)@.len(),
            old(self)@[i as int].sender == new.sender,
            old(self)@[i as int].nonce == new.nonce,
            id_is_new(old(self)@, new.insertion_id),
            new.insertion_id < old(self).next_id(),
        ensures
            final(self).sound(),
            *r.0 == old(self)@[i as int],
            r.1 == place(old(self).policy(), old(self)@.remove(i as int), *new),
            r.1 < old(self)@.len(),
            final(self)@ == placed(old(self).policy(), old(self)@.remove(i as int), *new),
            final(self).policy() == old(self).policy(),
            final(self).limits() == old(self).limits(),
            final(self).next_id() == old(self).next_id(),
    {
        let ghost order = self@;
        let ghost rest = order.remove(i as int);
        let ghost queues = self.queues();
        let ghost tx = record(new);
        let ghost q = queues(tx.sender);
        let ghost k = below(q, tx.nonce) as int;
        let gas = new.gas.0;
        proof {
            self.queues_are_sound();
            lemma_queue_index(self.policy(), order, queues, i as int);
        }
        let (gone, p) = self.ranking.replace(i, share(&new));
        let previous = self.senders.put(new);
        proof {
            assert(previous is Some) by {
                if previous is None {
                    assert(q[k].nonce == tx.nonce);
                }
            }
            assert(in_step(self@, self.queues())) by {
                lemma_exchange_keeps_step(
                    old(self).policy(),
                    order,
                    queues,
                    i as int,
                    k,
                    p as int,
                    tx,
                );
                assert(self.queues() =~= queues_exchanged(queues, k, tx));
            }
            assert(self.cost - gone.gas.0 + gas == cost_of(self@) && self.cost >= gone.gas.0) by {
                lemma_cost_remove(order, i as int);
                lemma_cost_insert(rest, p as int, tx);
            }
            assert(ids_below(self@, self.counter) && ids_distinct(self@)) by {
                lemma_ids_after_remove(order, i as int, self.counter, tx.insertion_id);
                lemma_ids_after_insert(rest, p as int, tx, self.counter);
            }
        }
        self.cost = self.cost - gone.gas.0 as u128 + gas as u128;
        (gone, p)
    }

    /// Brings the pool back within its limits after `new` entered at index
    /// `p`: evicts the last entry while the pool is over a limit. Where the
    /// last entry is `new` itself, takes it out and turns it away.
    fn settle(&mut self, new: SharedTransaction, p: usize, events: &mut Vec<Event>) -> (r: Result<
        SharedTransaction,
        Error,
    >)
        requires
            old(self).sound(),
            p < old(self)@.len(),
            old(self)@[p as int] == *new,
            within(old(self).limits(), old(self)@.take(p as int)),
        ensures
            final(self).wf(),
            final(self).policy() == old(self).policy(),
            final(self).limits() == old(self).limits(),
            final(self).next_id() == old(self).next_id(),
            final(self)@ == old(self)@.take(fit(old(self).limits(), old(self)@) as int),
            p < fit(old(self).limits(), old(self)@) ==> r == Ok::<SharedTransaction, Error>(new),
            p >= fit(old(self).limits(), old(self)@) ==> r == Err::<SharedTransaction, Error>(
                Error::PoolFull,
            ),
            notices(final(events)@) == notices(old(events)@) + evictions(
                old(self)@,
                if p < fit(old(self).limits(), old(self)@) {
                    fit(old(self).limits(), old(self)@) as int
                } else {
                    p + 1
                },
            ) + (if p < fit(old(self).limits(), old(self)@) {
                Seq::<Notice>::empty()
            } else {
                seq![Notice::Rejected(*new)]
            }),
    {
        let ghost entered = self@;
        let ghost limits = self.limits();
        let ghost said = notices(events@);
        proof {
            assert(entered.take(entered.len() as int) =~= entered);
            assert(evictions(entered, entered.len() as int) =~= Seq::<Notice>::empty());
            assert(said + Seq::<Notice>::empty() =~= said);
        }
        while self.ranking.len() > self.options.max_count || self.cost
            > self.options.max_cost as u128
            invariant
                self.sound(),
                entered == old(self)@,
                limits == old(self).limits(),
                said == notices(old(events)@),
                self.policy() == old(self).policy(),
                self.limits() == limits,
                self.next_id() == old(self).next_id(),
                p < self@.len() <= entered.len(),
                self@ == entered.take(self@.len() as int),
                entered[p as int] == *new,
                within(limits, entered.take(p as int)),
                fit(limits, entered) == fit(limits, self@),
                notices(events@) == said + evictions(entered, self@.len() as int),
            decreases self@.len(),
        {
            let ghost current = self@;
            let ghost heard = events@;
            let last = self.ranking.len() - 1;
            let gone = self.leave(last);
            proof {
                assert(!within(limits, current));
                assert(current.remove(last as int) =~= current.drop_last());
                assert(self@ =~= entered.take(last as int));
                assert(record(gone) == entered[last as int]);
            }
            if last == p {
                events.push(Event::Rejected(gone));
                proof {
                    assert(fit(limits, self@) == p) by {
                        assert(within(limits, self@));
                    }
                    assert(notices(events@) =~= notices(heard).push(Notice::Rejected(*new)));
                    assert(notices(heard).push(Notice::Rejected(*new)) =~= said + evictions(
                        entered,
                        p + 1,
                    ) + seq![Notice::Rejected(*new)]);
                }
                return Err(Error::PoolFull);
            }
            events.push(Event::Dropped(gone));
            proof {
                assert(notices(events@) =~= notices(heard).push(
                    Notice::Dropped(entered[last as int]),
                ));
                assert(evictions(entered, last as int) =~= evictions(
                    entered,
                    current.len() as int,
                ).push(Notice::Dropped(entered[last as int])));
                assert(notices(events@) =~= said + evictions(entered, last as int));
            }
        }
        proof {
            assert(within(limits, self@));
            assert(said + evictions(entered, self@.len() as int) + Seq::<Notice>::empty() =~= said
                + evictions(entered, self@.len() as int));
        }
        Ok(new)
    }

    /// Whether `import` of `tx` finds the slot of `tx` occupied and the
    /// policy lets `tx` replace the occupant.
    pub open spec fn replaces(&self, tx: VerifiedTransaction) -> bool {
        let new = stamped(tx, self.next_id());
        &&& holds_slot(self@, tx.sender, tx.nonce)
        &&& self.policy().spec_decide(self@[slot_index(self@, tx.sender, tx.nonce)], new)
            == ScoringChoice::ReplaceOld
    }

    /// Whether `import` of `tx` finds the slot of `tx` free and room for one
    /// more transaction of its sender.
    pub open spec fn enters(&self, tx: VerifiedTransaction) -> bool {
        &&& !holds_slot(self@, tx.sender, tx.nonce)
        &&& sender_has_room(self.limits(), self@, tx.sender)
    }

    /// The order that `import` of `tx` makes before it settles the limits:
    /// `tx`, with its insertion number, at its place, the occupant of its
    /// slot being gone where there was one.
    pub open spec fn entered(&self, tx: VerifiedTransaction) -> Seq<VerifiedTransaction> {
        let new = stamped(tx, self.next_id());
        if holds_slot(self@, tx.sender, tx.nonce) {
            placed(self.policy(), self@.remove(slot_index(self@, tx.sender, tx.nonce)), new)
        } else {
            placed(self.policy(), self@, new)
        }
    }

    /// The index of `tx` in that order.
    pub open spec fn entry(&self, tx: VerifiedTransaction) -> int {
        let new = stamped(tx, self.next_id());
        if holds_slot(self@, tx.sender, tx.nonce) {
            place(self.policy(), self@.remove(slot_index(self@, tx.sender, tx.nonce)), new) as int
        } else {
            place(self.policy(), self@, new) as int
        }
    }

    /// What taking `tx` in makes of this pool: `after` is the pool then, `r`
    /// the answer. The next insertion number is used up. Where `tx` replaces
    /// the occupant of its slot or enters a free one, the pool is what fits
    /// of the order with `tx`, and the answer is a handle to `tx` where it
    /// stays, `PoolFull` where it does not. Where it lost the slot to the
    /// occupant, the pool is as it was and the answer is `NotCompetitive`.
    /// Where its sender has no room, the pool is as it was and the answer is
    /// `PoolFull`.
    pub open spec fn imported<E>(
        &self,
        tx: VerifiedTransaction,
        after: Self,
        r: Result<SharedTransaction, Error<E>>,
    ) -> bool {
        let new = stamped(tx, self.next_id());
        &&& after.policy() == self.policy()
        &&& after.limits() == self.limits()
        &&& after.next_id() == self.next_id() + 1
        &&& if self.replaces(tx) || self.enters(tx) {
            taken_in(self.limits(), self.entered(tx), self.entry(tx), new, after@, r)
        } else if holds_slot(self@, tx.sender, tx.nonce) {
            after@ == self@ && r == Err::<SharedTransaction, Error<E>>(Error::NotCompetitive)
        } else {
            after@ == self@ && r == Err::<SharedTransaction, Error<E>>(Error::PoolFull)
        }
    }

    /// What is said when `tx` is taken in: where it replaces the occupant of
    /// its slot or enters a free one, that it was added, what was evicted
    /// after it, and that it was rejected where it did not stay; else only
    /// that it was rejected.
    pub open spec fn said_on_import(&self, tx: VerifiedTransaction) -> Seq<Notice> {
        let new = stamped(tx, self.next_id());
        if self.replaces(tx) {
            said_of_entry(
                self.limits(),
                self.entered(tx),
                self.entry(tx),
                new,
                Some(self@[slot_index(self@, tx.sender, tx.nonce)]),
            )
        } else if self.enters(tx) {
            said_of_entry(self.limits(), self.entered(tx), self.entry(tx), new, None)
        } else {
            seq![Notice::Rejected(new)]
        }
    }

    /// What `import` of `tx` makes of this pool and hands back: the pool and
    /// the answer as `imported` has them, and the events that say what
    /// happened, in the order it happened.
    pub open spec fn imports(
        &self,
        tx: VerifiedTransaction,
        after: Self,
        r: (Result<SharedTransaction, Error>, Vec<Event>),
    ) -> bool {
        &&& self.imported(tx, after, r.0)
        &&& notices(r.1@) == self.said_on_import(tx)
    }

    /// Takes a verified transaction into the pool, or turns it away.
    ///
    /// The transaction gets the next insertion number. Where its sender and
    /// nonce are those of a transaction in the pool, the policy decides: the
    /// newcomer replaces the occupant, or it is turned away as not
    /// competitive (so too where the policy would have both stay). Where the
    /// slot is free but the sender has reached its cap, the newcomer is
    /// turned away, the pool being full. Else it enters at its place. After
    /// it entered, the worst entries are evicted until the pool is within
    /// its limits; where the newcomer is the worst, it is taken out again and
    /// turned away, the pool being full.
    ///
    /// Returns the handle of the accepted transaction, or the error, and the
    /// events in the order they happened.
    pub fn import(&mut self, tx: VerifiedTransaction) -> (r: (
        Result<SharedTransaction, Error>,
        Vec<Event>,
    ))
        requires
            old(self).wf(),
            old(self).next_id() < u64::MAX,
        ensures
            final(self).wf(),
            old(self).imports(tx, *final(self), r),
    {
        let ghost before = self@;
        let ghost policy = self.policy();
        let ghost limits = self.limits();
        let ghost queues = self.queues();
        let id = self.counter;
        self.counter = id + 1;
        let new = Arc::new(
            VerifiedTransaction {
                hash: tx.hash,
                nonce: tx.nonce,
                gas_price: tx.gas_price,
                gas: tx.gas,
                sender: tx.sender,
                insertion_id: id,
            },
        );
        let ghost fresh = record(new);
        let mut events: Vec<Event> = Vec::new();
        proof {
            self.queues_are_sound();
            lemma_one_per_slot(policy, before, queues);
            assert(id_is_new(before, id));
            assert(notices(events@) =~= Seq::<Notice>::empty());
        }
        match self.senders.find(&new.sender, &new.nonce) {
            Some(occupant) => {
                proof {
                    let q = queues(fresh.sender);
                    assert(queue_of(fresh.sender, q));
                    let a = choose|a: int| 0 <= a < q.len() && q[a] == record(occupant);
                    assert(before.contains(q[a]));
                }
                let i = self.ranking.index_of(&occupant).unwrap();
                proof {
                    assert(before[i as int].sender == fresh.sender && before[i as int].nonce
                        == fresh.nonce);
                    let s = slot_index(before, fresh.sender, fresh.nonce);
                    assert(s == i);
                }
                match self.ranking.scoring().decide(&occupant, &new) {
                    ScoringChoice::ReplaceOld => {
                        let ghost rest = before.remove(i as int);
                        let (gone, p) = self.supersede(i, share(&new));
                        events.push(Event::Added(share(&new), Some(gone)));
                        proof {
                            assert(within(limits, self@.take(p as int))) by {
                                lemma_cost_remove(before, i as int);
                                lemma_within_take(limits, rest, p as int);
                                assert(self@.take(p as int) =~= rest.take(p as int));
                            }
                            assert(notices(events@) =~= seq![
                                Notice::Added(fresh, Some(before[i as int])),
                            ]);
                        }
                        let r = self.settle(new, p, &mut events);
                        (r, events)
                    },
                    _ => {
                        events.push(Event::Rejected(new));
                        proof {
                            assert(notices(events@) =~= seq![Notice::Rejected(fresh)]);
                        }
                        (Err(Error::NotCompetitive), events)
                    },
                }
            },
            None => {
                proof {
                    if holds_slot(before, fresh.sender, fresh.nonce) {
                        let i = slot_index(before, fresh.sender, fresh.nonce);
                        let q = queues(fresh.sender);
                        assert(q.contains(before[i]));
                        let a = choose|a: int| 0 <= a < q.len() && q[a] == before[i];
                        assert(q[a].nonce == fresh.nonce);
                        assert(false);
                    }
                    assert(queues(fresh.sender).len() == count_of(before, fresh.sender));
                }
                let room = match self.options.max_per_sender {
                    Some(cap) => self.senders.count(&new.sender) < cap,
                    None => true,
                };
                if !room {
                    events.push(Event::Rejected(new));
                    proof {
                        assert(notices(events@) =~= seq![Notice::Rejected(fresh)]);
                    }
                    return (Err(Error::PoolFull), events);
                }
                let p = self.enter(share(&new));
                events.push(Event::Added(share(&new), None));
                proof {
                    assert(within(limits, self@.take(p as int))) by {
                        lemma_within_take(limits, before, p as int);
                        assert(self@.take(p as int) =~= before.take(p as int));
                    }
                    assert(notices(events@) =~= seq![Notice::Added(fresh, None)]);
                }
                let r = self.settle(new, p, &mut events);
                (r, events)
            },
        }
    }

    /// What taking out the transaction with the hash `hash` makes of this
    /// pool: the first transaction with that hash leaves and is handed back;
    /// where there is none, nothing changes and the answer is `NotFound`.
    pub open spec fn withdrawn(
        &self,
        hash: H256,
        after: Self,
        r: Result<SharedTransaction, Error>,
    ) -> bool {
        let i = first_with_hash(self@, hash) as int;
        &&& after.policy() == self.policy()
        &&& after.limits() == self.limits()
        &&& after.next_id() == self.next_id()
        &&& if i < self@.len() {
            &&& after@ == self@.remove(i)
            &&& r is Ok
            &&& record(r->Ok_0) == self@[i]
        } else {
            &&& after@ == self@
            &&& r == Err::<SharedTransaction, Error>(Error::NotFound)
        }
    }

    /// What `withdraw` of `hash` for `reason` makes of this pool and hands
    /// back: the transaction is taken out, and one event says so, as the
    /// reason has it; where there is none, nothing is said.
    pub open spec fn withdraws(
        &self,
        hash: H256,
        reason: Removal,
        after: Self,
        r: (Result<SharedTransaction, Error>, Vec<Event>),
    ) -> bool {
        let i = first_with_hash(self@, hash) as int;
        &&& self.withdrawn(hash, after, r.0)
        &&& notices(r.1@) == if i < self@.len() {
            seq![parting(reason, self@[i])]
        } else {
            Seq::<Notice>::empty()
        }
    }

    /// Takes the transaction with the hash `hash` out of the pool, for
    /// `reason`. Returns its handle and the event that says so, or
    /// `NotFound` where the pool holds no such transaction.
    pub fn withdraw(&mut self, hash: &H256, reason: Removal) -> (r: (
        Result<SharedTransaction, Error>,
        Vec<Event>,
    ))
        requires
            old(self).wf(),
        ensures
            final(self).wf(),
            old(self).withdraws(*hash, reason, *final(self), r),
    {
        let ghost before = self@;
        let mut events: Vec<Event> = Vec::new();
        match self.ranking.find_hash(hash) {
            None => {
                proof {
                    assert(notices(events@) =~= Seq::<Notice>::empty());
                }
                (Err(Error::NotFound), events)
            },
            Some(i) => {
                let gone = self.leave(i);
                proof {
                    lemma_cost_remove(before, i as int);
                }
                match reason {
                    Removal::Cancelled => events.push(Event::Cancelled(share(&gone))),
                    Removal::Invalid => events.push(Event::Invalid(share(&gone))),
                }
                proof {
                    assert(notices(events@) =~= seq![parting(reason, before[i as int])]);
                }
                (Ok(gone), events)
            },
        }
    }

    /// Verifies `tx` and takes it into the pool, telling `listener` what
    /// happens. A transaction that fails verification never reaches the
    /// pool: nothing changes and the listener hears nothing. One that
    /// passes is handled as `import` handles it, and the listener hears
    /// every event in turn.
    pub fn insert<V: Verifier, L: Listener>(
        &mut self,
        verifier: &V,
        listener: &mut L,
        tx: UnverifiedTransaction,
    ) -> (r: Result<SharedTransaction, Error<V::Error>>)
        requires
            old(self).wf(),
            old(self).next_id() < u64::MAX,
        ensures
            final(self).wf(),
            r is Err && r->Err_0 is VerificationFailed ==> *final(self) == *old(self),
            !(r is Err && r->Err_0 is VerificationFailed) ==> exists|verified: VerifiedTransaction| #[trigger]
                old(self).imported(verified, *final(self), r),
    {
        match verifier.verify_transaction(tx) {
            Err(reason) => Err(Error::VerificationFailed(reason)),
            Ok(verified) => {
                let ghost given = verified;
                let outcome = self.import(verified);
                notify(listener, &outcome.1);
                let r = match &outcome.0 {
                    Ok(handle) => Ok(share(handle)),
                    Err(Error::NotCompetitive) => Err(Error::NotCompetitive),
                    Err(_) => Err(Error::PoolFull),
                };
                proof {
                    assert(old(self).imported(given, *self, r));
                }
                r
            },
        }
    }

    /// Takes the transaction with the hash `hash` out of the pool, for
    /// `reason`, and tells `listener`: `cancelled` or `invalid`, as the
    /// reason says. Returns its handle, or `NotFound` where the pool holds no
    /// such transaction; the listener then hears nothing.
    pub fn remove<L: Listener>(&mut self, hash: &H256, reason: Removal, listener: &mut L) -> (r:
        Result<SharedTransaction, Error>)
        requires
            old(self).wf(),
        ensures
            final(self).wf(),
            old(self).withdrawn(*hash, *final(self), r),
    {
        let outcome = self.withdraw(hash, reason);
        notify(listener, &outcome.1);
        outcome.0
    }

    /// The transactions that can be included now, best first: one pass over
    /// the global order, in which `oracle` is asked about every transaction
    /// but those of the senders it found stalled. The oracle is left as the
    /// pass leaves it; a new traversal wants a new oracle.
    pub fn pending<R: Ready>(&self, oracle: &mut R) -> (picked: Vec<SharedTransaction>)
        ensures
            records(picked@) == traverse::<R>(self@, old(oracle).state()).picked,
            final(oracle).state() == traverse::<R>(self@, old(oracle).state()).state,
    {
        let ghost order = self@;
        let ghost start = oracle.state();
        let mut picked: Vec<SharedTransaction> = Vec::new();
        let mut stalled: HashSet<u64> = HashSet::new();
        let n = self.ranking.len();
        let mut i: usize = 0;
        proof {
            assert(order.take(0) =~= Seq::<VerifiedTransaction>::empty());
            assert(records(picked@) =~= Seq::<VerifiedTransaction>::empty());
            assert(traverse::<R>(order.take(0), start).stalled =~= Set::<Address>::empty());
        }
        while i < n
            invariant
                i <= n,
                n == order.len(),
                order == self@,
                records(picked@) == traverse::<R>(order.take(i as int), start).picked,
                oracle.state() == traverse::<R>(order.take(i as int), start).state,
                forall|sender: Address|
                    traverse::<R>(order.take(i as int), start).stalled.contains(sender)
                        <==> stalled@.contains(sender.0),
            decreases n - i,
        {
            let ghost before = traverse::<R>(order.take(i as int), start);
            let ghost heard = records(picked@);
            let ghost blocked = stalled@;
            let handle = self.ranking.get(i);
            proof {
                assert(order.take(i + 1).drop_last() =~= order.take(i as int));
                assert(order.take(i + 1).last() == order[i as int]);
                assert(traverse::<R>(order.take(i + 1), start) == step::<R>(
                    before,
                    order[i as int],
                ));
                assert(before.stalled.contains(handle.sender) <==> stalled@.contains(
                    handle.sender.0,
                ));
            }
            if !stalled.contains(&handle.sender.0) {
                match oracle.is_ready(handle) {
                    Readiness::Ready => {
                        picked.push(share(handle));
                        proof {
                            assert(records(picked@) =~= heard.push(order[i as int]));
                        }
                    },
                    Readiness::Future => {},
                    Readiness::Stalled => {
                        stalled.insert(handle.sender.0);
                        proof {
                            let after = step::<R>(before, order[i as int]);
                            assert forall|sender: Address|
                                after.stalled.contains(sender) <==> stalled@.contains(
                                    sender.0,
                                ) by {
                                assert(before.stalled.contains(sender) <==> blocked.contains(
                                    sender.0,
                                ));
                            }
                        }
                    },
                }
            }
            i += 1;
        }
        proof {
            assert(order.take(n as int) =~= order);
        }
        picked
    }

    /// The same pass as `pending`, handed out one candidate at a time: the
    /// oracle is asked only as far as candidates are asked for. The pool is
    /// held for reading while the pass lasts.
    pub fn candidates<R: Ready>(&self, oracle: R) -> (r: Candidates<'_, S, R>)
        ensures
            r.wf(),
            r.order() == self@,
            r.done() == 0,
            r.remaining() == traverse::<R>(self@, oracle.state()).picked,
    {
        Candidates::new(self, oracle)
    }
}

} // verus!
