//! What holds of every pool, whatever is done with it.

use crate::error::Error;
use crate::index::{holds_slot, slot_index};
use crate::limits::{
    cost_of, fit, lemma_cost_insert, lemma_cost_remove, lemma_fit_is_longest, lemma_within_take,
    sender_has_room,
};
use crate::listener::{
    dropped_in, lemma_dropped_in_one, lemma_dropped_in_sum, notices, Event, Notice, Removal,
};
use crate::order::{goes_before, lemma_place_in_range, place, placed};
use crate::pool::{evictions, stamped, Pool};
use crate::price::PriceScoring;
use crate::scoring::{Comparison, Scoring, ScoringChoice};
use crate::types::{SharedTransaction, VerifiedTransaction, H256};
use vstd::prelude::*;

verus! {

/// The pool never holds more transactions than its limit on their number,
/// nor more cost than its limit on the cost.
pub proof fn lemma_within_capacity<S: Scoring>(pool: Pool<S>)
    requires
        pool.wf(),
    ensures
        pool@.len() <= pool.limits().max_count,
        pool.total_cost() <= pool.limits().max_cost,
        pool.total_cost() == cost_of(pool@),
{
}

/// The global order is sorted by the policy's `compare`: no transaction
/// ranks behind a later one. And the score table has one score for each
/// transaction, which the policy finds up to date.
pub proof fn lemma_sorted_by_compare<S: Scoring>(pool: Pool<S>)
    requires
        pool.wf(),
    ensures
        forall|i: int, j: int|
            0 <= i < j < pool@.len() ==> pool.policy().spec_compare(
                #[trigger] pool@[i],
                #[trigger] pool@[j],
            ) != Comparison::Greater,
        pool.scores().len() == pool@.len(),
        pool.policy().scored(pool@, pool.scores()),
{
    assert forall|i: int, j: int| 0 <= i < j < pool@.len() implies pool.policy().spec_compare(
        #[trigger] pool@[i],
        #[trigger] pool@[j],
    ) != Comparison::Greater by {
        assert(goes_before(pool.policy(), pool@[i], pool@[j]));
    }
}

/// Under the policy that ranks by price, the score beside each transaction
/// is its price.
pub proof fn lemma_price_is_score(pool: Pool<PriceScoring>)
    requires
        pool.wf(),
    ensures
        forall|i: int| 0 <= i < pool@.len() ==> #[trigger] pool.scores()[i] == pool@[i].gas_price,
{
}

/// Evicting the entries of `order` from index `from` on tells of as many
/// evictions as there are such entries.
pub proof fn lemma_evictions_count(order: Seq<VerifiedTransaction>, from: int)
    requires
        0 <= from <= order.len(),
    ensures
        dropped_in(evictions(order, from)) == order.len() - from,
    decreases order.len() - from,
{
    let said = evictions(order, from);
    if from < order.len() {
        assert(said.drop_last() =~= evictions(order, from + 1));
        lemma_evictions_count(order, from + 1);
    }
}

/// After an import the pool holds what it held, and one more where a
/// transaction entered a free slot and stayed, less what was evicted.
/// This leaves out the import in which the newcomer takes an occupied slot
/// and is then itself found to be the worst entry of a pool over its limit.
pub proof fn lemma_import_accounts_for_size<S: Scoring>(
    before: Pool<S>,
    tx: VerifiedTransaction,
    after: Pool<S>,
    r: (Result<SharedTransaction, Error>, Vec<Event>),
)
    requires
        before.wf(),
        before.imports(tx, after, r),
        !(holds_slot(before@, tx.sender, tx.nonce) && r.0 is Err && r.0->Err_0 is PoolFull),
    ensures
        after@.len() + dropped_in(notices(r.1@)) == before@.len() + (if r.0 is Ok && !holds_slot(
            before@,
            tx.sender,
            tx.nonce,
        ) {
            1nat
        } else {
            0nat
        }),
{
    let new = stamped(tx, before.next_id());
    let said = notices(r.1@);
    let taken = holds_slot(before@, new.sender, new.nonce);
    let i = slot_index(before@, new.sender, new.nonce);
    let replaces = taken && before.policy().spec_decide(before@[i], new)
        == ScoringChoice::ReplaceOld;
    let enters = !taken && sender_has_room(before.limits(), before@, new.sender);
    if replaces || enters {
        let rest = if replaces { before@.remove(i) } else { before@ };
        let ousted = if replaces { Some(before@[i]) } else { None };
        let entered = placed(before.policy(), rest, new);
        let p = place(before.policy(), rest, new) as int;
        let n = fit(before.limits(), entered) as int;
        lemma_place_in_range(before.policy(), rest, new);
        lemma_fit_is_longest(before.limits(), entered);
        let first = seq![Notice::Added(new, ousted)];
        lemma_dropped_in_one(Notice::Added(new, ousted));
        if p < n {
            lemma_dropped_in_sum(first, evictions(entered, n));
            lemma_evictions_count(entered, n);
        } else {
            let last = seq![Notice::Rejected(new)];
            lemma_dropped_in_one(Notice::Rejected(new));
            lemma_dropped_in_sum(first, evictions(entered, p + 1));
            lemma_dropped_in_sum(first + evictions(entered, p + 1), last);
            lemma_evictions_count(entered, p + 1);
            // the part before the newcomer is a part of what the pool held, so it fits
            assert(n == p) by {
                lemma_within_take(before.limits(), before@, p);
                assert(entered.take(p) =~= before@.take(p));
            }
        }
    } else {
        let only = seq![Notice::Rejected(new)];
        lemma_dropped_in_one(Notice::Rejected(new));
    }
}

/// After a removal on request the pool holds one transaction less where
/// one was found, and what it held where none was.
pub proof fn lemma_withdraw_accounts_for_size<S: Scoring>(
    before: Pool<S>,
    hash: H256,
    reason: Removal,
    after: Pool<S>,
    r: (Result<SharedTransaction, Error>, Vec<Event>),
)
    requires
        before.wf(),
        before.withdraws(hash, reason, after, r),
    ensures
        after@.len() == before@.len() - (if r.0 is Ok {
            1nat
        } else {
            0nat
        }),
        r.0 is Err ==> after@ == before@,
{
}

/// An import that aims at an occupied slot never makes the pool larger.
/// Where the policy does not let the newcomer replace the occupant, the
/// pool stays as it is. Where it does, and the pool with the newcomer in
/// the occupant's stead is within its limits, the pool keeps its size.
pub proof fn lemma_conflict_never_grows<S: Scoring>(
    before: Pool<S>,
    tx: VerifiedTransaction,
    after: Pool<S>,
    r: (Result<SharedTransaction, Error>, Vec<Event>),
)
    requires
        before.wf(),
        before.imports(tx, after, r),
        holds_slot(before@, tx.sender, tx.nonce),
    ensures
        after@.len() <= before@.len(),
        ({
            let new = stamped(tx, before.next_id());
            let i = slot_index(before@, tx.sender, tx.nonce);
            if before.policy().spec_decide(before@[i], new) == ScoringChoice::ReplaceOld {
                cost_of(before@) - before@[i].gas.0 + tx.gas.0 <= before.limits().max_cost
                    ==> after@.len() == before@.len() && r.0 is Ok
            } else {
                after@ == before@ && r.0 is Err
            }
        }),
{
    let new = stamped(tx, before.next_id());
    let i = slot_index(before@, new.sender, new.nonce);
    if before.policy().spec_decide(before@[i], new) == ScoringChoice::ReplaceOld {
        let rest = before@.remove(i);
        let entered = placed(before.policy(), rest, new);
        let p = place(before.policy(), rest, new) as int;
        lemma_place_in_range(before.policy(), rest, new);
        lemma_fit_is_longest(before.limits(), entered);
        lemma_cost_remove(before@, i);
        lemma_cost_insert(rest, p, new);
    }
}

/// Insertion numbers rise: a transaction accepted by an import has the
/// number the pool had in store, which is above that of every transaction
/// the pool held, and the number the pool has in store next is one higher.
pub proof fn lemma_insertion_ids_rise<S: Scoring>(
    before: Pool<S>,
    tx: VerifiedTransaction,
    after: Pool<S>,
    r: (Result<SharedTransaction, Error>, Vec<Event>),
)
    requires
        before.wf(),
        before.imports(tx, after, r),
    ensures
        after.next_id() == before.next_id() + 1,
        r.0 is Ok ==> (r.0->Ok_0).insertion_id == before.next_id(),
        forall|i: int| 0 <= i < before@.len() ==> (#[trigger] before@[i]).insertion_id
            < before.next_id(),
{
}

/// Of two transactions accepted one after the other, with whatever was
/// done to the pool in between that left its counter no lower, the later
/// has the higher insertion number.
pub proof fn lemma_later_import_has_higher_id<S: Scoring>(
    first: Pool<S>,
    tx1: VerifiedTransaction,
    between: Pool<S>,
    r1: (Result<SharedTransaction, Error>, Vec<Event>),
    second: Pool<S>,
    tx2: VerifiedTransaction,
    last: Pool<S>,
    r2: (Result<SharedTransaction, Error>, Vec<Event>),
)
    requires
        first.imports(tx1, between, r1),
        between.next_id() <= second.next_id(),
        second.imports(tx2, last, r2),
        r1.0 is Ok,
        r2.0 is Ok,
    ensures
        (r1.0->Ok_0).insertion_id < (r2.0->Ok_0).insertion_id,
{
}

/// No two transactions of the pool have the same insertion number.
pub proof fn lemma_insertion_ids_differ<S: Scoring>(pool: Pool<S>)
    requires
        pool.wf(),
    ensures
        forall|i: int, j: int|
            0 <= i < j < pool@.len() ==> (#[trigger] pool@[i]).insertion_id != (
            #[trigger] pool@[j]).insertion_id,
{
}

/// One thing done to a pool.
pub enum Step {
    /// A verified transaction was handed to `import`.
    Import(VerifiedTransaction),
    /// A hash was handed to `withdraw`, with the reason.
    Withdraw(H256, Removal),
}

/// A history of a pool: the pool before each step and after the last, the
/// steps, and what each handed back.
pub struct History<S: Scoring> {
    /// The pool before the first step, then after each step.
    pub pools: Seq<Pool<S>>,
    /// The steps, first to last.
    pub steps: Seq<Step>,
    /// What each step handed back.
    pub outcomes: Seq<(Result<SharedTransaction, Error>, Vec<Event>)>,
}

impl<S: Scoring> History<S> {
    /// Whether step `i` entered a transaction into a free slot, where it
    /// stayed.
    pub open spec fn gained(self, i: int) -> bool {
        match self.steps[i] {
            Step::Import(tx) => self.outcomes[i].0 is Ok && !holds_slot(
                self.pools[i]@,
                tx.sender,
                tx.nonce,
            ),
            Step::Withdraw(_, _) => false,
        }
    }

    /// The number of transactions that step `i` evicted or removed.
    pub open spec fn lost(self, i: int) -> nat {
        match self.steps[i] {
            Step::Import(_) => dropped_in(notices(self.outcomes[i].1@)),
            Step::Withdraw(_, _) => if self.outcomes[i].0 is Ok {
                1
            } else {
                0
            },
        }
    }

    /// The number of the first `n` steps that entered a transaction into a
    /// free slot, where it stayed.
    pub open spec fn all_gained(self, n: int) -> nat
        decreases n,
    {
        if n <= 0 {
            0
        } else if self.gained(n - 1) {
            self.all_gained(n - 1) + 1
        } else {
            self.all_gained(n - 1)
        }
    }

    /// The number of transactions that the first `n` steps evicted or
    /// removed.
    pub open spec fn all_lost(self, n: int) -> nat
        decreases n,
    {
        if n <= 0 {
            0
        } else {
            self.all_lost(n - 1) + self.lost(n - 1)
        }
    }

    /// Whether step `i` is an import in which the newcomer took an occupied
    /// slot and was then itself found to be the worst entry of a pool over
    /// its limit.
    pub open spec fn ousted_in_vain(self, i: int) -> bool {
        match self.steps[i] {
            Step::Import(tx) => holds_slot(self.pools[i]@, tx.sender, tx.nonce)
                && self.outcomes[i].0 is Err && self.outcomes[i].0->Err_0 is PoolFull,
            Step::Withdraw(_, _) => false,
        }
    }

    /// Whether this is a history of a pool that met its invariant at the
    /// outset: each step made of the pool before it the pool after it.
    pub open spec fn happened(self) -> bool {
        &&& self.pools.len() == self.steps.len() + 1
        &&& self.outcomes.len() == self.steps.len()
        &&& forall|i: int| 0 <= i < self.pools.len() ==> (#[trigger] self.pools[i]).wf()
        &&& forall|i: int|
            0 <= i < self.steps.len() ==> match #[trigger] self.steps[i] {
                Step::Import(tx) => self.pools[i].imports(tx, self.pools[i + 1], self.outcomes[i]),
                Step::Withdraw(hash, reason) => self.pools[i].withdraws(
                    hash,
                    reason,
                    self.pools[i + 1],
                    self.outcomes[i],
                ),
            }
    }
}

/// Whatever is done to a pool, one step after the other: what it holds after
/// `n` steps is what it held at the outset, and the transactions that
/// entered a free slot and stayed, less those evicted or removed; and it is
/// never more than the limit allows. This leaves out the histories with an
/// import in which the newcomer takes an occupied slot and is then itself
/// found to be the worst entry of a pool over its limit.
pub proof fn lemma_size_over_history<S: Scoring>(history: History<S>, n: int)
    requires
        history.happened(),
        0 <= n <= history.steps.len(),
        forall|i: int| 0 <= i < n ==> !history.ousted_in_vain(i),
    ensures
        history.pools[n]@.len() + history.all_lost(n) == history.pools[0]@.len()
            + history.all_gained(n),
        history.pools[n]@.len() <= history.pools[n].limits().max_count,
    decreases n,
{
    assert(history.pools[n].wf());
    if n > 0 {
        lemma_size_over_history(history, n - 1);
        let i = n - 1;
        let before = history.pools[i];
        let after = history.pools[i + 1];
        let outcome = history.outcomes[i];
        assert(before.wf());
        assert(!history.ousted_in_vain(i));
        match history.steps[i] {
            Step::Import(tx) => {
                lemma_import_accounts_for_size(before, tx, after, outcome);
            },
            Step::Withdraw(hash, reason) => {
                lemma_withdraw_accounts_for_size(before, hash, reason, after, outcome);
            },
        }
    }
}

} // verus!
