//! The candidates for inclusion, handed out one at a time.

use crate::order::{record, records};
use crate::pool::Pool;
use crate::ready::{Readiness, Ready};
use crate::scoring::Scoring;
use crate::traversal::{
    lemma_resume_carries_picked, lemma_resume_from_front, midway, resume, step, traverse,
};
use crate::types::{share, Address, SharedTransaction, VerifiedTransaction};
use std::collections::HashSet;
use vstd::prelude::*;

verus! {

/// A pass over a pool that goes only as far as it is asked to. It holds the
/// pool for reading, so the pool cannot change under it, and it owns its
/// oracle. It cannot be started again: for another pass, make another.
pub struct Candidates<'a, S: Scoring, R: Ready> {
    pool: &'a Pool<S>,
    oracle: R,
    at: usize,
    stalled: HashSet<u64>,
}

impl<'a, S: Scoring, R: Ready> Candidates<'a, S, R> {
    /// The global order that is passed over.
    pub closed spec fn order(&self) -> Seq<VerifiedTransaction> {
        self.pool@
    }

    /// The senders found stalled so far.
    pub closed spec fn blocked(&self) -> Set<Address> {
        Set::new(|sender: Address| self.stalled@.contains(sender.0))
    }

    /// What the oracle remembers now.
    pub closed spec fn oracle_state(&self) -> R::State {
        self.oracle.state()
    }

    /// The number of entries of the order that the pass is done with.
    pub closed spec fn done(&self) -> nat {
        self.at as nat
    }

    /// The pass has not gone beyond the end of the order.
    pub open spec fn wf(&self) -> bool {
        self.done() <= self.order().len()
    }

    /// The candidates that are still to come, in the order they will come.
    pub open spec fn remaining(&self) -> Seq<VerifiedTransaction> {
        resume::<R>(
            self.order().skip(self.done() as int),
            midway::<R>(self.blocked(), self.oracle_state()),
        ).picked
    }

    /// A pass over `pool` with `oracle`, before its first step.
    pub fn new(pool: &'a Pool<S>, oracle: R) -> (r: Self)
        ensures
            r.wf(),
            r.order() == pool@,
            r.done() == 0,
            r.remaining() == traverse::<R>(pool@, oracle.state()).picked,
    {
        let r = Candidates { pool, oracle, at: 0, stalled: HashSet::new() };
        proof {
            assert(r.blocked() =~= Set::<Address>::empty());
            assert(r.order().skip(0) =~= r.order());
        }
        r
    }

    /// The next candidate: goes on over the order, asking the oracle, until
    /// it finds a transaction ready or the order ends.
    pub fn next(&mut self) -> (r: Option<SharedTransaction>)
        requires
            old(self).wf(),
        ensures
            final(self).wf(),
            final(self).order() == old(self).order(),
            match r {
                Some(handle) => {
                    &&& old(self).remaining().len() > 0
                    &&& *handle == old(self).remaining()[0]
                    &&& final(self).remaining() == old(self).remaining().drop_first()
                },
                None => {
                    &&& old(self).remaining().len() == 0
                    &&& final(self).remaining().len() == 0
                    &&& final(self).done() == final(self).order().len()
                },
            },
    {
        let pool: &'a Pool<S> = self.pool;
        let n = pool.len();
        let ghost order = pool@;
        while self.at < n
            invariant
                self.wf(),
                self.pool == pool,
                old(self).pool == pool,
                order == pool@,
                n == order.len(),
                self.remaining() == old(self).remaining(),
            decreases n - self.at,
        {
            let ghost i = self.at as int;
            let ghost from = midway::<R>(self.blocked(), self.oracle_state());
            let ghost rest = order.skip(i + 1);
            let handle = pool.get(self.at);
            let ghost tx = record(*handle);
            proof {
                assert(order.skip(i).drop_first() =~= rest);
                assert(order.skip(i)[0] == tx);
                lemma_resume_from_front::<R>(order.skip(i), from);
                assert(from.stalled.contains(tx.sender) <==> self.stalled@.contains(tx.sender.0));
            }
            self.at = self.at + 1;
            if !self.stalled.contains(&handle.sender.0) {
                let ghost blocked = self.blocked();
                match self.oracle.is_ready(handle) {
                    Readiness::Ready => {
                        proof {
                            lemma_resume_carries_picked::<R>(rest, step::<R>(from, tx));
                            let more = resume::<R>(
                                rest,
                                midway::<R>(self.blocked(), self.oracle_state()),
                            ).picked;
                            assert(from.picked.push(tx) + more =~= seq![tx] + more);
                            assert((seq![tx] + more).drop_first() =~= more);
                        }
                        return Some(share(handle));
                    },
                    Readiness::Future => {},
                    Readiness::Stalled => {
                        self.stalled.insert(handle.sender.0);
                        proof {
                            assert(self.blocked() =~= blocked.insert(tx.sender));
                        }
                    },
                }
            }
        }
        proof {
            assert(order.skip(n as int).len() == 0);
        }
        None
    }

    /// The rest of the candidates, all at once.
    pub fn collect(&mut self) -> (r: Vec<SharedTransaction>)
        requires
            old(self).wf(),
        ensures
            final(self).wf(),
            final(self).order() == old(self).order(),
            records(r@) == old(self).remaining(),
            final(self).remaining().len() == 0,
    {
        let ghost all = self.remaining();
        let mut out: Vec<SharedTransaction> = Vec::new();
        proof {
            assert(records(out@) + self.remaining() =~= all);
        }
        loop
            invariant
                self.wf(),
                self.order() == old(self).order(),
                records(out@) + self.remaining() == all,
            ensures
                self.wf(),
                self.order() == old(self).order(),
                records(out@) == all,
                self.remaining().len() == 0,
            decreases self.remaining().len(),
        {
            let ghost had = records(out@);
            let ghost left = self.remaining();
            match self.next() {
                Some(handle) => {
                    out.push(handle);
                    proof {
                        assert(records(out@) =~= had.push(left[0]));
                        assert(had.push(left[0]) + left.drop_first() =~= had + left);
                    }
                },
                None => {
                    proof {
                        assert(had + left =~= had);
                    }
                    break ;
                },
            }
        }
        out
    }

    /// Ends the pass and hands the oracle back.
    pub fn into_oracle(self) -> (r: R)
        ensures
            r.state() == self.oracle_state(),
    {
        self.oracle
    }
}

} // verus!
