//! A scoring policy that ranks by price.

use crate::order::records;
use crate::scoring::{Comparison, Scoring, ScoringChange, ScoringChoice};
use crate::types::{SharedTransaction, U256, VerifiedTransaction};
use vstd::prelude::*;

verus! {

/// Ranks the higher price first. On one nonce slot the newcomer wins only
/// with a strictly higher price. A transaction's score is its price.
#[derive(Debug, Clone, Copy)]
pub struct PriceScoring;

impl Scoring for PriceScoring {
    type Score = U256;

    open spec fn spec_compare(&self, a: VerifiedTransaction, b: VerifiedTransaction) -> Comparison {
        if a.gas_price.0 > b.gas_price.0 {
            Comparison::Less
        } else if a.gas_price.0 < b.gas_price.0 {
            Comparison::Greater
        } else {
            Comparison::Equal
        }
    }

    open spec fn spec_decide(&self, old: VerifiedTransaction, new: VerifiedTransaction) -> ScoringChoice {
        if new.gas_price.0 > old.gas_price.0 {
            ScoringChoice::ReplaceOld
        } else {
            ScoringChoice::RejectNew
        }
    }

    open spec fn scored(&self, txs: Seq<VerifiedTransaction>, scores: Seq<U256>) -> bool {
        &&& scores.len() == txs.len()
        &&& forall|i: int| 0 <= i < txs.len() ==> #[trigger] scores[i] == txs[i].gas_price
    }

    proof fn scored_when_empty(&self) {
    }

    proof fn compare_mirrors(&self, a: VerifiedTransaction, b: VerifiedTransaction) {
    }

    proof fn compare_chains(
        &self,
        a: VerifiedTransaction,
        b: VerifiedTransaction,
        c: VerifiedTransaction,
    ) {
    }

    fn compare(&self, a: &VerifiedTransaction, b: &VerifiedTransaction) -> (r: Comparison) {
        if a.gas_price.0 > b.gas_price.0 {
            Comparison::Less
        } else if a.gas_price.0 < b.gas_price.0 {
            Comparison::Greater
        } else {
            Comparison::Equal
        }
    }

    fn decide(&self, old: &VerifiedTransaction, new: &VerifiedTransaction) -> (r: ScoringChoice) {
        if new.gas_price.0 > old.gas_price.0 {
            ScoringChoice::ReplaceOld
        } else {
            ScoringChoice::RejectNew
        }
    }

    /// Writes the price of the inserted or replacing transaction beside it
    /// and leaves every other score as it is.
    fn update_scores(
        &self,
        txs: &[SharedTransaction],
        scores: &mut [U256],
        change: ScoringChange,
    ) {
        let ghost order = records(txs@);
        let ghost before = scores@;
        match change {
            ScoringChange::InsertedAt(i) => {
                scores[i] = txs[i].gas_price;
                proof {
                    assert forall|j: int| 0 <= j < order.len() implies #[trigger] scores@[j]
                        == order[j].gas_price by {
                        if j != i {
                            let k = if j < i { j } else { j - 1 };
                            assert(before.remove(i as int)[k] == order.remove(i as int)[k].gas_price);
                        }
                    }
                }
            },
            ScoringChange::ReplacedAt(i) => {
                scores[i] = txs[i].gas_price;
                proof {
                    let was = choose|tx: VerifiedTransaction|
                        self.scored(#[trigger] order.update(i as int, tx), before);
                    assert forall|j: int| 0 <= j < order.len() implies #[trigger] scores@[j]
                        == order[j].gas_price by {
                        if j != i {
                            assert(before[j] == order.update(i as int, was)[j].gas_price);
                        }
                    }
                }
            },
            ScoringChange::RemovedAt(i) => {
                proof {
                    let (was, had) = choose|tx: VerifiedTransaction, score: U256|
                        self.scored(
                            #[trigger] order.insert(i as int, tx),
                            #[trigger] before.insert(i as int, score),
                        );
                    let longer = order.insert(i as int, was);
                    let scored = before.insert(i as int, had);
                    assert forall|j: int| 0 <= j < order.len() implies #[trigger] scores@[j]
                        == order[j].gas_price by {
                        let k = if j < i { j } else { j + 1 };
                        assert(scored[k] == longer[k].gas_price);
                    }
                }
            },
        }
    }

    fn should_replace(&self, old: &VerifiedTransaction, new: &VerifiedTransaction) -> (r: bool) {
        new.gas_price.0 > old.gas_price.0
    }
}

} // verus!
