//! The scoring policy: the order of the pool and the fate of nonce conflicts.

use crate::order::records;
use crate::types::{SharedTransaction, VerifiedTransaction};
use std::fmt::Debug;
use vstd::prelude::*;

verus! {

/// How one transaction ranks against another.
#[derive(Debug, Clone, Copy, PartialEq, Eq, Structural)]
pub enum Comparison {
    /// The first goes ahead of the second.
    Less,
    /// Neither goes ahead of the other.
    Equal,
    /// The first goes behind the second.
    Greater,
}

impl Comparison {
    /// The same verdict, seen from the other side.
    pub open spec fn mirrored(self) -> Comparison {
        match self {
            Comparison::Less => Comparison::Greater,
            Comparison::Equal => Comparison::Equal,
            Comparison::Greater => Comparison::Less,
        }
    }
}

/// What becomes of a transaction that aims at an occupied nonce slot.
#[derive(Debug, Clone, Copy, PartialEq, Eq, Structural)]
pub enum ScoringChoice {
    /// The newcomer is discarded and the occupant stays.
    RejectNew,
    /// The occupant leaves and the newcomer takes the slot.
    ReplaceOld,
    /// Both stay.
    InsertNew,
}

/// A structural change of the global order that the policy is told about.
#[derive(Debug, Clone, Copy, PartialEq, Eq, Structural)]
pub enum ScoringChange {
    /// A transaction was inserted at the index; its score holds the default
    /// value and is to be filled in.
    InsertedAt(usize),
    /// The transaction at the index was removed and the later ones, with
    /// their scores, moved down by one.
    RemovedAt(usize),
    /// The transaction at the index took the place of another; the score
    /// there still is the previous one's.
    ReplacedAt(usize),
}

impl ScoringChange {
    /// The index the change happened at.
    pub open spec fn index(self) -> usize {
        match self {
            ScoringChange::InsertedAt(i) => i,
            ScoringChange::RemovedAt(i) => i,
            ScoringChange::ReplacedAt(i) => i,
        }
    }

    /// Whether the change can have happened to an order of `len` entries:
    /// an inserted or replaced entry is among them, a removed one left a gap
    /// at or before the end.
    pub open spec fn fits(self, len: nat) -> bool {
        match self {
            ScoringChange::InsertedAt(i) => i < len,
            ScoringChange::RemovedAt(i) => i <= len,
            ScoringChange::ReplacedAt(i) => i < len,
        }
    }
}

/// A scoring policy. `compare` is a total preorder on transactions, by which
/// the pool sorts best first; `decide` settles conflicts on one nonce slot.
pub trait Scoring {
    /// The policy's own key, kept by the pool beside each transaction.
    type Score: Ord + Clone + Default + Debug;

    /// The verdict of `compare`.
    spec fn spec_compare(&self, a: VerifiedTransaction, b: VerifiedTransaction) -> Comparison;

    /// The verdict of `decide`.
    spec fn spec_decide(&self, old: VerifiedTransaction, new: VerifiedTransaction) -> ScoringChoice;

    /// Whether `scores` are the scores of `txs`, entry by entry. A policy
    /// that says nothing of its scores leaves this as it is: any scores do.
    open spec fn scored(&self, txs: Seq<VerifiedTransaction>, scores: Seq<Self::Score>) -> bool {
        true
    }

    /// An order without entries is scored by a table without scores.
    proof fn scored_when_empty(&self)
        ensures
            self.scored(Seq::empty(), Seq::empty()),
    ;

    /// Swapping the arguments of `compare` mirrors its verdict.
    proof fn compare_mirrors(&self, a: VerifiedTransaction, b: VerifiedTransaction)
        ensures
            self.spec_compare(b, a) == self.spec_compare(a, b).mirrored(),
    ;

    /// "Not behind" is transitive.
    proof fn compare_chains(
        &self,
        a: VerifiedTransaction,
        b: VerifiedTransaction,
        c: VerifiedTransaction,
    )
        requires
            self.spec_compare(a, b) != Comparison::Greater,
            self.spec_compare(b, c) != Comparison::Greater,
        ensures
            self.spec_compare(a, c) != Comparison::Greater,
    ;

    /// Ranks `a` against `b`: `Less` where `a` goes first.
    fn compare(&self, a: &VerifiedTransaction, b: &VerifiedTransaction) -> (r: Comparison)
        ensures
            r == self.spec_compare(*a, *b),
    ;

    /// Decides between the occupant `old` of a nonce slot and the newcomer `new`.
    fn decide(&self, old: &VerifiedTransaction, new: &VerifiedTransaction) -> (r: ScoringChoice)
        ensures
            r == self.spec_decide(*old, *new),
    ;

    /// Brings the scores up to date after `change`, given that they were up
    /// to date before it: before an insertion, without the entry and the
    /// score at the index; before a removal, with some entry and score at
    /// the index; before a replacement, with some other entry at the index.
    /// The policy sees the whole order, since a score may depend on an
    /// entry's neighbours.
    fn update_scores(
        &self,
        txs: &[SharedTransaction],
        scores: &mut [Self::Score],
        change: ScoringChange,
    )
        requires
            txs@.len() == old(scores)@.len(),
            change.fits(txs@.len()),
            match change {
                ScoringChange::InsertedAt(i) => self.scored(
                    records(txs@).remove(i as int),
                    old(scores)@.remove(i as int),
                ),
                ScoringChange::RemovedAt(i) => exists|tx: VerifiedTransaction, score: Self::Score|
                    self.scored(
                        #[trigger] records(txs@).insert(i as int, tx),
                        #[trigger] old(scores)@.insert(i as int, score),
                    ),
                ScoringChange::ReplacedAt(i) => exists|tx: VerifiedTransaction|
                    self.scored(#[trigger] records(txs@).update(i as int, tx), old(scores)@),
            },
        ensures
            final(scores)@.len() == old(scores)@.len(),
            self.scored(records(txs@), final(scores)@),
    ;

    /// A quick answer to whether `new` would take the slot of `old`.
    fn should_replace(&self, old: &VerifiedTransaction, new: &VerifiedTransaction) -> (r: bool)
        ensures
            r == (self.spec_decide(*old, *new) == ScoringChoice::ReplaceOld),
    ;
}

} // verus!
