//! The global order: every transaction of the pool, best first, with the
//! policy's score beside each.

use crate::order::{
    first_with_hash, lemma_first_with_hash,
    goes_before, id_is_new, lemma_goes_before_chains, lemma_goes_before_total,
    lemma_place_is_split, lemma_place_splits,
    lemma_placed_is_sorted, lemma_remove_keeps_sorted, place, placed, record, records, sorted,
};
use crate::scoring::{Comparison, Scoring, ScoringChange};
use crate::types::{share, SharedTransaction, VerifiedTransaction, H256};
use vstd::prelude::*;

verus! {

/// The transactions of all senders in one sequence, sorted by the policy's
/// `compare` and, among equals, by age; and the table of their scores.
pub struct Ranking<S: Scoring> {
    scoring: S,
    txs: Vec<SharedTransaction>,
    scores: Vec<S::Score>,
}

impl<S: Scoring> Ranking<S> {
    /// The policy that orders this ranking.
    pub closed spec fn policy(&self) -> S {
        self.scoring
    }

    /// The records, best first.
    pub closed spec fn order(&self) -> Seq<VerifiedTransaction> {
        records(self.txs@)
    }

    /// The score table.
    pub closed spec fn scores(&self) -> Seq<S::Score> {
        self.scores@
    }

    /// There is one score for each record, at the record's index, and the
    /// policy finds the scores up to date.
    pub open spec fn scored(&self) -> bool {
        &&& self.scores().len() == self.order().len()
        &&& self.policy().scored(self.order(), self.scores())
    }

    /// The ranking is sound: the records are scored and sorted.
    pub open spec fn wf(&self) -> bool {
        &&& self.scored()
        &&& sorted(self.policy(), self.order())
    }

    /// An empty ranking under `scoring`.
    pub fn new(scoring: S) -> (r: Self)
        ensures
            r.wf(),
            r.policy() == scoring,
            r.order() == Seq::<VerifiedTransaction>::empty(),
    {
        let r = Ranking { scoring, txs: Vec::new(), scores: Vec::new() };
        proof {
            r.scoring.scored_when_empty();
            assert(r.order() =~= Seq::<VerifiedTransaction>::empty());
            assert(r.scores() =~= Seq::<S::Score>::empty());
        }
        r
    }

    /// The number of records.
    pub fn len(&self) -> (n: usize)
        ensures
            n == self.order().len(),
    {
        self.txs.len()
    }

    /// The policy.
    pub fn scoring(&self) -> (s: &S)
        ensures
            *s == self.policy(),
    {
        &self.scoring
    }

    /// The handle at index `i`.
    pub fn get(&self, i: usize) -> (handle: &SharedTransaction)
        requires
            i < self.order().len(),
        ensures
            **handle == self.order()[i as int],
    {
        &self.txs[i]
    }

    /// The score at index `i`.
    pub fn score(&self, i: usize) -> (score: &S::Score)
        requires
            i < self.scores().len(),
        ensures
            *score == self.scores()[i as int],
    {
        &self.scores[i]
    }

    /// Handles to all records, best first.
    pub fn handles(&self) -> (r: Vec<SharedTransaction>)
        ensures
            records(r@) == self.order(),
    {
        let mut out: Vec<SharedTransaction> = Vec::new();
        let mut i: usize = 0;
        while i < self.txs.len()
            invariant
                i <= self.txs.len(),
                out@ == self.txs@.take(i as int),
            decreases self.txs.len() - i,
        {
            out.push(share(&self.txs[i]));
            assert(out@ =~= self.txs@.take(i + 1));
            i += 1;
        }
        assert(out@ =~= self.txs@);
        out
    }

    /// Whether `a` stands ahead of `b` under this ranking's policy.
    pub fn stands_ahead(&self, a: &VerifiedTransaction, b: &VerifiedTransaction) -> (r: bool)
        ensures
            r == goes_before(self.policy(), *a, *b),
    {
        match self.scoring.compare(a, b) {
            Comparison::Less => true,
            Comparison::Equal => a.insertion_id < b.insertion_id,
            Comparison::Greater => false,
        }
    }

    /// The index at which `tx` would enter, found by bisection.
    pub fn position(&self, tx: &VerifiedTransaction) -> (p: usize)
        requires
            self.wf(),
        ensures
            p == place(self.policy(), self.order(), *tx),
            p <= self.order().len(),
    {
        let mut lo: usize = 0;
        let mut hi: usize = self.txs.len();
        while lo < hi
            invariant
                lo <= hi <= self.txs.len(),
                self.wf(),
                forall|i: int|
                    0 <= i < lo ==> goes_before(self.policy(), #[trigger] self.order()[i], *tx),
                forall|i: int|
                    hi <= i < self.order().len() ==> !goes_before(
                        self.policy(),
                        #[trigger] self.order()[i],
                        *tx,
                    ),
            decreases hi - lo,
        {
            let mid = lo + (hi - lo) / 2;
            let ahead = self.stands_ahead(&self.txs[mid], tx);
            proof {
                let order = self.order();
                let pivot = order[mid as int];
                if ahead {
                    assert forall|i: int| 0 <= i < mid + 1 implies goes_before(
                        self.policy(),
                        #[trigger] order[i],
                        *tx,
                    ) by {
                        if i < mid {
                            assert(goes_before(self.policy(), order[i], order[mid as int]));
                            lemma_goes_before_chains(self.policy(), order[i], pivot, *tx);
                        }
                    }
                } else {
                    assert forall|i: int| mid <= i < order.len() implies !goes_before(
                        self.policy(),
                        #[trigger] order[i],
                        *tx,
                    ) by {
                        if i > mid && goes_before(self.policy(), order[i], *tx) {
                            assert(goes_before(self.policy(), order[mid as int], order[i]));
                            lemma_goes_before_chains(self.policy(), pivot, order[i], *tx);
                        }
                    }
                }
            }
            if ahead {
                lo = mid + 1;
            } else {
                hi = mid;
            }
        }
        proof {
            lemma_place_is_split(self.policy(), self.order(), *tx, lo as int);
        }
        lo
    }

    /// The index of the record `tx`, where the ranking holds it: found by
    /// bisection, since a record stands at its own place.
    pub fn index_of(&self, tx: &VerifiedTransaction) -> (r: Option<usize>)
        requires
            self.wf(),
        ensures
            match r {
                Some(i) => i < self.order().len() && self.order()[i as int] == *tx,
                None => !self.order().contains(*tx),
            },
    {
        let p = self.position(tx);
        proof {
            lemma_place_splits(self.policy(), self.order(), *tx);
        }
        if p < self.txs.len() && *self.txs[p] == *tx {
            Some(p)
        } else {
            proof {
                let order = self.order();
                if order.contains(*tx) {
                    let m = choose|m: int| 0 <= m < order.len() && order[m] == *tx;
                    lemma_goes_before_total(self.policy(), *tx, *tx);
                    if m < p {
                        assert(goes_before(self.policy(), order[m], *tx));
                    } else if m > p {
                        assert(goes_before(self.policy(), order[p as int], order[m]));
                    }
                }
            }
            None
        }
    }

    /// The index of the first record with the hash `hash`, where there is one.
    pub fn find_hash(&self, hash: &H256) -> (r: Option<usize>)
        ensures
            match r {
                Some(i) => i == first_with_hash(self.order(), *hash) && i < self.order().len(),
                None => first_with_hash(self.order(), *hash) == self.order().len(),
            },
    {
        let mut i: usize = 0;
        while i < self.txs.len()
            invariant
                i <= self.txs.len(),
                forall|j: int| 0 <= j < i ==> (#[trigger] self.order()[j]).hash != *hash,
            decreases self.txs.len() - i,
        {
            if self.txs[i].hash.0 == hash.0 {
                proof {
                    lemma_first_with_hash(self.order(), *hash, i as int);
                }
                return Some(i);
            }
            i += 1;
        }
        proof {
            lemma_first_with_hash(self.order(), *hash, i as int);
        }
        None
    }

    /// Enters `tx` at its place, gives it the default score and lets the
    /// policy fill the score in. Returns the index it entered at.
    pub fn insert(&mut self, tx: SharedTransaction) -> (p: usize)
        requires
            old(self).wf(),
            id_is_new(old(self).order(), tx.insertion_id),
        ensures
            final(self).wf(),
            final(self).policy() == old(self).policy(),
            p == place(old(self).policy(), old(self).order(), *tx),
            p <= old(self).order().len(),
            final(self).order() == placed(old(self).policy(), old(self).order(), *tx),
    {
        let ghost new = record(tx);
        let p = self.position(&tx);
        self.enter(p, tx);
        proof {
            lemma_placed_is_sorted(old(self).policy(), old(self).order(), new);
        }
        p
    }

    /// Takes the record at index `i` out and tells the policy. Returns its
    /// handle.
    pub fn remove(&mut self, i: usize) -> (handle: SharedTransaction)
        requires
            old(self).wf(),
            i < old(self).order().len(),
        ensures
            final(self).wf(),
            final(self).policy() == old(self).policy(),
            *handle == old(self).order()[i as int],
            final(self).order() == old(self).order().remove(i as int),
    {
        let handle = self.leave(i);
        proof {
            lemma_remove_keeps_sorted(old(self).policy(), old(self).order(), i as int);
        }
        handle
    }

    /// Puts `tx` in the place of the record at index `i` and tells the
    /// policy; where `tx` is out of order there, moves it to its own place.
    /// Returns the handle that left and the index at which `tx` ended up.
    pub fn replace(&mut self, i: usize, tx: SharedTransaction) -> (r: (SharedTransaction, usize))
        requires
            old(self).wf(),
            i < old(self).order().len(),
            id_is_new(old(self).order(), tx.insertion_id),
        ensures
            final(self).wf(),
            final(self).policy() == old(self).policy(),
            *r.0 == old(self).order()[i as int],
            r.1 == place(old(self).policy(), old(self).order().remove(i as int), *tx),
            r.1 < old(self).order().len(),
            final(self).order() == placed(
                old(self).policy(),
                old(self).order().remove(i as int),
                *tx,
            ),
    {
        let ghost before = self.order();
        let ghost rest = before.remove(i as int);
        let ghost new = record(tx);
        self.txs.push(tx);
        let old_handle = self.txs.swap_remove(i);
        assert(self.order() =~= before.update(i as int, new));
        assert(self.order().update(i as int, record(old_handle)) =~= before);
        self.scoring.update_scores(
            self.txs.as_slice(),
            self.scores.as_mut_slice(),
            ScoringChange::ReplacedAt(i),
        );
        assert(i < self.txs.len());
        let after_previous = i == 0 || self.stands_ahead(&self.txs[i - 1], &self.txs[i]);
        let before_next = i + 1 == self.txs.len() || self.stands_ahead(
            &self.txs[i],
            &self.txs[i + 1],
        );
        proof {
            lemma_remove_keeps_sorted(self.policy(), before, i as int);
            assert(id_is_new(rest, new.insertion_id)) by {
                assert forall|j: int| 0 <= j < rest.len() implies (#[trigger] rest[j]).insertion_id
                    != new.insertion_id by {
                    let oj = if j < i { j } else { j + 1 };
                    assert(rest[j] == before[oj]);
                }
            }
        }
        if after_previous && before_next {
            proof {
                assert forall|j: int| 0 <= j < i implies goes_before(
                    self.policy(),
                    #[trigger] rest[j],
                    new,
                ) by {
                    assert(rest[j] == before[j]);
                    assert(self.order()[i - 1] == before[i - 1]);
                    if j < i - 1 {
                        assert(goes_before(self.policy(), before[j], before[i - 1]));
                        lemma_goes_before_chains(self.policy(), before[j], before[i - 1], new);
                    }
                }
                assert forall|j: int| i <= j < rest.len() implies !goes_before(
                    self.policy(),
                    #[trigger] rest[j],
                    new,
                ) by {
                    assert(rest[j] == before[j + 1]);
                    assert(self.order()[i + 1] == before[i + 1]);
                    if j > i {
                        assert(goes_before(self.policy(), before[i + 1], before[j + 1]));
                        lemma_goes_before_chains(self.policy(), new, before[i + 1], before[j + 1]);
                    }
                    lemma_goes_before_total(self.policy(), rest[j], new);
                }
                lemma_place_is_split(self.policy(), rest, new, i as int);
                assert(self.order() =~= placed(self.policy(), rest, new));
                lemma_placed_is_sorted(self.policy(), rest, new);
            }
            (old_handle, i)
        } else {
            let moved = self.leave(i);
            assert(self.order() =~= rest);
            let p = self.position(&moved);
            self.enter(p, moved);
            proof {
                lemma_placed_is_sorted(self.policy(), rest, new);
            }
            (old_handle, p)
        }
    }

    /// Enters `tx` at index `p` with the default score and tells the policy.
    fn enter(&mut self, p: usize, tx: SharedTransaction)
        requires
            old(self).scored(),
            p <= old(self).order().len(),
        ensures
            final(self).scored(),
            final(self).policy() == old(self).policy(),
            final(self).order() == old(self).order().insert(p as int, *tx),
    {
        let ghost new = record(tx);
        self.txs.insert(p, tx);
        self.scores.insert(p, S::Score::default());
        assert(self.order() =~= old(self).order().insert(p as int, new));
        assert(self.order().remove(p as int) =~= old(self).order());
        assert(self.scores().remove(p as int) =~= old(self).scores());
        self.scoring.update_scores(
            self.txs.as_slice(),
            self.scores.as_mut_slice(),
            ScoringChange::InsertedAt(p),
        );
    }

    /// Takes the record at index `i` out, with its score, and tells the policy.
    fn leave(&mut self, i: usize) -> (handle: SharedTransaction)
        requires
            old(self).scored(),
            i < old(self).order().len(),
        ensures
            final(self).scored(),
            final(self).policy() == old(self).policy(),
            *handle == old(self).order()[i as int],
            final(self).order() == old(self).order().remove(i as int),
    {
        let handle = self.txs.remove(i);
        let score = self.scores.remove(i);
        assert(self.order() =~= old(self).order().remove(i as int));
        assert(self.order().insert(i as int, record(handle)) =~= old(self).order());
        assert(self.scores().insert(i as int, score) =~= old(self).scores());
        self.scoring.update_scores(
            self.txs.as_slice(),
            self.scores.as_mut_slice(),
            ScoringChange::RemovedAt(i),
        );
        handle
    }
}

} // verus!
