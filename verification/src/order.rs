//! The global order as a sequence of records: what "sorted" means, where a
//! newcomer goes, and what the order costs.

use crate::scoring::{Comparison, Scoring};
use crate::types::{SharedTransaction, VerifiedTransaction, H256};
use vstd::prelude::*;

verus! {

/// The record that a handle points to.
pub open spec fn record(handle: SharedTransaction) -> VerifiedTransaction {
    *handle
}

/// The records that a sequence of handles points to.
pub open spec fn records(handles: Seq<SharedTransaction>) -> Seq<VerifiedTransaction> {
    Seq::new(handles.len(), |i: int| record(handles[i]))
}

/// Whether `a` stands ahead of `b` in the global order: it ranks better, or
/// it ranks the same and was accepted earlier.
pub open spec fn goes_before<S: Scoring>(
    scoring: S,
    a: VerifiedTransaction,
    b: VerifiedTransaction,
) -> bool {
    scoring.spec_compare(a, b) == Comparison::Less || (scoring.spec_compare(a, b)
        == Comparison::Equal && a.insertion_id < b.insertion_id)
}

/// Whether every entry of `order` stands ahead of every later one.
pub open spec fn sorted<S: Scoring>(scoring: S, order: Seq<VerifiedTransaction>) -> bool {
    forall|i: int, j: int|
        0 <= i < j < order.len() ==> goes_before(scoring, #[trigger] order[i], #[trigger] order[j])
}

/// Whether no entry of `order` has the insertion number `id`.
pub open spec fn id_is_new(order: Seq<VerifiedTransaction>, id: u64) -> bool {
    forall|i: int| 0 <= i < order.len() ==> (#[trigger] order[i]).insertion_id != id
}

/// Whether no two entries of `order` have the same insertion number.
pub open spec fn ids_distinct(order: Seq<VerifiedTransaction>) -> bool {
    forall|i: int, j: int|
        0 <= i < j < order.len() ==> (#[trigger] order[i]).insertion_id != (
        #[trigger] order[j]).insertion_id
}

/// Whether every insertion number of `order` is below `counter`.
pub open spec fn ids_below(order: Seq<VerifiedTransaction>, counter: u64) -> bool {
    forall|i: int| 0 <= i < order.len() ==> (#[trigger] order[i]).insertion_id < counter
}

/// The index at which `tx` enters `order`: the number of entries that stand
/// ahead of it.
pub open spec fn place<S: Scoring>(
    scoring: S,
    order: Seq<VerifiedTransaction>,
    tx: VerifiedTransaction,
) -> nat
    decreases order.len(),
{
    if order.len() == 0 {
        0
    } else if goes_before(scoring, order.last(), tx) {
        place(scoring, order.drop_last(), tx) + 1
    } else {
        place(scoring, order.drop_last(), tx)
    }
}

/// `order` with `tx` entered at its place.
pub open spec fn placed<S: Scoring>(
    scoring: S,
    order: Seq<VerifiedTransaction>,
    tx: VerifiedTransaction,
) -> Seq<VerifiedTransaction> {
    order.insert(place(scoring, order, tx) as int, tx)
}

/// "Stands ahead of" is transitive.
pub proof fn lemma_goes_before_chains<S: Scoring>(
    scoring: S,
    a: VerifiedTransaction,
    b: VerifiedTransaction,
    c: VerifiedTransaction,
)
    requires
        goes_before(scoring, a, b),
        goes_before(scoring, b, c),
    ensures
        goes_before(scoring, a, c),
{
    scoring.compare_mirrors(a, b);
    scoring.compare_mirrors(b, c);
    scoring.compare_mirrors(a, c);
    scoring.compare_chains(a, b, c);
    if scoring.spec_compare(a, c) == Comparison::Equal {
        // c is not behind a, so c chains on to b and b on to a
        scoring.compare_mirrors(c, b);
        scoring.compare_mirrors(b, a);
        scoring.compare_chains(c, a, b);
        scoring.compare_chains(b, c, a);
    }
}

/// Of two records with different insertion numbers, one stands ahead of the
/// other, and never both.
pub proof fn lemma_goes_before_total<S: Scoring>(
    scoring: S,
    a: VerifiedTransaction,
    b: VerifiedTransaction,
)
    ensures
        a.insertion_id != b.insertion_id ==> (goes_before(scoring, a, b) <==> !goes_before(
            scoring,
            b,
            a,
        )),
        !(goes_before(scoring, a, b) && goes_before(scoring, b, a)),
{
    scoring.compare_mirrors(a, b);
}

/// The place of `tx` is an index of `order` or its length.
pub proof fn lemma_place_in_range<S: Scoring>(
    scoring: S,
    order: Seq<VerifiedTransaction>,
    tx: VerifiedTransaction,
)
    ensures
        place(scoring, order, tx) <= order.len(),
    decreases order.len(),
{
    if order.len() > 0 {
        lemma_place_in_range(scoring, order.drop_last(), tx);
    }
}

/// Where the entries ahead of `tx` are exactly the first `p`, the place of
/// `tx` is `p`.
pub proof fn lemma_place_is_split<S: Scoring>(
    scoring: S,
    order: Seq<VerifiedTransaction>,
    tx: VerifiedTransaction,
    p: int,
)
    requires
        0 <= p <= order.len(),
        forall|i: int| 0 <= i < p ==> goes_before(scoring, #[trigger] order[i], tx),
        forall|i: int| p <= i < order.len() ==> !goes_before(scoring, #[trigger] order[i], tx),
    ensures
        place(scoring, order, tx) == p,
    decreases order.len(),
{
    if order.len() > 0 {
        let front = order.drop_last();
        if p == order.len() {
            lemma_place_is_split(scoring, front, tx, p - 1);
        } else {
            lemma_place_is_split(scoring, front, tx, p);
        }
    }
}

/// In a sorted order the entries ahead of `tx` are exactly those before its
/// place.
pub proof fn lemma_place_splits<S: Scoring>(
    scoring: S,
    order: Seq<VerifiedTransaction>,
    tx: VerifiedTransaction,
)
    requires
        sorted(scoring, order),
    ensures
        place(scoring, order, tx) <= order.len(),
        forall|i: int|
            0 <= i < place(scoring, order, tx) ==> goes_before(scoring, #[trigger] order[i], tx),
        forall|i: int|
            place(scoring, order, tx) <= i < order.len() ==> !goes_before(
                scoring,
                #[trigger] order[i],
                tx,
            ),
    decreases order.len(),
{
    if order.len() > 0 {
        let front = order.drop_last();
        let last = order.last();
        assert(sorted(scoring, front)) by {
            assert forall|i: int, j: int| 0 <= i < j < front.len() implies goes_before(
                scoring,
                #[trigger] front[i],
                #[trigger] front[j],
            ) by {
                assert(front[i] == order[i] && front[j] == order[j]);
            }
        }
        lemma_place_splits(scoring, front, tx);
        lemma_place_in_range(scoring, front, tx);
        let p = place(scoring, front, tx);
        if goes_before(scoring, last, tx) {
            // every earlier entry stands ahead of the last, hence ahead of tx
            assert forall|i: int| 0 <= i < front.len() implies goes_before(
                scoring,
                #[trigger] front[i],
                tx,
            ) by {
                assert(front[i] == order[i]);
                assert(goes_before(scoring, order[i], order[order.len() - 1]));
                lemma_goes_before_chains(scoring, order[i], last, tx);
            }
            lemma_place_is_split(scoring, front, tx, front.len() as int);
            assert forall|i: int| 0 <= i < place(scoring, order, tx) implies goes_before(
                scoring,
                #[trigger] order[i],
                tx,
            ) by {
                if i < front.len() {
                    assert(front[i] == order[i]);
                }
            }
        } else {
            assert forall|i: int| 0 <= i < place(scoring, order, tx) implies goes_before(
                scoring,
                #[trigger] order[i],
                tx,
            ) by {
                assert(front[i] == order[i]);
            }
            assert forall|i: int| place(scoring, order, tx) <= i < order.len() implies !goes_before(
                scoring,
                #[trigger] order[i],
                tx,
            ) by {
                if i < front.len() {
                    assert(front[i] == order[i]);
                }
            }
        }
    }
}

/// Entering a record with a new insertion number at its place keeps a sorted
/// order sorted.
pub proof fn lemma_placed_is_sorted<S: Scoring>(
    scoring: S,
    order: Seq<VerifiedTransaction>,
    tx: VerifiedTransaction,
)
    requires
        sorted(scoring, order),
        id_is_new(order, tx.insertion_id),
    ensures
        sorted(scoring, placed(scoring, order, tx)),
{
    lemma_place_splits(scoring, order, tx);
    let p = place(scoring, order, tx) as int;
    let after = placed(scoring, order, tx);
    assert forall|i: int, j: int| 0 <= i < j < after.len() implies goes_before(
        scoring,
        #[trigger] after[i],
        #[trigger] after[j],
    ) by {
        if j < p {
            assert(after[i] == order[i] && after[j] == order[j]);
        } else if j == p {
            assert(after[i] == order[i]);
        } else if i < p {
            assert(after[i] == order[i] && after[j] == order[j - 1]);
        } else if i == p {
            assert(after[j] == order[j - 1]);
            lemma_goes_before_total(scoring, order[j - 1], tx);
        } else {
            assert(after[i] == order[i - 1] && after[j] == order[j - 1]);
        }
    }
}

/// Taking an entry out keeps a sorted order sorted.
pub proof fn lemma_remove_keeps_sorted<S: Scoring>(
    scoring: S,
    order: Seq<VerifiedTransaction>,
    k: int,
)
    requires
        sorted(scoring, order),
        0 <= k < order.len(),
    ensures
        sorted(scoring, order.remove(k)),
{
    let after = order.remove(k);
    assert forall|i: int, j: int| 0 <= i < j < after.len() implies goes_before(
        scoring,
        #[trigger] after[i],
        #[trigger] after[j],
    ) by {
        let oi = if i < k { i } else { i + 1 };
        let oj = if j < k { j } else { j + 1 };
        assert(after[i] == order[oi] && after[j] == order[oj]);
    }
}

/// The index of the first entry of `order` with the hash `hash`; the length
/// of `order` where there is none.
pub open spec fn first_with_hash(order: Seq<VerifiedTransaction>, hash: H256) -> nat
    decreases order.len(),
{
    if order.len() == 0 {
        0
    } else if order[0].hash == hash {
        0
    } else {
        first_with_hash(order.drop_first(), hash) + 1
    }
}

/// An index before which no entry has the hash, and which is the end or
/// has it, is the first with the hash.
pub proof fn lemma_first_with_hash(order: Seq<VerifiedTransaction>, hash: H256, i: int)
    requires
        0 <= i <= order.len(),
        forall|j: int| 0 <= j < i ==> (#[trigger] order[j]).hash != hash,
        i < order.len() ==> order[i].hash == hash,
    ensures
        first_with_hash(order, hash) == i,
    decreases order.len(),
{
    if order.len() > 0 && i > 0 {
        let rest = order.drop_first();
        assert(order[0].hash != hash);
        assert forall|j: int| 0 <= j < i - 1 implies (#[trigger] rest[j]).hash != hash by {
            assert(rest[j] == order[j + 1]);
        }
        lemma_first_with_hash(rest, hash, i - 1);
    }
}

/// Entering a record whose insertion number is new and below `counter`
/// keeps the insertion numbers distinct and below `counter`.
pub proof fn lemma_ids_after_insert(
    order: Seq<VerifiedTransaction>,
    p: int,
    tx: VerifiedTransaction,
    counter: u64,
)
    requires
        0 <= p <= order.len(),
        ids_distinct(order),
        ids_below(order, counter),
        id_is_new(order, tx.insertion_id),
        tx.insertion_id < counter,
    ensures
        ids_distinct(order.insert(p, tx)),
        ids_below(order.insert(p, tx), counter),
{
    let after = order.insert(p, tx);
    assert forall|i: int| 0 <= i < after.len() implies (#[trigger] after[i]).insertion_id
        < counter by {
        if i != p {
            let oi = if i < p { i } else { i - 1 };
            assert(after[i] == order[oi]);
        }
    }
    assert forall|i: int, j: int| 0 <= i < j < after.len() implies (
    #[trigger] after[i]).insertion_id != (#[trigger] after[j]).insertion_id by {
        let oi = if i < p { i } else { i - 1 };
        let oj = if j < p { j } else { j - 1 };
        if i != p {
            assert(after[i] == order[oi]);
        }
        if j != p {
            assert(after[j] == order[oj]);
        }
    }
}

/// Taking an entry out keeps the insertion numbers distinct, below
/// `counter`, and different from a number that was new.
pub proof fn lemma_ids_after_remove(order: Seq<VerifiedTransaction>, k: int, counter: u64, id: u64)
    requires
        0 <= k < order.len(),
    ensures
        ids_distinct(order) ==> ids_distinct(order.remove(k)),
        ids_below(order, counter) ==> ids_below(order.remove(k), counter),
        id_is_new(order, id) ==> id_is_new(order.remove(k), id),
{
    let after = order.remove(k);
    if ids_below(order, counter) {
        assert forall|i: int| 0 <= i < after.len() implies (#[trigger] after[i]).insertion_id
            < counter by {
            let oi = if i < k { i } else { i + 1 };
            assert(after[i] == order[oi]);
        }
    }
    if id_is_new(order, id) {
        assert forall|i: int| 0 <= i < after.len() implies (#[trigger] after[i]).insertion_id
            != id by {
            let oi = if i < k { i } else { i + 1 };
            assert(after[i] == order[oi]);
        }
    }
    if ids_distinct(order) {
        assert forall|i: int, j: int| 0 <= i < j < after.len() implies (
        #[trigger] after[i]).insertion_id != (#[trigger] after[j]).insertion_id by {
            let oi = if i < k { i } else { i + 1 };
            let oj = if j < k { j } else { j + 1 };
            assert(after[i] == order[oi] && after[j] == order[oj]);
        }
    }
}

} // verus!
