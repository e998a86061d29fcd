//! One pass over the global order, best first, with a readiness oracle.

use crate::ready::{Readiness, Ready};
use crate::types::{Address, VerifiedTransaction};
use vstd::prelude::*;

verus! {

/// How far a pass has come: what it picked, which senders it found stalled,
/// and what the oracle remembers.
pub struct Pass<T> {
    /// The transactions found ready, in the order they were met.
    pub picked: Seq<VerifiedTransaction>,
    /// The senders that are passed over for the rest of the pass.
    pub stalled: Set<Address>,
    /// What the oracle remembers.
    pub state: T,
}

/// A pass before its first step, with an oracle that remembers `start`.
pub open spec fn outset<R: Ready>(start: R::State) -> Pass<R::State> {
    Pass { picked: Seq::empty(), stalled: Set::empty(), state: start }
}

/// One step of a pass. A transaction of a stalled sender is passed over
/// unasked. Else the oracle is asked: a ready transaction is picked, a
/// future one is passed over, and a stalled one has its sender passed over
/// from here on.
pub open spec fn step<R: Ready>(pass: Pass<R::State>, tx: VerifiedTransaction) -> Pass<R::State> {
    if pass.stalled.contains(tx.sender) {
        pass
    } else {
        let state = R::spec_next(pass.state, tx);
        match R::spec_is_ready(pass.state, tx) {
            Readiness::Ready => Pass { picked: pass.picked.push(tx), stalled: pass.stalled, state },
            Readiness::Future => Pass { picked: pass.picked, stalled: pass.stalled, state },
            Readiness::Stalled => Pass {
                picked: pass.picked,
                stalled: pass.stalled.insert(tx.sender),
                state,
            },
        }
    }
}

/// The pass that goes on from `from` over `order`, first entry first.
pub open spec fn resume<R: Ready>(order: Seq<VerifiedTransaction>, from: Pass<R::State>) -> Pass<
    R::State,
>
    decreases order.len(),
{
    if order.len() == 0 {
        from
    } else {
        step::<R>(resume::<R>(order.drop_last(), from), order.last())
    }
}

/// The pass over all of `order`, first entry first, with an oracle that
/// remembers `start` at the outset.
pub open spec fn traverse<R: Ready>(order: Seq<VerifiedTransaction>, start: R::State) -> Pass<
    R::State,
> {
    resume::<R>(order, outset::<R>(start))
}

/// A pass with nothing picked yet, in which `stalled` are passed over and
/// the oracle remembers `state`.
pub open spec fn midway<R: Ready>(stalled: Set<Address>, state: R::State) -> Pass<R::State> {
    Pass { picked: Seq::empty(), stalled, state }
}

/// A pass over an order is its first step and then the pass over the rest.
pub proof fn lemma_resume_from_front<R: Ready>(
    order: Seq<VerifiedTransaction>,
    from: Pass<R::State>,
)
    requires
        order.len() > 0,
    ensures
        resume::<R>(order, from) == resume::<R>(order.drop_first(), step::<R>(from, order[0])),
    decreases order.len(),
{
    let first = step::<R>(from, order[0]);
    let rest = order.drop_first();
    if order.len() == 1 {
        assert(resume::<R>(order.drop_last(), from) == from);
        assert(resume::<R>(rest, first) == first);
        assert(order.last() == order[0]);
    } else {
        let front = order.drop_last();
        lemma_resume_from_front::<R>(front, from);
        assert(front.drop_first() =~= rest.drop_last());
        assert(front[0] == order[0]);
        assert(rest.last() == order.last());
        assert(resume::<R>(rest, first) == step::<R>(
            resume::<R>(rest.drop_last(), first),
            rest.last(),
        ));
    }
}

/// What a pass had picked before it went on stays in front of what it picks
/// then, and has no bearing on that, nor on the senders found stalled, nor
/// on what the oracle remembers.
pub proof fn lemma_resume_carries_picked<R: Ready>(
    order: Seq<VerifiedTransaction>,
    from: Pass<R::State>,
)
    ensures
        resume::<R>(order, from).picked == from.picked + resume::<R>(
            order,
            midway::<R>(from.stalled, from.state),
        ).picked,
        resume::<R>(order, from).stalled == resume::<R>(
            order,
            midway::<R>(from.stalled, from.state),
        ).stalled,
        resume::<R>(order, from).state == resume::<R>(
            order,
            midway::<R>(from.stalled, from.state),
        ).state,
    decreases order.len(),
{
    let bare = midway::<R>(from.stalled, from.state);
    if order.len() == 0 {
        assert(from.picked + bare.picked =~= from.picked);
    } else {
        let front = order.drop_last();
        lemma_resume_carries_picked::<R>(front, from);
        let a = resume::<R>(front, from);
        let b = resume::<R>(front, bare);
        assert((from.picked + b.picked).push(order.last()) =~= from.picked + b.picked.push(
            order.last(),
        ));
    }
}

/// A pass with an oracle to which everything is ready, whatever it
/// remembers, picks every entry, in order.
pub proof fn lemma_all_ready_picks_all<R: Ready>(order: Seq<VerifiedTransaction>, start: R::State)
    requires
        forall|state: R::State, tx: VerifiedTransaction| #[trigger]
            R::spec_is_ready(state, tx) == Readiness::Ready,
    ensures
        traverse::<R>(order, start).picked == order,
        traverse::<R>(order, start).stalled == Set::<Address>::empty(),
    decreases order.len(),
{
    if order.len() > 0 {
        lemma_all_ready_picks_all::<R>(order.drop_last(), start);
        assert(order.drop_last().push(order.last()) =~= order);
    } else {
        assert(order =~= Seq::<VerifiedTransaction>::empty());
    }
}

/// Every entry that a pass picks is an entry of the order, and the pass
/// picks them in the order's own sequence: there are rising indices of the
/// order at which the picked entries stand.
pub proof fn lemma_picked_in_order<R: Ready>(order: Seq<VerifiedTransaction>, start: R::State)
    ensures
        exists|at: Seq<int>| #[trigger] stands_at(traverse::<R>(order, start).picked, order, at),
    decreases order.len(),
{
    if order.len() == 0 {
        assert(stands_at(traverse::<R>(order, start).picked, order, Seq::<int>::empty()));
    } else {
        let front = order.drop_last();
        lemma_picked_in_order::<R>(front, start);
        let before = traverse::<R>(front, start);
        let at = choose|at: Seq<int>| #[trigger] stands_at(before.picked, front, at);
        let after = traverse::<R>(order, start);
        if after.picked == before.picked {
            assert(stands_at(after.picked, order, at));
        } else {
            let more = at.push(order.len() - 1);
            assert(after.picked == before.picked.push(order.last()));
            assert(stands_at(after.picked, order, more));
        }
    }
}

/// Whether `picked` stands in `order` at the indices `at`, which rise.
pub open spec fn stands_at(
    picked: Seq<VerifiedTransaction>,
    order: Seq<VerifiedTransaction>,
    at: Seq<int>,
) -> bool {
    &&& at.len() == picked.len()
    &&& forall|k: int| 0 <= k < at.len() ==> 0 <= #[trigger] at[k] < order.len()
    &&& forall|k: int| 0 <= k < at.len() ==> picked[k] == order[#[trigger] at[k]]
    &&& forall|k: int, l: int| 0 <= k < l < at.len() ==> #[trigger] at[k] < #[trigger] at[l]
}

} // verus!
