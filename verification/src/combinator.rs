use vstd::prelude::*;

verus! {

/// The promise combinators: `Promise.all`, `Promise.allSettled`,
/// `Promise.any` and `Promise.race`.
#[derive(Debug, Clone, Copy, PartialEq, Eq, Structural)]
pub enum CombinatorKind {
    All,
    AllSettled,
    Any,
    Race,
}

/// How one input promise settled, with its value or rejection reason.
#[derive(Debug)]
pub enum Outcome<V> {
    Fulfilled(V),
    Rejected(V),
}

/// The state of a combinator's result promise while its inputs settle:
/// whether the result has settled, how many inputs it still waits for, and
/// one slot per input.
///
/// `All` keeps each fulfilled value, `AllSettled` each outcome and `Any`
/// each rejection reason; `Race` keeps nothing.
#[derive(Debug)]
pub struct CombinatorState<V> {
    pub settled: bool,
    pub remaining: usize,
    pub slots: Vec<Option<Outcome<V>>>,
}

/// What the runtime does with the result promise after one input settled.
#[derive(Debug)]
pub enum CombinatorAction<V> {
    /// The result had already settled: nothing happens.
    Ignore,
    /// The result still waits for other inputs.
    Wait,
    /// The result fulfils with this value.
    Resolve(V),
    /// The result rejects with this reason.
    Reject(V),
    /// `Promise.all`: every input fulfilled; the result fulfils with the
    /// array of the slots' values.
    ResolveAll,
    /// `Promise.allSettled`: every input settled; the result fulfils with
    /// the array of the slots' outcomes.
    ResolveSettled,
    /// `Promise.any`: every input rejected; the result rejects with an
    /// aggregate error of the slots' reasons.
    RejectAggregate,
}

/// `n - 1`, or 0 when `n` is 0.
pub open spec fn one_less(n: usize) -> usize {
    if n == 0 {
        0
    } else {
        (n - 1) as usize
    }
}

/// Input `index` of a combinator of kind `kind` settled with `outcome`.
///
/// A settled result ignores it. `Race` settles with the first outcome;
/// `All` rejects with the first rejection and `Any` fulfils with the first
/// fulfilment. Otherwise the outcome fills the input's slot and one input
/// fewer is waited for: when none is left the result settles (`All` and
/// `AllSettled` fulfil, `Any` rejects with an aggregate error), and it
/// waits otherwise.
pub fn combinator_step<V>(
    kind: CombinatorKind,
    state: &mut CombinatorState<V>,
    index: usize,
    outcome: Outcome<V>,
) -> (action: CombinatorAction<V>)
    requires
        index < old(state).slots@.len(),
    ensures
        old(state).settled ==> action is Ignore && *final(state) == *old(state),
        !old(state).settled ==> match (kind, outcome) {
            (CombinatorKind::Race, Outcome::Fulfilled(v)) | (CombinatorKind::Any, Outcome::Fulfilled(v)) => {
                &&& action == CombinatorAction::Resolve(v)
                &&& final(state).settled
                &&& final(state).remaining == old(state).remaining
                &&& final(state).slots@ == old(state).slots@
            },
            (CombinatorKind::Race, Outcome::Rejected(r)) | (CombinatorKind::All, Outcome::Rejected(r)) => {
                &&& action == CombinatorAction::Reject(r)
                &&& final(state).settled
                &&& final(state).remaining == old(state).remaining
                &&& final(state).slots@ == old(state).slots@
            },
            _ => {
                &&& final(state).slots@ == old(state).slots@.update(index as int, Some(outcome))
                &&& final(state).remaining == one_less(old(state).remaining)
                &&& final(state).settled == (final(state).remaining == 0)
                &&& action == if final(state).remaining != 0 {
                    CombinatorAction::<V>::Wait
                } else {
                    match kind {
                        CombinatorKind::All => CombinatorAction::<V>::ResolveAll,
                        CombinatorKind::AllSettled => CombinatorAction::<V>::ResolveSettled,
                        _ => CombinatorAction::<V>::RejectAggregate,
                    }
                }
            },
        },
{
    if state.settled {
        return CombinatorAction::Ignore;
    }
    match (kind, outcome) {
        (CombinatorKind::Race, Outcome::Fulfilled(v)) | (CombinatorKind::Any, Outcome::Fulfilled(v)) => {
            state.settled = true;
            CombinatorAction::Resolve(v)
        },
        (CombinatorKind::Race, Outcome::Rejected(r)) | (CombinatorKind::All, Outcome::Rejected(r)) => {
            state.settled = true;
            CombinatorAction::Reject(r)
        },
        (kind, outcome) => {
            state.slots.set(index, Some(outcome));
            if state.remaining > 0 {
                state.remaining = state.remaining - 1;
            }
            if state.remaining != 0 {
                CombinatorAction::Wait
            } else {
                state.settled = true;
                match kind {
                    CombinatorKind::All => CombinatorAction::ResolveAll,
                    CombinatorKind::AllSettled => CombinatorAction::ResolveSettled,
                    _ => CombinatorAction::RejectAggregate,
                }
            }
        },
    }
}

} // verus!
