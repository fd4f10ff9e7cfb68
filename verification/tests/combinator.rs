use jslite::combinator::{combinator_step, CombinatorAction, CombinatorKind, CombinatorState, Outcome};

fn state(n: usize) -> CombinatorState<i32> {
    CombinatorState { settled: false, remaining: n, slots: (0..n).map(|_| None).collect() }
}

#[test]
fn all_waits_for_every_fulfilment_then_resolves() {
    let mut s = state(2);
    assert!(matches!(combinator_step(CombinatorKind::All, &mut s, 1, Outcome::Fulfilled(20)), CombinatorAction::Wait));
    assert_eq!(s.remaining, 1);
    assert!(!s.settled);
    assert!(matches!(combinator_step(CombinatorKind::All, &mut s, 0, Outcome::Fulfilled(10)), CombinatorAction::ResolveAll));
    assert!(s.settled);
    assert!(matches!(s.slots[0], Some(Outcome::Fulfilled(10))));
    assert!(matches!(s.slots[1], Some(Outcome::Fulfilled(20))));
    assert!(matches!(combinator_step(CombinatorKind::All, &mut s, 0, Outcome::Rejected(1)), CombinatorAction::Ignore));
}

#[test]
fn all_rejects_with_the_first_rejection() {
    let mut s = state(2);
    assert!(matches!(combinator_step(CombinatorKind::All, &mut s, 0, Outcome::Rejected(7)), CombinatorAction::Reject(7)));
    assert!(s.settled);
    assert_eq!(s.remaining, 2);
    assert!(s.slots[0].is_none());
}

#[test]
fn all_settled_keeps_every_outcome() {
    let mut s = state(2);
    assert!(matches!(combinator_step(CombinatorKind::AllSettled, &mut s, 0, Outcome::Rejected(3)), CombinatorAction::Wait));
    assert!(matches!(
        combinator_step(CombinatorKind::AllSettled, &mut s, 1, Outcome::Fulfilled(4)),
        CombinatorAction::ResolveSettled
    ));
    assert!(matches!(s.slots[0], Some(Outcome::Rejected(3))));
    assert!(matches!(s.slots[1], Some(Outcome::Fulfilled(4))));
}

#[test]
fn any_fulfils_with_the_first_fulfilment_and_aggregates_rejections() {
    let mut s = state(2);
    assert!(matches!(combinator_step(CombinatorKind::Any, &mut s, 0, Outcome::Rejected(1)), CombinatorAction::Wait));
    assert!(matches!(combinator_step(CombinatorKind::Any, &mut s, 1, Outcome::Fulfilled(9)), CombinatorAction::Resolve(9)));
    let mut t = state(2);
    assert!(matches!(combinator_step(CombinatorKind::Any, &mut t, 0, Outcome::Rejected(1)), CombinatorAction::Wait));
    assert!(matches!(combinator_step(CombinatorKind::Any, &mut t, 1, Outcome::Rejected(2)), CombinatorAction::RejectAggregate));
    assert!(t.settled);
}

#[test]
fn race_settles_with_the_first_outcome() {
    let mut s = state(3);
    assert!(matches!(combinator_step(CombinatorKind::Race, &mut s, 2, Outcome::Rejected(5)), CombinatorAction::Reject(5)));
    assert!(matches!(combinator_step(CombinatorKind::Race, &mut s, 0, Outcome::Fulfilled(6)), CombinatorAction::Ignore));
}

#[test]
fn an_empty_count_settles_on_the_first_slot_filled() {
    let mut s = CombinatorState { settled: false, remaining: 0, slots: vec![None] };
    assert!(matches!(combinator_step(CombinatorKind::All, &mut s, 0, Outcome::Fulfilled(1)), CombinatorAction::ResolveAll));
}
