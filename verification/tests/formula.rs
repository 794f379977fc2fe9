use dice::error::{copy_keys, DiceError};
use dice::formula::{sum_of, Formula, FormulaRegistry, MISSING_INPUT};
use dice::registry::{Registry, Step};
use dice::snapshot::{copy_values, Liveness};
use dice::store::{bump, DiceComputations};
use dice::transaction::{BaseComputeCtx, DiceTransactionImpl, DiceTransactionUpdater};
use dice::versions::{VersionLedger, VersionNumber};

fn registry() -> FormulaRegistry {
    FormulaRegistry::new(vec![
        Formula::Input,
        Formula::Input,
        Formula::Sum(vec![0, 1]),
        Formula::Constant(100),
        Formula::Sum(vec![2, 3, 2]),
        Formula::Sum(vec![]),
    ])
}

#[test]
fn formulas_step_through_their_keys() {
    let r = registry();
    assert_eq!(r.step(0, &vec![]), Step::Fail(MISSING_INPUT));
    assert_eq!(r.step(2, &vec![]), Step::Need(0));
    assert_eq!(r.step(2, &vec![4]), Step::Need(1));
    assert_eq!(r.step(2, &vec![4, 5]), Step::Done(9));
    assert_eq!(r.step(3, &vec![]), Step::Done(100));
    assert_eq!(r.step(5, &vec![]), Step::Done(0));
    assert_eq!(r.step(6, &vec![]), Step::Fail(MISSING_INPUT));
}

#[test]
fn sums_wrap_around() {
    assert_eq!(sum_of(&vec![]), 0);
    assert_eq!(sum_of(&vec![1, 2, 3]), 6);
    assert_eq!(sum_of(&vec![u64::MAX, 2]), 1);
    assert_eq!(sum_of(&vec![u64::MAX, u64::MAX]), u64::MAX - 1);
}

#[test]
fn formulas_are_evaluated_over_the_inputs() {
    let r = registry();
    let mut updater = DiceTransactionUpdater::begin_update(DiceComputations::new(&r, 6, 8));
    updater.inject(0, 1).unwrap();
    updater.inject(1, 2).unwrap();
    let mut txn = updater.commit();
    assert_eq!(txn.as_computations_mut().compute(4).unwrap(), 3 + 100 + 3);
    assert_eq!(txn.as_computations().evaluation_stats().executed, 3);
    assert_eq!(txn.as_computations().dependencies(4), vec![2, 3, 2]);
    assert_eq!(txn.as_computations().dependents(2), vec![4]);

    let mut updater = txn.into_updater();
    updater.inject(1, 10).unwrap();
    let mut txn = updater.commit();
    assert_eq!(txn.as_computations().liveness(3), Some(Liveness::Clean));
    assert_eq!(txn.as_computations().liveness(4), Some(Liveness::MaybeDirty));
    assert_eq!(txn.as_computations_mut().compute(4).unwrap(), 11 + 100 + 11);
    // The constant was not run again.
    assert_eq!(txn.as_computations().evaluation_stats().executed, 5);
}

#[test]
fn an_input_that_was_never_injected_fails_its_readers() {
    let r = registry();
    let mut updater = DiceTransactionUpdater::begin_update(DiceComputations::new(&r, 6, 8));
    updater.inject(0, 1).unwrap();
    let mut txn = updater.commit();
    match txn.as_computations_mut().compute(2) {
        Err(DiceError::Computation { key, code }) => assert_eq!((key, code), (1, MISSING_INPUT)),
        other => panic!("{:?}", other),
    }
}

#[test]
fn a_context_hands_its_graph_on() {
    let r = registry();
    let ctx = BaseComputeCtx::new(DiceComputations::new(&r, 6, 8));
    assert_eq!(ctx.get_version(), VersionNumber(0));
    assert_eq!(ctx.as_computations().key_count(), 6);
    let mut copy = ctx.clone();
    assert_eq!(copy.as_computations_mut().compute(3).unwrap(), 100);
    assert_eq!(ctx.as_computations().liveness(3), Some(Liveness::Vacant));
    let mut updater = ctx.into_updater();
    updater.inject(0, 1).unwrap();
    let txn = updater.commit();
    assert_eq!(txn.get_version(), VersionNumber(1));
    let wrapped = DiceTransactionImpl::Modern(copy);
    assert_eq!(wrapped.get_version(), VersionNumber(0));
    assert_eq!(wrapped.as_computations().cached(3), Some(100));
}

#[test]
fn the_ledger_counts_upwards() {
    let mut ledger = VersionLedger::new();
    assert_eq!(ledger.current(), VersionNumber(0));
    assert!(ledger.has_next());
    assert_eq!(ledger.advance(), VersionNumber(1));
    assert_eq!(ledger.advance(), VersionNumber(2));
    assert_eq!(ledger.current().number(), 2);
    let copy = ledger.snapshot();
    assert_eq!(ledger.advance(), VersionNumber(3));
    assert_eq!(copy.current(), VersionNumber(2));
    assert!(VersionNumber(2).is_before(VersionNumber(3)));
    assert!(!VersionNumber(3).is_before(VersionNumber(3)));
}

#[test]
fn counters_stop_at_their_end() {
    assert_eq!(bump(0), 1);
    assert_eq!(bump(41), 42);
    assert_eq!(bump(u64::MAX), u64::MAX);
}

#[test]
fn copies_are_equal_to_what_they_copy() {
    assert_eq!(copy_keys(&vec![3, 1, 2]), vec![3, 1, 2]);
    assert_eq!(copy_values(&vec![]), Vec::<u64>::new());
    assert_eq!(copy_values(&vec![9, 9]), vec![9, 9]);
    let error = DiceError::Cycle { chain: vec![1, 2, 1] };
    match error.duplicate() {
        DiceError::Cycle { chain } => assert_eq!(chain, vec![1, 2, 1]),
        other => panic!("{:?}", other),
    }
    assert!(error.is_cycle());
    assert!(!DiceError::ReadLimit { key: 1 }.is_cycle());
}
