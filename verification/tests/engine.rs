use dice::error::DiceError;
use dice::registry::{Key, Registry, Step, Value};
use dice::snapshot::Liveness;
use dice::store::DiceComputations;
use dice::transaction::{DiceTransactionImpl, DiceTransactionUpdater};
use dice::versions::VersionNumber;
use std::cell::Cell;

/// What the function of a key does.
enum Rule {
    /// The key is an input: its function knows no value for it.
    Input,
    /// Ten times the value of a key.
    TimesTen(Key),
    /// The sum of the values of two keys.
    Sum(Key, Key),
    /// Half the value of a key, rounded down.
    Half(Key),
    /// The value of the second key where the first is not 0, else of the third.
    Choose(Key, Key, Key),
    /// A constant.
    Constant(Value),
    /// Fails with a code.
    Broken(u64),
    /// Reads the same key for ever.
    Greedy(Key),
}

struct Table {
    rules: Vec<Rule>,
    finished: Vec<Cell<u64>>,
}

impl Table {
    fn new(rules: Vec<Rule>) -> Table {
        let finished = rules.iter().map(|_| Cell::new(0)).collect();
        Table { rules, finished }
    }

    fn done(&self, key: Key, value: Value) -> Step {
        self.finished[key].set(self.finished[key].get() + 1);
        Step::Done(value)
    }

    /// How often the function of `key` ran to its end.
    fn runs(&self, key: Key) -> u64 {
        self.finished[key].get()
    }
}

impl Registry for Table {
    fn step(&self, key: Key, seen: &Vec<Value>) -> Step {
        match &self.rules[key] {
            Rule::Input => Step::Fail(404),
            Rule::TimesTen(a) => match seen.len() {
                0 => Step::Need(*a),
                _ => self.done(key, seen[0] * 10),
            },
            Rule::Sum(a, b) => match seen.len() {
                0 => Step::Need(*a),
                1 => Step::Need(*b),
                _ => self.done(key, seen[0] + seen[1]),
            },
            Rule::Half(a) => match seen.len() {
                0 => Step::Need(*a),
                _ => self.done(key, seen[0] / 2),
            },
            Rule::Choose(c, a, b) => match seen.len() {
                0 => Step::Need(*c),
                1 => Step::Need(if seen[0] != 0 { *a } else { *b }),
                _ => self.done(key, seen[1]),
            },
            Rule::Constant(v) => self.done(key, *v),
            Rule::Broken(code) => Step::Fail(*code),
            Rule::Greedy(a) => Step::Need(*a),
        }
    }
}

const X: Key = 0;
const F: Key = 1;

fn x_and_f() -> Table {
    Table::new(vec![Rule::Input, Rule::TimesTen(X)])
}

fn start<'a>(table: &'a Table) -> DiceTransactionUpdater<'a, Table> {
    DiceTransactionUpdater::begin_update(DiceComputations::new(table, table.rules.len(), 16))
}

fn commit_one<'a>(
    txn: DiceTransactionImpl<'a, Table>,
    key: Key,
    value: Value,
) -> DiceTransactionImpl<'a, Table> {
    let mut updater = txn.into_updater();
    updater.inject(key, value).unwrap();
    assert!(updater.can_commit());
    updater.commit()
}

fn chain_of(error: &DiceError) -> Vec<Key> {
    match error {
        DiceError::Cycle { chain } => chain.clone(),
        other => panic!("no cycle: {:?}", other),
    }
}

#[test]
fn early_cutoff_keeps_the_value_without_running() {
    let table = x_and_f();
    let mut updater = start(&table);
    updater.inject(X, 1).unwrap();
    let mut v1 = updater.commit();
    assert_eq!(v1.get_version(), VersionNumber(1));
    assert_eq!(v1.as_computations_mut().compute(F).unwrap(), 10);
    assert_eq!(table.runs(F), 1);
    assert_eq!(v1.as_computations().evaluation_stats().executed, 1);

    let mut v2 = commit_one(v1, X, 1);
    assert_eq!(v2.get_version(), VersionNumber(2));
    assert_eq!(v2.as_computations_mut().compute(F).unwrap(), 10);
    assert_eq!(table.runs(F), 1);
    assert_eq!(v2.as_computations().evaluation_stats().executed, 1);
}

#[test]
fn an_unchanged_dependency_stops_the_recomputation() {
    // G is half of X, H is ten times G.
    let table = Table::new(vec![Rule::Input, Rule::Half(0), Rule::TimesTen(1)]);
    let mut updater = start(&table);
    updater.inject(0, 2).unwrap();
    let mut v1 = updater.commit();
    assert_eq!(v1.as_computations_mut().compute(2).unwrap(), 10);
    assert_eq!((table.runs(1), table.runs(2)), (1, 1));

    let mut v2 = commit_one(v1, 0, 3);
    assert_eq!(v2.as_computations().liveness(1), Some(Liveness::MaybeDirty));
    assert_eq!(v2.as_computations().liveness(2), Some(Liveness::MaybeDirty));
    assert_eq!(v2.as_computations_mut().compute(2).unwrap(), 10);
    assert_eq!((table.runs(1), table.runs(2)), (2, 1));
    let stats = v2.as_computations().evaluation_stats();
    assert_eq!(stats.executed, 3);
    assert_eq!(stats.early_cutoff, 1);
    assert_eq!(v2.as_computations().liveness(2), Some(Liveness::Clean));
}

#[test]
fn a_changed_input_reaches_what_was_computed_from_it() {
    let table = x_and_f();
    let mut updater = start(&table);
    updater.inject(X, 1).unwrap();
    let mut v1 = updater.commit();
    assert_eq!(v1.as_computations_mut().compute(F).unwrap(), 10);

    let mut old = v1.clone();
    let mut v2 = commit_one(v1, X, 2);
    assert_eq!(v2.as_computations().liveness(F), Some(Liveness::MaybeDirty));
    assert_eq!(v2.as_computations_mut().compute(F).unwrap(), 20);
    assert_eq!(table.runs(F), 2);
    assert_eq!(old.as_computations_mut().compute(F).unwrap(), 10);
    assert_eq!(old.get_version(), VersionNumber(1));
}

#[test]
fn a_transaction_keeps_its_snapshot() {
    let table = x_and_f();
    let mut updater = start(&table);
    updater.inject(X, 1).unwrap();
    let v1 = updater.commit();
    let mut kept = v1.clone();
    let mut v2 = commit_one(v1, X, 2);
    assert_eq!(v2.as_computations_mut().compute(F).unwrap(), 20);
    assert_eq!(v2.as_computations_mut().compute(X).unwrap(), 2);
    assert_eq!(kept.as_computations_mut().compute(F).unwrap(), 10);
    assert_eq!(kept.as_computations_mut().compute(X).unwrap(), 1);
    assert_eq!(kept.as_computations_mut().compute(F).unwrap(), 10);
}

#[test]
fn a_key_that_two_keys_read_runs_once() {
    // 3 is the sum of 1 and 2, which are both ten times 0's half.
    let table = Table::new(vec![
        Rule::Input,
        Rule::Half(0),
        Rule::TimesTen(1),
        Rule::Sum(1, 2),
        Rule::Sum(3, 2),
    ]);
    let mut updater = start(&table);
    updater.inject(0, 8).unwrap();
    let mut txn = updater.commit();
    assert_eq!(txn.as_computations_mut().compute(4).unwrap(), 4 + 40 + 40);
    assert_eq!(
        (table.runs(1), table.runs(2), table.runs(3), table.runs(4)),
        (1, 1, 1, 1)
    );
    assert_eq!(txn.as_computations_mut().compute(4).unwrap(), 84);
    assert_eq!(txn.as_computations().evaluation_stats().executed, 4);
}

#[test]
fn a_cycle_is_reported_with_its_chain() {
    let table = Table::new(vec![Rule::TimesTen(1), Rule::TimesTen(0), Rule::TimesTen(0)]);
    let mut txn = start(&table).commit();
    let error = txn.as_computations_mut().compute(0).unwrap_err();
    assert_eq!(chain_of(&error), vec![0, 1, 0]);
    // Both keys of the cycle hold the failure now.
    let again = txn.as_computations_mut().compute(1).unwrap_err();
    assert_eq!(chain_of(&again), vec![0, 1, 0]);
    // So does a key that reads one of them.
    let outside = txn.as_computations_mut().compute(2).unwrap_err();
    assert_eq!(chain_of(&outside), vec![0, 1, 0]);
    assert_eq!(txn.as_computations().liveness(0), Some(Liveness::Failed));
}

#[test]
fn a_key_that_reads_itself_is_a_cycle() {
    let table = Table::new(vec![Rule::TimesTen(0)]);
    let mut txn = start(&table).commit();
    let error = txn.as_computations_mut().compute(0).unwrap_err();
    assert!(error.is_cycle());
    assert_eq!(chain_of(&error), vec![0, 0]);
}

#[test]
fn a_derived_key_cannot_be_injected() {
    let table = x_and_f();
    let mut updater = start(&table);
    updater.inject(X, 1).unwrap();
    let mut txn = updater.commit();
    assert!(!txn.as_computations().has_dependencies(F));
    assert_eq!(txn.as_computations_mut().compute(F).unwrap(), 10);
    assert!(txn.as_computations().has_dependencies(F));
    let mut updater = txn.into_updater();
    match updater.inject(F, 5) {
        Err(DiceError::InvalidInjection { key }) => assert_eq!(key, F),
        other => panic!("{:?}", other),
    }
    // The refused injection leaves nothing behind.
    let mut txn = updater.commit();
    assert_eq!(txn.as_computations_mut().compute(F).unwrap(), 10);
    assert_eq!(table.runs(F), 1);
}

#[test]
fn the_same_value_again_leaves_the_node_clean() {
    let table = x_and_f();
    let mut updater = start(&table);
    updater.inject(X, 1).unwrap();
    let mut v1 = updater.commit();
    assert_eq!(v1.as_computations_mut().compute(F).unwrap(), 10);
    let v2 = commit_one(v1, X, 1);
    assert_eq!(v2.get_version(), VersionNumber(2));
    assert_eq!(v2.as_computations().liveness(F), Some(Liveness::Clean));
    assert_eq!(v2.as_computations().cached(F), Some(10));
    let mut v3 = commit_one(v2, X, 1);
    assert_eq!(v3.get_version(), VersionNumber(3));
    assert_eq!(v3.as_computations_mut().compute(F).unwrap(), 10);
    assert_eq!(table.runs(F), 1);
    assert_eq!(v3.as_computations().evaluation_stats().early_cutoff, 0);
}

#[test]
fn a_failure_is_kept_for_its_version() {
    let table = Table::new(vec![Rule::Broken(7), Rule::TimesTen(0)]);
    let mut txn = start(&table).commit();
    for key in [1, 0, 1] {
        match txn.as_computations_mut().compute(key) {
            Err(DiceError::Computation { key, code }) => assert_eq!((key, code), (0, 7)),
            other => panic!("{:?}", other),
        }
    }
    // Each function ran once: the second and third query were answered from the nodes.
    assert_eq!(txn.as_computations().evaluation_stats().executed, 2);
    // The next version tries again.
    let mut next = txn.into_updater().commit();
    assert!(next.as_computations_mut().compute(0).is_err());
    assert_eq!(next.as_computations().evaluation_stats().executed, 3);
}

#[test]
fn an_input_without_a_value_fails_until_it_is_injected() {
    let table = x_and_f();
    let mut txn = start(&table).commit();
    match txn.as_computations_mut().compute(F) {
        Err(DiceError::Computation { key, code }) => assert_eq!((key, code), (X, 404)),
        other => panic!("{:?}", other),
    }
    let mut txn = commit_one(txn, X, 4);
    assert_eq!(txn.as_computations_mut().compute(F).unwrap(), 40);
}

#[test]
fn keys_outside_the_store_are_refused() {
    let table = Table::new(vec![Rule::TimesTen(9)]);
    let mut updater = start(&table);
    match updater.inject(1, 5) {
        Err(DiceError::UnknownKey { key }) => assert_eq!(key, 1),
        other => panic!("{:?}", other),
    }
    let mut txn = updater.commit();
    match txn.as_computations_mut().compute(3) {
        Err(DiceError::UnknownKey { key }) => assert_eq!(key, 3),
        other => panic!("{:?}", other),
    }
    match txn.as_computations_mut().compute(0) {
        Err(DiceError::UnknownKey { key }) => assert_eq!(key, 9),
        other => panic!("{:?}", other),
    }
    assert_eq!(txn.as_computations().liveness(3), None);
}

#[test]
fn a_function_may_read_only_so_many_keys() {
    let table = Table::new(vec![Rule::Constant(1), Rule::Greedy(0)]);
    let mut txn = DiceTransactionUpdater::begin_update(DiceComputations::new(&table, 2, 3)).commit();
    match txn.as_computations_mut().compute(1) {
        Err(DiceError::ReadLimit { key }) => assert_eq!(key, 1),
        other => panic!("{:?}", other),
    }
    assert_eq!(txn.as_computations().evaluation_stats().cached, 2);
}

#[test]
fn dependencies_follow_the_values_read() {
    // 3 reads 1 where 0 is set, else 2.
    let table = Table::new(vec![Rule::Input, Rule::Input, Rule::Input, Rule::Choose(0, 1, 2)]);
    let mut updater = start(&table);
    updater.inject(0, 1).unwrap();
    updater.inject(1, 11).unwrap();
    updater.inject(2, 22).unwrap();
    let mut txn = updater.commit();
    assert_eq!(txn.as_computations_mut().compute(3).unwrap(), 11);
    assert_eq!(txn.as_computations().dependencies(3), vec![0, 1]);
    assert_eq!(txn.as_computations().dependents(1), vec![3]);

    // A key that was not read does not matter.
    let mut txn = commit_one(txn, 2, 23);
    assert_eq!(txn.as_computations().liveness(3), Some(Liveness::Clean));
    assert_eq!(txn.as_computations_mut().compute(3).unwrap(), 11);
    assert_eq!(table.runs(3), 1);

    let mut txn = commit_one(txn, 0, 0);
    assert_eq!(txn.as_computations().liveness(3), Some(Liveness::MaybeDirty));
    assert_eq!(txn.as_computations_mut().compute(3).unwrap(), 23);
    assert_eq!(txn.as_computations().dependencies(3), vec![0, 2]);
    assert_eq!(table.runs(3), 2);
}

#[test]
fn the_last_injection_of_a_key_wins() {
    let table = x_and_f();
    let mut updater = start(&table);
    updater.inject(X, 1).unwrap();
    updater.inject(X, 2).unwrap();
    let mut txn = updater.commit();
    assert_eq!(txn.get_version(), VersionNumber(1));
    assert_eq!(txn.as_computations_mut().compute(X).unwrap(), 2);
    assert_eq!(txn.as_computations_mut().compute(F).unwrap(), 20);
}

#[test]
fn a_new_store_is_empty_at_version_zero() {
    let table = x_and_f();
    let store = DiceComputations::new(&table, 2, 4);
    assert_eq!(store.get_version(), VersionNumber::zero());
    assert_eq!(store.get_version().number(), 0);
    assert_eq!(store.key_count(), 2);
    assert_eq!(store.liveness(X), Some(Liveness::Vacant));
    assert_eq!(store.cached(X), None);
    assert!(store.has_next_version());
    let stats = store.evaluation_stats();
    assert_eq!((stats.executed, stats.early_cutoff, stats.cached), (0, 0, 0));
    assert!(VersionNumber::new(1).is_before(VersionNumber::new(2)));
}

#[test]
fn the_validity_interval_follows_the_commits() {
    let table = x_and_f();
    let mut updater = start(&table);
    updater.inject(X, 1).unwrap();
    let mut v1 = updater.commit();
    assert_eq!(v1.as_computations().validity(F), None);
    assert_eq!(v1.as_computations().validity(X), Some((VersionNumber(1), None)));
    v1.as_computations_mut().compute(F).unwrap();
    assert_eq!(v1.as_computations().validity(F), Some((VersionNumber(1), None)));

    let mut v2 = commit_one(v1, X, 2);
    assert_eq!(
        v2.as_computations().validity(F),
        Some((VersionNumber(1), Some(VersionNumber(2))))
    );
    assert_eq!(v2.as_computations().validity(X), Some((VersionNumber(2), None)));
    v2.as_computations_mut().compute(F).unwrap();
    assert_eq!(v2.as_computations().validity(F), Some((VersionNumber(2), None)));

    // An unchanged input keeps the interval open from where it began.
    let v3 = commit_one(v2, X, 2);
    assert_eq!(v3.as_computations().validity(F), Some((VersionNumber(2), None)));
    assert_eq!(v3.as_computations().validity(X), Some((VersionNumber(2), None)));
    assert_eq!(v3.as_computations().validity(9), None);
}

#[test]
fn a_copy_of_the_store_holds_what_the_store_held() {
    let table = Table::new(vec![Rule::Input, Rule::TimesTen(0), Rule::Broken(3)]);
    let mut updater = start(&table);
    updater.inject(0, 6).unwrap();
    let mut txn = updater.commit();
    assert_eq!(txn.as_computations_mut().compute(1).unwrap(), 60);
    assert!(txn.as_computations_mut().compute(2).is_err());
    let mut copy = txn.as_computations().snapshot();
    assert_eq!(copy.get_version(), VersionNumber(1));
    assert_eq!(copy.key_count(), 3);
    assert_eq!(copy.liveness(1), Some(Liveness::Clean));
    assert_eq!(copy.liveness(2), Some(Liveness::Failed));
    assert_eq!(copy.cached(1), Some(60));
    assert_eq!(copy.dependencies(1), vec![0]);
    assert_eq!(copy.dependents(0), vec![1]);
    let before = copy.evaluation_stats();
    assert_eq!(copy.compute(1).unwrap(), 60);
    match copy.compute(2) {
        Err(DiceError::Computation { key, code }) => assert_eq!((key, code), (2, 3)),
        other => panic!("{:?}", other),
    }
    assert_eq!(copy.evaluation_stats().executed, before.executed);
    // What the copy computes does not reach the store it was copied from.
    assert_eq!(
        txn.as_computations().evaluation_stats().cached,
        before.cached
    );
}

#[test]
fn an_injection_into_a_copy_stays_in_the_copy() {
    let table = x_and_f();
    let mut updater = start(&table);
    updater.inject(X, 1).unwrap();
    let mut v1 = updater.commit();
    let copy = v1.clone();
    let mut other = commit_one(copy, X, 7);
    assert_eq!(other.as_computations_mut().compute(F).unwrap(), 70);
    assert_eq!(v1.as_computations_mut().compute(F).unwrap(), 10);
}

/// The value of `key` computed from the rules alone.
fn from_scratch(rules: &[Rule], inputs: &[Option<Value>], key: Key) -> Option<Value> {
    if let Some(value) = inputs[key] {
        return Some(value);
    }
    match &rules[key] {
        Rule::Input => None,
        Rule::TimesTen(a) => Some(from_scratch(rules, inputs, *a)? * 10),
        Rule::Sum(a, b) => {
            Some(from_scratch(rules, inputs, *a)? + from_scratch(rules, inputs, *b)?)
        }
        Rule::Half(a) => Some(from_scratch(rules, inputs, *a)? / 2),
        Rule::Choose(c, a, b) => {
            if from_scratch(rules, inputs, *c)? != 0 {
                from_scratch(rules, inputs, *a)
            } else {
                from_scratch(rules, inputs, *b)
            }
        }
        Rule::Constant(v) => Some(*v),
        Rule::Broken(_) => None,
        Rule::Greedy(_) => None,
    }
}

#[test]
fn the_engine_agrees_with_evaluation_from_scratch() {
    let mut seed: u64 = 0x1234_5678_9ABC_DEF1;
    let mut next = move |bound: u64| {
        seed ^= seed << 13;
        seed ^= seed >> 7;
        seed ^= seed << 17;
        seed % bound
    };
    let inputs_count = 8;
    let count = 40;
    let mut rules: Vec<Rule> = Vec::new();
    for key in 0..count {
        if key < inputs_count {
            rules.push(Rule::Input);
            continue;
        }
        let below = |n: u64| n as usize;
        let a = below(next(key as u64));
        let b = below(next(key as u64));
        let c = below(next(key as u64));
        rules.push(match next(5) {
            0 => Rule::Sum(a, b),
            1 => Rule::Half(a),
            2 => Rule::Choose(c, a, b),
            3 => Rule::Constant(next(50)),
            _ => Rule::Sum(a, a),
        });
    }
    let table = Table::new(rules);
    let mut inputs: Vec<Option<Value>> = vec![None; count];
    let mut txn = start(&table).commit();
    let mut version = 1;
    for round in 0..300 {
        // Some rounds leave an input without a value at first.
        let mut updater = txn.into_updater();
        for _ in 0..next(4) {
            let key = next(inputs_count as u64) as usize;
            let value = next(6);
            updater.inject(key, value).unwrap();
            inputs[key] = Some(value);
        }
        txn = updater.commit();
        version += 1;
        assert_eq!(txn.get_version(), VersionNumber(version));
        let before = txn.as_computations().evaluation_stats();
        for _ in 0..5 {
            let key = next(count as u64) as usize;
            let expected = from_scratch(&table.rules, &inputs, key);
            let got = txn.compute(key);
            assert_eq!(got.as_ref().ok().copied(), expected, "round {} key {}", round, key);
            if let Ok(value) = got {
                assert_eq!(txn.as_computations().liveness(key), Some(Liveness::Clean));
                assert_eq!(txn.as_computations().cached(key), Some(value));
            }
            // Asking again runs nothing.
            let stats = txn.as_computations().evaluation_stats();
            assert_eq!(txn.compute(key).ok(), expected);
            assert_eq!(txn.as_computations().evaluation_stats().executed, stats.executed);
        }
        assert!(txn.as_computations().evaluation_stats().executed >= before.executed);
    }
}
