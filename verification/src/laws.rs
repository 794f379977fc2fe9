//! What holds of the engine across several calls.

use vstd::prelude::*;
use crate::invalidation::{last_assignment, marked_or_same};
use crate::registry::{Key, Registry, Step, Value};
use crate::semantics::lemma_value_unique;
use crate::store::DiceComputations;

verus! {

/// The inputs after the first `upto` assignments were made in turn.
pub open spec fn assign_all(
    inputs: Map<Key, Value>,
    keys: Seq<Key>,
    values: Seq<Value>,
    upto: int,
) -> Map<Key, Value>
    decreases upto,
{
    if upto <= 0 {
        inputs
    } else {
        assign_all(inputs, keys, values, upto - 1).insert(keys[upto - 1], values[upto - 1])
    }
}

/// In the inputs after some assignments, a key has the value last assigned to
/// it, or the value it had.
pub proof fn lemma_assign_all(
    inputs: Map<Key, Value>,
    keys: Seq<Key>,
    values: Seq<Value>,
    upto: int,
    key: Key,
)
    ensures
        match last_assignment(keys, values, key, upto) {
            Some(v) => assign_all(inputs, keys, values, upto).dom().contains(key) && assign_all(
                inputs,
                keys,
                values,
                upto,
            )[key] == v,
            None => assign_all(inputs, keys, values, upto).dom().contains(key)
                == inputs.dom().contains(key) && (inputs.dom().contains(key) ==> assign_all(
                inputs,
                keys,
                values,
                upto,
            )[key] == inputs[key]),
        },
    decreases upto,
{
    if upto > 0 {
        lemma_assign_all(inputs, keys, values, upto - 1, key);
    }
}

/// Snapshot isolation. Two stores with the same evaluation functions, read
/// limit and injected values give a key the same value, whatever each has
/// cached and whatever was committed to the graph that either was copied
/// from: a value that one returns is the value that the other returns.
pub proof fn law_same_inputs_same_value<'a, R: Registry>(
    one: &DiceComputations<'a, R>,
    other: &DiceComputations<'a, R>,
    key: Key,
    a: Value,
    b: Value,
)
    requires
        one.world() == other.world(),
        one.evaluates(key, a),
        other.evaluates(key, b),
    ensures
        a == b,
{
    lemma_value_unique(one.world(), key, a, b);
}

/// A copy of a store has the injected values of the store.
pub proof fn law_copy_keeps_inputs<'a, R: Registry>(
    copy: &DiceComputations<'a, R>,
    store: &DiceComputations<'a, R>,
)
    requires
        copy.mirrors(store),
    ensures
        copy.world() == store.world(),
{
    assert forall|k: Key| copy.is_leaf(k as int) == store.is_leaf(k as int) && (copy.is_leaf(
        k as int,
    ) ==> copy.cached_value(k as int) == store.cached_value(k as int)) by {
        copy.lemma_mirror_settled(store, k as int);
    }
    assert(copy.inputs() =~= store.inputs());
}

/// Change propagation. The injected values after a commit are those before
/// it with the assignments of the update made in turn; a value computed
/// after the commit is the value of its key over these.
pub proof fn law_commit_assigns_inputs<'a, R: Registry>(
    before: &DiceComputations<'a, R>,
    after: &DiceComputations<'a, R>,
    keys: Seq<Key>,
    values: Seq<Value>,
)
    requires
        keys.len() == values.len(),
        forall|i: int| 0 <= i < keys.len() ==> #[trigger] keys[i] < before.size(),
        before.published_into(after, keys, values, keys.len() as int),
    ensures
        after.inputs() == assign_all(before.inputs(), keys, values, keys.len() as int),
{
    let n = keys.len() as int;
    let assigned = assign_all(before.inputs(), keys, values, n);
    assert forall|k: Key| #[trigger]
        after.inputs().dom().contains(k) == assigned.dom().contains(k) && (assigned.dom().contains(
            k,
        ) ==> after.inputs()[k] == assigned[k]) by {
        lemma_assign_all(before.inputs(), keys, values, n, k);
        if k < before.size() {
            match last_assignment(keys, values, k, n) {
                Some(v) => {},
                None => {
                    assert(marked_or_same(before.node(k as int), after.node(k as int)));
                },
            }
        } else {
            lemma_unassigned(keys, values, k, n, before.size());
        }
    }
    assert forall|k: Key| #[trigger] assigned.dom().contains(k) implies after.inputs().dom().contains(
        k,
    ) && after.inputs()[k] == assigned[k] by {
        assert(after.inputs().dom().contains(k) == assigned.dom().contains(k));
    }
    assert(after.inputs() =~= assigned);
}

/// No stale reads. Between queries, a clean node holds the value that its
/// key has over the injected values of its store.
pub proof fn law_clean_is_current<'a, R: Registry>(store: &DiceComputations<'a, R>, key: Key)
    requires
        store.wf(),
        store.is_clean(key as int),
    ensures
        store.evaluates(key, store.cached_value(key as int)),
{
    store.lemma_clean_value(key);
}

/// Single flight. However many queries are answered at one version, one
/// after the other, the function of a key is run at most once, and where it
/// was run the key is settled: every later query at that version is answered
/// from its node.
pub proof fn law_run_once_per_version<'a, R: Registry>(
    first: &DiceComputations<'a, R>,
    then: &DiceComputations<'a, R>,
    last: &DiceComputations<'a, R>,
    key: int,
)
    requires
        first.evolves(then),
        then.evolves(last),
        0 <= key < first.size(),
    ensures
        first.evolves(last),
        first.ran_at_most_once(last, key),
        then.runs_of(key) > first.runs_of(key) ==> last.runs_of(key) == then.runs_of(key)
            && last.settled(key) && last.outcome(key) == then.outcome(key),
{
    first.lemma_evolves_transitive(then, last);
    assert(first.ran_at_most_once(then, key));
    if then.runs_of(key) > first.runs_of(key) {
        assert(then.pinned(key));
        assert(then.node(key).same_core(&last.node(key)));
    }
}

/// Cycle detection. Where the function of `a` first reads `b`, the function
/// of `b` first reads `a`, and neither key has been tried at this version, a
/// query for `a` fails with the cycle `a`, `b`, `a`; where `a` first reads
/// itself, with the cycle `a`, `a`.
pub proof fn law_first_reads_close_a_cycle<'a, R: Registry>(
    store: &DiceComputations<'a, R>,
    a: Key,
    b: Key,
)
    requires
        store.wf(),
        store.read_limit() > 0,
        store.untried(a as int),
        store.untried(b as int),
        store.registry().step_spec(a, Seq::empty()) == Step::Need(b),
        store.registry().step_spec(b, Seq::empty()) == Step::Need(a),
    ensures
        store.entry_cycle(a) == Some(
            if a == b {
                seq![a, a]
            } else {
                seq![a, b, a]
            },
        ),
{
}

/// Stores with the same nodes answer every question about a node alike.
pub proof fn law_same_nodes_same_answers<'a, R: Registry>(
    one: &DiceComputations<'a, R>,
    other: &DiceComputations<'a, R>,
    key: int,
)
    requires
        one.same_nodes(other),
    ensures
        one.size() == other.size(),
        one.is_leaf(key) == other.is_leaf(key),
        one.is_derived(key) == other.is_derived(key),
        one.is_clean(key) == other.is_clean(key),
        one.is_maybe_dirty(key) == other.is_maybe_dirty(key),
        one.cached_value(key) == other.cached_value(key),
        one.liveness_at(key) == other.liveness_at(key),
        one.recorded_dependencies(key) == other.recorded_dependencies(key),
        one.recorded_dependents(key) == other.recorded_dependents(key),
{
}

/// A key that is none of the assigned keys has no assignment.
pub proof fn lemma_unassigned(keys: Seq<Key>, values: Seq<Value>, key: Key, upto: int, size: nat)
    requires
        upto <= keys.len(),
        forall|i: int| 0 <= i < keys.len() ==> #[trigger] keys[i] < size,
        key >= size,
    ensures
        last_assignment(keys, values, key, upto) is None,
    decreases upto,
{
    if upto > 0 {
        assert(keys[upto - 1] < size);
        lemma_unassigned(keys, values, key, upto - 1, size);
    }
}

} // verus!
