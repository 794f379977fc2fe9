//! What the value of a key is: the result of its evaluation function on the
//! values of the keys it reads, down to the injected leaves. The engine
//! returns this value where there is one, whatever it has cached, and an
//! error where there is none.

use vstd::prelude::*;
use crate::registry::{Key, Registry, Step, Value};
use crate::store::DiceComputations;

verus! {

/// The setting in which keys have values: the evaluation functions, the
/// injected values, the number of keys, and the number of keys that one
/// function may read.
pub struct World<'a, R: Registry> {
    pub registry: &'a R,
    pub inputs: Map<Key, Value>,
    pub size: nat,
    pub limit: nat,
}

/// The value of `key`, found by evaluations nested at most `depth` deep.
/// `None` where that does not give a value.
pub open spec fn eval<'a, R: Registry>(world: World<'a, R>, key: Key, depth: nat) -> Option<Value>
    decreases depth, 0nat, 0nat,
{
    if key >= world.size {
        None
    } else if world.inputs.dom().contains(key) {
        Some(world.inputs[key])
    } else if depth == 0 {
        None
    } else {
        eval_from(world, key, Seq::empty(), (depth - 1) as nat)
    }
}

/// The result of the function of `key` once it has read `seen`.
pub open spec fn eval_from<'a, R: Registry>(
    world: World<'a, R>,
    key: Key,
    seen: Seq<Value>,
    depth: nat,
) -> Option<Value>
    decreases depth, 1nat, world.limit - seen.len(),
{
    match world.registry.step_spec(key, seen) {
        Step::Done(value) => Some(value),
        Step::Fail(_) => None,
        Step::Need(dep) => if seen.len() >= world.limit {
            None
        } else {
            match eval(world, dep, depth) {
                Some(read) => eval_from(world, key, seen.push(read), depth),
                None => None,
            }
        },
    }
}

/// Whether `key` has the value `value`.
pub open spec fn has_value<'a, R: Registry>(world: World<'a, R>, key: Key, value: Value) -> bool {
    exists|depth: nat| eval(world, key, depth) == Some(value)
}

/// Whether `key` has no value: its evaluation fails, or does not end.
pub open spec fn has_no_value<'a, R: Registry>(world: World<'a, R>, key: Key) -> bool {
    forall|depth: nat| eval(world, key, depth) is None
}

/// Whether the function of `key` gives no value once it has read `seen`.
pub open spec fn stuck<'a, R: Registry>(world: World<'a, R>, key: Key, seen: Seq<Value>) -> bool {
    forall|depth: nat| eval_from(world, key, seen, depth) is None
}

/// Whether the function of `key` reads `seen` in turn, each value being the
/// value of the key that it asks for.
pub open spec fn on_path<'a, R: Registry>(world: World<'a, R>, key: Key, seen: Seq<Value>) -> bool {
    forall|i: int|
        0 <= i < seen.len() ==> match #[trigger] world.registry.step_spec(key, seen.take(i)) {
            Step::Need(dep) => has_value(world, dep, seen[i]),
            _ => false,
        }
}

/// A value found at some depth is found at every greater depth.
pub proof fn lemma_eval_monotone<'a, R: Registry>(
    world: World<'a, R>,
    key: Key,
    depth: nat,
    more: nat,
)
    requires
        depth <= more,
        eval(world, key, depth) is Some,
    ensures
        eval(world, key, more) == eval(world, key, depth),
    decreases depth, 0nat, 0nat,
{
    if key < world.size && !world.inputs.dom().contains(key) {
        lemma_eval_from_monotone(
            world,
            key,
            Seq::empty(),
            (depth - 1) as nat,
            (more - 1) as nat,
        );
    }
}

pub proof fn lemma_eval_from_monotone<'a, R: Registry>(
    world: World<'a, R>,
    key: Key,
    seen: Seq<Value>,
    depth: nat,
    more: nat,
)
    requires
        depth <= more,
        eval_from(world, key, seen, depth) is Some,
    ensures
        eval_from(world, key, seen, more) == eval_from(world, key, seen, depth),
    decreases depth, 1nat, world.limit - seen.len(),
{
    match world.registry.step_spec(key, seen) {
        Step::Need(dep) => {
            lemma_eval_monotone(world, dep, depth, more);
            let read = eval(world, dep, depth)->Some_0;
            lemma_eval_from_monotone(world, key, seen.push(read), depth, more);
        },
        _ => {},
    }
}

/// A key has at most one value.
pub proof fn lemma_value_unique<'a, R: Registry>(world: World<'a, R>, key: Key, a: Value, b: Value)
    requires
        has_value(world, key, a),
        has_value(world, key, b),
    ensures
        a == b,
{
    let da = choose|depth: nat| eval(world, key, depth) == Some(a);
    let db = choose|depth: nat| eval(world, key, depth) == Some(b);
    if da <= db {
        lemma_eval_monotone(world, key, da, db);
    } else {
        lemma_eval_monotone(world, key, db, da);
    }
}

/// Where a function gives no value after the reads `seen`, it gives none
/// after the first `i` of them.
pub proof fn lemma_path<'a, R: Registry>(
    world: World<'a, R>,
    key: Key,
    seen: Seq<Value>,
    i: int,
    depth: nat,
)
    requires
        on_path(world, key, seen),
        0 <= i <= seen.len(),
        eval_from(world, key, seen, depth) is None,
    ensures
        eval_from(world, key, seen.take(i), depth) is None,
    decreases seen.len() - i,
{
    if i == seen.len() {
        assert(seen.take(i) == seen);
    } else {
        let step = world.registry.step_spec(key, seen.take(i));
        assert(step is Need);
        let dep = step->Need_0;
        assert(has_value(world, dep, seen[i]));
        match eval(world, dep, depth) {
            Some(read) => {
                lemma_value_unique(world, dep, read, seen[i]);
                assert(seen.take(i).push(read) == seen.take(i + 1));
                lemma_path(world, key, seen, i + 1, depth);
            },
            None => {},
        }
    }
}

/// A key whose function gives no value after reads that are the values of
/// the keys it asked for has no value.
pub proof fn lemma_stuck_has_no_value<'a, R: Registry>(
    world: World<'a, R>,
    key: Key,
    seen: Seq<Value>,
)
    requires
        on_path(world, key, seen),
        stuck(world, key, seen),
        !world.inputs.dom().contains(key),
    ensures
        has_no_value(world, key),
{
    assert forall|depth: nat| eval(world, key, depth) is None by {
        if key < world.size && depth > 0 {
            let less = (depth - 1) as nat;
            assert(eval_from(world, key, seen, less) is None);
            lemma_path(world, key, seen, 0, less);
            assert(seen.take(0) == Seq::<Value>::empty());
        }
    }
}

impl<'a, R: Registry> DiceComputations<'a, R> {
    /// The injected values.
    pub open(crate) spec fn inputs(&self) -> Map<Key, Value> {
        Map::new(|k: Key| self.is_leaf(k as int), |k: Key| self.cached_value(k as int))
    }

    /// The setting in which the keys of this store have their values.
    pub open spec fn world(&self) -> World<'a, R> {
        World {
            registry: self.registry(),
            inputs: self.inputs(),
            size: self.size(),
            limit: self.read_limit(),
        }
    }

    /// Whether `key` has the value `value` over the injected values of this store.
    pub open spec fn evaluates(&self, key: Key, value: Value) -> bool {
        has_value(self.world(), key, value)
    }

    /// Whether `key` has no value over the injected values of this store.
    pub open spec fn no_value(&self, key: Key) -> bool {
        has_no_value(self.world(), key)
    }

    /// Stores with the same leaves have the same world.
    pub(crate) proof fn lemma_world_kept(&self, later: &Self)
        requires
            later.size() == self.size(),
            later.registry == self.registry,
            later.read_limit == self.read_limit,
            forall|k: int|
                0 <= k < self.size() ==> (#[trigger] later.node(k).kind is Leaf <==> self.node(
                    k,
                ).kind is Leaf) && (self.node(k).kind is Leaf ==> later.node(k).value
                    == self.node(k).value),
        ensures
            later.world() == self.world(),
    {
        assert forall|k: Key| later.is_leaf(k as int) == self.is_leaf(k as int) && (self.is_leaf(
            k as int,
        ) ==> later.cached_value(k as int) == self.cached_value(k as int)) by {
            if k < self.size() {
                assert(later.node(k as int).kind is Leaf <==> self.node(k as int).kind is Leaf);
            }
        }
        assert(later.inputs() =~= self.inputs());
    }

    /// Failures stay justified where the world and the failed nodes stay.
    pub(crate) proof fn lemma_failures_kept(&self, later: &Self)
        requires
            self.failures_wf(),
            later.world() == self.world(),
            later.version() == self.version(),
            later.size() == self.size(),
            forall|k: int|
                0 <= k < self.size() && #[trigger] later.node(k).state is Failed ==> self.node(
                    k,
                ).state is Failed && later.node(k).computed_at == self.node(k).computed_at,
        ensures
            later.failures_wf(),
    {
        assert forall|k: int| 0 <= k < later.size() implies #[trigger] later.failure_ok(k) by {
            assert(self.failure_ok(k));
            if later.node(k).state is Failed {
                assert(self.node(k).state is Failed);
            }
        }
    }

    /// The rank of the node of `key`.
    pub open(crate) spec fn rank(&self, key: Key) -> nat {
        self.node(key as int).rank@
    }

    pub(crate) proof fn lemma_replay(&self, key: Key, i: int)
        requires
            self.inner_wf(),
            self.clean_derived(key as int),
            0 <= i <= self.node(key as int).dep_keys@.len(),
        ensures
            eval_from(
                self.world(),
                key,
                self.node(key as int).dep_values@.take(i),
                self.rank(key),
            ) == Some(self.node(key as int).value),
        decreases self.rank(key), 1nat, self.node(key as int).dep_keys@.len() - i,
    {
        let n = self.node(key as int);
        assert(self.node_wf(key as int));
        if i == n.dep_keys@.len() {
            assert(n.dep_values@.take(i) == n.dep_values@);
        } else {
            let dep = n.dep_keys@[i];
            assert(self.dep_current(key as int, i));
            assert(self.dep_linked(key as int, i));
            assert(self.registry.step_spec(key, n.dep_values@.take(i)) == Step::Need(dep));
            self.lemma_clean_value(dep);
            lemma_eval_monotone(self.world(), dep, self.rank(dep) + 1, self.rank(key));
            assert(n.dep_values@.take(i).push(n.dep_values@[i]) == n.dep_values@.take(i + 1));
            self.lemma_replay(key, i + 1);
        }
    }

    /// The value of a clean node is the value of its key.
    pub(crate) proof fn lemma_clean_value(&self, key: Key)
        requires
            self.inner_wf(),
            self.is_clean(key as int),
        ensures
            eval(self.world(), key, self.rank(key) + 1) == Some(self.node(key as int).value),
            self.evaluates(key, self.node(key as int).value),
        decreases self.rank(key), 2nat, 0nat,
    {
        assert(self.node_wf(key as int));
        if self.node(key as int).kind is Leaf {
            assert(self.inputs().dom().contains(key));
        } else {
            assert(!self.inputs().dom().contains(key));
            self.lemma_replay(key, 0);
            assert(self.node(key as int).dep_values@.take(0) == Seq::<Value>::empty());
        }
    }
}

} // verus!
