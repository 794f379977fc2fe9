//! Keys, values, and the evaluation functions registered for the keys.

use vstd::prelude::*;

verus! {

/// Identifies a computation: an index into the node store.
pub type Key = usize;

/// The result of a computation. Values are compared with `==`.
pub type Value = u64;

/// What an evaluation function does next, given the values it has read.
#[derive(Clone, Copy, Debug, PartialEq, Eq, Structural)]
pub enum Step {
    /// It reads the value of another key.
    Need(Key),
    /// It finishes with a value.
    Done(Value),
    /// It fails, with a code of its own choosing.
    Fail(u64),
}

/// The evaluation functions of the derived keys.
///
/// The function of a key is given as a resumable computation: asked with the
/// values of the dependencies it has read so far, in the order in which it
/// read them, it names the next key it reads, or finishes. Its answer depends
/// on nothing else, so the same values always lead to the same result.
pub trait Registry {
    /// The next step of the function of `key` after it has read `seen`.
    /// A registry states its functions by overriding this.
    open spec fn step_spec(&self, key: Key, seen: Seq<Value>) -> Step {
        arbitrary()
    }

    /// Computes `step_spec`.
    fn step(&self, key: Key, seen: &Vec<Value>) -> (s: Step)
        ensures
            s == self.step_spec(key, seen@),
    ;
}

/// Whether the function of `key`, reading `values` from `keys` in turn,
/// finishes with `value`.
pub open spec fn replays<R: Registry>(
    registry: &R,
    key: Key,
    keys: Seq<Key>,
    values: Seq<Value>,
    value: Value,
) -> bool {
    &&& keys.len() == values.len()
    &&& forall|i: int|
        0 <= i < keys.len() ==> #[trigger] registry.step_spec(key, values.take(i)) == Step::Need(
            keys[i],
        )
    &&& registry.step_spec(key, values) == Step::Done(value)
}

} // verus!
