//! A registry of evaluation functions that are given as data: constants and
//! sums of other keys.

use vstd::prelude::*;
use crate::registry::{Key, Registry, Step, Value};

verus! {

/// The evaluation function of one key.
pub enum Formula {
    /// The key has no function: it is an input, and fails until it is injected.
    Input,
    /// A constant.
    Constant(Value),
    /// The sum of the values of the keys, in 64 bit wrapping arithmetic.
    Sum(Vec<Key>),
}

/// The code with which an input without a value fails.
pub const MISSING_INPUT: u64 = 1;

/// The sum of `values` modulo 2^64.
pub open spec fn wrapping_sum(values: Seq<Value>) -> Value
    decreases values.len(),
{
    if values.len() == 0 {
        0
    } else {
        ((wrapping_sum(values.drop_last()) + values.last()) % 0x1_0000_0000_0000_0000) as u64
    }
}

/// Evaluation functions given by one formula per key.
pub struct FormulaRegistry {
    pub formulas: Vec<Formula>,
}

/// Computes `wrapping_sum`.
pub fn sum_of(values: &Vec<Value>) -> (sum: Value)
    ensures
        sum == wrapping_sum(values@),
{
    let mut sum: Value = 0;
    let mut i: usize = 0;
    while i < values.len()
        invariant
            i <= values.len(),
            sum == wrapping_sum(values@.take(i as int)),
        decreases values.len() - i,
    {
        proof {
            assert(values@.take(i + 1).drop_last() == values@.take(i as int));
        }
        sum = sum.wrapping_add(values[i]);
        i = i + 1;
    }
    proof {
        assert(values@.take(values@.len() as int) == values@);
    }
    sum
}

impl Registry for FormulaRegistry {
    open spec fn step_spec(&self, key: Key, seen: Seq<Value>) -> Step {
        if key >= self.formulas@.len() {
            Step::Fail(MISSING_INPUT)
        } else {
            match self.formulas@[key as int] {
                Formula::Input => Step::Fail(MISSING_INPUT),
                Formula::Constant(value) => Step::Done(value),
                Formula::Sum(keys) => if seen.len() < keys@.len() {
                    Step::Need(keys@[seen.len() as int])
                } else {
                    Step::Done(wrapping_sum(seen))
                },
            }
        }
    }

    fn step(&self, key: Key, seen: &Vec<Value>) -> (s: Step) {
        if key >= self.formulas.len() {
            return Step::Fail(MISSING_INPUT);
        }
        match &self.formulas[key] {
            Formula::Input => Step::Fail(MISSING_INPUT),
            Formula::Constant(value) => Step::Done(*value),
            Formula::Sum(keys) => {
                if seen.len() < keys.len() {
                    Step::Need(keys[seen.len()])
                } else {
                    Step::Done(sum_of(seen))
                }
            },
        }
    }
}

impl FormulaRegistry {
    /// A registry of the given formulas, the first one for key 0.
    pub fn new(formulas: Vec<Formula>) -> (registry: Self)
        ensures
            registry.formulas == formulas,
    {
        FormulaRegistry { formulas }
    }
}

} // verus!
