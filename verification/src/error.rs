//! The errors of the engine.

use vstd::prelude::*;
use crate::registry::Key;

verus! {

/// Why a query or an injection failed.
#[derive(Debug)]
pub enum DiceError {
    /// A key was asked for while it was being evaluated. The chain lists the
    /// keys under evaluation, outermost first, and ends with the key that
    /// closed the cycle.
    Cycle { chain: Vec<Key> },
    /// A value was injected for a key that has been computed from dependencies.
    InvalidInjection { key: Key },
    /// The evaluation function of `key` failed with `code`.
    Computation { key: Key, code: u64 },
    /// The function of `key` read more dependencies than the engine allows.
    ReadLimit { key: Key },
    /// The key lies outside the node store.
    UnknownKey { key: Key },
}

/// The mathematical content of a `DiceError`.
pub enum ErrorView {
    Cycle { chain: Seq<Key> },
    InvalidInjection { key: Key },
    Computation { key: Key, code: u64 },
    ReadLimit { key: Key },
    UnknownKey { key: Key },
}

impl View for DiceError {
    type V = ErrorView;

    open spec fn view(&self) -> ErrorView {
        match self {
            DiceError::Cycle { chain } => ErrorView::Cycle { chain: chain@ },
            DiceError::InvalidInjection { key } => ErrorView::InvalidInjection { key: *key },
            DiceError::Computation { key, code } => ErrorView::Computation {
                key: *key,
                code: *code,
            },
            DiceError::ReadLimit { key } => ErrorView::ReadLimit { key: *key },
            DiceError::UnknownKey { key } => ErrorView::UnknownKey { key: *key },
        }
    }
}

/// A copy of `keys`.
pub fn copy_keys(keys: &Vec<Key>) -> (copy: Vec<Key>)
    ensures
        copy@ == keys@,
{
    let mut copy: Vec<Key> = Vec::new();
    let mut i: usize = 0;
    while i < keys.len()
        invariant
            i <= keys.len(),
            copy@ == keys@.take(i as int),
        decreases keys.len() - i,
    {
        copy.push(keys[i]);
        i = i + 1;
    }
    copy
}

impl DiceError {
    /// An error with the same content.
    pub fn duplicate(&self) -> (e: Self)
        ensures
            e@ == self@,
    {
        match self {
            DiceError::Cycle { chain } => DiceError::Cycle { chain: copy_keys(chain) },
            DiceError::InvalidInjection { key } => DiceError::InvalidInjection { key: *key },
            DiceError::Computation { key, code } => DiceError::Computation {
                key: *key,
                code: *code,
            },
            DiceError::ReadLimit { key } => DiceError::ReadLimit { key: *key },
            DiceError::UnknownKey { key } => DiceError::UnknownKey { key: *key },
        }
    }

    /// Whether this is a cycle error.
    pub fn is_cycle(&self) -> (b: bool)
        ensures
            b == (self@ is Cycle),
    {
        match self {
            DiceError::Cycle { .. } => true,
            _ => false,
        }
    }
}

/// The content of a query's result.
pub open spec fn result_view(r: Result<u64, DiceError>) -> Result<u64, ErrorView> {
    match r {
        Ok(v) => Ok(v),
        Err(e) => Err(e@),
    }
}

} // verus!
