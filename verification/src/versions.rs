//! Version numbers and the ledger that issues them.

use vstd::prelude::*;

verus! {

/// Identifies one published state of the inputs. Version 0 is the empty
/// initial state; every commit publishes the next number.
#[derive(Clone, Copy, Debug, PartialEq, Eq, Structural)]
pub struct VersionNumber(pub u64);

impl VersionNumber {
    /// The version of the empty initial state.
    pub fn zero() -> (v: Self)
        ensures
            v.0 == 0,
    {
        VersionNumber(0)
    }

    pub fn new(number: u64) -> (v: Self)
        ensures
            v.0 == number,
    {
        VersionNumber(number)
    }

    /// The number itself.
    pub fn number(&self) -> (n: u64)
        ensures
            n == self.0,
    {
        self.0
    }

    /// Whether this version was published before `other`.
    pub fn is_before(&self, other: VersionNumber) -> (b: bool)
        ensures
            b == (self.0 < other.0),
    {
        self.0 < other.0
    }
}

/// Issues strictly increasing version numbers and remembers the one that is
/// currently published.
pub struct VersionLedger {
    current: VersionNumber,
}

impl VersionLedger {
    /// The published version, as a number.
    pub closed spec fn published(&self) -> nat {
        self.current.0 as nat
    }

    /// A ledger whose published version is 0.
    pub fn new() -> (ledger: Self)
        ensures
            ledger.published() == 0,
    {
        VersionLedger { current: VersionNumber(0) }
    }

    /// The currently published version.
    pub fn current(&self) -> (v: VersionNumber)
        ensures
            v.0 == self.published(),
    {
        self.current
    }

    /// Whether a further version can still be issued.
    pub fn has_next(&self) -> (b: bool)
        ensures
            b == (self.published() < u64::MAX),
    {
        self.current.0 < u64::MAX
    }

    /// Publishes the next version and returns it.
    pub fn advance(&mut self) -> (v: VersionNumber)
        requires
            old(self).published() < u64::MAX,
        ensures
            final(self).published() == old(self).published() + 1,
            v.0 == final(self).published(),
    {
        self.current = VersionNumber(self.current.0 + 1);
        self.current
    }

    /// A ledger with the same published version.
    pub fn snapshot(&self) -> (ledger: Self)
        ensures
            ledger.published() == self.published(),
    {
        VersionLedger { current: self.current }
    }
}

} // verus!
