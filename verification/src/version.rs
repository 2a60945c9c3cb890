//! Versions of the engine's world: a totally ordered counter that only grows.

use vstd::prelude::*;

verus! {

/// One snapshot of all inputs. Its view is the number of commits that led to it.
#[derive(Clone, Copy, Debug, PartialEq, Eq, Structural, Hash)]
pub struct VersionNumber(pub u64);

impl View for VersionNumber {
    type V = nat;

    open spec fn view(&self) -> nat {
        self.0 as nat
    }
}

impl VersionNumber {
    /// The version of an engine on which nothing was committed yet.
    pub fn zero() -> (v: VersionNumber)
        ensures
            v@ == 0,
    {
        VersionNumber(0)
    }

    /// The number of commits that led to this version.
    pub fn value(&self) -> (n: u64)
        ensures
            n as nat == self@,
    {
        self.0
    }

    /// The version that the next commit installs, or `None` where the counter is spent.
    pub fn checked_next(&self) -> (r: Option<VersionNumber>)
        ensures
            self@ < u64::MAX ==> r == Some(VersionNumber((self.0 + 1) as u64)),
            self@ >= u64::MAX ==> r is None,
    {
        if self.0 < u64::MAX {
            Some(VersionNumber(self.0 + 1))
        } else {
            None
        }
    }

    /// Whether this version was committed before `other`.
    pub fn precedes(&self, other: &VersionNumber) -> (b: bool)
        ensures
            b == (self@ < other@),
    {
        self.0 < other.0
    }
}

} // verus!
