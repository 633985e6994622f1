//! Closed integer ranges over the 64-bit physical address space.

use vstd::prelude::*;

verus! {

/// A closed interval `[start, end]` of physical addresses: both endpoints are
/// included. A range with `start > end` is invalid and is never constructed by
/// this crate.
#[derive(Clone, Copy, Debug, PartialEq, Eq, Structural)]
pub struct Range {
    pub start: u64,
    pub end: u64,
}

impl Range {
    /// A range is well formed when it is non-empty: `start <= end`.
    pub open spec fn wf(self) -> bool {
        self.start <= self.end
    }

    /// The address `a` lies inside this closed range.
    pub open spec fn spec_contains(self, a: int) -> bool {
        self.start <= a <= self.end
    }

    /// Whether the address `a` lies inside this closed range.
    pub fn contains(&self, a: u64) -> (r: bool)
        ensures
            r == self.spec_contains(a as int),
    {
        self.start <= a && a <= self.end
    }
}

} // verus!
