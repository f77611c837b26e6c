//! The per-cell count of rooted handles.

use vstd::prelude::*;

verus! {

/// How many rooted handles currently pin a cell. It is no ownership count:
/// a cell whose count is zero is not freed at once, it merely stops being a
/// starting point for marking.
pub struct RootCount(usize);

impl RootCount {
    /// The number of rooted handles.
    pub closed spec fn count(&self) -> usize {
        self.0
    }

    /// Whether at least one rooted handle exists.
    pub open spec fn spec_rooted(&self) -> bool {
        self.count() != 0
    }

    /// A count of zero.
    pub fn new() -> (root_count: RootCount)
        ensures
            root_count.count() == 0,
    {
        RootCount(0)
    }

    /// The number of rooted handles.
    pub fn get(&self) -> (count: usize)
        ensures
            count == self.count(),
    {
        self.0
    }

    /// Whether at least one rooted handle exists.
    pub fn is_rooted(&self) -> (rooted: bool)
        ensures
            rooted == self.spec_rooted(),
    {
        self.0 != 0
    }

    /// Records one more rooted handle. The count must not be at its maximum.
    pub fn increment(&mut self)
        requires
            old(self).count() < usize::MAX,
        ensures
            final(self).count() == old(self).count() + 1,
    {
        self.0 = self.0 + 1;
    }

    /// Records that one rooted handle is gone. The count must not be zero.
    pub fn decrement(&mut self)
        requires
            old(self).count() > 0,
        ensures
            final(self).count() == old(self).count() - 1,
    {
        self.0 = self.0 - 1;
    }
}

} // verus!
