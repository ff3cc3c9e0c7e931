//! Handles to the obstacles of the obstacle index.

use vstd::prelude::*;

verus! {

/// A stable handle to one obstacle slot: the same integer keys the obstacle
/// store and the bounding-volume hierarchy. Handles stay valid until the
/// next bulk removal.
#[derive(Copy, Clone, Debug, PartialEq, Eq, Hash, Structural)]
pub struct ObstacleRef(usize);

impl ObstacleRef {
    pub fn from_index(index: usize) -> (r: Self)
        ensures
            r.index_spec() == index,
    {
        ObstacleRef(index)
    }

    pub closed spec fn index_spec(&self) -> usize {
        self.0
    }

    /// The slot that this handle names.
    pub fn index(&self) -> (r: usize)
        ensures
            r == self.index_spec(),
    {
        self.0
    }
}

} // verus!
