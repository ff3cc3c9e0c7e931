//! The semantic state of a zone's tiles.

use vstd::prelude::*;
use crate::procgen::Reachability;

verus! {

/// What a tile of the zone is: walkable floor or water.
#[derive(Copy, Clone, Debug, Default, PartialEq, Eq, Structural)]
pub enum TileState {
    #[default]
    Floor,
    Water,
}

impl TileState {
    pub fn is_floor(&self) -> (r: bool)
        ensures
            r == (*self == TileState::Floor),
    {
        match self {
            TileState::Floor => true,
            TileState::Water => false,
        }
    }
}

/// An open tile becomes floor, a closed one water.
pub open spec fn state_of(r: Reachability) -> TileState {
    match r {
        Reachability::Open => TileState::Floor,
        Reachability::Closed => TileState::Water,
    }
}

impl From<Reachability> for TileState {
    fn from(r: Reachability) -> (s: TileState)
        ensures
            s == state_of(r),
    {
        match r {
            Reachability::Closed => TileState::Water,
            Reachability::Open => TileState::Floor,
        }
    }
}

impl vstd::std_specs::convert::FromSpecImpl<Reachability> for TileState {
    open spec fn obeys_from_spec() -> bool {
        true
    }

    open spec fn from_spec(r: Reachability) -> TileState {
        state_of(r)
    }
}

} // verus!
