//! The four directions along the grid's axes.

use vstd::prelude::*;

verus! {

/// A direction could not be read as one of the four cardinal directions.
#[derive(Copy, Clone, Debug, PartialEq, Eq, Structural)]
pub struct NonCardinal;

/// The directions parallel to the X and Y axes: North is up (+Y), East is
/// right (+X), South is down, West is left.
#[derive(Copy, Clone, Debug, PartialEq, Eq, Structural)]
pub enum Cardinal {
    North,
    East,
    South,
    West,
}

} // verus!
