//! A tile world: a dense grid of tiles, a scan-line flood fill over it, the
//! choice of the largest connected open region of a generated island, the
//! wall segments that separate open tiles from closed ones, and the steps an
//! agent may take between floor tiles.

pub mod grid;
pub mod region;
pub mod fill;
pub mod cardinal;
pub mod border;
pub mod procgen;
pub mod zone;
pub mod raycast_world;
pub mod pathing;
