//! Which tiles an agent may step to from a tile of the zone, and at what cost.

use vstd::prelude::*;
use crate::grid::{Grid, GridView, TileAddress};
use crate::zone::TileState;

verus! {

/// The cost of a step to a side neighbour, in thousandths of a tile.
pub const STRAIGHT_COST: u32 = 1000;

/// The cost of a diagonal step, in thousandths of a tile.
pub const DIAGONAL_COST: u32 = 1414;

/// `(x, y)` is a floor tile of the grid.
pub open spec fn floor_at(g: GridView<TileState>, x: int, y: int) -> bool {
    g.in_bounds(x, y) && g.at(x, y) == TileState::Floor
}

pub open spec fn step_if(c: bool, x: int, y: int, cost: int) -> Seq<(int, int, int)> {
    if c { seq![(x, y, cost)] } else { Seq::empty() }
}

/// The steps out of `(x, y)`: first the diagonals north-east, south-east,
/// south-west and north-west, each only when it is floor and so are both side
/// neighbours next to it; then the side neighbours north, east, south and
/// west that are floor.
pub open spec fn steps_from(g: GridView<TileState>, x: int, y: int) -> Seq<(int, int, int)> {
    let n = floor_at(g, x, y + 1);
    let e = floor_at(g, x + 1, y);
    let s = floor_at(g, x, y - 1);
    let w = floor_at(g, x - 1, y);
    step_if(n && e && floor_at(g, x + 1, y + 1), x + 1, y + 1, DIAGONAL_COST as int)
        + step_if(e && s && floor_at(g, x + 1, y - 1), x + 1, y - 1, DIAGONAL_COST as int)
        + step_if(s && w && floor_at(g, x - 1, y - 1), x - 1, y - 1, DIAGONAL_COST as int)
        + step_if(w && n && floor_at(g, x - 1, y + 1), x - 1, y + 1, DIAGONAL_COST as int)
        + step_if(n, x, y + 1, STRAIGHT_COST as int)
        + step_if(e, x + 1, y, STRAIGHT_COST as int)
        + step_if(s, x, y - 1, STRAIGHT_COST as int)
        + step_if(w, x - 1, y, STRAIGHT_COST as int)
}

pub open spec fn step_views(s: Seq<(TileAddress, u32)>) -> Seq<(int, int, int)> {
    s.map_values(|p: (TileAddress, u32)| (p.0.0 as int, p.0.1 as int, p.1 as int))
}

/// The tile at offset `(dx, dy)` from `tile`, when it is a floor tile of the grid.
fn floor_neighbour(grid: &Grid<TileState>, tile: TileAddress, dx: i8, dy: i8) -> (r: Option<TileAddress>)
    requires
        grid@.valid(),
        -1 <= dx <= 1,
        -1 <= dy <= 1,
    ensures
        r.is_some() == floor_at(grid@, tile.0 + dx, tile.1 + dy),
        r matches Some(t) ==> t.0 == tile.0 + dx && t.1 == tile.1 + dy,
{
    let x: i64 = tile.0 as i64 + dx as i64;
    let y: i64 = tile.1 as i64 + dy as i64;
    if x < 0 || y < 0 || x > u32::MAX as i64 || y > u32::MAX as i64 {
        return None;
    }
    let a = TileAddress(x as u32, y as u32);
    match grid.tile_at(&a) {
        Some(t) => if t.is_floor() { Some(a) } else { None },
        None => None,
    }
}

fn push_step(out: &mut Vec<(TileAddress, u32)>, found: Option<TileAddress>, cost: u32)
    ensures
        step_views(final(out)@) == step_views(old(out)@) + match found {
            Some(t) => seq![(t.0 as int, t.1 as int, cost as int)],
            None => Seq::<(int, int, int)>::empty(),
        },
{
    match found {
        Some(t) => {
            out.push((t, cost));
            assert(step_views(out@) =~= step_views(old(out)@) + seq![(t.0 as int, t.1 as int, cost as int)]);
        },
        None => {
            assert(step_views(out@) =~= step_views(old(out)@) + Seq::<(int, int, int)>::empty());
        },
    }
}

/// The tiles that an agent may step to from `tile`, each with the step's cost:
/// floor side neighbours cost `STRAIGHT_COST`, and a floor diagonal neighbour
/// costs `DIAGONAL_COST` when both side neighbours next to it are floor, so
/// that no step cuts a corner.
pub fn walkable_neighbours(grid: &Grid<TileState>, tile: TileAddress) -> (r: Vec<(TileAddress, u32)>)
    requires
        grid@.valid(),
    ensures
        step_views(r@) == steps_from(grid@, tile.0 as int, tile.1 as int),
{
    let ghost g = grid@;
    let ghost x = tile.0 as int;
    let ghost y = tile.1 as int;
    let n = floor_neighbour(grid, tile, 0, 1);
    let e = floor_neighbour(grid, tile, 1, 0);
    let s = floor_neighbour(grid, tile, 0, -1);
    let w = floor_neighbour(grid, tile, -1, 0);
    let ne = if n.is_some() && e.is_some() { floor_neighbour(grid, tile, 1, 1) } else { None };
    let se = if e.is_some() && s.is_some() { floor_neighbour(grid, tile, 1, -1) } else { None };
    let sw = if s.is_some() && w.is_some() { floor_neighbour(grid, tile, -1, -1) } else { None };
    let nw = if w.is_some() && n.is_some() { floor_neighbour(grid, tile, -1, 1) } else { None };
    let mut out: Vec<(TileAddress, u32)> = Vec::new();
    push_step(&mut out, ne, DIAGONAL_COST);
    push_step(&mut out, se, DIAGONAL_COST);
    push_step(&mut out, sw, DIAGONAL_COST);
    push_step(&mut out, nw, DIAGONAL_COST);
    push_step(&mut out, n, STRAIGHT_COST);
    push_step(&mut out, e, STRAIGHT_COST);
    push_step(&mut out, s, STRAIGHT_COST);
    push_step(&mut out, w, STRAIGHT_COST);
    assert(step_views(out@) =~= steps_from(g, x, y));
    out
}

} // verus!
