use island_zone::grid::{Grid, TileAddress};
use island_zone::pathing::{walkable_neighbours, DIAGONAL_COST, STRAIGHT_COST};
use island_zone::raycast_world::ObstacleRef;
use island_zone::zone::TileState;

fn zone(rows: &[&str]) -> Grid<TileState> {
    let h = rows.len() as u32;
    let w = rows[0].len() as u32;
    let mut g = Grid::filled(w, h, TileState::Water);
    for (i, row) in rows.iter().enumerate() {
        let y = h - 1 - i as u32;
        for (x, c) in row.bytes().enumerate() {
            if c == b'.' {
                g.set_tile_at(&TileAddress(x as u32, y), TileState::Floor);
            }
        }
    }
    g
}

#[test]
fn open_field_has_eight_steps() {
    let g = zone(&["...", "...", "..."]);
    let steps = walkable_neighbours(&g, TileAddress(1, 1));
    assert_eq!(steps, vec![
        (TileAddress(2, 2), DIAGONAL_COST),
        (TileAddress(2, 0), DIAGONAL_COST),
        (TileAddress(0, 0), DIAGONAL_COST),
        (TileAddress(0, 2), DIAGONAL_COST),
        (TileAddress(1, 2), STRAIGHT_COST),
        (TileAddress(2, 1), STRAIGHT_COST),
        (TileAddress(1, 0), STRAIGHT_COST),
        (TileAddress(0, 1), STRAIGHT_COST),
    ]);
    assert_eq!(STRAIGHT_COST, 1000);
    assert_eq!(DIAGONAL_COST, 1414);
}

#[test]
fn no_corner_cutting() {
    let g = zone(&["..#", "...", "..."]);
    // north of (1, 1) is floor, east is floor, north-east (2, 2) is water
    let steps = walkable_neighbours(&g, TileAddress(1, 1));
    assert!(!steps.iter().any(|s| s.0 == TileAddress(2, 2)));
    let g2 = zone(&["...", "..#", "..."]);
    // east of (1, 1) is water: neither north-east nor south-east may be taken
    let steps2 = walkable_neighbours(&g2, TileAddress(1, 1));
    assert!(!steps2.iter().any(|s| s.0 == TileAddress(2, 2) || s.0 == TileAddress(2, 0)));
    assert_eq!(steps2.len(), 5);
}

#[test]
fn corner_tile_stays_inside_grid() {
    let g = zone(&["..", ".."]);
    let steps = walkable_neighbours(&g, TileAddress(0, 0));
    assert_eq!(steps, vec![
        (TileAddress(1, 1), DIAGONAL_COST),
        (TileAddress(0, 1), STRAIGHT_COST),
        (TileAddress(1, 0), STRAIGHT_COST),
    ]);
}

#[test]
fn obstacle_handles_keep_their_slot() {
    let r = ObstacleRef::from_index(17);
    assert_eq!(r.index(), 17);
    assert_eq!(r, ObstacleRef::from_index(17));
    assert_ne!(r, ObstacleRef::from_index(3));
}
