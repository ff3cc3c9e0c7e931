use island_zone::border::{collect_borders, Border};
use island_zone::grid::{Grid, TileAddress};
use island_zone::zone::TileState;

fn zone(rows: &[&str]) -> Grid<TileState> {
    let h = rows.len() as u32;
    let w = rows[0].len() as u32;
    let mut g = Grid::filled(w, h, TileState::Water);
    for (i, row) in rows.iter().enumerate() {
        let y = h - 1 - i as u32;
        for (x, c) in row.bytes().enumerate() {
            if c == b'.' {
                g.set_tile_at(&TileAddress(x as u32, y), TileState::Floor);
            }
        }
    }
    g
}

fn borders_of(g: &Grid<TileState>) -> Vec<(u32, u32, bool)> {
    collect_borders(g, &|t: &TileState| *t == TileState::Floor)
        .iter()
        .map(|b: &Border| (b.pos().0, b.pos().1, b.is_vertical()))
        .collect()
}

fn open(g: &Grid<TileState>, x: i64, y: i64) -> bool {
    x >= 0 && y >= 0 && g.tile_at(&TileAddress(x as u32, y as u32)) == Some(&TileState::Floor)
}

#[test]
fn all_open_grid_borders_are_the_perimeter() {
    for &(w, h) in &[(1u32, 1u32), (4, 3), (7, 2), (1, 5)] {
        let g = Grid::filled(w, h, TileState::Floor);
        let bs = borders_of(&g);
        assert_eq!(bs.len() as u32, 2 * (w + h));
        for &(x, y, v) in &bs {
            if v {
                assert!(x == 0 || x == w);
                assert!(y < h);
            } else {
                assert!(y == 0 || y == h);
                assert!(x < w);
            }
        }
    }
}

#[test]
fn all_closed_grid_has_no_borders() {
    let g = Grid::filled(5, 4, TileState::Water);
    assert!(borders_of(&g).is_empty());
}

#[test]
fn single_open_tile_has_four_walls() {
    let g = zone(&["###", "#.#", "###"]);
    let mut bs = borders_of(&g);
    bs.sort();
    assert_eq!(bs, vec![(1, 1, false), (1, 1, true), (1, 2, false), (2, 1, true)]);
}

#[test]
fn each_edge_reported_once_iff_sides_differ() {
    let g = zone(&[
        "..#..#",
        ".##...",
        "...#.#",
        "#.#...",
    ]);
    let bs = borders_of(&g);
    let w = g.width() as i64;
    let h = g.height() as i64;
    // vertical edges (x, y): between (x-1, y) and (x, y); horizontal: between (x, y-1) and (x, y)
    for y in 0..=h {
        for x in 0..=w {
            if y < h {
                let expected = (open(&g, x - 1, y) != open(&g, x, y)) as usize;
                let found = bs.iter().filter(|b| **b == (x as u32, y as u32, true)).count();
                assert_eq!(found, expected, "vertical edge {} {}", x, y);
            }
            if x < w {
                let expected = (open(&g, x, y - 1) != open(&g, x, y)) as usize;
                let found = bs.iter().filter(|b| **b == (x as u32, y as u32, false)).count();
                assert_eq!(found, expected, "horizontal edge {} {}", x, y);
            }
        }
    }
}

#[test]
fn borders_compare_by_edge() {
    let g = zone(&[".#"]);
    let a = collect_borders(&g, &|t: &TileState| *t == TileState::Floor);
    let b = collect_borders(&g, &|t: &TileState| *t == TileState::Floor);
    assert_eq!(a, b);
    assert_eq!(a.len(), 4);
}
