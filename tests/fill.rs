use std::collections::VecDeque;

use island_zone::fill::{flood_fill, Tiles};
use island_zone::grid::{Grid, TileAddress};
use island_zone::zone::TileState;

fn grid_from(rows: &[&str]) -> Grid<u8> {
    // rows are given top row first; row 0 of the grid is the last string
    let h = rows.len() as u32;
    let w = rows[0].len() as u32;
    let mut g = Grid::filled(w, h, b'.');
    for (i, row) in rows.iter().enumerate() {
        let y = h - 1 - i as u32;
        for (x, c) in row.bytes().enumerate() {
            g.set_tile_at(&TileAddress(x as u32, y), c);
        }
    }
    g
}

fn cells(g: &Grid<u8>) -> Vec<u8> {
    g.addresses().iter().map(|a| *g.tile_at(a).unwrap()).collect()
}

/// Breadth-first reference: the tiles equal to the start tile that connect to it.
fn reference_fill(g: &Grid<u8>, start: (u32, u32), color: u8) -> (Grid<u8>, usize) {
    let mut out = g.clone();
    let s = match g.tile_at(&TileAddress(start.0, start.1)) {
        Some(t) => *t,
        None => return (out, 0),
    };
    let w = g.width() as i64;
    let h = g.height() as i64;
    let mut seen = vec![false; (w * h) as usize];
    let mut queue = VecDeque::new();
    queue.push_back((start.0 as i64, start.1 as i64));
    seen[(start.1 as i64 * w + start.0 as i64) as usize] = true;
    let mut n = 0;
    while let Some((x, y)) = queue.pop_front() {
        out.set_tile_at(&TileAddress(x as u32, y as u32), color);
        n += 1;
        for (dx, dy) in [(1i64, 0i64), (-1, 0), (0, 1), (0, -1)] {
            let (nx, ny) = (x + dx, y + dy);
            if nx < 0 || ny < 0 || nx >= w || ny >= h {
                continue;
            }
            let i = (ny * w + nx) as usize;
            if !seen[i] && *g.tile_at(&TileAddress(nx as u32, ny as u32)).unwrap() == s {
                seen[i] = true;
                queue.push_back((nx, ny));
            }
        }
    }
    (out, n)
}

fn check_against_reference(rows: &[&str], start: (u32, u32)) {
    let g = grid_from(rows);
    let (expected, n) = reference_fill(&g, start, b'#');
    let mut filled = g.clone();
    let count = flood_fill(&mut filled, start, |a: &u8, b: &u8| a == b, b'#');
    assert_eq!(count, n);
    assert_eq!(cells(&filled), cells(&expected));
}

#[test]
fn five_by_five_with_closed_centre() {
    let mut g = Grid::filled(5, 5, TileState::Floor);
    g.set_tile_at(&TileAddress(2, 2), TileState::Water);
    let n = flood_fill(&mut g, (0, 0), |a: &TileState, b: &TileState| a == b, TileState::Water);
    assert_eq!(n, 24);
    for a in g.addresses() {
        assert_eq!(g.tile_at(&a), Some(&TileState::Water));
    }
    // the closed centre was never written: fill it back with a marker test
    let mut marks = Grid::filled(5, 5, 1u8);
    marks.set_tile_at(&TileAddress(2, 2), 0);
    let m = flood_fill(&mut marks, (0, 0), |a: &u8, b: &u8| a == b, 2);
    assert_eq!(m, 24);
    assert_eq!(marks.tile_at(&TileAddress(2, 2)), Some(&0));
}

#[test]
fn all_open_grid_fills_every_tile() {
    for &(w, h, sx, sy) in &[(7u32, 4u32, 3u32, 2u32), (1, 1, 0, 0), (9, 1, 4, 0), (1, 6, 0, 5), (12, 12, 11, 0)] {
        let mut g = Grid::filled(w, h, 0u8);
        let n = flood_fill(&mut g, (sx, sy), |a: &u8, b: &u8| a == b, 5);
        assert_eq!(n, (w * h) as usize);
        assert!(cells(&g).iter().all(|&c| c == 5));
    }
}

#[test]
fn rejected_tiles_are_never_written() {
    // tiles of value 9 fail the predicate against the start color 0
    let g = grid_from(&["0909", "9090", "0909", "0000"]);
    let mut filled = g.clone();
    flood_fill(&mut filled, (0, 0), |a: &u8, b: &u8| a == b, b'x');
    for a in g.addresses() {
        if *g.tile_at(&a).unwrap() == b'9' {
            assert_eq!(filled.tile_at(&a), Some(&b'9'));
        }
    }
}

#[test]
fn refilling_with_same_color_changes_nothing() {
    let g = grid_from(&["..##.", ".#..#", "..#..", "#...."]);
    let mut once = g.clone();
    flood_fill(&mut once, (0, 0), |a: &u8, b: &u8| a == b, b'o');
    let mut twice = once.clone();
    flood_fill(&mut twice, (0, 0), |a: &u8, b: &u8| a == b, b'o');
    assert_eq!(cells(&once), cells(&twice));
}

#[test]
fn start_outside_grid_is_a_no_op() {
    let g = grid_from(&["...", "..."]);
    let mut filled = g.clone();
    assert_eq!(flood_fill(&mut filled, (3, 0), |a: &u8, b: &u8| a == b, b'#'), 0);
    assert_eq!(flood_fill(&mut filled, (0, 2), |a: &u8, b: &u8| a == b, b'#'), 0);
    assert_eq!(cells(&filled), cells(&g));
}

#[test]
fn start_rejected_against_itself_fills_nothing() {
    let g = grid_from(&["...", "..."]);
    let mut filled = g.clone();
    assert_eq!(flood_fill(&mut filled, (1, 1), |_: &u8, _: &u8| false, b'#'), 0);
    assert_eq!(cells(&filled), cells(&g));
}

#[test]
fn fill_color_accepted_by_predicate_still_ends() {
    let mut g = Grid::filled(6, 5, 0u8);
    let n = flood_fill(&mut g, (2, 2), |_: &u8, _: &u8| true, 0);
    assert_eq!(n, 30);
}

#[test]
fn concave_u_shape_matches_reference() {
    check_against_reference(&[
        ".#...#.",
        ".#.#.#.",
        ".#.#.#.",
        ".#.#.#.",
        "...#...",
    ], (0, 4));
}

#[test]
fn spiral_matches_reference() {
    check_against_reference(&[
        "..........",
        ".########.",
        ".#......#.",
        ".#.####.#.",
        ".#.#..#.#.",
        ".#.#.##.#.",
        ".#.#....#.",
        ".#.######.",
        ".#........",
        ".#########",
    ], (4, 5));
}

#[test]
fn comb_shapes_match_reference_from_many_starts() {
    let rows = [
        "#.#.#.#.#.",
        "..........",
        ".#.#.#.#.#",
        ".#.#.#.#..",
        "...#...#.#",
        "##.#.#.#..",
        "...#.#....",
    ];
    for y in 0..7 {
        for x in 0..10 {
            check_against_reference(&rows, (x, y));
        }
    }
}

#[test]
fn pseudo_random_grids_match_reference() {
    let mut seed: u32 = 12345;
    for _ in 0..40 {
        let mut rows: Vec<String> = Vec::new();
        for _ in 0..9 {
            let mut row = String::new();
            for _ in 0..11 {
                seed = seed.wrapping_mul(1103515245).wrapping_add(12345);
                row.push(if (seed >> 16) % 3 == 0 { '#' } else { '.' });
            }
            rows.push(row);
        }
        let refs: Vec<&str> = rows.iter().map(|r| r.as_str()).collect();
        for &(x, y) in &[(0u32, 0u32), (5, 4), (10, 8), (3, 7)] {
            check_against_reference(&refs, (x, y));
        }
    }
}

#[test]
fn tiles_interface_reads_and_writes() {
    let mut g = Grid::filled(2, 2, 1u8);
    assert_eq!(g.dimensions(), (2, 2));
    g.set_tile(1, 1, 4);
    g.set_tile(2, 1, 4);
    assert_eq!(g.get_tile(1, 1), Some(&4));
    assert_eq!(g.get_tile(2, 1), None);
    assert_eq!(g.get_tile(0, 1), Some(&1));
}
