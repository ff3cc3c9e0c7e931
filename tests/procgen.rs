use island_zone::grid::{Grid, TileAddress};
use island_zone::procgen::{select_primary_region, Reachability};
use island_zone::zone::TileState;

fn classify(rows: &[&str]) -> Grid<Reachability> {
    let h = rows.len() as u32;
    let w = rows[0].len() as u32;
    let mut g = Grid::filled(w, h, Reachability::Closed);
    for (i, row) in rows.iter().enumerate() {
        let y = h - 1 - i as u32;
        for (x, c) in row.bytes().enumerate() {
            if c == b'.' {
                g.set_tile_at(&TileAddress(x as u32, y), Reachability::Open);
            }
        }
    }
    g
}

fn render(g: &Grid<Reachability>) -> Vec<String> {
    let mut rows = Vec::new();
    for y in (0..g.height()).rev() {
        let mut row = String::new();
        for x in 0..g.width() {
            row.push(if g.tile_at(&TileAddress(x, y)) == Some(&Reachability::Open) { '.' } else { '#' });
        }
        rows.push(row);
    }
    rows
}

#[test]
fn larger_of_two_regions_is_kept() {
    let c = classify(&[
        "..#....",
        "..#....",
        "###....",
        "#####..",
    ]);
    let out = select_primary_region(&c);
    assert_eq!(render(&out), vec![
        "###....",
        "###....",
        "###....",
        "#####..",
    ]);
}

#[test]
fn larger_region_found_second_is_still_kept() {
    let c = classify(&[
        "......",
        "......",
        "######",
        "..####",
    ]);
    let out = select_primary_region(&c);
    assert_eq!(render(&out), vec!["......", "......", "######", "######"]);
}

#[test]
fn equal_regions_keep_the_first_found() {
    let c = classify(&[
        "..#..",
        "..#..",
    ]);
    let out = select_primary_region(&c);
    assert_eq!(render(&out), vec!["..###", "..###"]);
}

#[test]
fn no_open_tile_gives_all_closed() {
    let c = Grid::filled(4, 3, Reachability::Closed);
    let out = select_primary_region(&c);
    assert_eq!(out.width(), 4);
    assert_eq!(out.height(), 3);
    assert!(render(&out).iter().all(|r| r == "####"));
}

#[test]
fn diagonal_contact_does_not_join_regions() {
    let c = classify(&[
        "#.",
        ".#",
    ]);
    let out = select_primary_region(&c);
    assert_eq!(render(&out), vec!["##", ".#"]);
}

#[test]
fn many_single_tile_regions() {
    let c = classify(&[
        ".#.#.#.#",
        "#.#.#.#.",
        ".#.#.#..",
    ]);
    let out = select_primary_region(&c);
    assert_eq!(render(&out), vec!["########", "#######.", "######.."]);
}

#[test]
fn reachability_to_tile_state() {
    assert_eq!(TileState::from(Reachability::Open), TileState::Floor);
    assert_eq!(TileState::from(Reachability::Closed), TileState::Water);
    assert!(TileState::Floor.is_floor());
    assert!(!TileState::Water.is_floor());
    assert_eq!(Reachability::default(), Reachability::Closed);
    assert_eq!(TileState::default(), TileState::Floor);
}
