use island_zone::grid::{Grid, TileAddress};

#[test]
fn new_grid_has_default_tiles() {
    let g: Grid<u8> = Grid::new(3, 2);
    assert_eq!(g.width(), 3);
    assert_eq!(g.height(), 2);
    for a in g.addresses() {
        assert_eq!(g.tile_at(&a), Some(&0u8));
    }
}

#[test]
fn tile_at_out_of_range_is_none() {
    let g = Grid::filled(4, 3, 7u8);
    assert_eq!(g.tile_at(&TileAddress(3, 2)), Some(&7u8));
    assert_eq!(g.tile_at(&TileAddress(4, 0)), None);
    assert_eq!(g.tile_at(&TileAddress(0, 3)), None);
    assert_eq!(g.tile_at(&TileAddress(u32::MAX, u32::MAX)), None);
}

#[test]
fn set_tile_at_writes_one_tile() {
    let mut g = Grid::filled(4, 3, 0u8);
    assert!(g.set_tile_at(&TileAddress(2, 1), 9));
    assert!(!g.set_tile_at(&TileAddress(4, 1), 5));
    for a in g.addresses() {
        let expected = if a == TileAddress(2, 1) { 9 } else { 0 };
        assert_eq!(g.tile_at(&a), Some(&expected));
    }
}

#[test]
fn addresses_are_row_major() {
    let g = Grid::filled(3, 2, ());
    let addrs = g.addresses();
    let expected = vec![
        TileAddress(0, 0), TileAddress(1, 0), TileAddress(2, 0),
        TileAddress(0, 1), TileAddress(1, 1), TileAddress(2, 1),
    ];
    assert_eq!(addrs, expected);
    assert_eq!(addrs[4].as_tuple(), (1, 1));
}

#[test]
fn empty_grid_has_no_addresses() {
    let g = Grid::filled(0, 5, 1u8);
    assert!(g.addresses().is_empty());
    assert_eq!(g.tile_at(&TileAddress(0, 0)), None);
}

#[test]
fn tile_at_mut_writes_through() {
    let mut g = Grid::filled(3, 3, 0u8);
    if let Some(t) = g.tile_at_mut(&TileAddress(2, 1)) {
        *t = 8;
    }
    assert!(g.tile_at_mut(&TileAddress(3, 1)).is_none());
    assert_eq!(g.tile_at(&TileAddress(2, 1)), Some(&8));
    assert_eq!(g.tile_at(&TileAddress(1, 2)), Some(&0));
}
