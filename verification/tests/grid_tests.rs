use adventure_island::Grid;
use adventure_island::IslandTile;
use adventure_island::IslandTileInfo;
use adventure_island::MapError;
use adventure_island::Vec2;

#[test]
fn grid_new_fills_every_cell() {
    let grid: Grid<u8> = Grid::new(Vec2::from_values(5, 4), 7);
    assert_eq!(5, grid.width());
    assert_eq!(4, grid.height());
    assert_eq!(Vec2::from_values(5, 4), grid.size());
    for y in 0..4 {
        for x in 0..5 {
            assert_eq!(Some(7), grid.get(Vec2::from_values(x, y)));
        }
    }
}

#[test]
fn grid_get_out_of_bounds_is_none() {
    let grid: Grid<u8> = Grid::new(Vec2::from_values(3, 2), 0);
    assert_eq!(None, grid.get(Vec2::from_values(3, 0)));
    assert_eq!(None, grid.get(Vec2::from_values(0, 2)));
    assert_eq!(None, grid.get(Vec2::from_values(200, 200)));
}

#[test]
fn grid_set_returns_previous_value() {
    let mut grid: Grid<u8> = Grid::new(Vec2::from_values(3, 3), 1);
    let old = grid.set(Vec2::from_values(2, 1), 9);
    assert_eq!(1, old);
    assert_eq!(Some(9), grid.get(Vec2::from_values(2, 1)));
    assert_eq!(Some(1), grid.get(Vec2::from_values(1, 2)));
}

#[test]
fn grid_try_set_out_of_bounds_fails() {
    let mut grid: Grid<u8> = Grid::new(Vec2::from_values(2, 2), 0);
    assert_eq!(Err(MapError::OutOfBounds), grid.try_set(Vec2::from_values(2, 0), 5));
    assert_eq!(Err(MapError::OutOfBounds), grid.try_set(Vec2::from_values(0, 2), 5));
    assert_eq!(Ok(0), grid.try_set(Vec2::from_values(1, 1), 5));
    assert_eq!(Some(5), grid.get(Vec2::from_values(1, 1)));
}

#[test]
fn grid_from_rows_rejects_jagged_rows() {
    let rows: Vec<Vec<u8>> = vec![vec![1, 2, 3], vec![4, 5]];
    match Grid::from_rows(rows) {
        Err(MapError::MalformedGrid) => {}
        _ => panic!("jagged rows must be rejected"),
    }
}

#[test]
fn grid_iter_row_major() {
    let rows: Vec<Vec<u8>> = vec![vec![1, 2], vec![3, 4]];
    let grid = Grid::from_rows(rows).unwrap();
    let cells = grid.iter();
    assert_eq!(
        vec![
            (Vec2::from_values(0, 0), 1),
            (Vec2::from_values(1, 0), 2),
            (Vec2::from_values(0, 1), 3),
            (Vec2::from_values(1, 1), 4),
        ],
        cells
    );
}

#[test]
fn partial_eq_map_equals() {
    let island_tile_a = IslandTile::new(IslandTileInfo::CaveOfShadows);
    let island_tile_b = IslandTile::new(IslandTileInfo::CaveOfShadows);

    let map_a = Grid::new(Vec2::from_values(10, 10), Some(island_tile_a));
    let map_b = Grid::new(Vec2::from_values(10, 10), Some(island_tile_b));

    assert_eq!(map_a, map_b);
}

#[test]
fn partial_eq_map_not_equals() {
    let island_tile_a = IslandTile::new(IslandTileInfo::CaveOfShadows);
    let island_tile_b = IslandTile::new(IslandTileInfo::FoolsLanding);

    let map_a = Grid::new(Vec2::from_values(10, 10), Some(island_tile_a));
    let map_b = Grid::new(Vec2::from_values(10, 10), Some(island_tile_b));

    assert_ne!(map_a, map_b);
}

#[test]
fn spawn_point_finds_the_gate() {
    let dry = IslandTile::new(IslandTileInfo::LostLagoon);
    let gate = IslandTile::new(IslandTileInfo::IronGate);
    let mut map = Grid::new(Vec2::from_values(3, 3), Some(dry));
    map.set(Vec2::from_values(2, 1), Some(gate));
    assert_eq!(
        Some(Vec2::from_values(2, 1)),
        map.spawn_point(adventure_island::AdventurerType::Diver)
    );
    assert_eq!(None, map.spawn_point(adventure_island::AdventurerType::Pilot));
}
