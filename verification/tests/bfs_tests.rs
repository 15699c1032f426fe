use adventure_island::Grid;
use adventure_island::Vec2;
use adventure_island::bfs::Error;
use adventure_island::bfs::bfs;
use adventure_island::bfs::reachable_positions;

#[test]
fn bfs_cross_no_start_point() {
    let data: Grid<Option<u32>> = Grid::from_rows(vec![
        vec![None, None, Some(1), None, None, None],
        vec![None, Some(2), Some(3), Some(4), None, None],
        vec![None, None, Some(5), None, None, None],
    ])
    .unwrap();

    let marked = bfs(
        &data,
        None,
        true,
        |_p: Vec2, _sm: Option<bool>, _c: Vec2, tile: Option<u32>| {
            if tile.is_some() {
                Some(true)
            } else {
                None
            }
        },
        |_p: Vec2, marker: Option<bool>| matches!(marker, Some(true)),
    )
    .unwrap();

    let expected = [
        [false, false, true, false, false, false],
        [false, true, true, true, false, false],
        [false, false, true, false, false, false],
    ];

    for y in 0..3u8 {
        for x in 0..6u8 {
            assert_eq!(
                Some(expected[y as usize][x as usize]),
                marked.get(Vec2::from_values(x, y))
            );
        }
    }
}

/// Five tiles forming a plus sign are reported reachable from the
/// centre, and nothing else is.
#[test]
fn reachable_plus_fixture() {
    let mut shape: Grid<bool> = Grid::new(Vec2::from_values(5, 5), false);
    let plus = [
        Vec2::from_values(2, 2),
        Vec2::from_values(2, 1),
        Vec2::from_values(2, 3),
        Vec2::from_values(1, 2),
        Vec2::from_values(3, 2),
    ];
    for p in plus {
        shape.set(p, true);
    }

    let reached = reachable_positions(&shape, Some(Vec2::from_values(2, 2))).unwrap();

    for y in 0..5u8 {
        for x in 0..5u8 {
            let p = Vec2::from_values(x, y);
            let expected = plus.contains(&p);
            assert_eq!(Some(expected), reached.get(p), "at {:?}", p);
        }
    }
}

#[test]
fn reachable_runs_agree() {
    let mut shape: Grid<bool> = Grid::new(Vec2::from_values(4, 3), false);
    shape.set(Vec2::from_values(1, 1), true);
    shape.set(Vec2::from_values(2, 1), true);

    let first = reachable_positions(&shape, None).unwrap();
    let second = reachable_positions(&shape, None).unwrap();

    for y in 0..3u8 {
        for x in 0..4u8 {
            let p = Vec2::from_values(x, y);
            assert_eq!(first.get(p), second.get(p));
        }
    }
}

#[test]
fn reachable_start_out_of_bounds() {
    let shape: Grid<bool> = Grid::new(Vec2::from_values(2, 2), true);
    assert_eq!(
        Err(Error::StartingPosOutOfBounds),
        reachable_positions(&shape, Some(Vec2::from_values(9, 9)))
    );
}

#[test]
fn reachable_no_starting_position() {
    let shape: Grid<bool> = Grid::new(Vec2::from_values(3, 3), false);
    assert_eq!(
        Err(Error::UnavailableStartingPosition),
        reachable_positions(&shape, None)
    );
}

/// A disconnected island is not reported reachable: a separate true cell
/// with no path of true cells to the start stays false.
#[test]
fn reachable_skips_disconnected_islands() {
    let shape: Grid<bool> = Grid::from_rows(vec![vec![true, false, true]]).unwrap();

    let reached = reachable_positions(&shape, Some(Vec2::from_values(0, 0))).unwrap();

    assert_eq!(Some(true), reached.get(Vec2::from_values(0, 0)));
    assert_eq!(Some(false), reached.get(Vec2::from_values(1, 0)));
    assert_eq!(Some(false), reached.get(Vec2::from_values(2, 0)));
}

/// A start on open sea can still wade onto the island right next to it.
#[test]
fn reachable_from_a_sea_start() {
    let shape: Grid<bool> = Grid::from_rows(vec![vec![false, true, true]]).unwrap();

    let reached = reachable_positions(&shape, Some(Vec2::from_values(0, 0))).unwrap();

    assert_eq!(Some(true), reached.get(Vec2::from_values(0, 0)));
    assert_eq!(Some(true), reached.get(Vec2::from_values(1, 0)));
    assert_eq!(Some(true), reached.get(Vec2::from_values(2, 0)));
}
