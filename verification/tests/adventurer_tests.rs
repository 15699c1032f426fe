use adventure_island::Adventurer;
use adventure_island::AdventurerType;
use adventure_island::Full;
use adventure_island::Grid;
use adventure_island::IslandTile;
use adventure_island::IslandTileInfo;
use adventure_island::IslandTileState;
use adventure_island::Positionable;
use adventure_island::Vec2;

fn dry_tile() -> IslandTile {
    IslandTile::new(IslandTileInfo::CoralPalace)
}

fn flooded_tile() -> IslandTile {
    let mut tile = IslandTile::new(IslandTileInfo::CoralPalace);
    tile.set_state(IslandTileState::Flooded);
    tile
}

fn gone_tile() -> IslandTile {
    let mut tile = IslandTile::new(IslandTileInfo::CoralPalace);
    tile.set_state(IslandTileState::Gone);
    tile
}

/// A map where every cell is standable: dry and flooded tiles in a
/// checkerboard.
fn map_all_moveable(size: Vec2) -> Full {
    let mut rows: Vec<Vec<Option<IslandTile>>> = Vec::new();
    for y in 0..size.y {
        let mut row = Vec::new();
        for x in 0..size.x {
            row.push(if (x + y) % 2 == 0 {
                Some(dry_tile())
            } else {
                Some(flooded_tile())
            });
        }
        rows.push(row);
    }
    Grid::from_rows(rows).unwrap()
}

#[test]
fn default_moves_enough_act_points() {
    let map = map_all_moveable(Vec2::from_values(5, 5));
    let adventurer = Adventurer::new(AdventurerType::Courier, Vec2::from_values(2, 2));

    let mut expected_moves = vec![
        Vec2::from_values(2, 1),
        Vec2::from_values(2, 3),
        Vec2::from_values(1, 2),
        Vec2::from_values(3, 2),
    ];
    let mut actual_moves = adventurer.moves(&map, 3);

    expected_moves.sort();
    actual_moves.sort();

    assert_eq!(expected_moves, actual_moves);
}

#[test]
fn default_moves_no_act_points() {
    let map = map_all_moveable(Vec2::from_values(5, 5));
    let adventurer = Adventurer::new(AdventurerType::Courier, Vec2::from_values(2, 2));

    let actual_moves = adventurer.moves(&map, 0);
    assert_eq!(Vec::<Vec2>::new(), actual_moves);
}

#[test]
fn can_act() {
    let adventurer = Adventurer::new(AdventurerType::Courier, Vec2::from_values(2, 2));

    assert!(adventurer.can_act(1));
    assert!(!adventurer.can_act(0));
}

#[test]
fn adventurer_special_moves() {
    // Special moves should by default be empty, so return an empty Vec if
    // the adventurer has action points as well as if they have none.
    let map = map_all_moveable(Vec2::from_values(5, 5));
    let adventurer = Adventurer::new(AdventurerType::Courier, Vec2::from_values(2, 2));

    let actual_moves = adventurer.special_moves(&map, 1);
    assert_eq!(Vec::<Vec2>::new(), actual_moves);
    let actual_moves = adventurer.special_moves(&map, 0);
    assert_eq!(Vec::<Vec2>::new(), actual_moves);
}

#[test]
fn drains() {
    let mut map = map_all_moveable(Vec2::from_values(5, 5));
    map.set(Vec2::from_values(2, 2), Some(gone_tile()));
    map.set(Vec2::from_values(1, 1), Some(flooded_tile()));
    let adventurer = Adventurer::new(AdventurerType::Courier, Vec2::from_values(2, 1));

    let mut expected_drains = vec![adventurer.pos(), Vec2::from_values(1, 1)];
    let mut actual_drains = adventurer.drains(&map, 1);

    expected_drains.sort();
    actual_drains.sort();

    assert_eq!(expected_drains, actual_drains);
    // Unable to drain, if there are no action points left
    assert_eq!(Vec::<Vec2>::new(), adventurer.drains(&map, 0));
}

#[test]
fn on_drain_sub_points() {
    let mut points = 2;
    let mut adventurer = Adventurer::new(AdventurerType::Courier, Vec2::from_values(2, 1));
    adventurer.on_drain(&mut points);

    assert_eq!(1, points);
}

#[test]
fn adventurer_cover_untestable() {
    let mut adventurer = Adventurer::new(AdventurerType::Courier, Vec2::from_values(2, 2));

    adventurer.on_move();
    assert!(!adventurer.can_move_other(3));
}

#[test]
fn diver_special_moves() {
    let dry = dry_tile();
    let flooded = flooded_tile();
    let gone = gone_tile();

    let map: Full = Grid::from_rows(vec![
        vec![None, None, Some(dry.clone()), None, None],
        vec![None, None, Some(gone.clone()), None, None],
        vec![
            None,
            None,
            Some(flooded.clone()),
            Some(dry.clone()),
            Some(dry.clone()),
        ],
        vec![
            Some(dry.clone()),
            Some(flooded.clone()),
            Some(gone.clone()),
            None,
            Some(gone.clone()),
        ],
        vec![Some(dry.clone()), None, None, None, Some(flooded.clone())],
    ])
    .unwrap();

    let diver = Adventurer::new(AdventurerType::Diver, Vec2::from_values(0, 3));
    assert_eq!(
        vec![
            Vec2::from_values(2, 0),
            Vec2::from_values(2, 2),
            Vec2::from_values(3, 2),
            Vec2::from_values(0, 3),
            Vec2::from_values(1, 3)
        ],
        diver.info_special_moves(&map)
    )
}

fn setup_drain_map() -> Full {
    let mut flooded = IslandTile::new(IslandTileInfo::TempleOfTheSun);
    flooded.set_state(IslandTileState::Flooded);

    Grid::new(Vec2::from_values(1, 1), Some(flooded))
}

#[test]
fn drain_twice_correct_consume_amount() {
    let mut engineer = Adventurer::new(AdventurerType::Engineer, Vec2::from_values(0, 0));
    let map = setup_drain_map();

    let mut action_points = 2;
    assert_eq!(
        vec![Vec2::from_values(0, 0)],
        engineer.drains(&map, action_points)
    );
    engineer.on_drain(&mut action_points);
    assert_eq!(
        vec![Vec2::from_values(0, 0)],
        engineer.drains(&map, action_points)
    );
    assert_eq!(1, action_points);
    engineer.on_drain(&mut action_points);
    assert_eq!(
        vec![Vec2::from_values(0, 0)],
        engineer.drains(&map, action_points)
    );
    assert_eq!(1, action_points);
}

#[test]
fn drain_twice_one_action_point() {
    let mut engineer = Adventurer::new(AdventurerType::Engineer, Vec2::from_values(0, 0));
    let map = setup_drain_map();

    let mut action_points = 1;
    assert_eq!(
        vec![Vec2::from_values(0, 0)],
        engineer.drains(&map, action_points)
    );
    engineer.on_drain(&mut action_points);
    assert_eq!(
        vec![Vec2::from_values(0, 0)],
        engineer.drains(&map, action_points)
    );
    assert_eq!(0, action_points);
    engineer.on_drain(&mut action_points);
    assert_eq!(Vec::<Vec2>::new(), engineer.drains(&map, action_points));
    assert_eq!(0, action_points);
}

#[test]
fn move_denies_extra_drain() {
    let mut engineer = Adventurer::new(AdventurerType::Engineer, Vec2::from_values(0, 0));
    let map = setup_drain_map();

    let mut action_points = 1;
    assert_eq!(
        vec![Vec2::from_values(0, 0)],
        engineer.drains(&map, action_points)
    );
    engineer.on_drain(&mut action_points);
    engineer.on_move();
    assert_eq!(Vec::<Vec2>::new(), engineer.drains(&map, action_points));
}

#[test]
fn explorer_special_moves() {
    let dry = IslandTile::new(IslandTileInfo::LostLagoon);
    let mut gone = IslandTile::new(IslandTileInfo::GoldGate);
    gone.set_state(IslandTileState::Gone);

    let mut map = Grid::new(Vec2::from_values(5, 5), Some(dry));
    map.set(Vec2::from_values(1, 1), Some(gone.clone()));
    map.set(Vec2::from_values(1, 3), None);

    let mut explorer = Adventurer::new(AdventurerType::Explorer, Vec2::from_values(0, 0));
    explorer.set_pos(Vec2::from_values(2, 2));

    let mut expected_moves = vec![Vec2::from_values(3, 1), Vec2::from_values(3, 3)];
    let mut actual_moves = explorer.info_special_moves(&map);

    expected_moves.sort();
    actual_moves.sort();

    assert_eq!(expected_moves, actual_moves);
}

#[test]
fn pilot_special_moves() {
    let pilot = Adventurer::new(AdventurerType::Pilot, Vec2::from_values(0, 0));
    let dry = IslandTile::new(IslandTileInfo::BreakersBridge);
    let mut flooded = IslandTile::new(IslandTileInfo::FoolsLanding);
    flooded.set_state(IslandTileState::Flooded);
    let mut gone = IslandTile::new(IslandTileInfo::PhantomRock);
    gone.set_state(IslandTileState::Gone);

    let map: Full = Grid::from_rows(vec![
        // Row one
        vec![
            Some(dry.clone()),
            Some(gone.clone()),
            Some(flooded.clone()),
            Some(dry.clone()),
        ],
        // Row two
        vec![None, None, Some(dry.clone()), Some(flooded.clone())],
    ])
    .unwrap();

    let mut expected_moves = vec![
        Vec2::from_values(2, 0),
        Vec2::from_values(3, 0),
        Vec2::from_values(2, 1),
        Vec2::from_values(3, 1),
    ];
    let mut actual_moves = pilot.info_special_moves(&map);

    expected_moves.sort();
    actual_moves.sort();

    assert_eq!(expected_moves, actual_moves);
}

#[test]
fn zero_action_points_gate_all_kinds() {
    let map = map_all_moveable(Vec2::from_values(5, 5));
    let kinds = [
        AdventurerType::Courier,
        AdventurerType::Diver,
        AdventurerType::Engineer,
        AdventurerType::Explorer,
        AdventurerType::Navigator,
        AdventurerType::Pilot,
    ];
    for kind in kinds {
        let adventurer = Adventurer::new(kind, Vec2::from_values(2, 2));
        assert_eq!(Vec::<Vec2>::new(), adventurer.moves(&map, 0));
        assert_eq!(Vec::<Vec2>::new(), adventurer.special_moves(&map, 0));
        assert_eq!(Vec::<Vec2>::new(), adventurer.drains(&map, 0));
    }
}

#[test]
fn diver_runs_agree() {
    let map = {
        let flooded = flooded_tile();
        let dry = dry_tile();
        Grid::from_rows(vec![
            vec![Some(dry.clone()), Some(flooded.clone()), Some(dry.clone())],
            vec![None, Some(flooded.clone()), None],
        ])
        .unwrap()
    };
    let diver = Adventurer::new(AdventurerType::Diver, Vec2::from_values(0, 0));
    let first = diver.info_special_moves(&map);
    let second = diver.info_special_moves(&map);
    assert_eq!(first, second);
}

#[test]
fn navigator_push_bank() {
    let mut navigator = Adventurer::new(AdventurerType::Navigator, Vec2::from_values(1, 1));
    let mut action_points = 1;
    assert!(navigator.can_move_other(action_points));
    navigator.on_move_other(&mut action_points);
    assert_eq!(0, action_points);
    // a second push is banked, so pushing stays possible at zero points
    assert!(navigator.can_move_other(action_points));
    navigator.on_move_other(&mut action_points);
    assert_eq!(0, action_points);
    assert!(!navigator.can_move_other(action_points));
}

#[test]
fn navigator_move_forfeits_push() {
    let mut navigator = Adventurer::new(AdventurerType::Navigator, Vec2::from_values(1, 1));
    let mut action_points = 1;
    navigator.on_move_other(&mut action_points);
    assert!(navigator.can_move_other(action_points));
    navigator.on_move();
    assert!(!navigator.can_move_other(action_points));
}

#[test]
fn courier_trades_anywhere() {
    let courier = Adventurer::new(AdventurerType::Courier, Vec2::from_values(0, 0));
    let other = Adventurer::new(AdventurerType::Pilot, Vec2::from_values(3, 4));
    assert!(courier.can_trade_with(&other, 1));
    assert!(!courier.can_trade_with(&other, 0));
    // everyone else needs to stand on the same tile
    let explorer = Adventurer::new(AdventurerType::Explorer, Vec2::from_values(0, 0));
    assert!(!explorer.can_trade_with(&other, 1));
    let neighbour = Adventurer::new(AdventurerType::Engineer, Vec2::from_values(0, 0));
    assert!(explorer.can_trade_with(&neighbour, 1));
}

#[test]
fn adventurer_type_queries() {
    assert!(AdventurerType::Courier.implicit_special());
    assert!(AdventurerType::Diver.implicit_special());
    assert!(AdventurerType::Engineer.implicit_special());
    assert!(AdventurerType::Explorer.implicit_special());
    assert!(!AdventurerType::Navigator.implicit_special());
    assert!(!AdventurerType::Pilot.implicit_special());

    assert!(AdventurerType::Navigator.can_move_others());
    assert!(!AdventurerType::Courier.can_move_others());

    let diver = AdventurerType::Diver.create();
    assert_eq!(AdventurerType::Diver, diver.kind);
    assert_eq!(Vec2::from_values(0, 0), diver.pos);
    assert!(!diver.bonus);
}

#[test]
fn diver_cannot_step_onto_dry_land() {
    // without water next to the diver there is no special move: a dive
    // must pass through flooded or gone tiles
    let map = Grid::new(Vec2::from_values(3, 3), Some(dry_tile()));
    let diver = Adventurer::new(AdventurerType::Diver, Vec2::from_values(1, 1));
    assert_eq!(Vec::<Vec2>::new(), diver.info_special_moves(&map));
}
