use adventure_island::AdventurerType;
use adventure_island::ArtefactType;
use adventure_island::Direction;
use adventure_island::IslandTileInfo;
use adventure_island::Rect;
use adventure_island::Vec2;

#[test]
fn interior_coordinate_has_four_neighbours() {
    let mut neighbours = Vec2::from_values(5, 5).neighbours(None);
    neighbours.sort();
    assert_eq!(
        vec![
            Vec2::from_values(4, 5),
            Vec2::from_values(5, 4),
            Vec2::from_values(5, 6),
            Vec2::from_values(6, 5),
        ],
        neighbours
    );
}

#[test]
fn origin_has_two_neighbours() {
    let neighbours = Vec2::from_values(0, 0).neighbours(None);
    assert_eq!(vec![Vec2::from_values(1, 0), Vec2::from_values(0, 1)], neighbours);
}

#[test]
fn neighbours_clip_to_limits() {
    let limit = Rect::from_slice([1, 1, 2, 2]);
    let neighbours = Vec2::from_values(1, 1).neighbours(Some(limit));
    assert_eq!(vec![Vec2::from_values(2, 1), Vec2::from_values(1, 2)], neighbours);
}

#[test]
fn diagonal_neighbours_of_interior() {
    let mut neighbours = Vec2::from_values(2, 2).diagonal_neighbours(None);
    neighbours.sort();
    assert_eq!(
        vec![
            Vec2::from_values(1, 1),
            Vec2::from_values(1, 3),
            Vec2::from_values(3, 1),
            Vec2::from_values(3, 3),
        ],
        neighbours
    );
}

#[test]
fn surrounding_counts_eight_inside() {
    let surrounding = Vec2::from_values(4, 4).surrounding(None);
    assert_eq!(8, surrounding.len());
}

#[test]
fn rect_contains_is_inclusive() {
    let rect = Rect::from_slice([1, 1, 2, 2]);
    assert!(rect.contains(Vec2::from_values(1, 1)));
    assert!(rect.contains(Vec2::from_values(3, 3)));
    assert!(!rect.contains(Vec2::from_values(0, 1)));
    assert!(!rect.contains(Vec2::from_values(4, 3)));
}

#[test]
fn rect_intersect_touching() {
    let a = Rect::from_slice([0, 0, 4, 4]);
    let b = Rect::from_slice([4, 4, 1, 1]);
    let c = Rect::from_slice([6, 6, 1, 1]);
    assert!(Rect::intersect(&a, &b));
    assert!(!Rect::intersect(&a, &c));
}

#[test]
fn primary_direction_dominant_axis() {
    let from = Vec2::from_values(5, 5);
    assert_eq!(Some(Direction::Right), from.primary_direction(Vec2::from_values(9, 6)));
    assert_eq!(Some(Direction::Left), from.primary_direction(Vec2::from_values(1, 6)));
    assert_eq!(Some(Direction::Down), from.primary_direction(Vec2::from_values(6, 9)));
    assert_eq!(Some(Direction::Up), from.primary_direction(Vec2::from_values(6, 1)));
    assert_eq!(None, from.primary_direction(Vec2::from_values(7, 7)));
}

#[test]
fn hidden_artefacts_and_spawns() {
    assert_eq!(
        Some(ArtefactType::Fire),
        IslandTileInfo::CaveOfShadows.hidden_artefact()
    );
    assert_eq!(
        Some(ArtefactType::Water),
        IslandTileInfo::TidalPalace.hidden_artefact()
    );
    assert_eq!(None, IslandTileInfo::Watchtower.hidden_artefact());
    assert_eq!(Some(AdventurerType::Pilot), IslandTileInfo::FoolsLanding.player_spawn());
    assert_eq!(None, IslandTileInfo::MistyMarsh.player_spawn());
}
