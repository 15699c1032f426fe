use adventure_island::ActionState;
use adventure_island::Difficulty;
use adventure_island::WaterLevel;

#[test]
fn draw_amount_per_level() {
    let expected: [(u8, u8); 10] = [
        (0, 2),
        (1, 2),
        (2, 3),
        (3, 3),
        (4, 3),
        (5, 4),
        (6, 4),
        (7, 5),
        (8, 5),
        (9, 255),
    ];
    for (level, amount) in expected {
        assert_eq!(amount, WaterLevel::new(level).draw_amount(), "level {}", level);
    }
}

#[test]
fn game_lost_threshold() {
    assert!(!WaterLevel::new(8).game_lost());
    assert!(WaterLevel::new(9).game_lost());
    assert!(WaterLevel::new(200).game_lost());
}

#[test]
fn from_difficulty_levels() {
    assert!(!WaterLevel::from_difficulty(Difficulty::Novice).game_lost());
    assert_eq!(2, WaterLevel::from_difficulty(Difficulty::Novice).draw_amount());
    assert_eq!(2, WaterLevel::from_difficulty(Difficulty::Normal).draw_amount());
    assert_eq!(3, WaterLevel::from_difficulty(Difficulty::Elite).draw_amount());
    assert_eq!(3, WaterLevel::from_difficulty(Difficulty::Legendary).draw_amount());
}

#[test]
fn create_flood_state_carries_the_amount() {
    let level = WaterLevel::new(6);
    match level.create_flood_state() {
        ActionState::DrawFloodCards(n) => assert_eq!(4, n),
        _ => panic!("flood phase expected"),
    }
}

#[test]
fn risen_previews_the_future() {
    let level = WaterLevel::new(6);
    assert!(!level.risen(2).game_lost());
    assert!(level.risen(3).game_lost());
}

#[test]
fn rise_mutates_the_level() {
    let mut level = WaterLevel::new(2);
    level.rise(2);
    assert_eq!(WaterLevel::new(4), level);
}
