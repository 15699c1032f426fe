//! Core of a digital island board game: a rectangular grid of optional
//! island tiles, neighbour geometry on grid coordinates, a generic
//! marker-propagation search engine over the grid, and the per-adventurer
//! movement and drain rules that plug into it.

pub mod action_state;
pub mod adventurer;
pub mod adventurer_type;
pub mod artefact_type;
pub mod bfs;
pub mod card_stack;
pub mod difficulty;
pub mod diver;
pub mod flat_2dvec;
pub mod full;
pub mod grid;
pub mod island_tile;
pub mod positionable;
pub mod rect;
pub mod util;
pub mod vec2;
pub mod water_level;

pub use action_state::ActionState;
pub use card_stack::CardStack;
pub use difficulty::Difficulty;
pub use water_level::WaterLevel;

pub use adventurer::Adventurer;
pub use adventurer_type::AdventurerType;
pub use artefact_type::ArtefactType;
pub use full::BlackWhite;
pub use full::Full;
pub use grid::Grid;
pub use grid::MapError;
pub use grid::MapExt;
pub use island_tile::IslandTile;
pub use island_tile::IslandTileInfo;
pub use island_tile::IslandTileState;
pub use positionable::Positionable;

pub use rect::Rect;
pub use vec2::Direction;
pub use vec2::FieldPos;
pub use vec2::Vec2;
