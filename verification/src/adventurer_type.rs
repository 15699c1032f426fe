//! The six kinds of adventurers and what they can do in principle.

use vstd::prelude::*;

use crate::adventurer::Adventurer;
use crate::vec2::Vec2;

verus! {

/// The closed set of adventurer kinds.
#[derive(Clone, Copy, Debug, PartialEq, Eq, Structural)]
pub enum AdventurerType {
    /// Can trade cards with anyone, no matter the position.
    Courier,
    /// Can swim through flooded or gone tiles and surface further away.
    Diver,
    /// Can shore up two tiles for one action point.
    Engineer,
    /// Can move diagonally.
    Explorer,
    /// Can move other adventurers, two pushes for one action point.
    Navigator,
    /// Can fly to any standable tile once per turn.
    Pilot,
}

impl AdventurerType {
    /// Create a new adventurer of this kind at the origin, with no bonus
    /// action banked.
    pub fn create(self) -> (r: Adventurer)
        ensures
            r.kind == self,
            r.pos == (Vec2 { x: 0, y: 0 }),
            r.bonus == false,
    {
        Adventurer::new(self, Vec2::new())
    }

    /// Whether the special ability works without the player doing anything
    /// to activate it.
    pub fn implicit_special(self) -> (r: bool)
        ensures
            r == (self != AdventurerType::Navigator && self != AdventurerType::Pilot),
    {
        match self {
            AdventurerType::Courier => true,
            AdventurerType::Diver => true,
            AdventurerType::Engineer => true,
            AdventurerType::Explorer => true,
            AdventurerType::Navigator => false,
            AdventurerType::Pilot => false,
        }
    }

    /// Whether this kind is in principle capable of moving other
    /// adventurers.
    pub fn can_move_others(self) -> (r: bool)
        ensures
            r == (self == AdventurerType::Navigator),
    {
        match self {
            AdventurerType::Navigator => true,
            _ => false,
        }
    }
}

} // verus!
