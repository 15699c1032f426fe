//! The water level the players are facing, and what it demands of them.

use vstd::prelude::*;

use crate::action_state::ActionState;
use crate::difficulty::Difficulty;

verus! {

/// The water level at and above which the game is lost.
pub const LOOSING_WATER_LEVEL: u8 = 9;

/// The water or flooding level the players are currently facing. It
/// determines the amount of flood cards the players have to draw in the
/// flood card phase.
#[derive(Clone, Copy, Debug, PartialEq, Eq, Structural)]
pub struct WaterLevel {
    level: u8,
}

/// The starting level of each difficulty.
pub open spec fn spec_level_of_difficulty(difficulty: Difficulty) -> u8 {
    match difficulty {
        Difficulty::Novice => 0,
        Difficulty::Normal => 1,
        Difficulty::Elite => 2,
        Difficulty::Legendary => 3,
    }
}

/// The amount of flood cards to draw at a given level: two on the lowest
/// levels, rising to five, and past the losing level a demand that cannot
/// be met.
pub open spec fn spec_draw_amount(level: u8) -> u8 {
    if level <= 1 {
        2
    } else if level <= 4 {
        3
    } else if level <= 6 {
        4
    } else if level <= 8 {
        5
    } else {
        255
    }
}

impl WaterLevel {
    /// The numeric level.
    pub closed spec fn spec_level(self) -> u8 {
        self.level
    }

    /// Create a new water level from the integer level provided.
    pub fn new(level: u8) -> (r: WaterLevel)
        ensures
            r.spec_level() == level,
    {
        WaterLevel { level }
    }

    /// Create a starting water level from the difficulty provided.
    pub fn from_difficulty(difficulty: Difficulty) -> (r: WaterLevel)
        ensures
            r.spec_level() == spec_level_of_difficulty(difficulty),
    {
        let level: u8 = match difficulty {
            Difficulty::Novice => 0,
            Difficulty::Normal => 1,
            Difficulty::Elite => 2,
            Difficulty::Legendary => 3,
        };
        Self::new(level)
    }

    /// The starting state of the flood phase: draw as many flood cards as
    /// the current level demands.
    pub fn create_flood_state(&self) -> (r: ActionState)
        ensures
            r == ActionState::DrawFloodCards(spec_draw_amount(self.spec_level())),
    {
        ActionState::DrawFloodCards(self.draw_amount())
    }

    /// The amount of cards that should be drawn in the flood phase at the
    /// current level. When the game is already lost it returns a
    /// ridiculously high amount.
    pub fn draw_amount(&self) -> (r: u8)
        ensures
            r == spec_draw_amount(self.spec_level()),
    {
        match self.level {
            0 | 1 => 2,
            2 | 3 | 4 => 3,
            5 | 6 => 4,
            7 | 8 => 5,
            _ => u8::MAX,
        }
    }

    /// Whether the water is so high that the game has been lost because
    /// of it. This does not exclude losing the game by other means.
    pub fn game_lost(&self) -> (r: bool)
        ensures
            r == (self.spec_level() >= LOOSING_WATER_LEVEL),
    {
        self.level >= LOOSING_WATER_LEVEL
    }

    /// A new water level risen by the given amount, for asking what would
    /// happen after drawing that many waters-rise cards.
    pub fn risen(self, amount: u8) -> (r: WaterLevel)
        requires
            self.spec_level() + amount <= 255,
        ensures
            r.spec_level() == self.spec_level() + amount,
    {
        WaterLevel { level: self.level + amount }
    }

    /// Let the water level rise by the amount provided.
    pub fn rise(&mut self, amount: u8)
        requires
            old(self).spec_level() + amount <= 255,
        ensures
            final(self).spec_level() == old(self).spec_level() + amount,
    {
        self.level = self.level + amount;
    }
}

} // verus!
