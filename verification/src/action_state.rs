//! Action state of the currently active turn. A turn starts with the
//! player's adventurer taking up to three actions. Afterwards they draw
//! two treasure cards and finally the amount of flood cards the current
//! water level demands.

use vstd::prelude::*;

verus! {

/// The current phase of a turn, with how many actions the player can
/// still take or how many cards still have to be drawn.
#[derive(Clone, Copy, Debug, PartialEq, Eq, Structural)]
pub enum ActionState {
    PlayerAction(u8),
    DrawArtefactCards(u8),
    DrawFloodCards(u8),
}

} // verus!
