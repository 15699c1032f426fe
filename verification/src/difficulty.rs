//! The difficulty a game can be started at.

use vstd::prelude::*;

verus! {

/// The four starting difficulties, deciding the initial water level.
#[derive(Clone, Copy, Debug, PartialEq, Eq, Structural)]
pub enum Difficulty {
    Novice,
    Normal,
    Elite,
    Legendary,
}

} // verus!
