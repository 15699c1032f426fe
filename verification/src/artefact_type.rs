//! The four hidden collectibles of the island.

use vstd::prelude::*;

verus! {

/// One of the four artefacts that can be hidden under island tiles.
#[derive(Clone, Copy, Debug, PartialEq, Eq, Structural)]
pub enum ArtefactType {
    Fire,
    Earth,
    Air,
    Water,
}

} // verus!
