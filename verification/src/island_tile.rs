//! The island tiles the playing field is made of.

use vstd::prelude::*;

use crate::adventurer_type::AdventurerType;
use crate::artefact_type::ArtefactType;
use crate::util::EqCheck;

verus! {

/// The identity of an island tile: one of the named locations of the
/// island. Some of them hide an artefact, some are the spawn point of an
/// adventurer.
#[derive(Clone, Copy, Debug, PartialEq, Eq, Structural)]
pub enum IslandTileInfo {
    CaveOfShadows,
    FoolsLanding,
    CliffsOfAbandon,
    BreakersBridge,
    CrimsonForest,
    TwighlightHorrow,
    Watchtower,
    MistyMarsh,
    Observatory,
    DunesOfDeception,
    LostLagoon,
    PhantomRock,
    GoldGate,
    IronGate,
    BronzeGate,
    CopperGate,
    SilverGate,
    TempleOfTheMoon,
    TempleOfTheSun,
    WhisperingGarden,
    HowlingGarden,
    CoralPalace,
    TidalPalace,
    CaveOfAmbers,
}

/// The different states an island tile can be in.
#[derive(Clone, Copy, Debug, PartialEq, Eq, Structural)]
pub enum IslandTileState {
    /// The tile is dry. Units can freely do anything on it.
    Dry,
    /// The tile is flooded. Units can still act on it, but it can be
    /// drained, and it is gone the next time its flood card is drawn.
    Flooded,
    /// The tile is gone. An amphibious unit can still swim through it, but
    /// other than that it is unusable.
    Gone,
}

/// One island tile: a named location together with its flood state.
#[derive(Clone, Copy, Debug, PartialEq, Eq, Structural)]
pub struct IslandTile {
    state: IslandTileState,
    info: IslandTileInfo,
}

/// The artefact hidden under a location, if any.
pub open spec fn spec_hidden_artefact(info: IslandTileInfo) -> Option<ArtefactType> {
    match info {
        IslandTileInfo::CaveOfShadows => Some(ArtefactType::Fire),
        IslandTileInfo::CaveOfAmbers => Some(ArtefactType::Fire),
        IslandTileInfo::TempleOfTheMoon => Some(ArtefactType::Earth),
        IslandTileInfo::TempleOfTheSun => Some(ArtefactType::Earth),
        IslandTileInfo::WhisperingGarden => Some(ArtefactType::Air),
        IslandTileInfo::HowlingGarden => Some(ArtefactType::Air),
        IslandTileInfo::CoralPalace => Some(ArtefactType::Water),
        IslandTileInfo::TidalPalace => Some(ArtefactType::Water),
        _ => None,
    }
}

/// The adventurer that spawns on a location, if any.
pub open spec fn spec_player_spawn(info: IslandTileInfo) -> Option<AdventurerType> {
    match info {
        IslandTileInfo::FoolsLanding => Some(AdventurerType::Pilot),
        IslandTileInfo::GoldGate => Some(AdventurerType::Navigator),
        IslandTileInfo::IronGate => Some(AdventurerType::Diver),
        IslandTileInfo::BronzeGate => Some(AdventurerType::Engineer),
        IslandTileInfo::CopperGate => Some(AdventurerType::Explorer),
        IslandTileInfo::SilverGate => Some(AdventurerType::Courier),
        _ => None,
    }
}

impl IslandTileInfo {
    /// The artefact hidden under this location, if any.
    pub fn hidden_artefact(self) -> (r: Option<ArtefactType>)
        ensures
            r == spec_hidden_artefact(self),
    {
        match self {
            Self::CaveOfShadows => Some(ArtefactType::Fire),
            Self::CaveOfAmbers => Some(ArtefactType::Fire),
            Self::TempleOfTheMoon => Some(ArtefactType::Earth),
            Self::TempleOfTheSun => Some(ArtefactType::Earth),
            Self::WhisperingGarden => Some(ArtefactType::Air),
            Self::HowlingGarden => Some(ArtefactType::Air),
            Self::CoralPalace => Some(ArtefactType::Water),
            Self::TidalPalace => Some(ArtefactType::Water),
            _ => None,
        }
    }

    /// The adventurer that spawns on this location, if any.
    pub fn player_spawn(self) -> (r: Option<AdventurerType>)
        ensures
            r == spec_player_spawn(self),
    {
        match self {
            Self::FoolsLanding => Some(AdventurerType::Pilot),
            Self::GoldGate => Some(AdventurerType::Navigator),
            Self::IronGate => Some(AdventurerType::Diver),
            Self::BronzeGate => Some(AdventurerType::Engineer),
            Self::CopperGate => Some(AdventurerType::Explorer),
            Self::SilverGate => Some(AdventurerType::Courier),
            _ => None,
        }
    }
}

impl IslandTile {
    /// A new tile for the given location; its state starts out dry.
    pub fn new(info: IslandTileInfo) -> (r: IslandTile)
        ensures
            r.spec_state() == IslandTileState::Dry,
            r.spec_info() == info,
    {
        IslandTile { state: IslandTileState::Dry, info }
    }

    /// The flood state of the tile.
    pub closed spec fn spec_state(self) -> IslandTileState {
        self.state
    }

    /// The location identity of the tile.
    pub closed spec fn spec_info(self) -> IslandTileInfo {
        self.info
    }

    /// The flood state of the tile.
    pub fn state(self) -> (r: IslandTileState)
        ensures
            r == self.spec_state(),
    {
        self.state
    }

    /// Put the tile into the given flood state.
    pub fn set_state(&mut self, state: IslandTileState)
        ensures
            final(self).spec_state() == state,
            final(self).spec_info() == old(self).spec_info(),
    {
        self.state = state;
    }

    /// The location identity of the tile.
    pub fn info(&self) -> (r: IslandTileInfo)
        ensures
            r == self.spec_info(),
    {
        self.info
    }
}

impl EqCheck for IslandTile {
    fn eq_check(&self, other: &Self) -> (r: bool)
        ensures
            r == (*self == *other),
    {
        *self == *other
    }
}

} // verus!
