//! The full playing field: a grid of optional island tiles.

use vstd::prelude::*;

use crate::adventurer_type::AdventurerType;
use crate::grid::Grid;
use crate::grid::Standable;
use crate::island_tile::IslandTile;
use crate::island_tile::IslandTileState;
use crate::island_tile::spec_player_spawn;
use crate::vec2::Vec2;

verus! {

/// A playable map: each cell either holds an island tile or is open sea.
pub type Full = Grid<Option<IslandTile>>;

/// The raw shape of an island: `true` where an island tile should be
/// placed and `false` where the sea is.
pub type BlackWhite = Grid<bool>;

impl Standable for Option<IslandTile> {
    open spec fn spec_cell_present(self) -> bool {
        self is Some
    }

    open spec fn spec_cell_standable(self) -> bool {
        match self {
            Some(tile) => tile.spec_state() != IslandTileState::Gone,
            None => false,
        }
    }

    fn cell_present(&self) -> (r: bool)
        ensures
            r == self.spec_cell_present(),
    {
        self.is_some()
    }

    fn cell_standable(&self) -> (r: bool)
        ensures
            r == self.spec_cell_standable(),
    {
        match self {
            Some(tile) => tile.state() != IslandTileState::Gone,
            None => false,
        }
    }
}

/// Whether the cell at `p` holds a tile whose location spawns the given
/// adventurer kind.
pub open spec fn spec_spawns(map: &Full, p: Vec2, adventurer_type: AdventurerType) -> bool {
    map.in_bounds(p) && match map.cell(p) {
        Some(tile) => spec_player_spawn(tile.spec_info()) == Some(adventurer_type),
        None => false,
    }
}

impl Grid<Option<IslandTile>> {
    /// Find the spawn point of the given adventurer kind: the first cell
    /// in row-major order whose tile spawns it, or `None` when the map
    /// holds no such tile.
    pub fn spawn_point(&self, adventurer_type: AdventurerType) -> (r: Option<Vec2>)
        requires
            self.wf(),
        ensures
            match r {
                Some(p) => spec_spawns(self, p, adventurer_type) && forall|q: Vec2|
                    spec_spawns(self, q, adventurer_type) ==> (p.y < q.y || (p.y == q.y && p.x
                        <= q.x) || q == p),
                None => forall|q: Vec2| !spec_spawns(self, q, adventurer_type),
            },
    {
        let w = self.width();
        let h = self.height();
        let mut y: u8 = 0;
        while y < h
            invariant
                self.wf(),
                w == self.spec_width(),
                h == self.spec_height(),
                0 <= y <= h,
                forall|q: Vec2| spec_spawns(self, q, adventurer_type) ==> q.y >= y,
            decreases h - y,
        {
            let mut x: u8 = 0;
            while x < w
                invariant
                    self.wf(),
                    w == self.spec_width(),
                    h == self.spec_height(),
                    0 <= y < h,
                    0 <= x <= w,
                    forall|q: Vec2|
                        spec_spawns(self, q, adventurer_type) ==> q.y > y || (q.y == y && q.x
                            >= x),
                decreases w - x,
            {
                let pos = Vec2 { x, y };
                match self.get(pos) {
                    Some(Some(tile)) => {
                        match tile.info().player_spawn() {
                            Some(spawn) => {
                                if spawn == adventurer_type {
                                    assert(spec_spawns(self, pos, adventurer_type));
                                    return Some(pos);
                                }
                            },
                            None => {},
                        }
                    },
                    _ => {},
                }
                proof {
                    assert(!spec_spawns(self, pos, adventurer_type));
                }
                x = x + 1;
            }
            y = y + 1;
        }
        proof {
            assert forall|q: Vec2| !spec_spawns(self, q, adventurer_type) by {
                if spec_spawns(self, q, adventurer_type) {
                    assert(q.y < h);
                }
            }
        }
        None
    }
}

} // verus!
