//! Static terrain tiles. Generating and rendering the tile map are outside
//! collaborators; the simulation core only reads which tiles block movement.

use vstd::prelude::*;

verus! {

/// One terrain tile of the static map.
#[derive(Clone, Copy, PartialEq, Eq, Structural, Debug)]
pub enum Tile {
    Seafloor,
    Wall,
    GeothermalVent,
}

impl Tile {
    /// Whether this terrain blocks movement.
    pub open spec fn spec_blocks_movement(self) -> bool {
        self != Tile::Seafloor
    }

    pub fn blocks_movement(self) -> (r: bool)
        ensures
            r == self.spec_blocks_movement(),
    {
        match self {
            Tile::Seafloor => false,
            Tile::Wall => true,
            Tile::GeothermalVent => true,
        }
    }
}

} // verus!
