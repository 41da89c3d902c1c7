//! The kinds of tile, their names in a map and their textures.

use vstd::prelude::*;

verus! {

/// Kind of a solid tile in the world grid.
#[derive(Debug, Copy, Clone, PartialEq, Eq, Structural)]
pub enum TileType {
    Grass,
    Dirt,
    Stone,
}

impl TileType {
    /// The tile kind that a map character names, if it names one.
    pub open spec fn spec_from_char(c: char) -> Option<TileType> {
        if c == 'g' {
            Some(TileType::Grass)
        } else if c == 'd' {
            Some(TileType::Dirt)
        } else if c == 's' {
            Some(TileType::Stone)
        } else {
            None
        }
    }

    /// Cell of the tileset, in atlas cells, at which the tile's texture lies.
    pub open spec fn spec_texture_offset(self) -> (u16, u16) {
        match self {
            TileType::Grass => (0u16, 0u16),
            TileType::Dirt => (1u16, 0u16),
            TileType::Stone => (2u16, 0u16),
        }
    }

    /// Texture offset in the tileset.
    pub fn texture_offset(self) -> (offset: (u16, u16))
        ensures
            offset == self.spec_texture_offset(),
    {
        match self {
            TileType::Grass => (0, 0),
            TileType::Dirt => (1, 0),
            TileType::Stone => (2, 0),
        }
    }

    /// Parse from a char of a human readable tilemap.
    pub fn from_char(c: char) -> (tile: Option<TileType>)
        ensures
            tile == Self::spec_from_char(c),
    {
        match c {
            'g' => Some(TileType::Grass),
            'd' => Some(TileType::Dirt),
            's' => Some(TileType::Stone),
            _ => None,
        }
    }
}

} // verus!
