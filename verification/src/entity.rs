//! Entities: what moves in the world.

use vstd::prelude::*;

verus! {

/// Global and unique ID of an entity.
///
/// Ids are handed out in increasing order starting at 1; 0 is never the id
/// of an entity.
#[derive(Debug, Copy, Clone, Ord, PartialOrd, Eq, PartialEq, Structural, Hash)]
pub struct EntityId(pub usize);

/// Type of the entity, used to determine logic.
#[derive(Debug, Copy, Clone, PartialEq, Eq, Structural)]
pub enum EntityType {
    Player,
}

/// An entity that can be placed on the map.
///
/// Position and velocity are fixed-point numbers: one tile is
/// [`UNITS_PER_TILE`](crate::units::UNITS_PER_TILE) units wide and high, and
/// the velocity is the displacement per simulation step.
#[derive(Debug, Copy, Clone, PartialEq, Eq, Structural)]
pub struct Entity {
    pub entity_type: EntityType,
    pub x: i64,
    pub y: i64,
    pub dx: i64,
    pub dy: i64,
}

impl EntityType {
    /// Cell of the tileset, in atlas cells, at which the entity's texture lies.
    pub open spec fn spec_texture_offset(self) -> (u16, u16) {
        match self {
            EntityType::Player => (0u16, 7u16),
        }
    }

    /// Texture offset in the tileset.
    pub fn texture_offset(self) -> (offset: (u16, u16))
        ensures
            offset == self.spec_texture_offset(),
    {
        match self {
            EntityType::Player => (0, 7),
        }
    }
}

} // verus!
