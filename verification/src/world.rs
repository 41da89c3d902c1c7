//! The world: a sparse grid of tiles and the entities in it.
//!
//! A cell of the grid is named by its column and row, both `i32`; a cell
//! without a tile is empty and can be passed. Entities are kept by id. Ids
//! start at 1, rise by one with every spawned entity and are never used
//! twice.

use crate::entity::{Entity, EntityId};
use crate::tile::TileType;
use crate::tilemap::{
    column_of, fits, is_map, is_unknown, lemma_cell_bounds, lemma_tiles_before_end, row_of,
    tile_in_text, tiles_before, tiles_of_text, MapParseError,
};
use crate::units::{
    lemma_tile_index_floor, offset, saturate, tile_index, tile_of, UNITS_PER_TILE,
};
use std::collections::HashMap;
use vstd::prelude::*;
use vstd::std_specs::hash::{spec_hash_map_iter, spec_keys_iter};
use vstd::std_specs::iter::IteratorSpec;

verus! {

broadcast use vstd::std_specs::hash::group_hash_axioms;

/// Width of a tile texture in pixels.
pub const TILE_WIDTH: usize = 16;

/// Height of a tile texture in pixels.
pub const TILE_HEIGHT: usize = 16;

/// Whether `x` and `y` are the column and row of a cell: both in the range
/// of an `i32`.
pub open spec fn is_cell(x: int, y: int) -> bool {
    i32::MIN <= x <= i32::MAX && i32::MIN <= y <= i32::MAX
}

/// What a [`World`] holds, as mathematical maps.
pub ghost struct WorldState {
    /// The tile of each occupied cell, by the cell's column and row. A cell
    /// without an entry is empty.
    pub tiles: Map<(int, int), TileType>,
    /// The entities, by id.
    pub entities: Map<EntityId, Entity>,
    /// The id that was handed out last; `EntityId(0)` if none was.
    pub last_entity_id: EntityId,
}

impl WorldState {
    /// Every tile lies in a cell, and every entity has an id that was handed
    /// out: one from 1 up to the last id.
    pub open spec fn wf(self) -> bool {
        &&& forall|x: int, y: int| #[trigger] self.tiles.contains_key((x, y)) ==> is_cell(x, y)
        &&& forall|id: EntityId| #[trigger]
            self.entities.contains_key(id) ==> 1 <= id.0 <= self.last_entity_id.0
    }

    /// The tile in the cell of column `x` and row `y`, if the cell has one.
    pub open spec fn tile_at(self, x: int, y: int) -> Option<TileType> {
        if self.tiles.contains_key((x, y)) {
            Some(self.tiles[(x, y)])
        } else {
            None
        }
    }

    /// Whether the point `(x, y)` lies in a cell that has a tile.
    pub open spec fn collide_point(self, x: int, y: int) -> bool {
        self.tiles.contains_key((tile_index(x), tile_index(y)))
    }

    /// Whether one of the four corners of the rectangle with the origin
    /// `(x, y)`, the width `w` and the height `h` lies in a cell that has a
    /// tile. The far corners are limited to the range of a coordinate.
    pub open spec fn collide_rect(self, x: int, y: int, w: int, h: int) -> bool {
        ||| self.collide_point(x, y)
        ||| self.collide_point(saturate(x + w), y)
        ||| self.collide_point(x, saturate(y + h))
        ||| self.collide_point(saturate(x + w), saturate(y + h))
    }

    /// The state with `entity` in the place of the entity with the id `id`.
    pub open spec fn replace(self, id: EntityId, entity: Entity) -> WorldState {
        WorldState { entities: self.entities.insert(id, entity), ..self }
    }

    /// The id that the next spawned entity gets.
    pub open spec fn next_entity_id(self) -> EntityId {
        EntityId((self.last_entity_id.0 + 1) as usize)
    }

    /// The state after `entity` was spawned.
    pub open spec fn spawn(self, entity: Entity) -> WorldState {
        WorldState {
            tiles: self.tiles,
            entities: self.entities.insert(self.next_entity_id(), entity),
            last_entity_id: self.next_entity_id(),
        }
    }

    /// The state after the `entities` were spawned, one after the other.
    pub open spec fn spawn_all(self, entities: Seq<Entity>) -> WorldState
        decreases entities.len(),
    {
        if entities.len() == 0 {
            self
        } else {
            self.spawn_all(entities.drop_last()).spawn(entities.last())
        }
    }
}

/// Tilemap of the world, and the entities that live in it.
pub struct World {
    tiles: HashMap<u64, TileType>,
    entities: HashMap<usize, Entity>,
    last_entity_id: EntityId,
}

impl View for World {
    type V = WorldState;

    closed spec fn view(&self) -> WorldState {
        WorldState {
            tiles: cells(self.tiles@),
            entities: Map::new(
                |id: EntityId| self.entities@.contains_key(id.0),
                |id: EntityId| self.entities@[id.0],
            ),
            last_entity_id: self.last_entity_id,
        }
    }
}

impl World {
    /// The world's invariant: that of its state.
    pub open spec fn wf(&self) -> bool {
        self@.wf()
    }

    /// Parse a human readable tilemap.
    ///
    /// The world has the tiles that the text describes, and no entity. Where
    /// the text is not a map, the error describes the first character that
    /// is neither a space nor the name of a tile.
    ///
    /// The text must have a cell for each of its tiles, as every text of at
    /// most `i32::MAX` characters has.
    pub fn from_string_tilemap(tilemap: &str) -> (result: Result<World, MapParseError>)
        requires
            tilemap@.len() <= usize::MAX,
            fits(tilemap@),
        ensures
            result is Ok <==> is_map(tilemap@),
            match result {
                Ok(world) => {
                    &&& world@.tiles == tiles_of_text(tilemap@)
                    &&& forall|x: int, y: int| #[trigger]
                        world@.tile_at(x, y) == tile_in_text(tilemap@, x, y)
                    &&& world@.entities == Map::<EntityId, Entity>::empty()
                    &&& world@.last_entity_id == EntityId(0)
                    &&& world.wf()
                },
                Err(error) => error.describes(tilemap@),
            },
    {
        let ghost text = tilemap@;
        let mut tiles: HashMap<u64, TileType> = HashMap::new();
        let mut index: usize = 0;
        let mut column: usize = 0;
        let mut row: usize = 0;
        let mut after_return = false;
        assert(cells(tiles@) =~= tiles_before(text, 0));
        for c in it: tilemap.chars()
            invariant
                text == tilemap@,
                it.seq() == text,
                text.len() <= usize::MAX,
                fits(text),
                index == it.index(),
                column == column_of(text, index as int),
                row == row_of(text, index as int),
                after_return <==> (index > 0 && text[index - 1] == '\r'),
                forall|j: int|
                    0 <= j < index - (if after_return {
                        1int
                    } else {
                        0int
                    }) ==> !is_unknown(text, j),
                cells(tiles@) == tiles_before(text, index as int),
        {
            proof {
                lemma_cell_bounds(text, index as int);
                lemma_cell_bounds(text, index as int + 1);
                assert(index < text.len());
                assert(c == text[index as int]);
            }
            if after_return && c != '\n' {
                proof {
                    lemma_cell_bounds(text, index as int - 1);
                    assert(is_unknown(text, index as int - 1));
                }
                return Err(
                    MapParseError { character: '\r', index: index - 1, column: column - 1, row },
                );
            }
            if c == '\n' {
                row = row + 1;
                column = 0;
                after_return = false;
            } else {
                if c == '\r' {
                    after_return = true;
                } else {
                    after_return = false;
                    if c != ' ' {
                        match TileType::from_char(c) {
                            Some(tile) => {
                                proof {
                                    lemma_cells_insert(tiles@, column as int, row as int, tile);
                                }
                                tiles.insert(key_of(column as i32, row as i32), tile);
                            },
                            None => {
                                assert(is_unknown(text, index as int));
                                return Err(MapParseError { character: c, index, column, row });
                            },
                        }
                    }
                }
                column = column + 1;
            }
            index = index + 1;
        }
        if after_return {
            proof {
                lemma_cell_bounds(text, index as int - 1);
                assert(index == text.len());
                assert(is_unknown(text, index as int - 1));
            }
            return Err(
                MapParseError { character: '\r', index: index - 1, column: column - 1, row },
            );
        }
        proof {
            lemma_tiles_before_end(text);
        }
        let world = World { tiles, entities: HashMap::new(), last_entity_id: EntityId(0) };
        assert(world@.entities =~= Map::<EntityId, Entity>::empty());
        Ok(world)
    }

    /// The tile in the cell of column `x` and row `y`, if the cell has one.
    pub fn tile_at(&self, x: i32, y: i32) -> (tile: Option<TileType>)
        ensures
            tile == self@.tile_at(x as int, y as int),
    {
        let key = key_of(x, y);
        match self.tiles.get(&key) {
            Some(tile) => Some(*tile),
            None => None,
        }
    }

    /// All tiles, each with the column and row of its cell, in no particular
    /// order.
    pub fn tiles(&self) -> (list: Vec<(i32, i32, TileType)>)
        ensures
            list@.no_duplicates(),
            forall|x: i32, y: i32, tile: TileType|
                list@.contains((x, y, tile)) <==> self@.tile_at(x as int, y as int) == Some(
                    tile,
                ),
    {
        let mut list: Vec<(i32, i32, TileType)> = Vec::new();
        let ghost stored = spec_hash_map_iter(&self.tiles).remaining();
        for entry in it: self.tiles.iter()
            invariant
                it.seq() == stored,
                stored.no_duplicates(),
                list@.len() == it.index(),
                forall|j: int|
                    0 <= j < list@.len() ==> {
                        let (x, y, tile) = #[trigger] list@[j];
                        &&& tile_key(x as int, y as int) == *stored[j].0
                        &&& tile == *stored[j].1
                    },
        {
            let cell = cell_of_key(*entry.0);
            list.push((cell.0, cell.1, *entry.1));
        }
        proof {
            assert forall|x: i32, y: i32, tile: TileType|
                list@.contains((x, y, tile)) <==> self@.tile_at(x as int, y as int) == Some(
                    tile,
                ) by {
                lemma_tile_key_range(x as int, y as int);
                let key = tile_key(x as int, y as int) as u64;
                if list@.contains((x, y, tile)) {
                    let j = choose|j: int| 0 <= j < list@.len() && list@[j] == (x, y, tile);
                    assert(self.tiles@.contains_key(*stored[j].0));
                }
                if self@.tile_at(x as int, y as int) == Some(tile) {
                    assert(self.tiles@.contains_key(key));
                    assert(stored.contains((&key, &self.tiles@[key])));
                    let j = choose|j: int|
                        0 <= j < stored.len() && stored[j] == (&key, &self.tiles@[key]);
                    let (lx, ly, lt) = list@[j];
                    lemma_tile_key_range(lx as int, ly as int);
                    lemma_tile_key_injective(lx as int, ly as int, x as int, y as int);
                    assert(list@[j] == (x, y, tile));
                }
            }
            assert forall|i: int, j: int|
                0 <= i < list@.len() && 0 <= j < list@.len() && i != j implies list@[i]
                != list@[j] by {
                assert(self.tiles@.contains_key(*stored[i].0));
                assert(self.tiles@.contains_key(*stored[j].0));
                if list@[i] == list@[j] {
                    assert(stored[i] == stored[j]);
                }
            }
        }
        list
    }

    /// The id that was handed out last; `EntityId(0)` if none was.
    pub fn last_entity_id(&self) -> (id: EntityId)
        ensures
            id == self@.last_entity_id,
    {
        self.last_entity_id
    }

    /// Adds `entity` to the world under the next free id, and returns that id.
    pub fn spawn_entity(&mut self, entity: Entity) -> (id: EntityId)
        requires
            old(self).wf(),
            old(self)@.last_entity_id.0 < usize::MAX,
        ensures
            id == old(self)@.next_entity_id(),
            !old(self)@.entities.contains_key(id),
            final(self)@ == old(self)@.spawn(entity),
            final(self).wf(),
    {
        let id = EntityId(self.last_entity_id.0 + 1);
        self.last_entity_id = id;
        self.entities.insert(id.0, entity);
        assert(self@.entities =~= old(self)@.spawn(entity).entities);
        assert(self@.tiles =~= old(self)@.tiles);
        id
    }

    /// The entity with the given id, if there is one.
    pub fn get_entity(&self, id: EntityId) -> (entity: Option<Entity>)
        ensures
            entity == (if self@.entities.contains_key(id) {
                Some(self@.entities[id])
            } else {
                None
            }),
    {
        match self.entities.get(&id.0) {
            Some(e) => Some(*e),
            None => None,
        }
    }

    /// Puts `entity` in the place of the entity with the given id. Without
    /// such an entity the world stays as it is, and the result is `false`.
    pub fn set_entity(&mut self, id: EntityId, entity: Entity) -> (found: bool)
        requires
            old(self).wf(),
        ensures
            found == old(self)@.entities.contains_key(id),
            final(self)@ == (if found {
                old(self)@.replace(id, entity)
            } else {
                old(self)@
            }),
            final(self).wf(),
    {
        if self.entities.contains_key(&id.0) {
            self.entities.insert(id.0, entity);
            assert(self@.entities =~= old(self)@.entities.insert(id, entity));
            assert(self@.tiles =~= old(self)@.tiles);
            true
        } else {
            false
        }
    }

    /// The ids of all entities, each once, in no particular order.
    pub fn entity_ids(&self) -> (ids: Vec<EntityId>)
        ensures
            ids@.no_duplicates(),
            forall|id: EntityId| ids@.contains(id) <==> self@.entities.contains_key(id),
    {
        let mut ids: Vec<EntityId> = Vec::new();
        let ghost keys = spec_keys_iter(&self.entities).remaining();
        for key in it: self.entities.keys()
            invariant
                it.seq() == keys,
                ids@.len() == it.index(),
                forall|j: int| 0 <= j < ids@.len() ==> ids@[j] == EntityId(*keys[j]),
        {
            ids.push(EntityId(*key));
        }
        assert forall|id: EntityId| ids@.contains(id) <==> self@.entities.contains_key(id) by {
            if ids@.contains(id) {
                let j = choose|j: int| 0 <= j < ids@.len() && ids@[j] == id;
                assert(keys.unref()[j] == id.0);
                assert(keys.unref().to_set().contains(id.0));
            }
            if self@.entities.contains_key(id) {
                assert(keys.unref().to_set().contains(id.0));
                let j = choose|j: int| 0 <= j < keys.unref().len() && keys.unref()[j] == id.0;
                assert(ids@[j] == id);
            }
        }
        ids
    }

    /// Whether one of the four corners of the rectangle with the origin
    /// `(x, y)`, the width `w` and the height `h` lies in a cell that has a
    /// tile. Only the corners are looked at: a tile that the rectangle covers
    /// without a corner in it goes unnoticed.
    pub fn collide_rect(&self, x: i64, y: i64, w: i64, h: i64) -> (hit: bool)
        ensures
            hit == self@.collide_rect(x as int, y as int, w as int, h as int),
    {
        self.collide_point(x, y) || self.collide_point(offset(x, w), y) || self.collide_point(
            x,
            offset(y, h),
        ) || self.collide_point(offset(x, w), offset(y, h))
    }

    /// Whether the point `(x, y)` lies in a cell that has a tile. The cell of
    /// a point is found by rounding down.
    pub fn collide_point(&self, x: i64, y: i64) -> (hit: bool)
        ensures
            hit == self@.collide_point(x as int, y as int),
    {
        self.tile_at(tile_of(x), tile_of(y)).is_some()
    }
}


/// Ids are unique: spawning `entities` one after the other gives them the
/// ids that follow the last id, in order, so each id is greater than the one
/// before it and none of them was handed out before. The ids depend on the
/// last id alone, not on the entities that are there, and every entity that
/// was there stays as it is.
pub proof fn lemma_spawned_ids(state: WorldState, entities: Seq<Entity>)
    requires
        state.wf(),
        state.last_entity_id.0 + entities.len() <= usize::MAX,
    ensures
        state.spawn_all(entities).wf(),
        state.spawn_all(entities).tiles == state.tiles,
        state.spawn_all(entities).last_entity_id.0 == state.last_entity_id.0 + entities.len(),
        forall|k: int|
            0 <= k < entities.len() ==> {
                let id = #[trigger] state.spawn_all(entities.take(k)).next_entity_id();
                &&& id.0 == state.last_entity_id.0 + 1 + k
                &&& !state.entities.contains_key(id)
                &&& state.spawn_all(entities).entities.contains_key(id)
                &&& state.spawn_all(entities).entities[id] == entities[k]
            },
        forall|id: EntityId| #[trigger]
            state.entities.contains_key(id) ==> state.spawn_all(entities).entities.contains_key(
                id,
            ) && state.spawn_all(entities).entities[id] == state.entities[id],
    decreases entities.len(),
{
    if entities.len() > 0 {
        let earlier = entities.drop_last();
        let n = earlier.len() as int;
        lemma_spawned_ids(state, earlier);
        assert(entities.take(n) =~= earlier);
        assert forall|k: int| 0 <= k < entities.len() implies {
            let id = #[trigger] state.spawn_all(entities.take(k)).next_entity_id();
            &&& id.0 == state.last_entity_id.0 + 1 + k
            &&& !state.entities.contains_key(id)
            &&& state.spawn_all(entities).entities.contains_key(id)
            &&& state.spawn_all(entities).entities[id] == entities[k]
        } by {
            if k < n {
                assert(entities.take(k) =~= earlier.take(k));
                let id = state.spawn_all(earlier.take(k)).next_entity_id();
                assert(id.0 == state.last_entity_id.0 + 1 + k);
            }
        }
    } else {
        assert(entities.take(0) =~= entities);
    }
}

/// Points are found by rounding down: a point collides just if the cell
/// whose square it lies in has a tile. The square of the cell `(column,
/// row)` reaches from its corner `(column, row)`, in tiles, one tile to the
/// right and down, without its right and lower edges.
pub proof fn lemma_collide_point_floor(state: WorldState, x: int, y: int, column: int, row: int)
    requires
        column * UNITS_PER_TILE <= x < (column + 1) * UNITS_PER_TILE,
        row * UNITS_PER_TILE <= y < (row + 1) * UNITS_PER_TILE,
    ensures
        state.collide_point(x, y) == state.tiles.contains_key((column, row)),
{
    lemma_tile_index_floor(x, column);
    lemma_tile_index_floor(y, row);
}

/// Key under which the tile of the cell `(x, y)` is stored: column and row,
/// each moved into the range of a `u32`, side by side.
spec fn tile_key(x: int, y: int) -> int {
    (x + 0x8000_0000) * 0x1_0000_0000 + (y + 0x8000_0000)
}

/// The stored tiles, by cell.
spec fn cells(stored: Map<u64, TileType>) -> Map<(int, int), TileType> {
    Map::new(
        |cell: (int, int)|
            is_cell(cell.0, cell.1) && stored.contains_key(tile_key(cell.0, cell.1) as u64),
        |cell: (int, int)| stored[tile_key(cell.0, cell.1) as u64],
    )
}

fn key_of(x: i32, y: i32) -> (key: u64)
    ensures
        key == tile_key(x as int, y as int),
{
    let column: u64 = (x as i64 + 0x8000_0000) as u64;
    let row: u64 = (y as i64 + 0x8000_0000) as u64;
    column * 0x1_0000_0000 + row
}

fn cell_of_key(key: u64) -> (cell: (i32, i32))
    ensures
        is_cell(cell.0 as int, cell.1 as int),
        tile_key(cell.0 as int, cell.1 as int) == key,
{
    let column = (key / 0x1_0000_0000) as i64 - 0x8000_0000;
    let row = (key % 0x1_0000_0000) as i64 - 0x8000_0000;
    (column as i32, row as i32)
}

proof fn lemma_tile_key_injective(x1: int, y1: int, x2: int, y2: int)
    requires
        is_cell(x1, y1),
        is_cell(x2, y2),
        tile_key(x1, y1) == tile_key(x2, y2),
    ensures
        x1 == x2,
        y1 == y2,
{
}

proof fn lemma_tile_key_range(x: int, y: int)
    requires
        is_cell(x, y),
    ensures
        0 <= tile_key(x, y) <= u64::MAX,
{
}

proof fn lemma_cells_insert(stored: Map<u64, TileType>, x: int, y: int, tile: TileType)
    requires
        is_cell(x, y),
    ensures
        cells(stored.insert(tile_key(x, y) as u64, tile)) =~= cells(stored).insert((x, y), tile),
{
    lemma_tile_key_range(x, y);
    assert forall|cell: (int, int)| is_cell(cell.0, cell.1) && cell != (x, y) implies tile_key(
        cell.0,
        cell.1,
    ) as u64 != tile_key(x, y) as u64 by {
        lemma_tile_key_range(cell.0, cell.1);
        if tile_key(cell.0, cell.1) == tile_key(x, y) {
            lemma_tile_key_injective(cell.0, cell.1, x, y);
        }
    }
}


} // verus!
