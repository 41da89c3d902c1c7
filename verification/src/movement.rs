//! Movement: one simulation step.
//!
//! An entity moves by its velocity in [`SUBSTEPS`] equal parts. Its position
//! after none, one, two ... fifteen of these parts is tried, and the entity
//! is put at the last of these positions at which its bounding box, one tile
//! wide and high, hits no tile. The position after the whole step is not
//! among them. A blocked position does not end the search: a free one
//! behind it is taken. The velocity is left as it is.

use crate::control::{steer, steered, Input};
use crate::entity::{Entity, EntityId};
use crate::units::{div_toward_zero, offset, saturate, UNITS_PER_TILE};
use crate::world::{World, WorldState};
use vstd::prelude::*;

verus! {

/// Number of parts into which the displacement of one step is divided.
pub const SUBSTEPS: i64 = 16;

/// Id of the entity that the input steers: the first one spawned.
pub const PLAYER_ID: usize = 1;

/// Displacement along one axis after `i` parts of a step with the velocity
/// `d`: `d * i / SUBSTEPS`, rounded towards zero.
pub open spec fn partial(d: int, i: int) -> int {
    div_toward_zero(d * i, SUBSTEPS as int)
}

/// Position of the entity after `i` parts of its step.
pub open spec fn sample(entity: Entity, i: int) -> (int, int) {
    (saturate(entity.x + partial(entity.dx as int, i)), saturate(
        entity.y + partial(entity.dy as int, i),
    ))
}

impl WorldState {
    /// Whether the bounding box of an entity at `(x, y)`, one tile wide and
    /// high, has a corner in a cell with a tile.
    pub open spec fn blocked(self, x: int, y: int) -> bool {
        self.collide_rect(x, y, UNITS_PER_TILE as int, UNITS_PER_TILE as int)
    }

    /// Whether there is an entity with the id `id` that is not blocked where
    /// it stands.
    pub open spec fn stands_clear(self, id: EntityId) -> bool {
        &&& self.entities.contains_key(id)
        &&& !self.blocked(self.entities[id].x as int, self.entities[id].y as int)
    }

    /// Whether the entity is blocked after `i` parts of its step.
    pub open spec fn blocked_after(self, entity: Entity, i: int) -> bool {
        self.blocked(sample(entity, i).0, sample(entity, i).1)
    }

    /// Whether `i` is the last of the tried parts after which the entity is
    /// not blocked.
    pub open spec fn is_last_clear(self, entity: Entity, i: int) -> bool {
        &&& 0 <= i < SUBSTEPS
        &&& !self.blocked_after(entity, i)
        &&& forall|j: int| i < j < SUBSTEPS ==> self.blocked_after(entity, j)
    }

    /// The position that the step takes the entity to: that after the last
    /// of the tried parts after which it is not blocked. `None` if it is
    /// blocked after each of them.
    pub open spec fn target(self, entity: Entity) -> Option<(int, int)> {
        if exists|i: int| self.is_last_clear(entity, i) {
            Some(sample(entity, choose|i: int| self.is_last_clear(entity, i)))
        } else {
            None
        }
    }

    /// The entity after the step: at its target, or where it was if it has
    /// none. Its velocity is unchanged.
    pub open spec fn moved(self, entity: Entity) -> Entity {
        match self.target(entity) {
            Some(position) => Entity { x: position.0 as i64, y: position.1 as i64, ..entity },
            None => entity,
        }
    }

    /// The state after every entity has made its step.
    pub open spec fn step(self) -> WorldState {
        WorldState {
            entities: Map::new(
                |id: EntityId| self.entities.contains_key(id),
                |id: EntityId| self.moved(self.entities[id]),
            ),
            ..self
        }
    }

    /// The state after the entity with the id `id` was steered by `input`.
    pub open spec fn steer(self, id: EntityId, input: Input) -> WorldState {
        self.replace(id, steered(self.entities[id], input))
    }

    /// The state after one frame: the player is steered, then every entity
    /// makes its step.
    pub open spec fn update(self, input: Input) -> WorldState {
        self.steer(EntityId(PLAYER_ID), input).step()
    }
}

impl World {
    /// The position that one step takes `entity` to, if it is not blocked
    /// all the way. The position is free, and an entity that is not blocked
    /// where it stands always has one.
    pub fn resolve_movement(&self, entity: Entity) -> (target: Option<(i64, i64)>)
        ensures
            match target {
                Some(position) => {
                    &&& self@.target(entity) == Some((position.0 as int, position.1 as int))
                    &&& !self@.blocked(position.0 as int, position.1 as int)
                },
                None => {
                    &&& self@.target(entity) is None
                    &&& self@.blocked(entity.x as int, entity.y as int)
                },
            },
    {
        let mut change: Option<(i64, i64)> = None;
        let ghost mut last: int = -1;
        for i in 0..SUBSTEPS
            invariant
                -1 <= last < i,
                forall|j: int| last < j < i ==> self@.blocked_after(entity, j),
                last < 0 ==> change is None,
                last >= 0 ==> !self@.blocked_after(entity, last) && change == Some(
                    (sample(entity, last).0 as i64, sample(entity, last).1 as i64),
                ),
        {
            let x = offset(entity.x, partial_of(entity.dx, i));
            let y = offset(entity.y, partial_of(entity.dy, i));
            if !self.collide_rect(x, y, UNITS_PER_TILE, UNITS_PER_TILE) {
                change = Some((x, y));
                proof {
                    last = i as int;
                }
            }
        }
        proof {
            if last >= 0 {
                lemma_last_clear_unique(self@, entity, last);
            } else {
                assert forall|i: int| !self@.is_last_clear(entity, i) by {
                    if 0 <= i < SUBSTEPS {
                        assert(self@.blocked_after(entity, i));
                    }
                }
                assert(self@.blocked_after(entity, 0));
                assert(sample(entity, 0) == (entity.x as int, entity.y as int));
            }
        }
        change
    }

    /// Lets every entity make its step: each is put at the position that
    /// [`resolve_movement`](World::resolve_movement) finds for it, and stays
    /// where it is if there is none. No entity that was not blocked is
    /// blocked afterwards.
    pub fn move_entities(&mut self)
        requires
            old(self).wf(),
        ensures
            final(self)@ == old(self)@.step(),
            final(self).wf(),
            forall|id: EntityId|
                old(self)@.stands_clear(id) ==> #[trigger] final(self)@.stands_clear(id),
    {
        let ghost before = self@;
        let ids = self.entity_ids();
        let mut movements: Vec<(EntityId, i64, i64)> = Vec::new();
        for n in 0..ids.len()
            invariant
                self@ == before,
                forall|id: EntityId| ids@.contains(id) <==> before.entities.contains_key(id),
                forall|t: int|
                    0 <= t < movements@.len() ==> is_movement(before, #[trigger] movements@[t]),
                forall|j: int|
                    0 <= j < n && before.entities.contains_key(#[trigger] ids@[j]) && before.target(
                        before.entities[ids@[j]],
                    ) is Some ==> is_moved(movements@, ids@[j]),
        {
            let id = ids[n];
            assert(ids@.contains(id));
            let entity = self.get_entity(id).unwrap();
            match self.resolve_movement(entity) {
                Some((x, y)) => {
                    let ghost earlier = movements@;
                    movements.push((id, x, y));
                    proof {
                        lemma_moved_after_push(earlier, (id, x, y));
                    }
                },
                None => {},
            }
        }
        assert forall|id: EntityId|
            before.entities.contains_key(id) && before.target(
                before.entities[id],
            ) is Some implies is_moved(movements@, id) by {
            assert(ids@.contains(id));
            let j = choose|j: int| 0 <= j < ids@.len() && ids@[j] == id;
            assert(is_moved(movements@, ids@[j]));
        }
        for t in 0..movements.len()
            invariant
                self.wf(),
                self@.tiles == before.tiles,
                self@.last_entity_id == before.last_entity_id,
                self@.entities.dom() == before.entities.dom(),
                forall|id: EntityId|
                    before.entities.contains_key(id) && before.target(before.entities[id]) is Some
                        ==> is_moved(movements@, id),
                forall|u: int|
                    0 <= u < movements@.len() ==> is_movement(before, #[trigger] movements@[u]),
                forall|id: EntityId|
                    before.entities.contains_key(id) ==> #[trigger] self@.entities[id]
                        == before.entities[id] || self@.entities[id] == before.moved(
                        before.entities[id],
                    ),
                forall|u: int|
                    0 <= u < t ==> self@.entities[(#[trigger] movements@[u]).0] == before.moved(
                        before.entities[movements@[u].0],
                    ),
        {
            let (id, x, y) = movements[t];
            assert(is_movement(before, movements@[t as int]));
            assert(self@.entities.dom().contains(id));
            let entity = self.get_entity(id).unwrap();
            let ghost earlier = self@;
            self.set_entity(id, Entity { x, y, ..entity });
            assert(self@.entities.dom() =~= earlier.entities.dom());
        }
        proof {
            assert forall|id: EntityId| before.entities.contains_key(id) implies self@.entities[id]
                == before.moved(before.entities[id]) by {
                if before.target(before.entities[id]) is Some {
                    assert(is_moved(movements@, id));
                    let t = choose|t: int|
                        0 <= t < movements@.len() && (#[trigger] movements@[t]).0 == id;
                    assert(movements@[t].0 == id);
                }
            }
            assert(self@.entities =~= before.step().entities);
            assert forall|id: EntityId| before.stands_clear(id) implies #[trigger] self@.stands_clear(
                id,
            ) by {
                lemma_step_stays_clear(before, id);
            }
        }
    }

    /// Steers the player by the held directions: pushes its velocity, then
    /// slows it down to the greatest speed.
    pub fn steer_player(&mut self, input: Input)
        requires
            old(self).wf(),
            old(self)@.entities.contains_key(EntityId(PLAYER_ID)),
        ensures
            final(self)@ == old(self)@.steer(EntityId(PLAYER_ID), input),
            final(self).wf(),
    {
        let player = self.get_entity(EntityId(PLAYER_ID)).unwrap();
        self.set_entity(EntityId(PLAYER_ID), steer(player, input));
    }

    /// One frame of the simulation: the player is steered by the held
    /// directions, then every entity makes its step.
    pub fn update(&mut self, input: Input)
        requires
            old(self).wf(),
            old(self)@.entities.contains_key(EntityId(PLAYER_ID)),
        ensures
            final(self)@ == old(self)@.update(input),
            final(self).wf(),
            forall|id: EntityId|
                old(self)@.stands_clear(id) ==> #[trigger] final(self)@.stands_clear(id),
    {
        self.steer_player(input);
        self.move_entities();
        proof {
            assert forall|id: EntityId| old(self)@.stands_clear(id) implies #[trigger] self@.stands_clear(
                id,
            ) by {
                lemma_update_stays_clear(old(self)@, input, id);
            }
        }
    }
}

fn partial_of(d: i64, i: i64) -> (part: i64)
    requires
        0 <= i < SUBSTEPS,
    ensures
        part == partial(d as int, i as int),
{
    assert((d >= 0 ==> 0 <= d * i <= 15 * d) && (d < 0 ==> 15 * d <= d * i <= 0))
        by (nonlinear_arith)
        requires
            0 <= i < 16,
    ;
    let product: i128 = d as i128 * i as i128;
    if product >= 0 {
        (product / 16) as i64
    } else {
        (-((-product) / 16)) as i64
    }
}

/// The movement resolver never moves an entity into a tile: in the state
/// after a step, every entity that was not blocked before is not blocked.
pub proof fn lemma_step_stays_clear(state: WorldState, id: EntityId)
    requires
        state.stands_clear(id),
    ensures
        state.step().stands_clear(id),
{
    lemma_moved_stays_clear(state, state.entities[id]);
}

/// A frame never takes an entity into a tile either: steering changes no
/// position, so every entity that was not blocked before the frame is not
/// blocked after it.
pub proof fn lemma_update_stays_clear(state: WorldState, input: Input, id: EntityId)
    requires
        state.stands_clear(id),
    ensures
        state.update(input).stands_clear(id),
{
    let steered = state.steer(EntityId(PLAYER_ID), input);
    lemma_step_stays_clear(steered, id);
}

/// A step never takes an entity into a tile: an entity that is not blocked
/// where it stands is not blocked where the step puts it, whatever its
/// velocity.
pub proof fn lemma_moved_stays_clear(state: WorldState, entity: Entity)
    requires
        !state.blocked(entity.x as int, entity.y as int),
    ensures
        state.target(entity) is Some,
        !state.blocked(state.moved(entity).x as int, state.moved(entity).y as int),
{
    lemma_target(state, entity);
    assert(sample(entity, 0) == (entity.x as int, entity.y as int));
    assert(!state.blocked_after(entity, 0));
}

/// A step moves an entity to a tried position at which it is not blocked,
/// or not at all; it changes neither its velocity nor its type.
pub proof fn lemma_moved(state: WorldState, entity: Entity)
    ensures
        state.moved(entity).dx == entity.dx,
        state.moved(entity).dy == entity.dy,
        state.moved(entity).entity_type == entity.entity_type,
        state.moved(entity) == entity || !state.blocked(
            state.moved(entity).x as int,
            state.moved(entity).y as int,
        ),
{
    lemma_target(state, entity);
}

/// Where a step leads: to a tried position at which the entity is not
/// blocked; nowhere only if it is blocked at all of them.
pub proof fn lemma_target(state: WorldState, entity: Entity)
    ensures
        match state.target(entity) {
            Some(position) => !state.blocked(position.0, position.1) && exists|i: int|
                0 <= i < SUBSTEPS && position == #[trigger] sample(entity, i),
            None => forall|j: int| 0 <= j < SUBSTEPS ==> state.blocked_after(entity, j),
        },
{
    lemma_last_clear_below(state, entity, SUBSTEPS as int);
    if exists|i: int| state.is_last_clear(entity, i) {
        let i = choose|i: int| state.is_last_clear(entity, i);
        assert(state.target(entity) == Some(sample(entity, i)));
    }
}

/// Only one of the tried parts is the last after which the entity is not
/// blocked.
pub proof fn lemma_last_clear_unique(state: WorldState, entity: Entity, i: int)
    requires
        state.is_last_clear(entity, i),
    ensures
        state.target(entity) == Some(sample(entity, i)),
{
    let chosen = choose|k: int| state.is_last_clear(entity, k);
    assert(state.is_last_clear(entity, chosen));
    if chosen < i {
        assert(state.blocked_after(entity, i));
    } else if i < chosen {
        assert(state.blocked_after(entity, chosen));
    }
}

proof fn lemma_last_clear_below(state: WorldState, entity: Entity, n: int)
    requires
        0 <= n <= SUBSTEPS,
        forall|j: int| n <= j < SUBSTEPS ==> state.blocked_after(entity, j),
    ensures
        (exists|i: int| state.is_last_clear(entity, i)) || (forall|j: int|
            0 <= j < SUBSTEPS ==> state.blocked_after(entity, j)),
    decreases n,
{
    if n > 0 {
        if state.blocked_after(entity, n - 1) {
            lemma_last_clear_below(state, entity, n - 1);
        } else {
            assert(state.is_last_clear(entity, n - 1));
        }
    }
}

/// Whether `movement` holds the id of an entity and the position that its
/// step takes it to.
spec fn is_movement(state: WorldState, movement: (EntityId, i64, i64)) -> bool {
    &&& state.entities.contains_key(movement.0)
    &&& state.target(state.entities[movement.0]) == Some((movement.1 as int, movement.2 as int))
}


/// Whether `movements` holds a movement of the entity with the id `id`.
spec fn is_moved(movements: Seq<(EntityId, i64, i64)>, id: EntityId) -> bool {
    exists|t: int| 0 <= t < movements.len() && (#[trigger] movements[t]).0 == id
}

proof fn lemma_moved_after_push(movements: Seq<(EntityId, i64, i64)>, movement: (EntityId, i64, i64))
    ensures
        is_moved(movements.push(movement), movement.0),
        forall|id: EntityId| is_moved(movements, id) ==> is_moved(movements.push(movement), id),
{
    assert(movements.push(movement)[movements.len() as int] == movement);
    assert forall|id: EntityId| is_moved(movements, id) implies is_moved(
        movements.push(movement),
        id,
    ) by {
        let t = choose|t: int| 0 <= t < movements.len() && (#[trigger] movements[t]).0 == id;
        assert(movements.push(movement)[t].0 == id);
    }
}

} // verus!
