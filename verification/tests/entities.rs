use platformer::entity::{Entity, EntityId, EntityType};
use platformer::world::World;

fn parsed(text: &str) -> World {
    match World::from_string_tilemap(text) {
        Ok(world) => world,
        Err(error) => panic!("not a map: {:?}", error),
    }
}

fn entity_at(x: i64, y: i64) -> Entity {
    Entity { entity_type: EntityType::Player, x, y, dx: 0, dy: 0 }
}

#[test]
fn first_id_is_one() {
    let mut world = parsed("g");
    assert_eq!(world.spawn_entity(entity_at(0, 0)), EntityId(1));
    assert_eq!(world.last_entity_id(), EntityId(1));
}

#[test]
fn spawned_ids_are_distinct_and_increase() {
    let mut world = parsed("");
    let mut last = EntityId(0);
    for n in 1..=100usize {
        let id = world.spawn_entity(entity_at(n as i64, -(n as i64)));
        assert!(id > last);
        assert_eq!(id, EntityId(n));
        assert_eq!(world.last_entity_id(), id);
        last = id;
    }
    let mut ids = world.entity_ids();
    ids.sort();
    assert_eq!(ids.len(), 100);
    for n in 0..100usize {
        assert_eq!(ids[n], EntityId(n + 1));
    }
}

#[test]
fn spawn_stores_the_entity_under_its_id() {
    let mut world = parsed("gg");
    let first = Entity { entity_type: EntityType::Player, x: 1, y: 2, dx: 3, dy: 4 };
    let second = Entity { entity_type: EntityType::Player, x: -1, y: -2, dx: -3, dy: -4 };
    let a = world.spawn_entity(first);
    let b = world.spawn_entity(second);
    assert_ne!(a, b);
    assert_eq!(world.get_entity(a), Some(first));
    assert_eq!(world.get_entity(b), Some(second));
}

#[test]
fn spawn_leaves_the_tiles_alone() {
    let mut world = parsed("gd\n s");
    let before = {
        let mut tiles = world.tiles();
        tiles.sort_by_key(|tile| (tile.1, tile.0));
        tiles
    };
    world.spawn_entity(entity_at(0, 0));
    let mut after = world.tiles();
    after.sort_by_key(|tile| (tile.1, tile.0));
    assert_eq!(before, after);
}

#[test]
fn unknown_id_is_not_found() {
    let mut world = parsed("g");
    world.spawn_entity(entity_at(0, 0));
    assert_eq!(world.get_entity(EntityId(0)), None);
    assert_eq!(world.get_entity(EntityId(2)), None);
    assert_eq!(world.get_entity(EntityId(usize::MAX)), None);
}

#[test]
fn set_entity_replaces_an_entity() {
    let mut world = parsed("g");
    let id = world.spawn_entity(entity_at(0, 0));
    let other = world.spawn_entity(entity_at(5, 5));
    let changed = Entity { entity_type: EntityType::Player, x: 9, y: 8, dx: 7, dy: 6 };
    assert!(world.set_entity(id, changed));
    assert_eq!(world.get_entity(id), Some(changed));
    assert_eq!(world.get_entity(other), Some(entity_at(5, 5)));
    assert_eq!(world.last_entity_id(), other);
    assert_eq!(world.entity_ids().len(), 2);
}

#[test]
fn set_entity_adds_no_entity() {
    let mut world = parsed("g");
    world.spawn_entity(entity_at(0, 0));
    assert!(!world.set_entity(EntityId(0), entity_at(1, 1)));
    assert!(!world.set_entity(EntityId(7), entity_at(1, 1)));
    assert_eq!(world.get_entity(EntityId(0)), None);
    assert_eq!(world.get_entity(EntityId(7)), None);
    assert_eq!(world.entity_ids(), vec![EntityId(1)]);
    assert_eq!(world.last_entity_id(), EntityId(1));
    // The next id is still the one after the last.
    assert_eq!(world.spawn_entity(entity_at(2, 2)), EntityId(2));
}
