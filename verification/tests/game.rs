use grid_world::ecs::{Direction, Entity, EntityGenerator, EntityID, EntityMap, EntityType, Point};
use grid_world::game::{
    apply, move_entity, saturating_step, spawn_player, GameAction, GameEvent, GameState,
};

fn empty_state() -> GameState {
    GameState {
        entity_gen: EntityGenerator::default(),
        entities: EntityMap::default(),
        world_name: "test".into(),
    }
}

fn position_of(state: &GameState, id: EntityID) -> Point {
    state.entities.get(&id).expect("entity exists").position
}

fn place(state: &mut GameState, id: EntityID, position: Point) {
    let mut entity = state.entities.get(&id).expect("entity exists").clone();
    entity.position = position;
    state.entities.insert(id, entity);
}

#[test]
fn spawn_player_creates_entity() {
    let mut state = empty_state();
    let id = spawn_player(&mut state, "Alice".into());

    assert!(state.entities.contains_key(&id));
    let entity = state.entities.get(&id).unwrap();
    assert_eq!(entity.name, Some("Alice".into()));
    assert_eq!(entity.entity_type, EntityType::Player);
    assert_eq!(entity.position, Point { x: 10, y: 10 });
}

#[test]
fn spawn_player_ids_are_unique() {
    let mut state = empty_state();
    let id1 = spawn_player(&mut state, "Alice".into());
    let id2 = spawn_player(&mut state, "Bob".into());
    assert_ne!(id1, id2);
}

#[test]
fn spawn_player_ids_count_up_from_one() {
    let mut state = empty_state();
    let id1 = spawn_player(&mut state, "Alice".into());
    let id2 = spawn_player(&mut state, "Bob".into());
    assert_eq!(id1, EntityID(1));
    assert_eq!(id2, EntityID(2));
    assert_eq!(state.entity_gen.current(), 2);
    assert_eq!(state.entities.len(), 2);
}

#[test]
fn move_entity_up() {
    let mut state = empty_state();
    let id = spawn_player(&mut state, "P".into());
    let start = position_of(&state, id);

    move_entity(&mut state, id, Direction::Up);
    assert_eq!(
        position_of(&state, id),
        Point {
            x: start.x,
            y: start.y - 1
        }
    );
}

#[test]
fn move_entity_down() {
    let mut state = empty_state();
    let id = spawn_player(&mut state, "P".into());
    let start = position_of(&state, id);

    move_entity(&mut state, id, Direction::Down);
    assert_eq!(
        position_of(&state, id),
        Point {
            x: start.x,
            y: start.y + 1
        }
    );
}

#[test]
fn move_entity_left() {
    let mut state = empty_state();
    let id = spawn_player(&mut state, "P".into());
    let start = position_of(&state, id);

    move_entity(&mut state, id, Direction::Left);
    assert_eq!(
        position_of(&state, id),
        Point {
            x: start.x - 1,
            y: start.y
        }
    );
}

#[test]
fn move_entity_right() {
    let mut state = empty_state();
    let id = spawn_player(&mut state, "P".into());
    let start = position_of(&state, id);

    move_entity(&mut state, id, Direction::Right);
    assert_eq!(
        position_of(&state, id),
        Point {
            x: start.x + 1,
            y: start.y
        }
    );
}

#[test]
fn move_nonexistent_entity_is_noop() {
    let mut state = empty_state();
    let before = state.clone();
    move_entity(&mut state, EntityID(999), Direction::Up);
    assert_eq!(state, before);
}

#[test]
fn move_allows_negative_coordinates() {
    let mut state = empty_state();
    let id = spawn_player(&mut state, "P".into());
    // Place entity at origin
    state.entities.get_mut(&id).expect("just spawned").position = Point { x: 0, y: 0 };

    move_entity(&mut state, id, Direction::Up);
    assert_eq!(position_of(&state, id), Point { x: 0, y: -1 });

    state.entities.get_mut(&id).expect("exists").position = Point { x: 0, y: 0 };
    move_entity(&mut state, id, Direction::Left);
    assert_eq!(position_of(&state, id), Point { x: -1, y: 0 });
}

#[test]
fn move_saturates_at_the_edges() {
    let mut state = empty_state();
    let id = spawn_player(&mut state, "P".into());

    place(&mut state, id, Point { x: i32::MAX, y: i32::MAX });
    move_entity(&mut state, id, Direction::Right);
    assert_eq!(position_of(&state, id), Point { x: i32::MAX, y: i32::MAX });
    move_entity(&mut state, id, Direction::Down);
    assert_eq!(position_of(&state, id), Point { x: i32::MAX, y: i32::MAX });

    place(&mut state, id, Point { x: i32::MIN, y: i32::MIN });
    move_entity(&mut state, id, Direction::Left);
    assert_eq!(position_of(&state, id), Point { x: i32::MIN, y: i32::MIN });
    move_entity(&mut state, id, Direction::Up);
    assert_eq!(position_of(&state, id), Point { x: i32::MIN, y: i32::MIN });
    move_entity(&mut state, id, Direction::Right);
    assert_eq!(position_of(&state, id), Point { x: i32::MIN + 1, y: i32::MIN });
}

#[test]
fn saturating_step_exact_values() {
    assert_eq!(saturating_step(5, 1), 6);
    assert_eq!(saturating_step(5, -1), 4);
    assert_eq!(saturating_step(i32::MAX, 1), i32::MAX);
    assert_eq!(saturating_step(i32::MIN, -1), i32::MIN);
    assert_eq!(saturating_step(i32::MAX, -1), i32::MAX - 1);
}

#[test]
fn move_keeps_name_and_type() {
    let mut state = empty_state();
    let id = spawn_player(&mut state, "Alice".into());
    move_entity(&mut state, id, Direction::Down);
    let entity = state.entities.get(&id).unwrap();
    assert_eq!(
        *entity,
        Entity {
            position: Point { x: 10, y: 11 },
            name: Some("Alice".into()),
            entity_type: EntityType::Player,
        }
    );
}

#[test]
fn apply_move_returns_entity_moved_event() {
    let mut state = empty_state();
    let id = spawn_player(&mut state, "P".into());
    let events = apply(&mut state, id, &GameAction::Move(Direction::Right));
    assert_eq!(events, vec![GameEvent::EntityMoved { entity_id: id }]);
}

#[test]
fn apply_spawn_player_returns_player_spawned_event() {
    let mut state = empty_state();
    let events = apply(
        &mut state,
        EntityID(0),
        &GameAction::SpawnPlayer("Bob".into()),
    );
    assert_eq!(events.len(), 1);
    match &events[0] {
        GameEvent::PlayerSpawned { entity_id } => {
            assert!(state.entities.contains_key(entity_id));
        }
        other => panic!("expected PlayerSpawned, got {other:?}"),
    }
}

#[test]
fn apply_save_world_returns_save_requested() {
    let mut state = empty_state();
    let events = apply(&mut state, EntityID(0), &GameAction::SaveWorld);
    assert_eq!(events, vec![GameEvent::SaveRequested]);
}

#[test]
fn apply_spawn_as_returns_spawn_as_requested() {
    let mut state = empty_state();
    let events = apply(&mut state, EntityID(0), &GameAction::SpawnAs(EntityID(42)));
    assert_eq!(
        events,
        vec![GameEvent::SpawnAsRequested {
            entity_id: EntityID(42)
        }]
    );
}

#[test]
fn apply_spawn_as_and_save_world_change_nothing() {
    let mut state = GameState::create_test_world("w".into());
    let before = state.clone();
    apply(&mut state, EntityID(1), &GameAction::SpawnAs(EntityID(42)));
    apply(&mut state, EntityID(1), &GameAction::SaveWorld);
    assert_eq!(state, before);
}

#[test]
fn identical_action_sequences_produce_identical_states() {
    let actions = vec![
        (EntityID(0), GameAction::SpawnPlayer("Alice".into())),
        (EntityID(1), GameAction::Move(Direction::Right)),
        (EntityID(1), GameAction::Move(Direction::Down)),
        (EntityID(0), GameAction::SpawnPlayer("Bob".into())),
        (EntityID(2), GameAction::Move(Direction::Left)),
    ];

    let mut state_a = empty_state();
    let mut state_b = empty_state();

    for (eid, action) in &actions {
        apply(&mut state_a, *eid, action);
        apply(&mut state_b, *eid, action);
    }

    assert_eq!(state_a, state_b);
    assert_eq!(position_of(&state_a, EntityID(1)), Point { x: 11, y: 11 });
    assert_eq!(position_of(&state_a, EntityID(2)), Point { x: 9, y: 10 });
}

#[test]
fn create_test_world_has_trees() {
    let state = GameState::create_test_world("w".into());
    let tree_count = state
        .entities
        .ids()
        .iter()
        .filter(|id| state.entities.get(id).unwrap().entity_type == EntityType::Tree)
        .count();
    assert_eq!(tree_count, 6);
}

#[test]
fn create_test_world_places_trees_in_order() {
    let state = GameState::create_test_world("w".into());
    let expected = [(5, 5), (15, 5), (5, 15), (15, 15), (10, 5), (10, 15)];
    assert_eq!(state.entities.len(), 6);
    assert_eq!(state.entity_gen.current(), 6);
    assert_eq!(state.world_name, "w");
    for (i, (x, y)) in expected.iter().enumerate() {
        let tree = state.entities.get(&EntityID(i as u32 + 1)).unwrap();
        assert_eq!(tree.position, Point { x: *x, y: *y });
        assert_eq!(tree.name, None);
        assert_eq!(tree.entity_type, EntityType::Tree);
    }
}

#[test]
fn get_playable_entities_returns_only_players() {
    let mut state = GameState::create_test_world("w".into());
    assert!(state.get_playable_entities().is_empty());

    let pid = spawn_player(&mut state, "Alice".into());
    let playable = state.get_playable_entities();
    assert_eq!(playable.len(), 1);
    assert!(playable.contains(&pid));
}

#[test]
fn tree_blocks_sight() {
    assert!(EntityType::Tree.blocks_sight());
}

#[test]
fn player_does_not_block_sight() {
    assert!(!EntityType::Player.blocks_sight());
}

#[test]
fn direction_deltas() {
    assert_eq!(Direction::Up.delta(), (0, -1));
    assert_eq!(Direction::Down.delta(), (0, 1));
    assert_eq!(Direction::Left.delta(), (-1, 0));
    assert_eq!(Direction::Right.delta(), (1, 0));
}

#[test]
fn generator_counts_up() {
    let mut generator = EntityGenerator::new();
    assert_eq!(generator.current(), 0);
    assert_eq!(generator.next(), EntityID(1));
    assert_eq!(generator.new_entity(), EntityID(2));
    assert_eq!(generator.current(), 2);
    assert!(!generator.is_exhausted());
    assert!(EntityGenerator::from_count(u32::MAX).is_exhausted());
    assert_eq!(EntityGenerator::from_count(41).next(), EntityID(42));
}

#[test]
fn entity_map_insert_get_and_ids() {
    let mut map = EntityMap::new();
    assert!(map.is_empty());
    let tree = Entity {
        position: Point { x: 1, y: 2 },
        name: None,
        entity_type: EntityType::Tree,
    };
    assert_eq!(map.insert(EntityID(7), tree.clone()), None);
    assert_eq!(map.insert(EntityID(7), tree.clone()), Some(tree.clone()));
    assert_eq!(map.len(), 1);
    assert_eq!(map.get(&EntityID(7)), Some(&tree));
    assert_eq!(map.get(&EntityID(8)), None);
    assert!(!map.contains_key(&EntityID(8)));
    assert_eq!(map.ids(), vec![EntityID(7)]);
    assert!(map.get_mut(&EntityID(8)).is_none());
    map.get_mut(&EntityID(7)).unwrap().name = Some("oak".into());
    assert_eq!(map.get(&EntityID(7)).unwrap().name, Some("oak".into()));
    assert_eq!(map.get(&EntityID(7)).unwrap().position, Point { x: 1, y: 2 });
    assert_eq!(map.len(), 1);
    assert_eq!(map.clone(), map);
}
