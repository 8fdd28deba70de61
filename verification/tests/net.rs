use grid_world::ecs::{Direction, Entity, EntityID, EntityType, Point};
use grid_world::fov::{PlayerFov, DEFAULT_FOV_RADIUS};
use grid_world::game::{spawn_player, GameAction, GameState};
use grid_world::net::{ConnectionId, Message, ServerMessage, ServerState};

fn tree(x: i32, y: i32) -> Entity {
    Entity {
        position: Point { x, y },
        name: None,
        entity_type: EntityType::Tree,
    }
}

fn position_of(server: &ServerState, id: EntityID) -> Point {
    server.game.entities.get(&id).expect("entity exists").position
}

#[test]
fn server_state_process_events_applies_moves() {
    let game = GameState::create_test_world("test".into());
    let mut server = ServerState::new(game);

    let pid = spawn_player(&mut server.game, "Alice".into());
    let start = position_of(&server, pid);

    server
        .event_queue
        .push((pid, GameAction::Move(Direction::Right)));
    server.process_events();

    assert_eq!(
        position_of(&server, pid),
        Point {
            x: start.x + 1,
            y: start.y
        }
    );
}

#[test]
fn entities_for_player_excludes_far_entities() {
    let game = GameState::create_test_world("test".into());
    let mut server = ServerState::new(game);

    let pid = spawn_player(&mut server.game, "Alice".into());
    server.init_player_fov(pid);

    // Place a distant entity far outside FOV + margin.
    let far_id = server.game.entity_gen.next();
    server.game.entities.insert(far_id, tree(500, 500));

    let filtered = server.entities_for_player(pid);
    assert!(
        !filtered.contains_key(&far_id),
        "distant entity should not be in FOV-scoped update"
    );
    assert!(
        filtered.contains_key(&pid),
        "player should see themselves"
    );
}

#[test]
fn new_server_is_empty() {
    let server = ServerState::new(GameState::create_test_world("w".into()));
    assert_eq!(server.game, GameState::create_test_world("w".into()));
    assert_eq!(server.endpoints.len(), 0);
    assert_eq!(server.unique_server_messages.len(), 0);
    assert!(server.event_queue.is_empty());
    assert_eq!(server.player_fovs.len(), 0);
}

#[test]
fn entities_for_player_without_record_sends_the_world() {
    let mut server = ServerState::new(GameState::create_test_world("w".into()));
    let pid = spawn_player(&mut server.game, "Alice".into());
    let far_id = server.game.entity_gen.next();
    server.game.entities.insert(far_id, tree(500, 500));
    assert_eq!(server.entities_for_player(pid), server.game.entities);
}

#[test]
fn entities_for_player_with_record_but_no_entity_sends_nothing() {
    let mut server = ServerState::new(GameState::create_test_world("w".into()));
    server.player_fovs.insert(99, PlayerFov::new(DEFAULT_FOV_RADIUS));
    assert!(server.entities_for_player(EntityID(99)).is_empty());
}

#[test]
fn margin_box_ignores_occluders_and_ends_at_radius_plus_margin() {
    let mut server = ServerState::new(GameState::create_test_world("w".into()));
    let pid = spawn_player(&mut server.game, "Alice".into());
    // Hidden behind the tree at (10, 5), but inside the box.
    let hidden = server.game.entity_gen.next();
    server.game.entities.insert(hidden, tree(10, 0));
    // Beyond sight (radius 20), inside the margin (25 from the player).
    let edge = server.game.entity_gen.next();
    server.game.entities.insert(edge, tree(35, -15));
    // One step beyond the margin.
    let beyond = server.game.entity_gen.next();
    server.game.entities.insert(beyond, tree(36, 10));
    server.init_player_fov(pid);

    let fov = server.player_fovs.get(pid.0).unwrap();
    assert!(!fov.current_fov.contains(&(10, 0)));
    let sent = server.entities_for_player(pid);
    assert!(sent.contains_key(&hidden));
    assert!(sent.contains_key(&edge));
    assert!(!sent.contains_key(&beyond));
    assert_eq!(sent.get(&edge), Some(&tree(35, -15)));
    assert_eq!(sent.len(), 9);
}

#[test]
fn seen_cell_outside_the_margin_box_is_sent() {
    let mut server = ServerState::new(GameState::create_test_world("w".into()));
    let pid = spawn_player(&mut server.game, "Alice".into());
    server.init_player_fov(pid);
    // The record says that (100, 100) is seen; the box does not reach it.
    let mut fov = PlayerFov::new(DEFAULT_FOV_RADIUS);
    fov.current_fov.insert((100, 100));
    server.player_fovs.insert(pid.0, fov);
    let seen = server.game.entity_gen.next();
    server.game.entities.insert(seen, tree(100, 100));
    let unseen = server.game.entity_gen.next();
    server.game.entities.insert(unseen, tree(100, 101));
    let sent = server.entities_for_player(pid);
    assert!(sent.contains_key(&seen));
    assert!(!sent.contains_key(&unseen));
}

#[test]
fn spawn_player_binds_connection_and_queues_notice() {
    let mut server = ServerState::new(GameState::create_test_world("w".into()));
    let conn = ConnectionId(3);
    server.receive_action(conn, GameAction::SpawnPlayer("Alice".into()));

    let pid = EntityID(7);
    assert_eq!(server.endpoints.get(conn.0), Some(&pid));
    assert_eq!(
        server.game.entities.get(&pid),
        Some(&Entity {
            position: Point { x: 10, y: 10 },
            name: Some("Alice".into()),
            entity_type: EntityType::Player,
        })
    );
    assert_eq!(
        server.unique_server_messages.get(conn.0),
        Some(&vec![ServerMessage::PlayerID(pid)])
    );
    let fov = server.player_fovs.get(pid.0).expect("record exists");
    assert_eq!(fov.fov_radius, DEFAULT_FOV_RADIUS);
    assert!(fov.current_fov.contains(&(10, 10)));
    assert!(server.event_queue.is_empty());
}

#[test]
fn spawn_as_binds_without_looking_the_entity_up() {
    let mut server = ServerState::new(GameState::create_test_world("w".into()));
    let before = server.game.clone();
    server.receive_action(ConnectionId(1), GameAction::SpawnAs(EntityID(2)));
    server.receive_action(ConnectionId(2), GameAction::SpawnAs(EntityID(404)));

    assert_eq!(server.game, before);
    assert_eq!(server.endpoints.get(1), Some(&EntityID(2)));
    assert_eq!(server.endpoints.get(2), Some(&EntityID(404)));
    assert!(server.player_fovs.contains_key(2));
    assert!(!server.player_fovs.contains_key(404));
    assert_eq!(
        server.unique_server_messages.get(2),
        Some(&vec![ServerMessage::PlayerID(EntityID(404))])
    );
}

#[test]
fn actions_of_unbound_connections_are_dropped() {
    let mut server = ServerState::new(GameState::create_test_world("w".into()));
    server.receive_action(ConnectionId(1), GameAction::Move(Direction::Up));
    server.receive_action(ConnectionId(1), GameAction::SaveWorld);
    assert!(server.event_queue.is_empty());
    assert_eq!(server.endpoints.len(), 0);
}

#[test]
fn actions_of_bound_connections_are_queued_under_their_entity() {
    let mut server = ServerState::new(GameState::create_test_world("w".into()));
    server.receive_action(ConnectionId(1), GameAction::SpawnPlayer("Alice".into()));
    server.receive_action(ConnectionId(1), GameAction::Move(Direction::Up));
    server.receive_action(ConnectionId(1), GameAction::SaveWorld);
    assert_eq!(
        server.event_queue,
        vec![
            (EntityID(7), GameAction::Move(Direction::Up)),
            (EntityID(7), GameAction::SaveWorld),
        ]
    );
    // Nothing moves before the tick.
    assert_eq!(position_of(&server, EntityID(7)), Point { x: 10, y: 10 });
}

#[test]
fn spawn_is_dropped_when_no_identifier_is_left() {
    let mut game = GameState::create_test_world("w".into());
    game.entity_gen = grid_world::ecs::EntityGenerator::from_count(u32::MAX);
    let mut server = ServerState::new(game);
    let before = server.game.clone();
    server.receive_action(ConnectionId(1), GameAction::SpawnPlayer("Alice".into()));
    assert_eq!(server.game, before);
    assert_eq!(server.endpoints.len(), 0);
    assert_eq!(server.unique_server_messages.len(), 0);
}

#[test]
fn process_events_returns_the_world_at_each_save() {
    let mut server = ServerState::new(GameState::create_test_world("w".into()));
    server.receive_action(ConnectionId(1), GameAction::SpawnPlayer("Alice".into()));
    let pid = EntityID(7);
    server.event_queue.push((pid, GameAction::Move(Direction::Right)));
    server.event_queue.push((pid, GameAction::SaveWorld));
    server.event_queue.push((pid, GameAction::Move(Direction::Right)));
    server.event_queue.push((pid, GameAction::SpawnPlayer("ignored".into())));
    server.event_queue.push((pid, GameAction::SpawnAs(EntityID(1))));
    server.event_queue.push((pid, GameAction::SaveWorld));
    server.event_queue.push((pid, GameAction::Move(Direction::Down)));

    let saves = server.process_events();
    assert!(server.event_queue.is_empty());
    assert_eq!(saves.len(), 2);
    assert_eq!(saves[0].entities.get(&pid).unwrap().position, Point { x: 11, y: 10 });
    assert_eq!(saves[1].entities.get(&pid).unwrap().position, Point { x: 12, y: 10 });
    assert_eq!(position_of(&server, pid), Point { x: 12, y: 11 });
    assert_eq!(server.game.entities.len(), 7);
    assert_eq!(server.game.entity_gen.current(), 7);
}

#[test]
fn process_events_recomputes_the_record_of_those_that_moved() {
    let mut server = ServerState::new(GameState::create_test_world("w".into()));
    server.receive_action(ConnectionId(1), GameAction::SpawnPlayer("Alice".into()));
    server.receive_action(ConnectionId(2), GameAction::SpawnPlayer("Bob".into()));
    let alice = EntityID(7);
    let bob = EntityID(8);
    server.player_fovs.insert(alice.0, PlayerFov::new(2));
    let bob_before = server.player_fovs.get(bob.0).unwrap().current_fov.contains(&(10, 10));
    assert!(bob_before);

    for _ in 0..3 {
        server.receive_action(ConnectionId(1), GameAction::Move(Direction::Right));
    }
    server.process_events();

    assert_eq!(position_of(&server, alice), Point { x: 13, y: 10 });
    let fov = server.player_fovs.get(alice.0).unwrap();
    assert_eq!(fov.fov_radius, 2, "the radius of the record is kept");
    assert!(fov.current_fov.contains(&(13, 10)));
    assert!(fov.current_fov.contains(&(15, 12)));
    assert!(!fov.current_fov.contains(&(10, 10)));
    assert!(!fov.current_fov.contains(&(16, 10)));
}

#[test]
fn process_events_gives_a_mover_without_record_the_default_radius() {
    let mut server = ServerState::new(GameState::create_test_world("w".into()));
    let pid = spawn_player(&mut server.game, "Alice".into());
    server.event_queue.push((pid, GameAction::Move(Direction::Left)));
    server.event_queue.push((EntityID(404), GameAction::Move(Direction::Left)));
    server.process_events();
    let fov = server.player_fovs.get(pid.0).expect("record was made");
    assert_eq!(fov.fov_radius, DEFAULT_FOV_RADIUS);
    assert!(fov.current_fov.contains(&(9, 10)));
    assert!(!server.player_fovs.contains_key(404));
    assert_eq!(server.player_fovs.len(), 1);
}

#[test]
fn tick_of_unbound_connection_sends_the_whole_world() {
    let mut server = ServerState::new(GameState::create_test_world("w".into()));
    let far = server.game.entity_gen.next();
    server.game.entities.insert(far, tree(500, 500));
    let out = server.tick(ConnectionId(9));
    assert!(out.saves.is_empty());
    assert_eq!(
        out.responses,
        vec![Message::Server(ServerMessage::EntityMap(server.game.entities.clone()))]
    );
}

#[test]
fn tick_sends_one_offs_newest_first_then_the_snapshot() {
    let mut server = ServerState::new(GameState::create_test_world("w".into()));
    let conn = ConnectionId(1);
    server.receive_action(conn, GameAction::SpawnPlayer("Alice".into()));
    server.receive_action(conn, GameAction::SpawnAs(EntityID(3)));
    server.receive_action(ConnectionId(2), GameAction::SpawnPlayer("Bob".into()));
    let far = server.game.entity_gen.next();
    server.game.entities.insert(far, tree(500, 500));

    let out = server.tick(conn);
    assert_eq!(out.responses.len(), 3);
    assert_eq!(out.responses[0], Message::Server(ServerMessage::PlayerID(EntityID(3))));
    assert_eq!(out.responses[1], Message::Server(ServerMessage::PlayerID(EntityID(7))));
    match &out.responses[2] {
        Message::Server(ServerMessage::EntityMap(sent)) => {
            assert_eq!(*sent, server.entities_for_player(EntityID(3)));
            assert!(!sent.contains_key(&far));
            assert!(sent.contains_key(&EntityID(3)));
        }
        other => panic!("expected a snapshot, got {other:?}"),
    }
    // The one-offs of this connection are gone, those of the other wait.
    assert_eq!(server.unique_server_messages.get(conn.0), Some(&vec![]));
    assert_eq!(
        server.unique_server_messages.get(2),
        Some(&vec![ServerMessage::PlayerID(EntityID(8))])
    );
    let again = server.tick(conn);
    assert_eq!(again.responses.len(), 1);
}

#[test]
fn tick_drains_the_actions_of_all_connections() {
    let mut server = ServerState::new(GameState::create_test_world("w".into()));
    server.receive_action(ConnectionId(1), GameAction::SpawnPlayer("Alice".into()));
    server.receive_action(ConnectionId(2), GameAction::SpawnPlayer("Bob".into()));
    server.receive_action(ConnectionId(1), GameAction::Move(Direction::Up));
    server.receive_action(ConnectionId(2), GameAction::Move(Direction::Down));
    server.receive_action(ConnectionId(2), GameAction::SaveWorld);

    let out = server.tick(ConnectionId(1));
    assert!(server.event_queue.is_empty());
    assert_eq!(position_of(&server, EntityID(7)), Point { x: 10, y: 9 });
    assert_eq!(position_of(&server, EntityID(8)), Point { x: 10, y: 11 });
    assert_eq!(out.saves.len(), 1);
    assert_eq!(out.saves[0], server.game);
}

#[test]
fn reordered_moves_of_one_player_end_in_the_same_place() {
    let mut a = ServerState::new(GameState::create_test_world("w".into()));
    let mut b = ServerState::new(GameState::create_test_world("w".into()));
    for server in [&mut a, &mut b] {
        server.receive_action(ConnectionId(1), GameAction::SpawnPlayer("Alice".into()));
    }
    let moves = [Direction::Up, Direction::Left, Direction::Up, Direction::Right];
    for d in moves.iter() {
        a.receive_action(ConnectionId(1), GameAction::Move(*d));
    }
    for d in moves.iter().rev() {
        b.receive_action(ConnectionId(1), GameAction::Move(*d));
    }
    a.tick(ConnectionId(1));
    b.tick(ConnectionId(1));
    assert_eq!(a.game, b.game);
    assert_eq!(position_of(&a, EntityID(7)), Point { x: 10, y: 8 });
}
