use grid_world::ecs::{Direction, Entity, EntityGenerator, EntityID, EntityMap, EntityType, Point};
use grid_world::format::{WireError, MAX_MESSAGE_SIZE};
use grid_world::game::{spawn_player, GameAction, GameState};
use grid_world::net::{Message, ServerMessage};
use grid_world::wire::{decode_message, decode_world, encode_message, encode_world};

fn sample_entities() -> EntityMap {
    let mut map = EntityMap::new();
    map.insert(
        EntityID(300),
        Entity {
            position: Point { x: -1, y: i32::MAX },
            name: Some("Zoë".into()),
            entity_type: EntityType::Player,
        },
    );
    map.insert(
        EntityID(2),
        Entity {
            position: Point { x: 5, y: 5 },
            name: None,
            entity_type: EntityType::Tree,
        },
    );
    map.insert(
        EntityID(7),
        Entity {
            position: Point { x: i32::MIN, y: 0 },
            name: Some(String::new()),
            entity_type: EntityType::Player,
        },
    );
    map
}

fn all_messages() -> Vec<Message> {
    vec![
        Message::Client(GameAction::Move(Direction::Up)),
        Message::Client(GameAction::Move(Direction::Down)),
        Message::Client(GameAction::Move(Direction::Left)),
        Message::Client(GameAction::Move(Direction::Right)),
        Message::Client(GameAction::SpawnPlayer("Alice".into())),
        Message::Client(GameAction::SpawnPlayer(String::new())),
        Message::Client(GameAction::SpawnPlayer("木 and ünïcödé 🙂".into())),
        Message::Client(GameAction::SpawnAs(EntityID(0))),
        Message::Client(GameAction::SpawnAs(EntityID(u32::MAX))),
        Message::Client(GameAction::SaveWorld),
        Message::Server(ServerMessage::PlayerID(EntityID(42))),
        Message::Server(ServerMessage::EntityMap(EntityMap::new())),
        Message::Server(ServerMessage::EntityMap(sample_entities())),
    ]
}

#[test]
fn protocol_message_encodes_and_decodes() {
    let message = Message::Server(ServerMessage::PlayerID(EntityID(42)));
    let bytes = encode_message(&message);
    let decoded: Message = decode_message(&bytes).expect("decode should succeed");

    match decoded {
        Message::Server(ServerMessage::PlayerID(id)) => assert_eq!(id, EntityID(42)),
        other => panic!("unexpected variant: {other:?}"),
    }
}

#[test]
fn every_message_variant_round_trips() {
    for msg in all_messages() {
        let bytes = encode_message(&msg);
        let decoded = decode_message(&bytes).expect("decode should succeed");
        assert_eq!(decoded, msg);
        assert_eq!(encode_message(&decoded), bytes);
    }
}

#[test]
fn messages_have_their_exact_bytes() {
    assert_eq!(
        encode_message(&Message::Server(ServerMessage::PlayerID(EntityID(42)))),
        vec![1, 1, 42, 0, 0, 0]
    );
    assert_eq!(
        encode_message(&Message::Client(GameAction::Move(Direction::Left))),
        vec![0, 0, 2]
    );
    assert_eq!(encode_message(&Message::Client(GameAction::SaveWorld)), vec![0, 3]);
    assert_eq!(
        encode_message(&Message::Client(GameAction::SpawnAs(EntityID(0x0102_0304)))),
        vec![0, 2, 4, 3, 2, 1]
    );
    assert_eq!(
        encode_message(&Message::Client(GameAction::SpawnPlayer("Zoë".into()))),
        vec![0, 1, 4, 0, 0, 0, 0, 0, 0, 0, b'Z', b'o', 0xc3, 0xab]
    );
    assert_eq!(
        encode_message(&Message::Client(GameAction::SpawnPlayer(String::new()))),
        vec![0, 1, 0, 0, 0, 0, 0, 0, 0, 0]
    );
    assert_eq!(
        encode_message(&Message::Server(ServerMessage::EntityMap(EntityMap::new()))),
        vec![1, 0, 0, 0, 0, 0, 0, 0, 0, 0]
    );
}

#[test]
fn entities_are_written_in_ascending_order_of_their_identifiers() {
    let mut map = EntityMap::new();
    for id in [9u32, 1, 5] {
        map.insert(
            EntityID(id),
            Entity {
                position: Point { x: id as i32, y: -1 },
                name: None,
                entity_type: EntityType::Tree,
            },
        );
    }
    let bytes = encode_message(&Message::Server(ServerMessage::EntityMap(map)));
    let mut expected = vec![1, 0, 3, 0, 0, 0, 0, 0, 0, 0];
    for id in [1u8, 5, 9] {
        expected.extend_from_slice(&[id, 0, 0, 0]);
        expected.extend_from_slice(&[id, 0, 0, 0]);
        expected.extend_from_slice(&[0xff, 0xff, 0xff, 0xff]);
        expected.push(0);
        expected.push(1);
    }
    assert_eq!(bytes, expected);
}

#[test]
fn many_entities_round_trip_whatever_order_they_came_in() {
    let mut map = EntityMap::new();
    for id in (1..=2000u32).rev() {
        map.insert(
            EntityID(id.wrapping_mul(2_654_435_761)),
            Entity {
                position: Point { x: id as i32, y: -(id as i32) },
                name: if id % 3 == 0 { Some(format!("e{id}")) } else { None },
                entity_type: if id % 2 == 0 { EntityType::Tree } else { EntityType::Player },
            },
        );
    }
    assert_eq!(map.len(), 2000);
    let msg = Message::Server(ServerMessage::EntityMap(map));
    let bytes = encode_message(&msg);
    assert_eq!(decode_message(&bytes), Ok(msg));
}

#[test]
fn decode_message_names_each_fault() {
    assert_eq!(decode_message(&[]), Err(WireError::UnexpectedEnd));
    assert_eq!(decode_message(&[2]), Err(WireError::BadTag));
    assert_eq!(decode_message(&[0, 4]), Err(WireError::BadTag));
    assert_eq!(decode_message(&[0, 0, 4]), Err(WireError::BadTag));
    assert_eq!(decode_message(&[1, 2]), Err(WireError::BadTag));
    assert_eq!(decode_message(&[1, 1, 42, 0, 0]), Err(WireError::UnexpectedEnd));
    assert_eq!(decode_message(&[1, 1, 42, 0, 0, 0, 0]), Err(WireError::TrailingBytes));
    assert_eq!(decode_message(&[0, 3, 0]), Err(WireError::TrailingBytes));
    // A string that claims more bytes than are there.
    assert_eq!(
        decode_message(&[0, 1, 5, 0, 0, 0, 0, 0, 0, 0, b'a']),
        Err(WireError::UnexpectedEnd)
    );
    assert_eq!(
        decode_message(&[0, 1, 0xff, 0xff, 0xff, 0xff, 0xff, 0xff, 0xff, 0xff]),
        Err(WireError::UnexpectedEnd)
    );
    assert_eq!(
        decode_message(&[0, 1, 2, 0, 0, 0, 0, 0, 0, 0, 0xc3, 0x28]),
        Err(WireError::BadUtf8)
    );
    // A count of entities that the bytes do not hold.
    assert_eq!(
        decode_message(&[1, 0, 0xff, 0xff, 0xff, 0xff, 0xff, 0xff, 0xff, 0xff]),
        Err(WireError::UnexpectedEnd)
    );
}

#[test]
fn decode_message_refuses_unordered_and_repeated_identifiers() {
    let entry = |id: u8| vec![id, 0, 0, 0, 0, 0, 0, 0, 0, 0, 0, 0, 0, 1];
    let with = |ids: &[u8]| {
        let mut bytes = vec![1, 0, ids.len() as u8, 0, 0, 0, 0, 0, 0, 0];
        for id in ids {
            bytes.extend(entry(*id));
        }
        bytes
    };
    assert!(decode_message(&with(&[1, 2, 3])).is_ok());
    assert_eq!(decode_message(&with(&[2, 1])), Err(WireError::UnorderedIds));
    assert_eq!(decode_message(&with(&[1, 1])), Err(WireError::UnorderedIds));
    assert_eq!(decode_message(&with(&[1, 3, 2])), Err(WireError::UnorderedIds));
    // A bad entity type inside an entry.
    let mut bad = with(&[1]);
    let last = bad.len() - 1;
    bad[last] = 2;
    assert_eq!(decode_message(&bad), Err(WireError::BadTag));
    // A bad name tag inside an entry.
    let mut bad = with(&[1]);
    bad[last - 1] = 2;
    assert_eq!(decode_message(&bad), Err(WireError::BadTag));
}

#[test]
fn payload_ceiling_is_ten_mebibytes() {
    assert_eq!(MAX_MESSAGE_SIZE, 10 * 1024 * 1024);
    let name = "a".repeat(MAX_MESSAGE_SIZE - 10);
    let at_ceiling = encode_message(&Message::Client(GameAction::SpawnPlayer(name.clone())));
    assert_eq!(at_ceiling.len(), MAX_MESSAGE_SIZE);
    assert_eq!(
        decode_message(&at_ceiling),
        Ok(Message::Client(GameAction::SpawnPlayer(name)))
    );
    let too_long = vec![0u8; MAX_MESSAGE_SIZE + 1];
    assert_eq!(decode_message(&too_long), Err(WireError::TooLarge));
    let name = "a".repeat(MAX_MESSAGE_SIZE - 9);
    let over = encode_message(&Message::Client(GameAction::SpawnPlayer(name)));
    assert_eq!(decode_message(&over), Err(WireError::TooLarge));
}

#[test]
fn saved_world_loads_as_the_same_world() {
    let mut world = GameState::create_test_world("my world".into());
    spawn_player(&mut world, "Alice".into());
    spawn_player(&mut world, String::new());
    let bytes = encode_world(&world);
    let loaded = decode_world(&bytes).expect("a saved world loads");
    assert_eq!(loaded, world);
    assert_eq!(loaded.entity_gen.current(), 8);
    assert_eq!(loaded.world_name, "my world");
    assert_eq!(loaded.entities.len(), 8);
    assert_eq!(encode_world(&loaded), bytes);
    // The next identifier after loading is the one after the last before saving.
    let mut loaded = loaded;
    assert_eq!(spawn_player(&mut loaded, "Bob".into()), EntityID(9));
}

#[test]
fn empty_world_has_its_exact_bytes() {
    let world = GameState {
        entity_gen: EntityGenerator::from_count(258),
        entities: EntityMap::new(),
        world_name: "w".into(),
    };
    let bytes = encode_world(&world);
    assert_eq!(
        bytes,
        vec![2, 1, 0, 0, 0, 0, 0, 0, 0, 0, 0, 0, 1, 0, 0, 0, 0, 0, 0, 0, b'w']
    );
    assert_eq!(decode_world(&bytes), Ok(world));
}

#[test]
fn decode_world_names_each_fault() {
    assert_eq!(decode_world(&[]), Err(WireError::UnexpectedEnd));
    assert_eq!(decode_world(&[1, 0, 0, 0]), Err(WireError::UnexpectedEnd));
    let good = encode_world(&GameState::create_test_world("w".into()));
    assert!(decode_world(&good).is_ok());
    assert_eq!(decode_world(&good[..good.len() - 1]), Err(WireError::UnexpectedEnd));
    let mut longer = good.clone();
    longer.push(0);
    assert_eq!(decode_world(&longer), Err(WireError::TrailingBytes));
    let mut bad_name = good.clone();
    let last = bad_name.len() - 1;
    bad_name[last] = 0xff;
    assert_eq!(decode_world(&bad_name), Err(WireError::BadUtf8));
    // A world file may be longer than a message.
    let world = GameState {
        entity_gen: EntityGenerator::new(),
        entities: EntityMap::new(),
        world_name: "n".repeat(MAX_MESSAGE_SIZE + 1),
    };
    assert_eq!(decode_world(&encode_world(&world)), Ok(world));
}
