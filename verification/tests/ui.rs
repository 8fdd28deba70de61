use grid_world::ecs::{Entity, EntityID, EntityMap, EntityType, Point};
use grid_world::game::{spawn_player, GameState};
use grid_world::ui::{build_spatial_index, glyph_kind_at, GlyphKind};

#[test]
fn index_finds_each_entity_on_its_cell() {
    let mut state = GameState::create_test_world("w".into());
    let pid = spawn_player(&mut state, "Alice".into());
    let index = build_spatial_index(&state.entities);
    assert_eq!(index.entity_at(&Point { x: 10, y: 10 }), Some(pid));
    assert_eq!(index.entity_at(&Point { x: 5, y: 5 }), Some(EntityID(1)));
    assert_eq!(index.entity_at(&Point { x: 10, y: 15 }), Some(EntityID(6)));
    assert_eq!(index.entity_at(&Point { x: 0, y: 0 }), None);
    assert_eq!(index.entity_at(&Point { x: 5, y: 10 }), None);
}

#[test]
fn glyph_kinds_follow_what_stands_on_the_cell() {
    let mut state = GameState::create_test_world("w".into());
    spawn_player(&mut state, "Alice".into());
    let index = build_spatial_index(&state.entities);
    let kind = |x, y| glyph_kind_at(&index, &state.entities, &Point { x, y });
    assert_eq!(kind(10, 10), GlyphKind::Player);
    assert_eq!(kind(15, 5), GlyphKind::Tree);
    assert_eq!(kind(11, 10), GlyphKind::Floor);
    assert_eq!(kind(i32::MIN, i32::MAX), GlyphKind::Floor);
}

#[test]
fn shared_cell_shows_one_of_those_that_stand_there() {
    let mut entities = EntityMap::new();
    for id in 1..=2 {
        entities.insert(
            EntityID(id),
            Entity {
                position: Point { x: 3, y: 3 },
                name: None,
                entity_type: EntityType::Tree,
            },
        );
    }
    let index = build_spatial_index(&entities);
    let found = index.entity_at(&Point { x: 3, y: 3 }).expect("the cell is taken");
    assert!(found == EntityID(1) || found == EntityID(2));
    assert_eq!(glyph_kind_at(&index, &entities, &Point { x: 3, y: 3 }), GlyphKind::Tree);
}

#[test]
fn stale_index_shows_the_floor_for_an_entity_that_is_gone() {
    let state = GameState::create_test_world("w".into());
    let index = build_spatial_index(&state.entities);
    let empty = EntityMap::new();
    assert_eq!(glyph_kind_at(&index, &empty, &Point { x: 5, y: 5 }), GlyphKind::Floor);
}
