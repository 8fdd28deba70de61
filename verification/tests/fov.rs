use grid_world::ecs::{Entity, EntityID, EntityMap, EntityType, Point};
use grid_world::fov::{collect_occluders, PlayerFov, DEFAULT_FOV_RADIUS, FOV_NETWORK_MARGIN};
use grid_world::game::{spawn_player, GameState};

fn tree(x: i32, y: i32) -> Entity {
    Entity {
        position: Point { x, y },
        name: None,
        entity_type: EntityType::Tree,
    }
}

fn world_with_trees(cells: &[(i32, i32)]) -> EntityMap {
    let mut map = EntityMap::new();
    for (i, (x, y)) in cells.iter().enumerate() {
        map.insert(EntityID(i as u32 + 1), tree(*x, *y));
    }
    map
}

fn seen_from(origin: (i32, i32), radius: i32, entities: &EntityMap) -> PlayerFov {
    let mut fov = PlayerFov::new(radius);
    fov.recompute(Point { x: origin.0, y: origin.1 }, entities);
    fov
}

#[test]
fn constants_have_their_values() {
    assert_eq!(DEFAULT_FOV_RADIUS, 20);
    assert_eq!(FOV_NETWORK_MARGIN, 5);
}

#[test]
fn new_record_has_seen_nothing() {
    let fov = PlayerFov::new(7);
    assert_eq!(fov.fov_radius, 7);
    assert!(!fov.current_fov.contains(&(0, 0)));
}

#[test]
fn tree_and_origin_are_visible_from_spawn() {
    let mut state = GameState {
        entity_gen: Default::default(),
        entities: world_with_trees(&[]),
        world_name: "w".into(),
    };
    let tree_id = state.entity_gen.next();
    state.entities.insert(tree_id, tree(5, 5));
    let player = spawn_player(&mut state, "Alice".into());
    let origin = state.entities.get(&player).unwrap().position;
    assert_eq!(origin, Point { x: 10, y: 10 });

    let mut fov = PlayerFov::new(20);
    fov.recompute(origin, &state.entities);
    assert!(fov.current_fov.contains(&(5, 5)));
    assert!(fov.current_fov.contains(&(10, 10)));
}

#[test]
fn near_tree_hides_far_tree_on_the_same_line() {
    let entities = world_with_trees(&[(2, 0), (4, 0)]);
    let fov = seen_from((0, 0), 10, &entities);
    assert!(fov.current_fov.contains(&(2, 0)), "the near tree is seen");
    assert!(!fov.current_fov.contains(&(4, 0)), "the far tree is hidden");
    assert!(!fov.current_fov.contains(&(3, 0)));
    assert!(fov.current_fov.contains(&(1, 0)));
    // Other cells four steps away stay visible.
    assert!(fov.current_fov.contains(&(4, 1)));
    assert!(fov.current_fov.contains(&(4, -1)));
    assert!(fov.current_fov.contains(&(0, 4)));
    assert!(fov.current_fov.contains(&(-4, 0)));
    assert!(fov.current_fov.contains(&(4, 4)));
}

#[test]
fn diagonal_tree_hides_the_diagonal_behind_it() {
    let entities = world_with_trees(&[(1, 1)]);
    let fov = seen_from((0, 0), 5, &entities);
    assert!(fov.current_fov.contains(&(1, 1)));
    assert!(!fov.current_fov.contains(&(2, 2)));
    assert!(!fov.current_fov.contains(&(5, 5)));
    assert!(fov.current_fov.contains(&(2, 0)));
    assert!(fov.current_fov.contains(&(0, 2)));
    assert!(fov.current_fov.contains(&(-2, -2)));
}

#[test]
fn rays_round_halves_away_from_zero() {
    // With sight of 2, the ray towards (2, 1) passes (1, 1) and the ray
    // towards (2, -1) passes (1, -1).
    let entities = world_with_trees(&[(1, 1)]);
    let fov = seen_from((0, 0), 2, &entities);
    assert!(fov.current_fov.contains(&(1, 1)));
    assert!(!fov.current_fov.contains(&(2, 1)));
    assert!(!fov.current_fov.contains(&(1, 2)));
    assert!(!fov.current_fov.contains(&(2, 2)));
    assert!(fov.current_fov.contains(&(2, -1)));
    assert!(fov.current_fov.contains(&(2, 0)));
    let mirrored = world_with_trees(&[(1, -1)]);
    let fov = seen_from((0, 0), 2, &mirrored);
    assert!(fov.current_fov.contains(&(2, 1)));
    assert!(!fov.current_fov.contains(&(2, -1)));
}

#[test]
fn a_cell_is_seen_if_any_ray_lights_it() {
    // With sight of 3, the ray towards (3, 1) passes (1, 0) and lights
    // (2, 1), though the ray towards (3, 2) stops at the tree on (1, 1).
    let entities = world_with_trees(&[(1, 1)]);
    let fov = seen_from((0, 0), 3, &entities);
    assert!(fov.current_fov.contains(&(2, 1)));
    assert!(fov.current_fov.contains(&(3, 1)));
    assert!(!fov.current_fov.contains(&(2, 2)));
    assert!(!fov.current_fov.contains(&(3, 3)));
    assert!(!fov.current_fov.contains(&(3, 2)));
}

#[test]
fn open_ground_is_seen_up_to_the_radius() {
    let entities = world_with_trees(&[]);
    for radius in [1, 2, 3, 7, 20, 33] {
        let fov = seen_from((-4, 9), radius, &entities);
        for x in -40..=40 {
            for y in -40..=40 {
                let inside = (x + 4i32).abs() <= radius && (y - 9i32).abs() <= radius;
                assert_eq!(fov.current_fov.contains(&(x, y)), inside, "cell ({x}, {y})");
            }
        }
    }
}

#[test]
fn radius_is_chebyshev() {
    let entities = world_with_trees(&[]);
    let fov = seen_from((3, -2), 2, &entities);
    let mut count = 0;
    for x in -10..10 {
        for y in -10..10 {
            let inside = (x - 3i32).abs() <= 2 && (y + 2i32).abs() <= 2;
            assert_eq!(fov.current_fov.contains(&(x, y)), inside, "cell ({x}, {y})");
            if inside {
                count += 1;
            }
        }
    }
    assert_eq!(count, 25);
}

#[test]
fn zero_and_negative_radius_see_the_origin_only() {
    let entities = world_with_trees(&[(1, 0)]);
    for radius in [0, -1, -100] {
        let fov = seen_from((4, 4), radius, &entities);
        assert!(fov.current_fov.contains(&(4, 4)));
        assert!(!fov.current_fov.contains(&(5, 4)));
        assert!(!fov.current_fov.contains(&(4, 5)));
    }
}

#[test]
fn symmetric_layout_gives_symmetric_sight() {
    let entities = world_with_trees(&[(2, 1), (-2, 1), (2, -1), (-2, -1), (1, 2), (-1, 2), (1, -2), (-1, -2)]);
    let fov = seen_from((0, 0), 6, &entities);
    for x in -6..=6 {
        for y in -6..=6 {
            let here = fov.current_fov.contains(&(x, y));
            assert_eq!(here, fov.current_fov.contains(&(-x, y)), "mirror x at ({x}, {y})");
            assert_eq!(here, fov.current_fov.contains(&(x, -y)), "mirror y at ({x}, {y})");
            assert_eq!(here, fov.current_fov.contains(&(y, x)), "transpose at ({x}, {y})");
        }
    }
    assert!(!fov.current_fov.contains(&(4, 2)));
    assert!(!fov.current_fov.contains(&(-4, -2)));
}

#[test]
fn recompute_forgets_what_was_seen() {
    let entities = world_with_trees(&[]);
    let mut fov = PlayerFov::new(1);
    fov.recompute(Point { x: 0, y: 0 }, &entities);
    assert!(fov.current_fov.contains(&(1, 1)));
    fov.recompute(Point { x: 10, y: 10 }, &entities);
    assert!(!fov.current_fov.contains(&(1, 1)));
    assert!(!fov.current_fov.contains(&(0, 0)));
    assert!(fov.current_fov.contains(&(11, 9)));
    assert_eq!(fov.fov_radius, 1);
}

#[test]
fn recompute_is_the_same_whatever_came_before() {
    let entities = world_with_trees(&[(3, 3), (7, 2)]);
    let mut a = PlayerFov::new(8);
    a.recompute(Point { x: 40, y: 40 }, &entities);
    a.recompute(Point { x: 5, y: 5 }, &entities);
    let b = seen_from((5, 5), 8, &entities);
    assert_eq!(a, b);
}

#[test]
fn sight_at_the_edge_of_the_grid_stays_on_the_grid() {
    let entities = world_with_trees(&[(i32::MAX - 1, i32::MAX)]);
    let fov = seen_from((i32::MAX, i32::MAX), 3, &entities);
    assert!(fov.current_fov.contains(&(i32::MAX, i32::MAX)));
    assert!(fov.current_fov.contains(&(i32::MAX - 1, i32::MAX)));
    assert!(!fov.current_fov.contains(&(i32::MAX - 2, i32::MAX)));
    assert!(fov.current_fov.contains(&(i32::MAX - 3, i32::MAX - 3)));
    assert!(!fov.current_fov.contains(&(i32::MAX - 4, i32::MAX)));
}

#[test]
fn only_trees_are_occluders() {
    let mut state = GameState::create_test_world("w".into());
    spawn_player(&mut state, "Alice".into());
    let occ = collect_occluders(&state.entities);
    for cell in [(5, 5), (15, 5), (5, 15), (15, 15), (10, 5), (10, 15)] {
        assert!(occ.contains(&cell));
    }
    assert!(!occ.contains(&(10, 10)));
    let fov = seen_from((10, 10), 20, &state.entities);
    // The tree straight above hides the cells behind it.
    assert!(fov.current_fov.contains(&(10, 5)));
    assert!(!fov.current_fov.contains(&(10, 4)));
    assert!(!fov.current_fov.contains(&(10, 0)));
    assert!(fov.current_fov.contains(&(11, 0)));
}
