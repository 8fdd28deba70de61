//! The game state and the one function that changes it.
//!
//! [`apply`] maps a state, an actor and an action to the next state and the
//! events that the layers above react to. What it does is the spec function
//! [`spec_apply`] on the states' views, so equal inputs give equal outputs.

use crate::ecs::{Direction, Entity, EntityGenerator, EntityID, EntityMap, EntityType, EntityView, Point};
use vstd::prelude::*;

verus! {

/// Where a new player stands.
pub const SPAWN_X: i32 = 10;

/// Where a new player stands.
pub const SPAWN_Y: i32 = 10;

/// An action that a player asks for.
#[derive(Debug, PartialEq, Eq)]
pub enum GameAction {
    Move(Direction),
    SpawnPlayer(String),
    /// A request to control an entity that exists already.
    SpawnAs(EntityID),
    SaveWorld,
}

/// An action, with a name as a sequence of characters.
pub enum GameActionView {
    Move(Direction),
    SpawnPlayer(Seq<char>),
    SpawnAs(EntityID),
    SaveWorld,
}

impl View for GameAction {
    type V = GameActionView;

    open spec fn view(&self) -> GameActionView {
        match self {
            GameAction::Move(d) => GameActionView::Move(*d),
            GameAction::SpawnPlayer(name) => GameActionView::SpawnPlayer(name@),
            GameAction::SpawnAs(id) => GameActionView::SpawnAs(*id),
            GameAction::SaveWorld => GameActionView::SaveWorld,
        }
    }
}

impl Clone for GameAction {
    fn clone(&self) -> (a: Self)
        ensures
            a == *self,
    {
        match self {
            GameAction::Move(d) => GameAction::Move(*d),
            GameAction::SpawnPlayer(name) => GameAction::SpawnPlayer(name.clone()),
            GameAction::SpawnAs(id) => GameAction::SpawnAs(*id),
            GameAction::SaveWorld => GameAction::SaveWorld,
        }
    }
}

/// What [`apply`] reports to the layers above.
#[derive(Debug, Clone, Copy, PartialEq, Eq, Structural)]
pub enum GameEvent {
    EntityMoved { entity_id: EntityID },
    PlayerSpawned { entity_id: EntityID },
    /// The caller should bind the requesting connection to this entity.
    SpawnAsRequested { entity_id: EntityID },
    /// The caller should save the world.
    SaveRequested,
}

/// The state of a world as mathematical values.
pub struct GameStateView {
    pub count: nat,
    pub entities: Map<u32, EntityView>,
    pub world_name: Seq<char>,
}

/// The state of a world: the identifier generator, the entities and the name.
#[derive(Debug, PartialEq, Eq)]
pub struct GameState {
    pub entity_gen: EntityGenerator,
    pub entities: EntityMap,
    pub world_name: String,
}

impl View for GameState {
    type V = GameStateView;

    open spec fn view(&self) -> GameStateView {
        GameStateView {
            count: self.entity_gen.count(),
            entities: self.entities@,
            world_name: self.world_name@,
        }
    }
}

impl Clone for GameState {
    fn clone(&self) -> (s: Self)
        ensures
            s@ == self@,
    {
        GameState {
            entity_gen: self.entity_gen,
            entities: self.entities.clone(),
            world_name: self.world_name.clone(),
        }
    }
}

/// Where the trees of the test world stand, in the order of their identifiers.
pub open spec fn test_tree_positions() -> Seq<Point> {
    seq![
        Point { x: 5, y: 5 },
        Point { x: 15, y: 5 },
        Point { x: 5, y: 15 },
        Point { x: 15, y: 15 },
        Point { x: 10, y: 5 },
        Point { x: 10, y: 15 },
    ]
}

/// A nameless tree at `p`.
pub open spec fn tree_at(p: Point) -> EntityView {
    EntityView { position: p, name: None, entity_type: EntityType::Tree }
}

/// The first `n` trees of the test world, under the identifiers 1 to `n`.
pub open spec fn test_trees(n: nat) -> Map<u32, EntityView> {
    Map::new(|k: u32| 1 <= k <= n, |k: u32| tree_at(test_tree_positions()[k - 1]))
}

/// The test world named `name`: six trees and nothing else.
pub open spec fn spec_test_world(name: Seq<char>) -> GameStateView {
    GameStateView { count: 6, entities: test_trees(6), world_name: name }
}

impl GameState {
    /// A world named `name` with a few trees in it.
    pub fn create_test_world(name: String) -> (state: Self)
        ensures
            state@ == spec_test_world(name@),
            ids_issued(state@),
    {
        let mut entity_gen = EntityGenerator::default();
        let mut entities = EntityMap::default();
        let tree_positions: [Point; 6] = [
            Point { x: 5, y: 5 },
            Point { x: 15, y: 5 },
            Point { x: 5, y: 15 },
            Point { x: 15, y: 15 },
            Point { x: 10, y: 5 },
            Point { x: 10, y: 15 },
        ];
        assert(tree_positions@ =~= test_tree_positions());
        assert(entities@ =~= test_trees(0));
        let mut i: usize = 0;
        while i < 6
            invariant
                i <= 6,
                entity_gen.count() == i,
                entities@ == test_trees(i as nat),
                tree_positions@ == test_tree_positions(),
            decreases 6 - i,
        {
            let id = entity_gen.next();
            entities.insert(
                id,
                Entity { name: None, position: tree_positions[i], entity_type: EntityType::Tree },
            );
            assert(entities@ =~= test_trees((i + 1) as nat));
            i += 1;
        }
        GameState { entity_gen, entities, world_name: name }
    }

    /// The identifiers of all players, each once, in no particular order.
    pub fn get_playable_entities(&self) -> (players: Vec<EntityID>)
        ensures
            players@.no_duplicates(),
            forall|id: EntityID|
                players@.contains(id) <==> (self@.entities.contains_key(id.0)
                    && self@.entities[id.0].entity_type == EntityType::Player),
    {
        let ids = self.entities.ids();
        let mut players: Vec<EntityID> = Vec::new();
        let mut i: usize = 0;
        while i < ids.len()
            invariant
                i <= ids.len(),
                ids@.no_duplicates(),
                forall|id: EntityID| ids@.contains(id) <==> self@.entities.contains_key(id.0),
                players@.no_duplicates(),
                forall|id: EntityID|
                    players@.contains(id) <==> (exists|j: int|
                        0 <= j < i && ids[j] == id && self@.entities[id.0].entity_type
                            == EntityType::Player),
            decreases ids.len() - i,
        {
            let id = ids[i];
            assert(ids@.contains(id));
            let is_player = match self.entities.get(&id) {
                Some(e) => match e.entity_type {
                    EntityType::Player => true,
                    EntityType::Tree => false,
                },
                None => false,
            };
            if is_player {
                let ghost before = players@;
                players.push(id);
                proof {
                    assert(!before.contains(id)) by {
                        if before.contains(id) {
                            let j = choose|j: int|
                                0 <= j < i && ids[j] == id && self@.entities[id.0].entity_type
                                    == EntityType::Player;
                            assert(ids[j] == ids[i as int]);
                        }
                    }
                    assert(players@ =~= before.push(id));
                    assert forall|x: EntityID|
                        players@.contains(x) <==> (exists|j: int|
                            0 <= j < i + 1 && ids[j] == x && self@.entities[x.0].entity_type
                                == EntityType::Player) by {
                        if players@.contains(x) {
                            let k = choose|k: int| 0 <= k < players@.len() && players@[k] == x;
                            if k < before.len() {
                                assert(before.contains(x));
                                let j = choose|j: int|
                                    0 <= j < i && ids[j] == x && self@.entities[x.0].entity_type
                                        == EntityType::Player;
                                assert(0 <= j < i + 1 && ids[j] == x);
                            } else {
                                assert(x == id);
                                assert(0 <= i < i + 1 && ids[i as int] == x);
                            }
                        }
                        if exists|j: int|
                            0 <= j < i + 1 && ids[j] == x && self@.entities[x.0].entity_type
                                == EntityType::Player {
                            let j = choose|j: int|
                                0 <= j < i + 1 && ids[j] == x && self@.entities[x.0].entity_type
                                    == EntityType::Player;
                            if j < i {
                                assert(before.contains(x));
                                let k = choose|k: int| 0 <= k < before.len() && before[k] == x;
                                assert(players@[k] == x);
                            } else {
                                assert(players@[before.len() as int] == x);
                            }
                        }
                    }
                }
            } else {
                proof {
                    assert forall|x: EntityID|
                        players@.contains(x) <==> (exists|j: int|
                            0 <= j < i + 1 && ids[j] == x && self@.entities[x.0].entity_type
                                == EntityType::Player) by {
                        if players@.contains(x) {
                            let j = choose|j: int|
                                0 <= j < i && ids[j] == x && self@.entities[x.0].entity_type
                                    == EntityType::Player;
                            assert(0 <= j < i + 1 && ids[j] == x);
                        }
                    }
                }
            }
            i += 1;
        }
        proof {
            assert forall|id: EntityID|
                players@.contains(id) <==> (self@.entities.contains_key(id.0)
                    && self@.entities[id.0].entity_type == EntityType::Player) by {
                if players@.contains(id) {
                    let j = choose|j: int|
                        0 <= j < i && ids[j] == id && self@.entities[id.0].entity_type
                            == EntityType::Player;
                    assert(ids@.contains(id));
                }
                if self@.entities.contains_key(id.0) && self@.entities[id.0].entity_type
                    == EntityType::Player {
                    assert(ids@.contains(id));
                    let j = choose|j: int| 0 <= j < ids@.len() && ids@[j] == id;
                    assert(0 <= j < i && ids[j] == id);
                }
            }
        }
        players
    }
}

/// `v + d`, held inside the range of `i32`.
pub open spec fn saturating_sum(v: int, d: int) -> int {
    if v + d > i32::MAX {
        i32::MAX as int
    } else if v + d < i32::MIN {
        i32::MIN as int
    } else {
        v + d
    }
}

/// The cell one step from `p` in direction `d`, stopping at the edge of `i32`.
pub open spec fn stepped(p: Point, d: Direction) -> Point {
    Point {
        x: saturating_sum(p.x as int, d.spec_delta().0) as i32,
        y: saturating_sum(p.y as int, d.spec_delta().1) as i32,
    }
}

/// The player that [`spawn_player`] creates for `name`.
pub open spec fn new_player(name: Seq<char>) -> EntityView {
    EntityView {
        position: Point { x: SPAWN_X, y: SPAWN_Y },
        name: Some(name),
        entity_type: EntityType::Player,
    }
}

/// The state after a player named `name` was spawned.
pub open spec fn spec_spawn_player(s: GameStateView, name: Seq<char>) -> GameStateView {
    GameStateView {
        count: s.count + 1,
        entities: s.entities.insert((s.count + 1) as u32, new_player(name)),
        world_name: s.world_name,
    }
}

/// The state after entity `id` took one step in direction `d`: unchanged where
/// there is no such entity.
pub open spec fn spec_move_entity(s: GameStateView, id: EntityID, d: Direction) -> GameStateView {
    if s.entities.contains_key(id.0) {
        let e = s.entities[id.0];
        GameStateView {
            count: s.count,
            entities: s.entities.insert(
                id.0,
                EntityView {
                    position: stepped(e.position, d),
                    name: e.name,
                    entity_type: e.entity_type,
                },
            ),
            world_name: s.world_name,
        }
    } else {
        s
    }
}

/// The state after `action` by `actor`, and the events it gives rise to.
pub open spec fn spec_apply(s: GameStateView, actor: EntityID, action: GameActionView) -> (
    GameStateView,
    Seq<GameEvent>,
) {
    match action {
        GameActionView::Move(d) => (
            spec_move_entity(s, actor, d),
            seq![GameEvent::EntityMoved { entity_id: actor }],
        ),
        GameActionView::SpawnPlayer(name) => (
            spec_spawn_player(s, name),
            seq![GameEvent::PlayerSpawned { entity_id: EntityID((s.count + 1) as u32) }],
        ),
        GameActionView::SpawnAs(id) => (s, seq![GameEvent::SpawnAsRequested { entity_id: id }]),
        GameActionView::SaveWorld => (s, seq![GameEvent::SaveRequested]),
    }
}

/// The state after the actions of `actions`, applied in order.
pub open spec fn spec_replay(s: GameStateView, actions: Seq<(EntityID, GameActionView)>) -> GameStateView
    decreases actions.len(),
{
    if actions.len() == 0 {
        s
    } else {
        spec_apply(
            spec_replay(s, actions.drop_last()),
            actions.last().0,
            actions.last().1,
        ).0
    }
}

/// Determinism: two worlds with the same counter, the same entities and the
/// same name, put through the same actions, end as the same world.
pub proof fn lemma_replay_deterministic(
    a: GameStateView,
    b: GameStateView,
    actions: Seq<(EntityID, GameActionView)>,
)
    requires
        a.count == b.count,
        a.entities =~= b.entities,
        a.world_name =~= b.world_name,
    ensures
        spec_replay(a, actions) == spec_replay(b, actions),
    decreases actions.len(),
{
    if actions.len() > 0 {
        lemma_replay_deterministic(a, b, actions.drop_last());
    }
}

/// Determinism of one step: on worlds that are equal as values, an action
/// gives equal worlds and equal events.
pub proof fn lemma_apply_deterministic(
    a: GameStateView,
    b: GameStateView,
    actor: EntityID,
    action: GameActionView,
)
    requires
        a.count == b.count,
        a.entities =~= b.entities,
        a.world_name =~= b.world_name,
    ensures
        spec_apply(a, actor, action) == spec_apply(b, actor, action),
{
}

/// A spawn reports the identifier of the player that it created: after the
/// action the world holds, under that identifier, a player of the given name
/// at the spawn cell, and nothing else has changed.
pub proof fn lemma_spawned_player_exists(s: GameStateView, actor: EntityID, name: Seq<char>)
    requires
        s.count < u32::MAX,
    ensures
        ({
            let (after, events) = spec_apply(s, actor, GameActionView::SpawnPlayer(name));
            let id = (s.count + 1) as u32;
            &&& events == seq![GameEvent::PlayerSpawned { entity_id: EntityID(id) }]
            &&& after.entities.contains_key(id)
            &&& after.entities[id] == new_player(name)
            &&& after.entities[id].position == (Point { x: 10, y: 10 })
            &&& after.entities[id].entity_type == EntityType::Player
            &&& after.entities[id].name == Some(name)
            &&& after.entities.remove(id) == s.entities.remove(id)
            &&& ids_issued(s) ==> !s.entities.contains_key(id)
        }),
{
    let after = spec_apply(s, actor, GameActionView::SpawnPlayer(name)).0;
    let id = (s.count + 1) as u32;
    assert(after.entities.remove(id) =~= s.entities.remove(id));
}

/// A move takes the actor one cell in the direction of the move, stopping
/// at the edge of `i32`, and changes nothing else. Without the actor in the
/// world it changes nothing at all.
pub proof fn lemma_move_steps_once(s: GameStateView, actor: EntityID, d: Direction)
    ensures
        ({
            let (after, events) = spec_apply(s, actor, GameActionView::Move(d));
            &&& events == seq![GameEvent::EntityMoved { entity_id: actor }]
            &&& after.count == s.count
            &&& after.world_name == s.world_name
            &&& s.entities.contains_key(actor.0) ==> {
                let before = s.entities[actor.0].position;
                let now = after.entities[actor.0].position;
                &&& now.x == saturating_sum(before.x as int, d.spec_delta().0)
                &&& now.y == saturating_sum(before.y as int, d.spec_delta().1)
                &&& after.entities[actor.0].name == s.entities[actor.0].name
                &&& after.entities[actor.0].entity_type == s.entities[actor.0].entity_type
                &&& after.entities.remove(actor.0) == s.entities.remove(actor.0)
            }
            &&& !s.entities.contains_key(actor.0) ==> after == s
        }),
{
    let after = spec_apply(s, actor, GameActionView::Move(d)).0;
    if s.entities.contains_key(actor.0) {
        assert(after.entities.remove(actor.0) =~= s.entities.remove(actor.0));
    }
}

/// Whether every entity of `s` stands under an identifier that the generator
/// has handed out. Such a state gets a fresh identifier with every spawn.
pub open spec fn ids_issued(s: GameStateView) -> bool {
    forall|k: u32| #[trigger] s.entities.contains_key(k) ==> 1 <= k <= s.count
}

/// `v + d`, held inside the range of `i32`.
pub fn saturating_step(v: i32, d: i32) -> (r: i32)
    ensures
        r == saturating_sum(v as int, d as int),
{
    match v.checked_add(d) {
        Some(r) => r,
        None => if d > 0 {
            i32::MAX
        } else {
            i32::MIN
        },
    }
}

/// Spawns a player named `name` at the spawn cell and returns its identifier.
pub fn spawn_player(state: &mut GameState, name: String) -> (id: EntityID)
    requires
        old(state)@.count < u32::MAX,
    ensures
        final(state)@ == spec_spawn_player(old(state)@, name@),
        id.0 == old(state)@.count + 1,
        final(state)@.entities.contains_key(id.0),
        final(state)@.entities[id.0] == new_player(name@),
        ids_issued(old(state)@) ==> ids_issued(final(state)@) && !old(state)@.entities.contains_key(
            id.0,
        ),
{
    let id = state.entity_gen.next();
    state.entities.insert(
        id,
        Entity {
            name: Some(name),
            position: Point { x: SPAWN_X, y: SPAWN_Y },
            entity_type: EntityType::Player,
        },
    );
    id
}

/// Moves entity `entity_id` one cell in `direction`, stopping at the edge of
/// `i32`. Does nothing where there is no such entity.
pub fn move_entity(state: &mut GameState, entity_id: EntityID, direction: Direction)
    ensures
        final(state)@ == spec_move_entity(old(state)@, entity_id, direction),
        old(state)@.entities.contains_key(entity_id.0) ==> final(state)@.entities[entity_id.0].position
            == stepped(old(state)@.entities[entity_id.0].position, direction),
        ids_issued(old(state)@) ==> ids_issued(final(state)@),
{
    match state.entities.get_mut(&entity_id) {
        Some(entity) => {
            let (dx, dy) = direction.delta();
            entity.position.x = saturating_step(entity.position.x, dx);
            entity.position.y = saturating_step(entity.position.y, dy);
        },
        None => {},
    }
}

/// Applies one action to the state and returns the events it gives rise to.
///
/// This is the only way in which a state changes. `SpawnAs` and `SaveWorld`
/// change nothing: they only emit the event on which the caller acts.
pub fn apply(state: &mut GameState, entity_id: EntityID, action: &GameAction) -> (events: Vec<
    GameEvent,
>)
    requires
        action is SpawnPlayer ==> old(state)@.count < u32::MAX,
    ensures
        final(state)@ == spec_apply(old(state)@, entity_id, action@).0,
        events@ == spec_apply(old(state)@, entity_id, action@).1,
        ids_issued(old(state)@) ==> ids_issued(final(state)@),
{
    match action {
        GameAction::Move(direction) => {
            move_entity(state, entity_id, *direction);
            let events = vec![GameEvent::EntityMoved { entity_id }];
            assert(events@ =~= seq![GameEvent::EntityMoved { entity_id }]);
            events
        },
        GameAction::SpawnPlayer(name) => {
            let new_id = spawn_player(state, name.clone());
            let events = vec![GameEvent::PlayerSpawned { entity_id: new_id }];
            assert(events@ =~= seq![GameEvent::PlayerSpawned { entity_id: new_id }]);
            events
        },
        GameAction::SpawnAs(eid) => {
            let events = vec![GameEvent::SpawnAsRequested { entity_id: *eid }];
            assert(events@ =~= seq![GameEvent::SpawnAsRequested { entity_id: *eid }]);
            events
        },
        GameAction::SaveWorld => {
            let events = vec![GameEvent::SaveRequested];
            assert(events@ =~= seq![GameEvent::SaveRequested]);
            events
        },
    }
}

} // verus!
