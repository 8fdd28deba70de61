//! The synchronisation server's state and the decisions it takes.
//!
//! The server owns one world, one field-of-view record per bound player, the
//! binding of each connection to its entity, the one-off messages waiting for
//! each connection and the queue of actions that the next tick applies. The
//! functions here take every decision; the caller owns the sockets, the lock
//! and the clock, hands in what arrived and sends out what is returned.

use crate::ecs::{EntityID, EntityMap, EntityView, Point};
use crate::fov::{abs, fresh_fov, PlayerFov, PlayerFovView, DEFAULT_FOV_RADIUS, FOV_NETWORK_MARGIN};
use crate::fx::IdMap;
use crate::game::{
    apply, spawn_player, spec_move_entity, spec_spawn_player, GameAction, GameActionView, GameState,
    GameStateView,
};
use vstd::prelude::*;

verus! {

/// Stands for a connection: the caller gives each peer a number of its own.
#[derive(Debug, Clone, Copy, PartialEq, Eq, Hash, Structural)]
pub struct ConnectionId(pub u32);

/// The entity that each bound connection controls.
pub type EndpointMap = IdMap<EntityID>;

/// The field-of-view record of each bound player.
pub type PlayerFovMap = IdMap<PlayerFov>;

/// A message from a client to the server: an action that it asks for.
pub type ClientMessage = GameAction;

/// A message from the server to one client.
#[derive(Debug, PartialEq, Eq)]
pub enum ServerMessage {
    /// The entities that the client should know of.
    EntityMap(EntityMap),
    /// The entity that the client controls from now on.
    PlayerID(EntityID),
}

/// A server message as mathematical values.
pub enum ServerMessageView {
    EntityMap(Map<u32, EntityView>),
    PlayerID(EntityID),
}

impl View for ServerMessage {
    type V = ServerMessageView;

    open spec fn view(&self) -> ServerMessageView {
        match self {
            ServerMessage::EntityMap(m) => ServerMessageView::EntityMap(m@),
            ServerMessage::PlayerID(id) => ServerMessageView::PlayerID(*id),
        }
    }
}

impl Clone for ServerMessage {
    fn clone(&self) -> (m: Self)
        ensures
            m@ == self@,
    {
        match self {
            ServerMessage::EntityMap(entities) => ServerMessage::EntityMap(entities.clone()),
            ServerMessage::PlayerID(id) => ServerMessage::PlayerID(*id),
        }
    }
}

/// Anything that travels between client and server.
#[derive(Debug, PartialEq, Eq)]
pub enum Message {
    Client(GameAction),
    Server(ServerMessage),
}

/// A message as mathematical values.
pub enum MessageView {
    Client(GameActionView),
    Server(ServerMessageView),
}

impl View for Message {
    type V = MessageView;

    open spec fn view(&self) -> MessageView {
        match self {
            Message::Client(a) => MessageView::Client(a@),
            Message::Server(m) => MessageView::Server(m@),
        }
    }
}

impl Clone for Message {
    fn clone(&self) -> (m: Self)
        ensures
            m@ == self@,
    {
        match self {
            Message::Client(action) => Message::Client(action.clone()),
            Message::Server(msg) => Message::Server(msg.clone()),
        }
    }
}

/// The server's state: the world and the bookkeeping of its connections.
#[derive(Debug)]
pub struct ServerState {
    pub game: GameState,
    pub endpoints: EndpointMap,
    pub unique_server_messages: IdMap<Vec<ServerMessage>>,
    pub event_queue: Vec<(EntityID, GameAction)>,
    pub player_fovs: PlayerFovMap,
}

/// The server's state as mathematical values.
pub struct ServerStateView {
    pub game: GameStateView,
    pub endpoints: Map<u32, EntityID>,
    pub outbox: Map<u32, Seq<ServerMessageView>>,
    pub queue: Seq<(EntityID, GameActionView)>,
    pub fovs: Map<u32, PlayerFovView>,
}

/// The one-off messages of a connection as mathematical values.
pub open spec fn messages_view(v: Vec<ServerMessage>) -> Seq<ServerMessageView> {
    v@.map_values(|m: ServerMessage| m@)
}

/// The queued actions as mathematical values.
pub open spec fn queue_view(q: Seq<(EntityID, GameAction)>) -> Seq<(EntityID, GameActionView)> {
    q.map_values(|p: (EntityID, GameAction)| (p.0, p.1@))
}

impl View for ServerState {
    type V = ServerStateView;

    open spec fn view(&self) -> ServerStateView {
        ServerStateView {
            game: self.game@,
            endpoints: self.endpoints@,
            outbox: self.unique_server_messages@.map_values(
                |v: Vec<ServerMessage>| messages_view(v),
            ),
            queue: queue_view(self.event_queue@),
            fovs: self.player_fovs@.map_values(|f: PlayerFov| f@),
        }
    }
}

/// The state after the player `pid` got a fresh field-of-view record:
/// unchanged where the world has no such entity.
pub open spec fn spec_init_player_fov(s: ServerStateView, pid: EntityID) -> ServerStateView {
    if s.game.entities.contains_key(pid.0) {
        ServerStateView {
            fovs: s.fovs.insert(
                pid.0,
                fresh_fov(
                    s.game.entities,
                    s.game.entities[pid.0].position,
                    DEFAULT_FOV_RADIUS as int,
                ),
            ),
            ..s
        }
    } else {
        s
    }
}

/// Whether `e` lies in the box around `player` that reaches `radius` plus the
/// network margin in each direction. Occluders play no part.
pub open spec fn in_margin(radius: int, player: Point, e: Point) -> bool {
    abs(e.x - player.x) <= radius + FOV_NETWORK_MARGIN && abs(e.y - player.y) <= radius
        + FOV_NETWORK_MARGIN
}

/// Whether an entity at `e` is sent to a player at `player` with record `fov`.
pub open spec fn sent_to(fov: PlayerFovView, player: Point, e: Point) -> bool {
    fov.visible.contains((e.x, e.y)) || in_margin(fov.radius, player, e)
}

/// The entities sent to player `pid`: those it sees and those in its margin
/// box. Without a record for `pid` the whole world is sent; with a record
/// but no entity, nothing.
pub open spec fn spec_entities_for_player(s: ServerStateView, pid: EntityID) -> Map<
    u32,
    EntityView,
> {
    if !s.fovs.contains_key(pid.0) {
        s.game.entities
    } else if !s.game.entities.contains_key(pid.0) {
        Map::empty()
    } else {
        Map::new(
            |k: u32|
                s.game.entities.contains_key(k) && sent_to(
                    s.fovs[pid.0],
                    s.game.entities[pid.0].position,
                    s.game.entities[k].position,
                ),
            |k: u32| s.game.entities[k],
        )
    }
}

/// What one queued action does to the world at a tick: a move is applied,
/// everything else leaves the world as it is.
pub open spec fn spec_drain_step(g: GameStateView, item: (EntityID, GameActionView)) -> GameStateView {
    match item.1 {
        GameActionView::Move(d) => spec_move_entity(g, item.0, d),
        _ => g,
    }
}

/// The world after the queued actions `q`, applied in order.
pub open spec fn spec_drained(g: GameStateView, q: Seq<(EntityID, GameActionView)>) -> GameStateView
    decreases q.len(),
{
    if q.len() == 0 {
        g
    } else {
        spec_drain_step(spec_drained(g, q.drop_last()), q.last())
    }
}

/// The worlds to persist: for each `SaveWorld` in `q`, the world as it is
/// when that action's turn comes.
pub open spec fn spec_saves(g: GameStateView, q: Seq<(EntityID, GameActionView)>) -> Seq<
    GameStateView,
>
    decreases q.len(),
{
    if q.len() == 0 {
        Seq::empty()
    } else if q.last().1 is SaveWorld {
        spec_saves(g, q.drop_last()).push(spec_drained(g, q.drop_last()))
    } else {
        spec_saves(g, q.drop_last())
    }
}

/// The actors of the moves in `q`, in order.
pub open spec fn spec_movers(q: Seq<(EntityID, GameActionView)>) -> Seq<EntityID>
    decreases q.len(),
{
    if q.len() == 0 {
        Seq::empty()
    } else if q.last().1 is Move {
        spec_movers(q.drop_last()).push(q.last().0)
    } else {
        spec_movers(q.drop_last())
    }
}

/// The records after that of `pid` was recomputed from where it stands in
/// `entities`, with the radius it had, or the default one if it had none.
/// Unchanged where `entities` has no such entity.
pub open spec fn spec_refresh_one(
    fovs: Map<u32, PlayerFovView>,
    entities: Map<u32, EntityView>,
    pid: EntityID,
) -> Map<u32, PlayerFovView> {
    if entities.contains_key(pid.0) {
        let radius = if fovs.contains_key(pid.0) {
            fovs[pid.0].radius
        } else {
            DEFAULT_FOV_RADIUS as int
        };
        fovs.insert(pid.0, fresh_fov(entities, entities[pid.0].position, radius))
    } else {
        fovs
    }
}

/// The records after those of all `movers` were recomputed.
pub open spec fn spec_refreshed(
    fovs: Map<u32, PlayerFovView>,
    entities: Map<u32, EntityView>,
    movers: Seq<EntityID>,
) -> Map<u32, PlayerFovView>
    decreases movers.len(),
{
    if movers.len() == 0 {
        fovs
    } else {
        spec_refresh_one(spec_refreshed(fovs, entities, movers.drop_last()), entities, movers.last())
    }
}

/// The state after a tick has drained the queue: the moves applied, the
/// records of those that moved recomputed from the world as it is then.
pub open spec fn spec_process_events(s: ServerStateView) -> ServerStateView {
    let game = spec_drained(s.game, s.queue);
    ServerStateView {
        game,
        queue: Seq::empty(),
        fovs: spec_refreshed(s.fovs, game.entities, spec_movers(s.queue)),
        ..s
    }
}

/// The worlds of `v` as mathematical values.
pub open spec fn states_view(v: Seq<GameState>) -> Seq<GameStateView> {
    v.map_values(|g: GameState| g@)
}

/// The one-off messages after `m` was added for connection `conn`.
pub open spec fn spec_push_message(
    outbox: Map<u32, Seq<ServerMessageView>>,
    conn: u32,
    m: ServerMessageView,
) -> Map<u32, Seq<ServerMessageView>> {
    outbox.insert(
        conn,
        if outbox.contains_key(conn) {
            outbox[conn].push(m)
        } else {
            seq![m]
        },
    )
}

/// The state after connection `conn` was bound to entity `pid`: the binding
/// made, the record of `pid` set up, and the notice of `pid` waiting for
/// `conn`.
pub open spec fn spec_bind(s: ServerStateView, conn: ConnectionId, pid: EntityID) -> ServerStateView {
    let bound = ServerStateView { endpoints: s.endpoints.insert(conn.0, pid), ..s };
    let ready = spec_init_player_fov(bound, pid);
    ServerStateView {
        outbox: spec_push_message(ready.outbox, conn.0, ServerMessageView::PlayerID(pid)),
        ..ready
    }
}

/// The state after `action` arrived from connection `conn`.
///
/// A spawn binds the connection; it is dropped where the generator has no
/// identifier left. Any other action is queued under the entity that the
/// connection is bound to, and dropped where it is bound to none.
pub open spec fn spec_receive(s: ServerStateView, conn: ConnectionId, action: GameActionView) -> ServerStateView {
    match action {
        GameActionView::SpawnPlayer(name) => if s.game.count < u32::MAX {
            spec_bind(
                ServerStateView { game: spec_spawn_player(s.game, name), ..s },
                conn,
                EntityID((s.game.count + 1) as u32),
            )
        } else {
            s
        },
        GameActionView::SpawnAs(eid) => spec_bind(s, conn, eid),
        _ => if s.endpoints.contains_key(conn.0) {
            ServerStateView { queue: s.queue.push((s.endpoints[conn.0], action)), ..s }
        } else {
            s
        },
    }
}

/// The snapshot for connection `conn`: what its player is sent, or the whole
/// world while the connection is bound to no entity.
pub open spec fn spec_snapshot(s: ServerStateView, conn: ConnectionId) -> Map<u32, EntityView> {
    if s.endpoints.contains_key(conn.0) {
        spec_entities_for_player(s, s.endpoints[conn.0])
    } else {
        s.game.entities
    }
}

/// The one-off messages that wait for connection `conn`, newest first.
pub open spec fn spec_one_offs(s: ServerStateView, conn: ConnectionId) -> Seq<ServerMessageView> {
    if s.outbox.contains_key(conn.0) {
        s.outbox[conn.0].reverse()
    } else {
        Seq::empty()
    }
}

/// What a tick sends to connection `conn` from the state `s` that the
/// draining of the queue has left: the one-off messages, then the snapshot.
pub open spec fn spec_responses(s: ServerStateView, conn: ConnectionId) -> Seq<MessageView> {
    spec_one_offs(s, conn).map_values(|m: ServerMessageView| MessageView::Server(m)).push(
        MessageView::Server(ServerMessageView::EntityMap(spec_snapshot(s, conn))),
    )
}

/// The state after a tick for connection `conn`: the queue drained, and no
/// one-off message waiting for `conn` any more.
pub open spec fn spec_after_tick(s: ServerStateView, conn: ConnectionId) -> ServerStateView {
    let mid = spec_process_events(s);
    ServerStateView {
        outbox: if mid.outbox.contains_key(conn.0) {
            mid.outbox.insert(conn.0, Seq::empty())
        } else {
            mid.outbox
        },
        ..mid
    }
}

/// The messages of `v` as mathematical values.
pub open spec fn responses_view(v: Seq<Message>) -> Seq<MessageView> {
    v.map_values(|m: Message| m@)
}

/// What a tick hands to the caller: the worlds to persist and the messages
/// to send to the connection, in order.
#[derive(Debug)]
pub struct TickOutput {
    pub saves: Vec<GameState>,
    pub responses: Vec<Message>,
}

/// Whether `k` is among the first `i` identifiers of `ids`.
spec fn among_first(ids: Seq<EntityID>, i: int, k: u32) -> bool {
    exists|j: int| 0 <= j < i && (#[trigger] ids[j]).0 == k
}

/// Whether `e` lies in the margin box of a player at `player`.
fn within_margin(radius: i32, player: Point, e: Point) -> (b: bool)
    ensures
        b == in_margin(radius as int, player, e),
{
    let reach: i64 = radius as i64 + FOV_NETWORK_MARGIN as i64;
    let dx: i64 = e.x as i64 - player.x as i64;
    let dy: i64 = e.y as i64 - player.y as i64;
    let adx: i64 = if dx < 0 {
        -dx
    } else {
        dx
    };
    let ady: i64 = if dy < 0 {
        -dy
    } else {
        dy
    };
    adx <= reach && ady <= reach
}

impl ServerState {
    /// A server for `game` with no connection bound and nothing queued.
    pub fn new(game: GameState) -> (s: Self)
        ensures
            s@.game == game@,
            s@.endpoints == Map::<u32, EntityID>::empty(),
            s@.outbox == Map::<u32, Seq<ServerMessageView>>::empty(),
            s@.queue == Seq::<(EntityID, GameActionView)>::empty(),
            s@.fovs == Map::<u32, PlayerFovView>::empty(),
    {
        let s = ServerState {
            game,
            endpoints: IdMap::new(),
            unique_server_messages: IdMap::new(),
            event_queue: Vec::new(),
            player_fovs: IdMap::new(),
        };
        proof {
            assert(s@.outbox =~= Map::<u32, Seq<ServerMessageView>>::empty());
            assert(s@.queue =~= Seq::<(EntityID, GameActionView)>::empty());
            assert(s@.fovs =~= Map::<u32, PlayerFovView>::empty());
        }
        s
    }

    /// Gives the player `pid` a record with the default radius, computed from
    /// where it stands now. Does nothing where the world has no such entity.
    pub fn init_player_fov(&mut self, pid: EntityID)
        ensures
            final(self)@ == spec_init_player_fov(old(self)@, pid),
    {
        let origin = match self.game.entities.get(&pid) {
            Some(entity) => Some(entity.position),
            None => None,
        };
        match origin {
            Some(origin) => {
                let mut pfov = PlayerFov::new(DEFAULT_FOV_RADIUS);
                pfov.recompute(origin, &self.game.entities);
                self.player_fovs.insert(pid.0, pfov);
                proof {
                    assert(self@.fovs =~= spec_init_player_fov(old(self)@, pid).fovs);
                }
            },
            None => {},
        }
    }

    /// The entities to send to player `pid`: all that it sees and all within
    /// its margin box.
    pub fn entities_for_player(&self, pid: EntityID) -> (sent: EntityMap)
        ensures
            sent@ == spec_entities_for_player(self@, pid),
    {
        let pfov = match self.player_fovs.get(pid.0) {
            Some(pfov) => pfov,
            None => {
                return self.game.entities.clone();
            },
        };
        let player = match self.game.entities.get(&pid) {
            Some(player) => player.position,
            None => {
                return EntityMap::default();
            },
        };
        let ghost entities = self@.game.entities;
        let ghost fov = self@.fovs[pid.0];
        let ids = self.game.entities.ids();
        let mut filtered = EntityMap::default();
        let mut i: usize = 0;
        while i < ids.len()
            invariant
                i <= ids.len(),
                entities == self@.game.entities,
                fov == pfov@,
                entities.contains_key(pid.0),
                player == entities[pid.0].position,
                forall|id: EntityID| ids@.contains(id) <==> entities.contains_key(id.0),
                forall|k: u32|
                    filtered@.contains_key(k) <==> (among_first(ids@, i as int, k) && sent_to(
                        fov,
                        player,
                        entities[k].position,
                    )),
                forall|k: u32| filtered@.contains_key(k) ==> filtered@[k] == entities[k],
            decreases ids.len() - i,
        {
            let eid = ids[i];
            assert(ids@.contains(eid));
            let ghost before = filtered@;
            match self.game.entities.get(&eid) {
                Some(entity) => {
                    let in_fov = pfov.current_fov.contains(&(entity.position.x, entity.position.y));
                    let near = within_margin(pfov.fov_radius, player, entity.position);
                    if in_fov || near {
                        filtered.insert(eid, entity.clone());
                    }
                },
                None => {},
            }
            proof {
                assert forall|k: u32|
                    filtered@.contains_key(k) <==> (among_first(ids@, i + 1, k) && sent_to(
                        fov,
                        player,
                        entities[k].position,
                    )) by {
                    if among_first(ids@, i as int, k) {
                        let j = choose|j: int| 0 <= j < i && (#[trigger] ids@[j]).0 == k;
                        assert(0 <= j < i + 1 && ids@[j].0 == k);
                    }
                    if among_first(ids@, i + 1, k) {
                        let j = choose|j: int| 0 <= j < i + 1 && (#[trigger] ids@[j]).0 == k;
                        if j < i {
                            assert(among_first(ids@, i as int, k));
                        }
                    }
                    if k == eid.0 {
                        assert(ids@[i as int].0 == k);
                    }
                }
            }
            i += 1;
        }
        proof {
            assert forall|k: u32|
                filtered@.contains_key(k) <==> spec_entities_for_player(self@, pid).contains_key(
                    k,
                ) by {
                if among_first(ids@, i as int, k) {
                    let j = choose|j: int| 0 <= j < i && (#[trigger] ids@[j]).0 == k;
                    assert(ids@.contains(ids@[j]));
                }
                if entities.contains_key(k) {
                    assert(ids@.contains(EntityID(k)));
                    let j = choose|j: int| 0 <= j < ids@.len() && ids@[j] == EntityID(k);
                    assert(ids@[j].0 == k);
                }
            }
            assert(filtered@ =~= spec_entities_for_player(self@, pid));
        }
        filtered
    }
    /// Recomputes the record of `pid` from where it stands now, with the
    /// radius it had, or the default one if it had none.
    fn refresh_player_fov(&mut self, pid: EntityID)
        ensures
            final(self)@ == (ServerStateView {
                fovs: spec_refresh_one(old(self)@.fovs, old(self)@.game.entities, pid),
                ..old(self)@
            }),
    {
        let origin = match self.game.entities.get(&pid) {
            Some(entity) => Some(entity.position),
            None => None,
        };
        match origin {
            Some(origin) => {
                let radius = match self.player_fovs.get(pid.0) {
                    Some(pfov) => pfov.fov_radius,
                    None => DEFAULT_FOV_RADIUS,
                };
                let mut pfov = PlayerFov::new(radius);
                pfov.recompute(origin, &self.game.entities);
                self.player_fovs.insert(pid.0, pfov);
                proof {
                    assert(self@.fovs =~= spec_refresh_one(
                        old(self)@.fovs,
                        old(self)@.game.entities,
                        pid,
                    ));
                }
            },
            None => {},
        }
    }

    /// Drains the queue: applies each move in order, then recomputes the
    /// record of every player that moved. Returns, for each `SaveWorld` in
    /// the queue, the world as it was at that action's turn, for the caller
    /// to persist.
    pub fn process_events(&mut self) -> (saves: Vec<GameState>)
        ensures
            final(self)@ == spec_process_events(old(self)@),
            states_view(saves@) == spec_saves(old(self)@.game, old(self)@.queue),
    {
        let mut events: Vec<(EntityID, GameAction)> = Vec::new();
        std::mem::swap(&mut events, &mut self.event_queue);
        let ghost q = queue_view(events@);
        let ghost start = old(self)@;
        let mut saves: Vec<GameState> = Vec::new();
        let mut moved_players: Vec<EntityID> = Vec::new();
        proof {
            assert(self@.queue =~= Seq::<(EntityID, GameActionView)>::empty());
            assert(q.take(0) =~= Seq::<(EntityID, GameActionView)>::empty());
            assert(states_view(saves@) =~= Seq::<GameStateView>::empty());
        }
        let mut i: usize = 0;
        while i < events.len()
            invariant
                i <= events.len(),
                q == queue_view(events@),
                q == start.queue,
                self@.endpoints == start.endpoints,
                self@.outbox == start.outbox,
                self@.fovs == start.fovs,
                self@.queue == Seq::<(EntityID, GameActionView)>::empty(),
                self@.game == spec_drained(start.game, q.take(i as int)),
                moved_players@ == spec_movers(q.take(i as int)),
                states_view(saves@) == spec_saves(start.game, q.take(i as int)),
            decreases events.len() - i,
        {
            proof {
                assert(q.take(i + 1).drop_last() =~= q.take(i as int));
                assert(q.take(i + 1).last() == q[i as int]);
                assert(q[i as int] == (events@[i as int].0, events@[i as int].1@));
            }
            let eid = events[i].0;
            match &events[i].1 {
                GameAction::Move(_) => {
                    apply(&mut self.game, eid, &events[i].1);
                    moved_players.push(eid);
                },
                GameAction::SpawnPlayer(_) => {},
                GameAction::SpawnAs(_) => {},
                GameAction::SaveWorld => {
                    let ghost before = states_view(saves@);
                    saves.push(self.game.clone());
                    proof {
                        assert(states_view(saves@) =~= before.push(self.game@));
                    }
                },
            }
            i += 1;
        }
        proof {
            assert(q.take(events.len() as int) =~= q);
        }
        let ghost movers = moved_players@;
        let ghost mid = self@;
        proof {
            assert(movers.take(0) =~= Seq::<EntityID>::empty());
        }
        let mut j: usize = 0;
        while j < moved_players.len()
            invariant
                j <= moved_players.len(),
                movers == moved_players@,
                self@.game == mid.game,
                self@.endpoints == mid.endpoints,
                self@.outbox == mid.outbox,
                self@.queue == mid.queue,
                self@.fovs == spec_refreshed(mid.fovs, mid.game.entities, movers.take(j as int)),
            decreases moved_players.len() - j,
        {
            proof {
                assert(movers.take(j + 1).drop_last() =~= movers.take(j as int));
                assert(movers.take(j + 1).last() == movers[j as int]);
            }
            self.refresh_player_fov(moved_players[j]);
            j += 1;
        }
        proof {
            assert(movers.take(moved_players.len() as int) =~= movers);
        }
        saves
    }
    /// Adds `msg` to the one-off messages waiting for connection `conn`.
    fn push_server_message(&mut self, conn: ConnectionId, msg: ServerMessage)
        ensures
            final(self)@ == (ServerStateView {
                outbox: spec_push_message(old(self)@.outbox, conn.0, msg@),
                ..old(self)@
            }),
    {
        let waiting = self.unique_server_messages.insert(conn.0, Vec::new());
        let mut messages = match waiting {
            Some(messages) => messages,
            None => Vec::new(),
        };
        let ghost before = messages_view(messages);
        messages.push(msg);
        proof {
            assert(messages_view(messages) =~= before.push(msg@));
            if !old(self)@.outbox.contains_key(conn.0) {
                assert(before =~= Seq::<ServerMessageView>::empty());
                assert(messages_view(messages) =~= seq![msg@]);
            }
        }
        self.unique_server_messages.insert(conn.0, messages);
        proof {
            assert(self@.outbox =~= spec_push_message(old(self)@.outbox, conn.0, msg@));
        }
    }

    /// Binds connection `conn` to entity `pid`, sets up the record of `pid`
    /// and leaves the notice of `pid` waiting for `conn`.
    fn bind(&mut self, conn: ConnectionId, pid: EntityID)
        ensures
            final(self)@ == spec_bind(old(self)@, conn, pid),
    {
        self.endpoints.insert(conn.0, pid);
        self.init_player_fov(pid);
        self.push_server_message(conn, ServerMessage::PlayerID(pid));
    }

    /// Takes in an action that arrived from connection `conn`.
    ///
    /// `SpawnPlayer` creates the player and binds the connection to it;
    /// `SpawnAs` binds the connection to the entity named, which is not
    /// looked up. Either leaves a `PlayerID` notice waiting for the
    /// connection. Any other action is queued for the next tick under the
    /// entity that the connection is bound to, and dropped where it is bound
    /// to none.
    pub fn receive_action(&mut self, conn: ConnectionId, action: GameAction)
        ensures
            final(self)@ == spec_receive(old(self)@, conn, action@),
    {
        match action {
            GameAction::SpawnPlayer(name) => {
                if !self.game.entity_gen.is_exhausted() {
                    let pid = spawn_player(&mut self.game, name);
                    self.bind(conn, pid);
                }
            },
            GameAction::SpawnAs(eid) => {
                self.bind(conn, eid);
            },
            other => {
                let bound = match self.endpoints.get(conn.0) {
                    Some(pid) => Some(*pid),
                    None => None,
                };
                match bound {
                    Some(pid) => {
                        self.event_queue.push((pid, other));
                        proof {
                            assert(self@.queue =~= old(self)@.queue.push((pid, other@)));
                        }
                    },
                    None => {},
                }
            },
        }
    }
    /// Takes the one-off messages that wait for connection `conn`, newest
    /// first, and leaves none waiting.
    fn take_server_messages(&mut self, conn: ConnectionId) -> (responses: Vec<Message>)
        ensures
            final(self)@ == (ServerStateView {
                outbox: if old(self)@.outbox.contains_key(conn.0) {
                    old(self)@.outbox.insert(conn.0, Seq::empty())
                } else {
                    old(self)@.outbox
                },
                ..old(self)@
            }),
            responses_view(responses@) == spec_one_offs(old(self)@, conn).map_values(
                |m: ServerMessageView| MessageView::Server(m),
            ),
    {
        let mut responses: Vec<Message> = Vec::new();
        if !self.unique_server_messages.contains_key(conn.0) {
            proof {
                assert(responses_view(responses@) =~= spec_one_offs(old(self)@, conn).map_values(
                    |m: ServerMessageView| MessageView::Server(m),
                ));
                assert(self@.outbox =~= old(self)@.outbox);
            }
            return responses;
        }
        let none_waiting: Vec<ServerMessage> = Vec::new();
        assert(messages_view(none_waiting) =~= Seq::<ServerMessageView>::empty());
        let waiting = self.unique_server_messages.insert(conn.0, none_waiting);
        proof {
            assert(self@.outbox =~= old(self)@.outbox.insert(conn.0, Seq::empty()));
        }
        let mut x = match waiting {
            Some(x) => x,
            None => Vec::new(),
        };
        let ghost x0 = messages_view(x);
        let ghost total = x0.len() as int;
        assert(x0 == old(self)@.outbox[conn.0]);
        while x.len() > 0
            invariant
                total == x0.len(),
                x.len() <= total,
                messages_view(x) =~= x0.take(x.len() as int),
                responses.len() == total - x.len(),
                forall|j: int|
                    0 <= j < responses.len() ==> (#[trigger] responses@[j])@ == MessageView::Server(
                        x0[total - 1 - j],
                    ),
            decreases x.len(),
        {
            let ghost last = x@[x.len() - 1];
            assert(messages_view(x)[x.len() - 1] == last@);
            match x.pop() {
                Some(a) => {
                    responses.push(Message::Server(a));
                },
                None => {},
            }
            proof {
                assert(messages_view(x) =~= x0.take(x.len() as int));
            }
        }
        proof {
            assert(responses_view(responses@) =~= x0.reverse().map_values(
                |m: ServerMessageView| MessageView::Server(m),
            ));
        }
        responses
    }

    /// One tick for connection `conn`: drains the queue of all connections,
    /// recomputes the records of the players that moved, takes the one-off
    /// messages that wait for `conn` and adds the snapshot for `conn`.
    ///
    /// The caller persists `saves` and sends `responses` in order, both
    /// after it has let go of the state.
    pub fn tick(&mut self, conn: ConnectionId) -> (out: TickOutput)
        ensures
            final(self)@ == spec_after_tick(old(self)@, conn),
            states_view(out.saves@) == spec_saves(old(self)@.game, old(self)@.queue),
            responses_view(out.responses@) == spec_responses(
                spec_process_events(old(self)@),
                conn,
            ),
    {
        let saves = self.process_events();
        let ghost mid = self@;
        let mut responses = self.take_server_messages(conn);
        let pid = match self.endpoints.get(conn.0) {
            Some(pid) => Some(*pid),
            None => None,
        };
        let client_update = match pid {
            Some(pid) => self.entities_for_player(pid),
            None => self.game.entities.clone(),
        };
        proof {
            assert(spec_entities_for_player(self@, pid.unwrap()) == spec_entities_for_player(
                mid,
                pid.unwrap(),
            )) by {
                assert(self@.game == mid.game && self@.fovs == mid.fovs);
            }
            assert(client_update@ == spec_snapshot(mid, conn));
        }
        let ghost before = responses_view(responses@);
        let msg = Message::Server(ServerMessage::EntityMap(client_update));
        responses.push(msg);
        proof {
            assert(responses_view(responses@) =~= before.push(msg@));
        }
        TickOutput { saves, responses }
    }
}

/// A player is always sent its own entity, provided that it has one and that
/// its record, if it has one, has a radius that leaves the margin box
/// non-empty.
pub proof fn lemma_player_sees_itself(s: ServerStateView, pid: EntityID)
    requires
        s.game.entities.contains_key(pid.0),
        s.fovs.contains_key(pid.0) ==> s.fovs[pid.0].radius + FOV_NETWORK_MARGIN >= 0,
    ensures
        spec_entities_for_player(s, pid).contains_key(pid.0),
        spec_entities_for_player(s, pid)[pid.0] == s.game.entities[pid.0],
{
}

/// A player with a record is sent no entity that stands outside both its
/// visible cells and its margin box, and nothing that is not in the world.
pub proof fn lemma_far_entities_excluded(s: ServerStateView, pid: EntityID, k: u32)
    requires
        s.fovs.contains_key(pid.0),
        !s.fovs[pid.0].visible.contains(
            (s.game.entities[k].position.x, s.game.entities[k].position.y),
        ),
        !in_margin(s.fovs[pid.0].radius, s.game.entities[pid.0].position, s.game.entities[k].position),
    ensures
        !spec_entities_for_player(s, pid).contains_key(k),
{
}

/// What is sent to a player is part of the world, unchanged.
pub proof fn lemma_sent_entities_in_world(s: ServerStateView, pid: EntityID, k: u32)
    requires
        spec_entities_for_player(s, pid).contains_key(k),
    ensures
        s.game.entities.contains_key(k),
        spec_entities_for_player(s, pid)[k] == s.game.entities[k],
{
}

} // verus!
