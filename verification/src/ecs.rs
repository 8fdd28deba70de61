//! Entity storage and the core value types.

use crate::fx::IdMap;
use vstd::prelude::*;

verus! {

/// Unique identifier of an entity.
#[derive(Debug, Clone, Copy, PartialEq, Eq, Hash, Structural)]
pub struct EntityID(pub u32);

/// Hands out entity identifiers in strictly increasing order, starting at 1.
#[derive(Debug, Clone, Copy, PartialEq, Eq, Hash, Structural)]
pub struct EntityGenerator(u32);

impl EntityGenerator {
    /// The last identifier handed out, 0 if none was.
    pub closed spec fn count(&self) -> nat {
        self.0 as nat
    }

    /// A generator that has handed out nothing yet.
    pub fn new() -> (g: Self)
        ensures
            g.count() == 0,
    {
        EntityGenerator(0)
    }

    /// A generator whose last identifier was `count`.
    pub fn from_count(count: u32) -> (g: Self)
        ensures
            g.count() == count,
    {
        EntityGenerator(count)
    }

    /// The last identifier handed out, 0 if none was.
    pub fn current(&self) -> (c: u32)
        ensures
            c == self.count(),
    {
        self.0
    }

    /// Whether every identifier has been handed out.
    pub fn is_exhausted(&self) -> (b: bool)
        ensures
            b == (self.count() >= u32::MAX),
            self.count() <= u32::MAX,
    {
        self.0 == u32::MAX
    }

    /// Hands out the next identifier, one above the last.
    pub fn next(&mut self) -> (id: EntityID)
        requires
            old(self).count() < u32::MAX,
        ensures
            final(self).count() == old(self).count() + 1,
            id.0 == final(self).count(),
    {
        self.0 = self.0 + 1;
        EntityID(self.0)
    }

    /// Hands out the next identifier, one above the last.
    pub fn new_entity(&mut self) -> (id: EntityID)
        requires
            old(self).count() < u32::MAX,
        ensures
            final(self).count() == old(self).count() + 1,
            id.0 == final(self).count(),
    {
        self.next()
    }
}

impl Default for EntityGenerator {
    fn default() -> (g: Self)
        ensures
            g.count() == 0,
    {
        EntityGenerator(0)
    }
}

/// A cell of the grid.
#[derive(Debug, Clone, Copy, PartialEq, Eq, Hash, Structural)]
pub struct Point {
    pub x: i32,
    pub y: i32,
}

/// Cardinal direction of a step.
#[derive(Debug, Clone, Copy, PartialEq, Eq, Structural)]
pub enum Direction {
    Up,
    Down,
    Left,
    Right,
}

impl Direction {
    /// The `(dx, dy)` offset of one step; `y` grows downwards.
    pub open spec fn spec_delta(self) -> (int, int) {
        match self {
            Direction::Up => (0, -1),
            Direction::Down => (0, 1),
            Direction::Left => (-1, 0),
            Direction::Right => (1, 0),
        }
    }

    /// The `(dx, dy)` offset of one step in this direction.
    pub fn delta(self) -> (d: (i32, i32))
        ensures
            d.0 == self.spec_delta().0,
            d.1 == self.spec_delta().1,
    {
        match self {
            Direction::Up => (0, -1),
            Direction::Down => (0, 1),
            Direction::Left => (-1, 0),
            Direction::Right => (1, 0),
        }
    }
}

/// The kind of an entity.
#[derive(Debug, Clone, Copy, PartialEq, Eq, Structural)]
pub enum EntityType {
    Player,
    Tree,
}

impl EntityType {
    /// Whether an entity of this kind hides what lies behind it.
    pub open spec fn spec_blocks_sight(&self) -> bool {
        *self == EntityType::Tree
    }

    /// Whether an entity of this kind hides what lies behind it.
    pub fn blocks_sight(&self) -> (b: bool)
        ensures
            b == self.spec_blocks_sight(),
    {
        match self {
            EntityType::Player => false,
            EntityType::Tree => true,
        }
    }
}

/// What an entity is, with its name as a sequence of characters.
pub struct EntityView {
    pub position: Point,
    pub name: Option<Seq<char>>,
    pub entity_type: EntityType,
}

/// An entity of the world.
#[derive(Debug, PartialEq, Eq)]
pub struct Entity {
    pub position: Point,
    pub name: Option<String>,
    pub entity_type: EntityType,
}

impl View for Entity {
    type V = EntityView;

    open spec fn view(&self) -> EntityView {
        EntityView {
            position: self.position,
            name: match self.name {
                Some(n) => Some(n@),
                None => None,
            },
            entity_type: self.entity_type,
        }
    }
}

impl Clone for Entity {
    fn clone(&self) -> (e: Self)
        ensures
            e == *self,
    {
        let name = match &self.name {
            Some(n) => Some(n.clone()),
            None => None,
        };
        Entity { position: self.position, name, entity_type: self.entity_type }
    }
}

/// The entities of `m` as mathematical values.
spec fn views_of(m: Map<u32, Entity>) -> Map<u32, EntityView> {
    m.map_values(|e: Entity| e@)
}

/// The entities of a world, each under its identifier.
#[derive(Debug, PartialEq, Eq)]
pub struct EntityMap {
    inner: IdMap<Entity>,
}

impl View for EntityMap {
    type V = Map<u32, EntityView>;

    closed spec fn view(&self) -> Map<u32, EntityView> {
        views_of(self.inner@)
    }
}

impl EntityMap {
    /// A map without entities.
    pub fn new() -> (m: Self)
        ensures
            m@ == Map::<u32, EntityView>::empty(),
    {
        let inner = IdMap::<Entity>::new();
        assert(views_of(inner@) =~= Map::<u32, EntityView>::empty());
        EntityMap { inner }
    }

    /// Puts `entity` under `id`, in place of what was there, which is returned.
    pub fn insert(&mut self, id: EntityID, entity: Entity) -> (prev: Option<Entity>)
        ensures
            final(self)@ == old(self)@.insert(id.0, entity@),
            match prev {
                Some(e) => old(self)@.contains_key(id.0) && e@ == old(self)@[id.0],
                None => !old(self)@.contains_key(id.0),
            },
    {
        let prev = self.inner.insert(id.0, entity);
        assert(views_of(self.inner@) =~= views_of(old(self).inner@).insert(id.0, entity@));
        prev
    }

    /// The entity under `id`, if there is one.
    pub fn get(&self, id: &EntityID) -> (found: Option<&Entity>)
        ensures
            match found {
                Some(e) => self@.contains_key(id.0) && e@ == self@[id.0],
                None => !self@.contains_key(id.0),
            },
    {
        self.inner.get(id.0)
    }

    /// The entity under `id`, to be changed in place, if there is one.
    pub fn get_mut(&mut self, id: &EntityID) -> (found: Option<&mut Entity>)
        ensures
            match found {
                Some(e) => old(self)@.contains_key(id.0) && e@ == old(self)@[id.0] && final(self)@
                    == old(self)@.insert(id.0, (*final(e))@),
                None => !old(self)@.contains_key(id.0) && final(self)@ == old(self)@,
            },
    {
        proof {
            assert forall|m: Map<u32, Entity>, k: u32, e: Entity| #[trigger]
                views_of(m.insert(k, e)) == views_of(m).insert(k, e@) by {
                assert(views_of(m.insert(k, e)) =~= views_of(m).insert(k, e@));
            }
        }
        self.inner.get_mut(id.0)
    }

    /// Whether there is an entity under `id`.
    pub fn contains_key(&self, id: &EntityID) -> (b: bool)
        ensures
            b == self@.contains_key(id.0),
    {
        self.inner.contains_key(id.0)
    }

    /// The number of entities.
    pub fn len(&self) -> (n: usize)
        ensures
            n == self@.len(),
    {
        proof {
            assert(self@.dom() =~= self.inner@.dom());
        }
        self.inner.len()
    }

    /// Whether the map holds no entity.
    pub fn is_empty(&self) -> (b: bool)
        ensures
            b == (self@.len() == 0),
    {
        self.len() == 0
    }

    /// The identifiers of all entities, each once, in no particular order.
    pub fn ids(&self) -> (ids: Vec<EntityID>)
        ensures
            ids@.no_duplicates(),
            forall|id: EntityID| ids@.contains(id) <==> self@.contains_key(id.0),
    {
        let keys = self.inner.keys();
        let mut ids: Vec<EntityID> = Vec::new();
        let mut i: usize = 0;
        while i < keys.len()
            invariant
                i <= keys.len(),
                ids.len() == i,
                forall|j: int| 0 <= j < i ==> (#[trigger] ids[j]).0 == keys[j],
            decreases keys.len() - i,
        {
            ids.push(EntityID(keys[i]));
            i += 1;
        }
        proof {
            assert(self@.dom() =~= self.inner@.dom());
            assert forall|id: EntityID| ids@.contains(id) <==> self@.contains_key(id.0) by {
                if ids@.contains(id) {
                    let j = choose|j: int| 0 <= j < ids.len() && ids[j] == id;
                    assert(keys@.contains(keys[j]));
                }
                if self@.contains_key(id.0) {
                    assert(keys@.contains(id.0));
                    let j = choose|j: int| 0 <= j < keys.len() && keys[j] == id.0;
                    assert(ids[j] == id);
                }
            }
        }
        ids
    }
}

impl Clone for EntityMap {
    fn clone(&self) -> (m: Self)
        ensures
            m@ == self@,
    {
        EntityMap { inner: self.inner.clone() }
    }
}

impl Default for EntityMap {
    fn default() -> (m: Self)
        ensures
            m@ == Map::<u32, EntityView>::empty(),
    {
        EntityMap::new()
    }
}

} // verus!
