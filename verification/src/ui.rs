//! What the rendering layer reads: which entity stands on a cell, and which
//! kind of glyph the cell gets. Colours and sizes are the renderer's own.

use crate::ecs::{EntityID, EntityMap, EntityType, EntityView, Point};
use crate::fx::CellMap;
use vstd::prelude::*;

verus! {

/// For each cell on which an entity stands, one entity that stands there.
#[derive(Debug, PartialEq, Eq)]
pub struct SpatialIndex {
    cells: CellMap,
}

impl View for SpatialIndex {
    type V = Map<(i32, i32), u32>;

    closed spec fn view(&self) -> Map<(i32, i32), u32> {
        self.cells@
    }
}

/// Whether entity `id` of `entities` stands on `cell`.
pub open spec fn stands_on(entities: Map<u32, EntityView>, id: u32, cell: (i32, i32)) -> bool {
    entities.contains_key(id) && entities[id].position == (Point { x: cell.0, y: cell.1 })
}

/// Whether `index` is an index of `entities`: it knows exactly the cells
/// on which an entity stands, and names for each an entity that stands
/// there. Where several share a cell, which of them is named is left open.
pub open spec fn indexes(index: Map<(i32, i32), u32>, entities: Map<u32, EntityView>) -> bool {
    &&& forall|cell: (i32, i32)| #[trigger]
        index.contains_key(cell) ==> stands_on(entities, index[cell], cell)
    &&& forall|id: u32| #[trigger]
        entities.contains_key(id) ==> index.contains_key(
            (entities[id].position.x, entities[id].position.y),
        )
}

/// What a cell shows.
#[derive(Debug, Clone, Copy, PartialEq, Eq, Structural)]
pub enum GlyphKind {
    /// A player stands on the cell.
    Player,
    /// A tree stands on the cell.
    Tree,
    /// Nothing stands on the cell.
    Floor,
}

/// The kind that a cell shows when an entity of type `on_cell` stands on it,
/// or none does.
pub open spec fn glyph_kind_of(on_cell: Option<EntityType>) -> GlyphKind {
    match on_cell {
        Some(EntityType::Player) => GlyphKind::Player,
        Some(EntityType::Tree) => GlyphKind::Tree,
        None => GlyphKind::Floor,
    }
}

/// An index of `entities` by the cells on which they stand.
pub fn build_spatial_index(entities: &EntityMap) -> (index: SpatialIndex)
    ensures
        indexes(index@, entities@),
{
    let ids = entities.ids();
    let mut cells = CellMap::new();
    let mut i: usize = 0;
    while i < ids.len()
        invariant
            i <= ids.len(),
            forall|id: EntityID| ids@.contains(id) <==> entities@.contains_key(id.0),
            forall|cell: (i32, i32)| #[trigger]
                cells@.contains_key(cell) ==> stands_on(entities@, cells@[cell], cell),
            forall|j: int|
                0 <= j < i ==> cells@.contains_key(
                    (
                        entities@[(#[trigger] ids@[j]).0].position.x,
                        entities@[ids@[j].0].position.y,
                    ),
                ),
        decreases ids.len() - i,
    {
        let id = ids[i];
        assert(ids@.contains(id));
        match entities.get(&id) {
            Some(e) => {
                cells.insert((e.position.x, e.position.y), id.0);
            },
            None => {},
        }
        i += 1;
    }
    proof {
        assert forall|id: u32| #[trigger] entities@.contains_key(id) implies cells@.contains_key(
            (entities@[id].position.x, entities@[id].position.y),
        ) by {
            assert(ids@.contains(EntityID(id)));
            let j = choose|j: int| 0 <= j < ids@.len() && ids@[j] == EntityID(id);
            assert(ids@[j].0 == id);
        }
    }
    SpatialIndex { cells }
}

impl SpatialIndex {
    /// The entity that the index names for `point`, if any stands there.
    pub fn entity_at(&self, point: &Point) -> (found: Option<EntityID>)
        ensures
            match found {
                Some(id) => self@.contains_key((point.x, point.y)) && id.0 == self@[(
                    point.x,
                    point.y,
                )],
                None => !self@.contains_key((point.x, point.y)),
            },
    {
        match self.cells.get(&(point.x, point.y)) {
            Some(id) => Some(EntityID(id)),
            None => None,
        }
    }
}

/// The entity whose kind the cell `cell` shows: the one that `index` names
/// for it, if `entities` holds it.
pub open spec fn shown_on(
    index: Map<(i32, i32), u32>,
    entities: Map<u32, EntityView>,
    cell: (i32, i32),
) -> Option<EntityType> {
    if index.contains_key(cell) && entities.contains_key(index[cell]) {
        Some(entities[index[cell]].entity_type)
    } else {
        None
    }
}

/// What the cell `point` shows: the kind of the entity that `index` names
/// for it, or the floor. With an index of `entities`, the floor shows
/// exactly where no entity stands.
pub fn glyph_kind_at(index: &SpatialIndex, entities: &EntityMap, point: &Point) -> (kind: GlyphKind)
    ensures
        kind == glyph_kind_of(shown_on(index@, entities@, (point.x, point.y))),
        indexes(index@, entities@) ==> (kind == GlyphKind::Floor <==> forall|id: u32|
            !stands_on(entities@, id, (point.x, point.y))),
{
    let found = match index.entity_at(point) {
        Some(id) => entities.get(&id),
        None => None,
    };
    proof {
        if indexes(index@, entities@) {
            if index@.contains_key((point.x, point.y)) {
                assert(stands_on(entities@, index@[(point.x, point.y)], (point.x, point.y)));
            } else {
                assert forall|id: u32| !stands_on(entities@, id, (point.x, point.y)) by {
                    if entities@.contains_key(id) {
                        assert(index@.contains_key(
                            (entities@[id].position.x, entities@[id].position.y),
                        ));
                    }
                }
            }
        }
    }
    match found {
        Some(e) => match e.entity_type {
            EntityType::Player => GlyphKind::Player,
            EntityType::Tree => GlyphKind::Tree,
        },
        None => GlyphKind::Floor,
    }
}

} // verus!
