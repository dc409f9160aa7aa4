//! The spatial index: a uniform grid over the entities of a world.
//!
//! Every entity is a circle or a segment with a tag. The grid maps a cell to
//! the ids of the entities whose bounding box covers it, so a query only has
//! to look at the entities of the cells it touches.
//!
//! Positions and sizes are single-precision bit patterns. Turning them into
//! cells takes a division and a rounding, which the caller does: each entity
//! comes with its [`Placement`], the cells and the box that the caller
//! derived from its position and shape. What the index guarantees is stated
//! over those: a cell lists an entity exactly when the entity's cover holds
//! the cell.
use crate::id_list::{
    lemma_push_contains, lemma_push_keeps_distinct, lemma_take_step, list_remove,
};
use crate::single::{le, less, less_eq, lt, ZERO};
use std::collections::hash_map::DefaultHasher;
use std::collections::{HashMap, HashSet};
use std::hash::Hasher;
use vstd::prelude::*;
use vstd::std_specs::hash::DefaultHasherAdditionalSpecFns;
use vstd::string::StringSliceAdditionalSpecFns;

verus! {

broadcast use vstd::std_specs::hash::group_hash_axioms;

// ---------------------------------------------------------------------------
// Cells
// ---------------------------------------------------------------------------

/// A block of grid cells, both corners included. A block whose minimum lies
/// beyond its maximum on either axis holds no cell.
#[derive(Clone, Copy, Debug, PartialEq, Eq, Structural)]
pub struct CellRect {
    pub min_x: i32,
    pub min_y: i32,
    pub max_x: i32,
    pub max_y: i32,
}

impl CellRect {
    /// Whether the block holds the cell `(x, y)`.
    pub open spec fn contains(self, x: i32, y: i32) -> bool {
        self.min_x <= x <= self.max_x && self.min_y <= y <= self.max_y
    }

    /// Whether two blocks have a cell in common.
    pub open spec fn overlaps(self, other: CellRect) -> bool {
        &&& self.min_x <= self.max_x && self.min_y <= self.max_y
        &&& other.min_x <= other.max_x && other.min_y <= other.max_y
        &&& self.min_x <= other.max_x && other.min_x <= self.max_x
        &&& self.min_y <= other.max_y && other.min_y <= self.max_y
    }

    /// The block of the cells next to `(x, y)`, itself included: three by
    /// three, less what would fall off the grid.
    pub open spec fn around(x: i32, y: i32) -> CellRect {
        CellRect {
            min_x: if x == i32::MIN { x } else { (x - 1) as i32 },
            min_y: if y == i32::MIN { y } else { (y - 1) as i32 },
            max_x: if x == i32::MAX { x } else { (x + 1) as i32 },
            max_y: if y == i32::MAX { y } else { (y + 1) as i32 },
        }
    }

    /// The block of the cells next to `(x, y)`.
    pub fn neighbourhood(x: i32, y: i32) -> (r: CellRect)
        ensures
            r == CellRect::around(x, y),
    {
        CellRect {
            min_x: if x == i32::MIN { x } else { x - 1 },
            min_y: if y == i32::MIN { y } else { y - 1 },
            max_x: if x == i32::MAX { x } else { x + 1 },
            max_y: if y == i32::MAX { y } else { y + 1 },
        }
    }

    /// Every cell of the block, once each.
    pub fn cells(&self) -> (r: Vec<(i32, i32)>)
        ensures
            r@.no_duplicates(),
            forall|x: i32, y: i32| #[trigger] r@.contains((x, y)) <==> self.contains(x, y),
    {
        let mut out: Vec<(i32, i32)> = Vec::new();
        let mut x: i64 = self.min_x as i64;
        while x <= self.max_x as i64
            invariant
                self.min_x <= x,
                x <= self.max_x + 1 || x == self.min_x,
                out@.no_duplicates(),
                forall|a: i32, b: i32| #[trigger]
                    out@.contains((a, b)) <==> self.contains(a, b) && a < x,
            decreases self.max_x + 1 - x,
        {
            let mut y: i64 = self.min_y as i64;
            while y <= self.max_y as i64
                invariant
                    self.min_x <= x <= self.max_x,
                    self.min_y <= y,
                    y <= self.max_y + 1 || y == self.min_y,
                    out@.no_duplicates(),
                    forall|a: i32, b: i32| #[trigger]
                        out@.contains((a, b)) <==> self.contains(a, b) && (a < x || (a == x && b
                            < y)),
                decreases self.max_y + 1 - y,
            {
                let cell: (i32, i32) = (x as i32, y as i32);
                proof {
                    let before = out@;
                    assert(!before.contains(cell));
                    assert forall|a: i32, b: i32| #[trigger]
                        before.push(cell).contains((a, b)) <==> self.contains(a, b) && (a < x || (a
                            == x && b < y + 1)) by {
                        if before.push(cell).contains((a, b)) {
                            let i = choose|i: int|
                                0 <= i < before.push(cell).len() && before.push(cell)[i] == (a, b);
                            if i < before.len() {
                                assert(before.contains((a, b)));
                            }
                        }
                        if self.contains(a, b) && (a < x || (a == x && b < y + 1)) {
                            if a == x && b == y {
                                assert(before.push(cell)[before.len() as int] == (a, b));
                            } else {
                                assert(before.contains((a, b)));
                                let i = choose|i: int| 0 <= i < before.len() && before[i] == (a, b);
                                assert(before.push(cell)[i] == (a, b));
                            }
                        }
                    }
                    lemma_push_keeps_distinct(before, cell);
                }
                out.push(cell);
                y += 1;
            }
            x += 1;
        }
        out
    }
}

/// The key under which the grid files the cell `(x, y)`: the two
/// coordinates, each moved into the unsigned range, side by side.
pub open spec fn cell_key(x: i32, y: i32) -> u64 {
    ((x + 0x8000_0000) * 0x1_0000_0000 + (y + 0x8000_0000)) as u64
}

/// Different cells have different keys.
pub proof fn lemma_cell_key_injective(x1: i32, y1: i32, x2: i32, y2: i32)
    requires
        cell_key(x1, y1) == cell_key(x2, y2),
    ensures
        x1 == x2,
        y1 == y2,
{
    let a1 = x1 + 0x8000_0000;
    let b1 = y1 + 0x8000_0000;
    let a2 = x2 + 0x8000_0000;
    let b2 = y2 + 0x8000_0000;
    let k = a1 * 0x1_0000_0000 + b1;
    assert(k == a2 * 0x1_0000_0000 + b2);
    vstd::arithmetic::div_mod::lemma_fundamental_div_mod_converse(k, 0x1_0000_0000, a1, b1);
    vstd::arithmetic::div_mod::lemma_fundamental_div_mod_converse(k, 0x1_0000_0000, a2, b2);
}

fn key_of(x: i32, y: i32) -> (k: u64)
    ensures
        k == cell_key(x, y),
{
    let a: u64 = (x as i64 + 0x8000_0000) as u64;
    let b: u64 = (y as i64 + 0x8000_0000) as u64;
    a * 0x1_0000_0000 + b
}

// ---------------------------------------------------------------------------
// Tags
// ---------------------------------------------------------------------------

/// The hash under which a tag is filed and looked up: the standard library's
/// default hasher, started afresh and fed the tag's UTF-8 bytes in one piece.
pub open spec fn tag_hash(tag: Seq<u8>) -> u64 {
    DefaultHasher::spec_finish(seq![tag])
}

/// The hash of a tag.
pub fn calculate_hash(tag: &str) -> (h: u64)
    ensures
        h == tag_hash(tag.spec_bytes()),
{
    let mut s = DefaultHasher::new();
    s.write(tag.as_bytes());
    assert(s@ =~= seq![tag.spec_bytes()]);
    s.finish()
}

/// The hash that a query asks for, where it asks for one.
pub open spec fn wanted_hash(tag_filter: Option<&str>) -> Option<u64> {
    match tag_filter {
        Some(tag) => Some(tag_hash(tag.spec_bytes())),
        None => None,
    }
}

fn hash_of_filter(tag_filter: Option<&str>) -> (h: Option<u64>)
    ensures
        h == wanted_hash(tag_filter),
{
    match tag_filter {
        Some(tag) => Some(calculate_hash(tag)),
        None => None,
    }
}

// ---------------------------------------------------------------------------
// Entities
// ---------------------------------------------------------------------------

/// What an entity is, apart from where it is. A segment runs from the
/// entity's position to `(x2, y2)`.
#[derive(Clone, Copy, Debug, PartialEq, Eq, Structural)]
pub enum EntityKind {
    Circle { radius: u32 },
    Segment { x2: u32, y2: u32 },
}

/// An axis-aligned box, as four single-precision bit patterns.
#[derive(Clone, Copy, Debug, PartialEq, Eq, Structural)]
pub struct Aabb {
    pub min_x: u32,
    pub min_y: u32,
    pub max_x: u32,
    pub max_y: u32,
}

impl Aabb {
    /// Whether two boxes touch or overlap: on each axis, neither begins
    /// behind the end of the other.
    pub open spec fn meets(self, other: Aabb) -> bool {
        &&& le(other.min_x, self.max_x)
        &&& le(self.min_x, other.max_x)
        &&& le(other.min_y, self.max_y)
        &&& le(self.min_y, other.max_y)
    }

    /// Whether two boxes touch or overlap.
    pub fn intersects(&self, other: &Aabb) -> (r: bool)
        ensures
            r == self.meets(*other),
    {
        less_eq(other.min_x, self.max_x) && less_eq(self.min_x, other.max_x) && less_eq(
            other.min_y,
            self.max_y,
        ) && less_eq(self.min_y, other.max_y)
    }
}

/// Where the caller found an entity to lie: the cells that its bounding box
/// covers, and the box itself.
#[derive(Clone, Copy, Debug, PartialEq, Eq, Structural)]
pub struct Placement {
    pub cover: CellRect,
    pub bounds: Aabb,
}

/// One entity of the index.
#[derive(Clone, Copy, Debug, PartialEq, Eq, Structural)]
pub struct Entity {
    pub id: u64,
    pub x: u32,
    pub y: u32,
    pub kind: EntityKind,
    pub tag_hash: u64,
    pub place: Placement,
}

impl Entity {
    /// The entity after a move to `(x, y)`: a circle keeps its radius, a
    /// segment ends at `(end_x, end_y)`, and the placement is the new one.
    pub open spec fn moved(self, x: u32, y: u32, end_x: u32, end_y: u32, place: Placement) -> Entity {
        Entity {
            id: self.id,
            x,
            y,
            kind: match self.kind {
                EntityKind::Circle { radius } => EntityKind::Circle { radius },
                EntityKind::Segment { .. } => EntityKind::Segment { x2: end_x, y2: end_y },
            },
            tag_hash: self.tag_hash,
            place,
        }
    }

    /// Whether a query with this tag filter and this window takes the entity.
    pub open spec fn passes(self, wanted: Option<u64>, window: Option<Aabb>) -> bool {
        &&& match wanted {
            Some(h) => self.tag_hash == h,
            None => true,
        }
        &&& match window {
            Some(w) => self.place.bounds.meets(w),
            None => true,
        }
    }
}

// ---------------------------------------------------------------------------
// The index
// ---------------------------------------------------------------------------

/// The entities of a world and the grid over them.
pub struct SpatialDb {
    next_id: u64,
    cell_size: u32,
    entities: HashMap<u64, Entity>,
    grid: HashMap<u64, Vec<u64>>,
}

impl SpatialDb {
    /// The entities held, by id.
    pub closed spec fn entities(&self) -> Map<u64, Entity> {
        self.entities@
    }

    /// The id that the next entity will get.
    pub closed spec fn next_id(&self) -> u64 {
        self.next_id
    }

    /// The edge length of a cell, as given at construction.
    pub closed spec fn cell_size_bits(&self) -> u32 {
        self.cell_size
    }

    /// The ids that the grid lists under the cell `(x, y)`.
    pub closed spec fn cell(&self, x: i32, y: i32) -> Seq<u64> {
        if self.grid@.contains_key(cell_key(x, y)) {
            self.grid@[cell_key(x, y)]@
        } else {
            Seq::<u64>::empty()
        }
    }

    /// A cell lists an id exactly when an entity of that id is held and its
    /// cover holds the cell.
    pub open spec fn grid_matches_covers(&self) -> bool {
        forall|id: u64, x: i32, y: i32| #[trigger]
            self.cell(x, y).contains(id) <==> self.entities().contains_key(id)
                && self.entities()[id].place.cover.contains(x, y)
    }

    /// No cell lists an id twice.
    pub open spec fn cells_hold_distinct_ids(&self) -> bool {
        forall|x: i32, y: i32| #[trigger] self.cell(x, y).no_duplicates()
    }

    /// Every entity is filed under its own id, and every id in use was
    /// handed out before.
    pub open spec fn ids_are_allocated(&self) -> bool {
        forall|id: u64| #[trigger]
            self.entities().contains_key(id) ==> self.entities()[id].id == id && 1 <= id
                < self.next_id()
    }

    /// The invariant of the index.
    pub open spec fn wf(&self) -> bool {
        &&& self.grid_matches_covers()
        &&& self.cells_hold_distinct_ids()
        &&& self.ids_are_allocated()
        &&& self.next_id() >= 1
    }

    /// Whether the entities, the next id and the cell size are those of
    /// `other`.
    spec fn same_entities(&self, other: &SpatialDb) -> bool {
        &&& self.entities() == other.entities()
        &&& self.next_id() == other.next_id()
        &&& self.cell_size_bits() == other.cell_size_bits()
    }

    /// An empty index over cells of the given edge length. The first id
    /// handed out is 1.
    pub fn new(cell_size: u32) -> (r: Self)
        ensures
            r.wf(),
            r.entities() == Map::<u64, Entity>::empty(),
            r.next_id() == 1,
            r.cell_size_bits() == cell_size,
            forall|x: i32, y: i32| #[trigger] r.cell(x, y) == Seq::<u64>::empty(),
    {
        SpatialDb { next_id: 1, cell_size, entities: HashMap::new(), grid: HashMap::new() }
    }

    /// The edge length of a cell.
    pub fn cell_size(&self) -> (r: u32)
        ensures
            r == self.cell_size_bits(),
    {
        self.cell_size
    }

    fn cell_list(&self, x: i32, y: i32) -> (r: Option<&Vec<u64>>)
        ensures
            match r {
                Some(l) => l@ == self.cell(x, y),
                None => self.cell(x, y) == Seq::<u64>::empty(),
            },
    {
        let key = key_of(x, y);
        self.grid.get(&key)
    }

    fn add_to_cell(&mut self, x: i32, y: i32, id: u64)
        ensures
            final(self).same_entities(old(self)),
            final(self).cell(x, y) == old(self).cell(x, y).push(id),
            forall|a: i32, b: i32|
                (a, b) != (x, y) ==> #[trigger] final(self).cell(a, b) == old(self).cell(a, b),
    {
        let key = key_of(x, y);
        let mut list: Vec<u64> = match self.grid.remove(&key) {
            Some(l) => l,
            None => Vec::new(),
        };
        list.push(id);
        self.grid.insert(key, list);
        proof {
            assert forall|a: i32, b: i32| (a, b) != (x, y) implies #[trigger] self.cell(a, b)
                == old(self).cell(a, b) by {
                if cell_key(a, b) == key {
                    lemma_cell_key_injective(a, b, x, y);
                }
            }
        }
    }

    fn remove_from_cell(&mut self, x: i32, y: i32, id: u64)
        requires
            old(self).cell(x, y).no_duplicates(),
        ensures
            final(self).same_entities(old(self)),
            final(self).cell(x, y).no_duplicates(),
            forall|j: u64| #[trigger]
                final(self).cell(x, y).contains(j) <==> old(self).cell(x, y).contains(j) && j
                    != id,
            forall|a: i32, b: i32|
                (a, b) != (x, y) ==> #[trigger] final(self).cell(a, b) == old(self).cell(a, b),
    {
        let key = key_of(x, y);
        match self.grid.remove(&key) {
            Some(l) => {
                let mut list = l;
                list_remove(&mut list, id);
                self.grid.insert(key, list);
            },
            None => {},
        }
        proof {
            assert forall|a: i32, b: i32| (a, b) != (x, y) implies #[trigger] self.cell(a, b)
                == old(self).cell(a, b) by {
                if cell_key(a, b) == key {
                    lemma_cell_key_injective(a, b, x, y);
                }
            }
        }
    }

    /// Lists `id` under every cell of `cover`.
    fn add_to_grid(&mut self, id: u64, cover: CellRect)
        ensures
            final(self).same_entities(old(self)),
            forall|x: i32, y: i32| #[trigger]
                final(self).cell(x, y) == (if cover.contains(x, y) {
                    old(self).cell(x, y).push(id)
                } else {
                    old(self).cell(x, y)
                }),
    {
        let cells = cover.cells();
        let mut k: usize = 0;
        while k < cells.len()
            invariant
                k <= cells@.len(),
                cells@.no_duplicates(),
                forall|x: i32, y: i32| #[trigger] cells@.contains((x, y)) <==> cover.contains(x, y),
                self.same_entities(old(self)),
                forall|x: i32, y: i32| #[trigger]
                    self.cell(x, y) == (if cells@.take(k as int).contains((x, y)) {
                        old(self).cell(x, y).push(id)
                    } else {
                        old(self).cell(x, y)
                    }),
            decreases cells@.len() - k,
        {
            let cx: i32 = cells[k].0;
            let cy: i32 = cells[k].1;
            let ghost before = *self;
            self.add_to_cell(cx, cy, id);
            proof {
                assert forall|x: i32, y: i32| #[trigger]
                    self.cell(x, y) == (if cells@.take(k + 1).contains((x, y)) {
                        old(self).cell(x, y).push(id)
                    } else {
                        old(self).cell(x, y)
                    }) by {
                    lemma_take_step(cells@, k as int, (x, y));
                    if (x, y) == (cx, cy) {
                        assert(before.cell(x, y) == old(self).cell(x, y));
                    } else {
                        assert(self.cell(x, y) == before.cell(x, y));
                    }
                }
            }
            k += 1;
        }
        proof {
            assert(cells@.take(k as int) =~= cells@);
        }
    }

    /// Strikes `id` from every cell of `cover`.
    fn remove_from_grid(&mut self, id: u64, cover: CellRect)
        requires
            old(self).cells_hold_distinct_ids(),
        ensures
            final(self).same_entities(old(self)),
            final(self).cells_hold_distinct_ids(),
            forall|j: u64, x: i32, y: i32| #[trigger]
                final(self).cell(x, y).contains(j) <==> old(self).cell(x, y).contains(j) && !(j
                    == id && cover.contains(x, y)),
    {
        let cells = cover.cells();
        let mut k: usize = 0;
        while k < cells.len()
            invariant
                k <= cells@.len(),
                forall|x: i32, y: i32| #[trigger] cells@.contains((x, y)) <==> cover.contains(x, y),
                self.same_entities(old(self)),
                self.cells_hold_distinct_ids(),
                forall|j: u64, x: i32, y: i32| #[trigger]
                    self.cell(x, y).contains(j) <==> old(self).cell(x, y).contains(j) && !(j == id
                        && cells@.take(k as int).contains((x, y))),
            decreases cells@.len() - k,
        {
            let cx: i32 = cells[k].0;
            let cy: i32 = cells[k].1;
            let ghost before = *self;
            assert(self.cell(cx, cy).no_duplicates());
            self.remove_from_cell(cx, cy, id);
            proof {
                assert forall|x: i32, y: i32| #[trigger] self.cell(x, y).no_duplicates() by {
                    if (x, y) != (cx, cy) {
                        assert(self.cell(x, y) == before.cell(x, y));
                        assert(before.cell(x, y).no_duplicates());
                    }
                }
                assert forall|j: u64, x: i32, y: i32| #[trigger]
                    self.cell(x, y).contains(j) <==> old(self).cell(x, y).contains(j) && !(j == id
                        && cells@.take(k + 1).contains((x, y))) by {
                    lemma_take_step(cells@, k as int, (x, y));
                    assert(before.cell(x, y).contains(j) <==> old(self).cell(x, y).contains(j)
                        && !(j == id && cells@.take(k as int).contains((x, y))));
                    if (x, y) != (cx, cy) {
                        assert(self.cell(x, y) == before.cell(x, y));
                    }
                }
            }
            k += 1;
        }
        proof {
            assert(cells@.take(k as int) =~= cells@);
        }
    }

    /// Files a new entity under the next id and lists it in its cells.
    fn register(&mut self, x: u32, y: u32, kind: EntityKind, tag: &str, place: Placement) -> (id:
        u64)
        requires
            old(self).wf(),
            old(self).next_id() < u64::MAX,
        ensures
            final(self).wf(),
            id == old(self).next_id(),
            final(self).next_id() == id + 1,
            final(self).cell_size_bits() == old(self).cell_size_bits(),
            final(self).entities() == old(self).entities().insert(
                id,
                Entity { id, x, y, kind, tag_hash: tag_hash(tag.spec_bytes()), place },
            ),
    {
        let id: u64 = self.next_id;
        self.next_id = self.next_id + 1;
        let e = Entity { id, x, y, kind, tag_hash: calculate_hash(tag), place };
        self.entities.insert(id, e);
        let ghost before = *self;
        assert forall|a: i32, b: i32| #[trigger] before.cell(a, b) == old(self).cell(a, b) by {}
        self.add_to_grid(id, place.cover);
        proof {
            assert forall|j: u64, a: i32, b: i32| #[trigger]
                self.cell(a, b).contains(j) <==> self.entities().contains_key(j)
                    && self.entities()[j].place.cover.contains(a, b) by {
                lemma_push_contains(old(self).cell(a, b), id, j);
                assert(old(self).cell(a, b).contains(j) <==> old(self).entities().contains_key(j)
                    && old(self).entities()[j].place.cover.contains(a, b));
            }
            assert forall|a: i32, b: i32| #[trigger] self.cell(a, b).no_duplicates() by {
                assert(old(self).cell(a, b).no_duplicates());
                assert(!old(self).cell(a, b).contains(id));
                lemma_push_keeps_distinct(old(self).cell(a, b), id);
            }
        }
        id
    }

    /// Adds a circle of the given radius around `(x, y)` and returns its id.
    pub fn add_circle(&mut self, x: u32, y: u32, radius: u32, tag: &str, place: Placement) -> (id:
        u64)
        requires
            old(self).wf(),
            old(self).next_id() < u64::MAX,
        ensures
            final(self).wf(),
            id == old(self).next_id(),
            final(self).next_id() == id + 1,
            final(self).cell_size_bits() == old(self).cell_size_bits(),
            final(self).entities() == old(self).entities().insert(
                id,
                Entity {
                    id,
                    x,
                    y,
                    kind: EntityKind::Circle { radius },
                    tag_hash: tag_hash(tag.spec_bytes()),
                    place,
                },
            ),
    {
        self.register(x, y, EntityKind::Circle { radius }, tag, place)
    }

    /// Adds a segment from `(x1, y1)` to `(x2, y2)` and returns its id.
    pub fn add_segment(
        &mut self,
        x1: u32,
        y1: u32,
        x2: u32,
        y2: u32,
        tag: &str,
        place: Placement,
    ) -> (id: u64)
        requires
            old(self).wf(),
            old(self).next_id() < u64::MAX,
        ensures
            final(self).wf(),
            id == old(self).next_id(),
            final(self).next_id() == id + 1,
            final(self).cell_size_bits() == old(self).cell_size_bits(),
            final(self).entities() == old(self).entities().insert(
                id,
                Entity {
                    id,
                    x: x1,
                    y: y1,
                    kind: EntityKind::Segment { x2, y2 },
                    tag_hash: tag_hash(tag.spec_bytes()),
                    place,
                },
            ),
    {
        self.register(x1, y1, EntityKind::Segment { x2, y2 }, tag, place)
    }

    /// Whether another entity can still be added: the test to make before
    /// `add_circle` and `add_segment`.
    pub fn has_free_id(&self) -> (b: bool)
        ensures
            b == (self.next_id() < u64::MAX),
    {
        self.next_id < u64::MAX
    }

    /// The entity of the given id, if it is held.
    pub fn get_entity(&self, id: u64) -> (r: Option<Entity>)
        ensures
            match r {
                Some(e) => self.entities().contains_key(id) && e == self.entities()[id],
                None => !self.entities().contains_key(id),
            },
    {
        match self.entities.get(&id) {
            Some(e) => Some(*e),
            None => None,
        }
    }

    /// Where the entity of the given id is.
    pub fn get_position(&self, id: u64) -> (r: Option<(u32, u32)>)
        ensures
            match r {
                Some(p) => self.entities().contains_key(id) && p == (
                    self.entities()[id].x,
                    self.entities()[id].y,
                ),
                None => !self.entities().contains_key(id),
            },
    {
        match self.entities.get(&id) {
            Some(e) => Some((e.x, e.y)),
            None => None,
        }
    }

    /// Where the entity of the given id is, and what it is.
    pub fn get_entity_info(&self, id: u64) -> (r: Option<(u32, u32, EntityKind)>)
        ensures
            match r {
                Some(p) => self.entities().contains_key(id) && p == (
                    self.entities()[id].x,
                    self.entities()[id].y,
                    self.entities()[id].kind,
                ),
                None => !self.entities().contains_key(id),
            },
    {
        match self.entities.get(&id) {
            Some(e) => Some((e.x, e.y, e.kind)),
            None => None,
        }
    }

    /// Moves an entity to `(x, y)`: it leaves the cells of its old cover and
    /// enters those of the new one. A segment's far end becomes
    /// `(end_x, end_y)`; for a circle those two are ignored. An id that is
    /// not held changes nothing.
    pub fn update_position(
        &mut self,
        id: u64,
        x: u32,
        y: u32,
        end_x: u32,
        end_y: u32,
        place: Placement,
    )
        requires
            old(self).wf(),
        ensures
            final(self).wf(),
            final(self).next_id() == old(self).next_id(),
            final(self).cell_size_bits() == old(self).cell_size_bits(),
            final(self).entities() == (if old(self).entities().contains_key(id) {
                old(self).entities().insert(
                    id,
                    old(self).entities()[id].moved(x, y, end_x, end_y, place),
                )
            } else {
                old(self).entities()
            }),
    {
        let found = self.get_entity(id);
        match found {
            Some(e) => {
                self.remove_from_grid(id, e.place.cover);
                let ghost cleared = *self;
                let kind = match e.kind {
                    EntityKind::Circle { radius } => EntityKind::Circle { radius },
                    EntityKind::Segment { .. } => EntityKind::Segment { x2: end_x, y2: end_y },
                };
                let moved = Entity { id: e.id, x, y, kind, tag_hash: e.tag_hash, place };
                self.entities.insert(id, moved);
                let ghost filed = *self;
                assert forall|a: i32, b: i32| #[trigger] filed.cell(a, b) == cleared.cell(a, b) by {}
                self.add_to_grid(id, place.cover);
                proof {
                    assert forall|j: u64, a: i32, b: i32| #[trigger]
                        self.cell(a, b).contains(j) <==> self.entities().contains_key(j)
                            && self.entities()[j].place.cover.contains(a, b) by {
                        lemma_push_contains(cleared.cell(a, b), id, j);
                        assert(cleared.cell(a, b).contains(j) <==> old(self).cell(a, b).contains(j)
                            && !(j == id && e.place.cover.contains(a, b)));
                        assert(old(self).cell(a, b).contains(j) <==> old(
                            self,
                        ).entities().contains_key(j) && old(
                            self,
                        ).entities()[j].place.cover.contains(a, b));
                    }
                    assert forall|a: i32, b: i32| #[trigger] self.cell(a, b).no_duplicates() by {
                        assert(cleared.cell(a, b).no_duplicates());
                        assert(cleared.cell(a, b).contains(id) <==> old(self).cell(a, b).contains(
                            id,
                        ) && !(id == id && e.place.cover.contains(a, b)));
                        assert(old(self).cell(a, b).contains(id) <==> old(
                            self,
                        ).entities().contains_key(id) && old(
                            self,
                        ).entities()[id].place.cover.contains(a, b));
                        lemma_push_keeps_distinct(cleared.cell(a, b), id);
                    }
                }
            },
            None => {},
        }
    }

    /// Drops an entity: it leaves every cell and the index. An id that is not
    /// held changes nothing.
    pub fn remove(&mut self, id: u64)
        requires
            old(self).wf(),
        ensures
            final(self).wf(),
            final(self).next_id() == old(self).next_id(),
            final(self).cell_size_bits() == old(self).cell_size_bits(),
            final(self).entities() == old(self).entities().remove(id),
    {
        let found = self.get_entity(id);
        match found {
            Some(e) => {
                self.remove_from_grid(id, e.place.cover);
                let ghost cleared = *self;
                self.entities.remove(&id);
                proof {
                    assert forall|a: i32, b: i32| #[trigger] self.cell(a, b) == cleared.cell(
                        a,
                        b,
                    ) by {}
                    assert forall|j: u64, a: i32, b: i32| #[trigger]
                        self.cell(a, b).contains(j) <==> self.entities().contains_key(j)
                            && self.entities()[j].place.cover.contains(a, b) by {
                        assert(cleared.cell(a, b).contains(j) <==> old(self).cell(a, b).contains(j)
                            && !(j == id && e.place.cover.contains(a, b)));
                        assert(old(self).cell(a, b).contains(j) <==> old(
                            self,
                        ).entities().contains_key(j) && old(
                            self,
                        ).entities()[j].place.cover.contains(a, b));
                    }
                    assert forall|a: i32, b: i32| #[trigger] self.cell(a, b).no_duplicates() by {
                        assert(cleared.cell(a, b).no_duplicates());
                    }
                }
            },
            None => {
                assert(self.entities().remove(id) =~= self.entities());
            },
        }
    }

    /// Whether a query over the cells of `area` takes the entity of the given
    /// id: the entity is held, its cover has a cell in `area`, and it passes
    /// the tag filter and the window.
    pub open spec fn selects(
        &self,
        id: u64,
        area: CellRect,
        wanted: Option<u64>,
        window: Option<Aabb>,
    ) -> bool {
        &&& self.entities().contains_key(id)
        &&& self.entities()[id].place.cover.overlaps(area)
        &&& self.entities()[id].passes(wanted, window)
    }

    /// Whether the cell `(x, y)` lists `id` and the entity passes.
    pub open spec fn cell_offers(
        &self,
        x: i32,
        y: i32,
        id: u64,
        wanted: Option<u64>,
        window: Option<Aabb>,
    ) -> bool {
        self.cell(x, y).contains(id) && self.entities()[id].passes(wanted, window)
    }

    /// Takes from one cell every passing entity that `out` does not hold yet.
    fn gather_cell(
        &self,
        x: i32,
        y: i32,
        wanted: Option<u64>,
        window: Option<Aabb>,
        seen: &mut HashSet<u64>,
        out: &mut Vec<u64>,
    )
        requires
            self.wf(),
            old(out)@.no_duplicates(),
            forall|id: u64| old(seen)@.contains(id) <==> old(out)@.contains(id),
        ensures
            final(out)@.no_duplicates(),
            forall|id: u64| final(seen)@.contains(id) <==> final(out)@.contains(id),
            forall|id: u64| #[trigger]
                final(out)@.contains(id) <==> old(out)@.contains(id) || self.cell_offers(
                    x,
                    y,
                    id,
                    wanted,
                    window,
                ),
    {
        let found = self.cell_list(x, y);
        match found {
            Some(list) => {
                let mut j: usize = 0;
                while j < list.len()
                    invariant
                        j <= list@.len(),
                        self.wf(),
                        list@ == self.cell(x, y),
                        out@.no_duplicates(),
                        forall|id: u64| seen@.contains(id) <==> out@.contains(id),
                        forall|id: u64| #[trigger]
                            out@.contains(id) <==> old(out)@.contains(id) || (list@.take(
                                j as int,
                            ).contains(id) && self.entities()[id].passes(wanted, window)),
                    decreases list@.len() - j,
                {
                    let id: u64 = list[j];
                    let ghost before = out@;
                    let mut taken: bool = false;
                    assert(self.cell(x, y).contains(id));
                    if !seen.contains(&id) {
                        match self.entities.get(&id) {
                            Some(e) => {
                                if entity_passes(e, wanted, window) {
                                    seen.insert(id);
                                    out.push(id);
                                    taken = true;
                                    proof {
                                        lemma_push_keeps_distinct(before, id);
                                    }
                                }
                            },
                            None => {},
                        }
                    }
                    proof {
                        assert forall|i: u64| #[trigger]
                            out@.contains(i) <==> old(out)@.contains(i) || (list@.take(
                                j + 1,
                            ).contains(i) && self.entities()[i].passes(wanted, window)) by {
                            lemma_take_step(list@, j as int, i);
                            if taken {
                                lemma_push_contains(before, id, i);
                            }
                        }
                        assert forall|i: u64| seen@.contains(i) <==> out@.contains(i) by {
                            if taken {
                                lemma_push_contains(before, id, i);
                            }
                        }
                    }
                    j += 1;
                }
                proof {
                    assert(list@.take(j as int) =~= list@);
                }
            },
            None => {
                assert forall|id: u64| !self.cell(x, y).contains(id) by {}
            },
        }
    }

    /// Takes from the cells of `area` every selected entity that `out` does
    /// not hold yet.
    fn gather(
        &self,
        area: CellRect,
        wanted: Option<u64>,
        window: Option<Aabb>,
        seen: &mut HashSet<u64>,
        out: &mut Vec<u64>,
    )
        requires
            self.wf(),
            old(out)@.no_duplicates(),
            forall|id: u64| old(seen)@.contains(id) <==> old(out)@.contains(id),
        ensures
            final(out)@.no_duplicates(),
            forall|id: u64| final(seen)@.contains(id) <==> final(out)@.contains(id),
            forall|id: u64| #[trigger]
                final(out)@.contains(id) <==> old(out)@.contains(id) || self.selects(
                    id,
                    area,
                    wanted,
                    window,
                ),
    {
        let mut x: i64 = area.min_x as i64;
        while x <= area.max_x as i64
            invariant
                self.wf(),
                area.min_x <= x,
                x <= area.max_x + 1 || x == area.min_x,
                out@.no_duplicates(),
                forall|id: u64| seen@.contains(id) <==> out@.contains(id),
                forall|id: u64| #[trigger]
                    out@.contains(id) ==> old(out)@.contains(id) || self.selects(
                        id,
                        area,
                        wanted,
                        window,
                    ),
                forall|id: u64| old(out)@.contains(id) ==> #[trigger] out@.contains(id),
                forall|id: u64, a: i32, b: i32|
                    area.contains(a, b) && a < x && #[trigger] self.cell_offers(
                        a,
                        b,
                        id,
                        wanted,
                        window,
                    ) ==> out@.contains(id),
            decreases area.max_x + 1 - x,
        {
            let mut y: i64 = area.min_y as i64;
            while y <= area.max_y as i64
                invariant
                    self.wf(),
                    area.min_x <= x <= area.max_x,
                    area.min_y <= y,
                    y <= area.max_y + 1 || y == area.min_y,
                    out@.no_duplicates(),
                    forall|id: u64| seen@.contains(id) <==> out@.contains(id),
                    forall|id: u64| #[trigger]
                        out@.contains(id) ==> old(out)@.contains(id) || self.selects(
                            id,
                            area,
                            wanted,
                            window,
                        ),
                    forall|id: u64| old(out)@.contains(id) ==> #[trigger] out@.contains(id),
                    forall|id: u64, a: i32, b: i32|
                        area.contains(a, b) && (a < x || (a == x && b < y))
                            && #[trigger] self.cell_offers(a, b, id, wanted, window)
                            ==> out@.contains(id),
                decreases area.max_y + 1 - y,
            {
                let ghost before = out@;
                self.gather_cell(x as i32, y as i32, wanted, window, seen, out);
                proof {
                    assert forall|id: u64| #[trigger] out@.contains(id) implies old(
                        out,
                    )@.contains(id) || self.selects(id, area, wanted, window) by {
                        if !before.contains(id) {
                            assert(self.cell_offers(x as i32, y as i32, id, wanted, window));
                            assert(self.cell(x as i32, y as i32).contains(id));
                        }
                    }
                    assert forall|id: u64, a: i32, b: i32|
                        area.contains(a, b) && (a < x || (a == x && b < y + 1))
                            && #[trigger] self.cell_offers(
                            a,
                            b,
                            id,
                            wanted,
                            window,
                        ) implies out@.contains(id) by {
                        if a == x && b == y {
                        } else {
                            assert(before.contains(id));
                        }
                    }
                }
                y += 1;
            }
            x += 1;
        }
        proof {
            assert forall|id: u64| self.selects(id, area, wanted, window) implies out@.contains(
                id,
            ) by {
                let cover = self.entities()[id].place.cover;
                let a: i32 = if cover.min_x >= area.min_x {
                    cover.min_x
                } else {
                    area.min_x
                };
                let b: i32 = if cover.min_y >= area.min_y {
                    cover.min_y
                } else {
                    area.min_y
                };
                assert(cover.contains(a, b) && area.contains(a, b));
                assert(self.cell(a, b).contains(id));
                assert(self.cell_offers(a, b, id, wanted, window));
            }
        }
    }

    /// The entities whose box meets `window`, among those whose cover has a
    /// cell in `area` and that carry the tag, if one is asked for. Each id
    /// comes once; in which order is left open.
    pub fn query_rect(&self, window: Aabb, area: CellRect, tag_filter: Option<&str>) -> (r: Vec<
        u64,
    >)
        requires
            self.wf(),
        ensures
            r@.no_duplicates(),
            forall|id: u64| #[trigger]
                r@.contains(id) <==> self.selects(
                    id,
                    area,
                    wanted_hash(tag_filter),
                    Some(window),
                ),
    {
        let wanted = hash_of_filter(tag_filter);
        let mut seen: HashSet<u64> = HashSet::new();
        let mut out: Vec<u64> = Vec::new();
        self.gather(area, wanted, Some(window), &mut seen, &mut out);
        out
    }

    /// The broad phase of a query: the entities whose cover has a cell in
    /// `area` and that carry the tag, if one is asked for. Each id comes
    /// once.
    pub fn query_cells(&self, area: CellRect, tag_filter: Option<&str>) -> (r: Vec<u64>)
        requires
            self.wf(),
        ensures
            r@.no_duplicates(),
            forall|id: u64| #[trigger]
                r@.contains(id) <==> self.selects(id, area, wanted_hash(tag_filter), None),
    {
        let wanted = hash_of_filter(tag_filter);
        let mut seen: HashSet<u64> = HashSet::new();
        let mut out: Vec<u64> = Vec::new();
        self.gather(area, wanted, None, &mut seen, &mut out);
        out
    }

    /// Whether a ray sampled at `samples` may hit the entity of the given
    /// id: its cover has a cell next to one of the samples.
    pub open spec fn near_ray(&self, id: u64, samples: Seq<(i32, i32)>, wanted: Option<u64>) -> bool {
        exists|k: int|
            0 <= k < samples.len() && #[trigger] self.selects(
                id,
                CellRect::around(samples[k].0, samples[k].1),
                wanted,
                None,
            )
    }

    /// The broad phase of a ray cast: the entities listed in a cell next to
    /// one of the cells that the ray was sampled in, that carry the tag, if
    /// one is asked for. Each id comes once.
    pub fn ray_candidates(&self, samples: &Vec<(i32, i32)>, tag_filter: Option<&str>) -> (r: Vec<
        u64,
    >)
        requires
            self.wf(),
        ensures
            r@.no_duplicates(),
            forall|id: u64| #[trigger]
                r@.contains(id) <==> self.near_ray(id, samples@, wanted_hash(tag_filter)),
    {
        let wanted = hash_of_filter(tag_filter);
        let mut seen: HashSet<u64> = HashSet::new();
        let mut out: Vec<u64> = Vec::new();
        let mut k: usize = 0;
        while k < samples.len()
            invariant
                k <= samples@.len(),
                self.wf(),
                out@.no_duplicates(),
                forall|id: u64| seen@.contains(id) <==> out@.contains(id),
                forall|id: u64| #[trigger]
                    out@.contains(id) <==> self.near_ray(id, samples@.take(k as int), wanted),
            decreases samples@.len() - k,
        {
            let area = CellRect::neighbourhood(samples[k].0, samples[k].1);
            let ghost before = out@;
            self.gather(area, wanted, None, &mut seen, &mut out);
            proof {
                let shorter = samples@.take(k as int);
                let longer = samples@.take(k + 1);
                assert forall|id: u64| #[trigger]
                    out@.contains(id) <==> self.near_ray(id, longer, wanted) by {
                    if self.near_ray(id, longer, wanted) {
                        let i = choose|i: int|
                            0 <= i < longer.len() && #[trigger] self.selects(
                                id,
                                CellRect::around(longer[i].0, longer[i].1),
                                wanted,
                                None,
                            );
                        if i < k {
                            assert(shorter[i] == longer[i]);
                            assert(self.near_ray(id, shorter, wanted));
                        }
                    }
                    if before.contains(id) {
                        assert(self.near_ray(id, shorter, wanted));
                        let i = choose|i: int|
                            0 <= i < shorter.len() && #[trigger] self.selects(
                                id,
                                CellRect::around(shorter[i].0, shorter[i].1),
                                wanted,
                                None,
                            );
                        assert(longer[i] == shorter[i]);
                    }
                    if self.selects(id, area, wanted, None) {
                        assert(longer[k as int] == samples@[k as int]);
                    }
                }
            }
            k += 1;
        }
        proof {
            assert(samples@.take(k as int) =~= samples@);
        }
        out
    }
}

fn entity_passes(e: &Entity, wanted: Option<u64>, window: Option<Aabb>) -> (r: bool)
    ensures
        r == e.passes(wanted, window),
{
    let tag_ok: bool = match wanted {
        Some(h) => e.tag_hash == h,
        None => true,
    };
    let window_ok: bool = match window {
        Some(w) => e.place.bounds.intersects(&w),
        None => true,
    };
    tag_ok && window_ok
}

/// The grid and the covers agree: in a well-formed index, an entity's id
/// stands in the list of a cell exactly when the entity is held and its cover
/// holds that cell.
pub proof fn lemma_grid_matches_covers(db: &SpatialDb, id: u64, x: i32, y: i32)
    requires
        db.wf(),
    ensures
        db.cell(x, y).contains(id) <==> db.entities().contains_key(id)
            && db.entities()[id].place.cover.contains(x, y),
{
}

/// Ids are never handed out twice: every entity held has an id below the
/// next one to be handed out.
pub proof fn lemma_ids_below_next(db: &SpatialDb, id: u64)
    requires
        db.wf(),
        db.entities().contains_key(id),
    ensures
        1 <= id < db.next_id(),
        db.entities()[id].id == id,
{
}

// ---------------------------------------------------------------------------
// The nearest hit of a ray
// ---------------------------------------------------------------------------

/// Where a ray meets an entity: `t` is the part of the ray's length that
/// lies before the hit, `(x, y)` the point of the hit.
#[derive(Clone, Copy, Debug, PartialEq, Eq, Structural)]
pub struct RayHit {
    pub id: u64,
    pub t: u32,
    pub x: u32,
    pub y: u32,
}

/// The root at which a ray first meets a circle, of the two roots of their
/// equation: the nearer one that is not negative. A root that is no number
/// does not count.
pub open spec fn nearer_root_of(t1: u32, t2: u32) -> Option<u32> {
    if le(ZERO, t1) && le(ZERO, t2) {
        if le(t1, t2) {
            Some(t1)
        } else {
            Some(t2)
        }
    } else if le(ZERO, t1) {
        Some(t1)
    } else if le(ZERO, t2) {
        Some(t2)
    } else {
        None
    }
}

/// The nearer of two roots that is not negative; none where both are
/// negative or no numbers.
pub fn nearer_root(t1: u32, t2: u32) -> (r: Option<u32>)
    ensures
        r == nearer_root_of(t1, t2),
{
    let first: bool = less_eq(ZERO, t1);
    let second: bool = less_eq(ZERO, t2);
    if first && second {
        if less_eq(t1, t2) {
            Some(t1)
        } else {
            Some(t2)
        }
    } else if first {
        Some(t1)
    } else if second {
        Some(t2)
    } else {
        None
    }
}

/// The hit that a search through `hits` ends with: it starts with the first
/// hit and moves on to a later one only where that one's `t` is less.
pub open spec fn closest_of(hits: Seq<RayHit>) -> Option<RayHit>
    decreases hits.len(),
{
    if hits.len() == 0 {
        None
    } else {
        match closest_of(hits.drop_last()) {
            None => Some(hits.last()),
            Some(best) => if lt(hits.last().t, best.t) {
                Some(hits.last())
            } else {
                Some(best)
            },
        }
    }
}

/// The nearest of the hits, and the earliest among equally near ones; none
/// where there is no hit.
pub fn closest_hit(hits: &Vec<RayHit>) -> (r: Option<RayHit>)
    ensures
        r == closest_of(hits@),
{
    let mut closest: Option<RayHit> = None;
    let mut i: usize = 0;
    assert(hits@.take(0) =~= Seq::<RayHit>::empty());
    while i < hits.len()
        invariant
            i <= hits@.len(),
            closest == closest_of(hits@.take(i as int)),
        decreases hits@.len() - i,
    {
        let hit: RayHit = hits[i];
        proof {
            assert(hits@.take(i + 1).drop_last() =~= hits@.take(i as int));
        }
        closest = match closest {
            None => Some(hit),
            Some(best) => if less(hit.t, best.t) {
                Some(hit)
            } else {
                Some(best)
            },
        };
        i += 1;
    }
    assert(hits@.take(i as int) =~= hits@);
    closest
}

/// Where every `t` is a number, the search ends with a hit that no other hit
/// lies before, and with the first such hit.
pub proof fn lemma_closest_is_least(hits: Seq<RayHit>)
    requires
        hits.len() > 0,
        forall|i: int| 0 <= i < hits.len() ==> !crate::single::is_nan(#[trigger] hits[i].t),
    ensures
        closest_of(hits) is Some,
        exists|i: int|
            0 <= i < hits.len() && closest_of(hits) == Some(#[trigger] hits[i]) && (forall|j: int|
                0 <= j < hits.len() ==> le(hits[i].t, #[trigger] hits[j].t)) && (forall|j: int|
                0 <= j < i ==> lt(hits[i].t, #[trigger] hits[j].t)),
    decreases hits.len(),
{
    let n = hits.len() as int;
    if n == 1 {
        assert(hits.drop_last() =~= Seq::<RayHit>::empty());
        assert(closest_of(hits) == Some(hits[0]));
    } else {
        let before = hits.drop_last();
        lemma_closest_is_least(before);
        let i = choose|i: int|
            0 <= i < before.len() && closest_of(before) == Some(#[trigger] before[i]) && (forall|
                j: int,
            |
                0 <= j < before.len() ==> le(before[i].t, #[trigger] before[j].t)) && (forall|
                j: int,
            |
                0 <= j < i ==> lt(before[i].t, #[trigger] before[j].t));
        assert(before[i] == hits[i]);
        if lt(hits[n - 1].t, hits[i].t) {
            assert(closest_of(hits) == Some(hits[n - 1]));
            assert forall|j: int| 0 <= j < n implies le(hits[n - 1].t, #[trigger] hits[j].t) by {
                if j < n - 1 {
                    assert(before[j] == hits[j]);
                    assert(le(before[i].t, before[j].t));
                }
            }
            assert forall|j: int| 0 <= j < n - 1 implies lt(hits[n - 1].t, #[trigger] hits[j].t) by {
                assert(before[j] == hits[j]);
                assert(le(before[i].t, before[j].t));
            }
        } else {
            assert(closest_of(hits) == Some(hits[i]));
            assert forall|j: int| 0 <= j < n implies le(hits[i].t, #[trigger] hits[j].t) by {
                if j < n - 1 {
                    assert(before[j] == hits[j]);
                    assert(le(before[i].t, before[j].t));
                }
            }
            assert forall|j: int| 0 <= j < i implies lt(hits[i].t, #[trigger] hits[j].t) by {
                assert(before[j] == hits[j]);
                assert(lt(before[i].t, before[j].t));
            }
        }
    }
}

} // verus!
