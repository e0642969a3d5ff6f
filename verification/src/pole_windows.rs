//! A square window that slides over a tile index and keeps count of the ids
//! inside it.

use crate::better_bp::EntityId;
use crate::bp_model::BpModel;
use crate::bp_model::WorldEntity;
use crate::position::MapPosition;
use crate::position::TilePosition;
use crate::position::lemma_tile_floor_bounds;
use crate::position::tile_ceil;
use crate::position::tile_ceil_of;
use crate::position::tile_floor;
use crate::position::tile_floor_of;
use crate::position::HALF_TILE;
use crate::prototype_data::EntityPrototypeRef;
use crate::prototype_data::PoleData;
use crate::tables::id_map;
use crate::tables::IdMap;
use vstd::prelude::*;

verus! {

/// The longest side a window may have: its area still fits a 32-bit count.
pub const MAX_WINDOW_SIZE: i32 = 46_340;

/// The largest magnitude of a coordinate of a window's top-left tile.
pub const MAX_WINDOW_COORD: i32 = 2_100_000_000;

/// Something that tells which ids stand on a tile.
pub trait GetAtPos {
    /// Whether the source is in a state in which it can be asked.
    spec fn source_wf(&self) -> bool;

    /// The ids on tile `pos`.
    spec fn ids_at(&self, pos: TilePosition) -> Seq<EntityId>;

    /// No id stands twice on one tile.
    proof fn lemma_ids_distinct(&self, pos: TilePosition)
        requires
            self.source_wf(),
        ensures
            self.ids_at(pos).no_duplicates(),
    ;

    fn get_at_tile(&self, pos: TilePosition) -> (r: Vec<EntityId>)
        requires
            self.source_wf(),
        ensures
            r@ == self.ids_at(pos),
    ;
}

impl<'a> GetAtPos for &'a BpModel {
    open spec fn source_wf(&self) -> bool {
        self.wf()
    }

    open spec fn ids_at(&self, pos: TilePosition) -> Seq<EntityId> {
        self.bucket(pos)
    }

    proof fn lemma_ids_distinct(&self, pos: TilePosition) {
        if self.buckets().contains_key(pos.key()) {
            assert(self.buckets()[pos.key()].no_duplicates());
        }
    }

    fn get_at_tile(&self, pos: TilePosition) -> (r: Vec<EntityId>) {
        self.ids_at_tile(pos)
    }
}

/// How often `id` stands on tile `(x, y)` of `source`: once or not at all.
pub open spec fn cell<T: GetAtPos>(source: T, x: int, y: int, id: EntityId) -> int {
    if source.ids_at(TilePosition { x: x as i32, y: y as i32 }).contains(id) {
        1
    } else {
        0
    }
}

/// The number of tiles among `(x, y0) .. (x, y0 + n)` on which `id` stands.
pub open spec fn col_count<T: GetAtPos>(source: T, x: int, y0: int, n: int, id: EntityId) -> int
    decreases n,
{
    if n <= 0 {
        0
    } else {
        col_count(source, x, y0, n - 1, id) + cell(source, x, y0 + n - 1, id)
    }
}

/// The number of tiles among `(x0, y) .. (x0 + n, y)` on which `id` stands.
pub open spec fn row_count<T: GetAtPos>(source: T, y: int, x0: int, n: int, id: EntityId) -> int
    decreases n,
{
    if n <= 0 {
        0
    } else {
        row_count(source, y, x0, n - 1, id) + cell(source, x0 + n - 1, y, id)
    }
}

/// The number of tiles of the rectangle with top-left `(x0, y0)`, `w` columns
/// and `h` rows on which `id` stands.
pub open spec fn rect_count<T: GetAtPos>(
    source: T,
    x0: int,
    y0: int,
    w: int,
    h: int,
    id: EntityId,
) -> int
    decreases w,
{
    if w <= 0 {
        0
    } else {
        rect_count(source, x0, y0, w - 1, h, id) + col_count(source, x0 + w - 1, y0, h, id)
    }
}

/// Whether `counts` holds exactly the ids for which `f` is positive, each
/// with the value of `f`.
pub open spec fn represents(counts: Map<EntityId, u32>, f: spec_fn(EntityId) -> int) -> bool {
    forall|id: EntityId|
        #![trigger counts.contains_key(id)]
        #![trigger f(id)]
        (counts.contains_key(id) <==> f(id) > 0) && (counts.contains_key(id) ==> counts[id] == f(
            id,
        ))
}

proof fn lemma_col_bounds<T: GetAtPos>(source: T, x: int, y0: int, n: int, id: EntityId)
    requires
        n >= 0,
    ensures
        0 <= col_count(source, x, y0, n, id) <= n,
        forall|j: int|
            0 <= j <= n ==> 0 <= #[trigger] col_count(source, x, y0, j, id) <= col_count(
                source,
                x,
                y0,
                n,
                id,
            ),
        n >= 1 ==> col_count(source, x, y0, n, id) >= cell(source, x, y0, id),
        n >= 1 ==> col_count(source, x, y0, n, id) >= cell(source, x, y0 + n - 1, id),
    decreases n,
{
    if n > 0 {
        lemma_col_bounds(source, x, y0, n - 1, id);
        assert forall|j: int| 0 <= j <= n implies 0 <= #[trigger] col_count(
            source,
            x,
            y0,
            j,
            id,
        ) <= col_count(source, x, y0, n, id) by {
            if j < n {
                assert(0 <= col_count(source, x, y0, j, id) <= col_count(
                    source,
                    x,
                    y0,
                    n - 1,
                    id,
                ));
            }
        }
        if n == 1 {
            assert(col_count(source, x, y0, 0, id) == 0);
        }
    }
}

proof fn lemma_row_bounds<T: GetAtPos>(source: T, y: int, x0: int, n: int, id: EntityId)
    requires
        n >= 0,
    ensures
        0 <= row_count(source, y, x0, n, id) <= n,
        forall|j: int|
            0 <= j <= n ==> 0 <= #[trigger] row_count(source, y, x0, j, id) <= row_count(
                source,
                y,
                x0,
                n,
                id,
            ),
    decreases n,
{
    if n > 0 {
        lemma_row_bounds(source, y, x0, n - 1, id);
        assert forall|j: int| 0 <= j <= n implies 0 <= #[trigger] row_count(
            source,
            y,
            x0,
            j,
            id,
        ) <= row_count(source, y, x0, n, id) by {
            if j < n {
                assert(0 <= row_count(source, y, x0, j, id) <= row_count(
                    source,
                    y,
                    x0,
                    n - 1,
                    id,
                ));
            }
        }
    }
}

proof fn lemma_rect_bounds<T: GetAtPos>(
    source: T,
    x0: int,
    y0: int,
    w: int,
    h: int,
    id: EntityId,
)
    requires
        w >= 0,
        h >= 0,
    ensures
        0 <= rect_count(source, x0, y0, w, h, id) <= w * h,
        forall|j: int| 0 <= j <= w ==> #[trigger] rect_count(source, x0, y0, j, h, id) <= rect_count(source, x0, y0, w, h, id),
        w >= 1 ==> rect_count(source, x0, y0, w, h, id) >= col_count(source, x0, y0, h, id),
        w >= 1 ==> rect_count(source, x0, y0, w, h, id) >= col_count(source, x0 + w - 1, y0, h, id),
        h >= 1 ==> rect_count(source, x0, y0, w, h, id) >= row_count(source, y0, x0, w, id),
        h >= 1 ==> rect_count(source, x0, y0, w, h, id) >= row_count(source, y0 + h - 1, x0, w, id),
    decreases w,
{
    if w > 0 {
        lemma_rect_bounds(source, x0, y0, w - 1, h, id);
        lemma_col_bounds(source, x0 + w - 1, y0, h, id);
        assert((w - 1) * h + h == w * h) by (nonlinear_arith);
        assert forall|j: int| 0 <= j <= w implies #[trigger] rect_count(source, x0, y0, j, h, id)
            <= rect_count(source, x0, y0, w, h, id) by {
            if j < w {
                assert(rect_count(source, x0, y0, j, h, id) <= rect_count(
                    source,
                    x0,
                    y0,
                    w - 1,
                    h,
                    id,
                ));
            }
        }
        if w == 1 {
            assert(rect_count(source, x0, y0, 0, h, id) == 0);
        }
    } else {
        assert(w * h == 0) by (nonlinear_arith)
            requires
                w == 0,
        ;
    }
}

/// An id that stands on a tile of a rectangle of tiles is counted in the
/// rectangle.
pub proof fn lemma_cell_in_rect<T: GetAtPos>(
    source: T,
    x0: int,
    y0: int,
    w: int,
    h: int,
    x: int,
    y: int,
    id: EntityId,
)
    requires
        x0 <= x < x0 + w,
        y0 <= y < y0 + h,
        cell(source, x, y, id) == 1,
    ensures
        rect_count(source, x0, y0, w, h, id) > 0,
{
    lemma_col_bounds(source, x, y0, h, id);
    lemma_col_bounds(source, x, y0, y - y0 + 1, id);
    assert(col_count(source, x, y0, y - y0 + 1, id) <= col_count(source, x, y0, h, id));
    lemma_rect_bounds(source, x0, y0, w, h, id);
    lemma_rect_bounds(source, x0, y0, x - x0 + 1, h, id);
    assert(rect_count(source, x0, y0, x - x0 + 1, h, id) <= rect_count(source, x0, y0, w, h, id));
}

/// Moving a column down by one row gains the cell below it and loses its
/// first cell.
proof fn lemma_col_shift<T: GetAtPos>(source: T, x: int, y0: int, h: int, id: EntityId)
    requires
        h >= 0,
    ensures
        col_count(source, x, y0 + 1, h, id) == col_count(source, x, y0, h, id) + cell(
            source,
            x,
            y0 + h,
            id,
        ) - cell(source, x, y0, id),
    decreases h,
{
    if h > 0 {
        lemma_col_shift(source, x, y0, h - 1, id);
        if h == 1 {
            assert(col_count(source, x, y0, 0, id) == 0);
            assert(col_count(source, x, y0 + 1, 0, id) == 0);
        }
    }
}

/// Moving a rectangle down by one row gains the row below it and loses its
/// first row.
proof fn lemma_rect_shift_down<T: GetAtPos>(
    source: T,
    x0: int,
    y0: int,
    w: int,
    h: int,
    id: EntityId,
)
    requires
        w >= 0,
        h >= 0,
    ensures
        rect_count(source, x0, y0 + 1, w, h, id) == rect_count(source, x0, y0, w, h, id)
            + row_count(source, y0 + h, x0, w, id) - row_count(source, y0, x0, w, id),
    decreases w,
{
    if w > 0 {
        lemma_rect_shift_down(source, x0, y0, w - 1, h, id);
        lemma_col_shift(source, x0 + w - 1, y0, h, id);
    }
}

/// Moving a rectangle right by one column gains the column after it and
/// loses its first column.
proof fn lemma_rect_shift_right<T: GetAtPos>(
    source: T,
    x0: int,
    y0: int,
    w: int,
    h: int,
    id: EntityId,
)
    requires
        w >= 0,
        h >= 0,
    ensures
        rect_count(source, x0 + 1, y0, w, h, id) == rect_count(source, x0, y0, w, h, id)
            + col_count(source, x0 + w, y0, h, id) - col_count(source, x0, y0, h, id),
    decreases w,
{
    if w > 0 {
        lemma_rect_shift_right(source, x0, y0, w - 1, h, id);
    }
}

/// A square window over a source of ids by tile. For every id it keeps the
/// number of tiles of the window on which the id stands.
pub struct Moving2DWindow<T: GetAtPos> {
    source: T,
    top_left: TilePosition,
    size: i32,
    current_counts: IdMap,
}

impl<T: GetAtPos> Moving2DWindow<T> {
    pub closed spec fn spec_source(&self) -> T {
        self.source
    }

    pub closed spec fn spec_top_left(&self) -> TilePosition {
        self.top_left
    }

    pub closed spec fn spec_size(&self) -> i32 {
        self.size
    }

    /// The count kept for each id that has one.
    pub closed spec fn counts(&self) -> Map<EntityId, u32> {
        id_map(self.current_counts)
    }

    /// Whether a window of side `size` may stand with its top-left tile at `tl`.
    pub open spec fn place_ok(tl: TilePosition, size: i32) -> bool {
        &&& 0 <= size <= MAX_WINDOW_SIZE
        &&& -MAX_WINDOW_COORD <= tl.x <= MAX_WINDOW_COORD
        &&& -MAX_WINDOW_COORD <= tl.y <= MAX_WINDOW_COORD
    }

    /// The number of tiles of the window on which `id` stands.
    pub open spec fn count_of(&self, id: EntityId) -> int {
        rect_count(
            self.spec_source(),
            self.spec_top_left().x as int,
            self.spec_top_left().y as int,
            self.spec_size() as int,
            self.spec_size() as int,
            id,
        )
    }

    /// The ids that stand on at least one tile of the window.
    pub open spec fn spec_items(&self) -> Set<EntityId> {
        Set::new(|id: EntityId| self.count_of(id) > 0)
    }

    /// The source can be asked, the window stands in a place it may stand
    /// in, and the counts are those of the tiles of the window: an id has a
    /// count exactly if it stands on a tile of the window, and the count is
    /// the number of such tiles.
    pub open spec fn wf(&self) -> bool {
        &&& self.spec_source().source_wf()
        &&& Self::place_ok(self.spec_top_left(), self.spec_size())
        &&& forall|id: EntityId|
            #![trigger self.counts().contains_key(id)]
            #![trigger self.count_of(id)]
            (self.counts().contains_key(id) <==> self.count_of(id) > 0) && (
            self.counts().contains_key(id) ==> self.counts()[id] == self.count_of(id))
    }

    /// A window of side `size` with its top-left tile at `top_left`.
    pub fn new(source: T, top_left: TilePosition, size: i32) -> (r: Self)
        requires
            source.source_wf(),
            Self::place_ok(top_left, size),
        ensures
            r.wf(),
            r.spec_source() == source,
            r.spec_top_left() == top_left,
            r.spec_size() == size,
    {
        let mut res = Moving2DWindow { source, top_left, size, current_counts: IdMap::new() };
        res.jump_to(top_left);
        res
    }

    /// The ids that stand on at least one tile of the window, each once, in
    /// an order that is not stated.
    pub fn cur_items(&self) -> (r: Vec<EntityId>)
        ensures
            r@.no_duplicates(),
            r@.to_set() == self.counts().dom(),
            self.wf() ==> r@.to_set() == self.spec_items(),
    {
        proof {
            if self.wf() {
                assert(self.counts().dom() =~= self.spec_items()) by {
                    assert forall|id: EntityId|
                        self.counts().dom().contains(id) <==> self.spec_items().contains(id) by {
                        assert(self.counts().contains_key(id) <==> self.count_of(id) > 0);
                    }
                }
            }
        }
        self.current_counts.keys()
    }

    pub fn top_left(&self) -> (r: TilePosition)
        ensures
            r == self.spec_top_left(),
    {
        self.top_left
    }

    pub fn size(&self) -> (r: i32)
        ensures
            r == self.spec_size(),
    {
        self.size
    }

    /// Takes the ids on tile `pos` out of the counts; a count that falls to
    /// zero leaves the map.
    fn dec_at(&mut self, pos: TilePosition, Ghost(f): Ghost<spec_fn(EntityId) -> int>)
        requires
            old(self).spec_source().source_wf(),
            represents(old(self).counts(), f),
            forall|id: EntityId|
                #[trigger] f(id) - cell(old(self).spec_source(), pos.x as int, pos.y as int, id)
                    >= 0,
        ensures
            final(self).spec_source() == old(self).spec_source(),
            final(self).spec_top_left() == old(self).spec_top_left(),
            final(self).spec_size() == old(self).spec_size(),
            represents(
                final(self).counts(),
                |id: EntityId|
                    f(id) - cell(old(self).spec_source(), pos.x as int, pos.y as int, id),
            ),
    {
        let ids = self.source.get_at_tile(pos);
        proof {
            self.source.lemma_ids_distinct(pos);
        }
        let ghost src = self.source;
        let mut j: usize = 0;
        while j < ids.len()
            invariant
                0 <= j <= ids@.len(),
                ids@ == src.ids_at(pos),
                ids@.no_duplicates(),
                self.source == src,
                src == old(self).spec_source(),
                self.top_left == old(self).top_left,
                self.size == old(self).size,
                forall|id: EntityId| #[trigger] f(id) - cell(src, pos.x as int, pos.y as int, id) >= 0,
                represents(
                    self.counts(),
                    |id: EntityId|
                        f(id) - (if ids@.take(j as int).contains(id) {
                            1int
                        } else {
                            0int
                        }),
                ),
            decreases ids@.len() - j,
        {
            let id = ids[j];
            let ghost before = self.counts();
            let ghost g = |x: EntityId|
                f(x) - (if ids@.take(j as int).contains(x) {
                    1int
                } else {
                    0int
                });
            proof {
                assert(ids@.contains(id));
                assert(cell(src, pos.x as int, pos.y as int, id) == 1);
                assert(f(id) - cell(src, pos.x as int, pos.y as int, id) >= 0);
                if ids@.take(j as int).contains(id) {
                    let k = choose|k: int| 0 <= k < j && ids@.take(j as int)[k] == id;
                    assert(ids@[k] == ids@[j as int]);
                }
                assert(g(id) == f(id));
                assert(before.contains_key(id));
            }
            match self.current_counts.get(id) {
                Some(count) => {
                    if count == 1 {
                        self.current_counts.remove(id);
                    } else {
                        self.current_counts.insert(id, count - 1);
                    }
                },
                None => {},
            }
            proof {
                let g2 = |x: EntityId|
                    f(x) - (if ids@.take(j + 1).contains(x) {
                        1int
                    } else {
                        0int
                    });
                assert forall|x: EntityId|
                    #![trigger self.counts().contains_key(x)]
                    #![trigger g2(x)]
                    (self.counts().contains_key(x) <==> g2(x) > 0) && (self.counts().contains_key(
                        x,
                    ) ==> self.counts()[x] == g2(x)) by {
                    assert(ids@.take(j + 1) =~= ids@.take(j as int).push(id));
                    lemma_take_push_contains(ids@.take(j as int), id, x);
                    assert((before.contains_key(x) <==> g(x) > 0) && (before.contains_key(x)
                        ==> before[x] == g(x)));
                }
            }
            j = j + 1;
        }
        proof {
            assert(ids@.take(ids@.len() as int) =~= ids@);
            let g3 = |id: EntityId| f(id) - cell(src, pos.x as int, pos.y as int, id);
            let g4 = |x: EntityId|
                f(x) - (if ids@.take(ids@.len() as int).contains(x) {
                    1int
                } else {
                    0int
                });
            assert forall|x: EntityId|
                #![trigger self.counts().contains_key(x)]
                #![trigger g3(x)]
                (self.counts().contains_key(x) <==> g3(x) > 0) && (self.counts().contains_key(x)
                    ==> self.counts()[x] == g3(x)) by {
                assert(g3(x) == g4(x));
                assert((self.counts().contains_key(x) <==> g4(x) > 0) && (
                self.counts().contains_key(x) ==> self.counts()[x] == g4(x)));
            }
        }
    }

    /// Adds the ids on tile `pos` to the counts.
    fn inc_at(&mut self, pos: TilePosition, Ghost(f): Ghost<spec_fn(EntityId) -> int>)
        requires
            old(self).spec_source().source_wf(),
            represents(old(self).counts(), f),
            forall|id: EntityId| 0 <= #[trigger] f(id) < u32::MAX,
        ensures
            final(self).spec_source() == old(self).spec_source(),
            final(self).spec_top_left() == old(self).spec_top_left(),
            final(self).spec_size() == old(self).spec_size(),
            represents(
                final(self).counts(),
                |id: EntityId|
                    f(id) + cell(old(self).spec_source(), pos.x as int, pos.y as int, id),
            ),
    {
        let ids = self.source.get_at_tile(pos);
        proof {
            self.source.lemma_ids_distinct(pos);
        }
        let ghost src = self.source;
        let mut j: usize = 0;
        while j < ids.len()
            invariant
                0 <= j <= ids@.len(),
                ids@ == src.ids_at(pos),
                ids@.no_duplicates(),
                self.source == src,
                src == old(self).spec_source(),
                self.top_left == old(self).top_left,
                self.size == old(self).size,
                forall|id: EntityId| 0 <= #[trigger] f(id) < u32::MAX,
                represents(
                    self.counts(),
                    |id: EntityId|
                        f(id) + (if ids@.take(j as int).contains(id) {
                            1int
                        } else {
                            0int
                        }),
                ),
            decreases ids@.len() - j,
        {
            let id = ids[j];
            let ghost before = self.counts();
            let ghost g = |x: EntityId|
                f(x) + (if ids@.take(j as int).contains(x) {
                    1int
                } else {
                    0int
                });
            proof {
                if ids@.take(j as int).contains(id) {
                    let k = choose|k: int| 0 <= k < j && ids@.take(j as int)[k] == id;
                    assert(ids@[k] == ids@[j as int]);
                }
                assert(g(id) == f(id));
                assert(0 <= f(id) < u32::MAX);
                assert((before.contains_key(id) <==> g(id) > 0) && (before.contains_key(id)
                    ==> before[id] == g(id)));
            }
            let count = match self.current_counts.get(id) {
                Some(c) => c,
                None => 0,
            };
            self.current_counts.insert(id, count + 1);
            proof {
                let g2 = |x: EntityId|
                    f(x) + (if ids@.take(j + 1).contains(x) {
                        1int
                    } else {
                        0int
                    });
                assert forall|x: EntityId|
                    #![trigger self.counts().contains_key(x)]
                    #![trigger g2(x)]
                    (self.counts().contains_key(x) <==> g2(x) > 0) && (self.counts().contains_key(
                        x,
                    ) ==> self.counts()[x] == g2(x)) by {
                    assert(ids@.take(j + 1) =~= ids@.take(j as int).push(id));
                    lemma_take_push_contains(ids@.take(j as int), id, x);
                    assert((before.contains_key(x) <==> g(x) > 0) && (before.contains_key(x)
                        ==> before[x] == g(x)));
                }
            }
            j = j + 1;
        }
        proof {
            assert(ids@.take(ids@.len() as int) =~= ids@);
            let g3 = |id: EntityId| f(id) + cell(src, pos.x as int, pos.y as int, id);
            let g4 = |x: EntityId|
                f(x) + (if ids@.take(ids@.len() as int).contains(x) {
                    1int
                } else {
                    0int
                });
            assert forall|x: EntityId|
                #![trigger self.counts().contains_key(x)]
                #![trigger g3(x)]
                (self.counts().contains_key(x) <==> g3(x) > 0) && (self.counts().contains_key(x)
                    ==> self.counts()[x] == g3(x)) by {
                assert(g3(x) == g4(x));
                assert((self.counts().contains_key(x) <==> g4(x) > 0) && (
                self.counts().contains_key(x) ==> self.counts()[x] == g4(x)));
            }
        }
    }

    /// Forgets all counts and counts the tiles of the window anew at
    /// `new_top_left`.
    pub fn jump_to(&mut self, new_top_left: TilePosition)
        requires
            old(self).spec_source().source_wf(),
            Self::place_ok(new_top_left, old(self).spec_size()),
        ensures
            final(self).wf(),
            final(self).spec_source() == old(self).spec_source(),
            final(self).spec_size() == old(self).spec_size(),
            final(self).spec_top_left() == new_top_left,
    {
        self.top_left = new_top_left;
        self.current_counts.clear();
        let ghost src = self.source;
        let size = self.size;
        let ghost x0 = new_top_left.x as int;
        let ghost y0 = new_top_left.y as int;
        let mut x: i32 = 0;
        while x < size
            invariant
                0 <= x <= size,
                size == self.size,
                self.size == old(self).size,
                self.source == src,
                src == old(self).spec_source(),
                src.source_wf(),
                self.top_left == new_top_left,
                x0 == new_top_left.x,
                y0 == new_top_left.y,
                Self::place_ok(new_top_left, size),
                represents(
                    self.counts(),
                    |id: EntityId| rect_count(src, x0, y0, x as int, size as int, id),
                ),
            decreases size - x,
        {
            let mut y: i32 = 0;
            proof {
                let g = |id: EntityId| rect_count(src, x0, y0, x as int, size as int, id);
                let g2 = |id: EntityId|
                    rect_count(src, x0, y0, x as int, size as int, id) + col_count(
                        src,
                        x0 + x,
                        y0,
                        0,
                        id,
                    );
                assert forall|id: EntityId|
                    #![trigger self.counts().contains_key(id)]
                    #![trigger g2(id)]
                    (self.counts().contains_key(id) <==> g2(id) > 0) && (
                    self.counts().contains_key(id) ==> self.counts()[id] == g2(id)) by {
                    assert(g(id) == g2(id));
                    assert((self.counts().contains_key(id) <==> g(id) > 0) && (
                    self.counts().contains_key(id) ==> self.counts()[id] == g(id)));
                }
            }
            while y < size
                invariant
                    0 <= x < size,
                    0 <= y <= size,
                    size == self.size,
                    self.size == old(self).size,
                    self.source == src,
                    src == old(self).spec_source(),
                    src.source_wf(),
                    self.top_left == new_top_left,
                    x0 == new_top_left.x,
                    y0 == new_top_left.y,
                    Self::place_ok(new_top_left, size),
                    represents(
                        self.counts(),
                        |id: EntityId|
                            rect_count(src, x0, y0, x as int, size as int, id) + col_count(
                                src,
                                x0 + x,
                                y0,
                                y as int,
                                id,
                            ),
                    ),
                decreases size - y,
            {
                let ghost f = |id: EntityId|
                    rect_count(src, x0, y0, x as int, size as int, id) + col_count(
                        src,
                        x0 + x,
                        y0,
                        y as int,
                        id,
                    );
                proof {
                    assert forall|id: EntityId| 0 <= #[trigger] f(id) < u32::MAX by {
                        lemma_rect_bounds(src, x0, y0, x as int, size as int, id);
                        lemma_col_bounds(src, x0 + x, y0, y as int, id);
                        assert(x * size <= 46_340 * 46_340) by (nonlinear_arith)
                            requires
                                0 <= x <= 46_340,
                                0 <= size <= 46_340,
                        ;
                    }
                }
                let pos = new_top_left.offset(x, y);
                self.inc_at(pos, Ghost(f));
                proof {
                    let g = |id: EntityId| f(id) + cell(src, pos.x as int, pos.y as int, id);
                    let g2 = |id: EntityId|
                        rect_count(src, x0, y0, x as int, size as int, id) + col_count(
                            src,
                            x0 + x,
                            y0,
                            y + 1,
                            id,
                        );
                    assert forall|id: EntityId|
                        #![trigger self.counts().contains_key(id)]
                        #![trigger g2(id)]
                        (self.counts().contains_key(id) <==> g2(id) > 0) && (
                        self.counts().contains_key(id) ==> self.counts()[id] == g2(id)) by {
                        assert(g(id) == g2(id));
                        assert((self.counts().contains_key(id) <==> g(id) > 0) && (
                        self.counts().contains_key(id) ==> self.counts()[id] == g(id)));
                    }
                }
                y = y + 1;
            }
            proof {
                let g = |id: EntityId|
                    rect_count(src, x0, y0, x as int, size as int, id) + col_count(
                        src,
                        x0 + x,
                        y0,
                        size as int,
                        id,
                    );
                let g2 = |id: EntityId| rect_count(src, x0, y0, x + 1, size as int, id);
                assert forall|id: EntityId|
                    #![trigger self.counts().contains_key(id)]
                    #![trigger g2(id)]
                    (self.counts().contains_key(id) <==> g2(id) > 0) && (
                    self.counts().contains_key(id) ==> self.counts()[id] == g2(id)) by {
                    assert(g(id) == g2(id));
                    assert((self.counts().contains_key(id) <==> g(id) > 0) && (
                    self.counts().contains_key(id) ==> self.counts()[id] == g(id)));
                }
            }
            x = x + 1;
        }
        proof {
            let g = |id: EntityId| rect_count(src, x0, y0, size as int, size as int, id);
            assert forall|id: EntityId|
                #![trigger self.counts().contains_key(id)]
                #![trigger self.count_of(id)]
                (self.counts().contains_key(id) <==> self.count_of(id) > 0) && (
                self.counts().contains_key(id) ==> self.counts()[id] == self.count_of(id)) by {
                assert(g(id) == self.count_of(id));
                assert((self.counts().contains_key(id) <==> g(id) > 0) && (
                self.counts().contains_key(id) ==> self.counts()[id] == g(id)));
            }
        }
    }

    /// Moves the window one column to the right.
    fn move_inc_x(&mut self)
        requires
            old(self).wf(),
            Self::place_ok(old(self).spec_top_left().spec_offset(1, 0), old(self).spec_size()),
        ensures
            final(self).wf(),
            final(self).spec_source() == old(self).spec_source(),
            final(self).spec_size() == old(self).spec_size(),
            final(self).spec_top_left() == old(self).spec_top_left().spec_offset(1, 0),
    {
        let ghost src = self.source;
        let size = self.size;
        let ghost x0 = self.top_left.x as int;
        let ghost y0 = self.top_left.y as int;
        let ghost s = size as int;
        proof {
            let g = |id: EntityId| self.count_of(id);
            let g2 = |id: EntityId| rect_count(src, x0, y0, s, s, id) + col_count(src, x0 + s, y0, 0, id) - col_count(src, x0, y0, 0, id);
            assert forall|id: EntityId|
                #![trigger self.counts().contains_key(id)]
                #![trigger g2(id)]
                (self.counts().contains_key(id) <==> g2(id) > 0) && (
                self.counts().contains_key(id) ==> self.counts()[id] == g2(id)) by {
                assert(g(id) == g2(id));
                assert((self.counts().contains_key(id) <==> self.count_of(id) > 0) && (
                self.counts().contains_key(id) ==> self.counts()[id] == self.count_of(id)));
            }
        }

        let tl = self.top_left;
        let mut y: i32 = 0;
        while y < size
            invariant
                0 <= y <= size,
                size == self.size,
                s == size,
                self.size == old(self).size,
                self.source == src,
                src == old(self).spec_source(),
                src.source_wf(),
                self.top_left == tl,
                tl == old(self).spec_top_left(),
                x0 == old(self).spec_top_left().x,
                y0 == old(self).spec_top_left().y,
                Self::place_ok(old(self).spec_top_left(), size),
                Self::place_ok(old(self).spec_top_left().spec_offset(1, 0), size),
                represents(self.counts(), |id: EntityId| rect_count(src, x0, y0, s, s, id) + col_count(src, x0 + s, y0, y as int, id) - col_count(src, x0, y0, y as int, id)),
            decreases size - y,
        {
            let ghost f = |id: EntityId| rect_count(src, x0, y0, s, s, id) + col_count(src, x0 + s, y0, y as int, id) - col_count(src, x0, y0, y as int, id);
            proof {
                assert forall|id: EntityId| 0 <= #[trigger] f(id) < u32::MAX by {
                    lemma_rect_bounds(src, x0, y0, s, s, id); lemma_col_bounds(src, x0, y0, s, id); lemma_col_bounds(src, x0 + s, y0, s, id);
                    assert(s * s <= 46_340 * 46_340) by (nonlinear_arith)
                        requires
                            0 <= s <= 46_340,
                    ;
                }
            }
            let ipos = tl.offset(size, y);
            self.inc_at(ipos, Ghost(f));
            let ghost f2 = |id: EntityId| f(id) + cell(src, ipos.x as int, ipos.y as int, id);
            let dpos = tl.offset(0, y);
            proof {
                assert forall|id: EntityId|
                    #[trigger] f2(id) - cell(src, dpos.x as int, dpos.y as int, id) >= 0 by {
                    lemma_rect_bounds(src, x0, y0, s, s, id); lemma_col_bounds(src, x0, y0, s, id); lemma_col_bounds(src, x0 + s, y0, s, id);
                    assert(col_count(src, x0, y0, y + 1, id) == col_count(src, x0, y0, y as int, id) + cell(src, x0, y0 + y, id));
                }
            }
            self.dec_at(dpos, Ghost(f2));
            proof {
                let g = |id: EntityId| f2(id) - cell(src, dpos.x as int, dpos.y as int, id);
                let g2 = |id: EntityId| rect_count(src, x0, y0, s, s, id) + col_count(src, x0 + s, y0, y + 1, id) - col_count(src, x0, y0, y + 1, id);
                assert forall|id: EntityId|
                    #![trigger self.counts().contains_key(id)]
                    #![trigger g2(id)]
                    (self.counts().contains_key(id) <==> g2(id) > 0) && (
                    self.counts().contains_key(id) ==> self.counts()[id] == g2(id)) by {
                    assert(g(id) == g2(id));
                    assert((self.counts().contains_key(id) <==> g(id) > 0) && (
                    self.counts().contains_key(id) ==> self.counts()[id] == g(id)));
                }
            }
            y = y + 1;
        }
        self.top_left = TilePosition { x: self.top_left.x + 1, y: self.top_left.y };
        proof {
            let g = |id: EntityId| rect_count(src, x0, y0, s, s, id) + col_count(src, x0 + s, y0, s, id) - col_count(src, x0, y0, s, id);
            assert forall|id: EntityId|
                #![trigger self.counts().contains_key(id)]
                #![trigger self.count_of(id)]
                (self.counts().contains_key(id) <==> self.count_of(id) > 0) && (
                self.counts().contains_key(id) ==> self.counts()[id] == self.count_of(id)) by {
                lemma_rect_shift_right(src, x0, y0, s, s, id);
                assert(g(id) == self.count_of(id));
                assert((self.counts().contains_key(id) <==> g(id) > 0) && (
                self.counts().contains_key(id) ==> self.counts()[id] == g(id)));
            }
        }
    }

    /// Moves the window one row down.
    fn move_inc_y(&mut self)
        requires
            old(self).wf(),
            Self::place_ok(old(self).spec_top_left().spec_offset(0, 1), old(self).spec_size()),
        ensures
            final(self).wf(),
            final(self).spec_source() == old(self).spec_source(),
            final(self).spec_size() == old(self).spec_size(),
            final(self).spec_top_left() == old(self).spec_top_left().spec_offset(0, 1),
    {
        let ghost src = self.source;
        let size = self.size;
        let ghost x0 = self.top_left.x as int;
        let ghost y0 = self.top_left.y as int;
        let ghost s = size as int;
        proof {
            let g = |id: EntityId| self.count_of(id);
            let g2 = |id: EntityId| rect_count(src, x0, y0, s, s, id) + row_count(src, y0 + s, x0, 0, id) - row_count(src, y0, x0, 0, id);
            assert forall|id: EntityId|
                #![trigger self.counts().contains_key(id)]
                #![trigger g2(id)]
                (self.counts().contains_key(id) <==> g2(id) > 0) && (
                self.counts().contains_key(id) ==> self.counts()[id] == g2(id)) by {
                assert(g(id) == g2(id));
                assert((self.counts().contains_key(id) <==> self.count_of(id) > 0) && (
                self.counts().contains_key(id) ==> self.counts()[id] == self.count_of(id)));
            }
        }

        let tl = self.top_left;
        let mut x: i32 = 0;
        while x < size
            invariant
                0 <= x <= size,
                size == self.size,
                s == size,
                self.size == old(self).size,
                self.source == src,
                src == old(self).spec_source(),
                src.source_wf(),
                self.top_left == tl,
                tl == old(self).spec_top_left(),
                x0 == old(self).spec_top_left().x,
                y0 == old(self).spec_top_left().y,
                Self::place_ok(old(self).spec_top_left(), size),
                Self::place_ok(old(self).spec_top_left().spec_offset(0, 1), size),
                represents(self.counts(), |id: EntityId| rect_count(src, x0, y0, s, s, id) + row_count(src, y0 + s, x0, x as int, id) - row_count(src, y0, x0, x as int, id)),
            decreases size - x,
        {
            let ghost f = |id: EntityId| rect_count(src, x0, y0, s, s, id) + row_count(src, y0 + s, x0, x as int, id) - row_count(src, y0, x0, x as int, id);
            proof {
                assert forall|id: EntityId| 0 <= #[trigger] f(id) < u32::MAX by {
                    lemma_rect_bounds(src, x0, y0, s, s, id); lemma_row_bounds(src, y0, x0, s, id); lemma_row_bounds(src, y0 + s, x0, s, id);
                    assert(s * s <= 46_340 * 46_340) by (nonlinear_arith)
                        requires
                            0 <= s <= 46_340,
                    ;
                }
            }
            let ipos = tl.offset(x, size);
            self.inc_at(ipos, Ghost(f));
            let ghost f2 = |id: EntityId| f(id) + cell(src, ipos.x as int, ipos.y as int, id);
            let dpos = tl.offset(x, 0);
            proof {
                assert forall|id: EntityId|
                    #[trigger] f2(id) - cell(src, dpos.x as int, dpos.y as int, id) >= 0 by {
                    lemma_rect_bounds(src, x0, y0, s, s, id); lemma_row_bounds(src, y0, x0, s, id); lemma_row_bounds(src, y0 + s, x0, s, id);
                    assert(row_count(src, y0, x0, x + 1, id) == row_count(src, y0, x0, x as int, id) + cell(src, x0 + x, y0, id));
                }
            }
            self.dec_at(dpos, Ghost(f2));
            proof {
                let g = |id: EntityId| f2(id) - cell(src, dpos.x as int, dpos.y as int, id);
                let g2 = |id: EntityId| rect_count(src, x0, y0, s, s, id) + row_count(src, y0 + s, x0, x + 1, id) - row_count(src, y0, x0, x + 1, id);
                assert forall|id: EntityId|
                    #![trigger self.counts().contains_key(id)]
                    #![trigger g2(id)]
                    (self.counts().contains_key(id) <==> g2(id) > 0) && (
                    self.counts().contains_key(id) ==> self.counts()[id] == g2(id)) by {
                    assert(g(id) == g2(id));
                    assert((self.counts().contains_key(id) <==> g(id) > 0) && (
                    self.counts().contains_key(id) ==> self.counts()[id] == g(id)));
                }
            }
            x = x + 1;
        }
        self.top_left = TilePosition { x: self.top_left.x, y: self.top_left.y + 1 };
        proof {
            let g = |id: EntityId| rect_count(src, x0, y0, s, s, id) + row_count(src, y0 + s, x0, s, id) - row_count(src, y0, x0, s, id);
            assert forall|id: EntityId|
                #![trigger self.counts().contains_key(id)]
                #![trigger self.count_of(id)]
                (self.counts().contains_key(id) <==> self.count_of(id) > 0) && (
                self.counts().contains_key(id) ==> self.counts()[id] == self.count_of(id)) by {
                lemma_rect_shift_down(src, x0, y0, s, s, id);
                assert(g(id) == self.count_of(id));
                assert((self.counts().contains_key(id) <==> g(id) > 0) && (
                self.counts().contains_key(id) ==> self.counts()[id] == g(id)));
            }
        }
    }

    /// Moves the window one column to the left.
    fn move_dec_x(&mut self)
        requires
            old(self).wf(),
            Self::place_ok(old(self).spec_top_left().spec_offset(-1, 0), old(self).spec_size()),
        ensures
            final(self).wf(),
            final(self).spec_source() == old(self).spec_source(),
            final(self).spec_size() == old(self).spec_size(),
            final(self).spec_top_left() == old(self).spec_top_left().spec_offset(-1, 0),
    {
        let ghost src = self.source;
        let size = self.size;
        let ghost x0 = self.top_left.x as int;
        let ghost y0 = self.top_left.y as int;
        let ghost s = size as int;
        proof {
            let g = |id: EntityId| self.count_of(id);
            let g2 = |id: EntityId| rect_count(src, x0, y0, s, s, id) + col_count(src, x0 - 1, y0, 0, id) - col_count(src, x0 - 1 + s, y0, 0, id);
            assert forall|id: EntityId|
                #![trigger self.counts().contains_key(id)]
                #![trigger g2(id)]
                (self.counts().contains_key(id) <==> g2(id) > 0) && (
                self.counts().contains_key(id) ==> self.counts()[id] == g2(id)) by {
                assert(g(id) == g2(id));
                assert((self.counts().contains_key(id) <==> self.count_of(id) > 0) && (
                self.counts().contains_key(id) ==> self.counts()[id] == self.count_of(id)));
            }
        }
        self.top_left = TilePosition { x: self.top_left.x - 1, y: self.top_left.y };
        let tl = self.top_left;
        let mut y: i32 = 0;
        while y < size
            invariant
                0 <= y <= size,
                size == self.size,
                s == size,
                self.size == old(self).size,
                self.source == src,
                src == old(self).spec_source(),
                src.source_wf(),
                self.top_left == tl,
                tl == old(self).spec_top_left().spec_offset(-1, 0),
                x0 == old(self).spec_top_left().x,
                y0 == old(self).spec_top_left().y,
                Self::place_ok(old(self).spec_top_left(), size),
                Self::place_ok(old(self).spec_top_left().spec_offset(-1, 0), size),
                represents(self.counts(), |id: EntityId| rect_count(src, x0, y0, s, s, id) + col_count(src, x0 - 1, y0, y as int, id) - col_count(src, x0 - 1 + s, y0, y as int, id)),
            decreases size - y,
        {
            let ghost f = |id: EntityId| rect_count(src, x0, y0, s, s, id) + col_count(src, x0 - 1, y0, y as int, id) - col_count(src, x0 - 1 + s, y0, y as int, id);
            proof {
                assert forall|id: EntityId| 0 <= #[trigger] f(id) < u32::MAX by {
                    lemma_rect_bounds(src, x0, y0, s, s, id); lemma_col_bounds(src, x0 - 1, y0, s, id); lemma_col_bounds(src, x0 - 1 + s, y0, s, id);
                    assert(s * s <= 46_340 * 46_340) by (nonlinear_arith)
                        requires
                            0 <= s <= 46_340,
                    ;
                }
            }
            let ipos = tl.offset(0, y);
            self.inc_at(ipos, Ghost(f));
            let ghost f2 = |id: EntityId| f(id) + cell(src, ipos.x as int, ipos.y as int, id);
            let dpos = tl.offset(size, y);
            proof {
                assert forall|id: EntityId|
                    #[trigger] f2(id) - cell(src, dpos.x as int, dpos.y as int, id) >= 0 by {
                    lemma_rect_bounds(src, x0, y0, s, s, id); lemma_col_bounds(src, x0 - 1, y0, s, id); lemma_col_bounds(src, x0 - 1 + s, y0, s, id);
                    assert(col_count(src, x0 - 1 + s, y0, y + 1, id) == col_count(src, x0 - 1 + s, y0, y as int, id) + cell(src, x0 - 1 + s, y0 + y, id));
                }
            }
            self.dec_at(dpos, Ghost(f2));
            proof {
                let g = |id: EntityId| f2(id) - cell(src, dpos.x as int, dpos.y as int, id);
                let g2 = |id: EntityId| rect_count(src, x0, y0, s, s, id) + col_count(src, x0 - 1, y0, y + 1, id) - col_count(src, x0 - 1 + s, y0, y + 1, id);
                assert forall|id: EntityId|
                    #![trigger self.counts().contains_key(id)]
                    #![trigger g2(id)]
                    (self.counts().contains_key(id) <==> g2(id) > 0) && (
                    self.counts().contains_key(id) ==> self.counts()[id] == g2(id)) by {
                    assert(g(id) == g2(id));
                    assert((self.counts().contains_key(id) <==> g(id) > 0) && (
                    self.counts().contains_key(id) ==> self.counts()[id] == g(id)));
                }
            }
            y = y + 1;
        }

        proof {
            let g = |id: EntityId| rect_count(src, x0, y0, s, s, id) + col_count(src, x0 - 1, y0, s, id) - col_count(src, x0 - 1 + s, y0, s, id);
            assert forall|id: EntityId|
                #![trigger self.counts().contains_key(id)]
                #![trigger self.count_of(id)]
                (self.counts().contains_key(id) <==> self.count_of(id) > 0) && (
                self.counts().contains_key(id) ==> self.counts()[id] == self.count_of(id)) by {
                lemma_rect_shift_right(src, x0 - 1, y0, s, s, id);
                assert(g(id) == self.count_of(id));
                assert((self.counts().contains_key(id) <==> g(id) > 0) && (
                self.counts().contains_key(id) ==> self.counts()[id] == g(id)));
            }
        }
    }

    /// Moves the window one row up.
    fn move_dec_y(&mut self)
        requires
            old(self).wf(),
            Self::place_ok(old(self).spec_top_left().spec_offset(0, -1), old(self).spec_size()),
        ensures
            final(self).wf(),
            final(self).spec_source() == old(self).spec_source(),
            final(self).spec_size() == old(self).spec_size(),
            final(self).spec_top_left() == old(self).spec_top_left().spec_offset(0, -1),
    {
        let ghost src = self.source;
        let size = self.size;
        let ghost x0 = self.top_left.x as int;
        let ghost y0 = self.top_left.y as int;
        let ghost s = size as int;
        proof {
            let g = |id: EntityId| self.count_of(id);
            let g2 = |id: EntityId| rect_count(src, x0, y0, s, s, id) + row_count(src, y0 - 1, x0, 0, id) - row_count(src, y0 - 1 + s, x0, 0, id);
            assert forall|id: EntityId|
                #![trigger self.counts().contains_key(id)]
                #![trigger g2(id)]
                (self.counts().contains_key(id) <==> g2(id) > 0) && (
                self.counts().contains_key(id) ==> self.counts()[id] == g2(id)) by {
                assert(g(id) == g2(id));
                assert((self.counts().contains_key(id) <==> self.count_of(id) > 0) && (
                self.counts().contains_key(id) ==> self.counts()[id] == self.count_of(id)));
            }
        }
        self.top_left = TilePosition { x: self.top_left.x, y: self.top_left.y - 1 };
        let tl = self.top_left;
        let mut x: i32 = 0;
        while x < size
            invariant
                0 <= x <= size,
                size == self.size,
                s == size,
                self.size == old(self).size,
                self.source == src,
                src == old(self).spec_source(),
                src.source_wf(),
                self.top_left == tl,
                tl == old(self).spec_top_left().spec_offset(0, -1),
                x0 == old(self).spec_top_left().x,
                y0 == old(self).spec_top_left().y,
                Self::place_ok(old(self).spec_top_left(), size),
                Self::place_ok(old(self).spec_top_left().spec_offset(0, -1), size),
                represents(self.counts(), |id: EntityId| rect_count(src, x0, y0, s, s, id) + row_count(src, y0 - 1, x0, x as int, id) - row_count(src, y0 - 1 + s, x0, x as int, id)),
            decreases size - x,
        {
            let ghost f = |id: EntityId| rect_count(src, x0, y0, s, s, id) + row_count(src, y0 - 1, x0, x as int, id) - row_count(src, y0 - 1 + s, x0, x as int, id);
            proof {
                assert forall|id: EntityId| 0 <= #[trigger] f(id) < u32::MAX by {
                    lemma_rect_bounds(src, x0, y0, s, s, id); lemma_row_bounds(src, y0 - 1, x0, s, id); lemma_row_bounds(src, y0 - 1 + s, x0, s, id);
                    assert(s * s <= 46_340 * 46_340) by (nonlinear_arith)
                        requires
                            0 <= s <= 46_340,
                    ;
                }
            }
            let ipos = tl.offset(x, 0);
            self.inc_at(ipos, Ghost(f));
            let ghost f2 = |id: EntityId| f(id) + cell(src, ipos.x as int, ipos.y as int, id);
            let dpos = tl.offset(x, size);
            proof {
                assert forall|id: EntityId|
                    #[trigger] f2(id) - cell(src, dpos.x as int, dpos.y as int, id) >= 0 by {
                    lemma_rect_bounds(src, x0, y0, s, s, id); lemma_row_bounds(src, y0 - 1, x0, s, id); lemma_row_bounds(src, y0 - 1 + s, x0, s, id);
                    assert(row_count(src, y0 - 1 + s, x0, x + 1, id) == row_count(src, y0 - 1 + s, x0, x as int, id) + cell(src, x0 + x, y0 - 1 + s, id));
                }
            }
            self.dec_at(dpos, Ghost(f2));
            proof {
                let g = |id: EntityId| f2(id) - cell(src, dpos.x as int, dpos.y as int, id);
                let g2 = |id: EntityId| rect_count(src, x0, y0, s, s, id) + row_count(src, y0 - 1, x0, x + 1, id) - row_count(src, y0 - 1 + s, x0, x + 1, id);
                assert forall|id: EntityId|
                    #![trigger self.counts().contains_key(id)]
                    #![trigger g2(id)]
                    (self.counts().contains_key(id) <==> g2(id) > 0) && (
                    self.counts().contains_key(id) ==> self.counts()[id] == g2(id)) by {
                    assert(g(id) == g2(id));
                    assert((self.counts().contains_key(id) <==> g(id) > 0) && (
                    self.counts().contains_key(id) ==> self.counts()[id] == g(id)));
                }
            }
            x = x + 1;
        }

        proof {
            let g = |id: EntityId| rect_count(src, x0, y0, s, s, id) + row_count(src, y0 - 1, x0, s, id) - row_count(src, y0 - 1 + s, x0, s, id);
            assert forall|id: EntityId|
                #![trigger self.counts().contains_key(id)]
                #![trigger self.count_of(id)]
                (self.counts().contains_key(id) <==> self.count_of(id) > 0) && (
                self.counts().contains_key(id) ==> self.counts()[id] == self.count_of(id)) by {
                lemma_rect_shift_down(src, x0, y0 - 1, s, s, id);
                assert(g(id) == self.count_of(id));
                assert((self.counts().contains_key(id) <==> g(id) > 0) && (
                self.counts().contains_key(id) ==> self.counts()[id] == g(id)));
            }
        }
    }

    /// Moves the window by `dx` columns and `dy` rows, a step at a time.
    fn move_rel(&mut self, dx: i32, dy: i32)
        requires
            old(self).wf(),
            old(self).spec_top_left().can_offset(dx as int, dy as int),
            Self::place_ok(
                old(self).spec_top_left().spec_offset(dx as int, dy as int),
                old(self).spec_size(),
            ),
        ensures
            final(self).wf(),
            final(self).spec_source() == old(self).spec_source(),
            final(self).spec_size() == old(self).spec_size(),
            final(self).spec_top_left() == old(self).spec_top_left().spec_offset(
                dx as int,
                dy as int,
            ),
    {
        let ghost start = self.top_left;
        let mut i: i32 = 0;
        if dx > 0 {
            while i < dx
                invariant
                    0 <= i <= dx,
                    self.wf(),
                    self.spec_source() == old(self).spec_source(),
                    self.spec_size() == old(self).spec_size(),
                    start == old(self).spec_top_left(),
                    Self::place_ok(start, self.spec_size()),
                    start.can_offset(dx as int, dy as int),
                    Self::place_ok(start.spec_offset(dx as int, dy as int), self.spec_size()),
                    self.spec_top_left() == start.spec_offset(i as int, 0),
                decreases dx - i,
            {
                self.move_inc_x();
                i = i + 1;
            }
        } else {
            while i > dx
                invariant
                    dx <= i <= 0,
                    self.wf(),
                    self.spec_source() == old(self).spec_source(),
                    self.spec_size() == old(self).spec_size(),
                    start == old(self).spec_top_left(),
                    Self::place_ok(start, self.spec_size()),
                    start.can_offset(dx as int, dy as int),
                    Self::place_ok(start.spec_offset(dx as int, dy as int), self.spec_size()),
                    self.spec_top_left() == start.spec_offset(i as int, 0),
                decreases i - dx,
            {
                self.move_dec_x();
                i = i - 1;
            }
        }
        let mut j: i32 = 0;
        if dy > 0 {
            while j < dy
                invariant
                    0 <= j <= dy,
                    i == dx,
                    self.wf(),
                    self.spec_source() == old(self).spec_source(),
                    self.spec_size() == old(self).spec_size(),
                    start == old(self).spec_top_left(),
                    Self::place_ok(start, self.spec_size()),
                    start.can_offset(dx as int, dy as int),
                    Self::place_ok(start.spec_offset(dx as int, dy as int), self.spec_size()),
                    self.spec_top_left() == start.spec_offset(dx as int, j as int),
                decreases dy - j,
            {
                self.move_inc_y();
                j = j + 1;
            }
        } else {
            while j > dy
                invariant
                    dy <= j <= 0,
                    i == dx,
                    self.wf(),
                    self.spec_source() == old(self).spec_source(),
                    self.spec_size() == old(self).spec_size(),
                    start == old(self).spec_top_left(),
                    Self::place_ok(start, self.spec_size()),
                    start.can_offset(dx as int, dy as int),
                    Self::place_ok(start.spec_offset(dx as int, dy as int), self.spec_size()),
                    self.spec_top_left() == start.spec_offset(dx as int, j as int),
                decreases j - dy,
            {
                self.move_dec_y();
                j = j - 1;
            }
        }
    }

    /// Moves the window so that its top-left tile is `new_top_left`: by
    /// counting anew where the `size * size` tiles of a fresh count are no
    /// more than the `2 * size` tiles that each single step touches, times
    /// the number of steps, and step by step otherwise. Afterwards the
    /// counts are those of the tiles of the window in its new place,
    /// whichever way the move was made.
    pub fn move_to(&mut self, new_top_left: TilePosition)
        requires
            old(self).wf(),
            Self::place_ok(new_top_left, old(self).spec_size()),
        ensures
            final(self).wf(),
            final(self).spec_source() == old(self).spec_source(),
            final(self).spec_size() == old(self).spec_size(),
            final(self).spec_top_left() == new_top_left,
    {
        if self.top_left == new_top_left {
            return ;
        }
        let ddx: i64 = new_top_left.x as i64 - self.top_left.x as i64;
        let ddy: i64 = new_top_left.y as i64 - self.top_left.y as i64;
        let dx: i64 = if ddx >= 0 {
            ddx
        } else {
            -ddx
        };
        let dy: i64 = if ddy >= 0 {
            ddy
        } else {
            -ddy
        };
        let size: i64 = self.size as i64;
        assert(size * size <= 46_340 * 46_340) by (nonlinear_arith)
            requires
                0 <= size <= 46_340,
        ;
        assert(0 <= size * (dx + dy) <= 46_340 * 8_400_000_000) by (nonlinear_arith)
            requires
                0 <= size <= 46_340,
                0 <= dx + dy <= 8_400_000_000,
        ;
        let work_jump: i64 = size * size;
        let work_move: i64 = 2 * (size * (dx + dy));
        assert(work_move == 2 * size * (dx + dy)) by (nonlinear_arith)
            requires
                work_move == 2 * (size * (dx + dy)),
        ;
        if work_jump <= work_move {
            self.jump_to(new_top_left);
        } else {
            assert(dx + dy < size) by (nonlinear_arith)
                requires
                    size * size > 2 * size * (dx + dy),
                    size >= 0,
                    dx + dy >= 0,
            ;
            self.move_rel(ddx as i32, ddy as i32);
        }
    }
}

/// Two windows of one size over one source that stand in the same place hold
/// the same counts, however each of them got there.
pub proof fn lemma_window_items_depend_on_place<T: GetAtPos>(
    a: &Moving2DWindow<T>,
    b: &Moving2DWindow<T>,
)
    requires
        a.wf(),
        b.wf(),
        a.spec_source() == b.spec_source(),
        a.spec_top_left() == b.spec_top_left(),
        a.spec_size() == b.spec_size(),
    ensures
        a.counts().dom() == b.counts().dom(),
        a.counts() == b.counts(),
{
    assert forall|id: EntityId| a.counts().contains_key(id) <==> b.counts().contains_key(id) by {
        assert(a.counts().contains_key(id) <==> a.count_of(id) > 0);
        assert(b.counts().contains_key(id) <==> b.count_of(id) > 0);
    }
    assert(a.counts().dom() =~= b.counts().dom());
    assert forall|id: EntityId| a.counts().contains_key(id) implies a.counts()[id]
        == b.counts()[id] by {
        assert(a.counts()[id] == a.count_of(id));
        assert(b.counts().contains_key(id));
        assert(b.counts()[id] == b.count_of(id));
    }
    assert(a.counts() =~= b.counts());
}

/// The radius by which a kind of window reaches about a pole.
pub trait PoleWindowParams {
    spec fn spec_radius(pole_data: PoleData) -> i64;

    fn get_radius(pole_data: PoleData) -> (r: i64)
        requires
            pole_data.wf(),
        ensures
            r == Self::spec_radius(pole_data),
            0 <= r <= MAX_RADIUS,
    ;
}

/// By how much the window in which partners for a wire are looked for is
/// wider, to every side, than the wire is long: two tiles. A pole need not
/// stand in the middle of its tile, and the test of the wire's length has
/// a tolerance; with this margin the tile of every pole within reach lies in
/// the window.
pub const SEARCH_MARGIN: i64 = 2_000_000;

/// The largest radius of a window.
pub const MAX_RADIUS: i64 = 1_002_000_000;

/// The window in which the partners for a wire from a pole are looked for.
#[derive(Clone, Copy, Debug)]
pub struct WireSearch;

impl PoleWindowParams for WireSearch {
    open spec fn spec_radius(pole_data: PoleData) -> i64 {
        (pole_data.wire_distance + SEARCH_MARGIN) as i64
    }

    fn get_radius(pole_data: PoleData) -> (r: i64) {
        pole_data.wire_distance + SEARCH_MARGIN
    }
}

/// The window that holds what a pole can be wired to.
#[derive(Clone, Copy, Debug)]
pub struct WireReach;

/// The window that holds what a pole powers.
#[derive(Clone, Copy, Debug)]
pub struct PoleCoverage;

impl PoleWindowParams for WireReach {
    open spec fn spec_radius(pole_data: PoleData) -> i64 {
        pole_data.wire_distance
    }

    fn get_radius(pole_data: PoleData) -> (r: i64) {
        pole_data.wire_distance
    }
}

impl PoleWindowParams for PoleCoverage {
    open spec fn spec_radius(pole_data: PoleData) -> i64 {
        pole_data.supply_radius
    }

    fn get_radius(pole_data: PoleData) -> (r: i64) {
        pole_data.supply_radius
    }
}

/// The top-left tile of the window of radius `radius` about `pos`: the tile
/// that holds `pos - (radius, radius)`.
pub open spec fn spec_window_top_left(radius: i64, pos: MapPosition) -> TilePosition {
    TilePosition { x: tile_floor(pos.x - radius) as i32, y: tile_floor(pos.y - radius) as i32 }
}

/// The place within its tile (the centre, or the corner) about which a
/// footprint of `tiles` tiles along one axis is centred.
pub open spec fn spec_rep_center(tiles: u32) -> int {
    (tiles % 2) * HALF_TILE
}

/// The number of tiles that the span of `radius` to both sides of the centre
/// of a footprint of `tiles` tiles overlaps along one axis.
pub open spec fn spec_axis_span(tiles: u32, radius: i64) -> int {
    tile_ceil(spec_rep_center(tiles) + radius) - tile_floor(spec_rep_center(tiles) - radius)
}

/// The side of the window of radius `radius` for a pole with a footprint of
/// `tile_width` by `tile_height` tiles: the smallest number of tiles that
/// covers `2 * radius` along either axis.
pub open spec fn spec_window_size(tile_width: u32, tile_height: u32, radius: i64) -> int {
    let sx = spec_axis_span(tile_width, radius);
    let sy = spec_axis_span(tile_height, radius);
    if sx >= sy {
        sx
    } else {
        sy
    }
}

/// One window per pole prototype over a model, made when the prototype is
/// first asked for and moved from pole to pole after that.
pub struct PoleWindows<'a, P: PoleWindowParams> {
    model: &'a BpModel,
    windows_by_proto: Vec<(EntityPrototypeRef, Moving2DWindow<&'a BpModel>)>,
    marker: P,
}

impl<'a, P: PoleWindowParams> PoleWindows<'a, P> {
    pub closed spec fn spec_model(&self) -> &'a BpModel {
        self.model
    }

    pub closed spec fn windows(&self) -> Seq<(EntityPrototypeRef, Moving2DWindow<&'a BpModel>)> {
        self.windows_by_proto@
    }

    /// Whether the window at position `i` is well formed, looks at the
    /// model, and has the side that its prototype asks for.
    pub open spec fn window_ok(&self, i: int) -> bool {
        let (proto, window) = self.windows()[i];
        &&& window.wf()
        &&& window.spec_source() == self.spec_model()
        &&& proto.value().pole_data is Some
        &&& proto.value().wf()
        &&& window.spec_size() == spec_window_size(
            proto.value().tile_width,
            proto.value().tile_height,
            P::spec_radius(proto.value().pole_data->0),
        )
    }

    /// The model is well formed, and so is every window.
    pub open spec fn wf(&self) -> bool {
        &&& self.spec_model().wf()
        &&& forall|i: int| 0 <= i < self.windows().len() ==> #[trigger] self.window_ok(i)
    }

    /// No windows yet.
    pub fn new(model: &'a BpModel, marker: P) -> (r: Self)
        requires
            model.wf(),
        ensures
            r.wf(),
            r.spec_model() == model,
    {
        PoleWindows { model, windows_by_proto: Vec::new(), marker }
    }

    fn get_window_top_left(pole_data: PoleData, pos: MapPosition) -> (r: TilePosition)
        requires
            pole_data.wf(),
            pos.in_world(),
        ensures
            r == spec_window_top_left(P::spec_radius(pole_data), pos),
            -2_000_001_005 <= r.x <= 2_000_001_005,
            -2_000_001_005 <= r.y <= 2_000_001_005,
    {
        let radius = P::get_radius(pole_data);
        proof {
            lemma_tile_floor_bounds(pos.x - radius);
            lemma_tile_floor_bounds(pos.y - radius);
        }
        MapPosition { x: pos.x - radius, y: pos.y - radius }.tile_pos()
    }

    fn axis_span(tiles: u32, radius: i64) -> (r: i32)
        requires
            0 <= radius <= MAX_RADIUS,
        ensures
            r == spec_axis_span(tiles, radius),
            0 <= r <= 2_008,
    {
        let rep: i64 = (tiles % 2) as i64 * HALF_TILE;
        proof {
            lemma_tile_floor_bounds(rep - radius);
            lemma_tile_floor_bounds(rep + radius);
        }
        let lo = tile_floor_of(rep - radius);
        let hi = tile_ceil_of(rep + radius);
        (hi - lo) as i32
    }

    fn get_window_size(prototype: &EntityPrototypeRef, pole_data: PoleData) -> (r: i32)
        requires
            pole_data.wf(),
        ensures
            r == spec_window_size(
                prototype.value().tile_width,
                prototype.value().tile_height,
                P::spec_radius(pole_data),
            ),
            0 <= r <= 2_008,
    {
        let radius = P::get_radius(pole_data);
        let sx = Self::axis_span(prototype.get().tile_width, radius);
        let sy = Self::axis_span(prototype.get().tile_height, radius);
        if sx >= sy {
            sx
        } else {
            sy
        }
    }

    /// The position among the windows of the one made for `prototype`.
    fn find(&self, prototype: &EntityPrototypeRef) -> (r: Option<usize>)
        ensures
            r is Some ==> r->0 < self.windows().len() && self.windows()[r->0 as int].0
                == *prototype,
    {
        let mut i: usize = 0;
        while i < self.windows_by_proto.len()
            invariant
                0 <= i <= self.windows_by_proto@.len(),
            decreases self.windows_by_proto@.len() - i,
        {
            if self.windows_by_proto[i].0.ptr_eq(prototype) {
                return Some(i);
            }
            i = i + 1;
        }
        None
    }

    /// Moves the window of the prototype of `pole` so that it is centred on
    /// `pole`, making the window first if the prototype has none yet. The
    /// result is the position of that window among `windows()`.
    pub fn place_window_for(&mut self, pole: &WorldEntity) -> (r: usize)
        requires
            old(self).wf(),
            pole.wf(),
            pole.prototype.value().pole_data is Some,
        ensures
            final(self).wf(),
            final(self).spec_model() == old(self).spec_model(),
            r < final(self).windows().len(),
            final(self).window_ok(r as int),
            final(self).windows()[r as int].1.spec_top_left() == spec_window_top_left(
                P::spec_radius(pole.prototype.value().pole_data->0),
                pole.position,
            ),
            final(self).windows()[r as int].1.spec_size() == spec_window_size(
                pole.prototype.value().tile_width,
                pole.prototype.value().tile_height,
                P::spec_radius(pole.prototype.value().pole_data->0),
            ),
    {
        let pole_data = match pole.prototype.get().pole_data {
            Some(d) => d,
            None => PoleData { supply_radius: 0, wire_distance: 0 },
        };
        let top_left = Self::get_window_top_left(pole_data, pole.position);
        match self.find(&pole.prototype) {
            Some(i) => {
                let ghost before = *self;
                assert(before.window_ok(i as int));
                let (proto, mut window) = self.windows_by_proto.remove(i);
                window.move_to(top_left);
                self.windows_by_proto.insert(i, (proto, window));
                proof {
                    assert forall|k: int| 0 <= k < self.windows().len() implies #[trigger]
                        self.window_ok(k) by {
                        if k != i {
                            assert(self.windows()[k] == before.windows()[k]);
                            assert(before.window_ok(k));
                        }
                    }
                }
                i
            },
            None => {
                let size = Self::get_window_size(&pole.prototype, pole_data);
                let window = Moving2DWindow::new(self.model, top_left, size);
                let ghost before = *self;
                self.windows_by_proto.push((pole.prototype.share(), window));
                proof {
                    assert forall|k: int| 0 <= k < self.windows().len() implies #[trigger]
                        self.window_ok(k) by {
                        if k < before.windows().len() {
                            assert(self.windows()[k] == before.windows()[k]);
                            assert(before.window_ok(k));
                        }
                    }
                }
                self.windows_by_proto.len() - 1
            },
        }
    }

    /// The window at position `i`.
    pub fn window(&self, i: usize) -> (r: &Moving2DWindow<&'a BpModel>)
        requires
            i < self.windows().len(),
        ensures
            *r == self.windows()[i as int].1,
    {
        &self.windows_by_proto[i].1
    }

    /// The window of the prototype of `pole`, moved so that it is centred on
    /// `pole`.
    pub fn get_window_for(&mut self, pole: &WorldEntity) -> (r: &Moving2DWindow<&'a BpModel>)
        requires
            old(self).wf(),
            pole.wf(),
            pole.prototype.value().pole_data is Some,
        ensures
            final(self).wf(),
            final(self).spec_model() == old(self).spec_model(),
            r.wf(),
            r.spec_source() == old(self).spec_model(),
            r.spec_top_left() == spec_window_top_left(
                P::spec_radius(pole.prototype.value().pole_data->0),
                pole.position,
            ),
            r.spec_size() == spec_window_size(
                pole.prototype.value().tile_width,
                pole.prototype.value().tile_height,
                P::spec_radius(pole.prototype.value().pole_data->0),
            ),
    {
        let i = self.place_window_for(pole);
        assert(self.window_ok(i as int));
        &self.windows_by_proto[i].1
    }
}

pub type WireReachWindows<'a> = PoleWindows<'a, WireReach>;

pub type PoleCoverageWindows<'a> = PoleWindows<'a, PoleCoverage>;

proof fn lemma_take_push_contains(s: Seq<EntityId>, a: EntityId, x: EntityId)
    ensures
        s.push(a).contains(x) <==> (s.contains(x) || x == a),
{
    if s.push(a).contains(x) {
        let k = choose|k: int| 0 <= k < s.push(a).len() && s.push(a)[k] == x;
        if k < s.len() {
            assert(s[k] == x);
        }
    }
    if s.contains(x) {
        let k = choose|k: int| 0 <= k < s.len() && s[k] == x;
        assert(s.push(a)[k] == x);
    }
    if x == a {
        assert(s.push(a)[s.len() as int] == x);
    }
}

} // verus!
