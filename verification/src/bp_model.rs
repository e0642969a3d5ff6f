//! The world of placed entities and its tile index.

use crate::pole_graph::among;
use crate::better_bp::BlueprintEntities;
use crate::better_bp::BlueprintEntityData;
use crate::better_bp::EntityId;
use crate::prototype_data::EntityPrototypeDict;
use crate::tables::id_map;
use crate::tables::IdMap;
use crate::position::BoundingBox;
use crate::position::CardinalDirection;
use crate::position::MapPosition;
use crate::position::TileBoundingBox;
use crate::position::tile_floor;
use crate::position::TilePosition;
use crate::position::MAX_COORD;
use crate::prototype_data::EntityPrototypeRef;
use crate::prototype_data::PoleData;
use crate::prototype_data::MAX_REACH;
use crate::tables::entity_table;
use crate::tables::id_set;
use crate::tables::tile_buckets;
use crate::tables::EntityTable;
use crate::tables::IdSet;
use crate::tables::TileBuckets;
use crate::sorting::lemma_same_members;
use crate::sorting::pair_lt;
use crate::sorting::sorted_pairs;
use vstd::prelude::*;

verus! {

/// An entity as it stands in the world: what it is, where, and how it faces.
#[derive(Debug)]
pub struct WorldEntity {
    pub prototype: EntityPrototypeRef,
    pub position: MapPosition,
    pub direction: u8,
}

/// The cables of a pole: the ids of the poles at their other ends.
#[derive(Debug)]
pub struct PoleConnections {
    pub connections: IdSet,
}

/// What the model keeps for an entity besides its place.
#[derive(Debug)]
pub enum EntityExtraData {
    Pole(PoleConnections),
    NoExtra,
}

/// An entity of a model, under its id.
#[derive(Debug)]
pub struct ModelEntity {
    pub entity: WorldEntity,
    pub id: EntityId,
    pub extra: EntityExtraData,
}

impl WorldEntity {
    /// The prototype is well formed and the position lies in the world.
    pub open spec fn wf(&self) -> bool {
        &&& self.prototype.value().wf()
        &&& self.position.in_world()
    }

    /// Whether the entity is well formed.
    pub fn is_valid(&self) -> (r: bool)
        ensures
            r == self.wf(),
    {
        self.prototype.get().is_valid() && self.position.is_in_world()
    }

    pub open spec fn spec_local_bbox(&self) -> BoundingBox {
        self.prototype.value().collision_box.spec_rotate(
            CardinalDirection::spec_from_u8_rounding(self.direction),
        )
    }

    pub open spec fn spec_world_bbox(&self) -> BoundingBox {
        self.spec_local_bbox().spec_translate(self.position.x as int, self.position.y as int)
    }

    /// The tiles that the entity overlaps.
    pub open spec fn tile_box(&self) -> TileBoundingBox {
        self.spec_world_bbox().spec_round_out_to_tiles()
    }

    /// Whether the entity overlaps tile `t`.
    pub open spec fn covers(&self, t: TilePosition) -> bool {
        self.tile_box().contains(t)
    }

    pub open spec fn spec_uses_power(&self) -> bool {
        self.prototype.value().pole_data is None && self.prototype.value().uses_power
    }

    /// The collision box as the entity sees it: its position is the origin.
    pub fn local_bbox(&self) -> (r: BoundingBox)
        requires
            self.wf(),
        ensures
            r == self.spec_local_bbox(),
            -MAX_REACH <= r.min.x <= MAX_REACH,
            -MAX_REACH <= r.min.y <= MAX_REACH,
            -MAX_REACH <= r.max.x <= MAX_REACH,
            -MAX_REACH <= r.max.y <= MAX_REACH,
    {
        let bbox = self.prototype.get().collision_box;
        bbox.rotate(CardinalDirection::from_u8_rounding(self.direction))
    }

    /// The collision box in the world: the local box moved to the position.
    pub fn world_bbox(&self) -> (r: BoundingBox)
        requires
            self.wf(),
        ensures
            r == self.spec_world_bbox(),
            r.has_tiles(),
            -MAX_COORD - MAX_REACH <= r.min.x <= MAX_COORD + MAX_REACH,
            -MAX_COORD - MAX_REACH <= r.min.y <= MAX_COORD + MAX_REACH,
            -MAX_COORD - MAX_REACH <= r.max.x <= MAX_COORD + MAX_REACH,
            -MAX_COORD - MAX_REACH <= r.max.y <= MAX_COORD + MAX_REACH,
    {
        let r = self.local_bbox().translate(self.position.x, self.position.y);
        proof {
            crate::position::lemma_box_has_tiles(r);
        }
        r
    }

    /// Whether the entity draws power from poles: it is no pole itself and its
    /// prototype uses power.
    pub fn uses_power(&self) -> (r: bool)
        ensures
            r == self.spec_uses_power(),
    {
        self.prototype.get().pole_data.is_none() && self.prototype.get().uses_power
    }

    /// Whether both stand for the same entity: one prototype record (by
    /// identity), one position, one direction.
    pub fn same_as(&self, other: &WorldEntity) -> (r: bool)
        ensures
            r ==> *self == *other,
            r ==> (self.position == other.position && self.direction == other.direction),
    {
        self.prototype.ptr_eq(&other.prototype) && self.position == other.position
            && self.direction == other.direction
    }
}

impl Clone for WorldEntity {
    fn clone(&self) -> (r: Self)
        ensures
            r == *self,
    {
        WorldEntity {
            prototype: self.prototype.share(),
            position: self.position,
            direction: self.direction,
        }
    }
}

impl Clone for PoleConnections {
    fn clone(&self) -> (r: Self)
        ensures
            r == *self,
    {
        PoleConnections { connections: self.connections.copy() }
    }
}

impl Clone for EntityExtraData {
    fn clone(&self) -> (r: Self)
        ensures
            r == *self,
    {
        match self {
            EntityExtraData::Pole(p) => EntityExtraData::Pole(p.clone()),
            EntityExtraData::NoExtra => EntityExtraData::NoExtra,
        }
    }
}

impl Clone for ModelEntity {
    fn clone(&self) -> (r: Self)
        ensures
            r == *self,
    {
        ModelEntity { entity: self.entity.clone(), id: self.id, extra: self.extra.clone() }
    }
}

impl ModelEntity {
    pub open spec fn spec_id(&self) -> EntityId {
        self.id
    }

    /// The ids at the other ends of the entity's cables; empty for an entity
    /// that is no pole.
    pub open spec fn neighbors(&self) -> Set<EntityId> {
        match self.extra {
            EntityExtraData::Pole(p) => id_set(p.connections),
            EntityExtraData::NoExtra => Set::empty(),
        }
    }

    /// Whether the entity keeps cables, which is so exactly for poles.
    pub open spec fn keeps_cables(&self) -> bool {
        self.extra is Pole
    }

    /// The entity is well formed, and it keeps cables exactly if its
    /// prototype is a pole.
    pub open spec fn wf(&self) -> bool {
        &&& self.entity.wf()
        &&& self.keeps_cables() == self.entity.prototype.value().spec_is_pole()
    }

    pub fn id(&self) -> (r: EntityId)
        ensures
            r == self.spec_id(),
    {
        self.id
    }

    pub(crate) fn new_empty(id: EntityId, entity: WorldEntity) -> (r: Self)
        ensures
            r.spec_id() == id,
            r.entity == entity,
            r.neighbors() == Set::<EntityId>::empty(),
            r.keeps_cables() == entity.prototype.value().spec_is_pole(),
    {
        let extra = if entity.prototype.get().pole_data.is_some() {
            EntityExtraData::Pole(PoleConnections { connections: IdSet::new() })
        } else {
            EntityExtraData::NoExtra
        };
        ModelEntity { id, extra, entity }
    }

    /// The pole data of the prototype and the cables, for a pole.
    pub fn pole_data(&self) -> (r: Option<(PoleData, &PoleConnections)>)
        requires
            self.wf(),
        ensures
            r is Some == self.keeps_cables(),
            r is Some ==> ({
                let (data, cables) = r->0;
                &&& Some(data) == self.entity.prototype.value().pole_data
                &&& id_set(cables.connections) == self.neighbors()
            }),
    {
        match &self.extra {
            EntityExtraData::Pole(pole) => {
                match self.entity.prototype.get().pole_data {
                    Some(pd) => Some((pd, pole)),
                    None => None,
                }
            },
            _ => None,
        }
    }

    pub(crate) fn pole_connections(&self) -> (r: Option<&PoleConnections>)
        ensures
            r is Some == self.keeps_cables(),
            r is Some ==> id_set(r->0.connections) == self.neighbors(),
    {
        match &self.extra {
            EntityExtraData::Pole(pole) => Some(pole),
            _ => None,
        }
    }

    /// Takes off the cable towards `other`, if the entity lists one.
    pub(crate) fn disconnect_from(&mut self, other: EntityId)
        ensures
            final(self).entity == old(self).entity,
            final(self).spec_id() == old(self).spec_id(),
            final(self).keeps_cables() == old(self).keeps_cables(),
            final(self).neighbors() == old(self).neighbors().remove(other),
    {
        match &mut self.extra {
            EntityExtraData::Pole(pole) => {
                pole.connections.remove(other);
            },
            _ => {
                assert(old(self).neighbors().remove(other) =~= old(self).neighbors());
            },
        }
    }

    /// Adds a cable towards `other`, where the entity keeps cables.
    pub(crate) fn connect_to(&mut self, other: EntityId)
        ensures
            final(self).entity == old(self).entity,
            final(self).spec_id() == old(self).spec_id(),
            final(self).keeps_cables() == old(self).keeps_cables(),
            final(self).neighbors() == (if old(self).keeps_cables() {
                old(self).neighbors().insert(other)
            } else {
                old(self).neighbors()
            }),
    {
        match &mut self.extra {
            EntityExtraData::Pole(pole) => {
                pole.connections.insert(other);
            },
            _ => {},
        }
    }
}


/// By how much farther along an axis than the wire is long a pole can lie
/// and still pass the wire-reach test, in map-space units: the square root
/// of [`REACH_EPS`].
pub const REACH_SLACK: i64 = 1_000;

/// The tolerance of the wire-reach test, in squared map-space units: a
/// millionth of a squared tile.
pub const REACH_EPS: u128 = 1_000_000;

/// The shorter of the wire distances of two poles.
pub open spec fn min_wire(a: PoleData, b: PoleData) -> int {
    if a.wire_distance <= b.wire_distance {
        a.wire_distance as int
    } else {
        b.wire_distance as int
    }
}

/// Whether a pole with data `pole_data` at `pole_pos` could hold a wire to
/// `target`: the target is a pole, and the squared distance is at most the
/// square of the shorter wire distance, plus [`REACH_EPS`].
pub open spec fn spec_connectable(
    pole_pos: MapPosition,
    pole_data: PoleData,
    target: WorldEntity,
) -> bool {
    let proto = target.prototype.value();
    &&& proto.pole_data is Some
    &&& pole_pos.spec_square_distance(target.position) <= min_wire(pole_data, proto.pole_data->0)
        * min_wire(pole_data, proto.pole_data->0) + REACH_EPS
}

/// Whether two entities may share a cable: both are poles, and their squared
/// distance is at most the square of the shorter wire distance.
pub open spec fn spec_linkable(a: WorldEntity, b: WorldEntity) -> bool {
    let pa = a.prototype.value();
    let pb = b.prototype.value();
    &&& pa.pole_data is Some
    &&& pb.pole_data is Some
    &&& a.position.spec_square_distance(b.position) <= min_wire(pa.pole_data->0, pb.pole_data->0)
        * min_wire(pa.pole_data->0, pb.pole_data->0)
}

/// Two entities may share a cable whichever of them is asked first.
pub proof fn lemma_linkable_symmetric(a: WorldEntity, b: WorldEntity)
    ensures
        spec_linkable(a, b) == spec_linkable(b, a),
{
    let dx = a.position.x - b.position.x;
    let dy = a.position.y - b.position.y;
    assert(dx * dx == (-dx) * (-dx)) by (nonlinear_arith);
    assert(dy * dy == (-dy) * (-dy)) by (nonlinear_arith);
    assert(a.position.spec_square_distance(b.position) == b.position.spec_square_distance(
        a.position,
    ));
}

/// Whether tile `t` is among the first `n` of `tiles`.
pub open spec fn listed(tiles: Seq<TilePosition>, n: int, t: TilePosition) -> bool {
    exists|j: int| 0 <= j < n && tiles[j] == t
}

proof fn lemma_push_contains<A>(s: Seq<A>, a: A, x: A)
    ensures
        s.push(a).contains(x) <==> (s.contains(x) || x == a),
{
    if s.push(a).contains(x) {
        let k = choose|k: int| 0 <= k < s.push(a).len() && s.push(a)[k] == x;
        if k < s.len() {
            assert(s[k] == x);
        }
    }
    if s.contains(x) {
        let k = choose|k: int| 0 <= k < s.len() && s[k] == x;
        assert(s.push(a)[k] == x);
    }
    if x == a {
        assert(s.push(a)[s.len() as int] == x);
    }
}

proof fn lemma_push_no_duplicates<A>(s: Seq<A>, a: A)
    requires
        s.no_duplicates(),
        !s.contains(a),
    ensures
        s.push(a).no_duplicates(),
{
    assert forall|i: int, j: int|
        0 <= i < s.push(a).len() && 0 <= j < s.push(a).len() && i != j implies s.push(a)[i]
        != s.push(a)[j] by {
        if i < s.len() && j < s.len() {
        } else if i < s.len() {
            assert(s.contains(s[i]));
        } else {
            assert(s.contains(s[j]));
        }
    }
}

proof fn lemma_remove_contains<A>(s: Seq<A>, k: int, x: A)
    requires
        s.no_duplicates(),
        0 <= k < s.len(),
    ensures
        s.remove(k).contains(x) <==> (s.contains(x) && x != s[k]),
        s.remove(k).no_duplicates(),
{
    let r = s.remove(k);
    if r.contains(x) {
        let i = choose|i: int| 0 <= i < r.len() && r[i] == x;
        if i < k {
            assert(s[i] == x);
        } else {
            assert(s[i + 1] == x);
        }
    }
    if s.contains(x) && x != s[k] {
        let i = choose|i: int| 0 <= i < s.len() && s[i] == x;
        if i < k {
            assert(r[i] == x);
        } else {
            assert(r[i - 1] == x);
        }
    }
    assert forall|i: int, j: int| 0 <= i < r.len() && 0 <= j < r.len() && i != j implies r[i]
        != r[j] by {
        let ii = if i < k { i } else { i + 1 };
        let jj = if j < k { j } else { j + 1 };
        assert(r[i] == s[ii]);
        assert(r[j] == s[jj]);
    }
}

/// The position of `id` in `bucket`, if it is there.
fn position_in(bucket: &Vec<EntityId>, id: EntityId) -> (r: Option<usize>)
    ensures
        r is Some <==> bucket@.contains(id),
        r is Some ==> r->0 < bucket@.len() && bucket@[r->0 as int] == id,
{
    let mut i: usize = 0;
    while i < bucket.len()
        invariant
            0 <= i <= bucket@.len(),
            forall|j: int| 0 <= j < i ==> bucket@[j] != id,
        decreases bucket@.len() - i,
    {
        if bucket[i] == id {
            return Some(i);
        }
        i = i + 1;
    }
    None
}

/// The world: entities by id, and for every tile the ids of the entities
/// that overlap it.
#[derive(Debug)]
pub struct BpModel {
    by_tile: TileBuckets,
    all_entities: EntityTable,
    next_id: EntityId,
}

impl BpModel {
    /// The entities of the model, by id.
    pub closed spec fn entities(&self) -> Map<EntityId, ModelEntity> {
        entity_table(self.all_entities)
    }

    /// The tile index: for each tile that it knows, the ids on it.
    pub closed spec fn buckets(&self) -> Map<(i32, i32), Seq<EntityId>> {
        tile_buckets(self.by_tile)
    }

    /// The id that the next entity added will get.
    pub closed spec fn spec_next_id(&self) -> EntityId {
        self.next_id
    }

    /// Whether the model holds an entity under `id`.
    pub open spec fn has(&self, id: EntityId) -> bool {
        self.entities().contains_key(id)
    }

    /// The ids on tile `t`, in the order in which they came; empty where the
    /// index does not know the tile.
    pub open spec fn bucket(&self, t: TilePosition) -> Seq<EntityId> {
        if self.buckets().contains_key(t.key()) {
            self.buckets()[t.key()]
        } else {
            Seq::empty()
        }
    }

    /// Whether the entity under `id` exists and overlaps tile `t`.
    pub open spec fn occupies(&self, id: EntityId, t: TilePosition) -> bool {
        self.has(id) && self.entities()[id].entity.covers(t)
    }

    /// Whether the entity under `a` exists and lists a cable to `b`.
    pub open spec fn cabled(&self, a: EntityId, b: EntityId) -> bool {
        self.has(a) && self.entities()[a].neighbors().contains(b)
    }

    /// The invariant of the model but for the id counter.
    ///
    /// - Every entity is well formed and stored under its own id.
    /// - No bucket is empty or lists an id twice.
    /// - An id stands in the bucket of a tile exactly if its entity overlaps
    ///   that tile.
    /// - Every cable leads to a pole of the model; cables are mutual, and
    ///   they join only two different poles that are near enough for a wire.
    pub open spec fn index_wf(&self) -> bool {
        &&& self.index_loose()
        &&& forall|a: EntityId, b: EntityId| #[trigger] self.cabled(a, b) ==> self.has(b)
    }

    /// The invariant of the index while an entity is being taken out: as
    /// `index_wf`, but a cable may still lead to an id that is gone.
    pub open spec fn index_loose(&self) -> bool {
        &&& forall|id: EntityId| #[trigger]
            self.has(id) ==> self.entities()[id].wf() && self.entities()[id].id == id
        &&& forall|t: TilePosition| #[trigger]
            self.buckets().contains_key(t.key()) ==> self.buckets()[t.key()].len() > 0
                && self.buckets()[t.key()].no_duplicates()
        &&& forall|t: TilePosition, id: EntityId|
            #![trigger self.bucket(t).contains(id)]
            #![trigger self.occupies(id, t)]
            self.bucket(t).contains(id) <==> self.occupies(id, t)
        &&& forall|a: EntityId, b: EntityId| #[trigger]
            self.cabled(a, b) && self.has(b) ==> self.cabled(b, a) && a != b && spec_linkable(
                self.entities()[a].entity,
                self.entities()[b].entity,
            )
    }

    /// The invariant of the model: `index_wf`, and every id in use, be it
    /// that of an entity or the far end of a cable, is below the next id.
    pub open spec fn wf(&self) -> bool {
        &&& self.index_wf()
        &&& forall|id: EntityId| #[trigger] self.has(id) ==> id.0 < self.spec_next_id().0
        &&& forall|a: EntityId, b: EntityId| #[trigger]
            self.cabled(a, b) ==> b.0 < self.spec_next_id().0
    }

    /// The invariant of the model while an entity is being taken out: as
    /// `wf`, but a cable may still lead to an id that is gone.
    pub open spec fn loose_wf(&self) -> bool {
        &&& self.index_loose()
        &&& forall|id: EntityId| #[trigger] self.has(id) ==> id.0 < self.spec_next_id().0
        &&& forall|a: EntityId, b: EntityId| #[trigger]
            self.cabled(a, b) ==> b.0 < self.spec_next_id().0
    }

    /// An empty model. The first entity will get id 1.
    pub fn new() -> (r: BpModel)
        ensures
            r.wf(),
            r.entities() =~= Map::empty(),
            r.buckets() =~= Map::empty(),
            r.spec_next_id() == EntityId(1),
    {
        BpModel {
            by_tile: TileBuckets::new(),
            all_entities: EntityTable::new(),
            next_id: EntityId(1),
        }
    }

    /// The id that the next entity added will get.
    pub fn next_id(&self) -> (r: EntityId)
        ensures
            r == self.spec_next_id(),
    {
        self.next_id
    }

    /// Puts `entity` under its own id and onto every tile it overlaps.
    pub(crate) fn add_internal(&mut self, entity: ModelEntity)
        requires
            old(self).index_wf(),
            entity.wf(),
            !old(self).has(entity.id),
            entity.neighbors() =~= Set::empty(),
            forall|a: EntityId| !old(self).cabled(a, entity.id),
        ensures
            final(self).index_wf(),
            final(self).spec_next_id() == old(self).spec_next_id(),
            final(self).entities() == old(self).entities().insert(entity.id, entity),
            forall|t: TilePosition| #[trigger]
                final(self).bucket(t) == (if entity.entity.covers(t) {
                    old(self).bucket(t).push(entity.id)
                } else {
                    old(self).bucket(t)
                }),
    {
        let id = entity.id;
        let tiles = entity.entity.world_bbox().iter_tiles();
        proof {
            entity.entity.tile_box().lemma_tiles();
        }
        let mut i: usize = 0;
        while i < tiles.len()
            invariant
                0 <= i <= tiles@.len(),
                tiles@ == entity.entity.tile_box().tiles(),
                tiles@.no_duplicates(),
                old(self).index_wf(),
                !old(self).has(id),
                self.all_entities == old(self).all_entities,
                self.next_id == old(self).next_id,
                forall|t: TilePosition| #[trigger]
                    self.buckets().contains_key(t.key()) ==> self.buckets()[t.key()].len() > 0
                        && self.buckets()[t.key()].no_duplicates(),
                forall|t: TilePosition| #[trigger]
                    self.bucket(t) == (if listed(tiles@, i as int, t) {
                        old(self).bucket(t).push(id)
                    } else {
                        old(self).bucket(t)
                    }),
            decreases tiles@.len() - i,
        {
            let tile = tiles[i];
            let key = tile.to_tuple();
            let ghost before = *self;
            proof {
                assert(!listed(tiles@, i as int, tile));
                assert(before.bucket(tile) == old(self).bucket(tile));
                assert(!old(self).occupies(id, tile));
                assert(!old(self).bucket(tile).contains(id));
            }
            let mut bucket = match self.by_tile.remove(key) {
                Some(v) => v,
                None => Vec::new(),
            };
            assert(bucket@ == before.bucket(tile));
            bucket.push(id);
            proof {
                lemma_push_no_duplicates(before.bucket(tile), id);
            }
            self.by_tile.insert(key, bucket);
            proof {
                assert forall|t: TilePosition| #[trigger]
                    self.buckets().contains_key(t.key()) implies self.buckets()[t.key()].len() > 0
                    && self.buckets()[t.key()].no_duplicates() by {
                    if t.key() == key {
                    } else {
                        assert(before.buckets().contains_key(t.key()));
                    }
                }
                assert forall|t: TilePosition| #[trigger]
                    self.bucket(t) == (if listed(tiles@, i + 1, t) {
                        old(self).bucket(t).push(id)
                    } else {
                        old(self).bucket(t)
                    }) by {
                    if t == tile {
                        assert(tiles@[i as int] == t);
                        assert(listed(tiles@, i + 1, t));
                    } else {
                        assert(t.key() != key);
                        assert(self.bucket(t) == before.bucket(t));
                        if listed(tiles@, i + 1, t) {
                            let j = choose|j: int| 0 <= j < i + 1 && tiles@[j] == t;
                            assert(j < i);
                            assert(listed(tiles@, i as int, t));
                        }
                        if listed(tiles@, i as int, t) {
                            let j = choose|j: int| 0 <= j < i && tiles@[j] == t;
                            assert(listed(tiles@, i + 1, t));
                        }
                    }
                }
            }
            i = i + 1;
        }
        let ghost mid = *self;
        self.all_entities.insert(id, entity);
        proof {
            assert forall|t: TilePosition| #[trigger]
                self.bucket(t) == (if entity.entity.covers(t) {
                    old(self).bucket(t).push(id)
                } else {
                    old(self).bucket(t)
                }) by {
                assert(self.bucket(t) == mid.bucket(t));
                if entity.entity.covers(t) {
                    assert(tiles@.contains(t));
                    let j = choose|j: int| 0 <= j < tiles@.len() && tiles@[j] == t;
                    assert(listed(tiles@, tiles@.len() as int, t));
                } else {
                    if listed(tiles@, tiles@.len() as int, t) {
                        let j = choose|j: int| 0 <= j < tiles@.len() && tiles@[j] == t;
                        assert(tiles@.contains(t));
                    }
                }
            }
            assert forall|t: TilePosition, x: EntityId|
                #![trigger self.bucket(t).contains(x)]
                #![trigger self.occupies(x, t)]
                self.bucket(t).contains(x) <==> self.occupies(x, t) by {
                lemma_push_contains(old(self).bucket(t), id, x);
                assert(old(self).bucket(t).contains(x) <==> old(self).occupies(x, t));
                if x == id {
                    assert(!old(self).occupies(id, t));
                } else {
                    assert(self.has(x) == old(self).has(x));
                }
            }
            assert forall|a: EntityId, b: EntityId| #[trigger]
                self.cabled(a, b) && self.has(b) implies self.cabled(b, a) && a != b
                && spec_linkable(self.entities()[a].entity, self.entities()[b].entity) by {
                assert(a != id);
                assert(old(self).cabled(a, b));
                assert(b != id);
                assert(old(self).has(b));
            }
            assert forall|a: EntityId, b: EntityId| #[trigger] self.cabled(a, b) implies self.has(
                b,
            ) by {
                assert(a != id);
                assert(old(self).cabled(a, b));
                assert(old(self).has(b));
            }
            assert forall|x: EntityId| #[trigger] self.has(x) implies self.entities()[x].wf()
                && self.entities()[x].id == x by {
                if x != id {
                    assert(old(self).has(x));
                }
            }
        }
    }

    /// Adds `entity` under the next id, whatever stands on its tiles already.
    pub fn add_overlap(&mut self, entity: WorldEntity) -> (id: EntityId)
        requires
            old(self).wf(),
            entity.wf(),
            old(self).spec_next_id().0 < u32::MAX,
        ensures
            final(self).wf(),
            id == old(self).spec_next_id(),
            final(self).spec_next_id().0 == id.0 + 1,
            !old(self).has(id),
            final(self).entities().dom() == old(self).entities().dom().insert(id),
            final(self).entities()[id].entity == entity,
            final(self).entities()[id].neighbors() =~= Set::empty(),
            forall|x: EntityId|
                old(self).has(x) ==> #[trigger] final(self).entities()[x] == old(self).entities()[x],
            forall|t: TilePosition| #[trigger]
                final(self).bucket(t) == (if entity.covers(t) {
                    old(self).bucket(t).push(id)
                } else {
                    old(self).bucket(t)
                }),
    {
        let id = self.next_id;
        self.next_id = EntityId(id.0 + 1);
        let ghost mid = *self;
        let e = ModelEntity::new_empty(id, entity);
        proof {
            assert(mid.entities() == old(self).entities());
            assert(mid.buckets() == old(self).buckets());
            assert(mid.index_wf()) by {
                assert forall|x: EntityId| #[trigger] mid.has(x) implies mid.entities()[x].wf()
                    && mid.entities()[x].id == x by {
                    assert(old(self).has(x));
                }
                assert forall|t: TilePosition| #[trigger]
                    mid.buckets().contains_key(t.key()) implies mid.buckets()[t.key()].len() > 0
                    && mid.buckets()[t.key()].no_duplicates() by {
                    assert(old(self).buckets().contains_key(t.key()));
                }
                assert forall|t: TilePosition, x: EntityId|
                    #![trigger mid.bucket(t).contains(x)]
                    #![trigger mid.occupies(x, t)]
                    mid.bucket(t).contains(x) <==> mid.occupies(x, t) by {
                    assert(mid.bucket(t) == old(self).bucket(t));
                    assert(old(self).bucket(t).contains(x) <==> old(self).occupies(x, t));
                }
                assert forall|a: EntityId, b: EntityId| #[trigger]
                    mid.cabled(a, b) && mid.has(b) implies mid.cabled(b, a) && a != b
                    && spec_linkable(mid.entities()[a].entity, mid.entities()[b].entity) by {
                    assert(old(self).cabled(a, b));
                }
                assert forall|a: EntityId, b: EntityId| #[trigger] mid.cabled(a, b) implies mid.has(
                    b,
                ) by {
                    assert(old(self).cabled(a, b));
                }
            }
            assert(!mid.has(id)) by {
                if old(self).has(id) {
                }
            }
            assert forall|a: EntityId| !mid.cabled(a, id) by {
                if mid.cabled(a, id) {
                    assert(old(self).cabled(a, id));
                }
            }
        }
        self.add_internal(e);
        proof {
            assert forall|x: EntityId| #[trigger] self.has(x) implies x.0 < self.spec_next_id().0 by {
                if x != id {
                    assert(old(self).has(x));
                }
            }
            assert forall|a: EntityId, b: EntityId| #[trigger]
                self.cabled(a, b) implies b.0 < self.spec_next_id().0 by {
                assert(a != id);
                assert(old(self).cabled(a, b));
            }
            assert forall|t: TilePosition| #[trigger]
                self.bucket(t) == (if entity.covers(t) {
                    old(self).bucket(t).push(id)
                } else {
                    old(self).bucket(t)
                }) by {
                assert(mid.bucket(t) == old(self).bucket(t));
            }
        }
        id
    }

    /// Whether any entity overlaps `tile`.
    pub fn occupied(&self, tile: TilePosition) -> (r: bool)
        ensures
            r == self.buckets().contains_key(tile.key()),
            self.wf() ==> r == (self.bucket(tile).len() > 0),
            self.wf() ==> r == exists|id: EntityId| self.occupies(id, tile),
    {
        proof {
            if self.wf() {
                if self.buckets().contains_key(tile.key()) {
                    let id = self.bucket(tile)[0];
                    assert(self.bucket(tile).contains(id));
                    assert(self.occupies(id, tile));
                } else {
                    assert forall|id: EntityId| !self.occupies(id, tile) by {
                        assert(!self.bucket(tile).contains(id));
                    }
                }
            }
        }
        self.by_tile.contains_key(tile.to_tuple())
    }

    /// Whether no tile of `tiles` is occupied.
    fn all_free(&self, tiles: &Vec<TilePosition>) -> (r: bool)
        ensures
            r == forall|j: int|
                0 <= j < tiles@.len() ==> !self.buckets().contains_key(#[trigger] tiles@[j].key()),
    {
        let mut i: usize = 0;
        while i < tiles.len()
            invariant
                0 <= i <= tiles@.len(),
                forall|j: int|
                    0 <= j < i ==> !self.buckets().contains_key(#[trigger] tiles@[j].key()),
            decreases tiles@.len() - i,
        {
            if self.occupied(tiles[i]) {
                return false;
            }
            i = i + 1;
        }
        true
    }

    /// Whether `entity` overlaps no tile that is occupied.
    pub open spec fn spec_can_place(&self, entity: WorldEntity) -> bool {
        forall|t: TilePosition| #[trigger]
            entity.covers(t) ==> !self.buckets().contains_key(t.key())
    }

    /// Whether `entity` could be added without overlapping anything.
    pub fn can_place(&self, entity: &WorldEntity) -> (r: bool)
        requires
            entity.wf(),
        ensures
            r == self.spec_can_place(*entity),
    {
        let tiles = entity.world_bbox().iter_tiles();
        let r = self.all_free(&tiles);
        proof {
            entity.tile_box().lemma_tiles();
            if r {
                assert forall|t: TilePosition| #[trigger] entity.covers(t) implies !self.buckets().contains_key(
                    t.key(),
                ) by {
                    assert(tiles@.contains(t));
                    let j = choose|j: int| 0 <= j < tiles@.len() && tiles@[j] == t;
                    assert(!self.buckets().contains_key(tiles@[j].key()));
                }
            } else {
                let j = choose|j: int|
                    0 <= j < tiles@.len() && self.buckets().contains_key(#[trigger] tiles@[j].key());
                assert(entity.covers(tiles@[j]));
            }
        }
        r
    }

    /// Adds `entity` under the next id if it overlaps no occupied tile, and
    /// leaves the model as it is otherwise.
    pub fn add_no_overlap(&mut self, entity: WorldEntity) -> (r: Option<EntityId>)
        requires
            old(self).wf(),
            entity.wf(),
            old(self).spec_next_id().0 < u32::MAX,
        ensures
            final(self).wf(),
            r is Some == old(self).spec_can_place(entity),
            r is None ==> *final(self) == *old(self),
            r is Some ==> {
                let id = r->0;
                &&& id == old(self).spec_next_id()
                &&& final(self).spec_next_id().0 == id.0 + 1
                &&& final(self).entities().dom() == old(self).entities().dom().insert(id)
                &&& final(self).entities()[id].entity == entity
                &&& final(self).entities()[id].neighbors() =~= Set::empty()
                &&& forall|x: EntityId|
                    old(self).has(x) ==> #[trigger] final(self).entities()[x] == old(self).entities()[x]
                &&& forall|t: TilePosition| #[trigger]
                    final(self).bucket(t) == (if entity.covers(t) {
                        old(self).bucket(t).push(id)
                    } else {
                        old(self).bucket(t)
                    })
            },
    {
        if self.can_place(&entity) {
            Some(self.add_overlap(entity))
        } else {
            None
        }
    }

    /// The entity under `id`, if the model holds one.
    pub fn get(&self, id: EntityId) -> (r: Option<&ModelEntity>)
        ensures
            r is Some == self.has(id),
            r is Some ==> *r->0 == self.entities()[id],
    {
        self.all_entities.get(id)
    }

    /// Takes the entity under `id` out of the table and its id off every
    /// tile; a bucket that becomes empty leaves the index. The cables that
    /// other poles list towards `id` are still to be taken off.
    fn take_out(&mut self, id: &EntityId)
        requires
            old(self).loose_wf(),
            old(self).has(*id),
        ensures
            final(self).loose_wf(),
            final(self).spec_next_id() == old(self).spec_next_id(),
            final(self).entities() == old(self).entities().remove(*id),
            forall|t: TilePosition| #[trigger]
                final(self).bucket(t) == (if old(self).bucket(t).contains(*id) {
                    old(self).bucket(t).remove(old(self).bucket(t).index_of(*id))
                } else {
                    old(self).bucket(t)
                }),
    {
        let id = *id;
        let entity = match self.all_entities.remove(id) {
            Some(e) => e,
            None => {
                return ;
            },
        };
        let tiles = entity.entity.world_bbox().iter_tiles();
        proof {
            entity.entity.tile_box().lemma_tiles();
            assert(old(self).entities()[id].wf());
            assert(self.buckets() == old(self).buckets());
            assert forall|t: TilePosition| #[trigger]
                self.buckets().contains_key(t.key()) implies self.buckets()[t.key()].len() > 0
                && self.buckets()[t.key()].no_duplicates() by {
                assert(old(self).buckets().contains_key(t.key()));
            }
        }
        let mut i: usize = 0;
        while i < tiles.len()
            invariant
                0 <= i <= tiles@.len(),
                tiles@ == entity.entity.tile_box().tiles(),
                tiles@.no_duplicates(),
                old(self).loose_wf(),
                old(self).has(id),
                entity == old(self).entities()[id],
                self.entities() == old(self).entities().remove(id),
                self.next_id == old(self).next_id,
                forall|t: TilePosition| #[trigger]
                    self.buckets().contains_key(t.key()) ==> self.buckets()[t.key()].len() > 0
                        && self.buckets()[t.key()].no_duplicates(),
                forall|t: TilePosition| #[trigger]
                    self.bucket(t) == (if listed(tiles@, i as int, t) {
                        old(self).bucket(t).remove(old(self).bucket(t).index_of(id))
                    } else {
                        old(self).bucket(t)
                    }),
            decreases tiles@.len() - i,
        {
            let tile = tiles[i];
            let key = tile.to_tuple();
            let ghost before = *self;
            proof {
                entity.entity.tile_box().lemma_tiles();
                assert(!listed(tiles@, i as int, tile));
                assert(before.bucket(tile) == old(self).bucket(tile));
                assert(tiles@.contains(tile));
                assert(entity.entity.covers(tile));
                assert(old(self).occupies(id, tile));
                assert(old(self).bucket(tile).contains(id));
            }
            let mut bucket = match self.by_tile.remove(key) {
                Some(v) => v,
                None => Vec::new(),
            };
            assert(bucket@ == old(self).bucket(tile));
            let ghost full = bucket@;
            match position_in(&bucket, id) {
                Some(k) => {
                    proof {
                        full.index_of_first_ensures(id);
                        assert(full.index_of(id) == k) by {
                            let q = full.index_of(id);
                            assert(full[q] == id);
                        }
                        lemma_remove_contains(full, k as int, id);
                    }
                    bucket.remove(k);
                },
                None => {},
            }
            if bucket.len() > 0 {
                self.by_tile.insert(key, bucket);
            }
            proof {
                assert forall|t: TilePosition| #[trigger]
                    self.buckets().contains_key(t.key()) implies self.buckets()[t.key()].len() > 0
                    && self.buckets()[t.key()].no_duplicates() by {
                    if t.key() == key {
                    } else {
                        assert(before.buckets().contains_key(t.key()));
                    }
                }
                assert forall|t: TilePosition| #[trigger]
                    self.bucket(t) == (if listed(tiles@, i + 1, t) {
                        old(self).bucket(t).remove(old(self).bucket(t).index_of(id))
                    } else {
                        old(self).bucket(t)
                    }) by {
                    if t == tile {
                        assert(tiles@[i as int] == t);
                        assert(listed(tiles@, i + 1, t));
                        assert(self.bucket(t) =~= full.remove(full.index_of(id)));
                    } else {
                        assert(t.key() != key);
                        assert(self.bucket(t) == before.bucket(t));
                        if listed(tiles@, i + 1, t) {
                            let j = choose|j: int| 0 <= j < i + 1 && tiles@[j] == t;
                            assert(j < i);
                            assert(listed(tiles@, i as int, t));
                        }
                        if listed(tiles@, i as int, t) {
                            let j = choose|j: int| 0 <= j < i && tiles@[j] == t;
                            assert(listed(tiles@, i + 1, t));
                        }
                    }
                }
            }
            i = i + 1;
        }
        proof {
            assert forall|t: TilePosition| #[trigger]
                self.bucket(t) == (if old(self).bucket(t).contains(id) {
                    old(self).bucket(t).remove(old(self).bucket(t).index_of(id))
                } else {
                    old(self).bucket(t)
                }) by {
                assert(old(self).bucket(t).contains(id) <==> old(self).occupies(id, t));
                if entity.entity.covers(t) {
                    assert(tiles@.contains(t));
                    let j = choose|j: int| 0 <= j < tiles@.len() && tiles@[j] == t;
                    assert(listed(tiles@, tiles@.len() as int, t));
                } else {
                    if listed(tiles@, tiles@.len() as int, t) {
                        let j = choose|j: int| 0 <= j < tiles@.len() && tiles@[j] == t;
                        assert(tiles@.contains(t));
                    }
                }
            }
            assert forall|t: TilePosition, x: EntityId|
                #![trigger self.bucket(t).contains(x)]
                #![trigger self.occupies(x, t)]
                self.bucket(t).contains(x) <==> self.occupies(x, t) by {
                let ob = old(self).bucket(t);
                assert(ob.contains(x) <==> old(self).occupies(x, t));
                if ob.contains(id) {
                    assert(old(self).buckets().contains_key(t.key()));
                    ob.index_of_first_ensures(id);
                    let k = ob.index_of(id);
                    assert(ob[k] == id);
                    lemma_remove_contains(ob, k, x);
                }
            }
            assert forall|a: EntityId, b: EntityId| #[trigger]
                self.cabled(a, b) && self.has(b) implies self.cabled(b, a) && a != b
                && spec_linkable(self.entities()[a].entity, self.entities()[b].entity) by {
                assert(old(self).cabled(a, b));
                assert(old(self).has(b));
            }
            assert forall|x: EntityId| #[trigger] self.has(x) implies self.entities()[x].wf()
                && self.entities()[x].id == x && x.0 < self.spec_next_id().0 by {
                assert(old(self).has(x));
            }
            assert forall|a: EntityId, b: EntityId| #[trigger]
                self.cabled(a, b) implies b.0 < self.spec_next_id().0 by {
                assert(old(self).cabled(a, b));
            }
        }
    }

    /// Removes the entity under `id`: it leaves the table, its id leaves
    /// every tile (a bucket that becomes empty leaves the index), and the
    /// poles that shared a cable with it list that cable no more.
    #[verifier::loop_isolation(false)]
    pub fn remove(&mut self, id: &EntityId)
        requires
            old(self).wf(),
            old(self).has(*id),
        ensures
            final(self).wf(),
            final(self).spec_next_id() == old(self).spec_next_id(),
            final(self).entities().dom() == old(self).entities().dom().remove(*id),
            forall|x: EntityId| #[trigger]
                final(self).has(x) ==> final(self).entities()[x].entity == old(self).entities()[x].entity
                    && final(self).entities()[x].neighbors() == old(self).entities()[x].neighbors().remove(
                    *id,
                ),
            forall|x: EntityId|
                #[trigger] final(self).has(x) && !old(self).cabled(x, *id) ==> final(self).entities()[x]
                    == old(self).entities()[x],
            forall|t: TilePosition| #[trigger]
                final(self).bucket(t) == (if old(self).bucket(t).contains(*id) {
                    old(self).bucket(t).remove(old(self).bucket(t).index_of(*id))
                } else {
                    old(self).bucket(t)
                }),
    {
        let gone = *id;
        let others: Vec<EntityId> = match self.all_entities.get(gone) {
            Some(e) => match &e.extra {
                EntityExtraData::Pole(p) => p.connections.to_vec(),
                EntityExtraData::NoExtra => Vec::new(),
            },
            None => Vec::new(),
        };
        proof {
            assert(others@.to_set() =~= old(self).entities()[gone].neighbors()) by {
                if old(self).entities()[gone].extra is NoExtra {
                    assert(others@ =~= Seq::empty());
                }
            }
        }
        self.take_out(id);
        let ghost mid = *self;
        assert(!mid.has(gone));
        let mut k: usize = 0;
        while k < others.len()
            invariant
                0 <= k <= others@.len(),
                !mid.has(gone),
                self.loose_wf(),
                self.spec_next_id() == mid.spec_next_id(),
                self.buckets() == mid.buckets(),
                self.entities().dom() == mid.entities().dom(),
                forall|x: EntityId| #[trigger]
                    self.has(x) ==> self.entities()[x].entity == mid.entities()[x].entity
                        && self.entities()[x].neighbors() == (if among(others@, k as int, x) {
                        mid.entities()[x].neighbors().remove(gone)
                    } else {
                        mid.entities()[x].neighbors()
                    }),
                forall|x: EntityId|
                    #[trigger] self.has(x) && !among(others@, k as int, x) ==> self.entities()[x]
                        == mid.entities()[x],
            decreases others@.len() - k,
        {
            let n = others[k];
            let ghost before = *self;
            match self.all_entities.remove(n) {
                Some(e) => {
                    let mut e = e;
                    e.disconnect_from(gone);
                    self.all_entities.insert(n, e);
                    proof {
                        assert(self.entities().dom() =~= before.entities().dom());
                        assert forall|x: EntityId| #[trigger] self.has(x) implies self.entities()[x].entity
                            == before.entities()[x].entity && self.entities()[x].id
                            == before.entities()[x].id && self.entities()[x].keeps_cables()
                            == before.entities()[x].keeps_cables() && (x != n ==> self.entities()[x]
                            == before.entities()[x]) && self.entities()[n].neighbors()
                            == before.entities()[n].neighbors().remove(gone) by {}
                        assert(!before.has(gone));
                        lemma_detached(&before, self, gone);
                    }
                },
                None => {
                    proof {
                        assert(self.entities() =~= before.entities());
                        lemma_detached(&before, self, gone);
                    }
                },
            }
            proof {
                assert forall|x: EntityId| #[trigger] self.has(x) implies self.entities()[x].entity
                    == mid.entities()[x].entity && self.entities()[x].neighbors() == (if among(
                    others@,
                    k + 1,
                    x,
                ) {
                    mid.entities()[x].neighbors().remove(gone)
                } else {
                    mid.entities()[x].neighbors()
                }) by {
                    assert(before.has(x));
                    if x == n {
                        assert(among(others@, k + 1, x)) by {
                            assert(others@[k as int] == x);
                        }
                        assert(before.entities()[x].neighbors().remove(gone)
                            =~= mid.entities()[x].neighbors().remove(gone));
                    } else {
                        assert(among(others@, k + 1, x) == among(others@, k as int, x)) by {
                            if among(others@, k + 1, x) {
                                let j = choose|j: int| 0 <= j < k + 1 && others@[j] == x;
                                assert(j < k);
                            }
                            if among(others@, k as int, x) {
                                let j = choose|j: int| 0 <= j < k && others@[j] == x;
                                assert(0 <= j < k + 1 && others@[j] == x);
                            }
                        }
                    }
                }
                assert forall|x: EntityId|
                    #[trigger] self.has(x) && !among(others@, k + 1, x) implies self.entities()[x]
                    == mid.entities()[x] by {
                    assert(before.has(x));
                    if x == n {
                        assert(others@[k as int] == x);
                    }
                    if among(others@, k as int, x) {
                        let j = choose|j: int| 0 <= j < k && others@[j] == x;
                        assert(0 <= j < k + 1 && others@[j] == x);
                    }
                }
            }
            k = k + 1;
        }
        proof {
            let all = others@.len() as int;
            assert forall|x: EntityId| old(self).cabled(x, gone) implies among(others@, all, x) by {
                assert(old(self).has(gone));
                assert(old(self).cabled(gone, x));
                assert(others@.to_set().contains(x));
                let j = choose|j: int| 0 <= j < others@.len() && others@[j] == x;
                assert(0 <= j < all && others@[j] == x);
            }
            assert forall|x: EntityId| #[trigger] self.has(x) implies self.entities()[x].entity
                == old(self).entities()[x].entity && self.entities()[x].neighbors() == old(
                self,
            ).entities()[x].neighbors().remove(gone) by {
                assert(mid.has(x));
                assert(mid.entities()[x] == old(self).entities()[x]);
                if !among(others@, all, x) {
                    assert(!old(self).cabled(x, gone));
                    assert(old(self).entities()[x].neighbors().remove(gone) =~= old(
                        self,
                    ).entities()[x].neighbors());
                }
            }
            assert forall|x: EntityId|
                #[trigger] self.has(x) && !old(self).cabled(x, gone) implies self.entities()[x]
                == old(self).entities()[x] by {
                assert(mid.has(x));
                if among(others@, all, x) {
                    let j = choose|j: int| 0 <= j < all && others@[j] == x;
                    assert(others@.to_set().contains(x));
                    assert(old(self).cabled(gone, x));
                    assert(old(self).has(x));
                    assert(old(self).cabled(x, gone));
                }
            }
            assert forall|a: EntityId, b: EntityId| #[trigger] self.cabled(a, b) implies self.has(
                b,
            ) by {
                assert(old(self).cabled(a, b));
                assert(b != gone);
            }
            assert forall|t: TilePosition| #[trigger]
                self.bucket(t) == (if old(self).bucket(t).contains(gone) {
                    old(self).bucket(t).remove(old(self).bucket(t).index_of(gone))
                } else {
                    old(self).bucket(t)
                }) by {
                assert(self.bucket(t) == mid.bucket(t));
            }
        }
    }

    /// Joins two poles by a cable, listed at both ends. Nothing changes, and
    /// the result is `None`, unless the ids differ, both entities exist and
    /// are poles, and their distance is at most the shorter of their wire
    /// distances.
    pub fn add_cable_connection(&mut self, id: EntityId, other_id: EntityId) -> (r: Option<()>)
        requires
            old(self).wf(),
        ensures
            final(self).wf(),
            r is Some <==> (id != other_id && old(self).has(id) && old(self).has(other_id)
                && spec_linkable(
                old(self).entities()[id].entity,
                old(self).entities()[other_id].entity,
            )),
            r is None ==> *final(self) == *old(self),
            final(self).spec_next_id() == old(self).spec_next_id(),
            final(self).buckets() == old(self).buckets(),
            final(self).entities().dom() == old(self).entities().dom(),
            forall|x: EntityId| #[trigger]
                final(self).has(x) ==> final(self).entities()[x].entity == old(self).entities()[x].entity,
            forall|x: EntityId|
                x != id && x != other_id && old(self).has(x) ==> #[trigger] final(self).entities()[x] == old(self).entities()[x],
            r is Some ==> final(self).entities()[id].neighbors() == old(self).entities()[id].neighbors().insert(other_id),
            r is Some ==> final(self).entities()[other_id].neighbors() == old(self).entities()[other_id].neighbors().insert(id),
    {
        if id == other_id {
            return None;
        }
        let linkable = match (self.all_entities.get(id), self.all_entities.get(other_id)) {
            (Some(this), Some(other)) => {
                assert(self.has(id) && self.has(other_id));
                assert(this.wf() && other.wf());
                match (
                    this.entity.prototype.get().pole_data,
                    other.entity.prototype.get().pole_data,
                ) {
                    (Some(pa), Some(pb)) => {
                        let m: u128 = if pa.wire_distance <= pb.wire_distance {
                            pa.wire_distance as u128
                        } else {
                            pb.wire_distance as u128
                        };
                        assert(m * m <= 1_000_000_000_000_000_000) by (nonlinear_arith)
                            requires
                                0 <= m <= 1_000_000_000,
                        ;
                        this.entity.position.square_distance(&other.entity.position) <= m * m
                    },
                    _ => false,
                }
            },
            _ => false,
        };
        assert(linkable == (self.has(id) && self.has(other_id) && spec_linkable(
            self.entities()[id].entity,
            self.entities()[other_id].entity,
        )));
        if !linkable {
            return None;
        }
        let mut this = match self.all_entities.remove(id) {
            Some(e) => e,
            None => {
                return None;
            },
        };
        proof {
            assert(this == old(self).entities()[id]);
            assert(this.wf());
        }
        this.connect_to(other_id);
        let ghost grown = this.neighbors();
        self.all_entities.insert(id, this);
        let mut other = match self.all_entities.remove(other_id) {
            Some(e) => e,
            None => {
                return None;
            },
        };
        proof {
            assert(other == old(self).entities()[other_id]);
            assert(other.wf());
        }
        other.connect_to(id);
        self.all_entities.insert(other_id, other);
        proof {
            assert(self.entities().dom() =~= old(self).entities().dom());
            assert(grown == old(self).entities()[id].neighbors().insert(other_id));
            assert(self.entities()[id].neighbors() == grown);
            assert(self.entities()[other_id].neighbors() == old(self).entities()[other_id].neighbors().insert(id));
            assert forall|x: EntityId| x != id && x != other_id && old(self).has(x) implies #[trigger]
                self.entities()[x] == old(self).entities()[x] by {}
            assert forall|x: EntityId| #[trigger] self.has(x) implies self.entities()[x].entity
                == old(self).entities()[x].entity && self.entities()[x].id == x
                && self.entities()[x].wf() && old(self).has(x) by {
                assert(old(self).has(x));
            }
            assert forall|t: TilePosition, x: EntityId|
                #![trigger self.bucket(t).contains(x)]
                #![trigger self.occupies(x, t)]
                self.bucket(t).contains(x) <==> self.occupies(x, t) by {
                assert(self.bucket(t) == old(self).bucket(t));
                assert(old(self).bucket(t).contains(x) <==> old(self).occupies(x, t));
                assert(self.has(x) == old(self).has(x));
                if self.has(x) {
                }
            }
            assert forall|t: TilePosition| #[trigger]
                self.buckets().contains_key(t.key()) implies self.buckets()[t.key()].len() > 0
                && self.buckets()[t.key()].no_duplicates() by {
                assert(old(self).buckets().contains_key(t.key()));
            }
            assert forall|a: EntityId, b: EntityId| #[trigger]
                self.cabled(a, b) && self.has(b) implies self.cabled(b, a) && a != b
                && spec_linkable(self.entities()[a].entity, self.entities()[b].entity) by {
                assert(old(self).has(a) && old(self).has(b));
                assert(self.has(a));
                assert(self.entities()[a].entity == old(self).entities()[a].entity);
                assert(self.entities()[b].entity == old(self).entities()[b].entity);
                if a == id && b == other_id {
                    assert(self.cabled(b, a));
                } else if a == other_id && b == id {
                    assert(self.cabled(b, a));
                    lemma_linkable_symmetric(
                        old(self).entities()[id].entity,
                        old(self).entities()[other_id].entity,
                    );
                } else {
                    assert(old(self).cabled(a, b)) by {
                        if a != id && a != other_id {
                            assert(self.entities()[a] == old(self).entities()[a]);
                        }
                    }
                    assert(old(self).cabled(b, a));
                    assert(old(self).entities()[b].neighbors().contains(a));
                    assert(self.entities()[b].neighbors().contains(a)) by {
                        if b != id && b != other_id {
                            assert(self.entities()[b] == old(self).entities()[b]);
                        }
                    }
                }
            }
            assert forall|x: EntityId| #[trigger] self.has(x) implies x.0 < self.spec_next_id().0 by {
                assert(old(self).has(x));
            }
            assert forall|a: EntityId, b: EntityId| #[trigger]
                self.cabled(a, b) implies b.0 < self.spec_next_id().0 && self.has(b) by {
                assert(old(self).has(a));
                if (a == id && b == other_id) || (a == other_id && b == id) {
                    assert(old(self).has(b));
                } else {
                    assert(old(self).cabled(a, b)) by {
                        if a != id && a != other_id {
                            assert(self.entities()[a] == old(self).entities()[a]);
                        }
                    }
                    assert(old(self).has(b));
                }
            }
        }
        Some(())
    }

    /// The entities on `tile`, in the order in which they came.
    pub fn get_at_tile(&self, tile: TilePosition) -> (r: Vec<&ModelEntity>)
        requires
            self.wf(),
        ensures
            r@.len() == self.bucket(tile).len(),
            forall|i: int| 0 <= i < r@.len() ==> self.has(#[trigger] self.bucket(tile)[i]),
            forall|i: int|
                0 <= i < r@.len() ==> *#[trigger] r@[i] == self.entities()[self.bucket(tile)[i]],
    {
        let mut out: Vec<&ModelEntity> = Vec::new();
        match self.by_tile.get(tile.to_tuple()) {
            Some(ids) => {
                let mut i: usize = 0;
                while i < ids.len()
                    invariant
                        0 <= i <= ids@.len(),
                        ids@ == self.bucket(tile),
                        self.wf(),
                        out@.len() == i,
                        forall|j: int| 0 <= j < i ==> self.has(#[trigger] ids@[j]),
                        forall|j: int|
                            0 <= j < i ==> *#[trigger] out@[j] == self.entities()[ids@[j]],
                    decreases ids@.len() - i,
                {
                    proof {
                        assert(self.bucket(tile).contains(ids@[i as int]));
                        assert(self.occupies(ids@[i as int], tile));
                        assert(self.has(ids@[i as int]));
                    }
                    let ghost prev = out@;
                    match self.all_entities.get(ids[i]) {
                        Some(e) => {
                            out.push(e);
                            assert(*e == self.entities()[ids@[i as int]]);
                            assert(out@[i as int] == e);
                        },
                        None => {
                            assert(false);
                        },
                    }
                    assert forall|j: int| 0 <= j < i + 1 implies *#[trigger] out@[j]
                        == self.entities()[ids@[j]] by {
                        if j < i {
                            assert(out@[j] == prev[j]);
                        }
                    }
                    i = i + 1;
                }
            },
            None => {},
        }
        out
    }

    /// The ids on `tile`, in the order in which they came.
    pub fn ids_at_tile(&self, tile: TilePosition) -> (r: Vec<EntityId>)
        ensures
            r@ == self.bucket(tile),
    {
        match self.by_tile.get(tile.to_tuple()) {
            Some(ids) => {
                let out = ids.clone();
                assert(out@ =~= ids@);
                out
            },
            None => Vec::new(),
        }
    }

    /// The ids of all entities, each once, in an order that is not stated.
    pub fn all_ids(&self) -> (r: Vec<EntityId>)
        ensures
            r@.no_duplicates(),
            r@.to_set() == self.entities().dom(),
    {
        self.all_entities.keys()
    }

    /// All entities, each once, in an order that is not stated.
    pub fn all_entities(&self) -> (r: Vec<&ModelEntity>)
        requires
            self.wf(),
        ensures
            r@.len() == self.entities().dom().len(),
            forall|i: int|
                0 <= i < r@.len() ==> self.has((#[trigger] r@[i]).id) && *r@[i]
                    == self.entities()[r@[i].id],
            forall|i: int, j: int| 0 <= i < j < r@.len() ==> r@[i].id != r@[j].id,
            forall|id: EntityId|
                self.has(id) ==> exists|i: int| 0 <= i < r@.len() && (#[trigger] r@[i]).id == id,
    {
        let ids = self.all_entities.keys();
        proof {
            ids@.unique_seq_to_set();
        }
        let mut out: Vec<&ModelEntity> = Vec::new();
        let mut i: usize = 0;
        while i < ids.len()
            invariant
                0 <= i <= ids@.len(),
                self.wf(),
                ids@.to_set() == self.entities().dom(),
                out@.len() == i,
                forall|j: int|
                    0 <= j < i ==> (#[trigger] out@[j]).id == ids@[j] && *out@[j]
                        == self.entities()[ids@[j]],
            decreases ids@.len() - i,
        {
            proof {
                assert(ids@.to_set().contains(ids@[i as int]));
                assert(self.has(ids@[i as int]));
            }
            match self.all_entities.get(ids[i]) {
                Some(e) => {
                    out.push(e);
                },
                None => {},
            }
            i = i + 1;
        }
        proof {
            assert forall|j: int| 0 <= j < out@.len() implies self.has((#[trigger] out@[j]).id)
                && *out@[j] == self.entities()[out@[j].id] by {
                assert(ids@.to_set().contains(ids@[j]));
            }
            assert forall|id: EntityId| self.has(id) implies exists|k: int|
                0 <= k < out@.len() && (#[trigger] out@[k]).id == id by {
                assert(ids@.to_set().contains(id));
                let k = choose|k: int| 0 <= k < ids@.len() && ids@[k] == id;
                assert(out@[k].id == id);
            }
        }
        out
    }

    /// The smallest box that holds every tile of the index, or the single
    /// tile at the origin if the index knows none.
    pub open spec fn is_bounding_box(&self, b: TileBoundingBox) -> bool {
        if self.buckets().dom() =~= Set::empty() {
            b == (TileBoundingBox {
                min: TilePosition { x: 0, y: 0 },
                max: TilePosition { x: 1, y: 1 },
            })
        } else {
            &&& forall|t: TilePosition| #[trigger]
                self.buckets().contains_key(t.key()) ==> b.contains(t)
            &&& exists|t: TilePosition| #[trigger]
                self.buckets().contains_key(t.key()) && t.x == b.min.x
            &&& exists|t: TilePosition| #[trigger]
                self.buckets().contains_key(t.key()) && t.y == b.min.y
            &&& exists|t: TilePosition| #[trigger]
                self.buckets().contains_key(t.key()) && t.x + 1 == b.max.x
            &&& exists|t: TilePosition| #[trigger]
                self.buckets().contains_key(t.key()) && t.y + 1 == b.max.y
        }
    }

    /// Every tile of the index lies within the bounds that the world allows.
    pub proof fn lemma_tiles_in_bounds(&self, t: TilePosition)
        requires
            self.wf(),
            self.buckets().contains_key(t.key()),
        ensures
            -2_000_001_001 <= t.x < 2_000_001_001,
            -2_000_001_001 <= t.y < 2_000_001_001,
    {
        let id = self.bucket(t)[0];
        assert(self.bucket(t).contains(id));
        assert(self.occupies(id, t));
        let e = self.entities()[id].entity;
        assert(e.wf());
        e.lemma_tile_box_bounds();
    }

    /// The tight bounding box of the occupied tiles.
    pub fn get_bounding_box(&self) -> (r: TileBoundingBox)
        requires
            self.wf(),
        ensures
            self.is_bounding_box(r),
            -2_000_001_001 <= r.min.x <= r.max.x <= 2_000_001_001,
            -2_000_001_001 <= r.min.y <= r.max.y <= 2_000_001_001,
    {
        let keys = self.by_tile.keys();
        if keys.len() == 0 {
            proof {
                assert(keys@.to_set() =~= Set::empty());
            }
            return TileBoundingBox {
                min: TilePosition { x: 0, y: 0 },
                max: TilePosition { x: 1, y: 1 },
            };
        }
        proof {
            assert forall|j: int| 0 <= j < keys@.len() implies -2_000_001_001 <= (
            #[trigger] keys@[j]).0 < 2_000_001_001 && -2_000_001_001 <= keys@[j].1
                < 2_000_001_001 by {
                let t = TilePosition { x: keys@[j].0, y: keys@[j].1 };
                assert(keys@.to_set().contains(keys@[j]));
                assert(t.key() == keys@[j]);
                self.lemma_tiles_in_bounds(t);
            }
        }
        let mut min_x: i32 = keys[0].0;
        let mut min_y: i32 = keys[0].1;
        let mut max_x: i32 = keys[0].0;
        let mut max_y: i32 = keys[0].1;
        let mut i: usize = 1;
        while i < keys.len()
            invariant
                1 <= i <= keys@.len(),
                forall|j: int|
                    0 <= j < keys@.len() ==> -2_000_001_001 <= (#[trigger] keys@[j]).0
                        < 2_000_001_001 && -2_000_001_001 <= keys@[j].1 < 2_000_001_001,
                forall|j: int|
                    0 <= j < i ==> min_x <= (#[trigger] keys@[j]).0 <= max_x && min_y
                        <= keys@[j].1 <= max_y,
                exists|j: int| 0 <= j < i && (#[trigger] keys@[j]).0 == min_x,
                exists|j: int| 0 <= j < i && (#[trigger] keys@[j]).1 == min_y,
                exists|j: int| 0 <= j < i && (#[trigger] keys@[j]).0 == max_x,
                exists|j: int| 0 <= j < i && (#[trigger] keys@[j]).1 == max_y,
            decreases keys@.len() - i,
        {
            let k = keys[i];
            if k.0 < min_x {
                min_x = k.0;
            }
            if k.1 < min_y {
                min_y = k.1;
            }
            if k.0 > max_x {
                max_x = k.0;
            }
            if k.1 > max_y {
                max_y = k.1;
            }
            i = i + 1;
        }
        let r = TileBoundingBox {
            min: TilePosition { x: min_x, y: min_y },
            max: TilePosition { x: max_x + 1, y: max_y + 1 },
        };
        proof {
            assert(keys@.to_set().contains(keys@[0]));
            assert(!(self.buckets().dom() =~= Set::empty()));
            assert forall|t: TilePosition| #[trigger]
                self.buckets().contains_key(t.key()) implies r.contains(t) by {
                assert(keys@.to_set().contains(t.key()));
                let j = choose|j: int| 0 <= j < keys@.len() && keys@[j] == t.key();
                assert(keys@[j].0 == t.x);
            }
            let j1 = choose|j: int| 0 <= j < keys@.len() && (#[trigger] keys@[j]).0 == min_x;
            let t1 = TilePosition { x: keys@[j1].0, y: keys@[j1].1 };
            assert(keys@.to_set().contains(keys@[j1]));
            assert(self.buckets().contains_key(t1.key()) && t1.x == r.min.x);
            let j2 = choose|j: int| 0 <= j < keys@.len() && (#[trigger] keys@[j]).1 == min_y;
            let t2 = TilePosition { x: keys@[j2].0, y: keys@[j2].1 };
            assert(keys@.to_set().contains(keys@[j2]));
            assert(self.buckets().contains_key(t2.key()) && t2.y == r.min.y);
            let j3 = choose|j: int| 0 <= j < keys@.len() && (#[trigger] keys@[j]).0 == max_x;
            let t3 = TilePosition { x: keys@[j3].0, y: keys@[j3].1 };
            assert(keys@.to_set().contains(keys@[j3]));
            assert(self.buckets().contains_key(t3.key()) && t3.x + 1 == r.max.x);
            let j4 = choose|j: int| 0 <= j < keys@.len() && (#[trigger] keys@[j]).1 == max_y;
            let t4 = TilePosition { x: keys@[j4].0, y: keys@[j4].1 };
            assert(keys@.to_set().contains(keys@[j4]));
            assert(self.buckets().contains_key(t4.key()) && t4.y + 1 == r.max.y);
        }
        r
    }

    /// The area in which poles are looked for: the tight bounding box, grown
    /// by `expand` tiles on every side; `expand == 0` leaves it as it is.
    pub fn expanded_bounding_box(&self, expand: i32) -> (r: TileBoundingBox)
        requires
            self.wf(),
            -100_000_000 <= expand <= 100_000_000,
        ensures
            exists|b: TileBoundingBox|
                #![trigger self.is_bounding_box(b)]
                {
                    &&& self.is_bounding_box(b)
                    &&& r.min.x == b.min.x - expand
                    &&& r.min.y == b.min.y - expand
                    &&& r.max.x == b.max.x + expand
                    &&& r.max.y == b.max.y + expand
                },
            expand == 0 ==> self.is_bounding_box(r),
    {
        let b = self.get_bounding_box();
        if expand == 0 {
            b
        } else {
            b.inflate(expand, expand)
        }
    }

    /// Whether a pole with data `pole_data` at `pole_pos` could hold a wire
    /// to `target_entity`.
    pub fn is_connectable_pole(
        &self,
        pole_pos: MapPosition,
        pole_data: PoleData,
        target_entity: &WorldEntity,
    ) -> (r: bool)
        requires
            pole_pos.in_world(),
            pole_data.wf(),
            target_entity.wf(),
        ensures
            r == spec_connectable(pole_pos, pole_data, *target_entity),
    {
        match target_entity.prototype.get().pole_data {
            Some(pd) => {
                let m: u128 = if pole_data.wire_distance <= pd.wire_distance {
                    pole_data.wire_distance as u128
                } else {
                    pd.wire_distance as u128
                };
                assert(m * m <= 1_000_000_000_000_000_000) by (nonlinear_arith)
                    requires
                        0 <= m <= 1_000_000_000,
                ;
                pole_pos.square_distance(&target_entity.position) <= m * m + REACH_EPS
            },
            None => false,
        }
    }
}

/// Whether tile `a` comes before tile `b`: by `x`, then by `y`.
pub open spec fn tile_lt(a: TilePosition, b: TilePosition) -> bool {
    a.x < b.x || (a.x == b.x && a.y < b.y)
}

/// The pair of unsigned numbers by which the tile with coordinates `k` is
/// sorted: both coordinates moved up so that none is negative.
pub open spec fn sort_key(k: (i32, i32)) -> (u64, u64) {
    ((k.0 + 0x8000_0000) as u64, (k.1 + 0x8000_0000) as u64)
}

fn sort_key_of(k: (i32, i32)) -> (r: (u64, u64))
    ensures
        r == sort_key(k),
{
    ((k.0 as i64 + 0x8000_0000) as u64, (k.1 as i64 + 0x8000_0000) as u64)
}

/// A choice among the entities found on some tiles.
#[derive(Clone, Copy, Debug)]
pub enum Pick {
    /// Every entity.
    Every,
    /// The poles within wire reach of a pole with the given data at the
    /// given place.
    Connectable(MapPosition, PoleData),
    /// The entities that draw power.
    Powered,
}

impl Pick {
    /// The place lies in the world and the pole data is well formed.
    pub open spec fn wf(self) -> bool {
        match self {
            Pick::Connectable(pos, data) => pos.in_world() && data.wf(),
            _ => true,
        }
    }

    /// Whether the choice takes entity `e`.
    pub open spec fn keeps(self, e: WorldEntity) -> bool {
        match self {
            Pick::Every => true,
            Pick::Connectable(pos, data) => spec_connectable(pos, data, e),
            Pick::Powered => e.spec_uses_power(),
        }
    }
}

impl BpModel {
    /// The ids on `tiles`, tile after tile, each bucket in its order.
    pub open spec fn ids_on(&self, tiles: Seq<TilePosition>) -> Seq<EntityId>
        decreases tiles.len(),
    {
        if tiles.len() == 0 {
            Seq::empty()
        } else {
            self.ids_on(tiles.drop_last()) + self.bucket(tiles.last())
        }
    }

    /// Those of `ids` whose entity `pick` takes, each at its first
    /// occurrence only.
    pub open spec fn picked(&self, ids: Seq<EntityId>, pick: Pick) -> Seq<EntityId>
        decreases ids.len(),
    {
        if ids.len() == 0 {
            Seq::empty()
        } else {
            let rest = self.picked(ids.drop_last(), pick);
            let x = ids.last();
            if pick.keeps(self.entities()[x].entity) && !rest.contains(x) {
                rest.push(x)
            } else {
                rest
            }
        }
    }

    /// An id on one of `tiles` is among the ids on `tiles`.
    pub proof fn lemma_ids_on_contains(&self, tiles: Seq<TilePosition>, t: TilePosition, id: EntityId)
        requires
            tiles.contains(t),
            self.bucket(t).contains(id),
        ensures
            self.ids_on(tiles).contains(id),
        decreases tiles.len(),
    {
        let k = choose|k: int| 0 <= k < tiles.len() && tiles[k] == t;
        let rest = self.ids_on(tiles.drop_last());
        let last = self.bucket(tiles.last());
        if k == tiles.len() - 1 {
            let j = choose|j: int| 0 <= j < last.len() && last[j] == id;
            assert((rest + last)[rest.len() + j] == id);
        } else {
            assert(tiles.drop_last()[k] == t);
            self.lemma_ids_on_contains(tiles.drop_last(), t, id);
            let j = choose|j: int| 0 <= j < rest.len() && rest[j] == id;
            assert((rest + last)[j] == id);
        }
    }

    /// Where every entity is taken, every id met is listed.
    pub proof fn lemma_picked_every(&self, ids: Seq<EntityId>, id: EntityId)
        requires
            ids.contains(id),
        ensures
            self.picked(ids, Pick::Every).contains(id),
        decreases ids.len(),
    {
        let k = choose|k: int| 0 <= k < ids.len() && ids[k] == id;
        let rest = self.picked(ids.drop_last(), Pick::Every);
        if k == ids.len() - 1 {
            if !rest.contains(id) {
                assert(rest.push(id)[rest.len() as int] == id);
            }
        } else {
            assert(ids.drop_last()[k] == id);
            self.lemma_picked_every(ids.drop_last(), id);
            let j = choose|j: int| 0 <= j < rest.len() && rest[j] == id;
            if !rest.contains(ids.last()) {
                assert(rest.push(ids.last())[j] == id);
            }
        }
    }

    /// What is listed is what was met and is taken, whatever the choice,
    /// and nothing is listed twice.
    pub proof fn lemma_picked(&self, ids: Seq<EntityId>, pick: Pick)
        ensures
            self.picked(ids, pick).no_duplicates(),
            forall|id: EntityId| #[trigger]
                self.picked(ids, pick).contains(id) <==> ids.contains(id) && pick.keeps(
                    self.entities()[id].entity,
                ),
        decreases ids.len(),
    {
        let all = self.picked(ids, pick);
        if ids.len() > 0 {
            let front = ids.drop_last();
            let rest = self.picked(front, pick);
            let x = ids.last();
            self.lemma_picked(front, pick);
            assert(ids =~= front.push(x));
            let takes = pick.keeps(self.entities()[x].entity) && !rest.contains(x);
            if takes {
                lemma_push_no_duplicates(rest, x);
            }
            assert forall|id: EntityId| #[trigger]
                all.contains(id) <==> ids.contains(id) && pick.keeps(
                    self.entities()[id].entity,
                ) by {
                lemma_push_contains(front, x, id);
                if takes {
                    lemma_push_contains(rest, x, id);
                }
            }
        }
    }

    /// The search over `tiles` lists an entity exactly if it overlaps one of
    /// the tiles and the choice takes it.
    pub proof fn lemma_picked_on_tiles(&self, tiles: Seq<TilePosition>, pick: Pick, id: EntityId)
        requires
            self.wf(),
        ensures
            self.picked(self.ids_on(tiles), pick).contains(id) <==> (exists|t: TilePosition|
                tiles.contains(t) && #[trigger] self.occupies(id, t)) && pick.keeps(
                self.entities()[id].entity,
            ),
    {
        self.lemma_picked(self.ids_on(tiles), pick);
        if self.ids_on(tiles).contains(id) {
            let t = self.lemma_ids_on_member(tiles, id);
            assert(self.occupies(id, t));
        }
        if exists|t: TilePosition| tiles.contains(t) && #[trigger] self.occupies(id, t) {
            let t = choose|t: TilePosition| tiles.contains(t) && #[trigger] self.occupies(id, t);
            assert(self.bucket(t).contains(id));
            self.lemma_ids_on_contains(tiles, t, id);
        }
    }

    /// An id among the ids on `tiles` stands on one of them.
    pub proof fn lemma_ids_on_member(&self, tiles: Seq<TilePosition>, id: EntityId) -> (t:
        TilePosition)
        requires
            self.ids_on(tiles).contains(id),
        ensures
            tiles.contains(t),
            self.bucket(t).contains(id),
        decreases tiles.len(),
    {
        let all = self.ids_on(tiles);
        let k = choose|k: int| 0 <= k < all.len() && all[k] == id;
        if tiles.len() == 0 {
            arbitrary()
        } else {
            let rest = self.ids_on(tiles.drop_last());
            let last = self.bucket(tiles.last());
            if k < rest.len() {
                assert(rest[k] == id);
                let t = self.lemma_ids_on_member(tiles.drop_last(), id);
                let j = choose|j: int| 0 <= j < tiles.drop_last().len() && tiles.drop_last()[j] == t;
                assert(tiles[j] == t);
                t
            } else {
                assert(last[k - rest.len()] == id);
                assert(tiles[tiles.len() - 1] == tiles.last());
                tiles.last()
            }
        }
    }

    /// Whatever is listed was met.
    pub proof fn lemma_picked_subset(&self, ids: Seq<EntityId>, pick: Pick, id: EntityId)
        requires
            self.picked(ids, pick).contains(id),
        ensures
            ids.contains(id),
            pick.keeps(self.entities()[id].entity),
        decreases ids.len(),
    {
        let p = self.picked(ids, pick);
        if ids.len() > 0 {
            let rest = self.picked(ids.drop_last(), pick);
            let x = ids.last();
            if rest.contains(id) {
                self.lemma_picked_subset(ids.drop_last(), pick, id);
                let j = choose|j: int| 0 <= j < ids.drop_last().len() && ids.drop_last()[j] == id;
                assert(ids[j] == id);
            } else {
                let k = choose|k: int| 0 <= k < p.len() && p[k] == id;
                assert(p == rest.push(x));
                if k < rest.len() {
                    assert(rest[k] == id);
                }
                assert(x == id);
                assert(ids[ids.len() - 1] == id);
            }
        }
    }

    /// Whether `pick` takes `e`.
    fn takes(&self, pick: Pick, e: &WorldEntity) -> (r: bool)
        requires
            pick.wf(),
            e.wf(),
        ensures
            r == pick.keeps(*e),
    {
        match pick {
            Pick::Every => true,
            Pick::Connectable(pos, data) => self.is_connectable_pole(pos, data, e),
            Pick::Powered => e.uses_power(),
        }
    }

    /// Walks `tiles` and collects the ids that `pick` takes, each once.
    fn pick_on_tiles(&self, tiles: &Vec<TilePosition>, pick: Pick) -> (r: Vec<EntityId>)
        requires
            self.wf(),
            pick.wf(),
        ensures
            r@ == self.picked(self.ids_on(tiles@), pick),
            r@.no_duplicates(),
            forall|i: int| 0 <= i < r@.len() ==> self.has(#[trigger] r@[i]),
    {
        let mut out: Vec<EntityId> = Vec::new();
        let mut seen = IdSet::new();
        let mut k: usize = 0;
        assert(tiles@.take(0) =~= Seq::empty());
        assert(out@.to_set() =~= Set::empty());
        while k < tiles.len()
            invariant
                self.wf(),
                pick.wf(),
                0 <= k <= tiles@.len(),
                out@ == self.picked(self.ids_on(tiles@.take(k as int)), pick),
                id_set(seen) == out@.to_set(),
                out@.no_duplicates(),
                forall|i: int| 0 <= i < out@.len() ==> self.has(#[trigger] out@[i]),
            decreases tiles@.len() - k,
        {
            let tile = tiles[k];
            let ghost base = self.ids_on(tiles@.take(k as int));
            let ghost bucket = self.bucket(tile);
            match self.by_tile.get(tile.to_tuple()) {
                Some(ids) => {
                    let mut j: usize = 0;
                    assert(ids@.take(0) =~= Seq::empty());
                    assert(base + ids@.take(0) =~= base);
                    while j < ids.len()
                        invariant
                            self.wf(),
                            pick.wf(),
                            0 <= j <= ids@.len(),
                            ids@ == bucket,
                            bucket == self.bucket(tile),
                            out@ == self.picked(base + ids@.take(j as int), pick),
                            id_set(seen) == out@.to_set(),
                            out@.no_duplicates(),
                            forall|i: int| 0 <= i < out@.len() ==> self.has(#[trigger] out@[i]),
                        decreases ids@.len() - j,
                    {
                        let x = ids[j];
                        let ghost flat = base + ids@.take(j as int);
                        let ghost next = base + ids@.take(j + 1);
                        let ghost prev = out@;
                        proof {
                            assert(self.bucket(tile).contains(x));
                            assert(self.occupies(x, tile));
                            assert(self.entities()[x].wf());
                            assert(next =~= flat.push(x));
                            assert(next.drop_last() =~= flat);
                            assert(next.last() == x);
                        }
                        match self.all_entities.get(x) {
                            Some(e) => {
                                if self.takes(pick, &e.entity) {
                                    if seen.insert(x) {
                                        out.push(x);
                                        proof {
                                            assert(!prev.to_set().contains(x));
                                            assert(!prev.contains(x));
                                            lemma_push_no_duplicates(prev, x);
                                            prev.lemma_push_to_set_commute(x);
                                        }
                                    } else {
                                        proof {
                                            assert(prev.to_set().contains(x));
                                            assert(prev.contains(x));
                                            assert(prev.to_set().insert(x) =~= prev.to_set());
                                        }
                                    }
                                }
                            },
                            None => {},
                        }
                        j = j + 1;
                    }
                    assert(ids@.take(ids@.len() as int) =~= ids@);
                },
                None => {
                    assert(bucket =~= Seq::empty());
                    assert(base + bucket =~= base);
                },
            }
            proof {
                let t1 = tiles@.take(k + 1);
                assert(t1.drop_last() =~= tiles@.take(k as int));
                assert(t1.last() == tile);
                assert(self.ids_on(t1) == base + bucket);
            }
            k = k + 1;
        }
        assert(tiles@.take(tiles@.len() as int) =~= tiles@);
        out
    }

    /// The entities under `ids`, in that order.
    fn entities_of(&self, ids: &Vec<EntityId>) -> (r: Vec<&ModelEntity>)
        requires
            forall|i: int| 0 <= i < ids@.len() ==> self.has(#[trigger] ids@[i]),
        ensures
            r@.len() == ids@.len(),
            forall|i: int| 0 <= i < r@.len() ==> *#[trigger] r@[i] == self.entities()[ids@[i]],
    {
        let mut out: Vec<&ModelEntity> = Vec::new();
        let mut i: usize = 0;
        while i < ids.len()
            invariant
                0 <= i <= ids@.len(),
                forall|j: int| 0 <= j < ids@.len() ==> self.has(#[trigger] ids@[j]),
                out@.len() == i,
                forall|j: int| 0 <= j < i ==> *#[trigger] out@[j] == self.entities()[ids@[j]],
            decreases ids@.len() - i,
        {
            let ghost prev = out@;
            assert(self.has(ids@[i as int]));
            match self.all_entities.get(ids[i]) {
                Some(e) => {
                    out.push(e);
                },
                None => {},
            }
            assert forall|j: int| 0 <= j < i + 1 implies *#[trigger] out@[j]
                == self.entities()[ids@[j]] by {
                if j < i {
                    assert(out@[j] == prev[j]);
                }
            }
            i = i + 1;
        }
        out
    }

    /// The tiles searched for the poles within wire reach of a pole at
    /// `pole_pos`: those that the square of half side `wire_distance` about
    /// it overlaps, the square taken wider by [`REACH_SLACK`] for the
    /// tolerance of the test.
    pub open spec fn reach_tiles(pole_pos: MapPosition, pole_data: PoleData) -> Seq<TilePosition> {
        BoundingBox {
            min: MapPosition {
                x: (pole_pos.x - pole_data.wire_distance - REACH_SLACK) as i64,
                y: (pole_pos.y - pole_data.wire_distance - REACH_SLACK) as i64,
            },
            max: MapPosition {
                x: (pole_pos.x + pole_data.wire_distance + REACH_SLACK) as i64,
                y: (pole_pos.y + pole_data.wire_distance + REACH_SLACK) as i64,
            },
        }.spec_round_out_to_tiles().tiles()
    }

    /// The search for the poles within wire reach lists exactly the poles of
    /// the model that a wire from a pole with data `pole_data` at `pole_pos`
    /// can reach.
    pub proof fn lemma_connectable_poles_are_those_in_reach(
        &self,
        pole_pos: MapPosition,
        pole_data: PoleData,
        b: EntityId,
    )
        requires
            self.wf(),
            pole_pos.in_world(),
            pole_data.wf(),
        ensures
            self.spec_connectable_poles(pole_pos, pole_data).contains(b) <==> self.has(b)
                && spec_connectable(pole_pos, pole_data, self.entities()[b].entity),
    {
        let tiles = Self::reach_tiles(pole_pos, pole_data);
        let pick = Pick::Connectable(pole_pos, pole_data);
        self.lemma_picked_on_tiles(tiles, pick, b);
        if self.has(b) && spec_connectable(pole_pos, pole_data, self.entities()[b].entity) {
            let e = self.entities()[b].entity;
            assert(self.entities()[b].wf());
            let wire = pole_data.wire_distance as int;
            let reach = min_wire(pole_data, e.prototype.value().pole_data->0);
            let q = e.position;
            let dx = pole_pos.x - q.x;
            let dy = pole_pos.y - q.y;
            assert(-(reach + 1000) <= dx <= reach + 1000 && -(reach + 1000) <= dy <= reach + 1000)
                by (nonlinear_arith)
                requires
                    dx * dx + dy * dy <= reach * reach + 1_000_000,
                    0 <= reach,
            ;
            let area = BoundingBox {
                min: MapPosition {
                    x: (pole_pos.x - wire - REACH_SLACK) as i64,
                    y: (pole_pos.y - wire - REACH_SLACK) as i64,
                },
                max: MapPosition {
                    x: (pole_pos.x + wire + REACH_SLACK) as i64,
                    y: (pole_pos.y + wire + REACH_SLACK) as i64,
                },
            };
            let around = area.spec_round_out_to_tiles();
            crate::position::lemma_box_has_tiles(area);
            crate::position::lemma_tile_floor_bounds(area.min.x as int);
            crate::position::lemma_tile_floor_bounds(area.min.y as int);
            crate::position::lemma_tile_ceil_bounds(area.max.x as int);
            crate::position::lemma_tile_ceil_bounds(area.max.y as int);
            crate::position::lemma_tile_floor_bounds(q.x as int);
            crate::position::lemma_tile_floor_bounds(q.y as int);
            crate::position::lemma_tile_floor_bounds(q.x - 1);
            crate::position::lemma_tile_floor_bounds(q.y - 1);
            let tx = if tile_floor(q.x as int) < around.max.x {
                tile_floor(q.x as int)
            } else {
                tile_floor(q.x - 1)
            };
            let ty = if tile_floor(q.y as int) < around.max.y {
                tile_floor(q.y as int)
            } else {
                tile_floor(q.y - 1)
            };
            let t = TilePosition { x: tx as i32, y: ty as i32 };
            e.lemma_pole_covers_tiles_about(tx, ty);
            assert(around.contains(t));
            around.lemma_tiles();
            assert(tiles.contains(t) && self.occupies(b, t));
        }
    }

    /// The tiles searched for the entities that a pole at `pole_pos` powers:
    /// those that the square of half side `supply_radius` about it overlaps.
    pub open spec fn supply_tiles(pole_pos: MapPosition, pole_data: PoleData) -> Seq<TilePosition> {
        BoundingBox {
            min: MapPosition {
                x: (pole_pos.x - pole_data.supply_radius) as i64,
                y: (pole_pos.y - pole_data.supply_radius) as i64,
            },
            max: MapPosition {
                x: (pole_pos.x + pole_data.supply_radius) as i64,
                y: (pole_pos.y + pole_data.supply_radius) as i64,
            },
        }.spec_round_out_to_tiles().tiles()
    }

    /// The ids of the poles to which a pole with data `pole_data` at
    /// `pole_pos` could hold a wire, each once, in the order in which the
    /// search meets them.
    pub open spec fn spec_connectable_poles(
        &self,
        pole_pos: MapPosition,
        pole_data: PoleData,
    ) -> Seq<EntityId> {
        self.picked(
            self.ids_on(Self::reach_tiles(pole_pos, pole_data)),
            Pick::Connectable(pole_pos, pole_data),
        )
    }

    /// The ids of the power consumers that stand in the supply area of a pole
    /// with data `pole_data` at `pole_pos`, each once, in the order in which
    /// the search meets them.
    pub open spec fn spec_powered_entities(
        &self,
        pole_pos: MapPosition,
        pole_data: PoleData,
    ) -> Seq<EntityId> {
        self.picked(self.ids_on(Self::supply_tiles(pole_pos, pole_data)), Pick::Powered)
    }

    /// The poles within mutual wire reach of a pole with data `pole_data`
    /// that would stand at `pole_pos`.
    pub fn connectable_poles(&self, pole_pos: MapPosition, pole_data: PoleData) -> (r: Vec<
        &ModelEntity,
    >)
        requires
            self.wf(),
            pole_pos.in_world(),
            pole_data.wf(),
        ensures
            r@.len() == self.spec_connectable_poles(pole_pos, pole_data).len(),
            forall|i: int|
                0 <= i < r@.len() ==> *#[trigger] r@[i] == self.entities()[self.spec_connectable_poles(
                    pole_pos,
                    pole_data,
                )[i]],
    {
        let area = BoundingBox::around_point(pole_pos, pole_data.wire_distance + REACH_SLACK);
        proof {
            crate::position::lemma_box_has_tiles(area);
        }
        let tiles = area.round_out_to_tiles().iter_tiles();
        let ids = self.pick_on_tiles(&tiles, Pick::Connectable(pole_pos, pole_data));
        self.entities_of(&ids)
    }

    /// The power consumers in the supply area of a pole with data
    /// `pole_data` that would stand at `pole_pos`: the entities on the tiles
    /// that the area overlaps which use power and are no poles.
    pub fn powered_entities(&self, pole_pos: MapPosition, pole_data: PoleData) -> (r: Vec<
        &ModelEntity,
    >)
        requires
            self.wf(),
            pole_pos.in_world(),
            pole_data.wf(),
        ensures
            r@.len() == self.spec_powered_entities(pole_pos, pole_data).len(),
            forall|i: int|
                0 <= i < r@.len() ==> *#[trigger] r@[i] == self.entities()[self.spec_powered_entities(
                    pole_pos,
                    pole_data,
                )[i]],
    {
        let area = BoundingBox::around_point(pole_pos, pole_data.supply_radius);
        proof {
            crate::position::lemma_box_has_tiles(area);
        }
        let tiles = area.round_out_to_tiles().iter_tiles();
        let ids = self.pick_on_tiles(&tiles, Pick::Powered);
        self.entities_of(&ids)
    }

    /// Whether `tiles` are the tiles of the index, each once, in ascending
    /// order of `(x, y)`.
    pub open spec fn is_grid_order(&self, tiles: Seq<TilePosition>) -> bool {
        &&& forall|t: TilePosition| tiles.contains(t) <==> #[trigger] self.buckets().contains_key(t.key())
        &&& forall|i: int, j: int|
            0 <= i < j < tiles.len() ==> tile_lt(#[trigger] tiles[i], #[trigger] tiles[j])
    }

    /// The tiles of the index in ascending order of `(x, y)`.
    pub fn tiles_in_grid_order(&self) -> (r: Vec<TilePosition>)
        ensures
            self.is_grid_order(r@),
    {
        let keys = self.by_tile.keys();
        let mut pairs: Vec<(u64, u64)> = Vec::new();
        let mut i: usize = 0;
        while i < keys.len()
            invariant
                0 <= i <= keys@.len(),
                pairs@.len() == i,
                forall|j: int| 0 <= j < i ==> #[trigger] pairs@[j] == sort_key(keys@[j]),
            decreases keys@.len() - i,
        {
            pairs.push(sort_key_of(keys[i]));
            i = i + 1;
        }
        proof {
            assert forall|a: int, b: int|
                0 <= a < pairs@.len() && 0 <= b < pairs@.len() && a != b implies pairs@[a]
                != pairs@[b] by {
                assert(keys@[a] != keys@[b]);
            }
        }
        let sorted = sorted_pairs(pairs);
        proof {
            lemma_same_members(sorted@, pairs@);
        }
        let mut out: Vec<TilePosition> = Vec::new();
        let mut n: usize = 0;
        while n < sorted.len()
            invariant
                0 <= n <= sorted@.len(),
                out@.len() == n,
                forall|x: (u64, u64)| sorted@.contains(x) <==> pairs@.contains(x),
                pairs@.len() == keys@.len(),
                forall|j: int| 0 <= j < keys@.len() ==> #[trigger] pairs@[j] == sort_key(keys@[j]),
                forall|j: int| 0 <= j < n ==> sort_key((#[trigger] out@[j]).key()) == sorted@[j],
            decreases sorted@.len() - n,
        {
            let p = sorted[n];
            proof {
                assert(sorted@.contains(p));
                assert(pairs@.contains(p));
                let j = choose|j: int| 0 <= j < pairs@.len() && pairs@[j] == p;
                assert(p == sort_key(keys@[j]));
            }
            out.push(
                TilePosition {
                    x: (p.0 as i64 - 0x8000_0000) as i32,
                    y: (p.1 as i64 - 0x8000_0000) as i32,
                },
            );
            n = n + 1;
        }
        proof {
            assert forall|t: TilePosition| out@.contains(t) <==> #[trigger] self.buckets().contains_key(
                t.key(),
            ) by {
                let p = sort_key(t.key());
                if out@.contains(t) {
                    let j = choose|j: int| 0 <= j < out@.len() && out@[j] == t;
                    assert(sorted@[j] == p);
                    assert(sorted@.contains(p));
                    assert(pairs@.contains(p));
                    let m = choose|m: int| 0 <= m < pairs@.len() && pairs@[m] == p;
                    assert(keys@[m] == t.key());
                    assert(keys@.to_set().contains(t.key()));
                }
                if self.buckets().contains_key(t.key()) {
                    assert(keys@.to_set().contains(t.key()));
                    let m = choose|m: int| 0 <= m < keys@.len() && keys@[m] == t.key();
                    assert(pairs@[m] == p);
                    assert(pairs@.contains(p));
                    assert(sorted@.contains(p));
                    let j = choose|j: int| 0 <= j < sorted@.len() && sorted@[j] == p;
                    assert(sort_key(out@[j].key()) == p);
                    assert(out@[j] == t);
                }
            }
            assert forall|a: int, b: int| 0 <= a < b < out@.len() implies tile_lt(
                #[trigger] out@[a],
                #[trigger] out@[b],
            ) by {
                assert(!pair_lt(sorted@[b], sorted@[a]));
                assert(sorted@[a] != sorted@[b]);
            }
        }
        out
    }

    /// Every entity as it is placed, entity by entity, in an order that is
    /// not stated.
    pub fn all_world_entities(&self) -> (r: Vec<&WorldEntity>)
        requires
            self.wf(),
        ensures
            exists|ids: Seq<EntityId>|
                #![trigger ids.to_set()]
                {
                    &&& ids.no_duplicates()
                    &&& ids.to_set() == self.entities().dom()
                    &&& ids.len() == r@.len()
                    &&& forall|i: int|
                        0 <= i < r@.len() ==> *#[trigger] r@[i] == self.entities()[ids[i]].entity
                },
    {
        let ids = self.all_entities.keys();
        let mut out: Vec<&WorldEntity> = Vec::new();
        let mut i: usize = 0;
        while i < ids.len()
            invariant
                0 <= i <= ids@.len(),
                self.wf(),
                ids@.to_set() == self.entities().dom(),
                out@.len() == i,
                forall|j: int| 0 <= j < i ==> *#[trigger] out@[j] == self.entities()[ids@[j]].entity,
            decreases ids@.len() - i,
        {
            proof {
                assert(ids@.to_set().contains(ids@[i as int]));
                assert(self.has(ids@[i as int]));
            }
            match self.all_entities.get(ids[i]) {
                Some(e) => {
                    out.push(&e.entity);
                },
                None => {},
            }
            i = i + 1;
        }
        out
    }

    /// All entities that overlap a tile, each once: the tiles are walked in
    /// ascending order of `(x, y)`, each bucket in its order, and an entity
    /// is listed where it is met first.
    pub fn all_entities_grid_order(&self) -> (r: Vec<&ModelEntity>)
        requires
            self.wf(),
        ensures
            exists|tiles: Seq<TilePosition>|
                #![trigger self.is_grid_order(tiles)]
                {
                    &&& self.is_grid_order(tiles)
                    &&& r@.len() == self.picked(self.ids_on(tiles), Pick::Every).len()
                    &&& forall|i: int|
                        0 <= i < r@.len() ==> *#[trigger] r@[i] == self.entities()[self.picked(
                            self.ids_on(tiles),
                            Pick::Every,
                        )[i]]
                },
            forall|i: int|
                0 <= i < r@.len() ==> self.has((#[trigger] r@[i]).id) && *r@[i]
                    == self.entities()[r@[i].id],
            forall|i: int, j: int| 0 <= i < j < r@.len() ==> r@[i].id != r@[j].id,
            forall|id: EntityId, t: TilePosition| #[trigger]
                self.occupies(id, t) ==> exists|i: int|
                    0 <= i < r@.len() && (#[trigger] r@[i]).id == id,
            forall|i: int|
                0 <= i < r@.len() ==> exists|t: TilePosition| #[trigger]
                    self.occupies((#[trigger] r@[i]).id, t),
    {
        let tiles = self.tiles_in_grid_order();
        let ids = self.pick_on_tiles(&tiles, Pick::Every);
        let r = self.entities_of(&ids);
        proof {
            assert forall|i: int| 0 <= i < r@.len() implies exists|t: TilePosition| #[trigger]
                self.occupies((#[trigger] r@[i]).id, t) by {
                assert(self.has(ids@[i]));
                assert(*r@[i] == self.entities()[ids@[i]]);
                assert(ids@.contains(ids@[i]));
                self.lemma_picked_subset(self.ids_on(tiles@), Pick::Every, ids@[i]);
                let t = self.lemma_ids_on_member(tiles@, ids@[i]);
                assert(self.occupies(ids@[i], t));
            }
            assert forall|id: EntityId, t: TilePosition| #[trigger]
                self.occupies(id, t) implies exists|i: int|
                0 <= i < r@.len() && (#[trigger] r@[i]).id == id by {
                assert(self.bucket(t).contains(id));
                assert(self.buckets().contains_key(t.key()));
                assert(tiles@.contains(t));
                self.lemma_ids_on_contains(tiles@, t, id);
                self.lemma_picked_every(self.ids_on(tiles@), id);
                let i = choose|i: int| 0 <= i < ids@.len() && ids@[i] == id;
                assert(self.has(ids@[i]));
                assert(*r@[i] == self.entities()[ids@[i]]);
                assert(r@[i].id == id);
            }
            assert forall|i: int| 0 <= i < r@.len() implies self.has((#[trigger] r@[i]).id)
                && *r@[i] == self.entities()[r@[i].id] by {
                assert(self.has(ids@[i]));
                assert(*r@[i] == self.entities()[ids@[i]]);
            }
            assert forall|i: int, j: int| 0 <= i < j < r@.len() implies r@[i].id != r@[j].id by {
                assert(self.has(ids@[i]));
                assert(self.has(ids@[j]));
                assert(ids@[i] != ids@[j]);
            }
            assert(self.is_grid_order(tiles@));
        }
        r
    }

    /// Removes every entity for which `f` answers `false`, asked of the
    /// entities as they are before any leaves. The poles that stay keep
    /// their cables to poles that stay.
    pub fn retain<F: Fn(&ModelEntity) -> bool>(&mut self, f: F)
        requires
            old(self).wf(),
            forall|e: &ModelEntity| #[trigger] f.requires((e,)),
        ensures
            final(self).wf(),
            final(self).spec_next_id() == old(self).spec_next_id(),
            forall|id: EntityId| #[trigger]
                final(self).has(id) ==> old(self).has(id) && final(self).entities()[id].entity
                    == old(self).entities()[id].entity && final(self).entities()[id].neighbors()
                    == old(self).entities()[id].neighbors().intersect(final(self).entities().dom())
                    && f.ensures((&old(self).entities()[id],), true),
            forall|id: EntityId|
                #[trigger] final(self).has(id) && old(self).entities()[id].neighbors().subset_of(
                    final(self).entities().dom(),
                ) ==> final(self).entities()[id] == old(self).entities()[id],
            forall|id: EntityId|
                old(self).has(id) && !(#[trigger] final(self).has(id)) ==> f.ensures(
                    (&old(self).entities()[id],),
                    false,
                ),
            forall|t: TilePosition| #[trigger]
                final(self).bucket(t) == kept_of(old(self).bucket(t), final(self).entities().dom()),
    {
        let ids = self.all_entities.keys();
        let mut to_remove: Vec<EntityId> = Vec::new();
        let mut i: usize = 0;
        while i < ids.len()
            invariant
                0 <= i <= ids@.len(),
                *self == *old(self),
                ids@.no_duplicates(),
                ids@.to_set() == self.entities().dom(),
                forall|e: &ModelEntity| #[trigger] f.requires((e,)),
                to_remove@.no_duplicates(),
                forall|x: EntityId|
                    to_remove@.contains(x) ==> exists|j: int| 0 <= j < i && ids@[j] == x,
                forall|x: EntityId| #[trigger]
                    to_remove@.contains(x) ==> self.has(x) && f.ensures(
                        (&self.entities()[x],),
                        false,
                    ),
                forall|j: int|
                    0 <= j < i && !to_remove@.contains(#[trigger] ids@[j]) ==> f.ensures(
                        (&self.entities()[ids@[j]],),
                        true,
                    ),
            decreases ids@.len() - i,
        {
            let id = ids[i];
            let ghost prev = to_remove@;
            proof {
                assert(ids@.to_set().contains(id));
            }
            match self.all_entities.get(id) {
                Some(e) => {
                    if !f(e) {
                        proof {
                            if prev.contains(id) {
                                let j = choose|j: int| 0 <= j < i && ids@[j] == id;
                                assert(ids@[j] == ids@[i as int]);
                            }
                            lemma_push_no_duplicates(prev, id);
                        }
                        to_remove.push(id);
                        proof {
                            assert forall|x: EntityId| to_remove@.contains(x) implies exists|j: int|
                                0 <= j < i + 1 && ids@[j] == x by {
                                lemma_push_contains(prev, id, x);
                                if x == id {
                                    assert(ids@[i as int] == x);
                                } else {
                                    let j = choose|j: int| 0 <= j < i && ids@[j] == x;
                                    assert(ids@[j] == x);
                                }
                            }
                            assert forall|x: EntityId| #[trigger]
                                to_remove@.contains(x) implies self.has(x) && f.ensures(
                                (&self.entities()[x],),
                                false,
                            ) by {
                                lemma_push_contains(prev, id, x);
                            }
                            assert forall|j: int|
                                0 <= j < i + 1 && !to_remove@.contains(
                                    #[trigger] ids@[j],
                                ) implies f.ensures((&self.entities()[ids@[j]],), true) by {
                                lemma_push_contains(prev, id, ids@[j]);
                            }
                        }
                    } else {
                        proof {
                            assert forall|x: EntityId| to_remove@.contains(x) implies exists|j: int|
                                0 <= j < i + 1 && ids@[j] == x by {
                                let j = choose|j: int| 0 <= j < i && ids@[j] == x;
                                assert(ids@[j] == x);
                            }
                        }
                    }
                },
                None => {},
            }
            i = i + 1;
        }
        proof {
            assert forall|t: TilePosition| #[trigger]
                self.bucket(t) == kept_of(old(self).bucket(t), self.entities().dom()) by {
                lemma_kept_of(old(self).bucket(t), self.entities().dom());
                assert forall|x: EntityId| old(self).bucket(t).contains(x) implies self.entities().dom().contains(
                    x,
                ) by {
                    assert(old(self).occupies(x, t));
                }
            }
        }
        proof {
            assert forall|x: EntityId| #[trigger] self.has(x) implies self.entities()[x].neighbors()
                == old(self).entities()[x].neighbors().intersect(self.entities().dom()) by {
                assert forall|y: EntityId|
                    old(self).entities()[x].neighbors().contains(y) implies self.entities().dom().contains(
                    y,
                ) by {
                    assert(old(self).cabled(x, y));
                }
                assert(self.entities()[x].neighbors() =~= old(self).entities()[x].neighbors().intersect(
                    self.entities().dom(),
                ));
            }
        }
        let mut k: usize = 0;
        while k < to_remove.len()
            invariant
                0 <= k <= to_remove@.len(),
                self.wf(),
                old(self).wf(),
                self.spec_next_id() == old(self).spec_next_id(),
                forall|t: TilePosition| #[trigger]
                    self.bucket(t) == kept_of(old(self).bucket(t), self.entities().dom()),
                to_remove@.no_duplicates(),
                forall|x: EntityId| #[trigger] to_remove@.contains(x) ==> old(self).has(x),
                forall|x: EntityId| #[trigger]
                    self.has(x) <==> (old(self).has(x) && !exists|j: int|
                        0 <= j < k && to_remove@[j] == x),
                forall|x: EntityId| #[trigger]
                    self.has(x) ==> self.entities()[x].entity == old(self).entities()[x].entity
                        && self.entities()[x].neighbors() == old(self).entities()[x].neighbors().intersect(
                        self.entities().dom(),
                    ),
                forall|x: EntityId|
                    #[trigger] self.has(x) && old(self).entities()[x].neighbors().subset_of(
                        self.entities().dom(),
                    ) ==> self.entities()[x] == old(self).entities()[x],
            decreases to_remove@.len() - k,
        {
            let id = to_remove[k];
            let ghost before = *self;
            proof {
                assert(to_remove@.contains(id));
                if exists|j: int| 0 <= j < k && to_remove@[j] == id {
                    let j = choose|j: int| 0 <= j < k && to_remove@[j] == id;
                    assert(to_remove@[j] == to_remove@[k as int]);
                }
                assert(self.has(id));
            }
            self.remove(&id);
            proof {
                assert forall|x: EntityId| #[trigger]
                    self.has(x) <==> (old(self).has(x) && !exists|j: int|
                        0 <= j < k + 1 && to_remove@[j] == x) by {
                    assert(self.has(x) == (before.has(x) && x != id));
                    if exists|j: int| 0 <= j < k + 1 && to_remove@[j] == x {
                        let j = choose|j: int| 0 <= j < k + 1 && to_remove@[j] == x;
                        if j < k {
                            assert(!before.has(x));
                        }
                    }
                    if before.has(x) && x != id {
                        if exists|j: int| 0 <= j < k + 1 && to_remove@[j] == x {
                            let j = choose|j: int| 0 <= j < k + 1 && to_remove@[j] == x;
                            assert(j < k);
                        }
                    }
                    if exists|j: int| 0 <= j < k && to_remove@[j] == x {
                        let j = choose|j: int| 0 <= j < k && to_remove@[j] == x;
                        assert(0 <= j < k + 1 && to_remove@[j] == x);
                    }
                    if x == id {
                        assert(to_remove@[k as int] == x);
                    }
                }
                assert(self.entities().dom() =~= before.entities().dom().remove(id));
                assert forall|x: EntityId| #[trigger] self.has(x) implies self.entities()[x].entity
                    == old(self).entities()[x].entity && self.entities()[x].neighbors() == old(
                    self,
                ).entities()[x].neighbors().intersect(self.entities().dom()) by {
                    assert(before.has(x));
                    assert(self.entities()[x].neighbors() =~= old(self).entities()[x].neighbors().intersect(
                        self.entities().dom(),
                    ));
                }
                assert forall|x: EntityId|
                    #[trigger] self.has(x) && old(self).entities()[x].neighbors().subset_of(
                        self.entities().dom(),
                    ) implies self.entities()[x] == old(self).entities()[x] by {
                    assert(before.has(x));
                    assert(old(self).entities()[x].neighbors().subset_of(before.entities().dom()));
                    if before.cabled(x, id) {
                        assert(old(self).entities()[x].neighbors().contains(id));
                        assert(self.entities().dom().contains(id));
                    }
                }
                assert forall|t: TilePosition| #[trigger]
                    self.bucket(t) == kept_of(old(self).bucket(t), self.entities().dom()) by {
                    assert(old(self).bucket(t).no_duplicates());
                    lemma_kept_of_remove(old(self).bucket(t), before.entities().dom(), id);
                    assert(self.entities().dom() =~= before.entities().dom().remove(id));
                    assert(before.bucket(t) == kept_of(
                        old(self).bucket(t),
                        before.entities().dom(),
                    ));
                }
            }
            k = k + 1;
        }
        proof {
            assert forall|id: EntityId| #[trigger] self.has(id) implies old(self).has(id)
                && f.ensures((&old(self).entities()[id],), true) by {
                assert(ids@.to_set().contains(id));
                let j = choose|j: int| 0 <= j < ids@.len() && ids@[j] == id;
                if to_remove@.contains(id) {
                    let m = choose|m: int| 0 <= m < to_remove@.len() && to_remove@[m] == id;
                    assert(0 <= m < to_remove@.len() && to_remove@[m] == id);
                }
                assert(!to_remove@.contains(ids@[j]));
            }
            assert forall|id: EntityId|
                old(self).has(id) && !(#[trigger] self.has(id)) implies f.ensures(
                (&old(self).entities()[id],),
                false,
            ) by {
                let j = choose|j: int| 0 <= j < to_remove@.len() && to_remove@[j] == id;
                assert(to_remove@.contains(id));
            }
        }
    }

    /// Removes every pole.
    pub fn remove_all_poles(&mut self)
        requires
            old(self).wf(),
        ensures
            final(self).wf(),
            final(self).spec_next_id() == old(self).spec_next_id(),
            forall|id: EntityId| #[trigger]
                final(self).has(id) <==> (old(self).has(id) && !old(self).entities()[id].entity.prototype.value().spec_is_pole()),
            forall|id: EntityId| #[trigger]
                final(self).has(id) ==> final(self).entities()[id] == old(self).entities()[id],
            forall|t: TilePosition| #[trigger]
                final(self).bucket(t) == kept_of(old(self).bucket(t), final(self).entities().dom()),
    {
        let keep = |e: &ModelEntity| -> (b: bool)
            ensures
                b == !e.entity.prototype.value().spec_is_pole(),
            { !e.entity.prototype.get().is_pole() };
        self.retain(keep);
    }
}

/// The entity that a blueprint describes by `data`: the first prototype of
/// `dict` with the name, at the place, facing the direction, or north if
/// none is given.
pub open spec fn spec_from_bp_entity(dict: &EntityPrototypeDict, data: BlueprintEntityData) -> WorldEntity {
    WorldEntity {
        prototype: dict.spec_get(data.name@),
        position: data.position,
        direction: match data.direction {
            Some(d) => d,
            None => 0,
        },
    }
}

/// Whether the entity that `data` describes can stand in a model: `dict`
/// knows its prototype, and the entity is well formed.
pub open spec fn importable(dict: &EntityPrototypeDict, data: BlueprintEntityData) -> bool {
    dict.has(data.name@) && spec_from_bp_entity(dict, data).wf()
}

impl WorldEntity {
    /// The entity that a blueprint describes by `bp_entity`.
    pub fn from_bp_entity(prototype_dict: &EntityPrototypeDict, bp_entity: &BlueprintEntityData) -> (r:
        Self)
        requires
            prototype_dict.has(bp_entity.name@),
        ensures
            r == spec_from_bp_entity(prototype_dict, *bp_entity),
    {
        let prototype = match prototype_dict.get(&bp_entity.name) {
            Some(p) => p,
            None => {
                proof {
                    assert(false);
                }
                prototype_dict.0[0].share()
            },
        };
        WorldEntity {
            prototype,
            position: bp_entity.position,
            direction: match bp_entity.direction {
                Some(d) => d,
                None => 0,
            },
        }
    }
}

impl BpModel {
    /// The model of a blueprint: its entities under their numbers, and a
    /// cable wherever the blueprint lists one between two poles that are
    /// near enough for a wire. The next id is one more than the largest
    /// number in use.
    #[verifier::loop_isolation(false)]
    pub fn from_bp_entities(bp: &BlueprintEntities, prototype_dict: &EntityPrototypeDict) -> (r:
        BpModel)
        requires
            bp.wf(),
            forall|i: int|
                0 <= i < bp.list().len() ==> importable(
                    prototype_dict,
                    (#[trigger] bp.list()[i]).data,
                ) && bp.list()[i].id.0 < u32::MAX,
        ensures
            r.wf(),
            forall|id: EntityId| #[trigger] r.has(id) <==> bp.has(id),
            forall|id: EntityId| #[trigger]
                r.has(id) ==> r.entities()[id].entity == spec_from_bp_entity(
                    prototype_dict,
                    bp.entity(id).data,
                ),
            bp.is_next_id(r.spec_next_id()),
            forall|a: EntityId, b: EntityId| #[trigger]
                r.cabled(a, b) ==> bp.has(b) && (bp.entity(a).cables().contains(b) || bp.entity(
                    b,
                ).cables().contains(a)),
            forall|a: EntityId, b: EntityId|
                bp.has(a) && bp.has(b) && a != b && bp.entity(a).cables().contains(b)
                    && spec_linkable(
                    spec_from_bp_entity(prototype_dict, bp.entity(a).data),
                    spec_from_bp_entity(prototype_dict, bp.entity(b).data),
                ) ==> #[trigger] r.cabled(a, b),
    {
        let mut res = BpModel::new();
        let n = bp.len();
        let mut largest: u32 = 0;
        let mut i: usize = 0;
        while i < n
            invariant
                0 <= i <= n,
                res.index_wf(),
                res.next_id == EntityId(1),
                forall|id: EntityId| #[trigger]
                    res.has(id) <==> exists|j: int| 0 <= j < i && (#[trigger] bp.list()[j]).id == id,
                forall|id: EntityId| #[trigger]
                    res.has(id) ==> bp.has(id) && res.entities()[id].entity == spec_from_bp_entity(
                        prototype_dict,
                        bp.entity(id).data,
                    ) && res.entities()[id].neighbors() =~= Set::<EntityId>::empty(),
                forall|j: int| 0 <= j < i ==> (#[trigger] bp.list()[j]).id.0 <= largest,
                largest == 0 || exists|j: int| 0 <= j < i && (#[trigger] bp.list()[j]).id.0 == largest,
            decreases n - i,
        {
            let entity = bp.at(i);
            let id = entity.id();
            let ghost before = res;
            proof {
                assert(importable(prototype_dict, bp.list()[i as int].data));
                if res.has(id) {
                    let j = choose|j: int| 0 <= j < i && (#[trigger] bp.list()[j]).id == id;
                    assert(bp.places()[bp.list()[j].id] == j);
                    assert(bp.places()[bp.list()[i as int].id] == i);
                }
                assert forall|a: EntityId| !res.cabled(a, id) by {
                    if res.has(a) {
                        assert(res.entities()[a].neighbors() =~= Set::<EntityId>::empty());
                    }
                }
            }
            let world = WorldEntity::from_bp_entity(prototype_dict, &entity.data);
            res.add_internal(ModelEntity::new_empty(id, world));
            if id.0 > largest {
                largest = id.0;
            }
            proof {
                assert forall|x: EntityId| #[trigger]
                    res.has(x) <==> exists|j: int|
                        0 <= j < i + 1 && (#[trigger] bp.list()[j]).id == x by {
                    if before.has(x) {
                        let j = choose|j: int| 0 <= j < i && (#[trigger] bp.list()[j]).id == x;
                        assert(0 <= j < i + 1 && bp.list()[j].id == x);
                    }
                    if exists|j: int| 0 <= j < i + 1 && (#[trigger] bp.list()[j]).id == x {
                        let j = choose|j: int| 0 <= j < i + 1 && (#[trigger] bp.list()[j]).id == x;
                        if j < i {
                            assert(before.has(x));
                        }
                    }
                    if x == id {
                        assert(bp.list()[i as int].id == x);
                    }
                }
                assert forall|x: EntityId| #[trigger] res.has(x) implies bp.has(x)
                    && res.entities()[x].entity == spec_from_bp_entity(
                    prototype_dict,
                    bp.entity(x).data,
                ) && res.entities()[x].neighbors() =~= Set::<EntityId>::empty() by {
                    if x != id {
                        assert(before.has(x));
                    } else {
                        assert(bp.places()[bp.list()[i as int].id] == i);
                    }
                }
            }
            i = i + 1;
        }
        let ghost loaded = res;
        res.next_id = EntityId(largest + 1);
        proof {
            assert(res.entities() == loaded.entities());
            assert(res.buckets() == loaded.buckets());
            lemma_same_index_wf(&loaded, &res);
            assert forall|x: EntityId| #[trigger] res.has(x) <==> exists|j: int|
                0 <= j < n && (#[trigger] bp.list()[j]).id == x by {
                assert(res.has(x) == loaded.has(x));
            }
            assert forall|x: EntityId| #[trigger] res.has(x) implies bp.has(x)
                && res.entities()[x].entity == spec_from_bp_entity(
                prototype_dict,
                bp.entity(x).data,
            ) && res.entities()[x].neighbors() =~= Set::<EntityId>::empty() by {
                assert(loaded.has(x));
            }
            assert(res.wf()) by {
                assert forall|x: EntityId| #[trigger] res.has(x) implies x.0
                    < res.spec_next_id().0 by {
                    let j = choose|j: int| 0 <= j < n && (#[trigger] bp.list()[j]).id == x;
                    assert(bp.list()[j].id.0 <= largest);
                }
                assert forall|a: EntityId, b: EntityId| #[trigger]
                    res.cabled(a, b) implies b.0 < res.spec_next_id().0 by {
                    assert(res.entities()[a].neighbors() =~= Set::<EntityId>::empty());
                }
            }
            assert(bp.is_next_id(res.spec_next_id())) by {
                if largest > 0 {
                    let j = choose|j: int| 0 <= j < n && (#[trigger] bp.list()[j]).id.0 == largest;
                    assert(bp.list()[j].id.0 + 1 == res.spec_next_id().0);
                }
            }
            assert forall|x: EntityId| #[trigger] res.has(x) <==> bp.has(x) by {
                if bp.has(x) {
                    let j = bp.places()[x] as int;
                    assert(bp.list()[j].id == x);
                }
            }
        }
        let ghost filled = res;
        let mut i: usize = 0;
        while i < n
            invariant
                0 <= i <= n,
                res.wf(),
                res.spec_next_id() == filled.spec_next_id(),
                res.entities().dom() == filled.entities().dom(),
                forall|x: EntityId| #[trigger]
                    res.has(x) ==> res.entities()[x].entity == filled.entities()[x].entity,
                forall|a: EntityId, b: EntityId| #[trigger]
                    res.cabled(a, b) ==> bp.has(b) && (bp.entity(a).cables().contains(b)
                        || bp.entity(b).cables().contains(a)),
                forall|j: int, b: EntityId|
                    0 <= j < i && bp.has(b) && (#[trigger] bp.list()[j]).id != b
                        && bp.list()[j].cables().contains(b) && spec_linkable(
                        filled.entities()[bp.list()[j].id].entity,
                        filled.entities()[b].entity,
                    ) ==> #[trigger] res.cabled(bp.list()[j].id, b),
            decreases n - i,
        {
            let entity = bp.at(i);
            let id = entity.id();
            proof {
                assert(bp.places()[bp.list()[i as int].id] == i);
                assert(bp.list()[i as int].wf());
            }
            match &entity.neighbours {
                Some(list) => {
                    let mut k: usize = 0;
                    while k < list.len()
                        invariant
                            0 <= k <= list@.len(),
                            res.wf(),
                            res.spec_next_id() == filled.spec_next_id(),
                            res.entities().dom() == filled.entities().dom(),
                            forall|x: EntityId| #[trigger]
                                res.has(x) ==> res.entities()[x].entity
                                    == filled.entities()[x].entity,
                            forall|a: EntityId, b: EntityId| #[trigger]
                                res.cabled(a, b) ==> bp.has(b) && (bp.entity(a).cables().contains(b)
                                    || bp.entity(b).cables().contains(a)),
                            forall|j: int, b: EntityId|
                                0 <= j < i && bp.has(b) && (#[trigger] bp.list()[j]).id != b
                                    && bp.list()[j].cables().contains(b) && spec_linkable(
                                    filled.entities()[bp.list()[j].id].entity,
                                    filled.entities()[b].entity,
                                ) ==> #[trigger] res.cabled(bp.list()[j].id, b),
                            forall|q: int|
                                0 <= q < k && bp.has(#[trigger] list@[q]) && list@[q] != id
                                    && spec_linkable(
                                    filled.entities()[id].entity,
                                    filled.entities()[list@[q]].entity,
                                ) ==> res.cabled(id, list@[q]),
                        decreases list@.len() - k,
                    {
                        let other = list[k];
                        let ghost before = res;
                        proof {
                            assert(list@.to_set().contains(other));
                        }
                        let linked = res.add_cable_connection(id, other);
                        proof {
                            assert(linked is Some ==> before.has(id) && before.has(other));
                            assert(linked is None ==> res == before);
                            assert(res.entities().dom() =~= filled.entities().dom());
                            assert forall|x: EntityId| #[trigger] res.has(x) implies res.entities()[x].entity
                                == filled.entities()[x].entity by {
                                assert(before.has(x));
                            }
                            assert forall|a: EntityId, b: EntityId| #[trigger]
                                before.cabled(a, b) implies res.cabled(a, b) by {
                                if a != id && a != other {
                                    assert(res.entities()[a] == before.entities()[a]);
                                }
                            }
                            assert(bp.entity(id) == bp.list()[i as int]);
                            assert(bp.entity(id).cables().contains(other));
                            assert forall|a: EntityId, b: EntityId| #[trigger]
                                res.cabled(a, b) implies bp.has(b) && (bp.entity(a).cables().contains(
                                b,
                            ) || bp.entity(b).cables().contains(a)) by {
                                if before.cabled(a, b) {
                                } else {
                                    assert(before.has(a));
                                    if a != id && a != other {
                                        assert(res.entities()[a] == before.entities()[a]);
                                    }
                                    if linked is None {
                                        assert(res == before);
                                        assert(before.cabled(a, b));
                                    }
                                    assert(linked is Some);
                                    assert(before.has(id) && before.has(other));
                                    assert((a == id && b == other) || (a == other && b == id));
                                    assert(filled.has(id) && filled.has(other));
                                    assert(filled.has(id) <==> bp.has(id));
                                    assert(filled.has(other) <==> bp.has(other));
                                }
                            }
                            assert forall|j: int, b: EntityId|
                                0 <= j < i && bp.has(b) && (#[trigger] bp.list()[j]).id != b
                                    && bp.list()[j].cables().contains(b) && spec_linkable(
                                    filled.entities()[bp.list()[j].id].entity,
                                    filled.entities()[b].entity,
                                ) implies #[trigger] res.cabled(bp.list()[j].id, b) by {
                                assert(before.cabled(bp.list()[j].id, b));
                            }
                            assert forall|q: int|
                                0 <= q < k + 1 && bp.has(#[trigger] list@[q]) && list@[q] != id
                                    && spec_linkable(
                                    filled.entities()[id].entity,
                                    filled.entities()[list@[q]].entity,
                                ) implies res.cabled(id, list@[q]) by {
                                if q < k {
                                    assert(before.cabled(id, list@[q]));
                                } else {
                                    assert(bp.has(id));
                                    assert(filled.has(id) <==> bp.has(id));
                                    assert(filled.has(other) <==> bp.has(other));
                                    assert(before.has(id) == filled.has(id));
                                    assert(before.has(other) == filled.has(other));
                                    assert(before.has(id) && before.has(other));
                                    assert(before.entities()[id].entity
                                        == filled.entities()[id].entity);
                                    assert(before.entities()[other].entity
                                        == filled.entities()[other].entity);
                                    assert(linked is Some);
                                }
                            }
                        }
                        k = k + 1;
                    }
                    proof {
                        assert forall|j: int, b: EntityId|
                            0 <= j < i + 1 && bp.has(b) && (#[trigger] bp.list()[j]).id != b
                                && bp.list()[j].cables().contains(b) && spec_linkable(
                                filled.entities()[bp.list()[j].id].entity,
                                filled.entities()[b].entity,
                            ) implies #[trigger] res.cabled(bp.list()[j].id, b) by {
                            if j == i {
                                assert(list@.to_set().contains(b));
                                let q = choose|q: int| 0 <= q < list@.len() && list@[q] == b;
                                assert(bp.has(list@[q]));
                            }
                        }
                    }
                },
                None => {},
            }
            i = i + 1;
        }
        proof {
            assert forall|a: EntityId, b: EntityId|
                bp.has(a) && bp.has(b) && a != b && bp.entity(a).cables().contains(b)
                    && spec_linkable(
                    spec_from_bp_entity(prototype_dict, bp.entity(a).data),
                    spec_from_bp_entity(prototype_dict, bp.entity(b).data),
                ) implies #[trigger] res.cabled(a, b) by {
                let j = bp.places()[a] as int;
                assert(bp.list()[j].id == a);
                assert(filled.has(a) && filled.has(b));
                assert(res.cabled(bp.list()[j].id, b));
            }
            assert forall|x: EntityId| #[trigger] res.has(x) implies res.entities()[x].entity
                == spec_from_bp_entity(prototype_dict, bp.entity(x).data) by {
                assert(filled.has(x));
            }
            assert forall|x: EntityId| #[trigger] res.has(x) <==> bp.has(x) by {
                assert(res.has(x) == filled.has(x));
                assert(filled.has(x) <==> bp.has(x));
            }
        }
        res
    }
}

/// The ids of `list` that `kept` holds, in the order they have there.
pub open spec fn kept_of(list: Seq<EntityId>, kept: Set<EntityId>) -> Seq<EntityId>
    decreases list.len(),
{
    if list.len() == 0 {
        Seq::empty()
    } else {
        let rest = kept_of(list.drop_last(), kept);
        if kept.contains(list.last()) {
            rest.push(list.last())
        } else {
            rest
        }
    }
}

/// What is kept of a list are its members that `kept` holds, none of them
/// twice where the list holds none twice. A list of which `kept` holds
/// every member is kept whole.
pub proof fn lemma_kept_of(list: Seq<EntityId>, kept: Set<EntityId>)
    ensures
        forall|x: EntityId| #[trigger]
            kept_of(list, kept).contains(x) <==> list.contains(x) && kept.contains(x),
        list.no_duplicates() ==> kept_of(list, kept).no_duplicates(),
        (forall|x: EntityId| list.contains(x) ==> kept.contains(x)) ==> kept_of(list, kept) == list,
    decreases list.len(),
{
    if list.len() > 0 {
        let front = list.drop_last();
        let rest = kept_of(front, kept);
        let last = list.last();
        lemma_kept_of(front, kept);
        assert(list =~= front.push(last));
        assert forall|x: EntityId| #[trigger]
            kept_of(list, kept).contains(x) <==> list.contains(x) && kept.contains(x) by {
            lemma_push_contains(front, last, x);
            lemma_push_contains(rest, last, x);
        }
        if list.no_duplicates() {
            assert(front.no_duplicates());
            if kept.contains(last) {
                assert(!front.contains(last)) by {
                    if front.contains(last) {
                        let i = choose|i: int| 0 <= i < front.len() && front[i] == last;
                        assert(list[i] == list[list.len() - 1]);
                    }
                }
                lemma_push_no_duplicates(rest, last);
            }
        }
        if forall|x: EntityId| list.contains(x) ==> kept.contains(x) {
            assert(list.contains(last)) by {
                assert(list[list.len() - 1] == last);
            }
            assert forall|x: EntityId| front.contains(x) implies kept.contains(x) by {
                lemma_push_contains(front, last, x);
            }
        }
    }
}

/// Taking one id out of a list that holds none twice, and keeping then, is
/// keeping without that id.
pub proof fn lemma_kept_of_remove(list: Seq<EntityId>, kept: Set<EntityId>, id: EntityId)
    requires
        list.no_duplicates(),
    ensures
        kept_of(list, kept.remove(id)) == (if kept_of(list, kept).contains(id) {
            kept_of(list, kept).remove(kept_of(list, kept).index_of(id))
        } else {
            kept_of(list, kept)
        }),
    decreases list.len(),
{
    if list.len() > 0 {
        let front = list.drop_last();
        let last = list.last();
        let rest = kept_of(front, kept);
        let whole = kept_of(list, kept);
        assert(list =~= front.push(last));
        assert(front.no_duplicates());
        lemma_kept_of_remove(front, kept, id);
        lemma_kept_of(front, kept);
        lemma_kept_of(list, kept);
        assert(!front.contains(last)) by {
            if front.contains(last) {
                let i = choose|i: int| 0 <= i < front.len() && front[i] == last;
                assert(list[i] == list[list.len() - 1]);
            }
        }
        if kept.contains(last) {
            if id == last {
                assert(!rest.contains(id));
                assert(whole[rest.len() as int] == id);
                let at = whole.index_of(id);
                assert(whole[at] == whole[rest.len() as int]);
                assert(whole.remove(at) =~= rest);
            } else if rest.contains(id) {
                lemma_push_contains(rest, last, id);
                let at = whole.index_of(id);
                let before = rest.index_of(id);
                assert(whole[before] == rest[before]);
                assert(whole[at] == whole[before]);
                assert(whole.remove(at) =~= rest.remove(before).push(last));
            } else {
                lemma_push_contains(rest, last, id);
            }
        }
    }
}

/// What a blueprint says of pole `pole`: its prototype by name, its place,
/// and its direction unless it faces north.
pub open spec fn describes(data: BlueprintEntityData, pole: WorldEntity) -> bool {
    &&& data.position == pole.position
    &&& data.name@ == pole.prototype.value().name@
    &&& data.direction == (if pole.direction != 0 {
        Some(pole.direction)
    } else {
        None
    })
}

/// The number that `ids` gives to `p`, as an id of a blueprint.
pub open spec fn number_in(ids: Map<EntityId, u32>, p: EntityId) -> EntityId {
    EntityId(ids[p])
}

/// Whether the entities of `after` from place `from` on are numbered
/// `first`, `first + 1` and so on, in their order.
pub open spec fn numbered_from(after: &BlueprintEntities, from: int, first: int) -> bool {
    forall|j: int|
        from <= j < after.list().len() ==> (#[trigger] after.list()[j]).id.0 == first + (j - from)
}

/// Whether the blueprint has numbers and places left for `count` more
/// entities.
pub open spec fn has_room(bp: &BlueprintEntities, count: int) -> bool {
    exists|n: EntityId| #[trigger]
        bp.is_next_id(n) && n.0 + count <= u32::MAX && bp.list().len() + count <= u32::MAX
}

/// A blueprint has one next id at most.
pub proof fn lemma_next_id_unique(bp: &BlueprintEntities, a: EntityId, b: EntityId)
    requires
        bp.is_next_id(a),
        bp.is_next_id(b),
    ensures
        a == b,
{
    if a.0 < b.0 {
        let i = choose|i: int| 0 <= i < bp.list().len() && (#[trigger] bp.list()[i]).id.0 + 1 == b.0;
        assert(bp.list()[i].id.0 < a.0);
    }
    if b.0 < a.0 {
        let i = choose|i: int| 0 <= i < bp.list().len() && (#[trigger] bp.list()[i]).id.0 + 1 == a.0;
        assert(bp.list()[i].id.0 < b.0);
    }
}

/// Whether `ids` gives some entity the number of `n`.
pub open spec fn numbered(ids: Map<EntityId, u32>, n: EntityId) -> bool {
    exists|p: EntityId| #[trigger] ids.contains_key(p) && ids[p] == n.0
}

/// Whether pole `p` of `model` has a cable to a pole to which `ids` gives
/// the number of `y`.
pub open spec fn cable_under(
    model: &BpModel,
    ids: Map<EntityId, u32>,
    p: EntityId,
    y: EntityId,
) -> bool {
    exists|q: EntityId| #[trigger] ids.contains_key(q) && ids[q] == y.0 && model.cabled(p, q)
}

impl BlueprintEntities {
    /// Whether `ids` gives to poles of `model` numbers of entities that
    /// were added on top of `start` and describe those poles, not two poles
    /// the same number.
    pub open spec fn holds_poles(
        &self,
        start: &BlueprintEntities,
        model: &BpModel,
        ids: Map<EntityId, u32>,
    ) -> bool {
        &&& forall|p: EntityId| #[trigger]
            ids.contains_key(p) ==> {
                let n = EntityId(ids[p]);
                &&& model.has(p)
                &&& model.entities()[p].entity.prototype.value().spec_is_pole()
                &&& !start.has(n)
                &&& self.has(n)
                &&& self.entity(n).id == n
                &&& describes(self.entity(n).data, model.entities()[p].entity)
            }
        &&& forall|p: EntityId, q: EntityId|
            ids.contains_key(p) && ids.contains_key(q) && p != q ==> #[trigger] ids[p]
                != #[trigger] ids[q]
    }

    /// Adds the poles of `model` to the blueprint, each under the number
    /// that follows the largest in use and without circuit wires, with the
    /// cables between them and no others. The result gives, for the id of
    /// every pole that was added, its number in the blueprint. A pole for
    /// which no number is left is left out; none is where the blueprint has
    /// room for as many entities as the model holds. Nothing else is added,
    /// and what was there stays as it was.
    #[verifier::loop_isolation(false)]
    pub fn add_poles_from(&mut self, model: &BpModel) -> (r: IdMap)
        requires
            old(self).wf(),
            model.wf(),
        ensures
            final(self).wf(),
            forall|id: EntityId| #[trigger]
                old(self).has(id) ==> final(self).has(id) && final(self).entity(id) == old(self).entity(id),
            final(self).holds_poles(old(self), model, id_map(r)),
            forall|n: EntityId| #[trigger]
                final(self).has(n) ==> old(self).has(n) || numbered(id_map(r), n),
            forall|p: EntityId| #[trigger]
                id_map(r).contains_key(p) ==> final(self).entity(
                    EntityId(id_map(r)[p]),
                ).neighbours is Some,
            forall|p: EntityId| #[trigger]
                id_map(r).contains_key(p) ==> final(self).entity(
                    number_in(id_map(r), p),
                ).connections.0@ is None && final(self).entity(
                    number_in(id_map(r), p),
                ).connections.1@ is None,
            forall|p: EntityId, y: EntityId|
                id_map(r).contains_key(p) && #[trigger] final(self).entity(
                    number_in(id_map(r), p),
                ).cables().contains(y) ==> cable_under(model, id_map(r), p, y),
            forall|p: EntityId, q: EntityId|
                id_map(r).contains_key(p) && id_map(r).contains_key(q) && #[trigger] model.cabled(
                    p,
                    q,
                ) ==> final(self).entity(EntityId(id_map(r)[p])).cables().contains(
                    EntityId(id_map(r)[q]),
                ),
            !final(self).full() ==> forall|p: EntityId|
                model.has(p) && model.entities()[p].entity.prototype.value().spec_is_pole()
                    ==> #[trigger] id_map(r).contains_key(p),
            has_room(old(self), model.entities().dom().len() as int) ==> forall|p: EntityId|
                model.has(p) && model.entities()[p].entity.prototype.value().spec_is_pole()
                    ==> #[trigger] id_map(r).contains_key(p),
            final(self).list().len() >= old(self).list().len(),
            forall|j: int|
                0 <= j < old(self).list().len() ==> (#[trigger] final(self).list()[j]).id == old(
                    self,
                ).list()[j].id,
            forall|n: EntityId| #[trigger]
                old(self).is_next_id(n) ==> numbered_from(
                    final(self),
                    old(self).list().len() as int,
                    n.0 as int,
                ),
    {
        let all = model.all_entities();
        let mut ids = IdMap::new();
        let ghost start = *self;
        let ghost mut skipped = false;
        let ghost mut count: int = 0;
        let ghost mut first: int = 0;
        let ghost from = start.list().len() as int;
        let ghost total = model.entities().dom().len() as int;
        let mut i: usize = 0;
        while i < all.len()
            invariant
                0 <= i <= all@.len(),
                all@.len() == total,
                from == start.list().len(),
                0 <= count <= i,
                self.list().len() == from + count,
                forall|j: int| 0 <= j < from ==> (#[trigger] self.list()[j]).id == start.list()[j].id,
                count == 0 ==> self.list() == start.list(),
                count > 0 ==> 1 <= first && first + count - 1 <= u32::MAX && start.is_next_id(
                    EntityId(first as u32),
                ) && numbered_from(self, from, first),
                has_room(&start, total) ==> !skipped,
                self.wf(),
                forall|id: EntityId| #[trigger]
                    start.has(id) ==> self.has(id) && self.entity(id) == start.entity(id),
                self.holds_poles(&start, model, id_map(ids)),
                forall|p: EntityId| #[trigger]
                    id_map(ids).contains_key(p) ==> exists|j: int|
                        0 <= j < i && (#[trigger] all@[j]).id == p,
                forall|n: EntityId| #[trigger]
                    self.has(n) ==> start.has(n) || numbered(id_map(ids), n),
                forall|p: EntityId| #[trigger]
                    id_map(ids).contains_key(p) ==> self.entity(
                        number_in(id_map(ids), p),
                    ).neighbours is None && self.entity(number_in(id_map(ids), p)).connections.0@ is None
                        && self.entity(number_in(id_map(ids), p)).connections.1@ is None,
                skipped ==> self.full(),
                !skipped ==> forall|j: int|
                    0 <= j < i && (#[trigger] all@[j]).entity.prototype.value().spec_is_pole()
                        ==> id_map(ids).contains_key(all@[j].id),
            decreases all@.len() - i,
        {
            let entity = all[i];
            let ghost before = *self;
            let ghost known = id_map(ids);
            proof {
                assert(model.has(all@[i as int].id));
            }
            if entity.entity.prototype.get().is_pole() {
                let direction = if entity.entity.direction != 0 {
                    Some(entity.entity.direction)
                } else {
                    None
                };
                let data = BlueprintEntityData::new(
                    entity.entity.prototype.get().name.clone(),
                    entity.entity.position,
                    direction,
                );
                match self.add_entity(data) {
                    Some(new_id) => {
                        ids.insert(entity.id, new_id.0);
                        proof {
                            assert(self.list() == before.list().push(self.entity(new_id)));
                            assert(self.places()[new_id] == before.list().len());
                            assert(self.list()[from + count].id == new_id);
                            if count == 0 {
                                first = new_id.0 as int;
                                assert(start.is_next_id(new_id));
                            } else {
                                assert(before.list()[from + count - 1].id.0 == first + count - 1);
                                assert(new_id.0 >= 2);
                                let w = choose|w: int|
                                    0 <= w < before.list().len() && (
                                    #[trigger] before.list()[w]).id.0 + 1 == new_id.0;
                                if w < from {
                                    assert(before.list()[w].id == start.list()[w].id);
                                    assert(start.list()[w].id.0 < first);
                                }
                                assert(new_id.0 == first + count);
                            }
                            assert forall|j: int| 0 <= j < from implies (#[trigger] self.list()[j]).id
                                == start.list()[j].id by {
                                assert(self.list()[j] == before.list()[j]);
                            }
                            assert(numbered_from(self, from, first)) by {
                                assert forall|j: int| from <= j < self.list().len() implies (
                                #[trigger] self.list()[j]).id.0 == first + (j - from) by {
                                    if j < from + count {
                                        assert(self.list()[j] == before.list()[j]);
                                    }
                                }
                            }
                            count = count + 1;
                            assert(!known.contains_key(entity.id)) by {
                                if known.contains_key(entity.id) {
                                    let j = choose|j: int|
                                        0 <= j < i && (#[trigger] all@[j]).id == entity.id;
                                    assert(all@[j].id != all@[i as int].id);
                                }
                            }
                            assert forall|x: EntityId| #[trigger] before.has(x) implies self.has(x)
                                && self.entity(x) == before.entity(x) by {
                                assert(before.places()[x] < before.list().len());
                            }
                            assert(self.holds_poles(&start, model, id_map(ids))) by {
                                assert forall|p: EntityId| #[trigger]
                                    id_map(ids).contains_key(p) implies {
                                    let n = EntityId(id_map(ids)[p]);
                                    &&& model.has(p)
                                    &&& model.entities()[p].entity.prototype.value().spec_is_pole()
                                    &&& !start.has(n)
                                    &&& self.has(n)
                                    &&& self.entity(n).id == n
                                    &&& describes(self.entity(n).data, model.entities()[p].entity)
                                } by {
                                    if p == entity.id {
                                        if start.has(new_id) {
                                            assert(before.has(new_id));
                                        }
                                    } else {
                                        assert(known.contains_key(p));
                                        assert(before.has(EntityId(known[p])));
                                    }
                                }
                                assert forall|p: EntityId, q: EntityId|
                                    id_map(ids).contains_key(p) && id_map(ids).contains_key(q) && p
                                        != q implies #[trigger] id_map(ids)[p] != #[trigger] id_map(
                                    ids,
                                )[q] by {
                                    if p == entity.id {
                                        assert(before.has(EntityId(known[q])));
                                    } else if q == entity.id {
                                        assert(before.has(EntityId(known[p])));
                                    }
                                }
                            }
                            assert forall|p: EntityId| #[trigger]
                                id_map(ids).contains_key(p) implies exists|j: int|
                                0 <= j < i + 1 && (#[trigger] all@[j]).id == p by {
                                if p == entity.id {
                                    assert(all@[i as int].id == p);
                                } else {
                                    let j = choose|j: int| 0 <= j < i && (#[trigger] all@[j]).id == p;
                                    assert(0 <= j < i + 1 && all@[j].id == p);
                                }
                            }
                            assert forall|x: EntityId| #[trigger] self.has(x) implies start.has(x)
                                || numbered(id_map(ids), x) by {
                                if x == new_id {
                                    assert(id_map(ids).contains_key(entity.id) && id_map(
                                        ids,
                                    )[entity.id] == x.0);
                                } else {
                                    assert(before.has(x));
                                    if !start.has(x) {
                                        let p = choose|p: EntityId| #[trigger]
                                            known.contains_key(p) && known[p] == x.0;
                                        assert(id_map(ids).contains_key(p) && id_map(ids)[p] == x.0);
                                    }
                                }
                            }
                            assert forall|p: EntityId| #[trigger]
                                id_map(ids).contains_key(p) implies self.entity(
                                number_in(id_map(ids), p),
                            ).neighbours is None && self.entity(
                                number_in(id_map(ids), p),
                            ).connections.0@ is None && self.entity(
                                number_in(id_map(ids), p),
                            ).connections.1@ is None by {
                                if p != entity.id {
                                    assert(known.contains_key(p));
                                    assert(number_in(id_map(ids), p) == number_in(known, p));
                                    assert(before.has(number_in(known, p)));
                                }
                            }
                            if skipped {
                                lemma_stays_full(&before, self);
                            }
                        }
                    },
                    None => {
                        proof {
                            skipped = true;
                            if has_room(&start, total) {
                                let n = choose|n: EntityId| #[trigger]
                                    start.is_next_id(n) && n.0 + total <= u32::MAX && start.list().len()
                                        + total <= u32::MAX;
                                if count > 0 {
                                    lemma_next_id_unique(&start, n, EntityId(first as u32));
                                }
                                assert(before.full());
                                assert(before.list().len() < u32::MAX);
                                let w = choose|w: int|
                                    0 <= w < before.list().len() && (
                                    #[trigger] before.list()[w]).id.0 == u32::MAX;
                                if w < from {
                                    assert(before.list()[w].id == start.list()[w].id);
                                    assert(start.list()[w].id.0 < n.0);
                                } else {
                                    assert(before.list()[w].id.0 == first + (w - from));
                                }
                                assert(false);
                            }
                        }
                    },
                }
            }
            i = i + 1;
        }
        let ghost placed = *self;
        assert(placed.holds_poles(&start, model, id_map(ids)));
        assert(forall|n: EntityId| #[trigger]
            placed.has(n) ==> start.has(n) || numbered(id_map(ids), n));
        let mut i: usize = 0;
        while i < all.len()
            invariant
                0 <= i <= all@.len(),
                self.wf(),
                self.places() == placed.places(),
                self.list().len() == placed.list().len(),
                forall|id: EntityId| #[trigger]
                    self.has(id) ==> self.entity(id).id == id && self.entity(id).data
                        == placed.entity(id).data,
                forall|id: EntityId| #[trigger]
                    start.has(id) ==> self.has(id) && self.entity(id) == start.entity(id),
                forall|x: EntityId, y: EntityId|
                    placed.has(x) && placed.entity(x).cables().contains(y) ==> #[trigger] self.entity(
                        x,
                    ).cables().contains(y),
                forall|x: EntityId| #[trigger]
                    self.has(x) ==> self.entity(x).connections == placed.entity(x).connections,
                forall|p: EntityId, y: EntityId|
                    id_map(ids).contains_key(p) && #[trigger] self.entity(
                        number_in(id_map(ids), p),
                    ).cables().contains(y) ==> cable_under(model, id_map(ids), p, y),
                forall|j: int|
                    0 <= j < i && id_map(ids).contains_key((#[trigger] all@[j]).id) ==> self.entity(
                        EntityId(id_map(ids)[all@[j].id]),
                    ).neighbours is Some,
                forall|j: int, q: EntityId|
                    0 <= j < i && id_map(ids).contains_key((#[trigger] all@[j]).id) && id_map(
                        ids,
                    ).contains_key(q) && #[trigger] model.cabled(all@[j].id, q) ==> self.entity(
                        EntityId(id_map(ids)[all@[j].id]),
                    ).cables().contains(EntityId(id_map(ids)[q])),
            decreases all@.len() - i,
        {
            let entity = all[i];
            proof {
                assert(model.has(all@[i as int].id));
            }
            match (entity.pole_connections(), ids.get(entity.id)) {
                (Some(cables), Some(number)) => {
                    let n = EntityId(number);
                    let ghost b0 = *self;
                    proof {
                        assert(id_map(ids).contains_key(entity.id));
                        assert(placed.has(n) && !start.has(n));
                    }
                    self.list_cables(n);
                    proof {
                        assert forall|x: EntityId| #[trigger] self.has(x) implies self.entity(
                            x,
                        ).connections == placed.entity(x).connections by {
                            assert(b0.has(x));
                        }
                        assert forall|p: EntityId, y: EntityId|
                            id_map(ids).contains_key(p) && #[trigger] self.entity(
                                number_in(id_map(ids), p),
                            ).cables().contains(y) implies cable_under(model, id_map(ids), p, y) by {
                            let x = number_in(id_map(ids), p);
                            assert(placed.has(x));
                            assert(self.has(x));
                            assert(b0.entity(x).cables().contains(y));
                        }
                        assert forall|id: EntityId| #[trigger] self.has(id) implies self.entity(id).id
                            == id && self.entity(id).data == placed.entity(id).data by {
                            assert(b0.has(id));
                        }
                        assert forall|id: EntityId| #[trigger] start.has(id) implies self.has(id)
                            && self.entity(id) == start.entity(id) by {
                            assert(b0.has(id) && b0.entity(id) == start.entity(id));
                            assert(id != n);
                            assert(self.has(id));
                            assert(self.entity(id) == b0.entity(id));
                        }
                        assert forall|j: int|
                            0 <= j < i && id_map(ids).contains_key((#[trigger] all@[j]).id)
                                implies self.entity(
                            EntityId(id_map(ids)[all@[j].id]),
                        ).neighbours is Some by {
                            let x = EntityId(id_map(ids)[all@[j].id]);
                            assert(placed.has(x));
                            assert(self.has(x));
                            assert(b0.entity(x).neighbours is Some);
                            if x != n {
                                assert(self.entity(x) == b0.entity(x));
                            }
                        }
                        assert forall|x: EntityId, y: EntityId|
                            b0.has(x) && b0.entity(x).cables().contains(y) implies #[trigger] self.entity(
                            x,
                        ).cables().contains(y) by {
                            assert(self.has(x));
                        }
                    }
                    let others = cables.connections.to_vec();
                    let mut k: usize = 0;
                    while k < others.len()
                        invariant
                            0 <= k <= others@.len(),
                            self.wf(),
                            self.places() == placed.places(),
                            self.list().len() == placed.list().len(),
                            self.entity(n).neighbours is Some,
                            forall|id: EntityId| #[trigger]
                                self.has(id) ==> self.entity(id).id == id && self.entity(id).data
                                    == placed.entity(id).data,
                            forall|id: EntityId| #[trigger]
                                start.has(id) ==> self.has(id) && self.entity(id) == start.entity(id),
                            forall|x: EntityId, y: EntityId|
                                b0.has(x) && b0.entity(x).cables().contains(y) ==> #[trigger] self.entity(
                                    x,
                                ).cables().contains(y),
                            forall|x: EntityId| #[trigger]
                                self.has(x) ==> self.entity(x).connections == placed.entity(
                                    x,
                                ).connections,
                            forall|p: EntityId, y: EntityId|
                                id_map(ids).contains_key(p) && #[trigger] self.entity(
                                    number_in(id_map(ids), p),
                                ).cables().contains(y) ==> cable_under(model, id_map(ids), p, y),
                            forall|j: int|
                                0 <= j < i && id_map(ids).contains_key((#[trigger] all@[j]).id)
                                    ==> self.entity(
                                    EntityId(id_map(ids)[all@[j].id]),
                                ).neighbours is Some,
                            forall|t: int|
                                0 <= t < k && id_map(ids).contains_key(#[trigger] others@[t])
                                    ==> self.entity(n).cables().contains(
                                    EntityId(id_map(ids)[others@[t]]),
                                ),
                        decreases others@.len() - k,
                    {
                        let b1 = Ghost(*self);
                        match ids.get(others[k]) {
                            Some(m) => {
                                proof {
                                    assert(id_map(ids).contains_key(others@[k as int]));
                                    assert(placed.has(EntityId(m)) && !start.has(EntityId(m)));
                                    assert(others@.to_set().contains(others@[k as int]));
                                    assert(model.cabled(entity.id, others@[k as int]));
                                    assert(model.has(others@[k as int]));
                                    assert(entity.id != others@[k as int]);
                                    assert(number != m);
                                }
                                let joined = self.add_cable_connection(n, EntityId(m));
                                proof {
                                    assert(joined);
                                    assert(self.entity(n).cables() == b1@.entity(n).cables().insert(
                                        EntityId(m),
                                    ));
                                    assert forall|x: EntityId| #[trigger] self.has(x) implies self.entity(
                                        x,
                                    ).connections == placed.entity(x).connections by {
                                        assert(b1@.has(x));
                                    }
                                    assert forall|p: EntityId, y: EntityId|
                                        id_map(ids).contains_key(p) && #[trigger] self.entity(
                                            number_in(id_map(ids), p),
                                        ).cables().contains(y) implies cable_under(
                                        model,
                                        id_map(ids),
                                        p,
                                        y,
                                    ) by {
                                        let x = number_in(id_map(ids), p);
                                        let other = others@[k as int];
                                        assert(placed.has(x));
                                        assert(self.has(x) && b1@.has(x));
                                        assert(model.cabled(other, entity.id));
                                        if x == n {
                                            assert(p == entity.id);
                                            if y == EntityId(m) {
                                                assert(id_map(ids).contains_key(other) && id_map(
                                                    ids,
                                                )[other] == y.0 && model.cabled(p, other));
                                            } else {
                                                assert(b1@.entity(x).cables().contains(y));
                                            }
                                        } else if x == EntityId(m) {
                                            assert(p == other);
                                            if y == n {
                                                assert(id_map(ids).contains_key(entity.id) && id_map(
                                                    ids,
                                                )[entity.id] == y.0 && model.cabled(p, entity.id));
                                            } else {
                                                assert(b1@.entity(x).cables().contains(y));
                                            }
                                        } else {
                                            assert(self.entity(x) == b1@.entity(x));
                                        }
                                    }
                                    assert forall|id: EntityId| #[trigger]
                                        self.has(id) implies self.entity(id).id == id && self.entity(
                                        id,
                                    ).data == placed.entity(id).data by {
                                        assert(b1@.has(id));
                                    }
                                    assert forall|id: EntityId| #[trigger]
                                        start.has(id) implies self.has(id) && self.entity(id)
                                        == start.entity(id) by {
                                        assert(b1@.has(id) && b1@.entity(id) == start.entity(id));
                                        assert(id != n && id != EntityId(m));
                                        assert(self.has(id));
                                        assert(self.entity(id) == b1@.entity(id));
                                    }
                                    assert forall|x: EntityId, y: EntityId|
                                        b1@.has(x) && b1@.entity(x).cables().contains(
                                            y,
                                        ) implies #[trigger] self.entity(x).cables().contains(y) by {
                                        assert(self.has(x));
                                        if x != n && x != EntityId(m) {
                                            assert(self.entity(x) == b1@.entity(x));
                                        }
                                    }
                                    assert forall|x: EntityId, y: EntityId|
                                        b0.has(x) && b0.entity(x).cables().contains(
                                            y,
                                        ) implies #[trigger] self.entity(x).cables().contains(y) by {
                                        assert(b1@.entity(x).cables().contains(y));
                                    }
                                    assert forall|j: int|
                                        0 <= j < i && id_map(ids).contains_key(
                                            (#[trigger] all@[j]).id,
                                        ) implies self.entity(
                                        EntityId(id_map(ids)[all@[j].id]),
                                    ).neighbours is Some by {
                                        let x = EntityId(id_map(ids)[all@[j].id]);
                                        assert(b1@.entity(x).neighbours is Some);
                                        assert(placed.has(x));
                                        assert(self.has(x));
                                        if x != n && x != EntityId(m) {
                                            assert(self.entity(x) == b1@.entity(x));
                                        } else if x == n {
                                            lemma_cables_listed(self.entity(x), b1@.entity(x));
                                        } else {
                                            assert(self.entity(x).cables() == b1@.entity(
                                                x,
                                            ).cables().insert(n));
                                            lemma_cables_listed(self.entity(x), b1@.entity(x));
                                        }
                                    }
                                    lemma_cables_listed(self.entity(n), b1@.entity(n));
                                    assert forall|t: int|
                                        0 <= t < k + 1 && id_map(ids).contains_key(
                                            #[trigger] others@[t],
                                        ) implies self.entity(n).cables().contains(
                                        EntityId(id_map(ids)[others@[t]]),
                                    ) by {
                                        if t < k {
                                            assert(b1@.entity(n).cables().contains(
                                                EntityId(id_map(ids)[others@[t]]),
                                            ));
                                        }
                                    }
                                }
                            },
                            None => {},
                        }
                        k = k + 1;
                    }
                    proof {
                        assert forall|x: EntityId, y: EntityId|
                            placed.has(x) && placed.entity(x).cables().contains(
                                y,
                            ) implies #[trigger] self.entity(x).cables().contains(y) by {
                            assert(b0.entity(x).cables().contains(y));
                        }
                        assert forall|j: int, q: EntityId|
                            0 <= j < i + 1 && id_map(ids).contains_key((#[trigger] all@[j]).id)
                                && id_map(ids).contains_key(q) && #[trigger] model.cabled(
                                all@[j].id,
                                q,
                            ) implies self.entity(EntityId(id_map(ids)[all@[j].id])).cables().contains(
                            EntityId(id_map(ids)[q]),
                        ) by {
                            if j < i {
                                let x = EntityId(id_map(ids)[all@[j].id]);
                                assert(b0.entity(x).cables().contains(EntityId(id_map(ids)[q])));
                            } else {
                                assert(others@.to_set().contains(q));
                                let t = choose|t: int| 0 <= t < others@.len() && others@[t] == q;
                                assert(id_map(ids).contains_key(others@[t]));
                            }
                        }
                    }
                },
                _ => {
                    proof {
                        if id_map(ids).contains_key(entity.id) {
                            assert(model.entities()[entity.id].wf());
                            assert(false);
                        }
                    }
                },
            }
            i = i + 1;
        }
        proof {
            assert forall|j: int| 0 <= j < self.list().len() implies (#[trigger] self.list()[j]).id
                == placed.list()[j].id by {
                let y = placed.list()[j].id;
                assert(placed.places()[y] == j);
                assert(self.places().contains_key(y));
            }
            assert forall|n: EntityId| #[trigger] start.is_next_id(n) implies numbered_from(
                self,
                from,
                n.0 as int,
            ) by {
                if count > 0 {
                    lemma_next_id_unique(&start, n, EntityId(first as u32));
                    assert forall|j: int| from <= j < self.list().len() implies (
                    #[trigger] self.list()[j]).id.0 == n.0 + (j - from) by {
                        assert(placed.list()[j].id.0 == first + (j - from));
                    }
                }
            }
            assert forall|n: EntityId| #[trigger] self.has(n) implies start.has(n) || numbered(
                id_map(ids),
                n,
            ) by {
                assert(placed.has(n));
            }
            assert forall|p: EntityId| #[trigger] id_map(ids).contains_key(p) implies self.entity(
                EntityId(id_map(ids)[p]),
            ).neighbours is Some by {
                let j = choose|j: int| 0 <= j < all@.len() && (#[trigger] all@[j]).id == p;
                assert(id_map(ids).contains_key(all@[j].id));
            }
            assert forall|p: EntityId, q: EntityId|
                id_map(ids).contains_key(p) && id_map(ids).contains_key(q) && #[trigger] model.cabled(
                    p,
                    q,
                ) implies self.entity(EntityId(id_map(ids)[p])).cables().contains(
                EntityId(id_map(ids)[q]),
            ) by {
                let j = choose|j: int| 0 <= j < all@.len() && (#[trigger] all@[j]).id == p;
                assert(model.cabled(all@[j].id, q));
            }
            assert(self.holds_poles(&start, model, id_map(ids))) by {
                assert forall|p: EntityId| #[trigger] id_map(ids).contains_key(p) implies {
                    let n = EntityId(id_map(ids)[p]);
                    &&& model.has(p)
                    &&& model.entities()[p].entity.prototype.value().spec_is_pole()
                    &&& !start.has(n)
                    &&& self.has(n)
                    &&& self.entity(n).id == n
                    &&& describes(self.entity(n).data, model.entities()[p].entity)
                } by {
                    assert(placed.has(EntityId(id_map(ids)[p])));
                }
            }
            if !self.full() {
                assert(!placed.full()) by {
                    if placed.full() {
                        lemma_stays_full(&placed, self);
                    }
                }
                assert forall|p: EntityId|
                    model.has(p) && model.entities()[p].entity.prototype.value().spec_is_pole()
                        implies #[trigger] id_map(ids).contains_key(p) by {
                    let j = choose|j: int| 0 <= j < all@.len() && (#[trigger] all@[j]).id == p;
                    assert(all@[j].entity.prototype.value().spec_is_pole());
                }
            }
        }
        ids
    }
}

/// A blueprint that is full stays full when entities are added or changed
/// in place.
pub proof fn lemma_stays_full(before: &BlueprintEntities, after: &BlueprintEntities)
    requires
        before.full(),
        before.wf(),
        after.wf(),
        after.list().len() >= before.list().len(),
        forall|id: EntityId| #[trigger] before.has(id) ==> after.has(id),
    ensures
        after.full(),
{
    if before.list().len() < u32::MAX {
        let i = choose|i: int|
            0 <= i < before.list().len() && (#[trigger] before.list()[i]).id.0 == u32::MAX;
        let id = before.list()[i].id;
        assert(before.has(id));
        assert(after.has(id));
        let k = after.places()[id] as int;
        assert(after.list()[k].id == id);
    }
}

/// An entity whose cables grew from a list still has a list.
pub proof fn lemma_cables_listed(
    after: crate::better_bp::BlueprintEntity,
    before: crate::better_bp::BlueprintEntity,
)
    requires
        before.neighbours is Some,
        exists|x: EntityId| after.cables() == before.cables().insert(x),
    ensures
        after.neighbours is Some,
{
    let x = choose|x: EntityId| after.cables() == before.cables().insert(x);
    assert(after.cables().contains(x));
}

impl Clone for BpModel {
    /// A model with the same entities under the same ids, the same tile
    /// index and the same next id.
    fn clone(&self) -> (r: Self)
        ensures
            r.entities() == self.entities(),
            r.buckets() == self.buckets(),
            r.spec_next_id() == self.spec_next_id(),
            self.wf() ==> r.wf(),
    {
        let r = BpModel {
            by_tile: self.by_tile.copy(),
            all_entities: self.all_entities.copy(),
            next_id: self.next_id,
        };
        proof {
            if self.wf() {
                lemma_same_state_wf(self, &r);
            }
        }
        r
    }
}

/// A model stays well formed, but for cables to an id that is gone, when
/// poles stop listing a cable to that id.
pub proof fn lemma_detached(before: &BpModel, after: &BpModel, gone: EntityId)
    requires
        before.loose_wf(),
        !before.has(gone),
        after.spec_next_id() == before.spec_next_id(),
        after.buckets() == before.buckets(),
        after.entities().dom() == before.entities().dom(),
        forall|x: EntityId| #[trigger]
            after.has(x) ==> after.entities()[x].entity == before.entities()[x].entity
                && after.entities()[x].id == before.entities()[x].id
                && after.entities()[x].keeps_cables() == before.entities()[x].keeps_cables() && (
            after.entities()[x].neighbors() == before.entities()[x].neighbors()
                || after.entities()[x].neighbors() == before.entities()[x].neighbors().remove(gone)),
    ensures
        after.loose_wf(),
{
    assert forall|id: EntityId| #[trigger] after.has(id) implies after.entities()[id].wf()
        && after.entities()[id].id == id && id.0 < after.spec_next_id().0 by {
        assert(before.has(id));
    }
    assert forall|t: TilePosition| #[trigger]
        after.buckets().contains_key(t.key()) implies after.buckets()[t.key()].len() > 0
        && after.buckets()[t.key()].no_duplicates() by {
        assert(before.buckets().contains_key(t.key()));
    }
    assert forall|t: TilePosition, id: EntityId|
        #![trigger after.bucket(t).contains(id)]
        #![trigger after.occupies(id, t)]
        after.bucket(t).contains(id) <==> after.occupies(id, t) by {
        assert(after.bucket(t) == before.bucket(t));
        assert(before.bucket(t).contains(id) <==> before.occupies(id, t));
        assert(after.has(id) == before.has(id));
    }
    assert forall|x: EntityId, y: EntityId| #[trigger] after.cabled(x, y) implies before.cabled(
        x,
        y,
    ) && y.0 < after.spec_next_id().0 by {
        assert(before.has(x));
    }
    assert forall|x: EntityId, y: EntityId|
        #[trigger] after.cabled(x, y) && after.has(y) implies after.cabled(y, x) && x != y
        && spec_linkable(after.entities()[x].entity, after.entities()[y].entity) by {
        assert(before.cabled(x, y));
        assert(before.has(y));
        assert(before.cabled(y, x));
        assert(x != gone);
    }
}

/// Two models with the same entities and the same tile index keep the
/// invariant of the index together.
pub proof fn lemma_same_index_wf(a: &BpModel, b: &BpModel)
    requires
        a.index_wf(),
        b.entities() == a.entities(),
        b.buckets() == a.buckets(),
    ensures
        b.index_wf(),
{
    assert forall|id: EntityId| #[trigger] b.has(id) implies b.entities()[id].wf()
        && b.entities()[id].id == id by {
        assert(a.has(id));
    }
    assert forall|t: TilePosition| #[trigger]
        b.buckets().contains_key(t.key()) implies b.buckets()[t.key()].len() > 0
        && b.buckets()[t.key()].no_duplicates() by {
        assert(a.buckets().contains_key(t.key()));
    }
    assert forall|t: TilePosition, id: EntityId|
        #![trigger b.bucket(t).contains(id)]
        #![trigger b.occupies(id, t)]
        b.bucket(t).contains(id) <==> b.occupies(id, t) by {
        assert(b.bucket(t) == a.bucket(t));
        assert(a.bucket(t).contains(id) <==> a.occupies(id, t));
    }
    assert forall|x: EntityId, y: EntityId| #[trigger] b.cabled(x, y) && b.has(y) implies b.cabled(
        y,
        x,
    ) && x != y && spec_linkable(b.entities()[x].entity, b.entities()[y].entity) by {
        assert(a.cabled(x, y));
    }
    assert forall|x: EntityId, y: EntityId| #[trigger] b.cabled(x, y) implies b.has(y) by {
        assert(a.cabled(x, y));
    }
}

/// Two models with the same entities, the same tile index and the same next
/// id are well formed together.
pub proof fn lemma_same_state_wf(a: &BpModel, b: &BpModel)
    requires
        a.wf(),
        b.entities() == a.entities(),
        b.buckets() == a.buckets(),
        b.spec_next_id() == a.spec_next_id(),
    ensures
        b.wf(),
{
    assert forall|id: EntityId| #[trigger] b.has(id) implies b.entities()[id].wf()
        && b.entities()[id].id == id && id.0 < b.spec_next_id().0 by {
        assert(a.has(id));
    }
    assert forall|t: TilePosition| #[trigger]
        b.buckets().contains_key(t.key()) implies b.buckets()[t.key()].len() > 0
        && b.buckets()[t.key()].no_duplicates() by {
        assert(a.buckets().contains_key(t.key()));
    }
    assert forall|t: TilePosition, id: EntityId|
        #![trigger b.bucket(t).contains(id)]
        #![trigger b.occupies(id, t)]
        b.bucket(t).contains(id) <==> b.occupies(id, t) by {
        assert(b.bucket(t) == a.bucket(t));
        assert(a.bucket(t).contains(id) <==> a.occupies(id, t));
    }
    assert forall|x: EntityId, y: EntityId| #[trigger] b.cabled(x, y) && b.has(y) implies b.cabled(
        y,
        x,
    ) && x != y && spec_linkable(b.entities()[x].entity, b.entities()[y].entity) by {
        assert(a.cabled(x, y));
    }
    assert forall|x: EntityId, y: EntityId| #[trigger] b.cabled(x, y) implies y.0
        < b.spec_next_id().0 && b.has(y) by {
        assert(a.cabled(x, y));
    }
}

impl WorldEntity {
    /// A pole overlaps the tile in which it stands, and the tiles that hold
    /// the places next to its own towards the origin of the axes.
    pub proof fn lemma_pole_covers_tiles_about(&self, tx: int, ty: int)
        requires
            self.wf(),
            self.prototype.value().spec_is_pole(),
            tx == tile_floor(self.position.x as int) || tx == tile_floor(self.position.x - 1),
            ty == tile_floor(self.position.y as int) || ty == tile_floor(self.position.y - 1),
        ensures
            -2_000_000_001 <= tx <= 2_000_000_000,
            -2_000_000_001 <= ty <= 2_000_000_000,
            self.covers(TilePosition { x: tx as i32, y: ty as i32 }),
    {
        let local = self.spec_local_bbox();
        let world = self.spec_world_bbox();
        assert(local.min.x < 0 < local.max.x && local.min.y < 0 < local.max.y && -1_000_000_000
            <= local.min.x && local.max.x <= 1_000_000_000 && -1_000_000_000 <= local.min.y
            && local.max.y <= 1_000_000_000);
        self.lemma_tile_box_bounds();
        self.position.lemma_in_world_has_tile();
        crate::position::lemma_tile_floor_bounds(self.position.x as int);
        crate::position::lemma_tile_floor_bounds(self.position.y as int);
        crate::position::lemma_tile_floor_bounds(self.position.x - 1);
        crate::position::lemma_tile_floor_bounds(self.position.y - 1);
        crate::position::lemma_tile_floor_bounds(world.min.x as int);
        crate::position::lemma_tile_floor_bounds(world.min.y as int);
        crate::position::lemma_tile_ceil_bounds(world.max.x as int);
        crate::position::lemma_tile_ceil_bounds(world.max.y as int);
    }

    /// A pole overlaps the tile in which it stands.
    pub proof fn lemma_pole_covers_own_tile(&self)
        requires
            self.wf(),
            self.prototype.value().spec_is_pole(),
        ensures
            self.covers(self.position.spec_tile_pos()),
    {
        let local = self.spec_local_bbox();
        let world = self.spec_world_bbox();
        assert(local.min.x < 0 < local.max.x && local.min.y < 0 < local.max.y && -1_000_000_000
            <= local.min.x && local.max.x <= 1_000_000_000 && -1_000_000_000 <= local.min.y
            && local.max.y <= 1_000_000_000);
        self.lemma_tile_box_bounds();
        self.position.lemma_in_world_has_tile();
        crate::position::lemma_tile_floor_bounds(self.position.x as int);
        crate::position::lemma_tile_floor_bounds(self.position.y as int);
        crate::position::lemma_tile_floor_bounds(world.min.x as int);
        crate::position::lemma_tile_floor_bounds(world.min.y as int);
        crate::position::lemma_tile_ceil_bounds(world.max.x as int);
        crate::position::lemma_tile_ceil_bounds(world.max.y as int);
    }

    /// The tiles of a well-formed entity lie within the bounds that the
    /// world allows.
    pub proof fn lemma_tile_box_bounds(&self)
        requires
            self.wf(),
        ensures
            self.spec_world_bbox().has_tiles(),
            -2_000_001_001 <= self.tile_box().min.x <= 2_000_001_001,
            -2_000_001_001 <= self.tile_box().min.y <= 2_000_001_001,
            -2_000_001_001 <= self.tile_box().max.x <= 2_000_001_001,
            -2_000_001_001 <= self.tile_box().max.y <= 2_000_001_001,
    {
        crate::position::lemma_box_has_tiles(self.spec_world_bbox());
    }
}

/// In a well-formed model an id stands in the bucket of a tile exactly if
/// the model holds an entity under that id and the entity overlaps the tile.
pub proof fn lemma_tile_index_matches_entities(model: &BpModel, id: EntityId, t: TilePosition)
    requires
        model.wf(),
    ensures
        model.bucket(t).contains(id) <==> (model.has(id) && model.entities()[id].entity.covers(t)),
{
    assert(model.bucket(t).contains(id) <==> model.occupies(id, t));
}

/// In a well-formed model every cable leads to a pole of the model, and
/// cables are mutual: where `a` lists `b`, `b` is there and lists `a`. The
/// functions that add and remove entities and cables keep the model well
/// formed, so this holds after any sequence of them.
pub proof fn lemma_cables_symmetric(model: &BpModel, a: EntityId, b: EntityId)
    requires
        model.wf(),
        model.has(a),
    ensures
        model.entities()[a].neighbors().contains(b) ==> model.has(b)
            && model.entities()[b].neighbors().contains(a) && a != b,
        model.has(b) ==> (model.entities()[a].neighbors().contains(b)
            <==> model.entities()[b].neighbors().contains(a)),
{
    if model.cabled(a, b) {
        assert(model.has(b));
        assert(model.cabled(b, a));
    }
    if model.cabled(b, a) {
        assert(model.cabled(a, b));
    }
}

/// After an entity was removed nothing lists a cable to it, and the cables
/// among the others are as they were.
pub proof fn lemma_removed_is_unlisted(before: &BpModel, after: &BpModel, id: EntityId, x: EntityId)
    requires
        before.wf(),
        before.has(id),
        after.wf(),
        after.entities().dom() == before.entities().dom().remove(id),
        forall|y: EntityId| #[trigger]
            after.has(y) ==> after.entities()[y].neighbors() == before.entities()[y].neighbors().remove(
                id,
            ),
        after.has(x),
    ensures
        !after.entities()[x].neighbors().contains(id),
        forall|y: EntityId|
            after.has(y) ==> (#[trigger] after.entities()[x].neighbors().contains(y)
                <==> before.entities()[x].neighbors().contains(y)),
{
}

/// A pole whose distance from another is exactly the shorter of the two wire
/// distances is within reach of it.
pub proof fn lemma_connectable_at_exact_reach(
    pole_pos: MapPosition,
    pole_data: PoleData,
    target: WorldEntity,
)
    requires
        target.prototype.value().pole_data is Some,
        pole_pos.spec_square_distance(target.position) == min_wire(
            pole_data,
            target.prototype.value().pole_data->0,
        ) * min_wire(pole_data, target.prototype.value().pole_data->0),
    ensures
        spec_connectable(pole_pos, pole_data, target),
{
}

} // verus!
