//! The hash tables of the model, kept in `hashbrown` collections.
//!
//! Each table is opaque to the verifier. What it holds has a name, a
//! specification function without a body, and every operation is a thin call
//! into `hashbrown` whose contract, stated over that name, is taken on trust.

use crate::better_bp::EntityId;
use crate::bp_model::ModelEntity;
use vstd::prelude::*;

verus! {

/// A set of entity ids: a `hashbrown::HashSet<EntityId>`.
#[verifier::external_body]
#[derive(Debug)]
pub struct IdSet {
    set: hashbrown::HashSet<EntityId>,
}

/// The ids that an [`IdSet`] holds.
pub uninterp spec fn id_set(s: IdSet) -> Set<EntityId>;

/// Counters by entity id: a `hashbrown::HashMap<EntityId, u32>`.
#[verifier::external_body]
#[derive(Debug)]
pub struct IdMap {
    map: hashbrown::HashMap<EntityId, u32>,
}

/// The number that an [`IdMap`] holds for each id it knows.
pub uninterp spec fn id_map(m: IdMap) -> Map<EntityId, u32>;

/// The tile index: a `hashbrown::HashMap` from a tile's `(x, y)` to the ids
/// of the entities on it.
#[verifier::external_body]
#[derive(Debug)]
pub struct TileBuckets {
    map: hashbrown::HashMap<(i32, i32), Vec<EntityId>>,
}

/// The bucket that a [`TileBuckets`] holds for each tile it knows.
pub uninterp spec fn tile_buckets(m: TileBuckets) -> Map<(i32, i32), Seq<EntityId>>;

/// The entities of a model by id: a `hashbrown::HashMap<EntityId, ModelEntity>`.
#[verifier::external_body]
#[derive(Debug)]
pub struct EntityTable {
    map: hashbrown::HashMap<EntityId, ModelEntity>,
}

/// The entity that an [`EntityTable`] holds for each id it knows.
pub uninterp spec fn entity_table(m: EntityTable) -> Map<EntityId, ModelEntity>;

impl IdSet {
    /// `HashSet::new`: a set that holds nothing.
    #[verifier::external_body]
    pub(crate) fn new() -> (r: IdSet)
        ensures
            id_set(r) == Set::<EntityId>::empty(),
    {
        IdSet { set: hashbrown::HashSet::new() }
    }

    /// `HashSet::insert`: the set gains `id`; the result tells whether it was
    /// new to the set.
    #[verifier::external_body]
    pub(crate) fn insert(&mut self, id: EntityId) -> (r: bool)
        ensures
            id_set(*final(self)) == id_set(*old(self)).insert(id),
            r == !id_set(*old(self)).contains(id),
    {
        self.set.insert(id)
    }

    /// `HashSet::remove`: the set loses `id`; the result tells whether it
    /// held it.
    #[verifier::external_body]
    pub(crate) fn remove(&mut self, id: EntityId) -> (r: bool)
        ensures
            id_set(*final(self)) == id_set(*old(self)).remove(id),
            r == id_set(*old(self)).contains(id),
    {
        self.set.remove(&id)
    }

    /// `HashSet::contains`: whether the set holds `id`.
    #[verifier::external_body]
    pub(crate) fn contains(&self, id: EntityId) -> (r: bool)
        ensures
            r == id_set(*self).contains(id),
    {
        self.set.contains(&id)
    }

    /// `HashSet::iter`: every id of the set once, in an order that is not
    /// stated.
    #[verifier::external_body]
    pub(crate) fn to_vec(&self) -> (r: Vec<EntityId>)
        ensures
            r@.no_duplicates(),
            r@.to_set() == id_set(*self),
    {
        self.set.iter().copied().collect()
    }

    /// `HashSet::clone`: a set that holds the same ids.
    #[verifier::external_body]
    pub(crate) fn copy(&self) -> (r: IdSet)
        ensures
            r == *self,
    {
        IdSet { set: self.set.clone() }
    }
}

impl IdMap {
    /// `HashMap::new`: a map that knows no id.
    #[verifier::external_body]
    pub(crate) fn new() -> (r: IdMap)
        ensures
            id_map(r) =~= Map::empty(),
    {
        IdMap { map: hashbrown::HashMap::new() }
    }

    /// `HashMap::get`: the number held for `id`, if the map knows it.
    #[verifier::external_body]
    pub(crate) fn get(&self, id: EntityId) -> (r: Option<u32>)
        ensures
            r == (if id_map(*self).contains_key(id) {
                Some(id_map(*self)[id])
            } else {
                None
            }),
    {
        self.map.get(&id).copied()
    }

    /// `HashMap::insert`: the map holds `value` for `id` from now on; the
    /// result is the number it held before, if any.
    #[verifier::external_body]
    pub(crate) fn insert(&mut self, id: EntityId, value: u32) -> (r: Option<u32>)
        ensures
            id_map(*final(self)) == id_map(*old(self)).insert(id, value),
            r == (if id_map(*old(self)).contains_key(id) {
                Some(id_map(*old(self))[id])
            } else {
                None
            }),
    {
        self.map.insert(id, value)
    }

    /// `HashMap::remove`: the map forgets `id`; the result is the number it
    /// held, if any.
    #[verifier::external_body]
    pub(crate) fn remove(&mut self, id: EntityId) -> (r: Option<u32>)
        ensures
            id_map(*final(self)) == id_map(*old(self)).remove(id),
            r == (if id_map(*old(self)).contains_key(id) {
                Some(id_map(*old(self))[id])
            } else {
                None
            }),
    {
        self.map.remove(&id)
    }

    /// `HashMap::clear`: the map forgets every id.
    #[verifier::external_body]
    pub(crate) fn clear(&mut self)
        ensures
            id_map(*final(self)) =~= Map::empty(),
    {
        self.map.clear()
    }

    /// `HashMap::keys`: every id that the map knows once, in an order that is
    /// not stated.
    #[verifier::external_body]
    pub(crate) fn keys(&self) -> (r: Vec<EntityId>)
        ensures
            r@.no_duplicates(),
            r@.to_set() == id_map(*self).dom(),
    {
        self.map.keys().copied().collect()
    }
}

impl TileBuckets {
    /// `HashMap::new`: an index that knows no tile.
    #[verifier::external_body]
    pub(crate) fn new() -> (r: TileBuckets)
        ensures
            tile_buckets(r) =~= Map::empty(),
    {
        TileBuckets { map: hashbrown::HashMap::new() }
    }

    /// `HashMap::contains_key`: whether the index knows `tile`.
    #[verifier::external_body]
    pub(crate) fn contains_key(&self, tile: (i32, i32)) -> (r: bool)
        ensures
            r == tile_buckets(*self).contains_key(tile),
    {
        self.map.contains_key(&tile)
    }

    /// `HashMap::get`: the bucket held for `tile`, if the index knows it.
    #[verifier::external_body]
    pub(crate) fn get(&self, tile: (i32, i32)) -> (r: Option<&Vec<EntityId>>)
        ensures
            r is Some == tile_buckets(*self).contains_key(tile),
            r is Some ==> r->0@ == tile_buckets(*self)[tile],
    {
        self.map.get(&tile)
    }

    /// `HashMap::insert`: the index holds `bucket` for `tile` from now on; the
    /// result is the bucket it held before, if any.
    #[verifier::external_body]
    pub(crate) fn insert(&mut self, tile: (i32, i32), bucket: Vec<EntityId>) -> (r: Option<
        Vec<EntityId>,
    >)
        ensures
            tile_buckets(*final(self)) == tile_buckets(*old(self)).insert(tile, bucket@),
            r is Some == tile_buckets(*old(self)).contains_key(tile),
            r is Some ==> r->0@ == tile_buckets(*old(self))[tile],
    {
        self.map.insert(tile, bucket)
    }

    /// `HashMap::remove`: the index forgets `tile`; the result is the bucket
    /// it held, if any.
    #[verifier::external_body]
    pub(crate) fn remove(&mut self, tile: (i32, i32)) -> (r: Option<Vec<EntityId>>)
        ensures
            tile_buckets(*final(self)) == tile_buckets(*old(self)).remove(tile),
            r is Some == tile_buckets(*old(self)).contains_key(tile),
            r is Some ==> r->0@ == tile_buckets(*old(self))[tile],
    {
        self.map.remove(&tile)
    }

    /// `HashMap::keys`: every tile that the index knows once, in an order that
    /// is not stated.
    #[verifier::external_body]
    pub(crate) fn keys(&self) -> (r: Vec<(i32, i32)>)
        ensures
            r@.no_duplicates(),
            r@.to_set() == tile_buckets(*self).dom(),
    {
        self.map.keys().copied().collect()
    }

    /// `HashMap::clone`: an index that holds the same bucket for the same tiles.
    #[verifier::external_body]
    pub(crate) fn copy(&self) -> (r: TileBuckets)
        ensures
            tile_buckets(r) == tile_buckets(*self),
    {
        TileBuckets { map: self.map.clone() }
    }
}

impl EntityTable {
    /// `HashMap::new`: a table that knows no id.
    #[verifier::external_body]
    pub(crate) fn new() -> (r: EntityTable)
        ensures
            entity_table(r) =~= Map::empty(),
    {
        EntityTable { map: hashbrown::HashMap::new() }
    }

    /// `HashMap::get`: the entity held for `id`, if the table knows it.
    #[verifier::external_body]
    pub(crate) fn get(&self, id: EntityId) -> (r: Option<&ModelEntity>)
        ensures
            r is Some == entity_table(*self).contains_key(id),
            r is Some ==> *r->0 == entity_table(*self)[id],
    {
        self.map.get(&id)
    }

    /// `HashMap::insert`: the table holds `entity` for `id` from now on; the
    /// result is the entity it held before, if any.
    #[verifier::external_body]
    pub(crate) fn insert(&mut self, id: EntityId, entity: ModelEntity) -> (r: Option<ModelEntity>)
        ensures
            entity_table(*final(self)) == entity_table(*old(self)).insert(id, entity),
            r is Some == entity_table(*old(self)).contains_key(id),
            r is Some ==> r->0 == entity_table(*old(self))[id],
    {
        self.map.insert(id, entity)
    }

    /// `HashMap::remove`: the table forgets `id`; the result is the entity it
    /// held, if any.
    #[verifier::external_body]
    pub(crate) fn remove(&mut self, id: EntityId) -> (r: Option<ModelEntity>)
        ensures
            entity_table(*final(self)) == entity_table(*old(self)).remove(id),
            r is Some == entity_table(*old(self)).contains_key(id),
            r is Some ==> r->0 == entity_table(*old(self))[id],
    {
        self.map.remove(&id)
    }

    /// `HashMap::keys`: every id that the table knows once, in an order that
    /// is not stated.
    #[verifier::external_body]
    pub(crate) fn keys(&self) -> (r: Vec<EntityId>)
        ensures
            r@.no_duplicates(),
            r@.to_set() == entity_table(*self).dom(),
    {
        self.map.keys().copied().collect()
    }

    /// `HashMap::clone`: a table that holds, for the same ids, copies of the
    /// same entities.
    #[verifier::external_body]
    pub(crate) fn copy(&self) -> (r: EntityTable)
        ensures
            entity_table(r) == entity_table(*self),
    {
        EntityTable { map: self.map.clone() }
    }
}

impl IdSet {
    /// A set without ids.
    pub fn empty() -> (r: IdSet)
        ensures
            id_set(r) == Set::<EntityId>::empty(),
    {
        IdSet::new()
    }

    /// Whether the set holds `id`.
    pub fn has(&self, id: EntityId) -> (r: bool)
        ensures
            r == id_set(*self).contains(id),
    {
        self.contains(id)
    }

    /// The ids of the set, each once, in an order that is not stated.
    pub fn ids(&self) -> (r: Vec<EntityId>)
        ensures
            r@.no_duplicates(),
            r@.to_set() == id_set(*self),
    {
        self.to_vec()
    }

    /// Adds `id`; the result tells whether it was new to the set.
    pub fn add(&mut self, id: EntityId) -> (r: bool)
        ensures
            id_set(*final(self)) == id_set(*old(self)).insert(id),
            r == !id_set(*old(self)).contains(id),
    {
        self.insert(id)
    }
}

impl IdMap {
    /// The number held for `id`, if the map knows it.
    pub fn lookup(&self, id: EntityId) -> (r: Option<u32>)
        ensures
            r == (if id_map(*self).contains_key(id) {
                Some(id_map(*self)[id])
            } else {
                None
            }),
    {
        self.get(id)
    }

    /// The ids that the map knows, each once, in an order that is not stated.
    pub fn ids(&self) -> (r: Vec<EntityId>)
        ensures
            r@.no_duplicates(),
            r@.to_set() == id_map(*self).dom(),
    {
        self.keys()
    }
}

} // verus!
