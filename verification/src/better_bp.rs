//! Entities as a blueprint lists them: numbered, named, wired.

use crate::position::MapPosition;
use crate::tables::id_map;
use crate::tables::IdMap;
use vstd::prelude::*;

verus! {

/// The number by which an entity is known.
#[derive(Debug, PartialEq, Eq, Clone, Copy, Hash, Ord, PartialOrd, Structural)]
pub struct EntityId(pub u32);

/// The colour of a circuit wire.
#[derive(Debug, PartialEq, Eq, Clone, Copy, Hash, Structural)]
pub enum WireColor {
    Red,
    Green,
}

/// One end of a circuit wire: an entity and one of its two connection points.
#[derive(Debug, PartialEq, Eq, Clone, Copy, Hash, Structural)]
pub struct ConnectionPointId {
    pub entity_id: EntityId,
    /// `false` for the first point, `true` for the second (a combinator's output).
    pub circuit_id: bool,
}

/// A circuit wire as seen from one of its ends.
#[derive(Debug, PartialEq, Eq, Clone, Copy, Hash, Structural)]
pub struct OutgoingConnection {
    pub dest: ConnectionPointId,
    pub color: WireColor,
}

/// The wires that leave one connection point: none at all, or a set of them
/// (which may have become empty).
#[derive(Debug)]
pub struct ConnectionPoint(Option<Vec<OutgoingConnection>>);

impl ConnectionPoint {
    /// No wire is listed twice.
    pub closed spec fn wf(&self) -> bool {
        self.0 is Some ==> self.0->0@.no_duplicates()
    }

    /// The set of wires, or `None` where the point holds no set.
    pub closed spec fn view(&self) -> Option<Set<OutgoingConnection>> {
        match self.0 {
            Some(v) => Some(v@.to_set()),
            None => None,
        }
    }

    /// The wires of the point, as a set: empty where it holds none.
    pub open spec fn wires(&self) -> Set<OutgoingConnection> {
        match self@ {
            Some(s) => s,
            None => Set::empty(),
        }
    }

    /// A connection point without wires.
    pub fn new() -> (r: Self)
        ensures
            r.wf(),
            r@ is None,
    {
        ConnectionPoint(None)
    }

    /// The wires of the point, each once.
    pub fn iter(&self) -> (r: Vec<OutgoingConnection>)
        requires
            self.wf(),
        ensures
            r@.no_duplicates(),
            r@.to_set() == self.wires(),
    {
        match &self.0 {
            Some(v) => {
                let out = v.clone();
                assert(out@ =~= v@);
                out
            },
            None => {
                let out: Vec<OutgoingConnection> = Vec::new();
                assert(out@.to_set() =~= Set::empty());
                out
            },
        }
    }

    /// Whether the point holds a set of wires, be it empty.
    pub fn has_any(&self) -> (r: bool)
        ensures
            r == (self@ is Some),
    {
        self.0.is_some()
    }

    /// Adds a wire; one that is there already stays once.
    pub fn add_connection(&mut self, connection: OutgoingConnection)
        requires
            old(self).wf(),
        ensures
            final(self).wf(),
            final(self)@ == Some(old(self).wires().insert(connection)),
    {
        let mut v: Vec<OutgoingConnection> = match self.0.take() {
            Some(v) => v,
            None => Vec::new(),
        };
        let ghost before = v@;
        assert(before.to_set() =~= old(self).wires());
        let mut found = false;
        let mut i: usize = 0;
        while i < v.len()
            invariant
                v@ == before,
                0 <= i <= v@.len(),
                found <==> exists|j: int| 0 <= j < i && v@[j] == connection,
            decreases v@.len() - i,
        {
            if v[i] == connection {
                found = true;
            }
            i = i + 1;
        }
        if !found {
            v.push(connection);
            assert(v@.to_set() =~= before.to_set().insert(connection)) by {
                assert forall|x: OutgoingConnection|
                    v@.to_set().contains(x) <==> before.to_set().insert(connection).contains(
                        x,
                    ) by {
                    if v@.contains(x) {
                        let k = choose|k: int| 0 <= k < v@.len() && v@[k] == x;
                        if k < before.len() {
                            assert(before[k] == x);
                        }
                    }
                    if before.contains(x) {
                        let k = choose|k: int| 0 <= k < before.len() && before[k] == x;
                        assert(v@[k] == x);
                    }
                    if x == connection {
                        assert(v@[before.len() as int] == x);
                    }
                }
            }
            assert(v@.no_duplicates()) by {
                assert forall|a: int, b: int|
                    0 <= a < v@.len() && 0 <= b < v@.len() && a != b implies v@[a] != v@[b] by {
                    if a < before.len() && b < before.len() {
                        assert(before[a] != before[b]);
                    }
                }
            }
        } else {
            assert(before.to_set().contains(connection));
            assert(before.to_set() =~= before.to_set().insert(connection));
        }
        self.0 = Some(v);
    }

    /// Forgets an empty set of wires.
    pub fn clear_if_empty(&mut self)
        requires
            old(self).wf(),
        ensures
            final(self).wf(),
            final(self)@ == (if old(self)@ == Some(Set::<OutgoingConnection>::empty()) {
                None
            } else {
                old(self)@
            }),
    {
        let empty = match &self.0 {
            Some(v) => v.len() == 0,
            None => false,
        };
        proof {
            if self.0 is Some {
                let v = self.0->0@;
                if v.len() == 0 {
                    assert(v.to_set() =~= Set::empty());
                } else {
                    assert(v.to_set().contains(v[0]));
                }
            }
        }
        if empty {
            self.0 = None;
        }
    }

    /// Removes a wire, and forgets the set if that leaves it empty.
    pub fn remove_connection(&mut self, connection: &OutgoingConnection)
        requires
            old(self).wf(),
        ensures
            final(self).wf(),
            final(self)@ == (match old(self)@ {
                Some(s) => if s.remove(*connection) == Set::<OutgoingConnection>::empty() {
                    None
                } else {
                    Some(s.remove(*connection))
                },
                None => None,
            }),
    {
        match self.0.take() {
            Some(v) => {
                let mut kept: Vec<OutgoingConnection> = Vec::new();
                let mut i: usize = 0;
                while i < v.len()
                    invariant
                        0 <= i <= v@.len(),
                        v@.no_duplicates(),
                        kept@.no_duplicates(),
                        forall|x: OutgoingConnection|
                            kept@.contains(x) <==> (x != *connection && exists|j: int|
                                0 <= j < i && v@[j] == x),
                    decreases v@.len() - i,
                {
                    if v[i] != *connection {
                        let ghost prev = kept@;
                        kept.push(v[i]);
                        proof {
                            assert forall|x: OutgoingConnection|
                                kept@.contains(x) <==> (x != *connection && exists|j: int|
                                    0 <= j < i + 1 && v@[j] == x) by {
                                if kept@.contains(x) {
                                    let k = choose|k: int| 0 <= k < kept@.len() && kept@[k] == x;
                                    if k < prev.len() {
                                        assert(prev[k] == x);
                                        assert(prev.contains(x));
                                    } else {
                                        assert(v@[i as int] == x);
                                    }
                                }
                                if x != *connection && exists|j: int|
                                    0 <= j < i + 1 && v@[j] == x {
                                    let j = choose|j: int| 0 <= j < i + 1 && v@[j] == x;
                                    if j < i {
                                        assert(prev.contains(x));
                                        let k = choose|k: int| 0 <= k < prev.len() && prev[k] == x;
                                        assert(kept@[k] == x);
                                    } else {
                                        assert(kept@[prev.len() as int] == x);
                                    }
                                }
                            }
                            assert forall|a: int, b: int|
                                0 <= a < kept@.len() && 0 <= b < kept@.len() && a
                                    != b implies kept@[a] != kept@[b] by {
                                if a < prev.len() && b < prev.len() {
                                    assert(prev[a] != prev[b]);
                                } else if a < prev.len() {
                                    assert(prev.contains(prev[a]));
                                } else if b < prev.len() {
                                    assert(prev.contains(prev[b]));
                                }
                            }
                        }
                    }
                    i = i + 1;
                }
                proof {
                    assert(kept@.to_set() =~= v@.to_set().remove(*connection)) by {
                        assert forall|x: OutgoingConnection|
                            kept@.to_set().contains(x) <==> v@.to_set().remove(
                                *connection,
                            ).contains(x) by {
                            if v@.contains(x) {
                                let j = choose|j: int| 0 <= j < v@.len() && v@[j] == x;
                                assert(v@[j] == x);
                            }
                        }
                    }
                }
                self.0 = Some(kept);
            },
            None => {},
        }
        self.clear_if_empty();
    }

    /// Forgets every wire.
    pub fn clear(&mut self)
        ensures
            final(self).wf(),
            final(self)@ is None,
    {
        self.0 = None;
    }
}

/// What a blueprint says of an entity, as far as the model reads it: the
/// name of its prototype, its place, and the way it faces.
#[derive(Debug)]
pub struct BlueprintEntityData {
    pub name: String,
    pub position: MapPosition,
    pub direction: Option<u8>,
}

impl BlueprintEntityData {
    pub fn new(name: String, position: MapPosition, direction: Option<u8>) -> (r: Self)
        ensures
            r.name == name,
            r.position == position,
            r.direction == direction,
    {
        BlueprintEntityData { name, position, direction }
    }
}

/// An entity of a blueprint under its number, with the circuit wires at its
/// two connection points and the entities it shares a cable with.
#[derive(Debug)]
pub struct BlueprintEntity {
    pub id: EntityId,
    pub data: BlueprintEntityData,
    pub connections: (ConnectionPoint, ConnectionPoint),
    pub neighbours: Option<Vec<EntityId>>,
}

impl BlueprintEntity {
    /// No cable is listed twice, and no circuit wire.
    pub open spec fn wf(&self) -> bool {
        &&& self.connections.0.wf()
        &&& self.connections.1.wf()
        &&& self.neighbours is Some ==> self.neighbours->0@.no_duplicates()
    }

    /// The entities that this one shares a cable with.
    pub open spec fn cables(&self) -> Set<EntityId> {
        match self.neighbours {
            Some(list) => list@.to_set(),
            None => Set::empty(),
        }
    }

    /// An entity without wires or cables.
    pub fn new(id: EntityId, data: BlueprintEntityData) -> (r: Self)
        ensures
            r.wf(),
            r.id == id,
            r.data == data,
            r.neighbours is None,
            r.connections.0@ is None,
            r.connections.1@ is None,
    {
        BlueprintEntity {
            id,
            data,
            connections: (ConnectionPoint::new(), ConnectionPoint::new()),
            neighbours: None,
        }
    }

    pub fn id(&self) -> (r: EntityId)
        ensures
            r == self.id,
    {
        self.id
    }

    /// The first connection point for `false`, the second for `true`.
    pub fn connection_pt(&self, pt_id: bool) -> (r: &ConnectionPoint)
        ensures
            *r == (if pt_id {
                self.connections.1
            } else {
                self.connections.0
            }),
    {
        if pt_id {
            &self.connections.1
        } else {
            &self.connections.0
        }
    }

    /// Lists a cable to `other`; one that is listed already stays once.
    fn add_neighbour(&mut self, other: EntityId)
        requires
            old(self).wf(),
        ensures
            final(self).wf(),
            final(self).id == old(self).id,
            final(self).data == old(self).data,
            final(self).connections == old(self).connections,
            final(self).neighbours is Some,
            final(self).cables() == old(self).cables().insert(other),
    {
        let mut list: Vec<EntityId> = match self.neighbours.take() {
            Some(l) => l,
            None => Vec::new(),
        };
        let ghost before = list@;
        assert(before.to_set() =~= old(self).cables());
        let mut found = false;
        let mut i: usize = 0;
        while i < list.len()
            invariant
                0 <= i <= list@.len(),
                list@ == before,
                found <==> exists|j: int| 0 <= j < i && list@[j] == other,
            decreases list@.len() - i,
        {
            if list[i] == other {
                found = true;
            }
            i = i + 1;
        }
        if !found {
            list.push(other);
            proof {
                assert(!before.contains(other));
                assert(list@.no_duplicates()) by {
                    assert forall|a: int, b: int|
                        0 <= a < list@.len() && 0 <= b < list@.len() && a != b implies list@[a]
                        != list@[b] by {
                        if a < before.len() && b < before.len() {
                            assert(before[a] != before[b]);
                        } else if a < before.len() {
                            assert(before.contains(before[a]));
                        } else {
                            assert(before.contains(before[b]));
                        }
                    }
                }
                before.lemma_push_to_set_commute(other);
            }
        } else {
            assert(before.to_set().contains(other));
            assert(before.to_set().insert(other) =~= before.to_set());
        }
        self.neighbours = Some(list);
    }
}

/// The entities of a blueprint, by their numbers.
#[derive(Debug)]
pub struct BlueprintEntities {
    entities: Vec<BlueprintEntity>,
    index: IdMap,
}

impl BlueprintEntities {
    /// The entities in the order in which they were added.
    pub closed spec fn list(&self) -> Seq<BlueprintEntity> {
        self.entities@
    }

    /// The place in `list()` of the entity under each id.
    pub closed spec fn places(&self) -> Map<EntityId, u32> {
        id_map(self.index)
    }

    /// Whether an entity stands under `id`.
    pub open spec fn has(&self, id: EntityId) -> bool {
        self.places().contains_key(id)
    }

    /// The entity under `id`.
    pub open spec fn entity(&self, id: EntityId) -> BlueprintEntity {
        self.list()[self.places()[id] as int]
    }

    /// Every entity is well formed and stands at the place that `places()`
    /// gives for its id, and `places()` knows no other id.
    pub open spec fn wf(&self) -> bool {
        &&& self.list().len() <= u32::MAX
        &&& forall|i: int|
            0 <= i < self.list().len() ==> (#[trigger] self.list()[i]).wf() && self.places().contains_key(
                self.list()[i].id,
            ) && self.places()[self.list()[i].id] == i
        &&& forall|id: EntityId| #[trigger]
            self.places().contains_key(id) ==> self.places()[id] < self.list().len()
                && self.list()[self.places()[id] as int].id == id
    }

    /// No entities.
    pub fn new() -> (r: Self)
        ensures
            r.wf(),
            r.list() =~= Seq::empty(),
            forall|id: EntityId| !r.has(id),
    {
        BlueprintEntities { entities: Vec::new(), index: IdMap::new() }
    }

    pub fn len(&self) -> (r: usize)
        ensures
            r == self.list().len(),
    {
        self.entities.len()
    }

    /// The entity at place `i`.
    pub fn at(&self, i: usize) -> (r: &BlueprintEntity)
        requires
            i < self.list().len(),
        ensures
            *r == self.list()[i as int],
    {
        &self.entities[i]
    }

    /// Whether an entity stands under `id`.
    pub fn has_id(&self, id: EntityId) -> (r: bool)
        ensures
            r == self.has(id),
    {
        self.index.get(id).is_some()
    }

    /// The entity under `id`, if there is one.
    pub fn get(&self, id: EntityId) -> (r: Option<&BlueprintEntity>)
        requires
            self.wf(),
        ensures
            r is Some == self.has(id),
            r is Some ==> *r->0 == self.entity(id),
    {
        match self.index.get(id) {
            Some(i) => Some(&self.entities[i as usize]),
            None => None,
        }
    }

    /// Puts `entity` under its id, unless the id is taken or the blueprint
    /// is full; the result tells whether it was put.
    pub fn insert(&mut self, entity: BlueprintEntity) -> (r: bool)
        requires
            old(self).wf(),
            entity.wf(),
        ensures
            final(self).wf(),
            r == (!old(self).has(entity.id) && old(self).list().len() < u32::MAX),
            r ==> final(self).list() == old(self).list().push(entity) && final(self).places()
                == old(self).places().insert(entity.id, old(self).list().len() as u32),
            !r ==> *final(self) == *old(self),
    {
        if self.index.get(entity.id).is_some() || self.entities.len() >= u32::MAX as usize {
            return false;
        }
        let at = self.entities.len() as u32;
        self.index.insert(entity.id, at);
        self.entities.push(entity);
        proof {
            assert forall|i: int| 0 <= i < self.list().len() implies (#[trigger] self.list()[i]).wf()
                && self.places().contains_key(self.list()[i].id) && self.places()[self.list()[i].id]
                == i by {
                if i < old(self).list().len() {
                    assert(old(self).list()[i] == self.list()[i]);
                }
            }
        }
        true
    }

    /// One more than the largest id in use, or one.
    pub open spec fn is_next_id(&self, id: EntityId) -> bool {
        &&& id.0 >= 1
        &&& forall|i: int| 0 <= i < self.list().len() ==> (#[trigger] self.list()[i]).id.0 < id.0
        &&& id.0 == 1 || exists|i: int|
            0 <= i < self.list().len() && (#[trigger] self.list()[i]).id.0 + 1 == id.0
    }

    /// The ids in use in ascending order. When the blueprint is written
    /// out, the entity whose id stands at place `k` gets the number `k + 1`.
    pub fn numbering(&self) -> (r: Vec<EntityId>)
        requires
            self.wf(),
        ensures
            r@.len() == self.list().len(),
            forall|i: int, j: int| 0 <= i < j < r@.len() ==> (#[trigger] r@[i]).0 < (#[trigger] r@[j]).0,
            forall|id: EntityId| r@.contains(id) <==> self.has(id),
    {
        let mut pairs: Vec<(u64, u64)> = Vec::new();
        let mut i: usize = 0;
        while i < self.entities.len()
            invariant
                0 <= i <= self.entities@.len(),
                pairs@.len() == i,
                forall|j: int|
                    0 <= j < i ==> #[trigger] pairs@[j] == (self.entities@[j].id.0 as u64, 0u64),
            decreases self.entities@.len() - i,
        {
            pairs.push((self.entities[i].id.0 as u64, 0));
            i = i + 1;
        }
        proof {
            assert forall|a: int, b: int|
                0 <= a < pairs@.len() && 0 <= b < pairs@.len() && a != b implies pairs@[a]
                != pairs@[b] by {
                assert(self.places()[self.list()[a].id] == a);
                assert(self.places()[self.list()[b].id] == b);
            }
        }
        let sorted = crate::sorting::sorted_pairs(pairs);
        proof {
            crate::sorting::lemma_sorted_distinct(sorted@, pairs@);
        }
        let mut out: Vec<EntityId> = Vec::new();
        let mut k: usize = 0;
        while k < sorted.len()
            invariant
                0 <= k <= sorted@.len(),
                out@.len() == k,
                sorted@.len() == pairs@.len(),
                pairs@.len() == self.entities@.len(),
                forall|x: (u64, u64)| sorted@.contains(x) <==> pairs@.contains(x),
                forall|j: int|
                    0 <= j < pairs@.len() ==> #[trigger] pairs@[j] == (
                        self.entities@[j].id.0 as u64,
                        0u64,
                    ),
                forall|j: int| 0 <= j < k ==> (#[trigger] out@[j]).0 as u64 == sorted@[j].0,
            decreases sorted@.len() - k,
        {
            proof {
                assert(sorted@.contains(sorted@[k as int]));
                assert(pairs@.contains(sorted@[k as int]));
                let j = choose|j: int| 0 <= j < pairs@.len() && pairs@[j] == sorted@[k as int];
                assert(sorted@[k as int].0 == self.entities@[j].id.0);
            }
            out.push(EntityId(sorted[k].0 as u32));
            k = k + 1;
        }
        proof {
            assert forall|i: int, j: int| 0 <= i < j < out@.len() implies (#[trigger] out@[i]).0 < (
            #[trigger] out@[j]).0 by {
                assert(crate::sorting::pair_lt(sorted@[i], sorted@[j]));
                assert(sorted@.contains(sorted@[i]));
                assert(pairs@.contains(sorted@[i]));
                assert(sorted@.contains(sorted@[j]));
                assert(pairs@.contains(sorted@[j]));
                let a = choose|a: int| 0 <= a < pairs@.len() && pairs@[a] == sorted@[i];
                let b = choose|b: int| 0 <= b < pairs@.len() && pairs@[b] == sorted@[j];
                assert(sorted@[i].1 == 0 && sorted@[j].1 == 0);
            }
            assert forall|id: EntityId| out@.contains(id) <==> self.has(id) by {
                let x = (id.0 as u64, 0u64);
                if out@.contains(id) {
                    let j = choose|j: int| 0 <= j < out@.len() && out@[j] == id;
                    assert(sorted@.contains(sorted@[j]));
                    assert(pairs@.contains(sorted@[j]));
                    let a = choose|a: int| 0 <= a < pairs@.len() && pairs@[a] == sorted@[j];
                    assert(self.list()[a].id == id);
                }
                if self.has(id) {
                    let a = self.places()[id] as int;
                    assert(self.list()[a].id == id);
                    assert(pairs@[a] == x);
                    assert(pairs@.contains(x));
                    assert(sorted@.contains(x));
                    let j = choose|j: int| 0 <= j < sorted@.len() && sorted@[j] == x;
                    assert(out@[j].0 as u64 == x.0);
                    assert(out@[j] == id);
                }
            }
        }
        out
    }

    /// Whether no further entity can be added: no place is left, or the
    /// largest id is in use.
    pub open spec fn full(&self) -> bool {
        self.list().len() >= u32::MAX || exists|i: int|
            0 <= i < self.list().len() && (#[trigger] self.list()[i]).id.0 == u32::MAX
    }

    /// Gives the entity under `id` a list of cables, empty unless it has
    /// one already.
    pub fn list_cables(&mut self, id: EntityId)
        requires
            old(self).wf(),
            old(self).has(id),
        ensures
            final(self).wf(),
            final(self).places() == old(self).places(),
            final(self).list().len() == old(self).list().len(),
            final(self).entity(id).neighbours is Some,
            final(self).entity(id).cables() == old(self).entity(id).cables(),
            final(self).entity(id).data == old(self).entity(id).data,
            final(self).entity(id).connections == old(self).entity(id).connections,
            final(self).entity(id).id == id,
            forall|x: EntityId|
                x != id && #[trigger] final(self).has(x) ==> final(self).entity(x) == old(self).entity(x),
    {
        match self.index.get(id) {
            Some(i) => {
                let ghost before = self.list();
                assert(before[i as int].wf());
                if self.entities[i as usize].neighbours.is_none() {
                    self.entities[i as usize].neighbours = Some(Vec::new());
                    proof {
                        assert(self.list()[i as int].cables() =~= before[i as int].cables());
                    }
                }
                proof {
                    assert forall|k: int| 0 <= k < self.list().len() implies (
                    #[trigger] self.list()[k]).wf() && self.places().contains_key(
                        self.list()[k].id,
                    ) && self.places()[self.list()[k].id] == k by {
                        if k != i {
                            assert(self.list()[k] == before[k]);
                        }
                    }
                    assert forall|x: EntityId|
                        x != id && #[trigger] self.has(x) implies self.entity(x) == old(self).entity(x) by {
                        let k = self.places()[x] as int;
                        assert(before[k].id == x);
                    }
                }
            },
            None => {},
        }
    }

    /// Adds an entity under the id that follows the largest in use. Nothing
    /// is added, and the result is `None`, where no id or place is left.
    pub fn add_entity(&mut self, data: BlueprintEntityData) -> (r: Option<EntityId>)
        requires
            old(self).wf(),
        ensures
            final(self).wf(),
            r is None ==> *final(self) == *old(self) && old(self).full(),
            r is Some ==> old(self).is_next_id(r->0) && !old(self).has(r->0) && final(self).list()
                == old(self).list().push(final(self).entity(r->0)) && final(self).places() == old(self).places().insert(r->0, old(self).list().len() as u32) && final(self).entity(r->0).data
                == data && final(self).entity(r->0).id == r->0 && final(self).entity(
                r->0,
            ).neighbours is None,
            r is Some ==> final(self).entity(r->0).connections.0@ is None && final(self).entity(
                r->0,
            ).connections.1@ is None,
    {
        let mut largest: u32 = 0;
        let mut i: usize = 0;
        while i < self.entities.len()
            invariant
                0 <= i <= self.entities@.len(),
                forall|j: int| 0 <= j < i ==> (#[trigger] self.entities@[j]).id.0 <= largest,
                largest == 0 || exists|j: int|
                    0 <= j < i && (#[trigger] self.entities@[j]).id.0 == largest,
            decreases self.entities@.len() - i,
        {
            if self.entities[i].id.0 > largest {
                largest = self.entities[i].id.0;
            }
            i = i + 1;
        }
        if largest == u32::MAX {
            proof {
                let j = choose|j: int|
                    0 <= j < self.entities@.len() && (#[trigger] self.entities@[j]).id.0 == largest;
                assert(self.list()[j].id.0 == u32::MAX);
            }
            return None;
        }
        let id = EntityId(largest + 1);
        proof {
            if self.has(id) {
                assert(self.list()[self.places()[id] as int].id == id);
            }
            if largest > 0 {
                let j = choose|j: int|
                    0 <= j < self.entities@.len() && (#[trigger] self.entities@[j]).id.0 == largest;
                assert(self.list()[j].id.0 + 1 == id.0);
            }
        }
        let entity = BlueprintEntity::new(id, data);
        if self.insert(entity) {
            Some(id)
        } else {
            None
        }
    }

    /// Lists a cable between two different entities at both of them. The
    /// result is `false`, and nothing changes, where the ids are the same or
    /// one is not in use.
    pub fn add_cable_connection(&mut self, entity1: EntityId, entity2: EntityId) -> (r: bool)
        requires
            old(self).wf(),
        ensures
            final(self).wf(),
            r == (entity1 != entity2 && old(self).has(entity1) && old(self).has(entity2)),
            !r ==> *final(self) == *old(self),
            final(self).places() == old(self).places(),
            final(self).list().len() == old(self).list().len(),
            forall|id: EntityId| #[trigger]
                final(self).has(id) ==> final(self).entity(id).id == id && final(self).entity(id).data
                    == old(self).entity(id).data && final(self).entity(id).connections == old(self).entity(id).connections,
            r ==> final(self).entity(entity1).cables() == old(self).entity(entity1).cables().insert(
                entity2,
            ) && final(self).entity(entity2).cables() == old(self).entity(entity2).cables().insert(
                entity1,
            ),
            forall|id: EntityId|
                id != entity1 && id != entity2 && #[trigger] final(self).has(id) ==> final(self).entity(id) == old(self).entity(id),
    {
        if entity1 == entity2 {
            return false;
        }
        match (self.index.get(entity1), self.index.get(entity2)) {
            (Some(i1), Some(i2)) => {
                assert(i1 != i2);
                self.entities[i1 as usize].add_neighbour(entity2);
                self.entities[i2 as usize].add_neighbour(entity1);
                proof {
                    assert forall|i: int| 0 <= i < self.list().len() implies (
                    #[trigger] self.list()[i]).wf() && self.places().contains_key(
                        self.list()[i].id,
                    ) && self.places()[self.list()[i].id] == i by {
                        if i != i1 && i != i2 {
                            assert(self.list()[i] == old(self).list()[i]);
                        }
                        assert(self.list()[i].id == old(self).list()[i].id);
                    }
                    assert forall|id: EntityId| #[trigger]
                        self.has(id) implies self.entity(id).id == id && self.entity(id).data
                        == old(self).entity(id).data && self.entity(id).connections == old(self).entity(id).connections by {
                        let i = self.places()[id] as int;
                        if i != i1 && i != i2 {
                            assert(self.list()[i] == old(self).list()[i]);
                        }
                    }
                    assert forall|id: EntityId|
                        id != entity1 && id != entity2 && #[trigger] self.has(id) implies self.entity(
                        id,
                    ) == old(self).entity(id) by {
                        let i = self.places()[id] as int;
                        assert(old(self).list()[i].id == id);
                        assert(i != i1 && i != i2);
                    }
                }
                true
            },
            _ => false,
        }
    }

    /// Lists a circuit wire of colour `color` between two different
    /// connection points at both of them. The result is `false`, and
    /// nothing changes, where the points are the same or an entity is
    /// missing.
    pub fn add_wire_connection(
        &mut self,
        p1: ConnectionPointId,
        p2: ConnectionPointId,
        color: WireColor,
    ) -> (r: bool)
        requires
            old(self).wf(),
        ensures
            final(self).wf(),
            r == (p1 != p2 && old(self).has(p1.entity_id) && old(self).has(p2.entity_id)),
            !r ==> *final(self) == *old(self),
            final(self).places() == old(self).places(),
            final(self).list().len() == old(self).list().len(),
            r ==> spec_point(final(self).entity(p1.entity_id), p1.circuit_id).wires().contains(
                OutgoingConnection { dest: p2, color },
            ) && spec_point(final(self).entity(p2.entity_id), p2.circuit_id).wires().contains(
                OutgoingConnection { dest: p1, color },
            ),
            forall|id: EntityId| #[trigger]
                final(self).has(id) ==> final(self).entity(id).id == id && final(self).entity(id).data
                    == old(self).entity(id).data && final(self).entity(id).neighbours == old(
                    self,
                ).entity(id).neighbours,
            forall|id: EntityId|
                id != p1.entity_id && id != p2.entity_id && #[trigger] final(self).has(id)
                    ==> final(self).entity(id) == old(self).entity(id),
            forall|id: EntityId, second: bool, wire: OutgoingConnection|
                old(self).has(id) && #[trigger] spec_point(
                    old(self).entity(id),
                    second,
                ).wires().contains(wire) ==> spec_point(
                    final(self).entity(id),
                    second,
                ).wires().contains(wire),
    {
        if p1 == p2 {
            return false;
        }
        match (self.index.get(p1.entity_id), self.index.get(p2.entity_id)) {
            (Some(i1), Some(i2)) => {
                let ghost before = self.list();
                Self::wire(
                    &mut self.entities,
                    i1 as usize,
                    p1.circuit_id,
                    OutgoingConnection { dest: p2, color },
                );
                let ghost between = self.list();
                Self::wire(
                    &mut self.entities,
                    i2 as usize,
                    p2.circuit_id,
                    OutgoingConnection { dest: p1, color },
                );
                proof {
                    assert forall|i: int| 0 <= i < self.list().len() implies (
                    #[trigger] self.list()[i]).wf() && self.places().contains_key(
                        self.list()[i].id,
                    ) && self.places()[self.list()[i].id] == i by {
                        assert(between[i].id == before[i].id);
                        assert(self.list()[i].id == between[i].id);
                    }
                    assert forall|id: EntityId| #[trigger] self.has(id) implies self.entity(id).id
                        == id && self.entity(id).data == old(self).entity(id).data && self.entity(
                        id,
                    ).neighbours == old(self).entity(id).neighbours by {
                        let i = self.places()[id] as int;
                        assert(between[i].id == before[i].id);
                        assert(self.list()[i].id == between[i].id);
                    }
                    assert forall|id: EntityId|
                        id != p1.entity_id && id != p2.entity_id && #[trigger] self.has(
                            id,
                        ) implies self.entity(id) == old(self).entity(id) by {
                        let i = self.places()[id] as int;
                        assert(before[i].id == id);
                        assert(i != i1 && i != i2);
                        assert(between[i] == before[i]);
                        assert(self.list()[i] == between[i]);
                    }
                    assert forall|id: EntityId, second: bool, wire: OutgoingConnection|
                        old(self).has(id) && #[trigger] spec_point(
                            old(self).entity(id),
                            second,
                        ).wires().contains(wire) implies spec_point(
                        self.entity(id),
                        second,
                    ).wires().contains(wire) by {
                        let i = self.places()[id] as int;
                        if i != i1 {
                            assert(between[i] == before[i]);
                        }
                        assert(spec_point(between[i], second).wires().contains(wire));
                        if i != i2 {
                            assert(self.list()[i] == between[i]);
                        }
                    }
                }
                true
            },
            _ => false,
        }
    }

    /// Removes every entity for which `f` answers `false`; the others stay
    /// as they are, in their order. Cables and wires that lead to an entity
    /// that was removed stay listed at their other end.
    #[verifier::loop_isolation(false)]
    pub fn retain<F: Fn(&BlueprintEntity) -> bool>(&mut self, f: F)
        requires
            old(self).wf(),
            forall|e: &BlueprintEntity| #[trigger] f.requires((e,)),
        ensures
            final(self).wf(),
            forall|id: EntityId| #[trigger]
                final(self).has(id) ==> old(self).has(id) && final(self).entity(id) == old(self).entity(id)
                    && f.ensures((&old(self).entity(id),), true),
            forall|id: EntityId|
                old(self).has(id) && !(#[trigger] final(self).has(id)) ==> f.ensures(
                    (&old(self).entity(id),),
                    false,
                ),
            forall|a: EntityId, b: EntityId|
                final(self).has(a) && final(self).has(b) ==> (#[trigger] final(self).places()[a]
                    < #[trigger] final(self).places()[b] <==> old(self).places()[a] < old(self).places()[b]),
    {
        let ghost start = self.list();
        let ghost n = start.len() as int;
        assert(n <= u32::MAX);
        let mut rest: Vec<BlueprintEntity> = Vec::new();
        loop
            invariant
                n <= u32::MAX,
                start == old(self).list(),
                self.entities@.len() + rest@.len() == n,
                forall|j: int| 0 <= j < self.entities@.len() ==> self.entities@[j] == start[j],
                forall|j: int| 0 <= j < rest@.len() ==> rest@[j] == start[n - 1 - j],
            decreases self.entities@.len(),
        {
            match self.entities.pop() {
                Some(e) => {
                    rest.push(e);
                },
                None => {
                    break ;
                },
            }
        }
        self.index.clear();
        let ghost mut src: Seq<int> = Seq::empty();
        loop
            invariant
                n <= u32::MAX,
                start == old(self).list(),
                0 <= rest@.len() <= n,
                forall|j: int| 0 <= j < rest@.len() ==> rest@[j] == start[n - 1 - j],
                self.entities@.len() == src.len(),
                src.len() <= n - rest@.len(),
                forall|t: int|
                    0 <= t < src.len() ==> 0 <= #[trigger] src[t] < n - rest@.len()
                        && self.entities@[t] == start[src[t]] && f.ensures((&start[src[t]],), true)
                        && id_map(self.index).contains_key(start[src[t]].id) && id_map(
                        self.index,
                    )[start[src[t]].id] == t,
                forall|s: int, t: int|
                    0 <= s < t < src.len() ==> #[trigger] src[s] < #[trigger] src[t],
                forall|j: int|
                    0 <= j < n - rest@.len() ==> f.ensures((&#[trigger] start[j],), false) || exists|
                        t: int,
                    |
                        0 <= t < src.len() && #[trigger] src[t] == j,
                forall|id: EntityId|
                    id_map(self.index).contains_key(id) ==> exists|t: int|
                        0 <= t < src.len() && (#[trigger] start[src[t]]).id == id,
            decreases rest@.len(),
        {
            let ghost before = src;
            let ghost known = id_map(self.index);
            let ghost j = n - rest@.len();
            match rest.pop() {
                Some(e) => {
                    assert(e == start[j]);
                    assert(old(self).places()[start[j].id] == j);
                    if f(&e) {
                        let at = self.entities.len() as u32;
                        self.index.insert(e.id, at);
                        self.entities.push(e);
                        proof {
                            src = src.push(j);
                            assert(src[src.len() - 1] == j);
                        }
                    }
                    proof {
                        assert forall|t: int| 0 <= t < src.len() implies 0 <= #[trigger] src[t] < j
                            + 1 && self.entities@[t] == start[src[t]] && f.ensures(
                            (&start[src[t]],),
                            true,
                        ) && id_map(self.index).contains_key(start[src[t]].id) && id_map(
                            self.index,
                        )[start[src[t]].id] == t by {
                            if t < before.len() {
                                assert(src[t] == before[t]);
                                assert(self.entities@[t] == start[before[t]]);
                                assert(old(self).list()[before[t]].id == start[before[t]].id);
                                assert(old(self).places()[start[before[t]].id] == before[t]);
                                assert(old(self).list()[j].id == start[j].id);
                                assert(old(self).places()[start[j].id] == j);
                                assert(start[before[t]].id != start[j].id);
                                assert(known.contains_key(start[before[t]].id));
                                assert(known[start[before[t]].id] == t);
                            } else {
                                assert(src[t] == j);
                                assert(self.entities@[t] == start[j]);
                            }
                        }
                        assert forall|s: int, t: int| 0 <= s < t < src.len() implies #[trigger] src[s]
                            < #[trigger] src[t] by {
                            if t < before.len() {
                                assert(src[s] == before[s] && src[t] == before[t]);
                            } else {
                                assert(src[s] == before[s]);
                            }
                        }
                        assert forall|i: int| 0 <= i < j + 1 implies f.ensures(
                            (&#[trigger] start[i],),
                            false,
                        ) || exists|t: int| 0 <= t < src.len() && #[trigger] src[t] == i by {
                            if i < j {
                                if !f.ensures((&start[i],), false) {
                                    let t = choose|t: int|
                                        0 <= t < before.len() && #[trigger] before[t] == i;
                                    assert(src[t] == i);
                                }
                            } else if src.len() > before.len() {
                                assert(src[src.len() - 1] == i);
                            }
                        }
                        assert forall|id: EntityId|
                            id_map(self.index).contains_key(id) implies exists|t: int|
                            0 <= t < src.len() && (#[trigger] start[src[t]]).id == id by {
                            if known.contains_key(id) {
                                let t = choose|t: int|
                                    0 <= t < before.len() && (#[trigger] start[before[t]]).id == id;
                                assert(src[t] == before[t]);
                                assert(start[src[t]].id == id);
                            } else {
                                assert(start[src[src.len() - 1]].id == id);
                            }
                        }
                    }
                },
                None => {
                    break ;
                },
            }
        }
        proof {
            assert forall|i: int| 0 <= i < self.list().len() implies (#[trigger] self.list()[i]).wf()
                && self.places().contains_key(self.list()[i].id) && self.places()[self.list()[i].id]
                == i by {
                assert(self.list()[i] == start[src[i]]);
            }
            assert forall|id: EntityId| #[trigger] self.places().contains_key(id) implies self.places()[id]
                < self.list().len() && self.list()[self.places()[id] as int].id == id by {
                let t = choose|t: int| 0 <= t < src.len() && (#[trigger] start[src[t]]).id == id;
                assert(self.places()[start[src[t]].id] == t);
            }
            assert forall|id: EntityId| #[trigger] self.has(id) implies old(self).has(id)
                && self.entity(id) == old(self).entity(id) && f.ensures(
                (&old(self).entity(id),),
                true,
            ) by {
                let t = choose|t: int| 0 <= t < src.len() && (#[trigger] start[src[t]]).id == id;
                assert(self.places()[start[src[t]].id] == t);
                assert(old(self).places()[start[src[t]].id] == src[t]);
            }
            assert forall|id: EntityId| old(self).has(id) && !(#[trigger] self.has(id)) implies f.ensures(
                (&old(self).entity(id),),
                false,
            ) by {
                let i = old(self).places()[id] as int;
                assert(start[i].id == id);
                if !f.ensures((&start[i],), false) {
                    let t = choose|t: int| 0 <= t < src.len() && #[trigger] src[t] == i;
                    assert(id_map(self.index).contains_key(start[src[t]].id));
                }
            }
            assert forall|a: EntityId, b: EntityId| self.has(a) && self.has(b) implies (
            #[trigger] self.places()[a] < #[trigger] self.places()[b] <==> old(self).places()[a] < old(
                self,
            ).places()[b]) by {
                let s = choose|s: int| 0 <= s < src.len() && (#[trigger] start[src[s]]).id == a;
                let t = choose|t: int| 0 <= t < src.len() && (#[trigger] start[src[t]]).id == b;
                assert(self.places()[start[src[s]].id] == s);
                assert(self.places()[start[src[t]].id] == t);
                assert(old(self).places()[start[src[s]].id] == src[s]);
                assert(old(self).places()[start[src[t]].id] == src[t]);
                if s < t {
                    assert(src[s] < src[t]);
                }
                if t < s {
                    assert(src[t] < src[s]);
                }
            }
        }
    }

    /// Adds `wire` at connection point `second` of the entity at place `at`,
    /// at this end only.
    pub(crate) fn add_outgoing(&mut self, at: usize, second: bool, wire: OutgoingConnection)
        requires
            old(self).wf(),
            at < old(self).list().len(),
        ensures
            final(self).wf(),
            final(self).places() == old(self).places(),
            final(self).list().len() == old(self).list().len(),
            forall|i: int|
                0 <= i < final(self).list().len() && i != at ==> #[trigger] final(self).list()[i]
                    == old(self).list()[i],
            final(self).list()[at as int].id == old(self).list()[at as int].id,
            final(self).list()[at as int].data == old(self).list()[at as int].data,
            final(self).list()[at as int].neighbours == old(self).list()[at as int].neighbours,
            spec_point(final(self).list()[at as int], second)@ == Some(
                spec_point(old(self).list()[at as int], second).wires().insert(wire),
            ),
            spec_point(final(self).list()[at as int], !second) == spec_point(
                old(self).list()[at as int],
                !second,
            ),
    {
        Self::wire(&mut self.entities, at, second, wire);
        proof {
            assert forall|i: int| 0 <= i < self.list().len() implies (#[trigger] self.list()[i]).wf()
                && self.places().contains_key(self.list()[i].id) && self.places()[self.list()[i].id]
                == i by {
                assert(self.list()[i].id == old(self).list()[i].id);
            }
            assert forall|id: EntityId| #[trigger] self.places().contains_key(id) implies self.places()[id]
                < self.list().len() && self.list()[self.places()[id] as int].id == id by {
                let i = self.places()[id] as int;
                assert(self.list()[i].id == old(self).list()[i].id);
            }
        }
    }

    /// Adds `wire` at connection point `second` of the entity at place `at`.
    fn wire(entities: &mut Vec<BlueprintEntity>, at: usize, second: bool, wire: OutgoingConnection)
        requires
            at < old(entities)@.len(),
            forall|i: int| 0 <= i < old(entities)@.len() ==> (#[trigger] old(entities)@[i]).wf(),
        ensures
            final(entities)@.len() == old(entities)@.len(),
            forall|i: int| 0 <= i < final(entities)@.len() ==> (#[trigger] final(entities)@[i]).wf(),
            forall|i: int|
                0 <= i < final(entities)@.len() ==> (#[trigger] final(entities)@[i]).id == old(entities)@[i].id,
            forall|i: int|
                0 <= i < final(entities)@.len() && i != at ==> #[trigger] final(entities)@[i] == old(entities)@[i],
            spec_point(final(entities)@[at as int], second)@ == Some(
                spec_point(old(entities)@[at as int], second).wires().insert(wire),
            ),
            spec_point(final(entities)@[at as int], !second) == spec_point(
                old(entities)@[at as int],
                !second,
            ),
            final(entities)@[at as int].data == old(entities)@[at as int].data,
            final(entities)@[at as int].neighbours == old(entities)@[at as int].neighbours,
    {
        assert(old(entities)@[at as int].wf());
        if second {
            entities[at].connections.1.add_connection(wire);
        } else {
            entities[at].connections.0.add_connection(wire);
        }
    }
}

/// The first connection point of `entity` for `false`, the second for
/// `true`.
pub open spec fn spec_point(entity: BlueprintEntity, second: bool) -> ConnectionPoint {
    if second {
        entity.connections.1
    } else {
        entity.connections.0
    }
}

} // verus!
