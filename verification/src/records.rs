//! Entities as a blueprint file lists them, and the way between such a list
//! and the entities of a blueprint.

use crate::better_bp::spec_point;
use crate::better_bp::BlueprintEntities;
use crate::better_bp::BlueprintEntity;
use crate::better_bp::BlueprintEntityData;
use crate::better_bp::ConnectionPointId;
use crate::better_bp::EntityId;
use crate::better_bp::OutgoingConnection;
use crate::better_bp::WireColor;
use crate::position::MapPosition;
use crate::sorting::lemma_sorted_distinct;
use crate::sorting::pair_lt;
use crate::sorting::sorted_pairs;
use crate::tables::id_map;
use crate::tables::IdMap;
use vstd::prelude::*;

verus! {

/// One end of a circuit wire as a blueprint file lists it at the other end:
/// the number of the entity, and the connection point there, which is the
/// second for a 2 and the first otherwise.
#[derive(Debug, Clone, Copy)]
pub struct ConnectionRecord {
    pub entity_number: u32,
    pub circuit_id: Option<i32>,
}

/// The circuit wires at one connection point, by colour.
#[derive(Debug)]
pub struct PointRecord {
    pub red: Option<Vec<ConnectionRecord>>,
    pub green: Option<Vec<ConnectionRecord>>,
}

/// An entity as a blueprint file lists it, as far as the library reads it.
#[derive(Debug)]
pub struct EntityRecord {
    pub entity_number: u32,
    pub name: String,
    pub position: MapPosition,
    pub direction: Option<u8>,
    /// The numbers of the entities that it shares a cable with.
    pub neighbours: Option<Vec<u32>>,
    /// The circuit wires at its first connection point.
    pub first: Option<PointRecord>,
    /// The circuit wires at its second connection point.
    pub second: Option<PointRecord>,
}

/// The wire of colour `color` that `c` stands for.
pub open spec fn spec_wire(c: ConnectionRecord, color: WireColor) -> OutgoingConnection {
    OutgoingConnection {
        dest: ConnectionPointId {
            entity_id: EntityId(c.entity_number),
            circuit_id: c.circuit_id == Some(2i32),
        },
        color,
    }
}

/// The records of `list`, none where there is no list.
pub open spec fn seq_of(list: Option<Vec<ConnectionRecord>>) -> Seq<ConnectionRecord> {
    match list {
        Some(v) => v@,
        None => Seq::empty(),
    }
}

/// Whether one of the first `n` records of `v` stands for the wire `w` of
/// colour `color`.
pub open spec fn listed_wire(
    v: Seq<ConnectionRecord>,
    n: int,
    color: WireColor,
    w: OutgoingConnection,
) -> bool {
    exists|k: int| 0 <= k < n && k < v.len() && spec_wire(#[trigger] v[k], color) == w
}

/// The wires that `point` lists.
pub open spec fn point_wires(point: Option<PointRecord>) -> Set<OutgoingConnection> {
    match point {
        None => Set::empty(),
        Some(p) => Set::new(
            |w: OutgoingConnection|
                listed_wire(seq_of(p.red), seq_of(p.red).len() as int, WireColor::Red, w)
                    || listed_wire(
                    seq_of(p.green),
                    seq_of(p.green).len() as int,
                    WireColor::Green,
                    w,
                ),
        ),
    }
}

/// What a connection point holds once the wires `wires` were added to it:
/// no set where there are none.
pub open spec fn point_of(wires: Set<OutgoingConnection>) -> Option<Set<OutgoingConnection>> {
    if exists|w: OutgoingConnection| wires.contains(w) {
        Some(wires)
    } else {
        None
    }
}

/// Whether `after` is `before` but for connection point `second` of the
/// entity at place `at`.
pub open spec fn same_but_point(
    before: &BlueprintEntities,
    after: &BlueprintEntities,
    at: int,
    second: bool,
) -> bool {
    &&& after.places() == before.places()
    &&& after.list().len() == before.list().len()
    &&& forall|i: int|
        0 <= i < after.list().len() && i != at ==> #[trigger] after.list()[i] == before.list()[i]
    &&& after.list()[at].id == before.list()[at].id
    &&& after.list()[at].data == before.list()[at].data
    &&& after.list()[at].neighbours == before.list()[at].neighbours
    &&& spec_point(after.list()[at], !second) == spec_point(before.list()[at], !second)
}

/// The wire of colour `color` that `c` stands for.
fn wire_of(c: &ConnectionRecord, color: WireColor) -> (r: OutgoingConnection)
    ensures
        r == spec_wire(*c, color),
{
    let second = match c.circuit_id {
        Some(n) => n == 2,
        None => false,
    };
    OutgoingConnection {
        dest: ConnectionPointId { entity_id: EntityId(c.entity_number), circuit_id: second },
        color,
    }
}

/// Adds the wires of `list`, in colour `color`, at connection point `second`
/// of the entity at place `at`.
fn import_list(
    entities: &mut BlueprintEntities,
    at: usize,
    second: bool,
    list: &Option<Vec<ConnectionRecord>>,
    color: WireColor,
)
    requires
        old(entities).wf(),
        at < old(entities).list().len(),
    ensures
        final(entities).wf(),
        same_but_point(old(entities), final(entities), at as int, second),
        forall|w: OutgoingConnection|
            #[trigger] spec_point(final(entities).list()[at as int], second).wires().contains(w) <==> (
            spec_point(old(entities).list()[at as int], second).wires().contains(w) || listed_wire(
                seq_of(*list),
                seq_of(*list).len() as int,
                color,
                w,
            )),
        spec_point(final(entities).list()[at as int], second)@ is Some <==> (spec_point(
            old(entities).list()[at as int],
            second,
        )@ is Some || seq_of(*list).len() > 0),
{
    match list {
        Some(v) => {
            let mut k: usize = 0;
            while k < v.len()
                invariant
                    0 <= k <= v@.len(),
                    entities.wf(),
                    at < old(entities).list().len(),
                    same_but_point(old(entities), entities, at as int, second),
                    forall|w: OutgoingConnection|
                        #[trigger] spec_point(entities.list()[at as int], second).wires().contains(w)
                            <==> (spec_point(old(entities).list()[at as int], second).wires().contains(
                            w,
                        ) || listed_wire(v@, k as int, color, w)),
                    spec_point(entities.list()[at as int], second)@ is Some <==> (spec_point(
                        old(entities).list()[at as int],
                        second,
                    )@ is Some || k > 0),
                decreases v@.len() - k,
            {
                let wire = wire_of(&v[k], color);
                let ghost before = *entities;
                entities.add_outgoing(at, second, wire);
                proof {
                    assert forall|w: OutgoingConnection|
                        #[trigger] spec_point(entities.list()[at as int], second).wires().contains(w)
                            <==> (spec_point(old(entities).list()[at as int], second).wires().contains(
                            w,
                        ) || listed_wire(v@, k + 1, color, w)) by {
                        if listed_wire(v@, k as int, color, w) {
                            let q = choose|q: int|
                                0 <= q < k && q < v@.len() && spec_wire(#[trigger] v@[q], color) == w;
                            assert(0 <= q < k + 1 && spec_wire(v@[q], color) == w);
                        }
                        if listed_wire(v@, k + 1, color, w) {
                            let q = choose|q: int|
                                0 <= q < k + 1 && q < v@.len() && spec_wire(#[trigger] v@[q], color)
                                    == w;
                            if q < k {
                                assert(listed_wire(v@, k as int, color, w));
                            }
                        }
                        if w == wire {
                            assert(spec_wire(v@[k as int], color) == w);
                        }
                        assert(spec_point(entities.list()[at as int], second).wires()
                            == spec_point(before.list()[at as int], second).wires().insert(wire));
                    }
                }
                k = k + 1;
            }
        },
        None => {},
    }
}

/// Adds the wires that `point` lists at connection point `second` of the
/// entity at place `at`.
fn import_point(
    entities: &mut BlueprintEntities,
    at: usize,
    second: bool,
    point: &Option<PointRecord>,
)
    requires
        old(entities).wf(),
        at < old(entities).list().len(),
        spec_point(old(entities).list()[at as int], second)@ is None,
    ensures
        final(entities).wf(),
        same_but_point(old(entities), final(entities), at as int, second),
        spec_point(final(entities).list()[at as int], second)@ == point_of(point_wires(*point)),
{
    match point {
        Some(p) => {
            import_list(entities, at, second, &p.red, WireColor::Red);
            let ghost between = *entities;
            import_list(entities, at, second, &p.green, WireColor::Green);
            proof {
                let got = spec_point(entities.list()[at as int], second);
                let red = seq_of(p.red);
                let green = seq_of(p.green);
                assert(spec_point(between.list()[at as int], !second) == spec_point(
                    old(entities).list()[at as int],
                    !second,
                ));
                assert forall|w: OutgoingConnection|
                    got.wires().contains(w) <==> point_wires(*point).contains(w) by {
                    assert(spec_point(between.list()[at as int], second).wires().contains(w)
                        <==> listed_wire(red, red.len() as int, WireColor::Red, w));
                }
                assert(got.wires() =~= point_wires(*point));
                if red.len() > 0 {
                    let w = spec_wire(red[0], WireColor::Red);
                    assert(listed_wire(red, red.len() as int, WireColor::Red, w));
                    assert(point_wires(*point).contains(w));
                }
                if green.len() > 0 {
                    let w = spec_wire(green[0], WireColor::Green);
                    assert(listed_wire(green, green.len() as int, WireColor::Green, w));
                    assert(point_wires(*point).contains(w));
                }
            }
        },
        None => {
            proof {
                assert(point_wires(*point) =~= Set::empty());
            }
        },
    }
}

/// Whether record `r` of `records` is numbered `a` and lists `b` at place
/// `q` of its cables.
pub open spec fn names_cable(records: Seq<EntityRecord>, r: int, q: int, a: u32, b: u32) -> bool {
    &&& 0 <= r < records.len()
    &&& records[r].entity_number == a
    &&& records[r].neighbours is Some
    &&& 0 <= q < records[r].neighbours->0@.len()
    &&& records[r].neighbours->0@[q] == b
}

/// Whether place `q` of record `r` comes before place `k` of record `i`.
pub open spec fn comes_before(r: int, q: int, i: int, k: int) -> bool {
    r < i || (r == i && q < k)
}

/// Whether a record numbered `a` lists a cable to `b` before place `k` of
/// record `i`.
pub open spec fn cable_listed_upto(
    records: Seq<EntityRecord>,
    i: int,
    k: int,
    a: u32,
    b: u32,
) -> bool {
    exists|r: int, q: int| #[trigger] names_cable(records, r, q, a, b) && comes_before(r, q, i, k)
}

/// Whether a record numbered `a` lists a cable to `b`.
pub open spec fn cable_listed(records: Seq<EntityRecord>, a: u32, b: u32) -> bool {
    exists|r: int, q: int| #[trigger] names_cable(records, r, q, a, b)
}

/// Whether a record is numbered `a`.
pub open spec fn has_number(records: Seq<EntityRecord>, a: u32) -> bool {
    exists|r: int| 0 <= r < records.len() && (#[trigger] records[r]).entity_number == a
}

/// Whether no two records have the same number.
pub open spec fn distinct_numbers(records: Seq<EntityRecord>) -> bool {
    forall|i: int, j: int|
        0 <= i < j < records.len() ==> (#[trigger] records[i]).entity_number != (
        #[trigger] records[j]).entity_number
}

/// Whether the records before place `k` of record `i` give a cable between
/// the entities numbered `a` and `b`: the two are different, both are
/// there, and one lists the other.
pub open spec fn spec_cable_upto(
    records: Seq<EntityRecord>,
    i: int,
    k: int,
    a: u32,
    b: u32,
) -> bool {
    &&& a != b
    &&& has_number(records, a)
    &&& has_number(records, b)
    &&& cable_listed_upto(records, i, k, a, b) || cable_listed_upto(records, i, k, b, a)
}

/// Whether the records give a cable between the entities numbered `a` and
/// `b`: the two are different, both are there, and one lists the other.
pub open spec fn spec_cable(records: Seq<EntityRecord>, a: u32, b: u32) -> bool {
    &&& a != b
    &&& has_number(records, a)
    &&& has_number(records, b)
    &&& cable_listed(records, a, b) || cable_listed(records, b, a)
}

/// The cables listed before the next place are those listed before this
/// one and the one listed here.
proof fn lemma_cable_step(records: Seq<EntityRecord>, i: int, k: int, a: u32, b: u32)
    requires
        0 <= i < records.len(),
        records[i].neighbours is Some,
        0 <= k < records[i].neighbours->0@.len(),
    ensures
        cable_listed_upto(records, i, k + 1, a, b) <==> cable_listed_upto(records, i, k, a, b) || (a
            == records[i].entity_number && b == records[i].neighbours->0@[k]),
{
    if cable_listed_upto(records, i, k + 1, a, b) {
        let (r, q) = choose|r: int, q: int| #[trigger]
            names_cable(records, r, q, a, b) && comes_before(r, q, i, k + 1);
        if r == i && q == k {
        } else {
            assert(names_cable(records, r, q, a, b) && comes_before(r, q, i, k));
        }
    }
    if cable_listed_upto(records, i, k, a, b) {
        let (r, q) = choose|r: int, q: int| #[trigger]
            names_cable(records, r, q, a, b) && comes_before(r, q, i, k);
        assert(names_cable(records, r, q, a, b) && comes_before(r, q, i, k + 1));
    }
    if a == records[i].entity_number && b == records[i].neighbours->0@[k] {
        assert(names_cable(records, i, k, a, b) && comes_before(i, k, i, k + 1));
    }
}

/// Past the last cable of a record stands the first of the next.
proof fn lemma_cable_next(records: Seq<EntityRecord>, i: int, k: int, a: u32, b: u32)
    requires
        0 <= i < records.len(),
        records[i].neighbours is Some ==> k == records[i].neighbours->0@.len(),
    ensures
        cable_listed_upto(records, i, k, a, b) <==> cable_listed_upto(records, i + 1, 0, a, b),
{
    if cable_listed_upto(records, i, k, a, b) {
        let (r, q) = choose|r: int, q: int| #[trigger]
            names_cable(records, r, q, a, b) && comes_before(r, q, i, k);
        assert(names_cable(records, r, q, a, b) && comes_before(r, q, i + 1, 0));
    }
    if cable_listed_upto(records, i + 1, 0, a, b) {
        let (r, q) = choose|r: int, q: int| #[trigger]
            names_cable(records, r, q, a, b) && comes_before(r, q, i + 1, 0);
        assert(names_cable(records, r, q, a, b) && comes_before(r, q, i, k));
    }
}

/// Before the first record nothing is listed, and before the end
/// everything.
proof fn lemma_cable_ends(records: Seq<EntityRecord>, a: u32, b: u32)
    ensures
        !cable_listed_upto(records, 0, 0, a, b),
        cable_listed_upto(records, records.len() as int, 0, a, b) <==> cable_listed(records, a, b),
{
    if cable_listed(records, a, b) {
        let (r, q) = choose|r: int, q: int| #[trigger] names_cable(records, r, q, a, b);
        assert(names_cable(records, r, q, a, b) && comes_before(r, q, records.len() as int, 0));
    }
}

/// Whether the entities of `entities` stand in the order of `records`,
/// each under the number of its record.
pub open spec fn numbered_as(entities: &BlueprintEntities, records: Seq<EntityRecord>) -> bool {
    &&& entities.list().len() == records.len()
    &&& forall|j: int|
        0 <= j < records.len() ==> (#[trigger] entities.list()[j]).id == EntityId(
            records[j].entity_number,
        )
}

/// An id is in use exactly if a record has its number.
proof fn lemma_numbers(entities: &BlueprintEntities, records: Seq<EntityRecord>)
    requires
        entities.wf(),
        numbered_as(entities, records),
    ensures
        forall|x: u32| #[trigger] has_number(records, x) <==> entities.has(EntityId(x)),
{
    assert forall|x: u32| #[trigger] has_number(records, x) <==> entities.has(EntityId(x)) by {
        if has_number(records, x) {
            let r = choose|r: int| 0 <= r < records.len() && (#[trigger] records[r]).entity_number == x;
            assert(entities.list()[r].id == EntityId(x));
        }
        if entities.has(EntityId(x)) {
            let r = entities.places()[EntityId(x)] as int;
            assert(entities.list()[r].id == EntityId(x));
            assert(records[r].entity_number == x);
        }
    }
}

/// Lists the cables of `records` at both of their ends.
#[verifier::loop_isolation(false)]
fn import_cables(entities: &mut BlueprintEntities, records: &Vec<EntityRecord>)
    requires
        old(entities).wf(),
        numbered_as(old(entities), records@),
        forall|j: int|
            0 <= j < records@.len() ==> (#[trigger] old(entities).list()[j]).neighbours is None,
    ensures
        final(entities).wf(),
        final(entities).places() == old(entities).places(),
        numbered_as(final(entities), records@),
        forall|j: int|
            0 <= j < records@.len() ==> (#[trigger] final(entities).list()[j]).data == old(
                entities,
            ).list()[j].data && final(entities).list()[j].connections == old(entities).list()[j].connections,
        forall|j: int, n: EntityId|
            0 <= j < records@.len() ==> (#[trigger] final(entities).list()[j].cables().contains(n)
                <==> spec_cable(records@, records@[j].entity_number, n.0)),
        forall|j: int|
            0 <= j < records@.len() && (#[trigger] final(entities).list()[j]).neighbours is Some
                ==> exists|n: EntityId| final(entities).list()[j].cables().contains(n),
{
    let ghost start = *entities;
    proof {
        lemma_numbers(entities, records@);
        assert forall|j: int, n: EntityId| 0 <= j < records@.len() implies (
        #[trigger] entities.list()[j].cables().contains(n) <==> spec_cable_upto(
            records@,
            0,
            0,
            records@[j].entity_number,
            n.0,
        )) by {
            lemma_cable_ends(records@, records@[j].entity_number, n.0);
            lemma_cable_ends(records@, n.0, records@[j].entity_number);
            assert(entities.list()[j].neighbours is None);
        }
    }
    let mut i: usize = 0;
    while i < records.len()
        invariant
            0 <= i <= records@.len(),
            entities.wf(),
            entities.places() == start.places(),
            numbered_as(entities, records@),
            forall|j: int|
                0 <= j < records@.len() ==> (#[trigger] entities.list()[j]).data
                    == start.list()[j].data && entities.list()[j].connections
                    == start.list()[j].connections,
            forall|j: int, n: EntityId|
                0 <= j < records@.len() ==> (#[trigger] entities.list()[j].cables().contains(n)
                    <==> spec_cable_upto(records@, i as int, 0, records@[j].entity_number, n.0)),
            forall|j: int|
                0 <= j < records@.len() && (#[trigger] entities.list()[j]).neighbours is Some
                    ==> exists|n: EntityId| entities.list()[j].cables().contains(n),
        decreases records@.len() - i,
    {
        let own = records[i].entity_number;
        let ghost mut count: int = 0;
        match &records[i].neighbours {
            Some(others) => {
                let mut k: usize = 0;
                while k < others.len()
                    invariant
                        0 <= k <= others@.len(),
                        0 <= i < records@.len(),
                        records@[i as int].neighbours == Some(*others),
                        own == records@[i as int].entity_number,
                        entities.wf(),
                        entities.places() == start.places(),
                        numbered_as(entities, records@),
                        forall|j: int|
                            0 <= j < records@.len() ==> (#[trigger] entities.list()[j]).data
                                == start.list()[j].data && entities.list()[j].connections
                                == start.list()[j].connections,
                        forall|j: int, n: EntityId|
                            0 <= j < records@.len() ==> (
                            #[trigger] entities.list()[j].cables().contains(n) <==> spec_cable_upto(
                                records@,
                                i as int,
                                k as int,
                                records@[j].entity_number,
                                n.0,
                            )),
                        forall|j: int|
                            0 <= j < records@.len() && (
                            #[trigger] entities.list()[j]).neighbours is Some ==> exists|n: EntityId|
                                entities.list()[j].cables().contains(n),
                    decreases others@.len() - k,
                {
                    let other = others[k];
                    let ghost before = *entities;
                    let joined = entities.add_cable_connection(EntityId(own), EntityId(other));
                    proof {
                        lemma_numbers(&before, records@);
                        assert(has_number(records@, own)) by {
                            assert(records@[i as int].entity_number == own);
                        }
                        assert(before.has(EntityId(own)));
                        assert(joined == (own != other && has_number(records@, other)));
                        assert forall|j: int| 0 <= j < records@.len() implies (
                        #[trigger] entities.list()[j]).id == before.list()[j].id
                            && entities.list()[j].data == before.list()[j].data
                            && entities.list()[j].connections == before.list()[j].connections && (
                        joined && j == i ==> entities.list()[j].cables()
                            == before.list()[j].cables().insert(EntityId(other))) && (joined
                            && records@[j].entity_number == other ==> entities.list()[j].cables()
                            == before.list()[j].cables().insert(EntityId(own))) && (!(joined && (j
                            == i || records@[j].entity_number == other)) ==> entities.list()[j]
                            == before.list()[j]) by {
                            let id = before.list()[j].id;
                            assert(before.has(id) && before.places()[id] == j);
                            assert(entities.has(id));
                            assert(entities.entity(id) == entities.list()[j]);
                            assert(before.entity(id) == before.list()[j]);
                            if j != i {
                                assert(before.list()[i as int].id == EntityId(own));
                                assert(before.places()[EntityId(own)] == i);
                                assert(id != EntityId(own));
                            }
                        }
                        assert forall|j: int, n: EntityId| 0 <= j < records@.len() implies (
                        #[trigger] entities.list()[j].cables().contains(n) <==> spec_cable_upto(
                            records@,
                            i as int,
                            k + 1,
                            records@[j].entity_number,
                            n.0,
                        )) by {
                            let a = records@[j].entity_number;
                            lemma_cable_step(records@, i as int, k as int, a, n.0);
                            lemma_cable_step(records@, i as int, k as int, n.0, a);
                            assert(entities.list()[j].id == before.list()[j].id);
                            assert(before.list()[j].cables().contains(n) <==> spec_cable_upto(
                                records@,
                                i as int,
                                k as int,
                                a,
                                n.0,
                            ));
                            assert(has_number(records@, a));
                            if j != i {
                                assert(before.list()[i as int].id == EntityId(own));
                                assert(before.places()[EntityId(own)] == i);
                                assert(before.places()[before.list()[j].id] == j);
                                assert(a != own);
                            }
                        }
                        assert forall|j: int|
                            0 <= j < records@.len() && (
                            #[trigger] entities.list()[j]).neighbours is Some implies exists|
                            n: EntityId,
                        |
                            entities.list()[j].cables().contains(n) by {
                            assert(entities.list()[j].id == before.list()[j].id);
                            if joined && j == i {
                                assert(entities.list()[j].cables().contains(EntityId(other)));
                            } else if joined && records@[j].entity_number == other {
                                assert(entities.list()[j].cables().contains(EntityId(own)));
                            } else {
                                assert(entities.list()[j] == before.list()[j]);
                                let n = choose|n: EntityId| before.list()[j].cables().contains(n);
                                assert(entities.list()[j].cables().contains(n));
                            }
                        }
                    }
                    k = k + 1;
                }
                proof {
                    count = others@.len() as int;
                }
            },
            None => {},
        }
        proof {
            assert forall|j: int, n: EntityId| 0 <= j < records@.len() implies (
            #[trigger] entities.list()[j].cables().contains(n) <==> spec_cable_upto(
                records@,
                i + 1,
                0,
                records@[j].entity_number,
                n.0,
            )) by {
                lemma_cable_next(records@, i as int, count, records@[j].entity_number, n.0);
                lemma_cable_next(records@, i as int, count, n.0, records@[j].entity_number);
            }
        }
        i = i + 1;
    }
    proof {
        assert forall|j: int, n: EntityId| 0 <= j < records@.len() implies (
        #[trigger] entities.list()[j].cables().contains(n) <==> spec_cable(
            records@,
            records@[j].entity_number,
            n.0,
        )) by {
            lemma_cable_ends(records@, records@[j].entity_number, n.0);
            lemma_cable_ends(records@, n.0, records@[j].entity_number);
        }
    }
}

/// Whether `entities` holds what `records` list: the entities in the order
/// of the records, each under its number with its name, place and
/// direction; at its connection points the wires that its record lists
/// there; and a cable to every other entity that its record lists or whose
/// record lists it.
pub open spec fn imports(entities: &BlueprintEntities, records: Seq<EntityRecord>) -> bool {
    &&& entities.wf()
    &&& numbered_as(entities, records)
    &&& forall|j: int|
        0 <= j < records.len() ==> {
            let e = #[trigger] entities.list()[j];
            &&& e.data.name@ == records[j].name@
            &&& e.data.position == records[j].position
            &&& e.data.direction == records[j].direction
            &&& e.connections.0@ == point_of(point_wires(records[j].first))
            &&& e.connections.1@ == point_of(point_wires(records[j].second))
            &&& e.neighbours is Some ==> exists|n: EntityId| e.cables().contains(n)
        }
    &&& forall|j: int, n: EntityId|
        0 <= j < records.len() ==> (#[trigger] entities.list()[j].cables().contains(n)
            <==> spec_cable(records, records[j].entity_number, n.0))
}

/// Adds the circuit wires of `records`, each at the end where it is listed.
#[verifier::loop_isolation(false)]
fn import_wires(entities: &mut BlueprintEntities, records: &Vec<EntityRecord>)
    requires
        old(entities).wf(),
        numbered_as(old(entities), records@),
        forall|j: int|
            0 <= j < records@.len() ==> (#[trigger] old(entities).list()[j]).connections.0@ is None
                && old(entities).list()[j].connections.1@ is None,
    ensures
        final(entities).wf(),
        final(entities).places() == old(entities).places(),
        numbered_as(final(entities), records@),
        forall|j: int|
            0 <= j < records@.len() ==> (#[trigger] final(entities).list()[j]).data == old(
                entities,
            ).list()[j].data && final(entities).list()[j].neighbours == old(entities).list()[j].neighbours
                && final(entities).list()[j].connections.0@ == point_of(
                point_wires(records@[j].first),
            ) && final(entities).list()[j].connections.1@ == point_of(
                point_wires(records@[j].second),
            ),
{
    let mut i: usize = 0;
    while i < records.len()
        invariant
            0 <= i <= records@.len(),
            entities.wf(),
            entities.places() == old(entities).places(),
            numbered_as(entities, records@),
            forall|j: int|
                0 <= j < records@.len() ==> (#[trigger] entities.list()[j]).data == old(
                    entities,
                ).list()[j].data && entities.list()[j].neighbours == old(entities).list()[j].neighbours,
            forall|j: int|
                0 <= j < i ==> (#[trigger] entities.list()[j]).connections.0@ == point_of(
                    point_wires(records@[j].first),
                ) && entities.list()[j].connections.1@ == point_of(point_wires(records@[j].second)),
            forall|j: int|
                i <= j < records@.len() ==> (#[trigger] entities.list()[j]).connections.0@ is None
                    && entities.list()[j].connections.1@ is None,
        decreases records@.len() - i,
    {
        let ghost before = *entities;
        assert(before.list()[i as int].connections.0@ is None);
        import_point(entities, i, false, &records[i].first);
        let ghost between = *entities;
        assert(spec_point(between.list()[i as int], true) == spec_point(before.list()[i as int], true));
        import_point(entities, i, true, &records[i].second);
        proof {
            assert(spec_point(entities.list()[i as int], false) == spec_point(
                between.list()[i as int],
                false,
            ));
            assert forall|j: int| 0 <= j < records@.len() implies (#[trigger] entities.list()[j]).id
                == before.list()[j].id && entities.list()[j].data == before.list()[j].data
                && entities.list()[j].neighbours == before.list()[j].neighbours by {
                if j != i {
                    assert(between.list()[j] == before.list()[j]);
                    assert(entities.list()[j] == between.list()[j]);
                }
            }
            assert forall|j: int| 0 <= j < i + 1 implies (
            #[trigger] entities.list()[j]).connections.0@ == point_of(
                point_wires(records@[j].first),
            ) && entities.list()[j].connections.1@ == point_of(point_wires(records@[j].second)) by {
                if j != i {
                    assert(between.list()[j] == before.list()[j]);
                    assert(entities.list()[j] == between.list()[j]);
                }
            }
            assert forall|j: int| i + 1 <= j < records@.len() implies (
            #[trigger] entities.list()[j]).connections.0@ is None
                && entities.list()[j].connections.1@ is None by {
                assert(between.list()[j] == before.list()[j]);
                assert(entities.list()[j] == between.list()[j]);
            }
        }
        i = i + 1;
    }
}

impl BlueprintEntities {
    /// The entities that `records` list, or `None` where two records have
    /// the same number or there are more records than numbers.
    #[verifier::loop_isolation(false)]
    pub fn from_blueprint(records: &Vec<EntityRecord>) -> (r: Option<BlueprintEntities>)
        ensures
            r is Some <==> distinct_numbers(records@) && records@.len() <= u32::MAX,
            r is Some ==> {
                let entities = r->0;
                imports(&entities, records@)
            },
    {
        let mut entities = BlueprintEntities::new();
        let mut i: usize = 0;
        while i < records.len()
            invariant
                0 <= i <= records@.len(),
                entities.wf(),
                entities.list().len() == i,
                forall|j: int|
                    0 <= j < i ==> {
                        let e = #[trigger] entities.list()[j];
                        &&& e.id == EntityId(records@[j].entity_number)
                        &&& e.data.name@ == records@[j].name@
                        &&& e.data.position == records@[j].position
                        &&& e.data.direction == records@[j].direction
                        &&& e.neighbours is None
                        &&& e.connections.0@ is None
                        &&& e.connections.1@ is None
                    },
                forall|p: int, q: int|
                    0 <= p < q < i ==> (#[trigger] records@[p]).entity_number != (
                    #[trigger] records@[q]).entity_number,
            decreases records@.len() - i,
        {
            let record = &records[i];
            let id = EntityId(record.entity_number);
            let data = BlueprintEntityData::new(
                record.name.clone(),
                record.position,
                record.direction,
            );
            let ghost before = entities;
            if !entities.insert(BlueprintEntity::new(id, data)) {
                proof {
                    if before.has(id) {
                        let p = before.places()[id] as int;
                        assert(before.list()[p].id == id);
                        assert(records@[p].entity_number == records@[i as int].entity_number);
                    }
                }
                return None;
            }
            proof {
                assert forall|p: int, q: int| 0 <= p < q < i + 1 implies (
                #[trigger] records@[p]).entity_number != (#[trigger] records@[q]).entity_number by {
                    if q == i {
                        assert(before.list()[p].id == EntityId(records@[p].entity_number));
                        assert(before.has(before.list()[p].id));
                    }
                }
                assert forall|j: int| 0 <= j < i + 1 implies {
                    let e = #[trigger] entities.list()[j];
                    &&& e.id == EntityId(records@[j].entity_number)
                    &&& e.data.name@ == records@[j].name@
                    &&& e.data.position == records@[j].position
                    &&& e.data.direction == records@[j].direction
                    &&& e.neighbours is None
                    &&& e.connections.0@ is None
                    &&& e.connections.1@ is None
                } by {
                    if j < i {
                        assert(entities.list()[j] == before.list()[j]);
                    }
                }
            }
            i = i + 1;
        }
        let ghost placed = entities;
        import_cables(&mut entities, records);
        let ghost cabled = entities;
        import_wires(&mut entities, records);
        proof {
            assert forall|j: int| 0 <= j < records@.len() implies {
                let e = #[trigger] entities.list()[j];
                &&& e.data.name@ == records@[j].name@
                &&& e.data.position == records@[j].position
                &&& e.data.direction == records@[j].direction
                &&& e.connections.0@ == point_of(point_wires(records@[j].first))
                &&& e.connections.1@ == point_of(point_wires(records@[j].second))
                &&& e.neighbours is Some ==> exists|n: EntityId| e.cables().contains(n)
            } by {
                let e = entities.list()[j];
                assert(e.data == cabled.list()[j].data);
                assert(cabled.list()[j].data == placed.list()[j].data);
                assert(e.neighbours == cabled.list()[j].neighbours);
                if e.neighbours is Some {
                    let n = choose|n: EntityId| cabled.list()[j].cables().contains(n);
                    assert(e.cables().contains(n));
                }
            }
            assert forall|j: int, n: EntityId| 0 <= j < records@.len() implies (
            #[trigger] entities.list()[j].cables().contains(n) <==> spec_cable(
                records@,
                records@[j].entity_number,
                n.0,
            )) by {
                assert(entities.list()[j].neighbours == cabled.list()[j].neighbours);
                assert(entities.list()[j].cables() == cabled.list()[j].cables());
                assert(cabled.list()[j].cables().contains(n) <==> spec_cable(
                    records@,
                    records@[j].entity_number,
                    n.0,
                ));
            }
        }
        Some(entities)
    }
}

/// Whether `nums` gives no number to two ids.
pub open spec fn one_to_one(nums: Map<EntityId, u32>) -> bool {
    forall|a: EntityId, b: EntityId|
        nums.contains_key(a) && nums.contains_key(b) && a != b ==> #[trigger] nums[a]
            != #[trigger] nums[b]
}

/// By what the records of a list are put in order: the number, and then the
/// first connection point before the second.
pub open spec fn record_key(c: ConnectionRecord) -> (u64, u64) {
    (
        c.entity_number as u64,
        if c.circuit_id is Some {
            1u64
        } else {
            0u64
        },
    )
}

/// Whether every record of `v` comes before those that stand later.
pub open spec fn in_order(v: Seq<ConnectionRecord>) -> bool {
    forall|i: int, j: int|
        0 <= i < j < v.len() ==> pair_lt(record_key(#[trigger] v[i]), record_key(#[trigger] v[j]))
}

/// The wire of colour `color` to connection point `second` of entity `n`.
pub open spec fn wire_to(n: EntityId, second: bool, color: WireColor) -> OutgoingConnection {
    OutgoingConnection { dest: ConnectionPointId { entity_id: n, circuit_id: second }, color }
}

/// Whether `wires` holds a wire of colour `color` to connection point
/// `second` of an entity to which `nums` gives the number `m`.
pub open spec fn exported_wire(
    nums: Map<EntityId, u32>,
    wires: Set<OutgoingConnection>,
    color: WireColor,
    m: u32,
    second: bool,
) -> bool {
    exists|n: EntityId| #[trigger]
        nums.contains_key(n) && nums[n] == m && wires.contains(wire_to(n, second, color))
}

/// Whether `v` lists connection point `second` of the entity numbered `m`.
pub open spec fn lists_record(v: Seq<ConnectionRecord>, m: u32, second: bool) -> bool {
    exists|i: int|
        0 <= i < v.len() && (#[trigger] v[i]).entity_number == m && (v[i].circuit_id is Some)
            == second
}

/// Whether `out` lists the wires of colour `color` among `wires` that lead
/// to an entity with a number: each once, under the number that `nums`
/// gives, in order, the second connection point marked by a 2; and no list
/// where there is no such wire.
pub open spec fn exports_list(
    nums: Map<EntityId, u32>,
    wires: Set<OutgoingConnection>,
    color: WireColor,
    out: Option<Vec<ConnectionRecord>>,
) -> bool {
    match out {
        None => forall|m: u32, second: bool| !#[trigger] exported_wire(nums, wires, color, m, second),
        Some(v) => {
            &&& v@.len() > 0
            &&& forall|i: int|
                0 <= i < v@.len() ==> (#[trigger] v@[i]).circuit_id is None || v@[i].circuit_id
                    == Some(2i32)
            &&& in_order(v@)
            &&& forall|m: u32, second: bool|
                #![trigger exported_wire(nums, wires, color, m, second)]
                lists_record(v@, m, second) <==> exported_wire(nums, wires, color, m, second)
        },
    }
}

/// One for the second connection point, nought for the first.
pub open spec fn flag(second: bool) -> u64 {
    if second {
        1
    } else {
        0
    }
}

/// The wires of colour `color` among `wires` as a blueprint file lists
/// them, under the numbers that `numbers` gives.
#[verifier::loop_isolation(false)]
fn export_list(numbers: &IdMap, wires: &Vec<OutgoingConnection>, color: WireColor) -> (r: Option<
    Vec<ConnectionRecord>,
>)
    requires
        wires@.no_duplicates(),
        one_to_one(id_map(*numbers)),
    ensures
        exports_list(id_map(*numbers), wires@.to_set(), color, r),
{
    let ghost nums = id_map(*numbers);
    let mut pairs: Vec<(u64, u64)> = Vec::new();
    let ghost mut src: Seq<int> = Seq::empty();
    let mut k: usize = 0;
    while k < wires.len()
        invariant
            0 <= k <= wires@.len(),
            pairs@.len() == src.len(),
            forall|t: int|
                0 <= t < src.len() ==> {
                    let w = wires@[#[trigger] src[t]];
                    &&& 0 <= src[t] < k
                    &&& w.color == color
                    &&& nums.contains_key(w.dest.entity_id)
                    &&& pairs@[t] == (nums[w.dest.entity_id] as u64, flag(w.dest.circuit_id))
                },
            forall|s: int, t: int|
                0 <= s < t < src.len() ==> #[trigger] src[s] < #[trigger] src[t],
            forall|j: int|
                0 <= j < k && (#[trigger] wires@[j]).color == color && nums.contains_key(
                    wires@[j].dest.entity_id,
                ) ==> exists|t: int| 0 <= t < src.len() && #[trigger] src[t] == j,
        decreases wires@.len() - k,
    {
        let w = wires[k];
        let ghost before = src;
        if w.color == color {
            match numbers.get(w.dest.entity_id) {
                Some(m) => {
                    let second: u64 = if w.dest.circuit_id {
                        1
                    } else {
                        0
                    };
                    pairs.push((m as u64, second));
                    proof {
                        src = src.push(k as int);
                        assert(src[src.len() - 1] == k);
                    }
                },
                None => {},
            }
        }
        proof {
            assert forall|t: int| 0 <= t < src.len() implies {
                let w = wires@[#[trigger] src[t]];
                &&& 0 <= src[t] < k + 1
                &&& w.color == color
                &&& nums.contains_key(w.dest.entity_id)
                &&& pairs@[t] == (nums[w.dest.entity_id] as u64, flag(w.dest.circuit_id))
            } by {
                if t < before.len() {
                    assert(src[t] == before[t]);
                }
            }
            assert forall|s: int, t: int| 0 <= s < t < src.len() implies #[trigger] src[s]
                < #[trigger] src[t] by {
                if t < before.len() {
                    assert(src[s] == before[s] && src[t] == before[t]);
                } else {
                    assert(src[s] == before[s]);
                    assert(before[s] < k);
                }
            }
            assert forall|j: int|
                0 <= j < k + 1 && (#[trigger] wires@[j]).color == color && nums.contains_key(
                    wires@[j].dest.entity_id,
                ) implies exists|t: int| 0 <= t < src.len() && #[trigger] src[t] == j by {
                if j < k {
                    let t = choose|t: int| 0 <= t < before.len() && #[trigger] before[t] == j;
                    assert(src[t] == j);
                } else {
                    assert(src[src.len() - 1] == j);
                }
            }
        }
        k = k + 1;
    }
    let ghost all = wires@.to_set();
    proof {
        assert forall|x: (u64, u64)| #[trigger]
            pairs@.contains(x) <==> (exists|m: u32, second: bool|
                x == (m as u64, flag(second)) && #[trigger] exported_wire(
                    nums,
                    all,
                    color,
                    m,
                    second,
                )) by {
            if pairs@.contains(x) {
                let t = choose|t: int| 0 <= t < pairs@.len() && pairs@[t] == x;
                let w = wires@[src[t]];
                assert(all.contains(w));
                assert(w == wire_to(w.dest.entity_id, w.dest.circuit_id, color));
                assert(exported_wire(nums, all, color, nums[w.dest.entity_id], w.dest.circuit_id));
            }
            if exists|m: u32, second: bool|
                x == (m as u64, flag(second)) && #[trigger] exported_wire(
                    nums,
                    all,
                    color,
                    m,
                    second,
                ) {
                let (m, second) = choose|m: u32, second: bool|
                    x == (m as u64, flag(second)) && #[trigger] exported_wire(
                        nums,
                        all,
                        color,
                        m,
                        second,
                    );
                let n = choose|n: EntityId| #[trigger]
                    nums.contains_key(n) && nums[n] == m && all.contains(wire_to(n, second, color));
                let w = wire_to(n, second, color);
                let j = choose|j: int| 0 <= j < wires@.len() && wires@[j] == w;
                assert(wires@[j].color == color);
                let t = choose|t: int| 0 <= t < src.len() && #[trigger] src[t] == j;
                assert(pairs@[t] == x);
            }
        }
        assert(pairs@.no_duplicates()) by {
            assert forall|s: int, t: int|
                0 <= s < pairs@.len() && 0 <= t < pairs@.len() && s != t implies pairs@[s]
                != pairs@[t] by {
                let ws = wires@[src[s]];
                let wt = wires@[src[t]];
                if pairs@[s] == pairs@[t] {
                    assert(nums[ws.dest.entity_id] == nums[wt.dest.entity_id]);
                    assert(ws.dest.entity_id == wt.dest.entity_id);
                    assert(ws.dest.circuit_id == wt.dest.circuit_id);
                    assert(ws == wt);
                    assert(src[s] == src[t]);
                    if s < t {
                        assert(src[s] < src[t]);
                    } else {
                        assert(src[t] < src[s]);
                    }
                }
            }
        }
    }
    if pairs.len() == 0 {
        proof {
            assert forall|m: u32, second: bool| !#[trigger] exported_wire(
                nums,
                all,
                color,
                m,
                second,
            ) by {
                if exported_wire(nums, all, color, m, second) {
                    assert(pairs@.contains((m as u64, flag(second))));
                }
            }
        }
        return None;
    }
    let ghost unsorted = pairs@;
    let sorted = sorted_pairs(pairs);
    proof {
        lemma_sorted_distinct(sorted@, unsorted);
    }
    let mut out: Vec<ConnectionRecord> = Vec::new();
    let mut t: usize = 0;
    while t < sorted.len()
        invariant
            0 <= t <= sorted@.len(),
            out@.len() == t,
            forall|i: int|
                0 <= i < t ==> record_key(#[trigger] out@[i]) == sorted@[i] && (out@[i].circuit_id is None
                    || out@[i].circuit_id == Some(2i32)),
        decreases sorted@.len() - t,
    {
        let pair = sorted[t];
        proof {
            assert(sorted@.contains(sorted@[t as int]));
            assert(unsorted.contains(pair));
        }
        let circuit_id: Option<i32> = if pair.1 == 1 {
            Some(2)
        } else {
            None
        };
        out.push(ConnectionRecord { entity_number: pair.0 as u32, circuit_id });
        t = t + 1;
    }
    proof {
        assert(in_order(out@)) by {
            assert forall|i: int, j: int| 0 <= i < j < out@.len() implies pair_lt(
                record_key(#[trigger] out@[i]),
                record_key(#[trigger] out@[j]),
            ) by {
                assert(pair_lt(sorted@[i], sorted@[j]));
            }
        }
        assert forall|m: u32, second: bool|
            #![trigger exported_wire(nums, all, color, m, second)]
            lists_record(out@, m, second) <==> exported_wire(nums, all, color, m, second) by {
            let x = (m as u64, flag(second));
            if lists_record(out@, m, second) {
                let i = choose|i: int|
                    0 <= i < out@.len() && (#[trigger] out@[i]).entity_number == m && (
                    out@[i].circuit_id is Some) == second;
                assert(record_key(out@[i]) == x);
                assert(sorted@.contains(sorted@[i]));
                assert(unsorted.contains(x));
                let (m2, second2) = choose|m2: u32, second2: bool|
                    x == (m2 as u64, flag(second2)) && #[trigger] exported_wire(
                        nums,
                        all,
                        color,
                        m2,
                        second2,
                    );
                assert(m2 == m && second2 == second);
            }
            if exported_wire(nums, all, color, m, second) {
                assert(unsorted.contains(x));
                assert(sorted@.contains(x));
                let i = choose|i: int| 0 <= i < sorted@.len() && sorted@[i] == x;
                assert(record_key(out@[i]) == x);
            }
        }
    }
    Some(out)
}

/// Whether `cables` holds an entity to which `nums` gives the number `m`.
pub open spec fn exported_cable(nums: Map<EntityId, u32>, cables: Set<EntityId>, m: u32) -> bool {
    exists|n: EntityId| #[trigger] nums.contains_key(n) && nums[n] == m && cables.contains(n)
}

/// Whether `out` lists the cables of `entity` that lead to an entity with a
/// number: each once, under the number that `nums` gives, in ascending
/// order; and no list where the entity keeps none.
pub open spec fn exports_cables(
    nums: Map<EntityId, u32>,
    entity: BlueprintEntity,
    out: Option<Vec<u32>>,
) -> bool {
    match entity.neighbours {
        None => out is None,
        Some(_) => {
            &&& out is Some
            &&& forall|i: int, j: int|
                0 <= i < j < out->0@.len() ==> #[trigger] out->0@[i] < #[trigger] out->0@[j]
            &&& forall|m: u32|
                #![trigger exported_cable(nums, entity.cables(), m)]
                out->0@.contains(m) <==> exported_cable(nums, entity.cables(), m)
        },
    }
}

/// Whether `out` lists the wires among `wires` that lead to an entity with
/// a number, by colour; and nothing where there is no such wire.
pub open spec fn exports_point(
    nums: Map<EntityId, u32>,
    wires: Set<OutgoingConnection>,
    out: Option<PointRecord>,
) -> bool {
    match out {
        None => exports_list(nums, wires, WireColor::Red, None) && exports_list(
            nums,
            wires,
            WireColor::Green,
            None,
        ),
        Some(p) => {
            &&& exports_list(nums, wires, WireColor::Red, p.red)
            &&& exports_list(nums, wires, WireColor::Green, p.green)
            &&& p.red is Some || p.green is Some
        },
    }
}

/// The cables of `list` as a blueprint file lists them, under the numbers
/// that `numbers` gives.
#[verifier::loop_isolation(false)]
fn export_cables(numbers: &IdMap, list: &Vec<EntityId>) -> (r: Vec<u32>)
    requires
        list@.no_duplicates(),
        one_to_one(id_map(*numbers)),
    ensures
        forall|i: int, j: int| 0 <= i < j < r@.len() ==> #[trigger] r@[i] < #[trigger] r@[j],
        forall|m: u32|
            #![trigger exported_cable(id_map(*numbers), list@.to_set(), m)]
            r@.contains(m) <==> exported_cable(id_map(*numbers), list@.to_set(), m),
{
    let ghost nums = id_map(*numbers);
    let ghost all = list@.to_set();
    let mut pairs: Vec<(u64, u64)> = Vec::new();
    let ghost mut src: Seq<int> = Seq::empty();
    let mut k: usize = 0;
    while k < list.len()
        invariant
            0 <= k <= list@.len(),
            pairs@.len() == src.len(),
            forall|t: int|
                0 <= t < src.len() ==> {
                    let n = list@[#[trigger] src[t]];
                    &&& 0 <= src[t] < k
                    &&& nums.contains_key(n)
                    &&& pairs@[t] == (nums[n] as u64, 0u64)
                },
            forall|s: int, t: int|
                0 <= s < t < src.len() ==> #[trigger] src[s] < #[trigger] src[t],
            forall|j: int|
                0 <= j < k && nums.contains_key(#[trigger] list@[j]) ==> exists|t: int|
                    0 <= t < src.len() && #[trigger] src[t] == j,
        decreases list@.len() - k,
    {
        let ghost before = src;
        match numbers.get(list[k]) {
            Some(m) => {
                pairs.push((m as u64, 0));
                proof {
                    src = src.push(k as int);
                    assert(src[src.len() - 1] == k);
                }
            },
            None => {},
        }
        proof {
            assert forall|t: int| 0 <= t < src.len() implies {
                let n = list@[#[trigger] src[t]];
                &&& 0 <= src[t] < k + 1
                &&& nums.contains_key(n)
                &&& pairs@[t] == (nums[n] as u64, 0u64)
            } by {
                if t < before.len() {
                    assert(src[t] == before[t]);
                }
            }
            assert forall|s: int, t: int| 0 <= s < t < src.len() implies #[trigger] src[s]
                < #[trigger] src[t] by {
                if t < before.len() {
                    assert(src[s] == before[s] && src[t] == before[t]);
                } else {
                    assert(src[s] == before[s]);
                    assert(before[s] < k);
                }
            }
            assert forall|j: int|
                0 <= j < k + 1 && nums.contains_key(#[trigger] list@[j]) implies exists|t: int|
                0 <= t < src.len() && #[trigger] src[t] == j by {
                if j < k {
                    let t = choose|t: int| 0 <= t < before.len() && #[trigger] before[t] == j;
                    assert(src[t] == j);
                } else {
                    assert(src[src.len() - 1] == j);
                }
            }
        }
        k = k + 1;
    }
    proof {
        assert forall|m: u32|
            #![trigger exported_cable(nums, all, m)]
            pairs@.contains((m as u64, 0u64)) <==> exported_cable(nums, all, m) by {
            let x = (m as u64, 0u64);
            if pairs@.contains(x) {
                let t = choose|t: int| 0 <= t < pairs@.len() && pairs@[t] == x;
                let n = list@[src[t]];
                assert(all.contains(n));
                assert(nums.contains_key(n) && nums[n] == m && all.contains(n));
            }
            if exported_cable(nums, all, m) {
                let n = choose|n: EntityId| #[trigger]
                    nums.contains_key(n) && nums[n] == m && all.contains(n);
                let j = choose|j: int| 0 <= j < list@.len() && list@[j] == n;
                assert(nums.contains_key(list@[j]));
                let t = choose|t: int| 0 <= t < src.len() && #[trigger] src[t] == j;
                assert(pairs@[t] == x);
            }
        }
        assert(pairs@.no_duplicates()) by {
            assert forall|s: int, t: int|
                0 <= s < pairs@.len() && 0 <= t < pairs@.len() && s != t implies pairs@[s]
                != pairs@[t] by {
                let a = list@[src[s]];
                let b = list@[src[t]];
                if pairs@[s] == pairs@[t] {
                    assert(nums[a] == nums[b]);
                    assert(a == b);
                    assert(src[s] == src[t]);
                    if s < t {
                        assert(src[s] < src[t]);
                    } else {
                        assert(src[t] < src[s]);
                    }
                }
            }
        }
    }
    let ghost unsorted = pairs@;
    let sorted = sorted_pairs(pairs);
    proof {
        lemma_sorted_distinct(sorted@, unsorted);
    }
    let mut out: Vec<u32> = Vec::new();
    let mut t: usize = 0;
    while t < sorted.len()
        invariant
            0 <= t <= sorted@.len(),
            out@.len() == t,
            forall|i: int| 0 <= i < t ==> (#[trigger] out@[i] as u64, 0u64) == sorted@[i],
        decreases sorted@.len() - t,
    {
        let pair = sorted[t];
        proof {
            assert(sorted@.contains(sorted@[t as int]));
            assert(unsorted.contains(pair));
            let q = choose|q: int| 0 <= q < unsorted.len() && unsorted[q] == pair;
            assert(pair == (nums[list@[src[q]]] as u64, 0u64));
        }
        out.push(pair.0 as u32);
        t = t + 1;
    }
    proof {
        assert forall|i: int, j: int| 0 <= i < j < out@.len() implies #[trigger] out@[i]
            < #[trigger] out@[j] by {
            assert(pair_lt(sorted@[i], sorted@[j]));
        }
        assert forall|m: u32|
            #![trigger exported_cable(nums, all, m)]
            out@.contains(m) <==> exported_cable(nums, all, m) by {
            let x = (m as u64, 0u64);
            if out@.contains(m) {
                let i = choose|i: int| 0 <= i < out@.len() && out@[i] == m;
                assert(sorted@[i] == x);
                assert(sorted@.contains(sorted@[i]));
                assert(unsorted.contains(x));
            }
            if exported_cable(nums, all, m) {
                assert(unsorted.contains(x));
                assert(sorted@.contains(x));
                let i = choose|i: int| 0 <= i < sorted@.len() && sorted@[i] == x;
                assert(out@[i] == m);
            }
        }
    }
    out
}

/// The wires of `point` as a blueprint file lists them, under the numbers
/// that `numbers` gives.
fn export_point(numbers: &IdMap, point: &crate::better_bp::ConnectionPoint) -> (r: Option<
    PointRecord,
>)
    requires
        point.wf(),
        one_to_one(id_map(*numbers)),
    ensures
        exports_point(id_map(*numbers), point.wires(), r),
{
    let wires = point.iter();
    let red = export_list(numbers, &wires, WireColor::Red);
    let green = export_list(numbers, &wires, WireColor::Green);
    if red.is_none() && green.is_none() {
        None
    } else {
        Some(PointRecord { red, green })
    }
}

/// Whether each id of `ids` is smaller than those that stand later.
pub open spec fn ids_ascend(ids: Seq<EntityId>) -> bool {
    forall|i: int, j: int| 0 <= i < j < ids.len() ==> (#[trigger] ids[i]).0 < (#[trigger] ids[j]).0
}

/// Only one sequence holds given ids in ascending order.
pub proof fn lemma_ascending_unique(a: Seq<EntityId>, b: Seq<EntityId>)
    requires
        ids_ascend(a),
        ids_ascend(b),
        forall|x: EntityId| a.contains(x) <==> b.contains(x),
    ensures
        a == b,
    decreases a.len(),
{
    if a.len() == 0 {
        if b.len() > 0 {
            assert(b.contains(b[0]));
            assert(a.contains(b[0]));
        }
        assert(a =~= b);
    } else {
        let la = a.last();
        assert(a.contains(la)) by {
            assert(a[a.len() - 1] == la);
        }
        assert(b.contains(la));
        let lb = b.last();
        assert(b.contains(lb)) by {
            assert(b[b.len() - 1] == lb);
        }
        assert(a.contains(lb));
        let i = choose|i: int| 0 <= i < a.len() && a[i] == lb;
        let j = choose|j: int| 0 <= j < b.len() && b[j] == la;
        if i < a.len() - 1 {
            assert(a[i].0 < a[a.len() - 1].0);
        }
        if j < b.len() - 1 {
            assert(b[j].0 < b[b.len() - 1].0);
        }
        assert(la == lb);
        let ra = a.drop_last();
        let rb = b.drop_last();
        assert forall|x: EntityId| ra.contains(x) <==> rb.contains(x) by {
            if ra.contains(x) {
                let k = choose|k: int| 0 <= k < ra.len() && ra[k] == x;
                assert(a[k] == x);
                assert(a[k].0 < a[a.len() - 1].0);
                assert(a.contains(x));
                let m = choose|m: int| 0 <= m < b.len() && b[m] == x;
                assert(m < b.len() - 1);
                assert(rb[m] == x);
            }
            if rb.contains(x) {
                let k = choose|k: int| 0 <= k < rb.len() && rb[k] == x;
                assert(b[k] == x);
                assert(b[k].0 < b[b.len() - 1].0);
                assert(b.contains(x));
                let m = choose|m: int| 0 <= m < a.len() && a[m] == x;
                assert(m < a.len() - 1);
                assert(ra[m] == x);
            }
        }
        assert(ids_ascend(ra)) by {
            assert forall|p: int, q: int| 0 <= p < q < ra.len() implies (#[trigger] ra[p]).0 < (
            #[trigger] ra[q]).0 by {
                assert(a[p].0 < a[q].0);
            }
        }
        assert(ids_ascend(rb)) by {
            assert forall|p: int, q: int| 0 <= p < q < rb.len() implies (#[trigger] rb[p]).0 < (
            #[trigger] rb[q]).0 by {
                assert(b[p].0 < b[q].0);
            }
        }
        lemma_ascending_unique(ra, rb);
        assert(a =~= ra.push(la));
        assert(b =~= rb.push(lb));
    }
}

/// The number under which each id of `ids` is written out: its place, counted
/// from one.
pub open spec fn new_numbers(ids: Seq<EntityId>) -> Map<EntityId, u32> {
    Map::new(|id: EntityId| ids.contains(id), |id: EntityId| (ids.index_of(id) + 1) as u32)
}

impl BlueprintEntities {
    /// Whether `ids` are the ids in use, in ascending order.
    pub open spec fn is_numbering(&self, ids: Seq<EntityId>) -> bool {
        &&& ids_ascend(ids)
        &&& forall|id: EntityId| ids.contains(id) <==> self.has(id)
    }

    /// The ids in use, in ascending order.
    pub open spec fn spec_numbering(&self) -> Seq<EntityId> {
        choose|ids: Seq<EntityId>| self.is_numbering(ids)
    }

    /// Whether `records` list the entities as a blueprint file does: in the
    /// ascending order of their ids, numbered from one, each with its name,
    /// place and direction, and with its cables and wires under the new
    /// numbers. A cable or a wire to an id that is not in use is left out.
    pub open spec fn exports(&self, records: Seq<EntityRecord>) -> bool {
        let ids = self.spec_numbering();
        let nums = new_numbers(ids);
        &&& records.len() == ids.len()
        &&& forall|k: int|
            0 <= k < records.len() ==> {
                let record = #[trigger] records[k];
                let e = self.entity(ids[k]);
                &&& record.entity_number == k + 1
                &&& record.name@ == e.data.name@
                &&& record.position == e.data.position
                &&& record.direction == e.data.direction
                &&& exports_cables(nums, e, record.neighbours)
                &&& exports_point(nums, e.connections.0.wires(), record.first)
                &&& exports_point(nums, e.connections.1.wires(), record.second)
            }
    }

    /// The entities as a blueprint file lists them.
    #[verifier::loop_isolation(false)]
    pub fn to_blueprint_entities(&self) -> (r: Vec<EntityRecord>)
        requires
            self.wf(),
        ensures
            self.exports(r@),
    {
        let ids = self.numbering();
        proof {
            assert(self.is_numbering(ids@));
            let chosen = self.spec_numbering();
            assert(self.is_numbering(chosen));
            lemma_ascending_unique(ids@, chosen);
        }
        let mut numbers = IdMap::new();
        let mut k: usize = 0;
        while k < ids.len()
            invariant
                0 <= k <= ids@.len(),
                forall|id: EntityId|
                    id_map(numbers).contains_key(id) <==> exists|j: int|
                        0 <= j < k && #[trigger] ids@[j] == id,
                forall|j: int| 0 <= j < k ==> id_map(numbers)[#[trigger] ids@[j]] == j + 1,
            decreases ids@.len() - k,
        {
            let ghost before = id_map(numbers);
            numbers.insert(ids[k], (k + 1) as u32);
            proof {
                assert forall|id: EntityId|
                    id_map(numbers).contains_key(id) <==> exists|j: int|
                        0 <= j < k + 1 && #[trigger] ids@[j] == id by {
                    if before.contains_key(id) {
                        let j = choose|j: int| 0 <= j < k && #[trigger] ids@[j] == id;
                        assert(0 <= j < k + 1 && ids@[j] == id);
                    }
                    if id == ids@[k as int] {
                        assert(0 <= k < k + 1 && ids@[k as int] == id);
                    }
                    if exists|j: int| 0 <= j < k + 1 && #[trigger] ids@[j] == id {
                        let j = choose|j: int| 0 <= j < k + 1 && #[trigger] ids@[j] == id;
                        if j < k {
                            assert(before.contains_key(id));
                        }
                    }
                }
                assert forall|j: int| 0 <= j < k + 1 implies id_map(numbers)[#[trigger] ids@[j]] == j
                    + 1 by {
                    if j < k {
                        assert(ids@[j].0 < ids@[k as int].0);
                    }
                }
            }
            k = k + 1;
        }
        let ghost nums = new_numbers(ids@);
        proof {
            assert forall|id: EntityId| ids@.contains(id) implies id_map(numbers).contains_key(id)
                && id_map(numbers)[id] == nums[id] by {
                let j = choose|j: int| 0 <= j < ids@.len() && ids@[j] == id;
                let at = ids@.index_of(id);
                assert(ids@[at] == id);
                if at < j {
                    assert(ids@[at].0 < ids@[j].0);
                }
                if j < at {
                    assert(ids@[j].0 < ids@[at].0);
                }
                assert(id_map(numbers)[ids@[j]] == j + 1);
            }
            assert forall|id: EntityId| id_map(numbers).contains_key(id) implies ids@.contains(id) by {
                let j = choose|j: int| 0 <= j < ids@.len() && #[trigger] ids@[j] == id;
                assert(ids@[j] == id);
            }
            assert(id_map(numbers) =~= nums);
            assert(one_to_one(nums)) by {
                assert forall|a: EntityId, b: EntityId|
                    nums.contains_key(a) && nums.contains_key(b) && a != b implies #[trigger] nums[a]
                    != #[trigger] nums[b] by {
                    let i = ids@.index_of(a);
                    let j = ids@.index_of(b);
                    assert(ids@[i] == a && ids@[j] == b);
                }
            }
        }
        let mut out: Vec<EntityRecord> = Vec::new();
        let mut k: usize = 0;
        while k < ids.len()
            invariant
                0 <= k <= ids@.len(),
                out@.len() == k,
                forall|j: int|
                    0 <= j < k ==> {
                        let record = #[trigger] out@[j];
                        let e = self.entity(ids@[j]);
                        &&& record.entity_number == j + 1
                        &&& record.name@ == e.data.name@
                        &&& record.position == e.data.position
                        &&& record.direction == e.data.direction
                        &&& exports_cables(nums, e, record.neighbours)
                        &&& exports_point(nums, e.connections.0.wires(), record.first)
                        &&& exports_point(nums, e.connections.1.wires(), record.second)
                    },
            decreases ids@.len() - k,
        {
            proof {
                assert(ids@.contains(ids@[k as int]));
                assert(self.has(ids@[k as int]));
                assert(self.entity(ids@[k as int]).wf());
            }
            match self.get(ids[k]) {
                Some(e) => {
                    let neighbours = match &e.neighbours {
                        Some(list) => {
                            let listed = export_cables(&numbers, list);
                            proof {
                                assert(list@.to_set() == e.cables());
                            }
                            Some(listed)
                        },
                        None => None,
                    };
                    let first = export_point(&numbers, e.connection_pt(false));
                    let second = export_point(&numbers, e.connection_pt(true));
                    let ghost before = out@;
                    out.push(
                        EntityRecord {
                            entity_number: (k + 1) as u32,
                            name: e.data.name.clone(),
                            position: e.data.position,
                            direction: e.data.direction,
                            neighbours,
                            first,
                            second,
                        },
                    );
                    proof {
                        assert forall|j: int| 0 <= j < k + 1 implies {
                            let record = #[trigger] out@[j];
                            let e = self.entity(ids@[j]);
                            &&& record.entity_number == j + 1
                            &&& record.name@ == e.data.name@
                            &&& record.position == e.data.position
                            &&& record.direction == e.data.direction
                            &&& exports_cables(nums, e, record.neighbours)
                            &&& exports_point(nums, e.connections.0.wires(), record.first)
                            &&& exports_point(nums, e.connections.1.wires(), record.second)
                        } by {
                            if j < k {
                                assert(out@[j] == before[j]);
                            }
                        }
                    }
                },
                None => {},
            }
            k = k + 1;
        }
        out
    }
}

} // verus!
