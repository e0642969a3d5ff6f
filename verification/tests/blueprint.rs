use std::collections::HashSet;

use pole_optimizer::better_bp::BlueprintEntities;
use pole_optimizer::better_bp::BlueprintEntity;
use pole_optimizer::better_bp::BlueprintEntityData;
use pole_optimizer::better_bp::ConnectionPoint;
use pole_optimizer::better_bp::ConnectionPointId;
use pole_optimizer::better_bp::EntityId;
use pole_optimizer::better_bp::OutgoingConnection;
use pole_optimizer::better_bp::WireColor;
use pole_optimizer::bp_model::BpModel;
use pole_optimizer::bp_model::WorldEntity;
use pole_optimizer::position::BoundingBox;
use pole_optimizer::position::MapPosition;
use pole_optimizer::position::TilePosition;
use pole_optimizer::prototype_data::EntityPrototype;
use pole_optimizer::prototype_data::EntityPrototypeDict;
use pole_optimizer::prototype_data::EntityPrototypeRef;
use pole_optimizer::prototype_data::PoleData;
use pole_optimizer::rcid::RcId;

fn units(tiles: f64) -> i64 {
    (tiles * 1_000_000.0).round() as i64
}

fn map(x: f64, y: f64) -> MapPosition {
    MapPosition::new(units(x), units(y))
}

fn tile(x: i32, y: i32) -> TilePosition {
    TilePosition::new(x, y)
}

fn small_pole_prototype() -> EntityPrototypeRef {
    RcId::new(EntityPrototype {
        type_: "electric-pole".to_string(),
        name: "small-electric-pole".to_string(),
        tile_width: 1,
        tile_height: 1,
        collision_box: BoundingBox::new(map(-0.5, -0.5), map(0.5, 0.5)),
        uses_power: false,
        pole_data: Some(PoleData { wire_distance: units(7.5), supply_radius: units(2.5) }),
    })
}

fn chest_prototype() -> EntityPrototypeRef {
    RcId::new(EntityPrototype {
        type_: "container".to_string(),
        name: "wooden-chest".to_string(),
        tile_width: 1,
        tile_height: 1,
        collision_box: BoundingBox::new(map(-0.35, -0.35), map(0.35, 0.35)),
        uses_power: false,
        pole_data: None,
    })
}

fn add_test_pole(model: &mut BpModel, position: TilePosition) -> EntityId {
    model.add_overlap(WorldEntity {
        position: position.center_map_pos(),
        prototype: small_pole_prototype(),
        direction: 0,
    })
}

fn cables_of(bp: &BlueprintEntities, id: EntityId) -> Option<HashSet<EntityId>> {
    bp.get(id).unwrap().neighbours.as_ref().map(|list| list.iter().copied().collect())
}

#[test]
fn test_add_poles_from() {
    let mut model = BpModel::new();
    let pole1 = add_test_pole(&mut model, tile(0, 0));
    let pole2 = add_test_pole(&mut model, tile(1, 0));
    let pole3 = add_test_pole(&mut model, tile(0, 1));
    model.add_cable_connection(pole1, pole2);
    model.add_cable_connection(pole2, pole3);
    let mut bp = BlueprintEntities::new();
    let id_map = bp.add_poles_from(&model);
    let i1 = EntityId(id_map.lookup(pole1).unwrap());
    let i2 = EntityId(id_map.lookup(pole2).unwrap());
    let i3 = EntityId(id_map.lookup(pole3).unwrap());

    assert_eq!(cables_of(&bp, i1), Some(HashSet::from([i2])));
    assert_eq!(cables_of(&bp, i2), Some(HashSet::from([i1, i3])));
    assert_eq!(cables_of(&bp, i3), Some(HashSet::from([i2])));
    // The poles got the first three numbers, one after the other.
    assert_eq!(HashSet::from([i1, i2, i3]), HashSet::from([EntityId(1), EntityId(2), EntityId(3)]));
    assert_eq!((bp.at(0).id(), bp.at(1).id(), bp.at(2).id()), (EntityId(1), EntityId(2), EntityId(3)));
}

#[test]
fn new_poles_follow_the_largest_number() {
    let mut model = BpModel::new();
    let pole1 = add_test_pole(&mut model, tile(0, 0));
    let pole2 = add_test_pole(&mut model, tile(1, 0));
    let mut bp = BlueprintEntities::new();
    for id in [7u32, 3] {
        assert!(bp.insert(BlueprintEntity::new(
            EntityId(id),
            BlueprintEntityData::new("wooden-chest".to_string(), map(9.5, 9.5), None),
        )));
    }
    let numbers = bp.add_poles_from(&model);
    let given = HashSet::from([numbers.lookup(pole1).unwrap(), numbers.lookup(pole2).unwrap()]);
    assert_eq!(given, HashSet::from([8, 9]));
    assert_eq!(bp.len(), 4);
    assert_eq!((bp.at(2).id(), bp.at(3).id()), (EntityId(8), EntityId(9)));

    // Where the largest number is in use, no pole can be added.
    let mut full = BlueprintEntities::new();
    assert!(full.insert(BlueprintEntity::new(
        EntityId(u32::MAX),
        BlueprintEntityData::new("wooden-chest".to_string(), map(9.5, 9.5), None),
    )));
    let none = full.add_poles_from(&model);
    assert_eq!(none.ids().len(), 0);
    assert_eq!(full.len(), 1);
}

#[test]
fn exported_poles_carry_name_place_and_direction() {
    let mut model = BpModel::new();
    let pole = model.add_overlap(WorldEntity {
        position: map(3.5, -1.5),
        prototype: small_pole_prototype(),
        direction: 2,
    });
    model.add_overlap(WorldEntity {
        position: map(0.5, 0.5),
        prototype: chest_prototype(),
        direction: 0,
    });
    let mut bp = BlueprintEntities::new();
    bp.add_entity(BlueprintEntityData::new("wooden-chest".to_string(), map(0.5, 0.5), None));
    let id_map = bp.add_poles_from(&model);
    assert_eq!(id_map.ids(), vec![pole]);
    assert_eq!(bp.len(), 2);
    let exported = bp.get(EntityId(id_map.lookup(pole).unwrap())).unwrap();
    assert_eq!(exported.id(), EntityId(2));
    assert_eq!(exported.data.name, "small-electric-pole");
    assert_eq!(exported.data.position, map(3.5, -1.5));
    assert_eq!(exported.data.direction, Some(2));
    assert_eq!(exported.neighbours, Some(vec![]));
}

fn blueprint_of_three() -> BlueprintEntities {
    let mut bp = BlueprintEntities::new();
    assert!(bp.insert(BlueprintEntity::new(
        EntityId(4),
        BlueprintEntityData::new("small-electric-pole".to_string(), map(0.5, 0.5), None),
    )));
    assert!(bp.insert(BlueprintEntity::new(
        EntityId(7),
        BlueprintEntityData::new("small-electric-pole".to_string(), map(5.5, 0.5), Some(4)),
    )));
    assert!(bp.insert(BlueprintEntity::new(
        EntityId(2),
        BlueprintEntityData::new("wooden-chest".to_string(), map(2.5, 2.5), None),
    )));
    bp
}

fn catalogue() -> EntityPrototypeDict {
    EntityPrototypeDict(vec![chest_prototype(), small_pole_prototype()])
}

#[test]
fn model_of_a_blueprint_keeps_numbers_and_cables() {
    let mut bp = blueprint_of_three();
    assert!(bp.add_cable_connection(EntityId(4), EntityId(7)));
    assert!(bp.add_cable_connection(EntityId(4), EntityId(2)));
    let dict = catalogue();
    let model = BpModel::from_bp_entities(&bp, &dict);
    assert_eq!(model.next_id(), EntityId(8));
    let mut ids = model.all_ids();
    ids.sort();
    assert_eq!(ids, vec![EntityId(2), EntityId(4), EntityId(7)]);
    let pole = model.get(EntityId(7)).unwrap();
    assert_eq!(pole.entity.position, map(5.5, 0.5));
    assert_eq!(pole.entity.direction, 4);
    assert_eq!(pole.entity.prototype.get().name, "small-electric-pole");
    let (_, cables) = pole.pole_data().unwrap();
    assert_eq!(cables.connections.ids(), vec![EntityId(4)]);
    let (_, cables) = model.get(EntityId(4)).unwrap().pole_data().unwrap();
    assert_eq!(cables.connections.ids(), vec![EntityId(7)]);
    assert!(model.get(EntityId(2)).unwrap().pole_data().is_none());
    assert_eq!(model.get_at_tile(tile(2, 2)).len(), 1);
}

#[test]
fn cables_of_a_blueprint_need_two_entities() {
    let mut bp = blueprint_of_three();
    assert!(!bp.add_cable_connection(EntityId(4), EntityId(4)));
    assert!(!bp.add_cable_connection(EntityId(4), EntityId(5)));
    assert!(!bp.add_cable_connection(EntityId(5), EntityId(4)));
    assert_eq!(bp.get(EntityId(4)).unwrap().neighbours, None);
    assert!(bp.add_cable_connection(EntityId(4), EntityId(7)));
    assert!(bp.add_cable_connection(EntityId(7), EntityId(4)));
    assert_eq!(bp.get(EntityId(4)).unwrap().neighbours, Some(vec![EntityId(7)]));
    assert_eq!(bp.get(EntityId(7)).unwrap().neighbours, Some(vec![EntityId(4)]));
    assert!(bp.has_id(EntityId(2)));
    assert!(!bp.has_id(EntityId(3)));
}

#[test]
fn numbers_are_given_after_the_largest() {
    let mut bp = BlueprintEntities::new();
    let data = || BlueprintEntityData::new("wooden-chest".to_string(), map(0.5, 0.5), None);
    assert_eq!(bp.add_entity(data()), Some(EntityId(1)));
    assert_eq!(bp.add_entity(data()), Some(EntityId(2)));
    assert!(bp.insert(BlueprintEntity::new(EntityId(9), data())));
    assert!(!bp.insert(BlueprintEntity::new(EntityId(9), data())));
    assert_eq!(bp.add_entity(data()), Some(EntityId(10)));
    assert!(bp.insert(BlueprintEntity::new(EntityId(u32::MAX), data())));
    assert_eq!(bp.add_entity(data()), None);
    assert_eq!(bp.len(), 5);
}

#[test]
fn circuit_wires_are_listed_at_both_ends() {
    let mut bp = blueprint_of_three();
    let a = ConnectionPointId { entity_id: EntityId(4), circuit_id: false };
    let b = ConnectionPointId { entity_id: EntityId(7), circuit_id: true };
    assert!(!bp.add_wire_connection(a, a, WireColor::Red));
    assert!(!bp.add_wire_connection(
        a,
        ConnectionPointId { entity_id: EntityId(5), circuit_id: false },
        WireColor::Red
    ));
    assert!(bp.add_wire_connection(a, b, WireColor::Green));
    let at_a = bp.get(EntityId(4)).unwrap();
    assert_eq!(
        at_a.connection_pt(false).iter(),
        vec![OutgoingConnection { dest: b, color: WireColor::Green }]
    );
    assert!(!at_a.connection_pt(true).has_any());
    let at_b = bp.get(EntityId(7)).unwrap();
    assert_eq!(
        at_b.connection_pt(true).iter(),
        vec![OutgoingConnection { dest: a, color: WireColor::Green }]
    );
    assert!(!at_b.connection_pt(false).has_any());
}

#[test]
fn a_connection_point_forgets_its_set_when_it_empties() {
    let dest = ConnectionPointId { entity_id: EntityId(1), circuit_id: false };
    let red = OutgoingConnection { dest, color: WireColor::Red };
    let green = OutgoingConnection { dest, color: WireColor::Green };
    let mut point = ConnectionPoint::new();
    assert!(!point.has_any());
    assert_eq!(point.iter(), vec![]);
    point.add_connection(red);
    point.add_connection(red);
    point.add_connection(green);
    assert!(point.has_any());
    assert_eq!(point.iter(), vec![red, green]);
    point.remove_connection(&red);
    assert_eq!(point.iter(), vec![green]);
    point.remove_connection(&red);
    assert!(point.has_any());
    point.remove_connection(&green);
    assert!(!point.has_any());
    point.add_connection(red);
    point.clear_if_empty();
    assert!(point.has_any());
    point.clear();
    assert!(!point.has_any());
    point.clear_if_empty();
    assert!(!point.has_any());
}

#[test]
fn handles_are_told_apart_by_identity() {
    let a = small_pole_prototype();
    let b = small_pole_prototype();
    let c = a.clone();
    assert!(a.ptr_eq(&c));
    assert!(a.ptr_eq(&a.share()));
    assert!(!a.ptr_eq(&b));
    assert_eq!(a.get().name, b.get().name);
    let dict = catalogue();
    let found = dict.get(&"small-electric-pole".to_string()).unwrap();
    assert!(found.ptr_eq(&dict.0[1]));
    assert!(dict.get(&"big-electric-pole".to_string()).is_none());
}

#[test]
fn entities_are_numbered_in_the_order_of_their_ids() {
    let bp = blueprint_of_three();
    assert_eq!(bp.numbering(), vec![EntityId(2), EntityId(4), EntityId(7)]);
    assert_eq!(BlueprintEntities::new().numbering(), vec![]);
}
