use std::collections::HashSet;

use pole_optimizer::better_bp::BlueprintEntities;
use pole_optimizer::better_bp::BlueprintEntity;
use pole_optimizer::better_bp::BlueprintEntityData;
use pole_optimizer::better_bp::ConnectionPointId;
use pole_optimizer::better_bp::EntityId;
use pole_optimizer::better_bp::OutgoingConnection;
use pole_optimizer::better_bp::WireColor;
use pole_optimizer::bp_model::WorldEntity;
use pole_optimizer::graph::WeightedGraph;
use pole_optimizer::optimize::get_pole_prototype;
use pole_optimizer::optimize::get_pole_prototypes;
use pole_optimizer::optimize::pole_name;
use pole_optimizer::pole_graph::CandPoleNode;
use pole_optimizer::prototype_data::RawPrototype;
use pole_optimizer::tables::IdSet;
use pole_optimizer::optimize::center_of;
use pole_optimizer::optimize::place_chosen;
use pole_optimizer::optimize::prepare;
use pole_optimizer::optimize::rewrite;
use pole_optimizer::optimize::OptimizeError;
use pole_optimizer::pole_solver::set_cover_ilp::SetCoverILPSolver;
use pole_optimizer::position::BoundingBox;
use pole_optimizer::position::MapPosition;
use pole_optimizer::position::TileBoundingBox;
use pole_optimizer::position::TilePosition;
use pole_optimizer::prototype_data::EntityPrototype;
use pole_optimizer::prototype_data::EntityPrototypeDict;
use pole_optimizer::prototype_data::EntityPrototypeRef;
use pole_optimizer::prototype_data::PoleData;
use pole_optimizer::rcid::RcId;
use pole_optimizer::records::ConnectionRecord;
use pole_optimizer::records::EntityRecord;
use pole_optimizer::records::PointRecord;

fn at(x: i64, y: i64) -> MapPosition {
    MapPosition::new(x * 1_000_000 + 500_000, y * 1_000_000 + 500_000)
}

fn record(number: u32, name: &str, x: i64, y: i64) -> EntityRecord {
    EntityRecord {
        entity_number: number,
        name: name.to_string(),
        position: at(x, y),
        direction: None,
        neighbours: None,
        first: None,
        second: None,
    }
}

fn wire(number: u32, circuit_id: Option<i32>) -> ConnectionRecord {
    ConnectionRecord { entity_number: number, circuit_id }
}

fn listed(list: &Option<Vec<ConnectionRecord>>) -> Option<Vec<(u32, Option<i32>)>> {
    list.as_ref().map(|l| l.iter().map(|c| (c.entity_number, c.circuit_id)).collect())
}

fn wires_at(bp: &BlueprintEntities, id: u32, second: bool) -> HashSet<OutgoingConnection> {
    bp.get(EntityId(id)).unwrap().connection_pt(second).iter().into_iter().collect()
}

fn cables_at(bp: &BlueprintEntities, id: u32) -> Option<Vec<u32>> {
    bp.get(EntityId(id)).unwrap().neighbours.as_ref().map(|list| {
        let mut numbers: Vec<u32> = list.iter().map(|n| n.0).collect();
        numbers.sort();
        numbers
    })
}

fn to(id: u32, second: bool, color: WireColor) -> OutgoingConnection {
    OutgoingConnection { dest: ConnectionPointId { entity_id: EntityId(id), circuit_id: second }, color }
}

fn prototype(name: &str, kind: &str, width: u32, pole: bool, uses_power: bool) -> EntityPrototypeRef {
    let half = width as i64 * 500_000;
    RcId::new(EntityPrototype {
        type_: kind.to_string(),
        name: name.to_string(),
        tile_width: width,
        tile_height: width,
        collision_box: BoundingBox::new(MapPosition::new(-half, -half), MapPosition::new(half, half)),
        uses_power,
        pole_data: if pole {
            Some(PoleData { wire_distance: 7_500_000, supply_radius: 2_500_000 })
        } else {
            None
        },
    })
}

fn catalogue() -> EntityPrototypeDict {
    EntityPrototypeDict(vec![
        prototype("small-electric-pole", "electric-pole", 1, true, false),
        prototype("lamp", "lamp", 1, false, true),
        prototype("wooden-chest", "container", 1, false, false),
    ])
}

#[test]
fn records_are_read_with_their_cables_and_wires() {
    let mut first = record(7, "lamp", 0, 0);
    first.neighbours = Some(vec![3, 7, 9]);
    first.first = Some(PointRecord {
        red: Some(vec![wire(3, None), wire(3, Some(2)), wire(3, Some(1))]),
        green: Some(vec![]),
    });
    let mut second = record(3, "wooden-chest", 2, 0);
    second.direction = Some(4);
    second.second = Some(PointRecord { red: None, green: Some(vec![wire(40, Some(2))]) });
    let third = record(5, "lamp", 4, 0);
    let bp = BlueprintEntities::from_blueprint(&vec![first, second, third]).unwrap();

    assert_eq!(bp.len(), 3);
    assert_eq!(bp.at(0).id(), EntityId(7));
    assert_eq!(bp.at(1).id(), EntityId(3));
    assert_eq!(bp.at(1).data.name, "wooden-chest");
    assert_eq!(bp.at(1).data.position, at(2, 0));
    assert_eq!(bp.at(1).data.direction, Some(4));
    assert_eq!(bp.at(2).data.direction, None);
    // A cable needs both ends; it is listed at both, whoever named it.
    assert_eq!(cables_at(&bp, 7), Some(vec![3]));
    assert_eq!(cables_at(&bp, 3), Some(vec![7]));
    assert_eq!(cables_at(&bp, 5), None);
    // A wire is listed where its record stands, also where its far end is missing.
    assert_eq!(
        wires_at(&bp, 7, false),
        HashSet::from([to(3, false, WireColor::Red), to(3, true, WireColor::Red)])
    );
    assert!(!bp.get(EntityId(7)).unwrap().connection_pt(true).has_any());
    assert!(!bp.get(EntityId(3)).unwrap().connection_pt(false).has_any());
    assert_eq!(wires_at(&bp, 3, true), HashSet::from([to(40, true, WireColor::Green)]));
    assert!(!bp.get(EntityId(5)).unwrap().connection_pt(false).has_any());
}

#[test]
fn records_with_one_number_twice_are_refused() {
    let records = vec![record(1, "lamp", 0, 0), record(2, "lamp", 1, 0), record(1, "lamp", 2, 0)];
    assert!(BlueprintEntities::from_blueprint(&records).is_none());
    assert_eq!(BlueprintEntities::from_blueprint(&Vec::new()).unwrap().len(), 0);
}

#[test]
fn entities_are_written_out_under_new_numbers() {
    let mut bp = BlueprintEntities::new();
    for (id, x) in [(20u32, 0i64), (5, 1), (9, 2)] {
        assert!(bp.insert(BlueprintEntity::new(
            EntityId(id),
            BlueprintEntityData::new(format!("e{}", id), at(x, 0), if id == 9 { Some(2) } else { None }),
        )));
    }
    let point = |id: u32, second: bool| ConnectionPointId { entity_id: EntityId(id), circuit_id: second };
    assert!(bp.add_wire_connection(point(20, false), point(5, true), WireColor::Red));
    assert!(bp.add_wire_connection(point(20, false), point(5, false), WireColor::Red));
    assert!(bp.add_wire_connection(point(20, false), point(9, false), WireColor::Green));
    assert!(bp.add_wire_connection(point(20, false), point(20, true), WireColor::Red));
    assert!(bp.add_cable_connection(EntityId(20), EntityId(5)));
    assert!(bp.add_cable_connection(EntityId(9), EntityId(20)));
    bp.retain(|e| e.id() != EntityId(9));

    let records = bp.to_blueprint_entities();
    assert_eq!(records.len(), 2);
    let (five, twenty) = (&records[0], &records[1]);
    assert_eq!((five.entity_number, five.name.as_str()), (1, "e5"));
    assert_eq!((twenty.entity_number, twenty.name.as_str()), (2, "e20"));
    assert_eq!(five.position, at(1, 0));
    assert_eq!(twenty.direction, None);
    // The cable and the wire to the entity that left are not written.
    assert_eq!(five.neighbours, Some(vec![2]));
    assert_eq!(twenty.neighbours, Some(vec![1]));
    let first = twenty.first.as_ref().unwrap();
    assert_eq!(listed(&first.red), Some(vec![(1, None), (1, Some(2)), (2, Some(2))]));
    assert_eq!(listed(&first.green), None);
    let second = twenty.second.as_ref().unwrap();
    assert_eq!(listed(&second.red), Some(vec![(2, None)]));
    assert_eq!(listed(&five.first.as_ref().unwrap().red), Some(vec![(2, None)]));
    assert_eq!(listed(&five.second.as_ref().unwrap().red), Some(vec![(2, None)]));
}

#[test]
fn what_is_written_out_reads_back_the_same() {
    let mut lamp = record(1, "lamp", 0, 0);
    lamp.neighbours = Some(vec![2]);
    lamp.first = Some(PointRecord { red: Some(vec![wire(2, Some(2))]), green: None });
    let mut pole = record(2, "small-electric-pole", 3, 1);
    pole.neighbours = Some(vec![1]);
    pole.second = Some(PointRecord { red: Some(vec![wire(1, None)]), green: None });
    let bp = BlueprintEntities::from_blueprint(&vec![lamp, pole]).unwrap();
    let out = bp.to_blueprint_entities();
    assert_eq!(out.len(), 2);
    assert_eq!(out[0].neighbours, Some(vec![2]));
    assert_eq!(out[1].neighbours, Some(vec![1]));
    assert_eq!(listed(&out[0].first.as_ref().unwrap().red), Some(vec![(2, Some(2))]));
    assert!(out[0].second.is_none());
    assert!(out[1].first.is_none());
    assert_eq!(listed(&out[1].second.as_ref().unwrap().red), Some(vec![(1, None)]));
    let again = BlueprintEntities::from_blueprint(&out).unwrap();
    assert_eq!(cables_at(&again, 1), Some(vec![2]));
    assert_eq!(wires_at(&again, 1, false), wires_at(&bp, 1, false));
    assert_eq!(wires_at(&again, 2, true), wires_at(&bp, 2, true));
}

#[test]
fn retaining_keeps_the_order_of_the_rest() {
    let records: Vec<EntityRecord> =
        [4u32, 1, 8, 6].iter().map(|&n| record(n, "lamp", n as i64, 0)).collect();
    let mut bp = BlueprintEntities::from_blueprint(&records).unwrap();
    bp.retain(|e| e.id().0 != 1);
    assert_eq!(bp.len(), 3);
    assert_eq!((bp.at(0).id(), bp.at(1).id(), bp.at(2).id()), (EntityId(4), EntityId(8), EntityId(6)));
    assert!(!bp.has_id(EntityId(1)));
    assert_eq!(bp.get(EntityId(8)).unwrap().data.position, at(8, 0));
    bp.retain(|_| false);
    assert_eq!(bp.len(), 0);
}

#[test]
fn the_centre_lies_between_the_corners() {
    let area = TileBoundingBox::new(TilePosition::new(-2, 0), TilePosition::new(4, 3));
    assert_eq!(center_of(area, (500_000, 500_000)), Some(MapPosition::new(1_000_000, 1_500_000)));
    assert_eq!(center_of(area, (0, 1_000_000)), Some(MapPosition::new(-2_000_000, 3_000_000)));
    assert_eq!(center_of(area, (333_333, 1)), Some(MapPosition::new(-2, 3)));
    // The centre may lie beside the area.
    assert_eq!(center_of(area, (-1, 0)), Some(MapPosition::new(-2_000_006, 0)));
    assert_eq!(center_of(area, (2_000_000, -500_000)), Some(MapPosition::new(10_000_000, -1_500_000)));
    assert_eq!(center_of(area, (-1, -1)), Some(MapPosition::new(-2_000_006, -3)));
    let inside_out = TileBoundingBox::new(TilePosition::new(4, 0), TilePosition::new(-2, 3));
    assert_eq!(center_of(inside_out, (0, 0)), None);
    let far = TileBoundingBox::new(TilePosition::new(0, 0), TilePosition::new(2_000_000_000, 1));
    assert_eq!(center_of(far, (2_000_000, 0)), None);
}

#[test]
fn an_optimisation_runs_its_course() {
    let dict = catalogue();
    let mut old_pole = record(3, "small-electric-pole", 9, 0);
    old_pole.neighbours = Some(vec![4]);
    let mut other_pole = record(4, "small-electric-pole", 9, 1);
    other_pole.first = Some(PointRecord { red: Some(vec![wire(1, None)]), green: None });
    let mut lamp = record(1, "lamp", 0, 0);
    lamp.first = Some(PointRecord { red: Some(vec![wire(4, None)]), green: None });
    let records = vec![lamp, record(2, "lamp", 4, 0), old_pole, other_pole];
    let mut bp = BlueprintEntities::from_blueprint(&records).unwrap();

    let small = dict.get(&"small-electric-pole".to_string()).unwrap();
    let prepared = prepare(&bp, &dict, &vec![small.share()], &vec![small.share()], 0).unwrap();
    assert_eq!(prepared.model.all_ids().len(), 2);
    assert_eq!(
        prepared.bounding_box,
        TileBoundingBox::new(TilePosition::new(0, 0), TilePosition::new(5, 1))
    );
    // A pole fits the three tiles between the lamps; the one in the middle
    // powers both.
    let graph = &prepared.candidates;
    assert_eq!(graph.node_count(), 3);
    let mut places: Vec<(i64, Vec<u32>)> = (0..3)
        .map(|i| {
            let node = graph.node_weight(i);
            let mut powered: Vec<u32> = node.powered_entities.ids().iter().map(|id| id.0).collect();
            powered.sort();
            (node.entity.position.x, powered)
        })
        .collect();
    places.sort();
    assert_eq!(
        places,
        vec![(1_500_000, vec![1]), (2_500_000, vec![1, 2]), (3_500_000, vec![2])]
    );
    assert_eq!(graph.edge_count(), 3);

    let mut model = prepared.model;
    let values: Vec<i64> =
        (0..3).map(|i| if graph.node_weight(i).entity.position.x == 2_500_000 { 1_000_000 } else { 0 }).collect();
    let chosen = SetCoverILPSolver::select(graph, &values);
    let (wired, added) = place_chosen(&mut model, &chosen).unwrap();
    assert_eq!(wired.node_count(), 1);
    assert_eq!(added, vec![Some(EntityId(5))]);
    assert_eq!(model.ids_at_tile(TilePosition::new(2, 0)), vec![EntityId(5)]);
    assert_eq!(model.all_ids().len(), 3);

    let numbers = rewrite(&mut bp, &dict, &model);
    assert_eq!(numbers.lookup(EntityId(5)), Some(3));
    assert_eq!(bp.len(), 3);
    assert_eq!((bp.at(0).id(), bp.at(1).id(), bp.at(2).id()), (EntityId(1), EntityId(2), EntityId(3)));
    assert_eq!(bp.at(2).data.name, "small-electric-pole");
    assert_eq!(bp.at(2).data.position, at(2, 0));
    let out = bp.to_blueprint_entities();
    assert_eq!(out.len(), 3);
    // The lamp's wire led to a pole that is gone.
    assert!(out[0].first.is_none());
    assert_eq!(out[2].neighbours, Some(vec![]));
}

#[test]
fn what_cannot_be_optimised_is_told() {
    let dict = catalogue();
    let small = dict.get(&"small-electric-pole".to_string()).unwrap();
    let lamp = dict.get(&"lamp".to_string()).unwrap();
    let none: Vec<EntityPrototypeRef> = Vec::new();

    let unknown = vec![record(1, "lamp", 0, 0), record(2, "gadget", 1, 0), record(3, "widget", 2, 0)];
    let bp = BlueprintEntities::from_blueprint(&unknown).unwrap();
    assert!(matches!(
        prepare(&bp, &dict, &none, &vec![small.share()], 1),
        Err(OptimizeError::BadEntity(EntityId(2)))
    ));

    let mut far_away = record(1, "lamp", 0, 0);
    far_away.position = MapPosition::new(2_000_000_000_000_001, 0);
    let bp = BlueprintEntities::from_blueprint(&vec![far_away]).unwrap();
    assert!(matches!(
        prepare(&bp, &dict, &none, &none, 1),
        Err(OptimizeError::BadEntity(EntityId(1)))
    ));

    let bp = BlueprintEntities::from_blueprint(&vec![record(1, "lamp", 0, 0)]).unwrap();
    let oblong = RcId::new(EntityPrototype {
        type_: "electric-pole".to_string(),
        name: "oblong".to_string(),
        tile_width: 1,
        tile_height: 2,
        collision_box: BoundingBox::new(MapPosition::new(-500_000, -1_000_000), MapPosition::new(500_000, 1_000_000)),
        uses_power: false,
        pole_data: Some(PoleData { wire_distance: 7_500_000, supply_radius: 2_500_000 }),
    });
    assert!(matches!(
        prepare(&bp, &dict, &none, &vec![small.share(), oblong, lamp.share()], 1),
        Err(OptimizeError::BadPole(1))
    ));
    assert!(matches!(
        prepare(&bp, &dict, &none, &vec![small.share()], 100_000_001),
        Err(OptimizeError::AreaTooLarge)
    ));
    let grown = prepare(&bp, &dict, &none, &vec![small.share()], 1).unwrap();
    assert_eq!(
        grown.bounding_box,
        TileBoundingBox::new(TilePosition::new(-1, -1), TilePosition::new(2, 2))
    );
    assert_eq!(grown.candidates.node_count(), 8);
}

fn raw(kind: &str, energy: Option<&str>) -> RawPrototype {
    RawPrototype {
        type_: kind.to_string(),
        name: format!("a-{}", kind),
        tile_width: None,
        tile_height: Some(2),
        collision_box: BoundingBox::new(MapPosition::new(-400_000, -900_000), MapPosition::new(400_000, 900_000)),
        energy_source: energy.map(|e| e.to_string()),
        supply_area_distance: Some(2_500_000),
        maximum_wire_distance: None,
    }
}

#[test]
fn a_prototype_is_read_from_the_raw_data() {
    let lamp = EntityPrototype::from_raw(&"lamp".to_string(), raw("lamp", Some("electric")));
    assert_eq!((lamp.type_.as_str(), lamp.name.as_str()), ("lamp", "a-lamp"));
    assert_eq!((lamp.tile_width, lamp.tile_height), (1, 2));
    assert_eq!(lamp.collision_box.max, MapPosition::new(400_000, 900_000));
    assert!(lamp.uses_power);
    assert!(lamp.pole_data.is_none());
    assert!(!lamp.is_pole() && !lamp.is_electric_pole());
    assert!(lamp.is_valid());

    let boiler = EntityPrototype::from_raw(&"boiler".to_string(), raw("boiler", Some("burner")));
    assert!(!boiler.uses_power);
    let chest = EntityPrototype::from_raw(&"container".to_string(), raw("container", None));
    assert!(!chest.uses_power);
    let generator = EntityPrototype::from_raw(&"generator".to_string(), raw("generator", None));
    assert!(generator.uses_power);

    let pole = EntityPrototype::from_raw(&"electric-pole".to_string(), raw("electric-pole", None));
    assert_eq!(pole.pole_data, Some(PoleData { supply_radius: 2_500_000, wire_distance: 0 }));
    assert!(pole.is_pole() && pole.is_electric_pole());
    assert!(!pole.uses_power);

    let mut wide = raw("electric-pole", None);
    wide.maximum_wire_distance = Some(1_000_000_001);
    assert!(!EntityPrototype::from_raw(&"electric-pole".to_string(), wide).is_valid());
}

#[test]
fn poles_are_found_by_name_or_by_letter() {
    let dict = EntityPrototypeDict(vec![
        prototype("small-electric-pole", "electric-pole", 1, true, false),
        prototype("substation", "electric-pole", 2, true, false),
        prototype("s", "lamp", 1, false, true),
    ]);
    for (alias, name) in [
        ("s", "small-electric-pole"),
        ("m", "medium-electric-pole"),
        ("b", "big-electric-pole"),
        ("t", "substation"),
        ("substation", "substation"),
        ("S", "S"),
        ("", ""),
    ] {
        assert_eq!(pole_name(&alias.to_string()), name);
    }
    assert!(get_pole_prototype(&"s".to_string(), &dict).unwrap().ptr_eq(&dict.0[0]));
    assert!(get_pole_prototype(&"t".to_string(), &dict).unwrap().ptr_eq(&dict.0[1]));
    assert!(get_pole_prototype(&"m".to_string(), &dict).is_none());
    let names = |list: &[&str]| list.iter().map(|n| n.to_string()).collect::<Vec<_>>();
    let found = get_pole_prototypes(&names(&["t", "s", "substation"]), &dict).unwrap();
    assert_eq!(found.len(), 3);
    assert!(found[0].ptr_eq(&dict.0[1]) && found[1].ptr_eq(&dict.0[0]) && found[2].ptr_eq(&dict.0[1]));
    assert_eq!(get_pole_prototypes(&names(&["s", "b", "x"]), &dict).err(), Some(1));
    assert_eq!(get_pole_prototypes(&names(&[]), &dict).unwrap().len(), 0);
}

#[test]
fn chosen_poles_that_cannot_be_used_leave_the_model_alone() {
    let dict = catalogue();
    let small = dict.get(&"small-electric-pole".to_string()).unwrap();
    let bp = BlueprintEntities::from_blueprint(&vec![
        record(1, "lamp", 0, 0),
        record(2, "small-electric-pole", 1, 0),
    ])
    .unwrap();
    let prepared = prepare(&bp, &dict, &Vec::new(), &Vec::new(), 0).unwrap();
    // With no pole to remove and none to use, the pole that stands is the
    // only candidate.
    assert_eq!(prepared.candidates.node_count(), 1);
    let mut model = prepared.model;

    let mut far: WeightedGraph<CandPoleNode> = WeightedGraph::new_undirected();
    far.add_node(CandPoleNode {
        entity: WorldEntity {
            position: MapPosition::new(2_000_000_000_000_001, 0),
            prototype: small.share(),
            direction: 0,
        },
        powered_entities: IdSet::empty(),
    });
    assert!(matches!(place_chosen(&mut model, &far), Err(OptimizeError::BadSolution)));
    assert_eq!(model.all_ids().len(), 2);
    assert_eq!(model.ids_at_tile(TilePosition::new(1, 0)), vec![EntityId(2)]);

    let mut long: WeightedGraph<CandPoleNode> = WeightedGraph::new_undirected();
    for x in [0i64, 4_000_000_001] {
        long.add_node(CandPoleNode {
            entity: WorldEntity { position: MapPosition::new(x, 0), prototype: small.share(), direction: 0 },
            powered_entities: IdSet::empty(),
        });
    }
    long.add_edge(0, 1, 4_000_000_000);
    assert!(matches!(place_chosen(&mut model, &long), Err(OptimizeError::BadSolution)));

    let none: WeightedGraph<CandPoleNode> = WeightedGraph::new_undirected();
    let (wired, added) = place_chosen(&mut model, &none).unwrap();
    assert_eq!((wired.node_count(), added.len()), (0, 0));
    // Every pole left the model, chosen or not.
    assert_eq!(model.all_ids(), vec![EntityId(1)]);
}

#[test]
fn big_bp_test() {
    // Three hundred entities in rows of twenty, numbered from one: each
    // shares a cable with the next in its row and holds a red wire to it,
    // and every seventh holds a green wire from its second point to the
    // first of the row.
    let n: u32 = 300;
    let mut old: Vec<EntityRecord> = Vec::new();
    for number in 1..=n {
        let i = number - 1;
        let mut entity = record(number, if i % 3 == 0 { "lamp" } else { "wooden-chest" }, (i % 20) as i64, (i / 20) as i64);
        entity.direction = if i % 4 == 0 { None } else { Some((i % 8) as u8) };
        let in_row = |m: u32| m >= 1 && m <= n && (m - 1) / 20 == i / 20;
        let mut cables = Vec::new();
        let mut red = Vec::new();
        if in_row(number.wrapping_sub(1)) {
            cables.push(number - 1);
            red.push(wire(number - 1, None));
        }
        if in_row(number + 1) {
            cables.push(number + 1);
            red.push(wire(number + 1, None));
        }
        entity.neighbours = if cables.is_empty() { None } else { Some(cables) };
        entity.first = if red.is_empty() { None } else { Some(PointRecord { red: Some(red), green: None }) };
        let head = i / 20 * 20 + 1;
        if i % 7 == 0 && head != number {
            entity.second = Some(PointRecord { red: None, green: Some(vec![wire(head, None)]) });
        }
        old.push(entity);
    }
    let entities = BlueprintEntities::from_blueprint(&old).unwrap();
    let new_bp = entities.to_blueprint_entities();

    assert_eq!(new_bp.len(), old.len());
    for (new, old) in new_bp.iter().zip(old.iter()) {
        assert_eq!(new.entity_number, old.entity_number);
        assert_eq!(new.name, old.name);
        assert_eq!(new.position, old.position);
        assert_eq!(new.direction, old.direction);
        assert_eq!(new.neighbours, old.neighbours);
        for (new_point, old_point) in [(&new.first, &old.first), (&new.second, &old.second)] {
            assert_eq!(new_point.is_some(), old_point.is_some());
            if let (Some(new_point), Some(old_point)) = (new_point, old_point) {
                assert_eq!(listed(&new_point.red), listed(&old_point.red));
                assert_eq!(listed(&new_point.green), listed(&old_point.green));
            }
        }
    }
}

#[test]
fn candidates_stop_where_the_ids_run_out() {
    let dict = catalogue();
    let small = dict.get(&"small-electric-pole".to_string()).unwrap();
    // The lamp has the last number but two, so that two ids are left.
    let bp = BlueprintEntities::from_blueprint(&vec![record(u32::MAX - 3, "lamp", 0, 0)]).unwrap();
    let model = pole_optimizer::bp_model::BpModel::from_bp_entities(&bp, &dict);
    assert_eq!(model.next_id(), EntityId(u32::MAX - 2));
    let area = TileBoundingBox::new(TilePosition::new(0, 0), TilePosition::new(3, 1));
    let with_poles = model.with_all_candidate_poles(area, &vec![small.share()]);
    // Two tiles are free; both candidates fit.
    assert_eq!(with_poles.ids_at_tile(TilePosition::new(1, 0)), vec![EntityId(u32::MAX - 2)]);
    assert_eq!(with_poles.ids_at_tile(TilePosition::new(2, 0)), vec![EntityId(u32::MAX - 1)]);
    assert_eq!(with_poles.next_id(), EntityId(u32::MAX));
    // Of four free tiles only the first two get a candidate.
    let wide = TileBoundingBox::new(TilePosition::new(0, 0), TilePosition::new(5, 1));
    let some = model.with_all_candidate_poles(wide, &vec![small.share()]);
    assert_eq!(some.all_ids().len(), 3);
    assert_eq!(some.ids_at_tile(TilePosition::new(1, 0)), vec![EntityId(u32::MAX - 2)]);
    assert_eq!(some.ids_at_tile(TilePosition::new(2, 0)), vec![EntityId(u32::MAX - 1)]);
    assert!(some.ids_at_tile(TilePosition::new(3, 0)).is_empty());
    assert!(some.ids_at_tile(TilePosition::new(4, 0)).is_empty());
}
