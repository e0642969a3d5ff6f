use std::collections::HashSet;

use pole_optimizer::better_bp::EntityId;
use pole_optimizer::bp_model::BpModel;
use pole_optimizer::bp_model::WorldEntity;
use pole_optimizer::graph::WeightedGraph;
use pole_optimizer::pole_graph::CandPoleGraph;
use pole_optimizer::pole_graph::PoleGraph;
use pole_optimizer::pole_graph::ToCandidatePoleGraph;
use pole_optimizer::pole_solver::connections::is_left;
use pole_optimizer::pole_solver::connections::line_seg_intersects;
use pole_optimizer::pole_solver::connections::PoleConnector;
use pole_optimizer::pole_solver::connections::PrettyPoleConnector;
use pole_optimizer::pole_solver::connections::WeightedMSTConnector;
use pole_optimizer::pole_solver::connections::MAX_DEGREE;
use pole_optimizer::pole_solver::get_pole_coverage_dict;
use pole_optimizer::pole_solver::set_cover_ilp::SetCoverILPSolver;
use pole_optimizer::pole_solver::set_cover_ilp::SetCoverProblem;
use pole_optimizer::pole_windows::Moving2DWindow;
use pole_optimizer::pole_windows::PoleCoverage;
use pole_optimizer::pole_windows::PoleCoverageWindows;
use pole_optimizer::pole_windows::PoleWindowParams;
use pole_optimizer::pole_windows::WireReach;
use pole_optimizer::pole_windows::WireReachWindows;
use pole_optimizer::position::BoundingBox;
use pole_optimizer::position::MapPosition;
use pole_optimizer::position::TileBoundingBox;
use pole_optimizer::position::TilePosition;
use pole_optimizer::prototype_data::EntityPrototype;
use pole_optimizer::prototype_data::EntityPrototypeRef;
use pole_optimizer::prototype_data::PoleData;
use pole_optimizer::rcid::RcId;
use pole_optimizer::tables::IdMap;
use pole_optimizer::tables::IdSet;
use rand::rngs::StdRng;
use rand::Rng;
use rand::SeedableRng;

fn units(tiles: f64) -> i64 {
    (tiles * 1_000_000.0).round() as i64
}

fn map(x: f64, y: f64) -> MapPosition {
    MapPosition::new(units(x), units(y))
}

fn tile(x: i32, y: i32) -> TilePosition {
    TilePosition::new(x, y)
}

fn unit_box() -> BoundingBox {
    BoundingBox::new(map(-0.5, -0.5), map(0.5, 0.5))
}

fn small_pole_prototype() -> EntityPrototypeRef {
    RcId::new(EntityPrototype {
        type_: "electric-pole".to_string(),
        name: "test".to_string(),
        tile_width: 1,
        tile_height: 1,
        collision_box: unit_box(),
        uses_power: false,
        pole_data: Some(PoleData { wire_distance: units(7.5), supply_radius: units(2.5) }),
    })
}

fn powerable_prototype() -> EntityPrototypeRef {
    RcId::new(EntityPrototype {
        name: "solar-panel".to_string(),
        type_: "generator".to_string(),
        tile_width: 1,
        tile_height: 1,
        uses_power: true,
        collision_box: unit_box(),
        pole_data: None,
    })
}

fn entity_data(uses_power: bool) -> EntityPrototypeRef {
    RcId::new(EntityPrototype {
        type_: "test".to_string(),
        name: "test".to_string(),
        tile_width: 1,
        tile_height: 1,
        collision_box: unit_box(),
        uses_power,
        pole_data: None,
    })
}

fn add_test_pole(model: &mut BpModel, position: TilePosition) -> EntityId {
    model.add_overlap(WorldEntity {
        position: position.center_map_pos(),
        prototype: small_pole_prototype(),
        direction: 0,
    })
}

fn add_test_poles(model: &mut BpModel, positions: &[TilePosition]) -> Vec<EntityId> {
    positions.iter().map(|&pos| add_test_pole(model, pos)).collect()
}

fn add_test_powerable(model: &mut BpModel, position: TilePosition) -> EntityId {
    model.add_overlap(WorldEntity {
        position: position.center_map_pos(),
        prototype: powerable_prototype(),
        direction: 0,
    })
}

fn id_set_of(set: &IdSet) -> HashSet<EntityId> {
    set.ids().into_iter().collect()
}

fn node_of(map: &IdMap, id: EntityId) -> u32 {
    map.lookup(id).unwrap()
}

fn neighbor_set<N>(graph: &WeightedGraph<N>, node: u32) -> HashSet<u32> {
    graph.neighbors(node).into_iter().collect()
}

fn add_and_get_scenario() {
    let mut grid = BpModel::new();
    let entity = WorldEntity { position: map(0.5, 0.5), direction: 0, prototype: entity_data(false) };
    let entity_id = grid.add_overlap(entity.clone());
    let at0 = grid.get_at_tile(tile(0, 0));
    assert!(at0.first().unwrap().entity.same_as(&entity));
    assert!(grid.get_at_tile(tile(1, 0)).is_empty());
    assert!(grid.get_at_tile(tile(0, 1)).is_empty());

    let a = grid.add_no_overlap(entity.clone());
    assert_eq!(a, None);

    grid.remove(&entity_id);
    assert!(grid.get_at_tile(tile(0, 0)).is_empty());
}

fn powered_entities_scenario() {
    let mut grid = BpModel::new();
    let id1 = grid.add_overlap(WorldEntity {
        position: map(0.5, 0.5),
        direction: 0,
        prototype: entity_data(true),
    });
    grid.add_overlap(WorldEntity {
        position: map(2.5, 1.5),
        direction: 0,
        prototype: entity_data(false),
    });

    let pole_data = small_pole_prototype().get().pole_data.unwrap();
    let powered1: Vec<EntityId> =
        grid.powered_entities(map(2.5, 2.5), pole_data).iter().map(|entity| entity.id()).collect();
    assert_eq!(powered1, vec![id1]);
    let powered2: Vec<EntityId> =
        grid.powered_entities(map(3.5, 2.5), pole_data).iter().map(|entity| entity.id()).collect();
    assert_eq!(powered2, vec![]);
}

fn connectable_poles_scenario() {
    let mut grid = BpModel::new();
    let pole1 = grid.add_overlap(WorldEntity {
        position: map(0.5, 0.5),
        direction: 0,
        prototype: small_pole_prototype(),
    });
    let pole2 = grid.add_overlap(WorldEntity {
        position: map(10.5, 1.5),
        direction: 0,
        prototype: small_pole_prototype(),
    });
    let pole_data = small_pole_prototype().get().pole_data.unwrap();
    let connectable1: Vec<EntityId> =
        grid.connectable_poles(map(2.5, 2.5), pole_data).iter().map(|entity| entity.id()).collect();
    assert_eq!(connectable1, vec![pole1]);
    let connectable2: Vec<EntityId> =
        grid.connectable_poles(map(8.5, 2.5), pole_data).iter().map(|entity| entity.id()).collect();
    assert_eq!(connectable2, vec![pole2]);
}

#[test]
fn bp_model_add_and_get() {
    add_and_get_scenario();
}

#[test]
fn bp_model_powered_entities() {
    powered_entities_scenario();
}

#[test]
fn bp_model_connectable_poles() {
    connectable_poles_scenario();
}

#[test]
fn mod_add_and_get() {
    add_and_get_scenario();
}

#[test]
fn mod_powered_entities() {
    powered_entities_scenario();
}

#[test]
fn mod_connectable_poles() {
    connectable_poles_scenario();
}

fn check_nodes(
    model: &BpModel,
    graph: &PoleGraph,
    idx_map: &IdMap,
    poles: [EntityId; 3],
    consumer: EntityId,
) -> (u32, u32, u32) {
    let [p1, p2, p3] = poles;
    let cand = model.to_cand_pole_graph(graph);
    assert_eq!(cand.node_count(), 3);
    assert_eq!(idx_map.ids().len(), 3);
    let i1 = node_of(idx_map, p1);
    let n1 = cand.node_weight(i1);
    assert!(n1.entity.same_as(&model.get(p1).unwrap().entity));
    assert_eq!(id_set_of(&n1.powered_entities), HashSet::from([consumer]));
    let i2 = node_of(idx_map, p2);
    let n2 = cand.node_weight(i2);
    assert!(n2.entity.same_as(&model.get(p2).unwrap().entity));
    assert_eq!(id_set_of(&n2.powered_entities), HashSet::new());
    let i3 = node_of(idx_map, p3);
    let n3 = cand.node_weight(i3);
    assert!(n3.entity.same_as(&model.get(p3).unwrap().entity));
    (i1, i2, i3)
}

#[test]
fn test_pole_graph() {
    let mut model = BpModel::new();
    let p1 = add_test_pole(&mut model, tile(0, 0));
    let p2 = add_test_pole(&mut model, tile(4, 1));
    let p3 = add_test_pole(&mut model, tile(6, 2));
    model.add_cable_connection(p1, p2);
    let e1 = add_test_powerable(&mut model, tile(-2, 1));

    let (graph, idx_map) = model.get_disconnected_pole_graph();
    assert_eq!(graph.edge_count(), 0);
    check_nodes(&model, &graph, &idx_map, [p1, p2, p3], e1);

    let (graph, idx_map) = model.get_current_pole_graph();
    let (i1, i2, i3) = check_nodes(&model, &graph, &idx_map, [p1, p2, p3], e1);
    assert_eq!(graph.edge_count(), 1);
    assert_eq!(graph.neighbors(i1), [i2]);
    assert_eq!(graph.neighbors(i2), [i1]);
    assert_eq!(graph.neighbors(i3), []);

    let (graph, idx_map) = model.get_maximally_connected_pole_graph();
    let (i1, i2, i3) = check_nodes(&model, &graph, &idx_map, [p1, p2, p3], e1);
    assert_eq!(graph.edge_count(), 3);
    assert_eq!(neighbor_set(&graph, i1), HashSet::from([i2, i3]));
    assert_eq!(neighbor_set(&graph, i2), HashSet::from([i1, i3]));
    assert_eq!(neighbor_set(&graph, i3), HashSet::from([i1, i2]));
}

#[test]
fn test_with_all_candidate_poles() {
    let mut model = BpModel::new();
    let e1 = add_test_powerable(&mut model, tile(0, 0));
    let e2 = add_test_powerable(&mut model, tile(1, 1));
    let area = TileBoundingBox::new(tile(0, 0), tile(2, 2));
    let pole_prototype = small_pole_prototype();
    let model2 = model.with_all_candidate_poles(area, &vec![pole_prototype.share()]);
    let at_tile =
        |x, y| model2.get_at_tile(tile(x, y)).iter().map(|e| e.id()).collect::<Vec<_>>();
    assert_eq!(at_tile(0, 0), [e1]);
    assert_eq!(at_tile(1, 1), [e2]);
    let at1 = model2.get_at_tile(tile(1, 0));
    assert_eq!(at1.len(), 1);
    assert!(at1[0].entity.prototype.ptr_eq(&pole_prototype));
    assert_eq!(at1[0].entity.position, tile(1, 0).center_map_pos());
    let at2 = model2.get_at_tile(tile(0, 1));
    assert_eq!(at2.len(), 1);
    assert!(at2[0].entity.prototype.ptr_eq(&pole_prototype));
    assert_eq!(at2[0].entity.position, tile(0, 1).center_map_pos());
}

fn point(x: i64, y: i64) -> MapPosition {
    MapPosition::new(x, y)
}

fn intersecting_segs() -> [(TilePosition, TilePosition, TilePosition, TilePosition); 2] {
    [
        (tile(0, 0), tile(1, 1), tile(0, 1), tile(1, 0)),
        (tile(2, 2), tile(2, 5), tile(0, -1), tile(3, 6)),
    ]
}

fn as_point(t: TilePosition) -> MapPosition {
    point(t.x as i64, t.y as i64)
}

#[test]
fn test_is_left() {
    assert!(is_left(point(0, 0), point(1, 0), point(0, 1)));

    assert!(!is_left(point(0, 0), point(1, 0), point(0, -1)))
}

#[test]
fn test_line_seg_intersects() {
    for (a, b, c, d) in intersecting_segs() {
        let (a, b, c, d) = (as_point(a), as_point(b), as_point(c), as_point(d));
        assert!(line_seg_intersects(a, b, c, d));
        assert!(!line_seg_intersects(a, c, b, d));
    }
}

#[test]
fn test_does_not_allow_crossing() {
    for (a, b, c, d) in intersecting_segs() {
        let mut model = BpModel::new();
        let entities = add_test_poles(&mut model, &[a, b, c, d]);
        let [a, b, c, d] = entities[..4] else { panic!() };
        model.add_cable_connection(a, b);
        let (cur, map) = model.get_current_pole_graph();
        let mut cand = cur.with_nodes(cur.clone_nodes());
        model.maximally_connect_poles(&mut cand, &map);

        let connector = PrettyPoleConnector::default();

        let res = connector.can_connect(&cand, &cur, node_of(&map, c), node_of(&map, d));

        assert!(!res);
    }
}

#[test]
fn test_get_pole_coverage_dict() {
    let mut model = BpModel::new();
    let p1 = add_test_pole(&mut model, tile(0, 0));
    let p2 = add_test_pole(&mut model, tile(4, 1));
    let e1 = add_test_powerable(&mut model, tile(-2, 1));
    let e2 = add_test_powerable(&mut model, tile(2, 1));
    let e3 = add_test_powerable(&mut model, tile(6, 2));

    let (graph, idx_map) = model.get_maximally_connected_pole_graph();
    let graph = graph.to_cand_pole_graph(&model);
    let entity_coverage = get_pole_coverage_dict(&graph);
    assert_eq!(entity_coverage.len(), 3);
    let covering = |id: EntityId| -> HashSet<u32> {
        entity_coverage
            .iter()
            .find(|(consumer, _)| *consumer == id)
            .unwrap()
            .1
            .iter()
            .copied()
            .collect()
    };

    assert_eq!(covering(e1), HashSet::from([node_of(&idx_map, p1)]));
    assert_eq!(covering(e2), HashSet::from([node_of(&idx_map, p1), node_of(&idx_map, p2)]));
    assert_eq!(covering(e3), HashSet::from([node_of(&idx_map, p2)]));
}

/// A choice of least cost that meets every constraint, found by trying all.
fn solve_by_search(problem: &SetCoverProblem) -> Vec<i64> {
    let n = problem.costs.len();
    assert!(n < 20);
    let mut best: Option<(u128, Vec<i64>)> = None;
    for mask in 0u32..(1u32 << n) {
        let values: Vec<i64> =
            (0..n).map(|i| if mask & (1 << i) != 0 { 1_000_000 } else { 0 }).collect();
        if !problem.is_feasible(&values) {
            continue;
        }
        let cost = problem.cost(&values);
        if best.as_ref().map_or(true, |(least, _)| cost < *least) {
            best = Some((cost, values));
        }
    }
    best.unwrap().1
}

fn powered_by(graph: &CandPoleGraph) -> HashSet<EntityId> {
    (0..graph.node_count() as u32)
        .flat_map(|idx| graph.node_weight(idx).powered_entities.ids())
        .collect()
}

#[test]
fn test_simple_instance() {
    let mut model = BpModel::new();
    let e1 = add_test_powerable(&mut model, tile(-2, 1));
    let e2 = add_test_powerable(&mut model, tile(2, 1));
    let e3 = add_test_powerable(&mut model, tile(6, 2));

    let graph = model
        .with_all_candidate_poles(model.get_bounding_box(), &vec![small_pole_prototype()])
        .get_maximally_connected_pole_graph()
        .0
        .to_cand_pole_graph(&model);

    let solver = SetCoverILPSolver { connectivity: None };
    let costs = vec![1_000_000; graph.node_count()];
    let (problem, connected) = solver.formulate(&graph, costs);
    assert!(connected);
    let values = solve_by_search(&problem);
    let subgraph = SetCoverILPSolver::select(&graph, &values);

    assert_eq!(powered_by(&subgraph), HashSet::from([e1, e2, e3]));
    assert_eq!(subgraph.node_count(), 2);
    assert_eq!(problem.cost(&values), 2_000_000);
    let accepted = SetCoverILPSolver::accept(&graph, &problem, &values).unwrap();
    assert_eq!(accepted.node_count(), 2);
    assert_eq!(powered_by(&accepted), HashSet::from([e1, e2, e3]));
    assert!(SetCoverILPSolver::accept(&graph, &problem, &vec![0; values.len()]).is_none());
    assert!(SetCoverILPSolver::accept(&graph, &problem, &values[1..].to_vec()).is_none());
}

fn make_model() -> BpModel {
    let mut model = BpModel::new();
    for x in -1..9 {
        for y in -1..9 {
            let pos = tile(x, y);
            if x + y % 4 < 2 {
                model
                    .add_no_overlap(WorldEntity {
                        position: pos.center_map_pos(),
                        direction: 0,
                        prototype: powerable_prototype(),
                    })
                    .unwrap();
            }
            if x * 2 + 3 * y % 7 % 2 == 0 {
                model.add_overlap(WorldEntity {
                    position: pos.center_map_pos(),
                    direction: 0,
                    prototype: small_pole_prototype(),
                });
            }
        }
    }
    model
}

fn window_correct(model: &BpModel, window: &Moving2DWindow<&BpModel>, expected_pos: TilePosition) {
    assert_eq!(expected_pos, window.top_left());
    let from_model = TileBoundingBox::new(expected_pos, expected_pos.offset(3, 3))
        .iter_tiles()
        .into_iter()
        .flat_map(|pos| model.get_at_tile(pos))
        .map(|entity| entity.id())
        .collect::<HashSet<_>>();
    let from_window = window.cur_items().into_iter().collect::<HashSet<_>>();
    assert_eq!(from_model, from_window);
}

#[test]
fn test_moving_window() {
    let model = make_model();
    let mut window = Moving2DWindow::new(&model, tile(0, 0), 3);
    window_correct(&model, &window, tile(0, 0));
    for x in 0..9 {
        window.move_to(tile(x, 0));
        window_correct(&model, &window, tile(x, 0));
    }
    for x in (0..9).rev() {
        window.move_to(tile(x, 1));
        window_correct(&model, &window, tile(x, 1));
    }
    window.move_to(tile(3, 6));
    window_correct(&model, &window, tile(3, 6));
    for y in 0..9 {
        window.move_to(tile(3, y + 5));
        window_correct(&model, &window, tile(3, y + 5));
    }
    for y in (0..9).rev() {
        window.move_to(tile(4, y + 5));
        window_correct(&model, &window, tile(4, y + 5));
    }
    let mut rand = StdRng::seed_from_u64(42);
    for _ in 0..100 {
        let new_pos = {
            if rand.gen_bool(0.5) {
                let (x, y) = (rand.gen_range(-2..2), rand.gen_range(-2..2));
                window.top_left().offset(x, y)
            } else {
                let (x, y) = (rand.gen_range(-14..14), rand.gen_range(-14..14));
                tile(x, y)
            }
        };
        window.move_to(new_pos);
        window_correct(&model, &window, new_pos);
    }
}

#[test]
fn test_window_params() {
    let pole_data = PoleData { supply_radius: units(2.0), wire_distance: units(3.0) };
    assert_eq!(WireReach::get_radius(pole_data), units(3.0));
    assert_eq!(PoleCoverage::get_radius(pole_data), units(2.0));
}

#[test]
fn test_pole_windows() {
    let prototype = small_pole_prototype();
    let model = BpModel::new();
    let mut wire_windows = WireReachWindows::new(&model, WireReach);
    let mut coverage_windows = PoleCoverageWindows::new(&model, PoleCoverage);
    let entity = WorldEntity { position: map(1.5, 2.5), direction: 0, prototype };

    let wire_window = wire_windows.get_window_for(&entity);
    assert_eq!(wire_window.size(), 15);
    assert_eq!(
        wire_window.top_left(),
        entity.position.translate(-units(7.5), -units(7.5)).tile_pos()
    );
    let coverage_window = coverage_windows.get_window_for(&entity);
    assert_eq!(coverage_window.size(), 5);
    assert_eq!(
        coverage_window.top_left(),
        entity.position.translate(-units(2.5), -units(2.5)).tile_pos()
    );
}

#[test]
fn spanning_forest_joins_what_can_be_joined() {
    let mut model = BpModel::new();
    add_test_poles(&mut model, &[tile(0, 0), tile(3, 0), tile(6, 0), tile(30, 0), tile(33, 0)]);
    let (graph, _) = model.get_maximally_connected_pole_graph();
    assert_eq!(graph.edge_count(), 4);
    let forest = WeightedMSTConnector.connect_poles(&graph);
    assert_eq!(forest.node_count(), 5);
    assert_eq!(forest.edge_count(), 3);
    let weights: Vec<u64> = forest.edge_list().into_iter().map(|e| e.2).collect();
    assert_eq!(weights, vec![3_000_000, 3_000_000, 3_000_000]);
}

#[test]
fn pretty_connector_keeps_degrees_low() {
    let mut model = BpModel::new();
    for x in 0..5 {
        for y in 0..5 {
            add_test_pole(&mut model, tile(2 * x, 2 * y));
        }
    }
    let (graph, _) = model.get_maximally_connected_pole_graph();
    let pretty = PrettyPoleConnector::default().connect_poles(&graph);
    assert_eq!(pretty.node_count(), 25);
    assert!(pretty.edge_count() >= 24);
    for node in 0..25u32 {
        assert!(pretty.neighbors(node).len() <= MAX_DEGREE);
        for other in pretty.neighbors(node) {
            assert!(graph.contains_edge(node, other));
            assert_eq!(pretty.edge_weight(node, other), graph.edge_weight(node, other));
        }
    }
}

#[test]
fn every_entity_is_listed_as_it_is_placed() {
    let mut model = BpModel::new();
    add_test_pole(&mut model, tile(0, 0));
    add_test_powerable(&mut model, tile(3, 1));
    add_test_pole(&mut model, tile(0, 0));
    let mut places: Vec<(i64, i64, bool)> = model
        .all_world_entities()
        .iter()
        .map(|e| (e.position.x, e.position.y, e.prototype.get().is_pole()))
        .collect();
    places.sort();
    assert_eq!(
        places,
        vec![(500_000, 500_000, true), (500_000, 500_000, true), (3_500_000, 1_500_000, false)]
    );
    assert_eq!(BpModel::new().all_world_entities().len(), 0);
}
