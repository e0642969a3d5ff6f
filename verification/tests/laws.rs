use std::collections::HashSet;

use pole_optimizer::better_bp::EntityId;
use pole_optimizer::bp_model::BpModel;
use pole_optimizer::bp_model::WorldEntity;
use pole_optimizer::graph::WeightedGraph;
use pole_optimizer::pole_graph::CandPoleNode;
use pole_optimizer::pole_solver::connections::angle_less;
use pole_optimizer::pole_solver::connections::line_seg_intersects;
use pole_optimizer::pole_solver::connections::orientation;
use pole_optimizer::pole_solver::connections::Angle;
use pole_optimizer::pole_solver::connections::PrettyPoleConnector;
use pole_optimizer::pole_solver::set_cover_ilp::pole_cost;
use pole_optimizer::pole_solver::set_cover_ilp::DistanceConnectivity;
use pole_optimizer::pole_solver::set_cover_ilp::LinkConstraint;
use pole_optimizer::pole_solver::set_cover_ilp::SetCoverProblem;
use pole_optimizer::pole_solver::set_cover_ilp::SetCoverILPSolver;
use pole_optimizer::pole_windows::Moving2DWindow;
use pole_optimizer::position::isqrt;
use pole_optimizer::position::BoundingBox;
use pole_optimizer::position::MapPosition;
use pole_optimizer::position::TileBoundingBox;
use pole_optimizer::position::TilePosition;
use pole_optimizer::prototype_data::EntityPrototype;
use pole_optimizer::prototype_data::EntityPrototypeRef;
use pole_optimizer::prototype_data::PoleData;
use pole_optimizer::rcid::RcId;
use pole_optimizer::tables::IdSet;
use pole_optimizer::topology::hop_cost;

fn units(tiles: f64) -> i64 {
    (tiles * 1_000_000.0).round() as i64
}

fn map(x: f64, y: f64) -> MapPosition {
    MapPosition::new(units(x), units(y))
}

fn tile(x: i32, y: i32) -> TilePosition {
    TilePosition::new(x, y)
}

fn prototype(width: u32, pole: bool, uses_power: bool) -> EntityPrototypeRef {
    let half = width as f64 / 2.0;
    RcId::new(EntityPrototype {
        type_: "test".to_string(),
        name: "test".to_string(),
        tile_width: width,
        tile_height: width,
        collision_box: BoundingBox::new(map(-half, -half), map(half, half)),
        uses_power,
        pole_data: if pole {
            Some(PoleData { wire_distance: units(7.5), supply_radius: units(2.5) })
        } else {
            None
        },
    })
}

fn add(model: &mut BpModel, proto: &EntityPrototypeRef, x: f64, y: f64) -> EntityId {
    model.add_overlap(WorldEntity { position: map(x, y), prototype: proto.share(), direction: 0 })
}

fn ids_at(model: &BpModel, x: i32, y: i32) -> Vec<EntityId> {
    model.ids_at_tile(tile(x, y))
}

fn cables(model: &BpModel, id: EntityId) -> HashSet<EntityId> {
    model.get(id).unwrap().pole_data().unwrap().1.connections.ids().into_iter().collect()
}

#[test]
fn an_entity_stands_on_exactly_the_tiles_it_overlaps() {
    let mut model = BpModel::new();
    let big = prototype(2, false, false);
    let small = prototype(1, false, false);
    let a = add(&mut model, &big, 1.0, 1.0);
    let b = add(&mut model, &small, 1.5, 1.5);
    assert_eq!(ids_at(&model, 0, 0), vec![a]);
    assert_eq!(ids_at(&model, 0, 1), vec![a]);
    assert_eq!(ids_at(&model, 1, 0), vec![a]);
    assert_eq!(ids_at(&model, 1, 1), vec![a, b]);
    for (x, y) in [(-1, 0), (2, 1), (1, 2), (0, -1), (2, 2)] {
        assert_eq!(ids_at(&model, x, y), vec![]);
        assert!(!model.occupied(tile(x, y)));
    }
    assert!(model.occupied(tile(1, 1)));
    model.remove(&a);
    assert_eq!(ids_at(&model, 0, 0), vec![]);
    assert_eq!(ids_at(&model, 1, 1), vec![b]);
    assert!(!model.occupied(tile(0, 0)));
    assert!(model.get(a).is_none());
    assert_eq!(model.next_id(), EntityId(3));
    let c = add(&mut model, &small, 0.5, 0.5);
    assert_eq!(c, EntityId(3));
}

#[test]
fn a_turned_entity_overlaps_the_turned_box() {
    let mut model = BpModel::new();
    let long = RcId::new(EntityPrototype {
        type_: "test".to_string(),
        name: "long".to_string(),
        tile_width: 1,
        tile_height: 2,
        collision_box: BoundingBox::new(map(-0.4, -0.9), map(0.4, 0.9)),
        uses_power: false,
        pole_data: None,
    });
    let upright = WorldEntity { position: map(0.5, 1.0), prototype: long.share(), direction: 0 };
    assert_eq!(upright.world_bbox(), BoundingBox::new(map(0.1, 0.1), map(0.9, 1.9)));
    let a = model.add_overlap(upright);
    let lying = WorldEntity { position: map(5.0, 0.5), prototype: long.share(), direction: 2 };
    assert_eq!(lying.local_bbox(), BoundingBox::new(map(-0.9, -0.4), map(0.9, 0.4)));
    let b = model.add_overlap(lying);
    assert_eq!(ids_at(&model, 0, 0), vec![a]);
    assert_eq!(ids_at(&model, 0, 1), vec![a]);
    assert_eq!(ids_at(&model, 4, 0), vec![b]);
    assert_eq!(ids_at(&model, 5, 0), vec![b]);
    assert_eq!(ids_at(&model, 5, 1), vec![]);
    assert_eq!(model.get_bounding_box(), TileBoundingBox::new(tile(0, 0), tile(6, 2)));
}

#[test]
fn cables_are_mutual_and_stay_so() {
    let mut model = BpModel::new();
    let pole = prototype(1, true, false);
    let a = add(&mut model, &pole, 0.5, 0.5);
    let b = add(&mut model, &pole, 3.5, 0.5);
    let c = add(&mut model, &pole, 6.5, 0.5);
    assert_eq!(model.add_cable_connection(a, b), Some(()));
    assert_eq!(model.add_cable_connection(b, a), Some(()));
    assert_eq!(model.add_cable_connection(c, b), Some(()));
    assert_eq!(cables(&model, a), HashSet::from([b]));
    assert_eq!(cables(&model, b), HashSet::from([a, c]));
    assert_eq!(cables(&model, c), HashSet::from([b]));
    model.remove(&a);
    // The cable to the pole that left is gone at its other end too.
    assert_eq!(cables(&model, b), HashSet::from([c]));
    assert_eq!(cables(&model, c), HashSet::from([b]));
    assert_eq!(model.add_cable_connection(a, c), None);
    for x in [b, c] {
        for y in [b, c] {
            assert_eq!(cables(&model, x).contains(&y), cables(&model, y).contains(&x));
        }
    }
}

#[test]
fn a_cable_needs_two_different_poles_within_reach() {
    let mut model = BpModel::new();
    let pole = prototype(1, true, false);
    let chest = prototype(1, false, false);
    let a = add(&mut model, &pole, 0.5, 0.5);
    let far = add(&mut model, &pole, 8.5, 0.5);
    let edge = add(&mut model, &pole, 0.5, 8.0);
    let box_ = add(&mut model, &chest, 1.5, 0.5);
    assert_eq!(model.add_cable_connection(a, a), None);
    assert_eq!(model.add_cable_connection(a, box_), None);
    assert_eq!(model.add_cable_connection(box_, a), None);
    assert_eq!(model.add_cable_connection(a, far), None);
    assert_eq!(model.add_cable_connection(a, EntityId(99)), None);
    assert_eq!(cables(&model, a), HashSet::new());
    assert_eq!(model.add_cable_connection(a, edge), Some(()));
    assert_eq!(cables(&model, a), HashSet::from([edge]));
}

#[test]
fn a_pole_exactly_at_wire_distance_is_within_reach() {
    let mut model = BpModel::new();
    let pole = prototype(1, true, false);
    let at = add(&mut model, &pole, 8.0, 0.5);
    let beyond = add(&mut model, &pole, 0.5, 8.000002);
    let data = pole.get().pole_data.unwrap();
    let target = model.get(at).unwrap().entity.clone();
    assert!(model.is_connectable_pole(map(0.5, 0.5), data, &target));
    let target = model.get(beyond).unwrap().entity.clone();
    assert!(!model.is_connectable_pole(map(0.5, 0.5), data, &target));
    let found: Vec<EntityId> =
        model.connectable_poles(map(0.5, 0.5), data).iter().map(|e| e.id()).collect();
    assert_eq!(found, vec![at]);
}

#[test]
fn the_search_area_grows_by_whole_tiles() {
    let mut model = BpModel::new();
    assert_eq!(model.get_bounding_box(), TileBoundingBox::new(tile(0, 0), tile(1, 1)));
    let chest = prototype(1, false, false);
    add(&mut model, &chest, -2.5, 3.5);
    add(&mut model, &chest, 4.5, 1.5);
    let tight = TileBoundingBox::new(tile(-3, 1), tile(5, 4));
    assert_eq!(model.get_bounding_box(), tight);
    assert_eq!(model.expanded_bounding_box(0), tight);
    assert_eq!(model.expanded_bounding_box(1), TileBoundingBox::new(tile(-4, 0), tile(6, 5)));
    assert_eq!(model.expanded_bounding_box(3), TileBoundingBox::new(tile(-6, -2), tile(8, 7)));
}

#[test]
fn entities_come_in_grid_order() {
    let mut model = BpModel::new();
    let chest = prototype(1, false, false);
    let big = prototype(2, false, false);
    let a = add(&mut model, &chest, 5.5, 0.5);
    let b = add(&mut model, &big, 1.0, 3.0);
    let c = add(&mut model, &chest, 0.5, 9.5);
    let d = add(&mut model, &chest, 0.5, -4.5);
    let order: Vec<EntityId> = model.all_entities_grid_order().iter().map(|e| e.id()).collect();
    assert_eq!(order, vec![d, b, c, a]);
    let tiles = model.tiles_in_grid_order();
    assert_eq!(
        tiles,
        vec![tile(0, -5), tile(0, 2), tile(0, 3), tile(0, 9), tile(1, 2), tile(1, 3), tile(5, 0)]
    );
    model.retain(|e| e.id() != b);
    let order: Vec<EntityId> = model.all_entities_grid_order().iter().map(|e| e.id()).collect();
    assert_eq!(order, vec![d, c, a]);
    model.remove_all_poles();
    assert_eq!(model.all_ids().len(), 3);
}

#[test]
fn removing_all_poles_leaves_the_rest() {
    let mut model = BpModel::new();
    let pole = prototype(1, true, false);
    let chest = prototype(1, false, true);
    let a = add(&mut model, &pole, 0.5, 0.5);
    let b = add(&mut model, &chest, 1.5, 0.5);
    let c = add(&mut model, &pole, 1.5, 0.5);
    model.remove_all_poles();
    assert!(model.get(a).is_none());
    assert!(model.get(c).is_none());
    assert!(model.get(b).is_some());
    assert_eq!(ids_at(&model, 1, 0), vec![b]);
    assert!(!model.occupied(tile(0, 0)));
    assert!(!model.can_place(&WorldEntity {
        position: map(1.5, 0.5),
        prototype: pole.share(),
        direction: 0
    }));
    assert!(model.can_place(&WorldEntity {
        position: map(0.5, 0.5),
        prototype: pole.share(),
        direction: 0
    }));
}

#[test]
fn a_moved_window_counts_like_a_fresh_one() {
    let mut model = BpModel::new();
    let big = prototype(2, false, false);
    let a = add(&mut model, &big, 1.0, 1.0);
    let b = add(&mut model, &big, 4.0, 1.0);
    let moved = {
        let mut window = Moving2DWindow::new(&model, tile(-5, -5), 3);
        assert_eq!(window.cur_items(), vec![]);
        window.move_to(tile(-4, -4));
        window.move_to(tile(1, 0));
        window.move_to(tile(2, 0));
        window.move_to(tile(1, 1));
        window.cur_items().into_iter().collect::<HashSet<_>>()
    };
    let fresh = Moving2DWindow::new(&model, tile(1, 1), 3);
    assert_eq!(moved, fresh.cur_items().into_iter().collect::<HashSet<_>>());
    assert_eq!(moved, HashSet::from([a, b]));
    let empty = Moving2DWindow::new(&model, tile(0, 0), 0);
    assert_eq!(empty.cur_items(), vec![]);
}

#[test]
fn square_roots_round_down() {
    assert_eq!(isqrt(0), 0);
    assert_eq!(isqrt(1), 1);
    assert_eq!(isqrt(24), 4);
    assert_eq!(isqrt(25), 5);
    assert_eq!(isqrt(26), 5);
    assert_eq!(isqrt(32_000_000_000_000_000_000_000_000_000_000), 5_656_854_249_492_380);
    assert_eq!(map(0.5, 0.5).distance_to(&map(3.5, 4.5)), 5_000_000);
    assert_eq!(map(0.0, 0.0).distance_to(&map(1.0, 1.0)), 1_414_213);
}

#[test]
fn wires_along_an_axis_come_first() {
    let along = PrettyPoleConnector::edge_weight(3_000_000, map(0.0, 0.0), map(3.0, 0.0));
    assert_eq!(along, 1_000_000);
    let upwards = PrettyPoleConnector::edge_weight(3_000_000, map(0.0, 0.0), map(0.0, -3.0));
    assert_eq!(upwards, 1_000_000);
    let diagonal = PrettyPoleConnector::edge_weight(4_242_640, map(0.0, 0.0), map(3.0, 3.0));
    assert_eq!(diagonal, 4_242_640);
    let slanted = PrettyPoleConnector::edge_weight(5_000_000, map(0.0, 0.0), map(3.0, 4.0));
    assert_eq!(slanted, 5_000_000 * 25 / 27);
    let nowhere = PrettyPoleConnector::edge_weight(7, map(1.0, 1.0), map(1.0, 1.0));
    assert_eq!(nowhere, 7);
}

#[test]
fn angles_are_compared_exactly() {
    let thirty = Angle::degrees_30();
    let hundred = Angle::degrees_100();
    assert!(angle_less((1_000, 0), (1_000, 577), thirty));
    assert!(!angle_less((1_000, 0), (1_000, 578), thirty));
    assert!(angle_less((1_000, 0), (1_000, -577), thirty));
    assert!(!angle_less((1_000, 0), (-1_000, 0), thirty));
    assert!(angle_less((1_000, 0), (0, 1_000), hundred));
    assert!(angle_less((1_000, 0), (-176, 1_000), hundred));
    assert!(!angle_less((1_000, 0), (-177, 1_000), hundred));
    assert!(angle_less((0, 5), (0, 9), Angle::new(1, 0)) == false);
    assert_eq!(orientation(map(0.0, 0.0), map(2.0, 0.0), map(0.0, 3.0)), 6_000_000_000_000);
    assert_eq!(orientation(map(0.0, 0.0), map(0.0, 3.0), map(2.0, 0.0)), -6_000_000_000_000);
}

fn line_of_poles(places: &[(f64, f64)]) -> (BpModel, Vec<EntityId>) {
    let mut model = BpModel::new();
    let pole = prototype(1, true, false);
    let ids = places.iter().map(|&(x, y)| add(&mut model, &pole, x, y)).collect();
    (model, ids)
}

#[test]
fn wires_keep_their_distance_at_a_pole() {
    let (mut model, ids) = line_of_poles(&[(0.5, 0.5), (4.5, 0.5), (4.5, 1.5), (0.5, 4.5)]);
    model.add_cable_connection(ids[0], ids[1]);
    let (cur, map_) = model.get_current_pole_graph();
    let (cand, _) = model.get_maximally_connected_pole_graph();
    let node = |i: usize| map_.lookup(ids[i]).unwrap();
    let connector = PrettyPoleConnector::default();
    assert!(!connector.can_connect(&cand, &cur, node(0), node(1)));
    assert!(!connector.can_connect(&cand, &cur, node(0), node(2)));
    assert!(connector.can_connect(&cand, &cur, node(0), node(3)));
    let wide = PrettyPoleConnector { min_angle: Angle::new(1, 0), min_adjacent_angle: Angle::new(1, 0) };
    assert!(wide.can_connect(&cand, &cur, node(0), node(2)));
}

#[test]
fn a_new_wire_is_not_pinched_between_two() {
    let (mut model, ids) =
        line_of_poles(&[(0.5, 0.5), (4.5, -2.5), (4.5, 3.5), (5.5, 0.5), (-3.5, 0.5)]);
    model.add_cable_connection(ids[0], ids[1]);
    model.add_cable_connection(ids[0], ids[2]);
    let (cur, map_) = model.get_current_pole_graph();
    let (cand, _) = model.get_maximally_connected_pole_graph();
    let node = |i: usize| map_.lookup(ids[i]).unwrap();
    let connector = PrettyPoleConnector::default();
    assert!(!connector.can_connect(&cand, &cur, node(0), node(3)));
    assert!(connector.can_connect(&cand, &cur, node(0), node(4)));
}

#[test]
fn no_pole_holds_more_than_five_wires() {
    let (mut model, ids) = line_of_poles(&[
        (0.5, 0.5),
        (5.5, 0.5),
        (-4.5, 0.5),
        (0.5, 5.5),
        (0.5, -4.5),
        (4.5, 4.5),
        (-3.5, -3.5),
    ]);
    for other in &ids[1..6] {
        assert_eq!(model.add_cable_connection(ids[0], *other), Some(()));
    }
    let (cur, map_) = model.get_current_pole_graph();
    let (cand, _) = model.get_maximally_connected_pole_graph();
    let node = |i: usize| map_.lookup(ids[i]).unwrap();
    assert_eq!(cur.neighbors(node(0)).len(), 5);
    let wide = PrettyPoleConnector { min_angle: Angle::new(1, 0), min_adjacent_angle: Angle::new(1, 0) };
    assert!(!wide.can_connect(&cand, &cur, node(0), node(6)));
    assert!(!wide.can_connect(&cand, &cur, node(6), node(0)));
}

fn candidate_graph(places: &[(f64, f64)], edges: &[(u32, u32)]) -> WeightedGraph<CandPoleNode> {
    let pole = prototype(1, true, false);
    let mut graph = WeightedGraph::new_undirected();
    for &(x, y) in places {
        graph.add_node(CandPoleNode {
            entity: WorldEntity { position: map(x, y), prototype: pole.share(), direction: 0 },
            powered_entities: IdSet::empty(),
        });
    }
    for &(a, b) in edges {
        let weight = graph.node_weight(a).entity.position.distance_to(&graph.node_weight(b).entity.position);
        graph.add_edge(a, b, weight);
    }
    graph
}

#[test]
fn the_roots_are_a_clique_about_the_centre() {
    let graph = candidate_graph(
        &[(0.5, 0.5), (10.5, 0.5), (5.5, 0.5), (6.5, 0.5), (5.5, 3.5)],
        &[(0, 2), (2, 3), (3, 1), (2, 4)],
    );
    let centre = DistanceConnectivity { center_rel_pos: (500_000, 0) };
    assert_eq!(centre.find_root_poles(&graph), vec![2, 3]);
    let corner = DistanceConnectivity { center_rel_pos: (0, 1_000_000) };
    assert_eq!(corner.find_root_poles(&graph), vec![0, 2]);
    assert_eq!(DistanceConnectivity::maximal_clique(&graph, &vec![4, 2, 0, 3]), vec![4, 2]);
    assert_eq!(DistanceConnectivity::maximal_clique(&graph, &vec![]), vec![]);
}

#[test]
fn poles_are_pulled_towards_the_roots() {
    let graph = candidate_graph(
        &[(0.5, 0.5), (10.5, 0.5), (5.5, 0.5), (6.5, 0.5), (5.5, 3.5), (30.5, 0.5)],
        &[(0, 2), (2, 3), (3, 1), (2, 4), (0, 4)],
    );
    let centre = DistanceConnectivity { center_rel_pos: (200_000, 0) };
    assert_eq!(centre.find_root_poles(&graph), vec![3, 2]);
    let (links, connected) = centre.connectivity_constraints(&graph);
    assert!(!connected);
    let listed: Vec<(u32, Vec<u32>)> =
        links.iter().map(|link| (link.pole, link.toward.clone())).collect();
    assert_eq!(listed, vec![(0, vec![4, 2]), (1, vec![3]), (4, vec![2])]);
    let costs = graph.shortest_costs(3, &vec![false, false, true, true, false, false]);
    assert_eq!(
        costs,
        vec![Some(8_000_000), Some(7_000_000), Some(0), Some(0), Some(6_000_000), None]
    );
    let solver = SetCoverILPSolver { connectivity: Some(centre) };
    let (problem, connected) = solver.formulate(&graph, vec![1; 6]);
    assert!(!connected);
    assert_eq!(problem.links.len(), 3);
    assert_eq!(problem.cover.len(), 0);
    assert_eq!(problem.costs, vec![1; 6]);
}

#[test]
fn a_step_to_a_root_is_free() {
    let free = vec![false, true];
    assert_eq!(hop_cost(&free, 1, 5_000_000), 0);
    assert_eq!(hop_cost(&free, 0, 5_000_000), 8_000_000);
    assert_eq!(hop_cost(&free, 0, 0), 3_000_000);
}

#[test]
fn the_cost_of_a_pole_grows_with_its_distance() {
    assert_eq!(pole_cost(1_000_000, map(0.0, 0.0), map(0.0, 0.0), 1_000_000), 1_000_000);
    assert_eq!(pole_cost(1_000_000, map(30.0, 40.0), map(0.0, 0.0), 1_000_000), 1_005_000);
    assert_eq!(pole_cost(2_500_000, map(30.0, 40.0), map(0.0, 0.0), 0), 2_500_000);
    assert_eq!(pole_cost(0, map(0.0, 1.0), map(0.0, 0.0), 1_000_000), 100);
}

#[test]
fn the_chosen_poles_keep_their_wires() {
    let graph = candidate_graph(
        &[(0.5, 0.5), (3.5, 0.5), (6.5, 0.5), (9.5, 0.5)],
        &[(0, 1), (1, 2), (2, 3), (0, 2)],
    );
    let part = SetCoverILPSolver::select(&graph, &vec![1_000_000, 500_000, 500_001, 999_999]);
    assert_eq!(part.node_count(), 3);
    assert_eq!(part.node_weight(0).entity.position, map(0.5, 0.5));
    assert_eq!(part.node_weight(1).entity.position, map(6.5, 0.5));
    assert_eq!(part.node_weight(2).entity.position, map(9.5, 0.5));
    assert_eq!(part.edge_list(), vec![(1, 2, 3_000_000), (0, 1, 6_000_000)]);
    let none = SetCoverILPSolver::select(&graph, &vec![0, 0, 0, 0]);
    assert_eq!(none.node_count(), 0);
    assert_eq!(none.edge_count(), 0);
}

#[test]
fn updating_an_edge_keeps_one_edge_per_pair() {
    let mut graph = candidate_graph(&[(0.5, 0.5), (3.5, 0.5), (6.5, 0.5)], &[(0, 1)]);
    assert_eq!(graph.update_edge(1, 0, 7), 0);
    assert_eq!(graph.update_edge(2, 1, 9), 1);
    assert_eq!(graph.edge_list(), vec![(0, 1, 7), (2, 1, 9)]);
    assert_eq!(graph.edge_weight(0, 1), Some(7));
    assert_eq!(graph.edge_weight(1, 2), Some(9));
    assert_eq!(graph.edge_weight(0, 2), None);
    assert!(graph.contains_edge(1, 0));
    assert!(!graph.contains_edge(2, 0));
    assert_eq!(graph.neighbors(1), vec![2, 0]);
    assert_eq!(graph.neighbors(2), vec![1]);
    assert_eq!(graph.node_count(), 3);
    assert_eq!(graph.edge_count(), 2);
}

#[test]
fn poles_of_a_graph_are_added_in_turn_with_their_wires() {
    let mut model = BpModel::new();
    let chest = add(&mut model, &prototype(1, false, false), 3.5, 0.5);
    let old = add(&mut model, &prototype(1, true, false), 20.5, 0.5);
    // Node 1 stands on the chest, node 3 on node 0; nodes 2 and 4 are too far
    // apart for the wire that the graph asks for.
    let graph = candidate_graph(
        &[(0.5, 0.5), (3.5, 0.5), (6.5, 0.5), (0.5, 0.5), (16.5, 0.5)],
        &[(0, 2), (0, 1), (2, 4), (3, 2)],
    );
    let added = model.add_from_pole_graph(&graph);
    assert_eq!(
        added,
        vec![Some(EntityId(3)), None, Some(EntityId(4)), None, Some(EntityId(5))]
    );
    assert_eq!(model.next_id(), EntityId(6));
    assert_eq!(ids_at(&model, 0, 0), vec![EntityId(3)]);
    assert_eq!(ids_at(&model, 3, 0), vec![chest]);
    assert_eq!(ids_at(&model, 6, 0), vec![EntityId(4)]);
    assert_eq!(ids_at(&model, 16, 0), vec![EntityId(5)]);
    assert_eq!(cables(&model, EntityId(3)), HashSet::from([EntityId(4)]));
    assert_eq!(cables(&model, EntityId(4)), HashSet::from([EntityId(3)]));
    assert_eq!(cables(&model, EntityId(5)), HashSet::new());
    assert_eq!(cables(&model, old), HashSet::new());
    assert_eq!(model.all_ids().len(), 5);
}

#[test]
fn a_solution_is_held_against_every_constraint() {
    let problem = SetCoverProblem {
        costs: vec![3_000_000, 1_500_000, 2, u64::MAX],
        cover: vec![vec![0, 1], vec![2]],
        links: vec![LinkConstraint { pole: 0, toward: vec![3, 1] }],
    };
    // A pole is chosen where its value is more than a half.
    assert!(problem.is_feasible(&vec![0, 500_001, 1_000_000, 0]));
    assert!(!problem.is_feasible(&vec![0, 500_000, 1_000_000, 0]));
    assert!(!problem.is_feasible(&vec![0, 1_000_000, 0, 1_000_000]));
    // Pole 0 needs pole 3 or pole 1 beside it.
    assert!(!problem.is_feasible(&vec![1_000_000, 0, 1_000_000, 0]));
    assert!(problem.is_feasible(&vec![1_000_000, 0, 1_000_000, 1_000_000]));
    assert!(problem.is_feasible(&vec![1_000_000, 1_000_000, 1_000_000, 0]));
    assert!(!problem.is_feasible(&vec![0, 1_000_000, 1_000_000]));
    assert!(!problem.is_feasible(&vec![0, 1_000_000, 1_000_000, 0, 0]));
    assert_eq!(problem.cost(&vec![0, 1_000_000, 1_000_000, 0]), 1_500_002);
    assert_eq!(problem.cost(&vec![1_000_000, -5, 0, 600_000]), 3_000_000 + u64::MAX as u128);
    assert_eq!(problem.cost(&vec![0, 0, 0, 0]), 0);
    let none = SetCoverProblem { costs: vec![], cover: vec![], links: vec![] };
    assert!(none.is_feasible(&vec![]));
    let stuck = SetCoverProblem { costs: vec![1], cover: vec![vec![]], links: vec![] };
    assert!(!stuck.is_feasible(&vec![1_000_000]));
}

fn wire_set(graph: &WeightedGraph<CandPoleNode>) -> HashSet<(u32, u32)> {
    graph.edge_list().iter().map(|&(a, b, _)| (a.min(b), a.max(b))).collect()
}

#[test]
fn drawn_wires_are_few_apart_and_stay_when_drawn_again() {
    // Poles three tiles apart in four rows of four, and every wire that is
    // short enough between them.
    let places: Vec<(f64, f64)> =
        (0..16).map(|i| ((i % 4) as f64 * 3.0 + 0.5, (i / 4) as f64 * 3.0 + 0.5)).collect();
    let mut edges = Vec::new();
    for a in 0..16u32 {
        for b in a + 1..16 {
            let (dx, dy) = (places[a as usize].0 - places[b as usize].0, places[a as usize].1 - places[b as usize].1);
            if dx * dx + dy * dy <= 7.5 * 7.5 {
                edges.push((a, b));
            }
        }
    }
    let graph = candidate_graph(&places, &edges);
    let connector = PrettyPoleConnector::default();
    let once = connector.connect(&graph);

    assert_eq!(once.node_count(), 16);
    assert!(wire_set(&once).is_subset(&wire_set(&graph)));
    for node in 0..16 {
        assert!(once.neighbors(node).len() <= 5);
    }
    // Every pole is reached from the first.
    let mut reached = HashSet::from([0u32]);
    let mut frontier = vec![0u32];
    while let Some(node) = frontier.pop() {
        for next in once.neighbors(node) {
            if reached.insert(next) {
                frontier.push(next);
            }
        }
    }
    assert_eq!(reached.len(), 16);
    // No two wires without a common end cross.
    let wires: Vec<(u32, u32)> = wire_set(&once).into_iter().collect();
    let place = |n: u32| once.node_weight(n).entity.position;
    for &(a, b) in &wires {
        for &(c, d) in &wires {
            if a != c && a != d && b != c && b != d {
                assert!(!line_seg_intersects(place(a), place(b), place(c), place(d)));
            }
        }
    }
    let again = connector.connect(&once);
    assert_eq!(wire_set(&again), wire_set(&once));
}

#[test]
fn removing_poles_takes_their_cables_along() {
    let mut model = BpModel::new();
    let pole = prototype(1, true, false);
    let chest = prototype(1, false, false);
    let a = add(&mut model, &pole, 0.5, 0.5);
    let b = add(&mut model, &pole, 3.5, 0.5);
    let c = add(&mut model, &pole, 6.5, 0.5);
    let d = add(&mut model, &pole, 3.5, 3.5);
    let e = add(&mut model, &chest, 9.5, 0.5);
    for (x, y) in [(a, b), (b, c), (b, d), (a, d)] {
        assert_eq!(model.add_cable_connection(x, y), Some(()));
    }
    model.retain(|entity| entity.id() != b && entity.id() != c);
    assert_eq!(model.all_ids().len(), 3);
    assert_eq!(cables(&model, a), HashSet::from([d]));
    assert_eq!(cables(&model, d), HashSet::from([a]));
    assert!(model.get(e).is_some());
    model.remove(&d);
    assert_eq!(cables(&model, a), HashSet::new());
    model.remove(&e);
    model.remove(&a);
    assert_eq!(model.all_ids().len(), 0);
    assert!(!model.occupied(tile(0, 0)));
}

#[test]
fn a_pole_without_a_nearer_neighbour_may_not_be_chosen() {
    let graph = candidate_graph(&[(0.5, 0.5), (3.5, 0.5), (6.5, 0.5)], &[(0, 1), (1, 2)]);
    // By these costs pole 2 has a cost and no neighbour that is nearer.
    let (links, connected) = DistanceConnectivity::link_constraints(
        &graph,
        &vec![true, false, false],
        &vec![Some(0), Some(9), Some(4)],
    );
    assert!(connected);
    let listed: Vec<(u32, Vec<u32>)> =
        links.iter().map(|link| (link.pole, link.toward.clone())).collect();
    assert_eq!(listed, vec![(1, vec![2, 0]), (2, vec![])]);
    let problem = SetCoverProblem { costs: vec![1, 1, 1], cover: vec![], links };
    assert!(!problem.is_feasible(&vec![0, 0, 1_000_000]));
    assert!(problem.is_feasible(&vec![1_000_000, 1_000_000, 0]));
}

#[test]
fn poles_off_the_middle_of_their_tiles_are_joined_when_in_reach() {
    let slim = RcId::new(EntityPrototype {
        type_: "electric-pole".to_string(),
        name: "slim".to_string(),
        tile_width: 1,
        tile_height: 1,
        collision_box: BoundingBox::new(map(-0.15, -0.15), map(0.15, 0.15)),
        uses_power: false,
        pole_data: Some(PoleData { wire_distance: units(7.5), supply_radius: units(2.5) }),
    });
    assert!(slim.get().is_valid());
    let mut model = BpModel::new();
    let a = add(&mut model, &slim, 0.9, 0.5);
    let b = add(&mut model, &slim, 8.4, 0.5);
    let c = add(&mut model, &slim, 8.4, 0.6);
    let d = add(&mut model, &slim, 0.9, -7.0);
    let e = add(&mut model, &slim, -6.6, 0.5);
    let (graph, nodes) = model.get_maximally_connected_pole_graph();
    let node = |id: EntityId| nodes.lookup(id).unwrap();
    // Exactly the wire's length away, to the right, above and to the left.
    assert_eq!(graph.edge_weight(node(a), node(b)), Some(7_500_000));
    assert_eq!(graph.edge_weight(node(a), node(d)), Some(7_500_000));
    assert_eq!(graph.edge_weight(node(a), node(e)), Some(7_500_000));
    // A little more than the wire's length away.
    assert_eq!(graph.edge_weight(node(a), node(c)), None);
    assert_eq!(graph.edge_weight(node(b), node(c)), Some(100_000));
    assert_eq!(graph.edge_count(), 4);
}

#[test]
fn a_pole_stands_on_its_footprint() {
    let mut beside = EntityPrototype {
        type_: "electric-pole".to_string(),
        name: "beside".to_string(),
        tile_width: 1,
        tile_height: 1,
        collision_box: BoundingBox::new(map(0.0, -0.5), map(0.5, 0.5)),
        uses_power: false,
        pole_data: Some(PoleData { wire_distance: units(7.5), supply_radius: units(2.5) }),
    };
    assert!(!beside.is_valid());
    beside.collision_box = BoundingBox::new(map(-0.5, -0.5), map(0.5, 0.0));
    assert!(!beside.is_valid());
    beside.collision_box = BoundingBox::new(MapPosition::new(-1, -1), MapPosition::new(1, 1));
    assert!(beside.is_valid());
    // What is no pole may stand beside its position.
    beside.pole_data = None;
    beside.collision_box = BoundingBox::new(map(0.5, 0.5), map(1.5, 1.5));
    assert!(beside.is_valid());
}

#[test]
fn the_centre_may_lie_beside_the_poles() {
    let graph = candidate_graph(
        &[(0.5, 0.5), (10.5, 0.5), (5.5, 0.5), (6.5, 0.5), (5.5, 3.5)],
        &[(0, 2), (2, 3), (3, 1), (2, 4)],
    );
    // Far to the left of the poles the first pole is the nearest; far to
    // the right, the second.
    let left = DistanceConnectivity { center_rel_pos: (-2_000_000_000, 500_000) };
    assert_eq!(left.find_root_poles(&graph), vec![0, 2]);
    let right = DistanceConnectivity { center_rel_pos: (2_000_000_000, 500_000) };
    assert_eq!(right.find_root_poles(&graph), vec![1, 3]);
    let middle = DistanceConnectivity { center_rel_pos: (500_000, 0) };
    assert_eq!(middle.find_root_poles(&graph), vec![2, 3]);
}

#[test]
fn the_search_for_partners_reaches_as_far_as_the_wire() {
    let slim = RcId::new(EntityPrototype {
        type_: "electric-pole".to_string(),
        name: "slim".to_string(),
        tile_width: 1,
        tile_height: 1,
        collision_box: BoundingBox::new(map(-0.15, -0.15), map(0.15, 0.15)),
        uses_power: false,
        pole_data: Some(PoleData { wire_distance: units(7.5), supply_radius: units(2.5) }),
    });
    let data = slim.get().pole_data.unwrap();
    let mut model = BpModel::new();
    let right = add(&mut model, &slim, 8.4, 0.5);
    let left = add(&mut model, &slim, -6.6, 0.5);
    let below = add(&mut model, &slim, 0.9, 8.0);
    let beyond = add(&mut model, &slim, 8.4, 0.6);
    let chest = add(&mut model, &prototype(1, false, false), 1.5, 0.5);
    let found: HashSet<EntityId> =
        model.connectable_poles(map(0.9, 0.5), data).iter().map(|e| e.id()).collect();
    assert_eq!(found, HashSet::from([right, left, below]));
    assert!(!found.contains(&beyond) && !found.contains(&chest));
}
