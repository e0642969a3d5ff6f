//! The choice of poles as a set-cover problem: one yes-or-no variable per
//! candidate pole, a constraint per power consumer, and constraints that
//! pull the chosen poles together.

use crate::better_bp::EntityId;
use crate::graph::WeightedGraph;
use crate::pole_graph::CandPoleGraph;
use crate::pole_graph::CandPoleNode;
use crate::pole_graph::WithPosition;
use crate::pole_solver::get_pole_coverage_dict;
use crate::pole_solver::is_coverage_dict;
use crate::pole_solver::powers;
use crate::position::MapPosition;
use crate::sorting::lemma_sorted_distinct;
use crate::sorting::lemma_sorted_unique;
use crate::sorting::sorted_pairs;
use crate::sorting::strictly_ascending;
use crate::topology::shortest_costs;
use vstd::prelude::*;

verus! {

/// One part in a million: the unit of relative positions, of costs and of
/// the values of a solution.
pub const MILLION: i64 = 1_000_000;

/// The constraint that pole `pole` may be chosen only together with one of
/// the poles `toward`.
#[derive(Debug)]
pub struct LinkConstraint {
    pub pole: u32,
    pub toward: Vec<u32>,
}

/// A set-cover problem over the candidate poles of a graph. The variable of
/// a pole has the number of its node.
#[derive(Debug)]
pub struct SetCoverProblem {
    /// The cost of choosing each pole, in millionths.
    pub costs: Vec<u64>,
    /// For every power consumer that can be covered, the poles of which one
    /// at least has to be chosen.
    pub cover: Vec<Vec<u32>>,
    /// The constraints that pull the chosen poles together.
    pub links: Vec<LinkConstraint>,
}

/// Whether one of the poles `list` is chosen by `solution`.
pub open spec fn chooses_one(solution: Seq<bool>, list: Seq<u32>) -> bool {
    exists|j: int| 0 <= j < list.len() && (#[trigger] list[j]) < solution.len() && solution[list[j] as int]
}

/// The cost of the poles that `solution` chooses among the first `upto`.
pub open spec fn spec_cost(costs: Seq<u64>, solution: Seq<bool>, upto: nat) -> nat
    decreases upto,
{
    if upto == 0 {
        0
    } else {
        spec_cost(costs, solution, (upto - 1) as nat) + (if solution[upto - 1] {
            costs[upto - 1] as nat
        } else {
            0
        })
    }
}

impl SetCoverProblem {
    /// Whether `solution`, which tells for every pole whether it is chosen,
    /// meets every constraint.
    pub open spec fn feasible(&self, solution: Seq<bool>) -> bool {
        &&& solution.len() == self.costs@.len()
        &&& forall|k: int| 0 <= k < self.cover@.len() ==> chooses_one(solution, (#[trigger] self.cover@[k])@)
        &&& forall|k: int|
            0 <= k < self.links@.len() && (#[trigger] self.links@[k]).pole < solution.len()
                && solution[self.links@[k].pole as int] ==> chooses_one(
                solution,
                self.links@[k].toward@,
            )
    }

    /// What `solution` costs: the sum of the costs of the poles it chooses.
    pub open spec fn objective(&self, solution: Seq<bool>) -> nat {
        spec_cost(self.costs@, solution, self.costs@.len())
    }
}

/// Whether `list` holds exactly the poles of `graph` that would power `id`.
pub open spec fn is_cover_of(graph: &CandPoleGraph, list: Seq<u32>, id: EntityId) -> bool {
    forall|p: u32| list.contains(p) <==> #[trigger] powers(graph, p, id)
}

/// Whether `list` holds exactly the poles of `graph` that would power some
/// one consumer.
pub open spec fn covers_some(graph: &CandPoleGraph, list: Seq<u32>) -> bool {
    exists|id: EntityId| #[trigger] is_cover_of(graph, list, id)
}

/// Whether `cover` has, for every consumer that a pole of `graph` would
/// power, the list of the poles that would, and no other list.
pub open spec fn covers_consumers(graph: &CandPoleGraph, cover: Seq<Vec<u32>>) -> bool {
    &&& forall|k: int| 0 <= k < cover.len() ==> #[trigger] covers_some(graph, cover[k]@)
    &&& forall|node: u32, id: EntityId| #[trigger]
        powers(graph, node, id) ==> exists|k: int|
            0 <= k < cover.len() && #[trigger] is_cover_of(graph, cover[k]@, id)
}

/// Whoever meets the constraints of the problem has chosen, for every
/// consumer that some candidate pole would power, a pole that powers it.
pub proof fn lemma_feasible_solution_covers(
    graph: &CandPoleGraph,
    problem: &SetCoverProblem,
    solution: Seq<bool>,
    node: u32,
    id: EntityId,
)
    requires
        covers_consumers(graph, problem.cover@),
        problem.feasible(solution),
        powers(graph, node, id),
    ensures
        exists|p: u32| p < solution.len() && solution[p as int] && #[trigger] powers(graph, p, id),
{
    let k = choose|k: int|
        0 <= k < problem.cover@.len() && #[trigger] is_cover_of(graph, problem.cover@[k]@, id);
    let list = problem.cover@[k]@;
    assert(chooses_one(solution, list));
    let j = choose|j: int|
        0 <= j < list.len() && (#[trigger] list[j]) < solution.len() && solution[list[j] as int];
    assert(list.contains(list[j]));
    assert(powers(graph, list[j], id));
}

/// The least `x` of `positions`, or zero if there is none.
pub open spec fn spec_min_x(positions: Seq<MapPosition>) -> int
    decreases positions.len(),
{
    if positions.len() == 0 {
        0
    } else if positions.len() == 1 {
        positions[0].x as int
    } else {
        let rest = spec_min_x(positions.drop_last());
        if positions.last().x < rest {
            positions.last().x as int
        } else {
            rest
        }
    }
}

/// The largest `x` of `positions`, or zero if there is none.
pub open spec fn spec_max_x(positions: Seq<MapPosition>) -> int
    decreases positions.len(),
{
    if positions.len() == 0 {
        0
    } else if positions.len() == 1 {
        positions[0].x as int
    } else {
        let rest = spec_max_x(positions.drop_last());
        if positions.last().x > rest {
            positions.last().x as int
        } else {
            rest
        }
    }
}

/// The least `y` of `positions`, or zero if there is none.
pub open spec fn spec_min_y(positions: Seq<MapPosition>) -> int
    decreases positions.len(),
{
    if positions.len() == 0 {
        0
    } else if positions.len() == 1 {
        positions[0].y as int
    } else {
        let rest = spec_min_y(positions.drop_last());
        if positions.last().y < rest {
            positions.last().y as int
        } else {
            rest
        }
    }
}

/// The largest `y` of `positions`, or zero if there is none.
pub open spec fn spec_max_y(positions: Seq<MapPosition>) -> int
    decreases positions.len(),
{
    if positions.len() == 0 {
        0
    } else if positions.len() == 1 {
        positions[0].y as int
    } else {
        let rest = spec_max_y(positions.drop_last());
        if positions.last().y > rest {
            positions.last().y as int
        } else {
            rest
        }
    }
}

/// The places of the poles of `graph`, by node.
pub open spec fn places(graph: &CandPoleGraph) -> Seq<MapPosition> {
    Seq::new(graph.nodes().len(), |i: int| graph.nodes()[i].entity.position)
}

/// The point of the bounding box of `positions` that lies the fraction
/// `rel`, in millionths, of the way from its least to its largest corner,
/// rounded down to a map-space unit.
pub open spec fn spec_relative_point(positions: Seq<MapPosition>, rel: (i64, i64)) -> MapPosition {
    let x0 = spec_min_x(positions);
    let y0 = spec_min_y(positions);
    MapPosition {
        x: (x0 + (spec_max_x(positions) - x0) * rel.0 / (MILLION as int)) as i64,
        y: (y0 + (spec_max_y(positions) - y0) * rel.1 / (MILLION as int)) as i64,
    }
}

/// The number by which poles are put in order of their distance from
/// `center`: the squared distance in tiles, times the square of 64, rounded
/// to the nearest whole number, and no more than a `u64` can hold.
pub open spec fn spec_root_key(p: MapPosition, center: MapPosition) -> int {
    let scaled = (p.spec_square_distance(center) * 4096 + 500_000_000_000) / 1_000_000_000_000;
    if scaled > u64::MAX {
        u64::MAX as int
    } else {
        scaled
    }
}

/// Whether `order` holds every node of `graph` with its key, the nearest to
/// `center` first and, of two equally near, the one with the lower number.
pub open spec fn is_closest_order(
    graph: &CandPoleGraph,
    center: MapPosition,
    order: Seq<(u64, u64)>,
) -> bool {
    &&& strictly_ascending(order)
    &&& forall|x: (u64, u64)| #[trigger]
        order.contains(x) <==> (x.1 < graph.nodes().len() && x.0 == spec_root_key(
            graph.nodes()[x.1 as int].entity.position,
            center,
        ))
}

/// The nodes of `graph` with their keys in the order of `is_closest_order`.
pub open spec fn spec_closest_order(graph: &CandPoleGraph, center: MapPosition) -> Seq<(u64, u64)> {
    choose|order: Seq<(u64, u64)>| is_closest_order(graph, center, order)
}

/// The nodes of `nodes` that are joined to all that were taken before them.
pub open spec fn spec_maximal_clique<N>(graph: &WeightedGraph<N>, nodes: Seq<u32>) -> Seq<u32>
    decreases nodes.len(),
{
    if nodes.len() == 0 {
        Seq::empty()
    } else {
        let rest = spec_maximal_clique(graph, nodes.drop_last());
        if forall|i: int| 0 <= i < rest.len() ==> graph.spec_contains_edge(#[trigger] rest[i], nodes.last()) {
            rest.push(nodes.last())
        } else {
            rest
        }
    }
}

/// The neighbours `q` among `nbrs` that are nearer than `limit`: those with
/// a cost, and one below `limit`.
pub open spec fn spec_closer(nbrs: Seq<u32>, costs: Seq<Option<u64>>, limit: u64) -> Seq<u32>
    decreases nbrs.len(),
{
    if nbrs.len() == 0 {
        Seq::empty()
    } else {
        let rest = spec_closer(nbrs.drop_last(), costs, limit);
        let q = nbrs.last();
        if q < costs.len() && costs[q as int] is Some && costs[q as int]->0 < limit {
            rest.push(q)
        } else {
            rest
        }
    }
}

/// One constraint for every pole among the first `upto` that is no root
/// and has a cost: that it may be chosen only together with one of its
/// neighbours that are nearer than itself. A pole without a nearer
/// neighbour may then not be chosen at all.
pub open spec fn spec_links<N>(
    graph: &WeightedGraph<N>,
    is_root: Seq<bool>,
    costs: Seq<Option<u64>>,
    upto: nat,
) -> Seq<(u32, Seq<u32>)>
    decreases upto,
{
    if upto == 0 {
        Seq::empty()
    } else {
        let rest = spec_links(graph, is_root, costs, (upto - 1) as nat);
        let p = (upto - 1) as u32;
        if !is_root[p as int] && costs[p as int] is Some {
            rest.push((p, spec_closer(graph.spec_neighbors(p), costs, costs[p as int]->0)))
        } else {
            rest
        }
    }
}

/// Whether the constraints `links` are those of `expected`.
pub open spec fn same_links(links: Seq<LinkConstraint>, expected: Seq<(u32, Seq<u32>)>) -> bool {
    &&& links.len() == expected.len()
    &&& forall|k: int|
        0 <= k < links.len() ==> (#[trigger] links[k]).pole == expected[k].0 && links[k].toward@
            == expected[k].1
}

/// For every node whether it is among `roots`.
pub open spec fn spec_root_flags(roots: Seq<u32>, nodes: nat) -> Seq<bool> {
    Seq::new(nodes, |i: int| roots.contains(i as u32))
}

/// A way to pull the chosen poles together. Some poles near a centre are
/// the roots; every other pole may be chosen only together with a
/// neighbour that is nearer to the roots than itself.
#[derive(Clone, Copy, Debug)]
pub struct DistanceConnectivity {
    /// Where the centre lies in the bounding box of the poles, as fractions
    /// of its width and height in millionths.
    pub center_rel_pos: (i64, i64),
}

/// The largest fraction, in millionths, by which the centre may lie beside
/// the bounding box of the poles: two thousand times its width or height.
/// Within that the centre has coordinates of map space.
pub const MAX_RELATIVE: i64 = 2_000_000_000;

/// The farthest from the origin that the centre can lie, along either axis.
pub const MAX_CENTER: i64 = 8_100_000_000_000_000_000;

impl DistanceConnectivity {
    /// The centre lies no more than [`MAX_RELATIVE`] beside the bounding
    /// box, to either side.
    pub open spec fn wf(&self) -> bool {
        &&& -MAX_RELATIVE <= self.center_rel_pos.0 <= MAX_RELATIVE
        &&& -MAX_RELATIVE <= self.center_rel_pos.1 <= MAX_RELATIVE
    }

    /// The nodes of `nodes` that are joined to all that were taken before
    /// them.
    pub fn maximal_clique<N>(graph: &WeightedGraph<N>, nodes: &Vec<u32>) -> (r: Vec<u32>)
        ensures
            r@ == spec_maximal_clique(graph, nodes@),
    {
        let mut clique: Vec<u32> = Vec::new();
        let mut i: usize = 0;
        assert(nodes@.take(0) =~= Seq::empty());
        while i < nodes.len()
            invariant
                0 <= i <= nodes@.len(),
                clique@ == spec_maximal_clique(graph, nodes@.take(i as int)),
            decreases nodes@.len() - i,
        {
            let node = nodes[i];
            let mut all = true;
            let mut k: usize = 0;
            while k < clique.len()
                invariant
                    0 <= k <= clique@.len(),
                    all == forall|q: int|
                        0 <= q < k ==> graph.spec_contains_edge(#[trigger] clique@[q], node),
                decreases clique@.len() - k,
            {
                if !graph.contains_edge(clique[k], node) {
                    all = false;
                }
                k = k + 1;
            }
            proof {
                let t1 = nodes@.take(i + 1);
                assert(t1.drop_last() =~= nodes@.take(i as int));
                assert(t1.last() == node);
            }
            if all {
                clique.push(node);
            }
            i = i + 1;
        }
        assert(nodes@.take(nodes@.len() as int) =~= nodes@);
        clique
    }

    /// The bounding box of the places of the poles of `graph`.
    fn bounds(graph: &CandPoleGraph) -> (r: (i64, i64, i64, i64))
        requires
            graph.wf(),
            forall|i: int|
                0 <= i < graph.nodes().len() ==> (#[trigger] graph.nodes()[i]).entity.position.in_world(),
        ensures
            r.0 == spec_min_x(places(graph)),
            r.1 == spec_min_y(places(graph)),
            r.2 == spec_max_x(places(graph)),
            r.3 == spec_max_y(places(graph)),
            -2_000_000_000_000_000 <= r.0 <= r.2 <= 2_000_000_000_000_000,
            -2_000_000_000_000_000 <= r.1 <= r.3 <= 2_000_000_000_000_000,
    {
        let n = graph.node_count();
        proof {
            graph.lemma_wf();
        }
        if n == 0 {
            assert(places(graph) =~= Seq::empty());
            return (0, 0, 0, 0);
        }
        let first = graph.node_weight(0).entity.position;
        let mut x0 = first.x;
        let mut y0 = first.y;
        let mut x1 = first.x;
        let mut y1 = first.y;
        let ghost ps = places(graph);
        proof {
            assert(ps.take(1).drop_last() =~= Seq::empty());
            assert(ps.take(1)[0] == first);
        }
        let mut i: usize = 1;
        while i < n
            invariant
                1 <= i <= n,
                n == graph.nodes().len(),
                n <= u32::MAX,
                graph.wf(),
                ps == places(graph),
                forall|j: int|
                    0 <= j < graph.nodes().len() ==> (
                    #[trigger] graph.nodes()[j]).entity.position.in_world(),
                x0 == spec_min_x(ps.take(i as int)),
                y0 == spec_min_y(ps.take(i as int)),
                x1 == spec_max_x(ps.take(i as int)),
                y1 == spec_max_y(ps.take(i as int)),
                -2_000_000_000_000_000 <= x0 <= x1 <= 2_000_000_000_000_000,
                -2_000_000_000_000_000 <= y0 <= y1 <= 2_000_000_000_000_000,
            decreases n - i,
        {
            let p = graph.node_weight(i as u32).entity.position;
            proof {
                let t1 = ps.take(i + 1);
                assert(t1.drop_last() =~= ps.take(i as int));
                assert(t1.last() == p);
                assert(graph.nodes()[i as int].entity.position.in_world());
            }
            if p.x < x0 {
                x0 = p.x;
            }
            if p.y < y0 {
                y0 = p.y;
            }
            if p.x > x1 {
                x1 = p.x;
            }
            if p.y > y1 {
                y1 = p.y;
            }
            i = i + 1;
        }
        assert(ps.take(n as int) =~= ps);
        (x0, y0, x1, y1)
    }

    fn lerp(low: i64, high: i64, rel: i64) -> (r: i64)
        requires
            -2_000_000_000_000_000 <= low <= high <= 2_000_000_000_000_000,
            -MAX_RELATIVE <= rel <= MAX_RELATIVE,
        ensures
            r == low + (high - low) * rel / (MILLION as int),
            -MAX_CENTER <= r <= MAX_CENTER,
    {
        let span: i128 = high as i128 - low as i128;
        let part: i128 = rel as i128;
        assert(-8_000_000_000_000_000_000_000_000 <= span * part
            <= 8_000_000_000_000_000_000_000_000) by (nonlinear_arith)
            requires
                0 <= span <= 4_000_000_000_000_000,
                -2_000_000_000 <= part <= 2_000_000_000,
        ;
        let product: i128 = span * part;
        proof {
            vstd::arithmetic::div_mod::lemma_fundamental_div_mod(product as int, 1_000_000);
            vstd::arithmetic::div_mod::lemma_mod_bound(product as int, 1_000_000);
        }
        let step: i128 = match product.checked_div_euclid(1_000_000) {
            Some(q) => q,
            None => 0,
        };
        (low as i128 + step) as i64
    }

    fn root_key(p: MapPosition, center: MapPosition) -> (r: u64)
        requires
            p.in_world(),
            -MAX_CENTER <= center.x <= MAX_CENTER,
            -MAX_CENTER <= center.y <= MAX_CENTER,
        ensures
            r == spec_root_key(p, center),
    {
        let dx: i128 = p.x as i128 - center.x as i128;
        let dy: i128 = p.y as i128 - center.y as i128;
        assert(0 <= dx * dx <= 8_102_000_000_000_000_000 * 8_102_000_000_000_000_000)
            by (nonlinear_arith)
            requires
                -8_102_000_000_000_000_000 <= dx <= 8_102_000_000_000_000_000,
        ;
        assert(0 <= dy * dy <= 8_102_000_000_000_000_000 * 8_102_000_000_000_000_000)
            by (nonlinear_arith)
            requires
                -8_102_000_000_000_000_000 <= dy <= 8_102_000_000_000_000_000,
        ;
        let sq: u128 = (dx * dx) as u128 + (dy * dy) as u128;
        assert(sq == p.spec_square_distance(center));
        if sq > 1_000_000_000_000_000_000_000_000_000_000 {
            u64::MAX
        } else {
            let scaled: u128 = (sq * 4096 + 500_000_000_000) / 1_000_000_000_000;
            if scaled > u64::MAX as u128 {
                u64::MAX
            } else {
                scaled as u64
            }
        }
    }

    /// The centre about which the roots are looked for.
    pub open spec fn spec_center(&self, graph: &CandPoleGraph) -> MapPosition {
        spec_relative_point(places(graph), self.center_rel_pos)
    }

    /// The roots: the poles in the order of their distance from the centre,
    /// each taken if it is joined to all that were taken before.
    pub open spec fn spec_root_poles(&self, graph: &CandPoleGraph) -> Seq<u32> {
        let order = spec_closest_order(graph, self.spec_center(graph));
        spec_maximal_clique(graph, Seq::new(order.len(), |i: int| order[i].1 as u32))
    }

    /// The roots of `graph`.
    #[verifier::loop_isolation(false)]
    pub fn find_root_poles(&self, graph: &CandPoleGraph) -> (r: Vec<u32>)
        requires
            self.wf(),
            graph.wf(),
            forall|i: int|
                0 <= i < graph.nodes().len() ==> (#[trigger] graph.nodes()[i]).entity.position.in_world(),
        ensures
            r@ == self.spec_root_poles(graph),
            forall|i: int| 0 <= i < r@.len() ==> (#[trigger] r@[i]) < graph.nodes().len(),
    {
        let (x0, y0, x1, y1) = Self::bounds(graph);
        let center = MapPosition {
            x: Self::lerp(x0, x1, self.center_rel_pos.0),
            y: Self::lerp(y0, y1, self.center_rel_pos.1),
        };
        assert(center == self.spec_center(graph));
        let n = graph.node_count();
        proof {
            graph.lemma_wf();
        }
        let mut keyed: Vec<(u64, u64)> = Vec::new();
        let mut i: usize = 0;
        while i < n
            invariant
                0 <= i <= n,
                keyed@.len() == i,
                forall|j: int|
                    0 <= j < i ==> (#[trigger] keyed@[j]).0 == spec_root_key(
                        graph.nodes()[j].entity.position,
                        center,
                    ) && keyed@[j].1 == j,
            decreases n - i,
        {
            let key = Self::root_key(graph.node_weight(i as u32).entity.position, center);
            keyed.push((key, i as u64));
            i = i + 1;
        }
        proof {
            assert forall|a: int, b: int|
                0 <= a < keyed@.len() && 0 <= b < keyed@.len() && a != b implies keyed@[a]
                != keyed@[b] by {}
        }
        let sorted = sorted_pairs(keyed);
        proof {
            lemma_sorted_distinct(sorted@, keyed@);
            assert(is_closest_order(graph, center, sorted@)) by {
                assert forall|x: (u64, u64)| #[trigger]
                    sorted@.contains(x) <==> (x.1 < graph.nodes().len() && x.0 == spec_root_key(
                        graph.nodes()[x.1 as int].entity.position,
                        center,
                    )) by {
                    if keyed@.contains(x) {
                        let j = choose|j: int| 0 <= j < keyed@.len() && keyed@[j] == x;
                        assert(keyed@[j] == x);
                    }
                    if x.1 < graph.nodes().len() && x.0 == spec_root_key(
                        graph.nodes()[x.1 as int].entity.position,
                        center,
                    ) {
                        assert(keyed@[x.1 as int] == x);
                    }
                }
            }
            let chosen = spec_closest_order(graph, center);
            assert(is_closest_order(graph, center, chosen));
            lemma_sorted_unique(sorted@, chosen);
        }
        let mut order: Vec<u32> = Vec::new();
        let mut k: usize = 0;
        while k < sorted.len()
            invariant
                0 <= k <= sorted@.len(),
                order@.len() == k,
                forall|j: int| 0 <= j < k ==> #[trigger] order@[j] == sorted@[j].1 as u32,
            decreases sorted@.len() - k,
        {
            proof {
                assert(sorted@.contains(sorted@[k as int]));
            }
            order.push(sorted[k].1 as u32);
            k = k + 1;
        }
        assert(order@ =~= Seq::new(sorted@.len(), |i: int| sorted@[i].1 as u32));
        let roots = Self::maximal_clique(graph, &order);
        proof {
            assert forall|i: int| 0 <= i < roots@.len() implies (#[trigger] roots@[i])
                < graph.nodes().len() by {
                assert(roots@.contains(roots@[i]));
                lemma_clique_members(graph, order@, roots@[i]);
                let k = choose|k: int| 0 <= k < order@.len() && order@[k] == roots@[i];
                assert(sorted@.contains(sorted@[k]));
            }
        }
        roots
    }

    /// The neighbours among `nbrs` that are nearer than `limit`.
    fn closer(nbrs: &Vec<u32>, costs: &Vec<Option<u64>>, limit: u64) -> (r: Vec<u32>)
        ensures
            r@ == spec_closer(nbrs@, costs@, limit),
    {
        let mut out: Vec<u32> = Vec::new();
        let mut i: usize = 0;
        assert(nbrs@.take(0) =~= Seq::empty());
        while i < nbrs.len()
            invariant
                0 <= i <= nbrs@.len(),
                out@ == spec_closer(nbrs@.take(i as int), costs@, limit),
            decreases nbrs@.len() - i,
        {
            let q = nbrs[i];
            proof {
                let t1 = nbrs@.take(i + 1);
                assert(t1.drop_last() =~= nbrs@.take(i as int));
                assert(t1.last() == q);
            }
            if (q as usize) < costs.len() {
                match costs[q as usize] {
                    Some(c) => {
                        if c < limit {
                            out.push(q);
                        }
                    },
                    None => {},
                }
            }
            i = i + 1;
        }
        assert(nbrs@.take(nbrs@.len() as int) =~= nbrs@);
        out
    }

    /// The constraints that follow from the costs `costs` of the shortest
    /// paths from the roots, and whether every pole that is no root has a
    /// cost, which is to say that a path leads to it.
    pub fn link_constraints<N>(
        graph: &WeightedGraph<N>,
        is_root: &Vec<bool>,
        costs: &Vec<Option<u64>>,
    ) -> (r: (Vec<LinkConstraint>, bool))
        requires
            graph.wf(),
            is_root@.len() == graph.nodes().len(),
            costs@.len() == graph.nodes().len(),
        ensures
            same_links(r.0@, spec_links(graph, is_root@, costs@, graph.nodes().len())),
            r.1 == forall|p: int|
                0 <= p < graph.nodes().len() ==> #[trigger] is_root@[p] || costs@[p] is Some,
    {
        let n = graph.node_count();
        proof {
            graph.lemma_wf();
        }
        let mut result: Vec<LinkConstraint> = Vec::new();
        let mut connected = true;
        let mut p: usize = 0;
        while p < n
            invariant
                0 <= p <= n,
                n == graph.nodes().len(),
                n <= u32::MAX,
                is_root@.len() == n,
                costs@.len() == n,
                same_links(result@, spec_links(graph, is_root@, costs@, p as nat)),
                connected == forall|q: int| 0 <= q < p ==> #[trigger] is_root@[q] || costs@[q] is Some,
            decreases n - p,
        {
            let ghost before = result@;
            if !is_root[p] {
                match costs[p] {
                    Some(limit) => {
                        let nbrs = graph.neighbors(p as u32);
                        let toward = Self::closer(&nbrs, costs, limit);
                        result.push(LinkConstraint { pole: p as u32, toward });
                    },
                    None => {
                        connected = false;
                    },
                }
            }
            proof {
                let expected = spec_links(graph, is_root@, costs@, (p + 1) as nat);
                assert forall|k: int| 0 <= k < result@.len() implies (#[trigger] result@[k]).pole
                    == expected[k].0 && result@[k].toward@ == expected[k].1 by {
                    if k < before.len() {
                        assert(result@[k] == before[k]);
                    }
                }
            }
            p = p + 1;
        }
        (result, connected)
    }

    /// For every node whether it is among `roots`.
    fn root_flags(roots: &Vec<u32>, n: usize) -> (r: Vec<bool>)
        requires
            n <= u32::MAX,
        ensures
            r@ == spec_root_flags(roots@, n as nat),
    {
        let mut flags: Vec<bool> = Vec::new();
        let mut i: usize = 0;
        while i < n
            invariant
                0 <= i <= n,
                n <= u32::MAX,
                flags@.len() == i,
                forall|j: int| 0 <= j < i ==> #[trigger] flags@[j] == roots@.contains(j as u32),
            decreases n - i,
        {
            let mut found = false;
            let mut k: usize = 0;
            while k < roots.len()
                invariant
                    0 <= k <= roots@.len(),
                    found == exists|q: int| 0 <= q < k && roots@[q] == i,
                decreases roots@.len() - k,
            {
                if roots[k] as usize == i {
                    found = true;
                }
                k = k + 1;
            }
            proof {
                if roots@.contains(i as u32) {
                    let q = choose|q: int| 0 <= q < roots@.len() && roots@[q] == i as u32;
                    assert(0 <= q < roots@.len() && roots@[q] == i);
                }
            }
            flags.push(found);
            i = i + 1;
        }
        assert(flags@ =~= spec_root_flags(roots@, n as nat));
        flags
    }

    /// The constraints that pull the chosen poles towards the roots, and
    /// whether every pole can be reached from the roots. A graph without
    /// poles gives no constraint.
    ///
    /// The costs are those of the shortest paths from the first root, where
    /// a step to a root is free.
    pub fn connectivity_constraints(&self, graph: &CandPoleGraph) -> (r: (Vec<LinkConstraint>, bool))
        requires
            self.wf(),
            graph.wf(),
            forall|i: int|
                0 <= i < graph.nodes().len() ==> (#[trigger] graph.nodes()[i]).entity.position.in_world(),
        ensures
            self.spec_root_poles(graph).len() == 0 ==> r.0@.len() == 0 && r.1,
            self.spec_root_poles(graph).len() > 0 ==> {
                let roots = self.spec_root_poles(graph);
                let flags = spec_root_flags(roots, graph.nodes().len());
                let costs = shortest_costs(graph.edges(), graph.nodes().len(), roots[0], flags);
                &&& same_links(r.0@, spec_links(graph, flags, costs, graph.nodes().len()))
                &&& r.1 == forall|p: int|
                    0 <= p < graph.nodes().len() ==> #[trigger] flags[p] || costs[p] is Some
            },
    {
        let roots = self.find_root_poles(graph);
        let n = graph.node_count();
        proof {
            graph.lemma_wf();
        }
        if roots.len() == 0 {
            return (Vec::new(), true);
        }
        let flags = Self::root_flags(&roots, n);
        let costs = graph.shortest_costs(roots[0], &flags);
        Self::link_constraints(graph, &flags, &costs)
    }
}

/// Whatever the greedy choice takes stood among the nodes it chose from.
pub proof fn lemma_clique_members<N>(graph: &WeightedGraph<N>, nodes: Seq<u32>, x: u32)
    requires
        spec_maximal_clique(graph, nodes).contains(x),
    ensures
        nodes.contains(x),
    decreases nodes.len(),
{
    if nodes.len() > 0 {
        let rest = spec_maximal_clique(graph, nodes.drop_last());
        let all = spec_maximal_clique(graph, nodes);
        if rest.contains(x) {
            lemma_clique_members(graph, nodes.drop_last(), x);
            let k = choose|k: int| 0 <= k < nodes.drop_last().len() && nodes.drop_last()[k] == x;
            assert(nodes[k] == x);
        } else {
            let k = choose|k: int| 0 <= k < all.len() && all[k] == x;
            assert(all == rest.push(nodes.last()));
            if k < rest.len() {
                assert(rest[k] == x);
            }
            assert(nodes[nodes.len() - 1] == x);
        }
    }
}

/// Half of one, in millionths: a pole is chosen where the value of its
/// variable is more than this.
pub const HALF_MILLION: i64 = 500_000;

/// For every pole whether the solution with the values `values`, in
/// millionths, chooses it.
pub open spec fn chosen(values: Seq<i64>) -> Seq<bool> {
    Seq::new(values.len(), |i: int| values[i] > HALF_MILLION)
}

/// Whether the solution with the values `values` chooses one of the poles
/// `list`.
fn picks_one(values: &Vec<i64>, list: &Vec<u32>) -> (r: bool)
    ensures
        r == chooses_one(chosen(values@), list@),
{
    let mut j: usize = 0;
    while j < list.len()
        invariant
            0 <= j <= list@.len(),
            forall|q: int|
                0 <= q < j ==> !((#[trigger] list@[q]) < values@.len() && chosen(
                    values@,
                )[list@[q] as int]),
        decreases list@.len() - j,
    {
        let p = list[j] as usize;
        if p < values.len() && values[p] > HALF_MILLION {
            assert(list@[j as int] < chosen(values@).len() && chosen(values@)[list@[j as int] as int]);
            return true;
        }
        j = j + 1;
    }
    false
}

impl SetCoverProblem {
    /// Whether the solution with the values `values`, one for every pole in
    /// millionths, meets every constraint.
    pub fn is_feasible(&self, values: &Vec<i64>) -> (r: bool)
        ensures
            r == self.feasible(chosen(values@)),
    {
        if values.len() != self.costs.len() {
            return false;
        }
        let mut k: usize = 0;
        while k < self.cover.len()
            invariant
                0 <= k <= self.cover@.len(),
                forall|q: int|
                    0 <= q < k ==> chooses_one(chosen(values@), (#[trigger] self.cover@[q])@),
            decreases self.cover@.len() - k,
        {
            if !picks_one(values, &self.cover[k]) {
                return false;
            }
            k = k + 1;
        }
        let mut k: usize = 0;
        while k < self.links.len()
            invariant
                0 <= k <= self.links@.len(),
                forall|q: int|
                    0 <= q < k && (#[trigger] self.links@[q]).pole < values@.len() && chosen(
                        values@,
                    )[self.links@[q].pole as int] ==> chooses_one(
                        chosen(values@),
                        self.links@[q].toward@,
                    ),
            decreases self.links@.len() - k,
        {
            let link = &self.links[k];
            let pole = link.pole as usize;
            if pole < values.len() && values[pole] > HALF_MILLION && !picks_one(
                values,
                &link.toward,
            ) {
                return false;
            }
            k = k + 1;
        }
        true
    }

    /// What the solution with the values `values` costs, in millionths.
    pub fn cost(&self, values: &Vec<i64>) -> (r: u128)
        requires
            values@.len() == self.costs@.len(),
            self.costs@.len() <= u32::MAX,
        ensures
            r == self.objective(chosen(values@)),
    {
        let mut sum: u128 = 0;
        let mut i: usize = 0;
        while i < self.costs.len()
            invariant
                0 <= i <= self.costs@.len(),
                values@.len() == self.costs@.len(),
                self.costs@.len() <= u32::MAX,
                sum == spec_cost(self.costs@, chosen(values@), i as nat),
                sum <= i * u64::MAX,
            decreases self.costs@.len() - i,
        {
            assert((i + 1) * u64::MAX <= u32::MAX * u64::MAX) by (nonlinear_arith)
                requires
                    i + 1 <= u32::MAX,
            ;
            assert(i * u64::MAX + u64::MAX == (i + 1) * u64::MAX) by (nonlinear_arith);
            if values[i] > HALF_MILLION {
                sum = sum + self.costs[i] as u128;
            }
            i = i + 1;
        }
        sum
    }
}

/// The number of poles that `sel` chooses among the first `upto`: the node
/// that pole `upto` gets among the chosen, if it is chosen itself.
pub open spec fn rank(sel: Seq<bool>, upto: int) -> int
    decreases upto,
{
    if upto <= 0 {
        0
    } else {
        rank(sel, upto - 1) + (if sel[upto - 1] {
            1int
        } else {
            0int
        })
    }
}

/// The rank grows with every pole that is chosen.
pub proof fn lemma_rank_grows(sel: Seq<bool>, i: int, j: int)
    requires
        0 <= i <= j,
    ensures
        rank(sel, i) <= rank(sel, j),
        0 <= rank(sel, i) <= i,
        i < j && sel[i] ==> rank(sel, i) < rank(sel, j),
    decreases j,
{
    if i < j {
        lemma_rank_grows(sel, i, j - 1);
    }
    if i > 0 {
        lemma_rank_grows(sel, i - 1, i - 1);
    }
}

/// Whether link `p` of the chosen poles is the link between the chosen
/// poles `i` and `j` of `graph`.
pub open spec fn came_from(
    graph: &CandPoleGraph,
    sel: Seq<bool>,
    p: (u32, u32),
    i: u32,
    j: u32,
) -> bool {
    &&& i < sel.len()
    &&& j < sel.len()
    &&& sel[i as int]
    &&& sel[j as int]
    &&& p == crate::graph::pair(rank(sel, i as int) as u32, rank(sel, j as int) as u32)
    &&& graph.links().contains_key(crate::graph::pair(i, j))
}

/// The cost of a pole: the cost of its prototype, and for every tile
/// between its place and `center` a ten-thousandth of `factor`; all in
/// millionths, the second part rounded down.
pub open spec fn spec_pole_cost(
    prototype_cost: u64,
    position: MapPosition,
    center: MapPosition,
    factor: u64,
) -> int {
    prototype_cost + position.spec_distance_to(center) * factor / 10_000_000_000
}

/// The cost of choosing a pole of a prototype that costs `prototype_cost`
/// at `position`, where being a tile away from `center` costs a
/// ten-thousandth of `factor`.
pub fn pole_cost(prototype_cost: u64, position: MapPosition, center: MapPosition, factor: u64) -> (r:
    u64)
    requires
        position.in_world(),
        center.in_world(),
        prototype_cost <= 1_000_000_000_000_000_000,
        factor <= 1_000_000_000_000,
    ensures
        r == spec_pole_cost(prototype_cost, position, center, factor),
{
    let dist: u128 = position.distance_to(&center) as u128;
    let f: u128 = factor as u128;
    assert(dist * f <= 6_000_000_000_000_000 * 1_000_000_000_000) by (nonlinear_arith)
        requires
            0 <= dist <= 6_000_000_000_000_000,
            0 <= f <= 1_000_000_000_000,
    ;
    let extra: u128 = (dist * f) / 10_000_000_000;
    (prototype_cost as u128 + extra) as u64
}

/// The set-cover problem of choosing poles, over a solver for problems with
/// yes-or-no variables that is run elsewhere: `formulate` states the
/// problem, `select` reads the answer.
#[derive(Clone, Copy, Debug)]
pub struct SetCoverILPSolver {
    /// How the chosen poles are pulled together, if at all.
    pub connectivity: Option<DistanceConnectivity>,
}

impl SetCoverILPSolver {
    /// For every consumer that a pole of `graph` would power, the
    /// constraint that one of the poles that would is chosen. The
    /// constraints come in the order of the ids of the consumers.
    pub fn add_set_cover_constraints(graph: &CandPoleGraph) -> (r: Vec<Vec<u32>>)
        requires
            graph.wf(),
        ensures
            covers_consumers(graph, r@),
            forall|k: int| 0 <= k < r@.len() ==> (#[trigger] r@[k])@.len() > 0,
    {
        let dict = get_pole_coverage_dict(graph);
        let mut out: Vec<Vec<u32>> = Vec::new();
        let mut k: usize = 0;
        while k < dict.len()
            invariant
                0 <= k <= dict@.len(),
                out@.len() == k,
                forall|j: int| 0 <= j < k ==> (#[trigger] out@[j])@ == dict@[j].1@,
            decreases dict@.len() - k,
        {
            let list = dict[k].1.clone();
            assert(list@ =~= dict@[k as int].1@);
            out.push(list);
            k = k + 1;
        }
        proof {
            assert forall|j: int| 0 <= j < out@.len() implies #[trigger] covers_some(
                graph,
                out@[j]@,
            ) by {
                assert(is_cover_of(graph, out@[j]@, dict@[j].0)) by {
                    assert forall|p: u32| out@[j]@.contains(p) <==> #[trigger] powers(
                        graph,
                        p,
                        dict@[j].0,
                    ) by {
                        assert(dict@[j].1@.contains(p) <==> powers(graph, p, dict@[j].0));
                    }
                }
            }
            assert forall|node: u32, id: EntityId| #[trigger] powers(graph, node, id) implies exists|
                j: int,
            |
                0 <= j < out@.len() && #[trigger] is_cover_of(graph, out@[j]@, id) by {
                let j = choose|j: int| 0 <= j < dict@.len() && (#[trigger] dict@[j]).0 == id;
                assert(is_cover_of(graph, out@[j]@, id)) by {
                    assert forall|p: u32| out@[j]@.contains(p) <==> #[trigger] powers(graph, p, id) by {
                        assert(dict@[j].1@.contains(p) <==> powers(graph, p, dict@[j].0));
                    }
                }
            }
            assert forall|j: int| 0 <= j < out@.len() implies (#[trigger] out@[j])@.len() > 0 by {
                assert(dict@[j].1@.len() > 0);
            }
        }
        out
    }

    /// The problem of choosing poles of `graph` at the costs `costs`, and
    /// whether every pole can be reached from the roots (which is so where
    /// nothing pulls the poles together).
    pub fn formulate(&self, graph: &CandPoleGraph, costs: Vec<u64>) -> (r: (SetCoverProblem, bool))
        requires
            graph.wf(),
            costs@.len() == graph.nodes().len(),
            self.connectivity is Some ==> self.connectivity->0.wf() && forall|i: int|
                0 <= i < graph.nodes().len() ==> (
                #[trigger] graph.nodes()[i]).entity.position.in_world(),
        ensures
            r.0.costs@ == costs@,
            covers_consumers(graph, r.0.cover@),
            self.connectivity is None ==> r.0.links@.len() == 0 && r.1,
            self.connectivity is Some ==> {
                let roots = self.connectivity->0.spec_root_poles(graph);
                let flags = spec_root_flags(roots, graph.nodes().len());
                let paths = shortest_costs(graph.edges(), graph.nodes().len(), roots[0], flags);
                &&& roots.len() == 0 ==> r.0.links@.len() == 0 && r.1
                &&& roots.len() > 0 ==> same_links(
                    r.0.links@,
                    spec_links(graph, flags, paths, graph.nodes().len()),
                ) && r.1 == forall|p: int|
                    0 <= p < graph.nodes().len() ==> #[trigger] flags[p] || paths[p] is Some
            },
    {
        let cover = Self::add_set_cover_constraints(graph);
        let (links, connected) = match &self.connectivity {
            Some(c) => c.connectivity_constraints(graph),
            None => (Vec::new(), true),
        };
        (SetCoverProblem { costs, cover, links }, connected)
    }

    /// The part of `graph` that the solution chooses: the poles whose
    /// variable has a value of more than a half, in their order, and the
    /// edges between them with their weights, in their order.
    #[verifier::loop_isolation(false)]
    pub fn select(graph: &CandPoleGraph, values: &Vec<i64>) -> (r: CandPoleGraph)
        requires
            graph.wf(),
            values@.len() == graph.nodes().len(),
        ensures
            r.wf(),
            r.nodes().len() == rank(chosen(values@), values@.len() as int),
            forall|i: int|
                0 <= i < values@.len() && #[trigger] chosen(values@)[i] ==> r.nodes()[rank(
                    chosen(values@),
                    i,
                )] == graph.nodes()[i],
            forall|i: u32, j: u32|
                i < values@.len() && j < values@.len() && chosen(values@)[i as int] && chosen(
                    values@,
                )[j as int] && #[trigger] graph.links().contains_key(crate::graph::pair(i, j))
                    ==> r.links().contains_key(
                    crate::graph::pair(
                        rank(chosen(values@), i as int) as u32,
                        rank(chosen(values@), j as int) as u32,
                    ),
                ) && r.links()[crate::graph::pair(
                    rank(chosen(values@), i as int) as u32,
                    rank(chosen(values@), j as int) as u32,
                )] == graph.links()[crate::graph::pair(i, j)],
            forall|p: (u32, u32)| #[trigger]
                r.links().contains_key(p) ==> exists|i: u32, j: u32| #[trigger]
                    came_from(graph, chosen(values@), p, i, j),
            r.edges() == crate::topology::kept_edges(graph.edges(), chosen(values@)),
    {
        let n = graph.node_count();
        let ghost sel = chosen(values@);
        proof {
            graph.lemma_wf();
        }
        let mut keep: Vec<bool> = Vec::new();
        let mut nodes: Vec<CandPoleNode> = Vec::new();
        let mut i: usize = 0;
        while i < n
            invariant
                0 <= i <= n,
                keep@.len() == i,
                forall|q: int| 0 <= q < i ==> #[trigger] keep@[q] == sel[q],
                nodes@.len() == rank(sel, i as int),
                forall|q: int|
                    0 <= q < i && #[trigger] sel[q] ==> nodes@[rank(sel, q)] == graph.nodes()[q],
            decreases n - i,
        {
            proof {
                lemma_rank_grows(sel, i as int, i as int);
            }
            let ghost before = nodes@;
            if values[i] > HALF_MILLION {
                nodes.push(graph.node_weight(i as u32).clone());
                keep.push(true);
                proof {
                    assert forall|q: int| 0 <= q < i + 1 && #[trigger] sel[q] implies nodes@[rank(
                        sel,
                        q,
                    )] == graph.nodes()[q] by {
                        if q < i {
                            lemma_rank_grows(sel, q, i as int);
                            assert(before[rank(sel, q)] == graph.nodes()[q]);
                        }
                    }
                }
            } else {
                keep.push(false);
            }
            i = i + 1;
        }
        proof {
            assert(keep@ =~= sel);
        }
        let result = graph.filtered(&keep, nodes);
        proof {
            let edges = graph.edges();
            let kept = result.edges();
            let m = result.nodes().len();
            crate::graph::lemma_kept_edges(edges, sel, n as nat);
            result.lemma_wf();
            assert forall|i: u32, j: u32|
                i < values@.len() && j < values@.len() && sel[i as int] && sel[j as int]
                    && #[trigger] graph.links().contains_key(
                    crate::graph::pair(i, j),
                ) implies result.links().contains_key(
                crate::graph::pair(rank(sel, i as int) as u32, rank(sel, j as int) as u32),
            ) && result.links()[crate::graph::pair(
                rank(sel, i as int) as u32,
                rank(sel, j as int) as u32,
            )] == graph.links()[crate::graph::pair(i, j)] by {
                graph.lemma_links_joined(i, j);
                let q = choose|q: int|
                    0 <= q < edges.len() && crate::topology::joins(#[trigger] edges[q], i, j);
                crate::graph::lemma_link_of_edge(edges, n as nat, q);
                let k = choose|k: int|
                    0 <= k < kept.len() && #[trigger] kept[k] == crate::topology::kept_edge(
                        edges[q],
                        sel,
                    );
                crate::graph::lemma_link_of_edge(kept, m, k);
                assert(crate::graph::pair(edges[q].0, edges[q].1) == crate::graph::pair(i, j));
                assert(crate::graph::pair(kept[k].0, kept[k].1) == crate::graph::pair(
                    rank(sel, i as int) as u32,
                    rank(sel, j as int) as u32,
                ));
            }
            assert forall|p: (u32, u32)| #[trigger] result.links().contains_key(p) implies exists|
                i: u32,
                j: u32,
            | #[trigger]
                came_from(graph, sel, p, i, j) by {
                let k = choose|k: int|
                    0 <= k < kept.len() && crate::topology::joins(#[trigger] kept[k], p.0, p.1);
                assert(crate::graph::kept_of_some(edges, sel, kept[k]));
                let q = choose|q: int|
                    0 <= q < edges.len() && sel[(#[trigger] edges[q]).0 as int]
                        && sel[edges[q].1 as int] && kept[k] == crate::topology::kept_edge(
                        edges[q],
                        sel,
                    );
                let e = edges[q];
                assert(e.0 < n && e.1 < n);
                crate::graph::lemma_link_of_edge(edges, n as nat, q);
                if kept[k].0 == p.0 {
                    assert(p == crate::graph::pair(
                        rank(sel, e.0 as int) as u32,
                        rank(sel, e.1 as int) as u32,
                    ));
                    assert(came_from(graph, sel, p, e.0, e.1));
                } else {
                    assert(p == crate::graph::pair(
                        rank(sel, e.1 as int) as u32,
                        rank(sel, e.0 as int) as u32,
                    ));
                    assert(crate::graph::pair(e.1, e.0) == crate::graph::pair(e.0, e.1));
                    assert(came_from(graph, sel, p, e.1, e.0));
                }
            }
        }
        result
    }
}

impl SetCoverILPSolver {
    /// The part of `graph` that the values `values` choose, with the edges
    /// between the chosen poles and their weights, where the values meet
    /// every constraint of `problem`, and `None` where they do not. Where the
    /// problem has a constraint for every consumer that a pole of `graph`
    /// would power, every such consumer is powered by a chosen pole.
    pub fn accept(graph: &CandPoleGraph, problem: &SetCoverProblem, values: &Vec<i64>) -> (r: Option<
        CandPoleGraph,
    >)
        requires
            graph.wf(),
        ensures
            r is Some <==> values@.len() == graph.nodes().len() && problem.feasible(chosen(values@)),
            r is Some ==> {
                let part = r->0;
                &&& part.wf()
                &&& part.nodes().len() == rank(chosen(values@), values@.len() as int)
                &&& forall|i: int|
                    0 <= i < values@.len() && #[trigger] chosen(values@)[i] ==> 0 <= rank(
                        chosen(values@),
                        i,
                    ) < part.nodes().len() && part.nodes()[rank(chosen(values@), i)]
                        == graph.nodes()[i]
                &&& part.edges() == crate::topology::kept_edges(graph.edges(), chosen(values@))
                &&& forall|i: u32, j: u32|
                    i < values@.len() && j < values@.len() && chosen(values@)[i as int] && chosen(
                        values@,
                    )[j as int] && #[trigger] graph.links().contains_key(crate::graph::pair(i, j))
                        ==> part.links().contains_key(
                        crate::graph::pair(
                            rank(chosen(values@), i as int) as u32,
                            rank(chosen(values@), j as int) as u32,
                        ),
                    ) && part.links()[crate::graph::pair(
                        rank(chosen(values@), i as int) as u32,
                        rank(chosen(values@), j as int) as u32,
                    )] == graph.links()[crate::graph::pair(i, j)]
                &&& forall|p: (u32, u32)| #[trigger]
                    part.links().contains_key(p) ==> exists|i: u32, j: u32| #[trigger]
                        came_from(graph, chosen(values@), p, i, j)
                &&& covers_consumers(graph, problem.cover@) ==> forall|node: u32, id: EntityId| #[trigger]
                    powers(graph, node, id) ==> exists|q: u32| #[trigger] powers(&part, q, id)
            },
    {
        if values.len() != graph.node_count() || !problem.is_feasible(values) {
            return None;
        }
        let part = Self::select(graph, values);
        proof {
            let sel = chosen(values@);
            let n = values@.len() as int;
            graph.lemma_wf();
            part.lemma_wf();
            assert forall|i: int| 0 <= i < n && #[trigger] sel[i] implies 0 <= rank(sel, i)
                < part.nodes().len() && part.nodes()[rank(sel, i)] == graph.nodes()[i] by {
                lemma_rank_grows(sel, i, n);
            }
            if covers_consumers(graph, problem.cover@) {
                assert forall|node: u32, id: EntityId| #[trigger]
                    powers(graph, node, id) implies exists|q: u32| #[trigger]
                    powers(&part, q, id) by {
                    lemma_feasible_solution_covers(graph, problem, sel, node, id);
                    let p = choose|p: u32|
                        p < sel.len() && sel[p as int] && #[trigger] powers(graph, p, id);
                    lemma_rank_grows(sel, p as int, n);
                    let q = rank(sel, p as int) as u32;
                    assert(part.nodes()[q as int] == graph.nodes()[p as int]);
                    assert(powers(&part, q, id));
                }
            }
        }
        Some(part)
    }
}

/// Two chosen poles of one rank are one pole.
pub proof fn lemma_rank_one(sel: Seq<bool>, i: int, j: int)
    requires
        0 <= i,
        0 <= j,
        sel[i],
        sel[j],
    ensures
        rank(sel, i) == rank(sel, j) ==> i == j,
{
    if i < j {
        lemma_rank_grows(sel, i, j);
    } else if j < i {
        lemma_rank_grows(sel, j, i);
    }
}

/// A neighbour that is nearer than `limit` is one of `nbrs`, and has a cost
/// below `limit`.
pub proof fn lemma_closer_members(nbrs: Seq<u32>, costs: Seq<Option<u64>>, limit: u64, q: u32)
    requires
        spec_closer(nbrs, costs, limit).contains(q),
    ensures
        nbrs.contains(q),
        q < costs.len(),
        costs[q as int] is Some,
        costs[q as int]->0 < limit,
    decreases nbrs.len(),
{
    if nbrs.len() > 0 {
        let rest = spec_closer(nbrs.drop_last(), costs, limit);
        let last = nbrs.last();
        let all = spec_closer(nbrs, costs, limit);
        let at = choose|i: int| 0 <= i < all.len() && all[i] == q;
        if at < rest.len() {
            assert(rest[at] == q);
            lemma_closer_members(nbrs.drop_last(), costs, limit, q);
            let j = choose|j: int| 0 <= j < nbrs.drop_last().len() && nbrs.drop_last()[j] == q;
            assert(nbrs[j] == q);
        } else {
            assert(q == last);
            assert(nbrs[nbrs.len() - 1] == q);
        }
    }
}

/// Every pole below `upto` that is no root and has a cost has its
/// constraint among `spec_links`.
pub proof fn lemma_link_is_listed<N>(
    graph: &WeightedGraph<N>,
    is_root: Seq<bool>,
    costs: Seq<Option<u64>>,
    upto: nat,
    p: u32,
)
    requires
        p < upto,
        !is_root[p as int],
        costs[p as int] is Some,
    ensures
        exists|k: int|
            0 <= k < spec_links(graph, is_root, costs, upto).len() && #[trigger] spec_links(
                graph,
                is_root,
                costs,
                upto,
            )[k] == (p, spec_closer(graph.spec_neighbors(p), costs, costs[p as int]->0)),
    decreases upto,
{
    let all = spec_links(graph, is_root, costs, upto);
    let rest = spec_links(graph, is_root, costs, (upto - 1) as nat);
    if p == upto - 1 {
        assert(all[all.len() - 1] == (
            p,
            spec_closer(graph.spec_neighbors(p), costs, costs[p as int]->0),
        ));
    } else {
        lemma_link_is_listed(graph, is_root, costs, (upto - 1) as nat, p);
        let k = choose|k: int|
            0 <= k < rest.len() && #[trigger] rest[k] == (
                p,
                spec_closer(graph.spec_neighbors(p), costs, costs[p as int]->0),
            );
        assert(all[k] == rest[k]);
    }
}

/// Whether `path` leads along edges of `graph` from pole to pole, all of
/// them chosen, and ends at a root.
pub open spec fn is_chain<N>(
    graph: &WeightedGraph<N>,
    solution: Seq<bool>,
    is_root: Seq<bool>,
    path: Seq<u32>,
) -> bool {
    &&& path.len() > 0
    &&& forall|i: int|
        0 <= i < path.len() ==> (#[trigger] path[i]) < solution.len() && solution[path[i] as int]
    &&& forall|i: int|
        0 <= i < path.len() - 1 ==> graph.spec_contains_edge(#[trigger] path[i], path[i + 1])
    &&& is_root[path.last() as int]
}

/// Under the constraints that pull the poles together, a chosen pole to
/// which a path leads from the roots is joined to a chosen root by wires
/// between chosen poles: each has a chosen neighbour that is nearer to the
/// roots, and so on down to a root.
pub proof fn lemma_chosen_poles_reach_a_root<N>(
    graph: &WeightedGraph<N>,
    is_root: Seq<bool>,
    costs: Seq<Option<u64>>,
    problem: &SetCoverProblem,
    solution: Seq<bool>,
    p: u32,
)
    requires
        graph.wf(),
        is_root.len() == graph.nodes().len(),
        costs.len() == graph.nodes().len(),
        same_links(problem.links@, spec_links(graph, is_root, costs, graph.nodes().len())),
        problem.feasible(solution),
        solution.len() == graph.nodes().len(),
        p < graph.nodes().len(),
        solution[p as int],
        is_root[p as int] || costs[p as int] is Some,
    ensures
        exists|path: Seq<u32>| #[trigger] is_chain(graph, solution, is_root, path) && path[0] == p,
    decreases
            (if is_root[p as int] {
                0int
            } else {
                costs[p as int]->0 + 1
            }),
{
    if is_root[p as int] {
        let path = seq![p];
        assert(is_chain(graph, solution, is_root, path) && path[0] == p);
    } else {
        let n = graph.nodes().len();
        let limit = costs[p as int]->0;
        let toward = spec_closer(graph.spec_neighbors(p), costs, limit);
        lemma_link_is_listed(graph, is_root, costs, n, p);
        let links = spec_links(graph, is_root, costs, n);
        let k = choose|k: int| 0 <= k < links.len() && #[trigger] links[k] == (p, toward);
        assert(problem.links@[k].pole == p && problem.links@[k].toward@ == toward);
        assert(chooses_one(solution, toward));
        let j = choose|j: int|
            0 <= j < toward.len() && (#[trigger] toward[j]) < solution.len()
                && solution[toward[j] as int];
        let q = toward[j];
        assert(toward.contains(q));
        lemma_closer_members(graph.spec_neighbors(p), costs, limit, q);
        graph.lemma_wf();
        crate::graph::lemma_neighbors_valid(graph.edges(), n, p);
        let at = choose|i: int|
            0 <= i < graph.spec_neighbors(p).len() && graph.spec_neighbors(p)[i] == q;
        assert(graph.spec_contains_edge(p, graph.spec_neighbors(p)[at]));
        lemma_chosen_poles_reach_a_root(graph, is_root, costs, problem, solution, q);
        let rest = choose|path: Seq<u32>| #[trigger]
            is_chain(graph, solution, is_root, path) && path[0] == q;
        let path = seq![p] + rest;
        assert(is_chain(graph, solution, is_root, path)) by {
            assert forall|i: int| 0 <= i < path.len() implies (#[trigger] path[i]) < solution.len()
                && solution[path[i] as int] by {
                if i > 0 {
                    assert(path[i] == rest[i - 1]);
                }
            }
            assert forall|i: int| 0 <= i < path.len() - 1 implies graph.spec_contains_edge(
                #[trigger] path[i],
                path[i + 1],
            ) by {
                if i > 0 {
                    assert(path[i] == rest[i - 1]);
                    assert(path[i + 1] == rest[i]);
                } else {
                    assert(path[1] == rest[0]);
                }
            }
            assert(path.last() == rest.last());
        }
        assert(path[0] == p);
    }
}

/// Whether `path` leads along edges of the chosen part `part` from node to
/// node and ends at the node of a chosen root.
pub open spec fn is_chain_in_part(
    part: &CandPoleGraph,
    sel: Seq<bool>,
    is_root: Seq<bool>,
    path: Seq<u32>,
) -> bool {
    &&& path.len() > 0
    &&& forall|i: int| 0 <= i < path.len() ==> (#[trigger] path[i]) < part.nodes().len()
    &&& forall|i: int|
        0 <= i < path.len() - 1 ==> part.spec_contains_edge(#[trigger] path[i], path[i + 1])
    &&& exists|r: u32|
        r < sel.len() && sel[r as int] && is_root[r as int] && #[trigger] rank(sel, r as int)
            == path.last()
}

/// In the chosen part of a graph, under the constraints that pull the poles
/// together, every pole to which a path led from the roots is joined to a
/// root by the wires of the part.
///
/// Here `part` is the part of `graph` that the solution `sel` chooses: it
/// has a node for every chosen pole and the edges of `graph` between them.
pub proof fn lemma_part_reaches_a_root(
    graph: &CandPoleGraph,
    part: &CandPoleGraph,
    is_root: Seq<bool>,
    costs: Seq<Option<u64>>,
    problem: &SetCoverProblem,
    sel: Seq<bool>,
    p: u32,
)
    requires
        graph.wf(),
        part.wf(),
        part.nodes().len() == rank(sel, sel.len() as int),
        forall|i: u32, j: u32|
            i < sel.len() && j < sel.len() && sel[i as int] && sel[j as int]
                && #[trigger] graph.links().contains_key(crate::graph::pair(i, j))
                ==> part.links().contains_key(
                crate::graph::pair(rank(sel, i as int) as u32, rank(sel, j as int) as u32),
            ),
        is_root.len() == graph.nodes().len(),
        costs.len() == graph.nodes().len(),
        same_links(problem.links@, spec_links(graph, is_root, costs, graph.nodes().len())),
        problem.feasible(sel),
        sel.len() == graph.nodes().len(),
        p < graph.nodes().len(),
        sel[p as int],
        is_root[p as int] || costs[p as int] is Some,
    ensures
        exists|path: Seq<u32>| #[trigger]
            is_chain_in_part(part, sel, is_root, path) && path[0] == rank(sel, p as int),
{
    let n = sel.len() as int;
    graph.lemma_wf();
    part.lemma_wf();
    lemma_chosen_poles_reach_a_root(graph, is_root, costs, problem, sel, p);
    let chain = choose|path: Seq<u32>| #[trigger]
        is_chain(graph, sel, is_root, path) && path[0] == p;
    let path = Seq::new(chain.len(), |i: int| rank(sel, chain[i] as int) as u32);
    assert forall|i: int| 0 <= i < path.len() implies (#[trigger] path[i]) < part.nodes().len()
        && path[i] == rank(sel, chain[i] as int) by {
        assert(chain[i] < sel.len() && sel[chain[i] as int]);
        lemma_rank_grows(sel, chain[i] as int, n);
    }
    assert forall|i: int| 0 <= i < path.len() - 1 implies part.spec_contains_edge(
        #[trigger] path[i],
        path[i + 1],
    ) by {
        let a = chain[i];
        let b = chain[i + 1];
        assert(a < sel.len() && sel[a as int]);
        assert(b < sel.len() && sel[b as int]);
        assert(graph.spec_contains_edge(a, b));
        graph.lemma_links_joined(a, b);
        lemma_rank_grows(sel, a as int, n);
        lemma_rank_grows(sel, b as int, n);
        assert(path[i + 1] == rank(sel, b as int));
        part.lemma_links_joined(path[i], path[i + 1]);
    }
    let last = chain.last();
    assert(chain[chain.len() - 1] == last);
    assert(last < sel.len() && sel[last as int] && is_root[last as int]);
    assert(rank(sel, last as int) == path.last());
    assert(is_chain_in_part(part, sel, is_root, path));
}

} // verus!
