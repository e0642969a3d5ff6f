//! Graphs over the poles of a model.

use crate::better_bp::EntityId;
use crate::bp_model::spec_connectable;
use crate::bp_model::lemma_linkable_symmetric;
use crate::bp_model::spec_linkable;
use crate::bp_model::BpModel;
use crate::bp_model::ModelEntity;
use crate::bp_model::WorldEntity;
use crate::bp_model::REACH_EPS;
use crate::graph::pair;
use crate::graph::WeightedGraph;
use crate::position::is_floor_sqrt;
use crate::position::lemma_floor_sqrt_bound;
use crate::pole_windows::rect_count;
use crate::pole_windows::SEARCH_MARGIN;
use crate::pole_windows::spec_window_size;
use crate::pole_windows::spec_window_top_left;
use crate::pole_windows::PoleCoverage;
use crate::pole_windows::PoleWindows;
use crate::pole_windows::WireSearch;
use crate::position::MapPosition;
use crate::position::TileBoundingBox;
use crate::position::TilePosition;
use crate::position::HALF_TILE;
use crate::position::UNITS_PER_TILE;
use crate::prototype_data::EntityPrototypeRef;
use crate::tables::id_map;
use crate::tables::id_set;
use crate::tables::IdMap;
use crate::tables::IdSet;
use crate::topology::MAX_EDGE_WEIGHT;
use vstd::prelude::*;
use vstd::set_lib::lemma_int_range;
use vstd::set_lib::lemma_len_subset;
use vstd::set_lib::set_int_range;

verus! {

/// A graph with a pole at every node. The weight of an edge is the distance
/// between the poles it joins, in map-space units, rounded down.
pub type PoleGraph = WeightedGraph<WorldEntity>;

/// A candidate pole and the ids of the power consumers it would power.
#[derive(Debug)]
pub struct CandPoleNode {
    pub entity: WorldEntity,
    pub powered_entities: IdSet,
}

impl Clone for CandPoleNode {
    fn clone(&self) -> (r: Self)
        ensures
            r == *self,
    {
        CandPoleNode { entity: self.entity.clone(), powered_entities: self.powered_entities.copy() }
    }
}

impl CandPoleNode {
    /// The ids of the power consumers that the pole would power.
    pub open spec fn powered(&self) -> Set<EntityId> {
        id_set(self.powered_entities)
    }
}

/// A graph with a candidate pole at every node.
pub type CandPoleGraph = WeightedGraph<CandPoleNode>;

/// Something that stands at a place of the map.
pub trait WithPosition {
    spec fn spec_position(&self) -> MapPosition;

    fn position(&self) -> (r: MapPosition)
        ensures
            r == self.spec_position(),
    ;

    /// A copy of the value.
    fn duplicate(&self) -> (r: Self) where Self: Sized
        ensures
            r == *self,
    ;
}

impl WithPosition for WorldEntity {
    open spec fn spec_position(&self) -> MapPosition {
        self.position
    }

    fn position(&self) -> (r: MapPosition) {
        self.position
    }

    fn duplicate(&self) -> (r: Self) {
        self.clone()
    }
}

impl WithPosition for CandPoleNode {
    open spec fn spec_position(&self) -> MapPosition {
        self.entity.position
    }

    fn position(&self) -> (r: MapPosition) {
        self.entity.position
    }

    fn duplicate(&self) -> (r: Self) {
        self.clone()
    }
}

/// The number of the id in `o`, or zero where there is none.
pub open spec fn number_of(o: Option<EntityId>) -> int {
    match o {
        Some(id) => id.0 as int,
        None => 0,
    }
}

/// Whether `id` is among the first `n` of `items`.
pub open spec fn among(items: Seq<EntityId>, n: int, id: EntityId) -> bool {
    exists|q: int| 0 <= q < n && #[trigger] items[q] == id
}

/// Whether a graph of `n` nodes takes an edge between every two of them:
/// there are fewer pairs of nodes than a graph can hold edges.
pub open spec fn roomy(n: nat) -> bool {
    n * n + 1 < u32::MAX
}

/// A graph in which no two edges join the same pair of nodes has no more
/// edges than the square of the number of its nodes.
pub proof fn lemma_simple_bound(edges: Seq<crate::graph::Edge>, n: nat)
    requires
        crate::graph::simple(edges, n),
    ensures
        edges.len() <= n * n,
{
    let s = Seq::new(
        edges.len(),
        |k: int| pair(edges[k].0, edges[k].1).0 as int * n + pair(edges[k].0, edges[k].1).1 as int,
    );
    assert(0 <= n * n) by (nonlinear_arith);
    assert forall|i: int| 0 <= i < s.len() implies 0 <= #[trigger] s[i] < n * n by {
        let p = pair(edges[i].0, edges[i].1);
        assert(edges[i].0 < n && edges[i].1 < n);
        assert(0 <= p.0 * n + p.1 < n * n) by (nonlinear_arith)
            requires
                0 <= p.0 < n,
                0 <= p.1 < n,
        ;
    }
    assert(s.no_duplicates()) by {
        assert forall|j: int, k: int| 0 <= j < s.len() && 0 <= k < s.len() && j != k implies s[j]
            != s[k] by {
            let p = pair(edges[j].0, edges[j].1);
            let q = pair(edges[k].0, edges[k].1);
            assert(edges[j].0 < n && edges[j].1 < n);
            assert(edges[k].0 < n && edges[k].1 < n);
            if s[j] == s[k] {
                assert(p.0 == q.0 && p.1 == q.1) by (nonlinear_arith)
                    requires
                        p.0 * n + p.1 == q.0 * n + q.1,
                        0 <= p.0 < n,
                        0 <= p.1 < n,
                        0 <= q.0 < n,
                        0 <= q.1 < n,
                ;
                assert(crate::topology::joins(edges[j], edges[k].0, edges[k].1));
                if j < k {
                    assert(!crate::topology::joins(edges[j], edges[k].0, edges[k].1));
                } else {
                    assert(crate::topology::joins(edges[k], edges[j].0, edges[j].1));
                    assert(!crate::topology::joins(edges[k], edges[j].0, edges[j].1));
                }
            }
        }
    }
    lemma_distinct_below(s, (n * n) as int);
}

/// A graph of no more nodes than `most`, where a graph of `most` nodes is
/// roomy, has room for one more edge.
pub proof fn lemma_roomy<N>(graph: &WeightedGraph<N>, most: nat)
    requires
        graph.wf(),
        graph.nodes().len() <= most,
        roomy(most),
    ensures
        graph.edges().len() + 1 < u32::MAX,
{
    graph.lemma_wf();
    lemma_simple_bound(graph.edges(), graph.nodes().len());
    let n = graph.nodes().len();
    assert(n * n <= most * most) by (nonlinear_arith)
        requires
            0 <= n <= most,
    ;
}

/// Distinct numbers below `n` are at most `n` many.
pub proof fn lemma_distinct_below(s: Seq<int>, n: int)
    requires
        s.no_duplicates(),
        0 <= n,
        forall|i: int| 0 <= i < s.len() ==> 0 <= #[trigger] s[i] < n,
    ensures
        s.len() <= n,
{
    s.unique_seq_to_set();
    lemma_int_range(0, n);
    assert(s.to_set().subset_of(set_int_range(0, n))) by {
        assert forall|x: int| s.to_set().contains(x) implies set_int_range(0, n).contains(x) by {
            let k = choose|k: int| 0 <= k < s.len() && s[k] == x;
            assert(0 <= s[k] < n);
        }
    }
    lemma_len_subset(s.to_set(), set_int_range(0, n));
}

/// Whether the entity under `id` exists in `model` and is a pole.
pub open spec fn is_pole(model: &BpModel, id: EntityId) -> bool {
    model.has(id) && model.entities()[id].entity.prototype.value().spec_is_pole()
}

/// The id that `idx` sends to node `i`.
pub open spec fn node_id(idx: Map<EntityId, u32>, i: u32) -> EntityId {
    choose|id: EntityId| idx.contains_key(id) && idx[id] == i
}

/// Whether `idx` numbers the poles of `model` from zero up to `nodes`: it
/// knows exactly the ids of the poles, sends different poles to different
/// numbers, and reaches every number below `nodes`.
pub open spec fn pole_numbering(model: &BpModel, nodes: nat, idx: Map<EntityId, u32>) -> bool {
    &&& forall|id: EntityId| #[trigger] idx.contains_key(id) <==> is_pole(model, id)
    &&& forall|id: EntityId| #[trigger] idx.contains_key(id) ==> idx[id] < nodes
    &&& forall|a: EntityId, b: EntityId|
        #![trigger idx[a], idx[b]]
        idx.contains_key(a) && idx.contains_key(b) && idx[a] == idx[b] ==> a == b
    &&& forall|i: u32|
        i < nodes ==> idx.contains_key(#[trigger] node_id(idx, i)) && idx[node_id(idx, i)] == i
}

/// Whether `idx` numbers the poles of `model` as the nodes `nodes`, and at
/// the node of every pole stands something at the place of that pole.
pub open spec fn pole_index<N: WithPosition>(
    model: &BpModel,
    nodes: Seq<N>,
    idx: Map<EntityId, u32>,
) -> bool {
    &&& pole_numbering(model, nodes.len(), idx)
    &&& forall|id: EntityId| #[trigger]
        idx.contains_key(id) ==> nodes[idx[id] as int].spec_position()
            == model.entities()[id].entity.position
}

/// The pole that a numbering sends to a node is the one it came from.
pub proof fn lemma_node_id(model: &BpModel, nodes: nat, idx: Map<EntityId, u32>, a: EntityId)
    requires
        pole_numbering(model, nodes, idx),
        idx.contains_key(a),
    ensures
        node_id(idx, idx[a]) == a,
{
    let i = idx[a];
    let b = node_id(idx, i);
    assert(idx.contains_key(b) && idx[b] == i);
    assert(idx[a] == idx[b]);
}

/// The ids that stand on a tile of the square window of side `size` with
/// its top-left tile at `top_left`.
pub open spec fn window_ids(model: &BpModel, top_left: TilePosition, size: int) -> Set<EntityId> {
    Set::new(
        |id: EntityId| rect_count(model, top_left.x as int, top_left.y as int, size, size, id) > 0,
    )
}

/// The ids in the window that covers the supply area of pole `e`.
pub open spec fn supply_window(model: &BpModel, e: WorldEntity) -> Set<EntityId> {
    let proto = e.prototype.value();
    let radius = proto.pole_data->0.supply_radius;
    window_ids(
        model,
        spec_window_top_left(radius, e.position),
        spec_window_size(proto.tile_width, proto.tile_height, radius),
    )
}

/// The ids in the window in which partners for a wire from pole `e` are
/// looked for: the wire window, wider by [`SEARCH_MARGIN`] to every side.
pub open spec fn search_window(model: &BpModel, e: WorldEntity) -> Set<EntityId> {
    let proto = e.prototype.value();
    let radius = (proto.pole_data->0.wire_distance + SEARCH_MARGIN) as i64;
    window_ids(
        model,
        spec_window_top_left(radius, e.position),
        spec_window_size(proto.tile_width, proto.tile_height, radius),
    )
}

/// Two places between which a wire of length `wire` or less fits, give or
/// take the tolerance of the test, are no more than `wire` and a thousandth
/// of a tile apart along either axis.
pub proof fn lemma_reach_is_near(p: MapPosition, q: MapPosition, reach: int, wire: int)
    requires
        0 <= reach <= wire,
        p.spec_square_distance(q) <= reach * reach + REACH_EPS,
    ensures
        -(wire + 1000) <= q.x - p.x <= wire + 1000,
        -(wire + 1000) <= q.y - p.y <= wire + 1000,
{
    let dx = p.x - q.x;
    let dy = p.y - q.y;
    assert(-(reach + 1000) <= dx <= reach + 1000 && -(reach + 1000) <= dy <= reach + 1000)
        by (nonlinear_arith)
        requires
            dx * dx + dy * dy <= reach * reach + 1_000_000,
            0 <= reach,
    ;
}

/// A pole of the model that is no more than the wire distance of pole `a`
/// and a thousandth of a tile away from it, along either axis, stands in the
/// search window of `a`.
pub proof fn lemma_pole_in_search_window(model: &BpModel, a: WorldEntity, b: EntityId)
    requires
        model.wf(),
        a.wf(),
        a.prototype.value().spec_is_pole(),
        is_pole(model, b),
        ({
            let wire = a.prototype.value().pole_data->0.wire_distance;
            let q = model.entities()[b].entity.position;
            &&& -(wire + 1000) <= q.x - a.position.x <= wire + 1000
            &&& -(wire + 1000) <= q.y - a.position.y <= wire + 1000
        }),
    ensures
        search_window(model, a).contains(b),
{
    let proto = a.prototype.value();
    let wire = proto.pole_data->0.wire_distance;
    let radius = wire + SEARCH_MARGIN;
    let other = model.entities()[b].entity;
    let q = other.position;
    let tl = spec_window_top_left(radius as i64, a.position);
    let size = spec_window_size(proto.tile_width, proto.tile_height, radius as i64);
    let tb = q.spec_tile_pos();
    assert(model.entities()[b].wf());
    other.lemma_pole_covers_own_tile();
    assert(model.occupies(b, tb));
    assert(model.bucket(tb).contains(b));
    q.lemma_in_world_has_tile();
    let rx = crate::pole_windows::spec_rep_center(proto.tile_width);
    let ry = crate::pole_windows::spec_rep_center(proto.tile_height);
    crate::position::lemma_tile_floor_bounds(q.x as int);
    crate::position::lemma_tile_floor_bounds(q.y as int);
    crate::position::lemma_tile_floor_bounds(a.position.x - radius);
    crate::position::lemma_tile_floor_bounds(a.position.y - radius);
    crate::position::lemma_tile_floor_bounds(rx - radius);
    crate::position::lemma_tile_ceil_bounds(rx + radius);
    crate::position::lemma_tile_floor_bounds(ry - radius);
    crate::position::lemma_tile_ceil_bounds(ry + radius);
    let sx = crate::pole_windows::spec_axis_span(proto.tile_width, radius as i64);
    let sy = crate::pole_windows::spec_axis_span(proto.tile_height, radius as i64);
    assert(sx * 1_000_000 >= 2 * radius);
    assert(sy * 1_000_000 >= 2 * radius);
    assert(size >= sx && size >= sy);
    assert(tl.x <= tb.x < tl.x + size);
    assert(tl.y <= tb.y < tl.y + size);
    assert(crate::pole_windows::cell(model, tb.x as int, tb.y as int, b) == 1) by {
        assert(TilePosition { x: (tb.x as int) as i32, y: (tb.y as int) as i32 } == tb);
    }
    crate::pole_windows::lemma_cell_in_rect(
        model,
        tl.x as int,
        tl.y as int,
        size,
        size,
        tb.x as int,
        tb.y as int,
        b,
    );
}

/// Whether a wire can join the poles `a` and `b` of the model: they are two
/// poles, and their distance is at most the shorter of their wire distances,
/// give or take the tolerance of the test.
pub open spec fn in_reach(model: &BpModel, a: EntityId, b: EntityId) -> bool {
    &&& is_pole(model, a)
    &&& is_pole(model, b)
    &&& a != b
    &&& spec_connectable(
        model.entities()[a].entity.position,
        model.entities()[a].entity.prototype.value().pole_data->0,
        model.entities()[b].entity,
    )
}

/// Whether the nodes of pair `p` are those of two poles that a wire can
/// join.
pub open spec fn reach_pair(model: &BpModel, idx: Map<EntityId, u32>, p: (u32, u32)) -> bool {
    in_reach(model, node_id(idx, p.0), node_id(idx, p.1))
}

/// A wire that can join `a` to `b` can join `b` to `a`.
pub proof fn lemma_reach_is_mutual(model: &BpModel, a: EntityId, b: EntityId)
    requires
        in_reach(model, a, b),
    ensures
        in_reach(model, b, a),
{
    crate::position::lemma_distance_symmetric(
        model.entities()[a].entity.position,
        model.entities()[b].entity.position,
    );
}

/// Whether `pairs` are different pairs of poles that a wire can join, the
/// pole with the smaller id first, none of which `links` joins yet under
/// the numbering `idx`.
pub open spec fn new_reach_pairs(
    model: &BpModel,
    idx: Map<EntityId, u32>,
    links: Map<(u32, u32), u64>,
    pairs: Seq<(EntityId, EntityId)>,
) -> bool {
    &&& pairs.no_duplicates()
    &&& forall|i: int|
        0 <= i < pairs.len() ==> {
            let p = #[trigger] pairs[i];
            &&& p.0.0 < p.1.0
            &&& in_reach(model, p.0, p.1)
            &&& !links.contains_key(pair(idx[p.0], idx[p.1]))
        }
}

/// Whether a graph of `edges` edges, the links `links` among them, can
/// take an edge for every further pair of poles that a wire can join, and
/// one more.
pub open spec fn takes_all(
    model: &BpModel,
    idx: Map<EntityId, u32>,
    links: Map<(u32, u32), u64>,
    edges: nat,
) -> bool {
    forall|pairs: Seq<(EntityId, EntityId)>| #[trigger]
        new_reach_pairs(model, idx, links, pairs) ==> edges + pairs.len() + 1 < u32::MAX
}

/// Whether a graph can hold an edge for every pair of poles of the model
/// that a wire can join, and one more.
pub open spec fn few_in_reach(model: &BpModel) -> bool {
    takes_all(model, Map::empty(), Map::empty(), 0)
}

/// The search from the pole with the smaller id finds every pole that a
/// wire can join it to.
pub proof fn lemma_reach_is_found(model: &BpModel, a: EntityId, b: EntityId)
    requires
        model.wf(),
        in_reach(model, a, b),
        a.0 < b.0,
    ensures
        search_finds(model, a, b),
{
    let ea = model.entities()[a].entity;
    let eb = model.entities()[b].entity;
    assert(model.entities()[a].wf() && model.entities()[b].wf());
    ea.lemma_pole_covers_own_tile();
    assert(model.occupies(a, ea.position.spec_tile_pos()));
    let pa = ea.prototype.value().pole_data->0;
    let pb = eb.prototype.value().pole_data->0;
    lemma_reach_is_near(
        ea.position,
        eb.position,
        crate::bp_model::min_wire(pa, pb),
        pa.wire_distance as int,
    );
    lemma_pole_in_search_window(model, ea, b);
}

/// Whether the search from pole `a` finds pole `b` and joins them: `a` has
/// the smaller id and overlaps a tile, `b` stands in the search window of
/// `a`, and a wire from `a` reaches `b`.
pub open spec fn search_finds(model: &BpModel, a: EntityId, b: EntityId) -> bool {
    &&& is_pole(model, a)
    &&& is_pole(model, b)
    &&& a.0 < b.0
    &&& exists|t: TilePosition| model.occupies(a, t)
    &&& search_window(model, model.entities()[a].entity).contains(b)
    &&& spec_connectable(
        model.entities()[a].entity.position,
        model.entities()[a].entity.prototype.value().pole_data->0,
        model.entities()[b].entity,
    )
}

/// Whether the nodes of pair `p` are those of two poles of which the search
/// from one finds the other.
pub open spec fn found_pair(model: &BpModel, idx: Map<EntityId, u32>, p: (u32, u32)) -> bool {
    search_finds(model, node_id(idx, p.0), node_id(idx, p.1)) || search_finds(
        model,
        node_id(idx, p.1),
        node_id(idx, p.0),
    )
}

/// Whether the nodes of pair `p` are those of two poles that share a cable.
pub open spec fn cable_pair(model: &BpModel, idx: Map<EntityId, u32>, p: (u32, u32)) -> bool {
    model.cabled(node_id(idx, p.0), node_id(idx, p.1)) && model.has(node_id(idx, p.1))
}

/// The weight of a wire between the poles at the nodes of pair `p`.
pub open spec fn pair_length(model: &BpModel, idx: Map<EntityId, u32>, p: (u32, u32)) -> int {
    wire_length(
        model.entities()[node_id(idx, p.0)].entity.position,
        model.entities()[node_id(idx, p.1)].entity.position,
    )
}

/// The pair of the nodes of two poles stands for those two poles.
pub proof fn lemma_pair_of_poles(
    model: &BpModel,
    nodes: nat,
    idx: Map<EntityId, u32>,
    a: EntityId,
    b: EntityId,
)
    requires
        pole_numbering(model, nodes, idx),
        idx.contains_key(a),
        idx.contains_key(b),
    ensures
        ({
            let p = pair(idx[a], idx[b]);
            &&& pair_length(model, idx, p) == wire_length(
                model.entities()[a].entity.position,
                model.entities()[b].entity.position,
            )
            &&& (node_id(idx, p.0) == a && node_id(idx, p.1) == b) || (node_id(idx, p.0) == b
                && node_id(idx, p.1) == a)
            &&& p.0 < nodes && p.1 < nodes
            &&& pair(idx[a], idx[b]) == pair(idx[b], idx[a])
        }),
{
    lemma_node_id(model, nodes, idx, a);
    lemma_node_id(model, nodes, idx, b);
    crate::position::lemma_distance_symmetric(
        model.entities()[a].entity.position,
        model.entities()[b].entity.position,
    );
}

/// The weight of a wire between two places: their distance, rounded down.
pub open spec fn wire_length(a: MapPosition, b: MapPosition) -> int {
    a.spec_distance_to(b)
}

/// Two poles within reach of each other are no more than [`MAX_EDGE_WEIGHT`]
/// apart.
pub proof fn lemma_reach_bounds_length(a: MapPosition, b: MapPosition, reach: int, r: int)
    requires
        0 <= reach <= 1_000_000_000,
        a.spec_square_distance(b) <= reach * reach + REACH_EPS,
        is_floor_sqrt(a.spec_square_distance(b), r),
    ensures
        r <= MAX_EDGE_WEIGHT,
        wire_length(a, b) == r,
{
    crate::position::lemma_floor_sqrt_unique(a.spec_square_distance(b), r);
    assert(reach * reach <= 1_000_000_000 * 1_000_000_000) by (nonlinear_arith)
        requires
            0 <= reach <= 1_000_000_000,
    ;
    if r > 4_000_000_000 {
        assert(r * r >= 4_000_000_000 * 4_000_000_000) by (nonlinear_arith)
            requires
                r >= 4_000_000_000,
        ;
    }
}

impl BpModel {
    /// A graph with a node for every pole of the model and no edge, and the
    /// node of every pole by its id. The order of the nodes is not stated.
    pub fn get_disconnected_pole_graph(&self) -> (r: (PoleGraph, IdMap))
        requires
            self.wf(),
        ensures
            r.0.wf(),
            r.0.edges() =~= Seq::empty(),
            r.0.nodes().len() <= self.entities().dom().len(),
            pole_index(self, r.0.nodes(), id_map(r.1)),
            forall|id: EntityId| #[trigger]
                id_map(r.1).contains_key(id) ==> r.0.nodes()[id_map(r.1)[id] as int]
                    == self.entities()[id].entity,
    {
        let all = self.all_entities();
        let mut graph = PoleGraph::new_undirected();
        let mut idx = IdMap::new();
        let ghost mut ids: Seq<EntityId> = Seq::empty();
        proof {
            let nums = Seq::new(all@.len(), |i: int| all@[i].id.0 as int);
            assert(nums.no_duplicates());
            assert forall|i: int| 0 <= i < nums.len() implies 0 <= #[trigger] nums[i]
                < self.spec_next_id().0 by {
                assert(self.has(all@[i].id));
            }
            lemma_distinct_below(nums, self.spec_next_id().0 as int);
        }
        let mut i: usize = 0;
        while i < all.len()
            invariant
                0 <= i <= all@.len(),
                all@.len() <= u32::MAX,
                self.wf(),
                graph.wf(),
                graph.edges() =~= Seq::empty(),
                graph.nodes().len() <= i,
                ids.len() == graph.nodes().len(),
                forall|j: int|
                    0 <= j < all@.len() ==> self.has((#[trigger] all@[j]).id) && *all@[j]
                        == self.entities()[all@[j].id],
                forall|j: int, k: int| 0 <= j < k < all@.len() ==> all@[j].id != all@[k].id,
                forall|id: EntityId| #[trigger]
                    id_map(idx).contains_key(id) <==> (is_pole(self, id) && exists|j: int|
                        0 <= j < i && (#[trigger] all@[j]).id == id),
                forall|id: EntityId| #[trigger]
                    id_map(idx).contains_key(id) ==> id_map(idx)[id] < graph.nodes().len()
                        && graph.nodes()[id_map(idx)[id] as int] == self.entities()[id].entity
                        && ids[id_map(idx)[id] as int] == id,
                forall|k: int|
                    0 <= k < ids.len() ==> id_map(idx).contains_key(#[trigger] ids[k]) && id_map(
                        idx,
                    )[ids[k]] == k,
            decreases all@.len() - i,
        {
            let entity = all[i];
            let ghost before = id_map(idx);
            let ghost old_ids = ids;
            let ghost old_nodes = graph.nodes();
            proof {
                assert(self.has(all@[i as int].id));
            }
            if entity.entity.prototype.get().is_pole() {
                let n = graph.add_node(entity.entity.clone());
                idx.insert(entity.id, n);
                proof {
                    ids = ids.push(entity.id);
                    assert(!before.contains_key(entity.id)) by {
                        if before.contains_key(entity.id) {
                            let j = choose|j: int| 0 <= j < i && (#[trigger] all@[j]).id == entity.id;
                            assert(all@[j].id != all@[i as int].id);
                        }
                    }
                    assert forall|id: EntityId| #[trigger]
                        id_map(idx).contains_key(id) <==> (is_pole(self, id) && exists|j: int|
                            0 <= j < i + 1 && (#[trigger] all@[j]).id == id) by {
                        if id == entity.id {
                            assert(all@[i as int].id == id);
                        } else {
                            if before.contains_key(id) {
                                let j = choose|j: int| 0 <= j < i && (#[trigger] all@[j]).id == id;
                                assert(0 <= j < i + 1 && all@[j].id == id);
                            }
                            if is_pole(self, id) && exists|j: int|
                                0 <= j < i + 1 && (#[trigger] all@[j]).id == id {
                                let j = choose|j: int|
                                    0 <= j < i + 1 && (#[trigger] all@[j]).id == id;
                                assert(j < i);
                            }
                        }
                    }
                    assert forall|id: EntityId| #[trigger]
                        id_map(idx).contains_key(id) implies id_map(idx)[id] < graph.nodes().len()
                        && graph.nodes()[id_map(idx)[id] as int] == self.entities()[id].entity
                        && ids[id_map(idx)[id] as int] == id by {
                        if id != entity.id {
                            assert(before.contains_key(id));
                            assert(old_nodes[before[id] as int] == self.entities()[id].entity);
                            assert(old_ids[before[id] as int] == id);
                        }
                    }
                    assert forall|k: int| 0 <= k < ids.len() implies id_map(idx).contains_key(
                        #[trigger] ids[k],
                    ) && id_map(idx)[ids[k]] == k by {
                        if k < old_ids.len() {
                            assert(before.contains_key(old_ids[k]));
                            assert(old_ids[k] != entity.id);
                        }
                    }
                }
            } else {
                proof {
                    assert forall|id: EntityId| #[trigger]
                        id_map(idx).contains_key(id) <==> (is_pole(self, id) && exists|j: int|
                            0 <= j < i + 1 && (#[trigger] all@[j]).id == id) by {
                        if before.contains_key(id) {
                            let j = choose|j: int| 0 <= j < i && (#[trigger] all@[j]).id == id;
                            assert(0 <= j < i + 1 && all@[j].id == id);
                        }
                        if is_pole(self, id) && exists|j: int|
                            0 <= j < i + 1 && (#[trigger] all@[j]).id == id {
                            let j = choose|j: int| 0 <= j < i + 1 && (#[trigger] all@[j]).id == id;
                            assert(j < i);
                        }
                    }
                }
            }
            i = i + 1;
        }
        proof {
            let m = id_map(idx);
            assert forall|id: EntityId| #[trigger] m.contains_key(id) <==> is_pole(self, id) by {
                if is_pole(self, id) {
                    let j = choose|j: int| 0 <= j < all@.len() && (#[trigger] all@[j]).id == id;
                    assert(0 <= j < i && all@[j].id == id);
                }
            }
            assert forall|a: EntityId, b: EntityId|
                #![trigger m[a], m[b]]
                m.contains_key(a) && m.contains_key(b) && m[a] == m[b] implies a == b by {
                assert(ids[m[a] as int] == a);
                assert(ids[m[b] as int] == b);
            }
            assert forall|k: u32| k < graph.nodes().len() implies m.contains_key(
                #[trigger] node_id(m, k),
            ) && m[node_id(m, k)] == k by {
                assert(m.contains_key(ids[k as int]) && m[ids[k as int]] == k);
            }
            assert(pole_numbering(self, graph.nodes().len(), m));
        }
        (graph, idx)
    }

    /// Joins nodes `a` and `b` by an edge of weight `weight`, or gives the
    /// edge between them that weight. Nothing happens where the graph cannot
    /// take another edge.
    fn link_nodes<N>(graph: &mut WeightedGraph<N>, a: u32, b: u32, weight: u64) -> (done: bool)
        requires
            old(graph).wf(),
            a < old(graph).nodes().len(),
            b < old(graph).nodes().len(),
            a != b,
            weight <= MAX_EDGE_WEIGHT,
        ensures
            final(graph).wf(),
            final(graph).nodes() == old(graph).nodes(),
            done == (old(graph).edges().len() + 1 < u32::MAX),
            done ==> final(graph).links() == old(graph).links().insert(pair(a, b), weight),
            !done ==> final(graph).links() == old(graph).links(),
            final(graph).edges().len() == old(graph).edges().len() + (if done && !old(
                graph,
            ).links().contains_key(pair(a, b)) {
                1int
            } else {
                0int
            }),
    {
        proof {
            graph.lemma_links_joined(a, b);
        }
        if graph.edge_count() < (u32::MAX - 1) as usize {
            graph.update_edge(a, b, weight);
            true
        } else {
            false
        }
    }

    /// The graph of the poles of the model and the cables between them, and
    /// the node of every pole by its id. A cable towards an entity that the
    /// model no longer holds is left out.
    pub fn get_current_pole_graph(&self) -> (r: (PoleGraph, IdMap))
        requires
            self.wf(),
        ensures
            r.0.wf(),
            pole_index(self, r.0.nodes(), id_map(r.1)),
            forall|id: EntityId| #[trigger]
                id_map(r.1).contains_key(id) ==> r.0.nodes()[id_map(r.1)[id] as int]
                    == self.entities()[id].entity,
            forall|p: (u32, u32)| #[trigger]
                r.0.links().contains_key(p) ==> cable_pair(self, id_map(r.1), p) && r.0.links()[p]
                    == pair_length(self, id_map(r.1), p),
            r.0.nodes().len() <= self.entities().dom().len(),
            few_in_reach(self) || roomy(self.entities().dom().len()) ==> forall|
                a: EntityId,
                b: EntityId,
            | #[trigger]
                self.cabled(a, b) ==> r.0.links().contains_key(pair(id_map(r.1)[a], id_map(r.1)[b])),
    {
        let (mut graph, idx) = self.get_disconnected_pole_graph();
        let all = self.all_entities();
        let ghost m = id_map(idx);
        let ghost n = graph.nodes().len();
        let ghost nodes = graph.nodes();
        let ghost mut dropped = false;
        let ghost mut found: Seq<(EntityId, EntityId)> = Seq::empty();
        let ghost none: Map<(u32, u32), u64> = Map::empty();
        proof {
            graph.lemma_wf();
            assert(graph.links() =~= Map::empty()) by {
                assert forall|p: (u32, u32)| !graph.links().contains_key(p) by {}
            }
        }
        let mut i: usize = 0;
        while i < all.len()
            invariant
                0 <= i <= all@.len(),
                none =~= Map::empty(),
                graph.edges().len() == found.len(),
                new_reach_pairs(self, m, none, found),
                forall|q: int|
                    0 <= q < found.len() ==> graph.links().contains_key(
                        pair(m[(#[trigger] found[q]).0], m[found[q].1]),
                    ),
                self.wf(),
                graph.wf(),
                graph.nodes() == nodes,
                n == nodes.len(),
                m == id_map(idx),
                pole_index(self, nodes, m),
                forall|j: int|
                    0 <= j < all@.len() ==> self.has((#[trigger] all@[j]).id) && *all@[j]
                        == self.entities()[all@[j].id],
                forall|id: EntityId|
                    self.has(id) ==> exists|j: int|
                        0 <= j < all@.len() && (#[trigger] all@[j]).id == id,
                forall|p: (u32, u32)| #[trigger]
                    graph.links().contains_key(p) ==> cable_pair(self, m, p) && graph.links()[p]
                        == pair_length(self, m, p),
                dropped ==> graph.edges().len() + 1 >= u32::MAX,
                !dropped ==> forall|j: int, b: EntityId|
                    0 <= j < i && #[trigger] self.cabled((#[trigger] all@[j]).id, b) && self.has(b)
                        && all@[j].id.0 <= b.0 ==> graph.links().contains_key(
                        pair(m[all@[j].id], m[b]),
                    ),
            decreases all@.len() - i,
        {
            let entity = all[i];
            let a = entity.id;
            proof {
                assert(self.has(all@[i as int].id));
                assert(self.entities()[a].wf());
            }
            match (entity.pole_connections(), idx.get(a)) {
                (Some(cables), Some(ia)) => {
                    let others = cables.connections.to_vec();
                    let mut k: usize = 0;
                    while k < others.len()
                        invariant
                            0 <= k <= others@.len(),
                            0 <= i < all@.len(),
                            entity == all@[i as int],
                            a == entity.id,
                            self.has(a),
                            *entity == self.entities()[a],
                            m.contains_key(a),
                            ia == m[a],
                            others@.to_set() == self.entities()[a].neighbors(),
                            none =~= Map::empty(),
                            graph.edges().len() == found.len(),
                            new_reach_pairs(self, m, none, found),
                            forall|q: int|
                                0 <= q < found.len() ==> graph.links().contains_key(
                                    pair(m[(#[trigger] found[q]).0], m[found[q].1]),
                                ),
                            self.wf(),
                            graph.wf(),
                            graph.nodes() == nodes,
                            n == nodes.len(),
                            m == id_map(idx),
                            pole_index(self, nodes, m),
                            forall|p: (u32, u32)| #[trigger]
                                graph.links().contains_key(p) ==> cable_pair(self, m, p)
                                    && graph.links()[p] == pair_length(self, m, p),
                            dropped ==> graph.edges().len() + 1 >= u32::MAX,
                            !dropped ==> forall|j: int, b: EntityId|
                                0 <= j < i && #[trigger] self.cabled((#[trigger] all@[j]).id, b)
                                    && self.has(b) && all@[j].id.0 <= b.0
                                    ==> graph.links().contains_key(pair(m[all@[j].id], m[b])),
                            !dropped ==> forall|q: int|
                                0 <= q < k && self.has(#[trigger] others@[q]) && a.0
                                    <= others@[q].0 ==> graph.links().contains_key(
                                    pair(ia, m[others@[q]]),
                                ),
                        decreases others@.len() - k,
                    {
                        let b = others[k];
                        let ghost before = graph.links();
                        proof {
                            assert(others@.to_set().contains(b));
                            assert(self.cabled(a, b));
                        }
                        if b.0 >= a.0 {
                            match (idx.get(b), self.get(b)) {
                                (Some(ib), Some(other)) => {
                                    proof {
                                        assert(self.cabled(b, a) && a != b);
                                        assert(spec_linkable(
                                            self.entities()[a].entity,
                                            self.entities()[b].entity,
                                        ));
                                        assert(self.entities()[b].wf());
                                        lemma_pair_of_poles(self, n, m, a, b);
                                    }
                                    let d = entity.entity.position.distance_to(
                                        &other.entity.position,
                                    );
                                    proof {
                                        let pa = self.entities()[a].entity.prototype.value().pole_data->0;
                                        let pb = self.entities()[b].entity.prototype.value().pole_data->0;
                                        lemma_reach_bounds_length(
                                            entity.entity.position,
                                            other.entity.position,
                                            crate::bp_model::min_wire(pa, pb),
                                            d as int,
                                        );
                                    }
                                    let ghost had = found;
                                    let done = Self::link_nodes(&mut graph, ia, ib, d);
                                    proof {
                                        if !done {
                                            dropped = true;
                                        }
                                        let p0 = pair(ia, ib);
                                        assert(in_reach(self, a, b));
                                        if done && !before.contains_key(p0) {
                                            found = had.push((a, b));
                                            assert(!had.contains((a, b))) by {
                                                if had.contains((a, b)) {
                                                    let q = choose|q: int|
                                                        0 <= q < had.len() && had[q] == (a, b);
                                                    assert(before.contains_key(
                                                        pair(m[had[q].0], m[had[q].1]),
                                                    ));
                                                }
                                            }
                                            assert(found.no_duplicates()) by {
                                                assert forall|x: int, y: int|
                                                    0 <= x < found.len() && 0 <= y < found.len() && x
                                                        != y implies found[x] != found[y] by {
                                                    if x < had.len() && y < had.len() {
                                                        assert(had[x] != had[y]);
                                                    } else if x < had.len() {
                                                        assert(had.contains(had[x]));
                                                    } else {
                                                        assert(had.contains(had[y]));
                                                    }
                                                }
                                            }
                                            assert(new_reach_pairs(self, m, none, found)) by {
                                                assert forall|q: int| 0 <= q < found.len() implies {
                                                    let p = #[trigger] found[q];
                                                    &&& p.0.0 < p.1.0
                                                    &&& in_reach(self, p.0, p.1)
                                                    &&& !none.contains_key(pair(m[p.0], m[p.1]))
                                                } by {
                                                    if q < had.len() {
                                                        assert(found[q] == had[q]);
                                                    }
                                                }
                                            }
                                        }
                                        assert forall|q: int|
                                            0 <= q < found.len() implies graph.links().contains_key(
                                            pair(m[(#[trigger] found[q]).0], m[found[q].1]),
                                        ) by {
                                            if q < had.len() {
                                                assert(found[q] == had[q]);
                                                assert(before.contains_key(
                                                    pair(m[had[q].0], m[had[q].1]),
                                                ));
                                            }
                                        }
                                        assert forall|p: (u32, u32)| #[trigger]
                                            graph.links().contains_key(p) implies cable_pair(
                                            self,
                                            m,
                                            p,
                                        ) && graph.links()[p] == pair_length(self, m, p) by {
                                            if p != pair(ia, ib) {
                                                assert(before.contains_key(p));
                                            }
                                        }
                                    }
                                },
                                _ => {
                                    proof {
                                        if self.has(b) {
                                            assert(m.contains_key(b)) by {
                                                assert(self.cabled(b, a));
                                                assert(spec_linkable(
                                                    self.entities()[a].entity,
                                                    self.entities()[b].entity,
                                                ));
                                                assert(is_pole(self, b));
                                            }
                                        }
                                    }
                                },
                            }
                        }
                        proof {
                            if !dropped {
                                assert forall|j: int, c: EntityId|
                                    0 <= j < i && #[trigger] self.cabled(
                                        (#[trigger] all@[j]).id,
                                        c,
                                    ) && self.has(c) && all@[j].id.0
                                        <= c.0 implies graph.links().contains_key(
                                    pair(m[all@[j].id], m[c]),
                                ) by {
                                    assert(before.contains_key(pair(m[all@[j].id], m[c])));
                                }
                                assert forall|q: int|
                                    0 <= q < k + 1 && self.has(#[trigger] others@[q]) && a.0
                                        <= others@[q].0 implies graph.links().contains_key(
                                    pair(ia, m[others@[q]]),
                                ) by {
                                    if q < k {
                                        assert(before.contains_key(pair(ia, m[others@[q]])));
                                    }
                                }
                            }
                        }
                        k = k + 1;
                    }
                    proof {
                        if !dropped {
                            assert forall|j: int, c: EntityId|
                                0 <= j < i + 1 && #[trigger] self.cabled((#[trigger] all@[j]).id, c)
                                    && self.has(c) && all@[j].id.0
                                    <= c.0 implies graph.links().contains_key(
                                pair(m[all@[j].id], m[c]),
                            ) by {
                                if j == i {
                                    assert(others@.to_set().contains(c));
                                    let q = choose|q: int| 0 <= q < others@.len() && others@[q] == c;
                                    assert(self.has(others@[q]));
                                }
                            }
                        }
                    }
                },
                _ => {
                    proof {
                        if !dropped {
                            assert forall|j: int, c: EntityId|
                                0 <= j < i + 1 && #[trigger] self.cabled((#[trigger] all@[j]).id, c)
                                    && self.has(c) && all@[j].id.0
                                    <= c.0 implies graph.links().contains_key(
                                pair(m[all@[j].id], m[c]),
                            ) by {
                                if j == i {
                                    assert(self.cabled(c, a));
                                    assert(spec_linkable(
                                        self.entities()[a].entity,
                                        self.entities()[c].entity,
                                    ));
                                    assert(is_pole(self, a));
                                    assert(m.contains_key(a));
                                    assert(false);
                                }
                            }
                        }
                    }
                },
            }
            i = i + 1;
        }
        proof {
            if roomy(self.entities().dom().len()) {
                lemma_roomy(&graph, self.entities().dom().len());
            }
            if few_in_reach(self) {
                assert(new_reach_pairs(self, Map::empty(), Map::empty(), found));
            }
            if graph.edges().len() + 1 < u32::MAX {
                assert(!dropped);
                assert forall|a: EntityId, b: EntityId| #[trigger]
                    self.cabled(a, b) implies graph.links().contains_key(pair(m[a], m[b])) by {
                    assert(self.has(b));
                    assert(self.cabled(b, a) && a != b);
                    assert(spec_linkable(self.entities()[a].entity, self.entities()[b].entity));
                    assert(m.contains_key(a) && m.contains_key(b));
                    lemma_pair_of_poles(self, n, m, a, b);
                    let ja = choose|j: int| 0 <= j < all@.len() && (#[trigger] all@[j]).id == a;
                    let jb = choose|j: int| 0 <= j < all@.len() && (#[trigger] all@[j]).id == b;
                    if a.0 <= b.0 {
                        assert(self.cabled(all@[ja].id, b));
                    } else {
                        assert(self.cabled(all@[jb].id, a));
                    }
                }
            }
        }
        (graph, idx)
    }

    /// The graph of the poles of the model in which an edge joins every two
    /// poles that a wire can join, and the node of every pole by its id.
    pub fn get_maximally_connected_pole_graph(&self) -> (r: (PoleGraph, IdMap))
        requires
            self.wf(),
        ensures
            r.0.wf(),
            pole_index(self, r.0.nodes(), id_map(r.1)),
            forall|id: EntityId| #[trigger]
                id_map(r.1).contains_key(id) ==> r.0.nodes()[id_map(r.1)[id] as int]
                    == self.entities()[id].entity,
            forall|p: (u32, u32)| #[trigger]
                r.0.links().contains_key(p) ==> reach_pair(self, id_map(r.1), p) && r.0.links()[p]
                    == pair_length(self, id_map(r.1), p),
            r.0.nodes().len() <= self.entities().dom().len(),
            few_in_reach(self) || roomy(self.entities().dom().len()) ==> forall|
                a: EntityId,
                b: EntityId,
            | #[trigger]
                in_reach(self, a, b) ==> r.0.links().contains_key(
                    pair(id_map(r.1)[a], id_map(r.1)[b]),
                ) && r.0.links()[pair(id_map(r.1)[a], id_map(r.1)[b])] == pair_length(
                    self,
                    id_map(r.1),
                    pair(id_map(r.1)[a], id_map(r.1)[b]),
                ),
    {
        let (mut graph, idx) = self.get_disconnected_pole_graph();
        proof {
            graph.lemma_wf();
            assert(graph.links() =~= Map::empty()) by {
                assert forall|p: (u32, u32)| !graph.links().contains_key(p) by {}
            }
            if few_in_reach(self) {
                assert forall|pairs: Seq<(EntityId, EntityId)>| #[trigger]
                    new_reach_pairs(self, id_map(idx), graph.links(), pairs) implies 0
                    + pairs.len() + 1 < u32::MAX by {
                    assert(new_reach_pairs(self, Map::empty(), Map::empty(), pairs));
                }
            }
        }
        let ghost n = graph.nodes().len();
        self.maximally_connect_poles(&mut graph, &idx);
        proof {
            let most = self.entities().dom().len();
            if roomy(most) {
                assert(n * n <= most * most) by (nonlinear_arith)
                    requires
                        0 <= n <= most,
                ;
            }
        }
        (graph, idx)
    }

    /// Joins every two poles that a wire can join, by an edge that weighs as
    /// much as the wire is long. An edge that is there already gets that
    /// weight. Once the graph can take no more edges, the rest is left out.
    ///
    /// The poles are visited in grid order; from each the search looks at
    /// the poles with a larger id in its search window, which holds every
    /// pole within reach.
    pub fn maximally_connect_poles<N>(&self, graph: &mut WeightedGraph<N>, entity_map: &IdMap)
        requires
            self.wf(),
            old(graph).wf(),
            pole_numbering(self, old(graph).nodes().len(), id_map(*entity_map)),
        ensures
            final(graph).wf(),
            final(graph).nodes() == old(graph).nodes(),
            forall|p: (u32, u32)|
                old(graph).links().contains_key(p) ==> #[trigger] final(graph).links().contains_key(
                    p,
                ),
            forall|p: (u32, u32)| #[trigger]
                final(graph).links().contains_key(p) ==> (old(graph).links().contains_key(p)
                    && final(graph).links()[p] == old(graph).links()[p]) || (reach_pair(
                    self,
                    id_map(*entity_map),
                    p,
                ) && final(graph).links()[p] == pair_length(self, id_map(*entity_map), p)),
            takes_all(
                self,
                id_map(*entity_map),
                old(graph).links(),
                old(graph).edges().len(),
            ) || roomy(old(graph).nodes().len()) ==> forall|a: EntityId, b: EntityId| #[trigger]
                in_reach(self, a, b) ==> final(graph).links().contains_key(
                    pair(id_map(*entity_map)[a], id_map(*entity_map)[b]),
                ) && final(graph).links()[pair(id_map(*entity_map)[a], id_map(*entity_map)[b])]
                    == pair_length(
                    self,
                    id_map(*entity_map),
                    pair(id_map(*entity_map)[a], id_map(*entity_map)[b]),
                ),
    {
        let mut windows: PoleWindows<WireSearch> = PoleWindows::new(self, WireSearch);
        let order = self.all_entities_grid_order();
        let ghost m = id_map(*entity_map);
        let ghost n = graph.nodes().len();
        let ghost start = graph.links();
        let ghost first = graph.edges().len();
        let ghost mut found: Seq<(EntityId, EntityId)> = Seq::empty();
        let ghost mut dropped = false;
        let mut i: usize = 0;
        while i < order.len()
            invariant
                0 <= i <= order@.len(),
                first == old(graph).edges().len(),
                graph.edges().len() == first + found.len(),
                new_reach_pairs(self, m, start, found),
                forall|q: int|
                    0 <= q < found.len() ==> graph.links().contains_key(
                        pair(m[(#[trigger] found[q]).0], m[found[q].1]),
                    ),
                self.wf(),
                windows.wf(),
                windows.spec_model() == self,
                graph.wf(),
                graph.nodes() == old(graph).nodes(),
                n == graph.nodes().len(),
                m == id_map(*entity_map),
                start == old(graph).links(),
                pole_numbering(self, n, m),
                forall|j: int|
                    0 <= j < order@.len() ==> self.has((#[trigger] order@[j]).id) && *order@[j]
                        == self.entities()[order@[j].id],
                forall|j: int|
                    0 <= j < order@.len() ==> exists|t: TilePosition| #[trigger]
                        self.occupies((#[trigger] order@[j]).id, t),
                forall|p: (u32, u32)| start.contains_key(p) ==> #[trigger] graph.links().contains_key(p),
                forall|p: (u32, u32)| #[trigger]
                    graph.links().contains_key(p) ==> (start.contains_key(p) && graph.links()[p]
                        == start[p]) || (found_pair(self, m, p) && graph.links()[p] == pair_length(
                        self,
                        m,
                        p,
                    )),
                dropped ==> graph.edges().len() + 1 >= u32::MAX,
                !dropped ==> forall|j: int, b: EntityId|
                    0 <= j < i && #[trigger] search_finds(self, (#[trigger] order@[j]).id, b)
                        ==> graph.links().contains_key(pair(m[order@[j].id], m[b]))
                        && graph.links()[pair(m[order@[j].id], m[b])] == pair_length(
                        self,
                        m,
                        pair(m[order@[j].id], m[b]),
                    ),
            decreases order@.len() - i,
        {
            let entity = order[i];
            let a = entity.id;
            proof {
                assert(self.has(order@[i as int].id));
                assert(self.entities()[a].wf());
            }
            match (entity.entity.prototype.get().pole_data, entity_map.get(a)) {
                (Some(pole_data), Some(ia)) => {
                    let window = windows.get_window_for(&entity.entity);
                    let items = window.cur_items();
                    proof {
                        assert(window.spec_items() =~= search_window(self, entity.entity));
                    }
                    let mut k: usize = 0;
                    while k < items.len()
                        invariant
                            0 <= k <= items@.len(),
                            0 <= i < order@.len(),
                            entity == order@[i as int],
                            a == entity.id,
                            self.has(a),
                            *entity == self.entities()[a],
                            self.entities()[a].wf(),
                            entity.entity.prototype.value().pole_data == Some(pole_data),
                            m.contains_key(a),
                            ia == m[a],
                            items@.to_set() == search_window(self, entity.entity),
                            first == old(graph).edges().len(),
                            graph.edges().len() == first + found.len(),
                            new_reach_pairs(self, m, start, found),
                            forall|q: int|
                                0 <= q < found.len() ==> graph.links().contains_key(
                                    pair(m[(#[trigger] found[q]).0], m[found[q].1]),
                                ),
                            exists|t: TilePosition| #[trigger] self.occupies(a, t),
                            self.wf(),
                            graph.wf(),
                            graph.nodes() == old(graph).nodes(),
                            n == graph.nodes().len(),
                            m == id_map(*entity_map),
                            start == old(graph).links(),
                            pole_numbering(self, n, m),
                            forall|p: (u32, u32)|
                                start.contains_key(p) ==> #[trigger] graph.links().contains_key(p),
                            forall|p: (u32, u32)| #[trigger]
                                graph.links().contains_key(p) ==> (start.contains_key(p)
                                    && graph.links()[p] == start[p]) || (found_pair(self, m, p)
                                    && graph.links()[p] == pair_length(self, m, p)),
                            dropped ==> graph.edges().len() + 1 >= u32::MAX,
                            !dropped ==> forall|j: int, b: EntityId|
                                0 <= j < i && #[trigger] search_finds(self, (#[trigger] order@[j]).id, b)
                                    ==> graph.links().contains_key(pair(m[order@[j].id], m[b]))
                                    && graph.links()[pair(m[order@[j].id], m[b])] == pair_length(
                                    self,
                                    m,
                                    pair(m[order@[j].id], m[b]),
                                ),
                            !dropped ==> forall|q: int|
                                0 <= q < k && search_finds(self, a, #[trigger] items@[q])
                                    ==> graph.links().contains_key(pair(ia, m[items@[q]]))
                                    && graph.links()[pair(ia, m[items@[q]])] == pair_length(
                                    self,
                                    m,
                                    pair(ia, m[items@[q]]),
                                ),
                        decreases items@.len() - k,
                    {
                        let b = items[k];
                        let ghost before = graph.links();
                        proof {
                            assert(items@.to_set().contains(b));
                        }
                        if b.0 > a.0 {
                            match (self.get(b), entity_map.get(b)) {
                                (Some(other), Some(ib)) => {
                                    proof {
                                        assert(self.entities()[b].wf());
                                    }
                                    if self.is_connectable_pole(
                                        entity.entity.position,
                                        pole_data,
                                        &other.entity,
                                    ) {
                                        let d = entity.entity.position.distance_to(
                                            &other.entity.position,
                                        );
                                        proof {
                                            assert(search_finds(self, a, b));
                                            lemma_pair_of_poles(self, n, m, a, b);
                                            let pb = other.entity.prototype.value().pole_data->0;
                                            lemma_reach_bounds_length(
                                                entity.entity.position,
                                                other.entity.position,
                                                crate::bp_model::min_wire(pole_data, pb),
                                                d as int,
                                            );
                                            assert(a != b);
                                        }
                                        let ghost had = found;
                                        let done = Self::link_nodes(graph, ia, ib, d);
                                        proof {
                                            if !done {
                                                dropped = true;
                                            }
                                            let p0 = pair(ia, ib);
                                            assert(in_reach(self, a, b));
                                            if done && !before.contains_key(p0) {
                                                found = had.push((a, b));
                                                assert(!had.contains((a, b))) by {
                                                    if had.contains((a, b)) {
                                                        let q = choose|q: int|
                                                            0 <= q < had.len() && had[q] == (a, b);
                                                        assert(before.contains_key(
                                                            pair(m[had[q].0], m[had[q].1]),
                                                        ));
                                                    }
                                                }
                                                assert(found.no_duplicates()) by {
                                                    assert forall|x: int, y: int|
                                                        0 <= x < found.len() && 0 <= y < found.len()
                                                            && x != y implies found[x]
                                                        != found[y] by {
                                                        if x < had.len() && y < had.len() {
                                                            assert(had[x] != had[y]);
                                                        } else if x < had.len() {
                                                            assert(had.contains(had[x]));
                                                        } else {
                                                            assert(had.contains(had[y]));
                                                        }
                                                    }
                                                }
                                                assert(!start.contains_key(p0));
                                                assert(new_reach_pairs(self, m, start, found)) by {
                                                    assert forall|q: int|
                                                        0 <= q < found.len() implies {
                                                        let p = #[trigger] found[q];
                                                        &&& p.0.0 < p.1.0
                                                        &&& in_reach(self, p.0, p.1)
                                                        &&& !start.contains_key(
                                                            pair(m[p.0], m[p.1]),
                                                        )
                                                    } by {
                                                        if q < had.len() {
                                                            assert(found[q] == had[q]);
                                                        }
                                                    }
                                                }
                                            }
                                            assert forall|q: int|
                                                0 <= q < found.len() implies graph.links().contains_key(
                                                pair(m[(#[trigger] found[q]).0], m[found[q].1]),
                                            ) by {
                                                if q < had.len() {
                                                    assert(found[q] == had[q]);
                                                    assert(before.contains_key(
                                                        pair(m[had[q].0], m[had[q].1]),
                                                    ));
                                                }
                                            }
                                            assert(found_pair(self, m, p0));
                                            assert forall|p: (u32, u32)|
                                                start.contains_key(p) implies #[trigger]
                                                graph.links().contains_key(p) by {
                                                assert(before.contains_key(p));
                                            }
                                            assert forall|p: (u32, u32)| #[trigger]
                                                graph.links().contains_key(p) implies (
                                            start.contains_key(p) && graph.links()[p] == start[p])
                                                || (found_pair(self, m, p) && graph.links()[p]
                                                == pair_length(self, m, p)) by {
                                                if p != p0 || !done {
                                                    assert(before.contains_key(p));
                                                }
                                            }
                                        }
                                    }
                                },
                                _ => {
                                    proof {
                                        if search_finds(self, a, b) {
                                            assert(m.contains_key(b));
                                            assert(false);
                                        }
                                    }
                                },
                            }
                        }
                        proof {
                            if !dropped {
                                assert forall|j: int, c: EntityId|
                                    0 <= j < i && #[trigger] search_finds(
                                        self,
                                        (#[trigger] order@[j]).id,
                                        c,
                                    ) implies graph.links().contains_key(pair(m[order@[j].id], m[c]))
                                    && graph.links()[pair(m[order@[j].id], m[c])] == pair_length(
                                    self,
                                    m,
                                    pair(m[order@[j].id], m[c]),
                                ) by {
                                    let p = pair(m[order@[j].id], m[c]);
                                    assert(before.contains_key(p) && before[p] == pair_length(
                                        self,
                                        m,
                                        p,
                                    ));
                                    assert(graph.links().contains_key(p));
                                }
                                assert forall|q: int|
                                    0 <= q < k + 1 && search_finds(
                                        self,
                                        a,
                                        #[trigger] items@[q],
                                    ) implies graph.links().contains_key(pair(ia, m[items@[q]]))
                                    && graph.links()[pair(ia, m[items@[q]])] == pair_length(
                                    self,
                                    m,
                                    pair(ia, m[items@[q]]),
                                ) by {
                                    let p = pair(ia, m[items@[q]]);
                                    if q < k {
                                        assert(before.contains_key(p) && before[p]
                                            == pair_length(self, m, p));
                                        assert(graph.links().contains_key(p));
                                    }
                                }
                            }
                        }
                        k = k + 1;
                    }
                    proof {
                        if !dropped {
                            assert forall|j: int, c: EntityId|
                                0 <= j < i + 1 && #[trigger] search_finds(
                                    self,
                                    (#[trigger] order@[j]).id,
                                    c,
                                ) implies graph.links().contains_key(pair(m[order@[j].id], m[c]))
                                && graph.links()[pair(m[order@[j].id], m[c])] == pair_length(
                                self,
                                m,
                                pair(m[order@[j].id], m[c]),
                            ) by {
                                if j == i {
                                    assert(items@.to_set().contains(c));
                                    let q = choose|q: int| 0 <= q < items@.len() && items@[q] == c;
                                    assert(search_finds(self, a, items@[q]));
                                }
                            }
                        }
                    }
                },
                _ => {
                    proof {
                        if !dropped {
                            assert forall|j: int, c: EntityId|
                                0 <= j < i + 1 && #[trigger] search_finds(
                                    self,
                                    (#[trigger] order@[j]).id,
                                    c,
                                ) implies graph.links().contains_key(pair(m[order@[j].id], m[c]))
                                && graph.links()[pair(m[order@[j].id], m[c])] == pair_length(
                                self,
                                m,
                                pair(m[order@[j].id], m[c]),
                            ) by {
                                if j == i {
                                    assert(is_pole(self, a));
                                    assert(m.contains_key(a));
                                    assert(false);
                                }
                            }
                        }
                    }
                },
            }
            i = i + 1;
        }
        proof {
            if roomy(old(graph).nodes().len()) {
                lemma_roomy(graph, old(graph).nodes().len());
            }
            if takes_all(self, m, start, first) {
                assert(new_reach_pairs(self, m, start, found));
            }
            if graph.edges().len() + 1 < u32::MAX {
                assert(!dropped);
                assert forall|a: EntityId, b: EntityId| #[trigger]
                    search_finds(self, a, b) implies graph.links().contains_key(pair(m[a], m[b]))
                    && graph.links()[pair(m[a], m[b])] == pair_length(
                    self,
                    m,
                    pair(m[a], m[b]),
                ) by {
                    let t = choose|t: TilePosition| self.occupies(a, t);
                    assert(self.occupies(a, t));
                    let j = choose|j: int| 0 <= j < order@.len() && (#[trigger] order@[j]).id == a;
                    assert(search_finds(self, order@[j].id, b));
                }
                assert forall|a: EntityId, b: EntityId| #[trigger]
                    in_reach(self, a, b) implies graph.links().contains_key(pair(m[a], m[b]))
                    && graph.links()[pair(m[a], m[b])] == pair_length(
                    self,
                    m,
                    pair(m[a], m[b]),
                ) by {
                    lemma_pair_of_poles(self, n, m, a, b);
                    if a.0 < b.0 {
                        lemma_reach_is_found(self, a, b);
                    } else {
                        lemma_reach_is_mutual(self, a, b);
                        lemma_reach_is_found(self, b, a);
                        lemma_pair_of_poles(self, n, m, b, a);
                    }
                }
            }
            assert forall|p: (u32, u32)| #[trigger] graph.links().contains_key(p) implies (
            start.contains_key(p) && graph.links()[p] == start[p]) || (reach_pair(self, m, p)
                && graph.links()[p] == pair_length(self, m, p)) by {
                if found_pair(self, m, p) {
                    if !search_finds(self, node_id(m, p.0), node_id(m, p.1)) {
                        lemma_reach_is_mutual(self, node_id(m, p.1), node_id(m, p.0));
                    }
                }
            }
        }
    }

    /// The power consumers in the supply window of pole `e`.
    pub open spec fn spec_powered_by(&self, e: WorldEntity) -> Set<EntityId> {
        Set::new(
            |id: EntityId|
                supply_window(self, e).contains(id) && self.has(id)
                    && self.entities()[id].entity.spec_uses_power(),
        )
    }

    /// The same graph with, at every node, the pole and the ids of the power
    /// consumers in its supply window.
    pub fn to_cand_pole_graph(&self, graph: &PoleGraph) -> (r: CandPoleGraph)
        requires
            self.wf(),
            graph.wf(),
            forall|i: int|
                0 <= i < graph.nodes().len() ==> (#[trigger] graph.nodes()[i]).wf()
                    && graph.nodes()[i].prototype.value().pole_data is Some,
        ensures
            r.wf(),
            r.edges() == graph.edges(),
            r.nodes().len() == graph.nodes().len(),
            forall|i: int|
                0 <= i < r.nodes().len() ==> (#[trigger] r.nodes()[i]).entity == graph.nodes()[i]
                    && r.nodes()[i].powered() == self.spec_powered_by(graph.nodes()[i]),
    {
        let mut windows: PoleWindows<PoleCoverage> = PoleWindows::new(self, PoleCoverage);
        let mut nodes: Vec<CandPoleNode> = Vec::new();
        let n = graph.node_count();
        proof {
            graph.lemma_wf();
        }
        let mut i: usize = 0;
        while i < n
            invariant
                0 <= i <= n,
                n == graph.nodes().len(),
                n <= u32::MAX,
                self.wf(),
                graph.wf(),
                windows.wf(),
                windows.spec_model() == self,
                forall|j: int|
                    0 <= j < graph.nodes().len() ==> (#[trigger] graph.nodes()[j]).wf()
                        && graph.nodes()[j].prototype.value().pole_data is Some,
                nodes@.len() == i,
                forall|j: int|
                    0 <= j < i ==> (#[trigger] nodes@[j]).entity == graph.nodes()[j]
                        && nodes@[j].powered() == self.spec_powered_by(graph.nodes()[j]),
            decreases n - i,
        {
            let node = graph.node_weight(i as u32);
            assert(graph.nodes()[i as int].wf());
            let window = windows.get_window_for(node);
            let items = window.cur_items();
            proof {
                assert(window.spec_items() =~= supply_window(self, *node));
            }
            let mut powered = IdSet::new();
            let mut k: usize = 0;
            while k < items.len()
                invariant
                    0 <= k <= items@.len(),
                    self.wf(),
                    forall|id: EntityId| #[trigger]
                        id_set(powered).contains(id) <==> (self.has(id)
                            && self.entities()[id].entity.spec_uses_power() && among(
                            items@,
                            k as int,
                            id,
                        )),
                decreases items@.len() - k,
            {
                let id = items[k];
                let ghost before = id_set(powered);
                let mut add = false;
                match self.get(id) {
                    Some(e) => {
                        if e.entity.uses_power() {
                            add = true;
                        }
                    },
                    None => {},
                }
                if add {
                    powered.insert(id);
                }
                proof {
                    assert forall|x: EntityId| #[trigger]
                        id_set(powered).contains(x) <==> (self.has(x)
                            && self.entities()[x].entity.spec_uses_power() && among(
                            items@,
                            k + 1,
                            x,
                        )) by {
                        assert(before.contains(x) <==> (self.has(x)
                            && self.entities()[x].entity.spec_uses_power() && among(
                            items@,
                            k as int,
                            x,
                        )));
                        if among(items@, k as int, x) {
                            let q = choose|q: int| 0 <= q < k && #[trigger] items@[q] == x;
                            assert(0 <= q < k + 1 && items@[q] == x);
                        }
                        if among(items@, k + 1, x) {
                            let q = choose|q: int| 0 <= q < k + 1 && #[trigger] items@[q] == x;
                            if q < k {
                                assert(among(items@, k as int, x));
                            }
                        }
                        if x == id {
                            assert(items@[k as int] == x);
                            assert(among(items@, k + 1, x));
                        }
                    }
                }
                k = k + 1;
            }
            proof {
                assert(id_set(powered) =~= self.spec_powered_by(*node)) by {
                    assert forall|x: EntityId|
                        id_set(powered).contains(x) <==> self.spec_powered_by(*node).contains(
                            x,
                        ) by {
                        if among(items@, items@.len() as int, x) {
                            let q = choose|q: int|
                                0 <= q < items@.len() && #[trigger] items@[q] == x;
                            assert(items@.contains(x));
                        }
                        if items@.to_set().contains(x) {
                            let q = choose|q: int| 0 <= q < items@.len() && items@[q] == x;
                            assert(among(items@, items@.len() as int, x));
                        }
                    }
                }
            }
            nodes.push(CandPoleNode { entity: node.clone(), powered_entities: powered });
            i = i + 1;
        }
        graph.with_nodes(nodes)
    }

    /// The pole of prototype `proto` that stands with its top-left tile at
    /// `t`, facing north.
    pub open spec fn candidate_at(proto: EntityPrototypeRef, t: TilePosition) -> WorldEntity {
        WorldEntity {
            prototype: proto,
            position: MapPosition {
                x: (t.x * UNITS_PER_TILE + proto.value().tile_width * HALF_TILE) as i64,
                y: (t.y * UNITS_PER_TILE + proto.value().tile_width * HALF_TILE) as i64,
            },
            direction: 0,
        }
    }

    /// The tiles of `area` at which a pole of prototype `proto` can have its
    /// top-left tile and still fit `area`.
    pub open spec fn candidate_area(area: TileBoundingBox, proto: EntityPrototypeRef) -> TileBoundingBox {
        TileBoundingBox {
            min: area.min,
            max: TilePosition {
                x: (area.max.x - (proto.value().tile_width - 1)) as i32,
                y: (area.max.y - (proto.value().tile_width - 1)) as i32,
            },
        }
    }

    /// The poles of prototype `proto` at the tiles `tiles`.
    pub open spec fn candidates_on(proto: EntityPrototypeRef, tiles: Seq<TilePosition>) -> Seq<
        WorldEntity,
    > {
        Seq::new(tiles.len(), |k: int| Self::candidate_at(proto, tiles[k]))
    }

    /// Every pole that could be asked for: prototype after prototype, and
    /// for each every tile of its candidate area.
    pub open spec fn slots(area: TileBoundingBox, protos: Seq<EntityPrototypeRef>) -> Seq<
        WorldEntity,
    >
        decreases protos.len(),
    {
        if protos.len() == 0 {
            Seq::empty()
        } else {
            Self::slots(area, protos.drop_last()) + Self::candidates_on(
                protos.last(),
                Self::candidate_area(area, protos.last()).tiles(),
            )
        }
    }

    /// Those of `slots` that overlap nothing in this model, in their order.
    pub open spec fn placeable(&self, slots: Seq<WorldEntity>) -> Seq<WorldEntity>
        decreases slots.len(),
    {
        if slots.len() == 0 {
            Seq::empty()
        } else {
            let rest = self.placeable(slots.drop_last());
            if self.spec_can_place(slots.last()) {
                rest.push(slots.last())
            } else {
                rest
            }
        }
    }

    /// Whether the model holds `entity` under the id of number `number`,
    /// without cables.
    pub open spec fn holds_new(&self, number: int, entity: WorldEntity) -> bool {
        let id = EntityId(number as u32);
        &&& self.has(id)
        &&& self.entities()[id].entity == entity
        &&& self.entities()[id].neighbors() =~= Set::empty()
    }

    /// Whether `other` is this model with the entities `added` on top, under
    /// the ids that follow the next id of this model, and without cables.
    pub open spec fn extended_by(&self, other: &BpModel, added: Seq<WorldEntity>) -> bool {
        let next = self.spec_next_id().0;
        &&& other.spec_next_id().0 == next + added.len()
        &&& forall|id: EntityId| #[trigger]
            self.has(id) ==> other.has(id) && other.entities()[id] == self.entities()[id]
        &&& forall|k: int| 0 <= k < added.len() ==> #[trigger] other.holds_new(next + k, added[k])
        &&& forall|id: EntityId| #[trigger]
            other.has(id) ==> self.has(id) || next <= id.0 < next + added.len()
    }

    /// As many of `added`, from the first on, as there are ids left for.
    pub open spec fn fitting(&self, added: Seq<WorldEntity>) -> Seq<WorldEntity> {
        let room = u32::MAX - self.spec_next_id().0;
        if added.len() <= room {
            added
        } else {
            added.take(room)
        }
    }

    /// A copy of the model that also holds every pole of `pole_prototypes`
    /// that could stand in `area` without overlapping an entity of this
    /// model, in the order of `slots`. Candidates may overlap each other.
    /// Once the ids run out, the rest is left out.
    pub fn with_all_candidate_poles(
        &self,
        area: TileBoundingBox,
        pole_prototypes: &Vec<EntityPrototypeRef>,
    ) -> (r: BpModel)
        requires
            self.wf(),
            -1_999_000_000 <= area.min.x <= 1_999_000_000,
            -1_999_000_000 <= area.min.y <= 1_999_000_000,
            -1_999_000_000 <= area.max.x <= 1_999_000_000,
            -1_999_000_000 <= area.max.y <= 1_999_000_000,
            forall|j: int|
                0 <= j < pole_prototypes@.len() ==> {
                    let proto = (#[trigger] pole_prototypes@[j]).value();
                    proto.wf() && proto.tile_width == proto.tile_height
                },
        ensures
            r.wf(),
            self.extended_by(
                &r,
                self.fitting(self.placeable(Self::slots(area, pole_prototypes@))),
            ),
            self.spec_next_id().0 + self.placeable(Self::slots(area, pole_prototypes@)).len()
                <= u32::MAX ==> self.extended_by(
                &r,
                self.placeable(Self::slots(area, pole_prototypes@)),
            ),
    {
        let mut pole_model = self.clone();
        let mut j: usize = 0;
        proof {
            assert(pole_prototypes@.take(0) =~= Seq::empty());
            assert(self.placeable(Self::slots(area, pole_prototypes@.take(0))) =~= Seq::empty());
            assert(self.extended_by(&pole_model, Seq::empty()));
        }
        while j < pole_prototypes.len()
            invariant
                0 <= j <= pole_prototypes@.len(),
                self.wf(),
                pole_model.wf(),
                -1_999_000_000 <= area.min.x <= 1_999_000_000,
                -1_999_000_000 <= area.min.y <= 1_999_000_000,
                -1_999_000_000 <= area.max.x <= 1_999_000_000,
                -1_999_000_000 <= area.max.y <= 1_999_000_000,
                forall|q: int|
                    0 <= q < pole_prototypes@.len() ==> {
                        let proto = (#[trigger] pole_prototypes@[q]).value();
                        proto.wf() && proto.tile_width == proto.tile_height
                    },
                self.extended_by(
                    &pole_model,
                    self.fitting(self.placeable(Self::slots(area, pole_prototypes@.take(j as int)))),
                ),
            decreases pole_prototypes@.len() - j,
        {
            let pole_prototype = &pole_prototypes[j];
            let width = pole_prototype.get().tile_width;
            assert(pole_prototypes@[j as int].value().wf());
            let possible_area = area.contract_max((width - 1) as i32);
            let tiles = possible_area.iter_tiles();
            let ghost base = Self::slots(area, pole_prototypes@.take(j as int));
            proof {
                possible_area.lemma_tiles();
                assert(possible_area == Self::candidate_area(area, *pole_prototype));
                assert(Self::candidates_on(*pole_prototype, tiles@.take(0)) =~= Seq::empty());
                assert(base + Self::candidates_on(*pole_prototype, tiles@.take(0)) =~= base);
            }
            let mut q: usize = 0;
            while q < tiles.len()
                invariant
                    0 <= q <= tiles@.len(),
                    0 <= j < pole_prototypes@.len(),
                    self.wf(),
                    pole_model.wf(),
                    *pole_prototype == pole_prototypes@[j as int],
                    width == pole_prototype.value().tile_width,
                    1 <= width <= 2000,
                    pole_prototype.value().wf(),
                    tiles@ == possible_area.tiles(),
                    forall|k: int|
                        0 <= k < tiles@.len() ==> -2_000_000_000 <= (#[trigger] tiles@[k]).x
                            < 1_999_000_000 && -2_000_000_000 <= tiles@[k].y < 1_999_000_000,
                    base == Self::slots(area, pole_prototypes@.take(j as int)),
                    self.extended_by(
                        &pole_model,
                        self.fitting(
                            self.placeable(
                                base + Self::candidates_on(*pole_prototype, tiles@.take(q as int)),
                            ),
                        ),
                    ),
                decreases tiles@.len() - q,
            {
                let top_left = tiles[q];
                let corner = top_left.corner_map_pos();
                let half: i64 = width as i64 * HALF_TILE;
                let entity = WorldEntity {
                    position: MapPosition { x: corner.x + half, y: corner.y + half },
                    direction: 0,
                    prototype: pole_prototype.share(),
                };
                let ghost done = base + Self::candidates_on(*pole_prototype, tiles@.take(q as int));
                let ghost next = base + Self::candidates_on(
                    *pole_prototype,
                    tiles@.take(q + 1),
                );
                let ghost before = pole_model;
                proof {
                    assert(entity == Self::candidate_at(*pole_prototype, top_left));
                    assert(next =~= done.push(entity));
                    assert(next.drop_last() =~= done);
                    assert(next.last() == entity);
                }
                let ghost placed = self.placeable(done);
                let ghost grown = self.placeable(next);
                let ghost room = u32::MAX - self.spec_next_id().0;
                proof {
                    assert(before.spec_next_id().0 == self.spec_next_id().0 + self.fitting(
                        placed,
                    ).len());
                }
                if self.can_place(&entity) {
                    proof {
                        assert(grown == placed.push(entity));
                    }
                    if pole_model.next_id().0 < u32::MAX {
                        let id = pole_model.add_overlap(entity);
                        proof {
                            assert(placed.len() < room);
                            assert(self.fitting(placed) == placed);
                            assert(self.fitting(grown) == grown);
                            assert(self.extended_by(&pole_model, grown)) by {
                                let first = self.spec_next_id().0;
                                assert forall|x: EntityId| #[trigger] self.has(x) implies pole_model.has(
                                    x,
                                ) && pole_model.entities()[x] == self.entities()[x] by {
                                    assert(before.has(x));
                                }
                                assert forall|k: int| 0 <= k < grown.len() implies #[trigger]
                                    pole_model.holds_new(first + k, grown[k]) by {
                                    if k < placed.len() {
                                        assert(placed[k] == grown[k]);
                                        assert(before.holds_new(first + k, placed[k]));
                                        assert(before.has(EntityId((first + k) as u32)));
                                    } else {
                                        assert(EntityId((first + k) as u32) == id);
                                    }
                                }
                                assert forall|x: EntityId| #[trigger]
                                    pole_model.has(x) implies self.has(x) || first <= x.0 < first
                                    + grown.len() by {
                                    if x != id {
                                        assert(before.has(x));
                                    }
                                }
                                assert(self.extended_by(&before, placed));
                                assert(before.spec_next_id().0 == first + placed.len());
                                assert(pole_model.spec_next_id().0 == first + grown.len());
                            }
                        }
                    } else {
                        proof {
                            assert(placed.len() >= room);
                            assert(self.fitting(grown) =~= self.fitting(placed));
                        }
                    }
                } else {
                    proof {
                        assert(grown == placed);
                    }
                }
                q = q + 1;
            }
            proof {
                assert(tiles@.take(tiles@.len() as int) =~= tiles@);
                let t1 = pole_prototypes@.take(j + 1);
                assert(t1.drop_last() =~= pole_prototypes@.take(j as int));
                assert(t1.last() == *pole_prototype);
            }
            j = j + 1;
        }
        proof {
            assert(pole_prototypes@.take(pole_prototypes@.len() as int) =~= pole_prototypes@);
        }
        pole_model
    }

    /// Adds the poles of `graph` in the order of its nodes, each under the
    /// next id unless something stands on one of its tiles by then, and then
    /// a cable for every edge of which both poles were added and are near
    /// enough for a wire. The result tells, for every node, the id under
    /// which its pole was added. What the model held before stays as it was.
    #[verifier::loop_isolation(false)]
    pub fn add_from_pole_graph(&mut self, graph: &CandPoleGraph) -> (r: Vec<Option<EntityId>>)
        requires
            old(self).wf(),
            graph.wf(),
            forall|i: int| 0 <= i < graph.nodes().len() ==> (#[trigger] graph.nodes()[i]).entity.wf(),
            old(self).spec_next_id().0 + graph.nodes().len() < u32::MAX,
        ensures
            final(self).wf(),
            r@.len() == graph.nodes().len(),
            forall|id: EntityId| #[trigger]
                old(self).has(id) ==> final(self).has(id) && final(self).entities()[id]
                    == old(self).entities()[id],
            forall|i: int|
                0 <= i < r@.len() ==> ((#[trigger] r@[i]) is Some <==> finds_room(
                    old(self),
                    graph.nodes(),
                    r@,
                    i,
                )),
            forall|i: int|
                0 <= i < r@.len() && (#[trigger] r@[i]) is Some ==> !old(self).has(r@[i]->0)
                    && final(self).has(r@[i]->0) && final(self).entities()[r@[i]->0].entity
                    == graph.nodes()[i].entity,
            forall|i: int, j: int|
                0 <= i < j < r@.len() && (#[trigger] r@[i]) is Some && (#[trigger] r@[j]) is Some
                    ==> number_of(r@[i]) < number_of(r@[j]),
            forall|i: int|
                0 <= i < r@.len() && (#[trigger] r@[i]) is Some ==> number_of(r@[i]) == old(
                    self,
                ).spec_next_id().0 + count_added(r@, i),
            final(self).spec_next_id().0 == old(self).spec_next_id().0 + count_added(
                r@,
                r@.len() as int,
            ),
            forall|id: EntityId| #[trigger]
                final(self).has(id) ==> old(self).has(id) || exists|i: int|
                    0 <= i < r@.len() && r@[i] == Some(id),
            forall|i: int|
                0 <= i < r@.len() && (#[trigger] r@[i]) is None ==> !final(self).spec_can_place(
                    graph.nodes()[i].entity,
                ),
            forall|i: int, y: EntityId|
                0 <= i < r@.len() && r@[i] is Some ==> (#[trigger] final(self).cabled(
                    id_of(r@, i),
                    y,
                ) <==> wired(graph.nodes(), graph.edges(), r@, i, y)),
            forall|k: int|
                0 <= k < graph.edges().len() ==> {
                    let e = #[trigger] graph.edges()[k];
                    r@[e.0 as int] is Some && r@[e.1 as int] is Some && spec_linkable(
                        graph.nodes()[e.0 as int].entity,
                        graph.nodes()[e.1 as int].entity,
                    ) ==> final(self).cabled(r@[e.0 as int]->0, r@[e.1 as int]->0)
                },
    {
        let mut added: Vec<Option<EntityId>> = Vec::new();
        let n = graph.node_count();
        let ghost nodes = graph.nodes();
        proof {
            graph.lemma_wf();
        }
        let mut i: usize = 0;
        while i < n
            invariant
                0 <= i <= n,
                n == graph.nodes().len(),
                n <= u32::MAX,
                self.wf(),
                graph.wf(),
                forall|q: int|
                    0 <= q < graph.nodes().len() ==> (#[trigger] graph.nodes()[q]).entity.wf(),
                old(self).spec_next_id().0 <= self.spec_next_id().0 <= old(self).spec_next_id().0
                    + i,
                old(self).spec_next_id().0 + n < u32::MAX,
                added@.len() == i,
                self.spec_next_id().0 == old(self).spec_next_id().0 + count_added(added@, i as int),
                forall|q: int|
                    0 <= q < i && (#[trigger] added@[q]) is Some ==> number_of(added@[q]) == old(
                        self,
                    ).spec_next_id().0 + count_added(added@, q),
                forall|id: EntityId| #[trigger]
                    old(self).has(id) ==> self.has(id) && self.entities()[id] == old(self).entities()[id],
                forall|q: int|
                    0 <= q < i && (#[trigger] added@[q]) is Some ==> !old(self).has(added@[q]->0)
                        && self.has(added@[q]->0) && self.entities()[added@[q]->0].entity
                        == graph.nodes()[q].entity && old(self).spec_next_id().0
                        <= number_of(added@[q]) < self.spec_next_id().0
                        && self.entities()[added@[q]->0].neighbors() =~= Set::empty(),
                forall|p: int, q: int|
                    0 <= p < q < i && (#[trigger] added@[p]) is Some && (#[trigger] added@[q]) is Some
                        ==> number_of(added@[p]) < number_of(added@[q]),
                forall|id: EntityId| #[trigger]
                    self.has(id) ==> old(self).has(id) || exists|q: int|
                        0 <= q < i && added@[q] == Some(id),
                forall|q: int|
                    0 <= q < i && (#[trigger] added@[q]) is None ==> !self.spec_can_place(
                        graph.nodes()[q].entity,
                    ),
                forall|t: TilePosition|
                    (#[trigger] self.bucket(t)).len() > 0 <==> (old(self).bucket(t).len() > 0
                        || stands_on(nodes, added@, i as int, t)),
                forall|q: int|
                    0 <= q < i ==> ((#[trigger] added@[q]) is Some <==> finds_room(
                        old(self),
                        nodes,
                        added@,
                        q,
                    )),
            decreases n - i,
        {
            let pole = graph.node_weight(i as u32);
            let ghost before = *self;
            let ghost prev = added@;
            assert(graph.nodes()[i as int].entity.wf());
            let res = self.add_no_overlap(pole.entity.clone());
            added.push(res);
            proof {
                let ent = nodes[i as int].entity;
                assert forall|q: int| 0 <= q <= i implies count_added(added@, q) == count_added(
                    prev,
                    q,
                ) by {
                    lemma_count_added_push(prev, res, q);
                }
                assert forall|q: int|
                    0 <= q < i + 1 && (#[trigger] added@[q]) is Some implies number_of(added@[q])
                    == old(self).spec_next_id().0 + count_added(added@, q) by {
                    if q < i {
                        assert(prev[q] == added@[q]);
                    }
                }
                assert forall|q: int|
                    0 <= q < i + 1 && (#[trigger] added@[q]) is None implies !self.spec_can_place(
                    graph.nodes()[q].entity,
                ) by {
                    if q < i {
                        assert(prev[q] == added@[q]);
                    }
                    lemma_stays_blocked(&before, self, graph.nodes()[q].entity);
                }
                assert forall|id: EntityId| #[trigger] old(self).has(id) implies self.has(id)
                    && self.entities()[id] == old(self).entities()[id] by {
                    assert(before.has(id));
                }
                assert forall|q: int| 0 <= q < i + 1 && (#[trigger] added@[q]) is Some implies !old(self).has(added@[q]->0) && self.has(added@[q]->0)
                    && self.entities()[added@[q]->0].entity == graph.nodes()[q].entity && old(self).spec_next_id().0 <= number_of(added@[q]) < self.spec_next_id().0
                    && self.entities()[added@[q]->0].neighbors() =~= Set::<EntityId>::empty() by {
                    if q < i {
                        assert(prev[q] == added@[q]);
                        assert(before.has(added@[q]->0));
                    } else {
                        if old(self).has(res->0) {
                            assert(before.has(res->0));
                        }
                    }
                }
                assert forall|p: int, q: int|
                    0 <= p < q < i + 1 && (#[trigger] added@[p]) is Some && (
                    #[trigger] added@[q]) is Some implies number_of(added@[p]) < number_of(added@[q]) by {
                    assert(prev[p] == added@[p]);
                    if q < i {
                        assert(prev[q] == added@[q]);
                    }
                }
                assert forall|id: EntityId| #[trigger] self.has(id) implies old(self).has(id)
                    || exists|q: int| 0 <= q < i + 1 && added@[q] == Some(id) by {
                    if res is Some && id == res->0 {
                        assert(added@[i as int] == Some(id));
                    } else {
                        assert(before.has(id));
                        if !old(self).has(id) {
                            let q = choose|q: int| 0 <= q < i && prev[q] == Some(id);
                            assert(added@[q] == Some(id));
                        }
                    }
                }
                assert forall|t: TilePosition|
                    (#[trigger] self.bucket(t)).len() > 0 <==> (old(self).bucket(t).len() > 0
                        || stands_on(nodes, added@, i + 1, t)) by {
                    if stands_on(nodes, prev, i as int, t) {
                        let q = choose|q: int|
                            0 <= q < i && (#[trigger] prev[q]) is Some && nodes[q].entity.covers(t);
                        assert(added@[q] == prev[q]);
                        assert(stands_on(nodes, added@, i + 1, t));
                    }
                    if stands_on(nodes, added@, i + 1, t) {
                        let q = choose|q: int|
                            0 <= q < i + 1 && (#[trigger] added@[q]) is Some
                                && nodes[q].entity.covers(t);
                        if q < i {
                            assert(added@[q] == prev[q]);
                            assert(stands_on(nodes, prev, i as int, t));
                        }
                    }
                    if res is Some && ent.covers(t) {
                        assert(added@[i as int] is Some);
                        assert(stands_on(nodes, added@, i + 1, t));
                    }
                    assert(before.bucket(t).len() > 0 <==> (old(self).bucket(t).len() > 0
                        || stands_on(nodes, prev, i as int, t)));
                }
                assert forall|q: int| 0 <= q < i + 1 implies ((#[trigger] added@[q]) is Some
                    <==> finds_room(old(self), nodes, added@, q)) by {
                    assert forall|j: int| 0 <= j < q implies added@[j] == prev[j] by {}
                    if q < i {
                        assert(added@[q] == prev[q]);
                        assert(finds_room(old(self), nodes, prev, q) == finds_room(
                            old(self),
                            nodes,
                            added@,
                            q,
                        ));
                    } else {
                        lemma_room(old(self), &before, nodes, prev, i as int);
                        assert(finds_room(old(self), nodes, prev, q) == finds_room(
                            old(self),
                            nodes,
                            added@,
                            q,
                        ));
                    }
                }
            }
            i = i + 1;
        }
        let edges = graph.edge_list();
        let ghost placed = *self;
        assert(self.spec_next_id().0 == old(self).spec_next_id().0 + count_added(
            added@,
            added@.len() as int,
        ));
        proof {
            assert(edges@.take(0) =~= Seq::empty());
            assert forall|q: int, y: EntityId| 0 <= q < added@.len() && added@[q] is Some implies (
            #[trigger] self.cabled(id_of(added@, q), y) <==> wired(
                nodes,
                edges@.take(0),
                added@,
                q,
                y,
            )) by {
                assert(self.entities()[added@[q]->0].neighbors() =~= Set::<EntityId>::empty());
            }
        }
        let mut k: usize = 0;
        while k < edges.len()
            invariant
                0 <= k <= edges@.len(),
                edges@ == graph.edges(),
                graph.wf(),
                self.wf(),
                added@.len() == graph.nodes().len(),
                self.entities().dom() == placed.entities().dom(),
                self.spec_next_id() == placed.spec_next_id(),
                forall|id: EntityId| #[trigger]
                    self.has(id) ==> self.entities()[id].entity == placed.entities()[id].entity,
                forall|id: EntityId| #[trigger]
                    old(self).has(id) ==> self.entities()[id] == placed.entities()[id],
                forall|q: int|
                    0 <= q < added@.len() && (#[trigger] added@[q]) is Some ==> placed.has(
                        added@[q]->0,
                    ) && placed.entities()[added@[q]->0].entity == graph.nodes()[q].entity,
                forall|a: EntityId, b: EntityId| #[trigger]
                    placed.cabled(a, b) ==> self.cabled(a, b),
                self.buckets() == placed.buckets(),
                forall|q: int, y: EntityId|
                    0 <= q < added@.len() && added@[q] is Some ==> (#[trigger] self.cabled(
                        id_of(added@, q),
                        y,
                    ) <==> wired(nodes, edges@.take(k as int), added@, q, y)),
                forall|q: int|
                    0 <= q < k ==> {
                        let e = #[trigger] edges@[q];
                        added@[e.0 as int] is Some && added@[e.1 as int] is Some && spec_linkable(
                            graph.nodes()[e.0 as int].entity,
                            graph.nodes()[e.1 as int].entity,
                        ) ==> self.cabled(added@[e.0 as int]->0, added@[e.1 as int]->0)
                    },
            decreases edges@.len() - k,
        {
            let e = edges[k];
            let ghost before = *self;
            let ghost done = edges@.take(k as int);
            let ghost more = edges@.take(k + 1);
            let ghost mut linked = false;
            proof {
                graph.lemma_wf();
                assert(e.0 < graph.nodes().len() && e.1 < graph.nodes().len() && e.0 != e.1);
                assert(more =~= done.push(e));
            }
            match (added[e.0 as usize], added[e.1 as usize]) {
                (Some(a), Some(b)) => {
                    proof {
                        assert(placed.has(a) && placed.has(b));
                        assert(self.has(a) && self.has(b));
                        assert(!old(self).has(a) && !old(self).has(b));
                    }
                    let res = self.add_cable_connection(a, b);
                    proof {
                        linked = res is Some;
                        assert(self.entities().dom() =~= placed.entities().dom());
                        assert forall|x: EntityId| #[trigger] self.has(x) implies self.entities()[x].entity
                            == placed.entities()[x].entity by {
                            assert(before.has(x));
                        }
                        assert forall|x: EntityId| #[trigger] old(self).has(x) implies self.entities()[x]
                            == placed.entities()[x] by {
                            assert(placed.has(x));
                            assert(before.has(x));
                            assert(x != a && x != b);
                        }
                        assert forall|x: EntityId, y: EntityId| #[trigger]
                            before.cabled(x, y) implies self.cabled(x, y) by {
                            if x == a || x == b {
                            } else {
                                assert(self.entities()[x] == before.entities()[x]);
                            }
                        }
                    }
                },
                _ => {},
            }
            proof {
                assert forall|x: EntityId, y: EntityId| #[trigger]
                    placed.cabled(x, y) implies self.cabled(x, y) by {
                    assert(before.cabled(x, y));
                }
                assert forall|p: int, q: int|
                    0 <= p < added@.len() && 0 <= q < added@.len() && added@[p] is Some
                        && added@[q] is Some && p != q implies number_of(added@[p]) != number_of(
                    added@[q],
                ) by {
                    if p < q {
                        assert(number_of(added@[p]) < number_of(added@[q]));
                    } else {
                        assert(number_of(added@[q]) < number_of(added@[p]));
                    }
                }
                lemma_linkable_symmetric(nodes[e.0 as int].entity, nodes[e.1 as int].entity);
                assert forall|q: int, y: EntityId|
                    0 <= q < added@.len() && added@[q] is Some implies (#[trigger] self.cabled(
                    id_of(added@, q),
                    y,
                ) <==> wired(nodes, more, added@, q, y)) by {
                    let x = id_of(added@, q);
                    assert(before.has(x) && self.has(x));
                    assert(before.cabled(x, y) <==> wired(nodes, done, added@, q, y));
                    lemma_wired_push(nodes, done, e, added@, q, y);
                    if linked {
                        let a = added@[e.0 as int]->0;
                        let b = added@[e.1 as int]->0;
                        if x != a && x != b {
                            assert(self.entities()[x] == before.entities()[x]);
                            assert(q != e.0 && q != e.1);
                        } else if x == a {
                            assert(q == e.0);
                            if y == b {
                                assert(added@[e.1 as int] == Some(y));
                            }
                        } else {
                            assert(q == e.1);
                            if y == a {
                                assert(added@[e.0 as int] == Some(y));
                            }
                        }
                    } else {
                        assert(self.entities()[x] == before.entities()[x]);
                    }
                }
                assert forall|q: int| 0 <= q < k + 1 implies {
                    let e = #[trigger] edges@[q];
                    added@[e.0 as int] is Some && added@[e.1 as int] is Some && spec_linkable(
                        graph.nodes()[e.0 as int].entity,
                        graph.nodes()[e.1 as int].entity,
                    ) ==> self.cabled(added@[e.0 as int]->0, added@[e.1 as int]->0)
                } by {
                    let f = edges@[q];
                    if q < k {
                        if added@[f.0 as int] is Some && added@[f.1 as int] is Some && spec_linkable(
                            graph.nodes()[f.0 as int].entity,
                            graph.nodes()[f.1 as int].entity,
                        ) {
                            assert(before.cabled(added@[f.0 as int]->0, added@[f.1 as int]->0));
                        }
                    }
                }
            }
            k = k + 1;
        }
        proof {
            assert(edges@.take(edges@.len() as int) =~= edges@);
            assert forall|id: EntityId| #[trigger] old(self).has(id) implies self.has(id)
                && self.entities()[id] == old(self).entities()[id] by {
                assert(placed.has(id));
            }
            assert forall|id: EntityId| #[trigger] self.has(id) implies old(self).has(id)
                || exists|i: int| 0 <= i < added@.len() && added@[i] == Some(id) by {
                assert(placed.has(id));
            }
            assert forall|i: int| 0 <= i < added@.len() && (#[trigger] added@[i]) is Some implies !old(self).has(added@[i]->0) && self.has(added@[i]->0) && self.entities()[added@[i]->0].entity
                == graph.nodes()[i].entity by {
                assert(placed.has(added@[i]->0));
            }
            assert forall|i: int|
                0 <= i < added@.len() && (#[trigger] added@[i]) is None implies !self.spec_can_place(
                graph.nodes()[i].entity,
            ) by {
                assert(!placed.spec_can_place(graph.nodes()[i].entity));
            }
        }
        added
    }
}

/// How many of the first `n` places of `added` hold an id.
pub open spec fn count_added(added: Seq<Option<EntityId>>, n: int) -> int
    decreases n,
{
    if n <= 0 {
        0
    } else {
        count_added(added, n - 1) + if added[n - 1] is Some {
            1int
        } else {
            0int
        }
    }
}

/// One more place at the end leaves the count over the places before it.
pub proof fn lemma_count_added_push(added: Seq<Option<EntityId>>, x: Option<EntityId>, n: int)
    requires
        0 <= n <= added.len(),
    ensures
        count_added(added.push(x), n) == count_added(added, n),
    decreases n,
{
    if n > 0 {
        lemma_count_added_push(added, x, n - 1);
        assert(added.push(x)[n - 1] == added[n - 1]);
    }
}

/// The id in place `i` of `added`.
pub open spec fn id_of(added: Seq<Option<EntityId>>, i: int) -> EntityId {
    match added[i] {
        Some(id) => id,
        None => EntityId(0),
    }
}

/// Whether one of the first `n` nodes was added and overlaps tile `t`.
pub open spec fn stands_on(
    nodes: Seq<CandPoleNode>,
    added: Seq<Option<EntityId>>,
    n: int,
    t: TilePosition,
) -> bool {
    exists|q: int| 0 <= q < n && (#[trigger] added[q]) is Some && nodes[q].entity.covers(t)
}

/// Whether the two entities overlap a common tile.
pub open spec fn overlap(a: WorldEntity, b: WorldEntity) -> bool {
    exists|t: TilePosition| a.covers(t) && #[trigger] b.covers(t)
}

/// Whether the pole of node `i` finds its tiles free when its turn comes:
/// nothing of `model` stands on them, and no pole of an earlier node that
/// was added.
pub open spec fn finds_room(
    model: &BpModel,
    nodes: Seq<CandPoleNode>,
    added: Seq<Option<EntityId>>,
    i: int,
) -> bool {
    &&& model.spec_can_place(nodes[i].entity)
    &&& forall|j: int|
        0 <= j < i && (#[trigger] added[j]) is Some ==> !overlap(nodes[j].entity, nodes[i].entity)
}

/// Whether an edge of `edges` joins node `i` to a node whose pole was added
/// under the id `y`, the two near enough for a wire.
pub open spec fn wired(
    nodes: Seq<CandPoleNode>,
    edges: Seq<(u32, u32, u64)>,
    added: Seq<Option<EntityId>>,
    i: int,
    y: EntityId,
) -> bool {
    exists|j: int|
        0 <= j < added.len() && (#[trigger] added[j]) == Some(y) && 0 <= j <= u32::MAX
            && crate::topology::joined(edges, i as u32, j as u32) && spec_linkable(
            nodes[i].entity,
            nodes[j].entity,
        )
}

/// One more edge wires node `i` to what it was wired to before and, where
/// the edge ends at `i`, to the pole at its other end.
pub proof fn lemma_wired_push(
    nodes: Seq<CandPoleNode>,
    edges: Seq<(u32, u32, u64)>,
    e: (u32, u32, u64),
    added: Seq<Option<EntityId>>,
    i: int,
    y: EntityId,
)
    requires
        0 <= i < added.len() <= u32::MAX,
        e.0 < added.len(),
        e.1 < added.len(),
    ensures
        wired(nodes, edges.push(e), added, i, y) <==> (wired(nodes, edges, added, i, y) || (i
            == e.0 && added[e.1 as int] == Some(y) && spec_linkable(
            nodes[i].entity,
            nodes[e.1 as int].entity,
        )) || (i == e.1 && added[e.0 as int] == Some(y) && spec_linkable(
            nodes[i].entity,
            nodes[e.0 as int].entity,
        ))),
{
    let more = edges.push(e);
    if wired(nodes, more, added, i, y) {
        let j = choose|j: int|
            0 <= j < added.len() && (#[trigger] added[j]) == Some(y) && 0 <= j <= u32::MAX
                && crate::topology::joined(more, i as u32, j as u32) && spec_linkable(
                nodes[i].entity,
                nodes[j].entity,
            );
        let k = choose|k: int|
            0 <= k < more.len() && crate::topology::joins(#[trigger] more[k], i as u32, j as u32);
        if k < edges.len() {
            assert(more[k] == edges[k]);
            assert(crate::topology::joined(edges, i as u32, j as u32));
            assert(wired(nodes, edges, added, i, y));
        } else {
            assert(more[k] == e);
        }
    }
    if wired(nodes, edges, added, i, y) {
        let j = choose|j: int|
            0 <= j < added.len() && (#[trigger] added[j]) == Some(y) && 0 <= j <= u32::MAX
                && crate::topology::joined(edges, i as u32, j as u32) && spec_linkable(
                nodes[i].entity,
                nodes[j].entity,
            );
        let k = choose|k: int|
            0 <= k < edges.len() && crate::topology::joins(#[trigger] edges[k], i as u32, j as u32);
        assert(more[k] == edges[k]);
        assert(crate::topology::joined(more, i as u32, j as u32));
        assert(added[j] == Some(y));
    }
    if i == e.0 && added[e.1 as int] == Some(y) && spec_linkable(
        nodes[i].entity,
        nodes[e.1 as int].entity,
    ) {
        assert(more[edges.len() as int] == e);
        assert(crate::topology::joined(more, i as u32, e.1));
        assert(added[e.1 as int] == Some(y));
    }
    if i == e.1 && added[e.0 as int] == Some(y) && spec_linkable(
        nodes[i].entity,
        nodes[e.0 as int].entity,
    ) {
        assert(more[edges.len() as int] == e);
        assert(crate::topology::joined(more, i as u32, e.0));
        assert(added[e.0 as int] == Some(y));
    }
}

/// A pole can be placed in `now` exactly if it finds room: `now` is `model`
/// with the poles of the first `i` nodes that were added.
pub proof fn lemma_room(
    model: &BpModel,
    now: &BpModel,
    nodes: Seq<CandPoleNode>,
    added: Seq<Option<EntityId>>,
    i: int,
)
    requires
        model.wf(),
        now.wf(),
        0 <= i < nodes.len(),
        forall|t: TilePosition|
            (#[trigger] now.bucket(t)).len() > 0 <==> (model.bucket(t).len() > 0 || stands_on(
                nodes,
                added,
                i,
                t,
            )),
    ensures
        now.spec_can_place(nodes[i].entity) == finds_room(model, nodes, added, i),
{
    let ent = nodes[i].entity;
    if now.spec_can_place(ent) {
        assert forall|t: TilePosition| #[trigger] ent.covers(t) implies !model.buckets().contains_key(
            t.key(),
        ) by {
            assert(!now.buckets().contains_key(t.key()));
            assert(now.bucket(t).len() == 0);
            if model.buckets().contains_key(t.key()) {
                assert(model.bucket(t).len() > 0);
            }
        }
        assert forall|j: int| 0 <= j < i && (#[trigger] added[j]) is Some implies !overlap(
            nodes[j].entity,
            ent,
        ) by {
            if overlap(nodes[j].entity, ent) {
                let t = choose|t: TilePosition| nodes[j].entity.covers(t) && #[trigger] ent.covers(t);
                assert(stands_on(nodes, added, i, t));
                assert(now.bucket(t).len() > 0);
                assert(now.buckets().contains_key(t.key()));
            }
        }
    } else {
        let t = choose|t: TilePosition| #[trigger]
            ent.covers(t) && now.buckets().contains_key(t.key());
        assert(ent.covers(t) && now.buckets().contains_key(t.key()));
        assert(now.bucket(t).len() > 0);
        if model.bucket(t).len() > 0 {
            assert(model.buckets().contains_key(t.key()));
        } else {
            let q = choose|q: int|
                0 <= q < i && (#[trigger] added[q]) is Some && nodes[q].entity.covers(t);
            assert(overlap(nodes[q].entity, ent));
        }
    }
}

/// An entity that cannot be placed in a model cannot be placed after its
/// tiles have taken more entities.
pub proof fn lemma_stays_blocked(before: &BpModel, after: &BpModel, entity: WorldEntity)
    requires
        before.wf(),
        after.wf(),
        forall|t: TilePosition| before.bucket(t).len() <= (#[trigger] after.bucket(t)).len(),
    ensures
        !before.spec_can_place(entity) ==> !after.spec_can_place(entity),
{
    if !before.spec_can_place(entity) {
        let t = choose|t: TilePosition| #[trigger]
            entity.covers(t) && before.buckets().contains_key(t.key());
        assert(entity.covers(t) && before.buckets().contains_key(t.key()));
        assert(before.bucket(t) == before.buckets()[t.key()]);
        assert(before.bucket(t).len() > 0);
        assert(after.bucket(t).len() >= before.bucket(t).len());
        assert(after.buckets().contains_key(t.key()));
    }
}

/// What can be turned into a graph of candidate poles with the help of a
/// model.
pub trait ToCandidatePoleGraph {
    spec fn can_become_candidates(&self, model: &BpModel) -> bool;

    fn to_cand_pole_graph(&self, model: &BpModel) -> (r: CandPoleGraph)
        requires
            self.can_become_candidates(model),
        ensures
            r.wf(),
    ;
}

impl ToCandidatePoleGraph for PoleGraph {
    open spec fn can_become_candidates(&self, model: &BpModel) -> bool {
        &&& model.wf()
        &&& self.wf()
        &&& forall|i: int|
            0 <= i < self.nodes().len() ==> (#[trigger] self.nodes()[i]).wf()
                && self.nodes()[i].prototype.value().pole_data is Some
    }

    /// The same graph with, at every node, the pole and the ids of the power
    /// consumers of `model` in its supply window.
    fn to_cand_pole_graph(&self, model: &BpModel) -> (r: CandPoleGraph)
        ensures
            r.edges() == self.edges(),
            r.nodes().len() == self.nodes().len(),
            forall|i: int|
                0 <= i < r.nodes().len() ==> (#[trigger] r.nodes()[i]).entity == self.nodes()[i]
                    && r.nodes()[i].powered() == model.spec_powered_by(self.nodes()[i]),
    {
        model.to_cand_pole_graph(self)
    }
}

} // verus!
