//! Which wires to draw between the poles that were chosen.

use crate::graph::connected;
use crate::graph::degree;
use crate::graph::is_forest;
use crate::graph::lemma_connected_push;
use crate::graph::lemma_neighbors_push;
use crate::graph::pair;
use crate::graph::Edge;
use crate::graph::WeightedGraph;
use crate::pole_graph::WithPosition;
use crate::position::MapPosition;
use crate::topology::union_find_equiv;
use crate::topology::union_find_new;
use crate::topology::union_find_roots;
use crate::topology::union_find_union;
use crate::topology::MAX_EDGE_WEIGHT;
use vstd::prelude::*;

verus! {

/// The most wires that may meet at one pole.
pub const MAX_DEGREE: usize = 5;

/// Twice the factor by which the weight of a wire counts for more when one
/// of its poles holds 0, 1, 2, 3 or 4 wires already: 1, 1, 1, 1.5 and 5.
pub open spec fn spec_degree_mult(degree: int) -> int {
    if degree <= 2 {
        2
    } else if degree == 3 {
        3
    } else {
        10
    }
}

/// Twice the factor of the `level`-th step of the penalty: 1, 1.5 and 5.
pub open spec fn spec_level_mult(level: int) -> int {
    if level <= 0 {
        2
    } else if level == 1 {
        3
    } else {
        10
    }
}

/// The step of the penalty that a pole with `degree` wires is at.
pub open spec fn spec_penalty_level(degree: int) -> int {
    if degree <= 2 {
        0
    } else if degree == 3 {
        1
    } else {
        2
    }
}

fn penalty_level(degree: usize) -> (r: u8)
    ensures
        r == spec_penalty_level(degree as int),
        spec_level_mult(r as int) == spec_degree_mult(degree as int),
{
    if degree <= 2 {
        0
    } else if degree == 3 {
        1
    } else {
        2
    }
}

fn level_mult(level: u8) -> (r: u64)
    ensures
        r == spec_level_mult(level as int),
{
    if level == 0 {
        2
    } else if level == 1 {
        3
    } else {
        10
    }
}

/// A wire that waits to be looked at: the edge of the given graph, and the
/// step of the penalty at which it was last weighed.
#[derive(Clone, Copy, Debug)]
pub struct Pending {
    pub edge: Edge,
    pub level: u8,
}

impl Pending {
    /// Twice the weight with which the wire stands in the queue.
    pub open spec fn key(self) -> int {
        self.edge.2 * spec_level_mult(self.level as int)
    }
}

/// How often a wire at step `level` of the penalty can still be weighed.
pub open spec fn turns(level: u8) -> nat {
    if level >= 3 {
        0
    } else {
        (3 - level) as nat
    }
}

/// How often the wires of `queue` can still be weighed, all together.
pub open spec fn work(queue: Seq<Pending>) -> nat
    decreases queue.len(),
{
    if queue.len() == 0 {
        0
    } else {
        work(queue.drop_last()) + turns(queue.last().level)
    }
}

/// A wire that joins the queue adds its turns to the work.
pub proof fn lemma_work_push(queue: Seq<Pending>, item: Pending)
    ensures
        work(queue.push(item)) == work(queue) + turns(item.level),
{
    assert(queue.push(item).drop_last() =~= queue);
}

/// A wire that leaves the queue takes its turns off the work.
pub proof fn lemma_work_remove(queue: Seq<Pending>, i: int)
    requires
        0 <= i < queue.len(),
    ensures
        work(queue.remove(i)) + turns(queue[i].level) == work(queue),
    decreases queue.len(),
{
    if i == queue.len() - 1 {
        assert(queue.remove(i) =~= queue.drop_last());
    } else {
        lemma_work_remove(queue.drop_last(), i);
        assert(queue.remove(i).drop_last() =~= queue.drop_last().remove(i));
        assert(queue.remove(i).last() == queue.last());
    }
}

/// Whether the wire at place `i` of `queue` is the first of least key.
pub open spec fn is_least(queue: Seq<Pending>, i: int) -> bool {
    &&& 0 <= i < queue.len()
    &&& forall|j: int| 0 <= j < queue.len() ==> queue[i].key() <= (#[trigger] queue[j]).key()
    &&& forall|j: int| 0 <= j < i ==> queue[i].key() < (#[trigger] queue[j]).key()
}

/// The place in `queue` of the first wire of least key.
pub open spec fn spec_least(queue: Seq<Pending>) -> int {
    choose|i: int| is_least(queue, i)
}

/// A queue that is not empty has a first wire of least key.
pub proof fn lemma_least_exists(queue: Seq<Pending>)
    requires
        queue.len() > 0,
    ensures
        is_least(queue, spec_least(queue)),
    decreases queue.len(),
{
    if queue.len() == 1 {
        assert(is_least(queue, 0));
    } else {
        let rest = queue.drop_last();
        lemma_least_exists(rest);
        let i = spec_least(rest);
        let last = queue.len() - 1;
        if queue[last].key() < rest[i].key() {
            assert forall|j: int| 0 <= j < queue.len() implies queue[last].key() <= (
            #[trigger] queue[j]).key() by {
                if j < last {
                    assert(rest[j] == queue[j]);
                }
            }
            assert forall|j: int| 0 <= j < last implies queue[last].key() < (
            #[trigger] queue[j]).key() by {
                assert(rest[j] == queue[j]);
            }
            assert(is_least(queue, last));
        } else {
            assert forall|j: int| 0 <= j < queue.len() implies queue[i].key() <= (
            #[trigger] queue[j]).key() by {
                if j < last {
                    assert(rest[j] == queue[j]);
                }
            }
            assert forall|j: int| 0 <= j < i implies queue[i].key() < (#[trigger] queue[j]).key() by {
                assert(rest[j] == queue[j]);
            }
            assert(is_least(queue, i));
        }
    }
}

/// Only one wire is the first of least key.
pub proof fn lemma_least_unique(queue: Seq<Pending>, i: int, j: int)
    requires
        is_least(queue, i),
        is_least(queue, j),
    ensures
        i == j,
{
    if i < j {
        assert(queue[j].key() < queue[i].key());
        assert(queue[i].key() <= queue[j].key());
    } else if j < i {
        assert(queue[i].key() < queue[j].key());
        assert(queue[j].key() <= queue[i].key());
    }
}

/// The queue in which every edge of `edges` waits at the first step of the
/// penalty.
pub open spec fn initial_queue(edges: Seq<Edge>) -> Seq<Pending> {
    Seq::new(edges.len(), |k: int| Pending { edge: edges[k], level: 0 })
}

/// The larger of the numbers of wires at the two ends of `e` in `forest`.
pub open spec fn spec_max_degree(forest: Seq<Edge>, e: Edge) -> nat {
    if degree(forest, e.0) >= degree(forest, e.1) {
        degree(forest, e.0)
    } else {
        degree(forest, e.1)
    }
}

/// The forest that grows from `forest` when the wires of `queue` are looked
/// at one after the other.
///
/// The first wire of least key is taken out. It is dropped if its ends are
/// connected or one of them holds [`MAX_DEGREE`] wires; it goes back to
/// the queue at a later step of the penalty if the number of wires at its
/// ends asks for one; and else it joins the forest.
pub open spec fn spec_span_from(queue: Seq<Pending>, forest: Seq<Edge>) -> Seq<Edge>
    decreases work(queue),
    when forall|j: int| 0 <= j < queue.len() ==> (#[trigger] queue[j]).level <= 2
{
    if queue.len() == 0 {
        forest
    } else {
        let at = spec_least(queue);
        let item = queue[at];
        let rest = queue.remove(at);
        let most = spec_max_degree(forest, item.edge);
        let level = spec_penalty_level(most as int) as u8;
        proof {
            lemma_least_exists(queue);
            lemma_work_remove(queue, at);
            lemma_work_push(rest, Pending { edge: item.edge, level });
            assert(queue[at].level <= 2);
        }
        if connected(forest, item.edge.0, item.edge.1) || most >= MAX_DEGREE {
            spec_span_from(rest, forest)
        } else if level > item.level && item.edge.2 > 0 {
            spec_span_from(rest.push(Pending { edge: item.edge, level }), forest)
        } else {
            spec_span_from(rest, forest.push(item.edge))
        }
    }
}

/// The spanning forest of the graph with edges `edges`.
pub open spec fn spec_span(edges: Seq<Edge>) -> Seq<Edge> {
    spec_span_from(initial_queue(edges), Seq::empty())
}

fn key_of(item: &Pending) -> (r: u128)
    requires
        item.level <= 2,
    ensures
        r == item.key(),
{
    let weight: u128 = item.edge.2 as u128;
    let mult: u128 = level_mult(item.level) as u128;
    assert(weight * mult <= 0xFFFF_FFFF_FFFF_FFFF * 10) by (nonlinear_arith)
        requires
            0 <= weight <= 0xFFFF_FFFF_FFFF_FFFF,
            0 <= mult <= 10,
    ;
    weight * mult
}

/// The position of a wire of least key in `queue`, the first of them.
fn least(queue: &Vec<Pending>) -> (r: usize)
    requires
        queue@.len() > 0,
        forall|i: int| 0 <= i < queue@.len() ==> (#[trigger] queue@[i]).level <= 2,
    ensures
        r < queue@.len(),
        forall|i: int| 0 <= i < queue@.len() ==> queue@[r as int].key() <= (#[trigger] queue@[i]).key(),
        forall|i: int| 0 <= i < r ==> queue@[r as int].key() < (#[trigger] queue@[i]).key(),
        r == spec_least(queue@),
{
    let mut best: usize = 0;
    let mut best_key: u128 = key_of(&queue[0]);
    let mut i: usize = 1;
    while i < queue.len()
        invariant
            1 <= i <= queue@.len(),
            best < i,
            best_key == queue@[best as int].key(),
            forall|j: int| 0 <= j < queue@.len() ==> (#[trigger] queue@[j]).level <= 2,
            forall|j: int| 0 <= j < i ==> best_key <= (#[trigger] queue@[j]).key(),
            forall|j: int| 0 <= j < best ==> best_key < (#[trigger] queue@[j]).key(),
        decreases queue@.len() - i,
    {
        let key: u128 = key_of(&queue[i]);
        if key < best_key {
            best = i;
            best_key = key;
        }
        i = i + 1;
    }
    proof {
        assert(is_least(queue@, best as int));
        lemma_least_exists(queue@);
        lemma_least_unique(queue@, best as int, spec_least(queue@));
    }
    best
}

/// Something that chooses, among the wires that are possible, those to draw.
pub trait PoleConnector<N: WithPosition> {
    /// Whether the connector can work on `graph`.
    spec fn accepts(&self, graph: &WeightedGraph<N>) -> bool;

    /// A graph with the same poles and some of the wires of `graph`, each
    /// with the weight it has there.
    fn connect_poles(&self, graph: &WeightedGraph<N>) -> (r: WeightedGraph<N>)
        requires
            graph.wf(),
            self.accepts(graph),
        ensures
            r.wf(),
            r.nodes() == graph.nodes(),
            r.links().submap_of(graph.links()),
            forall|a: u32| degree(r.edges(), a) <= MAX_DEGREE,
            forall|k: int|
                0 <= k < graph.edges().len() ==> spanned(r.edges(), #[trigger] graph.edges()[k]),
    ;
}

/// Joins the poles by a spanning forest of short wires that keeps the number
/// of wires at a pole low: a wire counts for more when it ends at a pole
/// that holds three or four wires already, and none is drawn to a pole that
/// holds five.
pub struct WeightedMSTConnector;

/// Whether the forest `forest` has done what it can for edge `e`: its ends
/// are connected, or one of them holds [`MAX_DEGREE`] wires.
pub open spec fn spanned(forest: Seq<Edge>, e: Edge) -> bool {
    ||| connected(forest, e.0, e.1)
    ||| degree(forest, e.0) >= MAX_DEGREE
    ||| degree(forest, e.1) >= MAX_DEGREE
}

/// Whether `queue` holds edge `e`.
pub open spec fn waits(queue: Seq<Pending>, e: Edge) -> bool {
    exists|j: int| 0 <= j < queue.len() && (#[trigger] queue[j]).edge == e
}

impl WeightedMSTConnector {
    /// The spanning forest of `graph`, on the nodes `nodes`.
    ///
    /// All wires of `graph` wait in a queue, keyed by their weight. The wire
    /// of least key is taken out. It is dropped if its poles are joined by
    /// the forest already or one of them holds [`MAX_DEGREE`] wires. Else
    /// its weight is taken times the factor for the larger number of wires
    /// at its poles; if that is more than its key it goes back to the queue
    /// under the new key, and else it joins the forest.
    #[verifier::loop_isolation(false)]
    #[verifier::rlimit(60)]
    pub fn span<N: WithPosition>(graph: &WeightedGraph<N>, nodes: Vec<N>) -> (r: WeightedGraph<N>)
        requires
            graph.wf(),
            nodes@.len() == graph.nodes().len(),
        ensures
            r.wf(),
            r.nodes() == nodes@,
            r.links().submap_of(graph.links()),
            forall|a: u32| degree(r.edges(), a) <= MAX_DEGREE,
            r.edges().len() <= graph.edges().len(),
            is_forest(r.edges()),
            forall|k: int|
                0 <= k < graph.edges().len() ==> spanned(r.edges(), #[trigger] graph.edges()[k]),
            r.edges() == spec_span(graph.edges()),
    {
        proof {
            graph.lemma_wf();
        }
        let n = graph.node_count();
        let empty: WeightedGraph<N> = WeightedGraph::new_undirected();
        let mut result = empty.with_topology_of_size(nodes);
        let edges = graph.edge_list();
        let mut queue: Vec<Pending> = Vec::new();
        let mut i: usize = 0;
        while i < edges.len()
            invariant
                0 <= i <= edges@.len(),
                queue@.len() == i,
                forall|j: int|
                    0 <= j < i ==> (#[trigger] queue@[j]).level == 0 && queue@[j].edge == edges@[j],
            decreases edges@.len() - i,
        {
            queue.push(Pending { edge: edges[i], level: 0 });
            i = i + 1;
        }
        let mut uf = union_find_new(n);
        let ghost target = spec_span(graph.edges());
        proof {
            assert(queue@ =~= initial_queue(edges@));
            assert(result.edges() =~= Seq::empty());
            assert forall|a: u32| degree(result.edges(), a) <= MAX_DEGREE by {}
            assert(result.links() =~= Map::empty()) by {
                assert forall|p: (u32, u32)| !result.links().contains_key(p) by {}
            }
            result.lemma_wf();
            assert forall|k: int| 0 <= k < edges@.len() implies waits(
                queue@,
                #[trigger] edges@[k],
            ) by {
                assert(queue@[k].edge == edges@[k]);
            }
        }
        while queue.len() > 0
            invariant
                result.wf(),
                result.nodes() == nodes@,
                union_find_roots(uf).len() == n,
                forall|j: int|
                    0 <= j < queue@.len() ==> (#[trigger] queue@[j]).level <= 2 && exists|k: int|
                        0 <= k < edges@.len() && edges@[k] == queue@[j].edge,
                result.links().submap_of(graph.links()),
                forall|a: u32| degree(result.edges(), a) <= MAX_DEGREE,
                result.edges().len() + queue@.len() <= graph.edges().len(),
                is_forest(result.edges()),
                forall|x: u32, y: u32|
                    x < n && y < n ==> (#[trigger] connected(result.edges(), x, y) <==> union_find_roots(
                        uf,
                    )[x as int] == union_find_roots(uf)[y as int]),
                forall|k: int|
                    0 <= k < edges@.len() ==> waits(queue@, #[trigger] edges@[k]) || spanned(
                        result.edges(),
                        edges@[k],
                    ),
                spec_span_from(queue@, result.edges()) == target,
            decreases work(queue@),
        {
            let at = least(&queue);
            let ghost before = queue@;
            let item = queue.remove(at);
            let ghost forest = result.edges();
            proof {
                lemma_work_remove(before, at as int);
                assert(item == before[at as int]);
                result.lemma_wf();
                assert forall|j: int| 0 <= j < queue@.len() implies (#[trigger] queue@[j]).level
                    <= 2 && exists|k: int| 0 <= k < edges@.len() && edges@[k] == queue@[j].edge by {
                    if j < at {
                        assert(queue@[j] == before[j]);
                    } else {
                        assert(queue@[j] == before[j + 1]);
                    }
                }
                let k = choose|k: int| 0 <= k < edges@.len() && edges@[k] == before[at as int].edge;
                assert(edges@[k] == item.edge);
                assert forall|q: int|
                    0 <= q < edges@.len() && (#[trigger] edges@[q]) != item.edge implies waits(
                    queue@,
                    edges@[q],
                ) || spanned(forest, edges@[q]) by {
                    if waits(before, edges@[q]) {
                        let j = choose|j: int|
                            0 <= j < before.len() && (#[trigger] before[j]).edge == edges@[q];
                        if j < at {
                            assert(queue@[j].edge == edges@[q]);
                        } else {
                            assert(queue@[j - 1].edge == edges@[q]);
                        }
                    }
                }
            }
            let (a, b, raw) = item.edge;
            let ghost mut settled = false;
            proof {
                assert(before.len() > 0);
                assert(spec_least(before) == at);
                assert(before.remove(at as int) == queue@);
            }
            if union_find_equiv(&uf, a, b) {
                proof {
                    assert(connected(forest, a, b));
                    settled = true;
                    assert(spec_span_from(before, forest) == spec_span_from(queue@, forest));
                }
            } else {
                let deg_a = result.neighbors(a).len();
                let deg_b = result.neighbors(b).len();
                let max_deg = if deg_a >= deg_b {
                    deg_a
                } else {
                    deg_b
                };
                proof {
                    assert(!connected(forest, a, b));
                    assert(max_deg == spec_max_degree(forest, item.edge));
                }
                if max_deg >= MAX_DEGREE {
                    proof {
                        settled = true;
                        assert(spec_span_from(before, forest) == spec_span_from(queue@, forest));
                    }
                } else {
                    let level = penalty_level(max_deg);
                    if level > item.level && raw > 0 {
                        queue.push(Pending { edge: item.edge, level });
                        proof {
                            let kept = before.remove(at as int);
                            lemma_work_push(kept, Pending { edge: item.edge, level });
                            assert(queue@ == kept.push(Pending { edge: item.edge, level }));
                            assert(spec_span_from(before, forest) == spec_span_from(queue@, forest));
                            assert forall|j: int| 0 <= j < queue@.len() implies (
                            #[trigger] queue@[j]).level <= 2 && exists|k: int|
                                0 <= k < edges@.len() && edges@[k] == queue@[j].edge by {
                                if j < queue@.len() - 1 {
                                    assert(queue@[j] == kept[j]);
                                }
                            }
                            assert forall|q: int| 0 <= q < edges@.len() implies waits(
                                queue@,
                                #[trigger] edges@[q],
                            ) || spanned(forest, edges@[q]) by {
                                if edges@[q] == item.edge {
                                    assert(queue@[queue@.len() - 1].edge == edges@[q]);
                                } else if waits(kept, edges@[q]) {
                                    let j = choose|j: int|
                                        0 <= j < kept.len() && (#[trigger] kept[j]).edge == edges@[q];
                                    assert(queue@[j].edge == edges@[q]);
                                }
                            }
                        }
                    } else {
                        let ghost roots = union_find_roots(uf);
                        let joined_now = union_find_union(&mut uf, a, b);
                        proof {
                            assert(joined_now);
                            assert(!connected(forest, a, b));
                            if result.spec_contains_edge(a, b) {
                                crate::graph::lemma_joined_connected(forest, a, b);
                            }
                            graph.lemma_links_joined(a, b);
                            let k = choose|k: int| 0 <= k < edges@.len() && edges@[k] == item.edge;
                            crate::graph::lemma_link_of_edge(graph.edges(), n as nat, k);
                            assert(graph.links().contains_key(crate::graph::pair(a, b))
                                && graph.links()[crate::graph::pair(a, b)] == raw);
                        }
                        let ghost links_before = result.links();
                        result.add_edge(a, b, raw);
                        proof {
                            let grown = result.edges();
                            let after = union_find_roots(uf);
                            assert(result.links() == links_before.insert(
                                crate::graph::pair(a, b),
                                raw,
                            ));
                            assert(result.links().submap_of(graph.links()));
                            assert(grown == forest.push(item.edge));
                            assert(spec_span_from(before, forest) == spec_span_from(queue@, grown));
                            assert forall|x: u32| degree(grown, x) <= MAX_DEGREE by {
                                lemma_neighbors_push(forest, (a, b, raw), x);
                                assert(degree(forest, x) <= MAX_DEGREE);
                            }
                            assert forall|x: u32, y: u32| x < n && y < n implies (
                            #[trigger] connected(grown, x, y) <==> after[x as int]
                                == after[y as int]) by {
                                lemma_connected_push(forest, (a, b, raw), x, y);
                                assert(connected(forest, x, y) <==> roots[x as int] == roots[y as int]);
                                assert(connected(forest, x, a) <==> roots[x as int] == roots[a as int]);
                                assert(connected(forest, x, b) <==> roots[x as int] == roots[b as int]);
                                assert(connected(forest, a, y) <==> roots[a as int] == roots[y as int]);
                                assert(connected(forest, b, y) <==> roots[b as int] == roots[y as int]);
                            }
                            assert(is_forest(grown)) by {
                                assert forall|k: int| 0 <= k < grown.len() implies !connected(
                                    grown.take(k),
                                    (#[trigger] grown[k]).0,
                                    grown[k].1,
                                ) by {
                                    if k < forest.len() {
                                        assert(grown.take(k) =~= forest.take(k));
                                        assert(grown[k] == forest[k]);
                                    } else {
                                        assert(grown.take(k) =~= forest);
                                    }
                                }
                            }
                            assert forall|q: int| 0 <= q < edges@.len() implies waits(
                                queue@,
                                #[trigger] edges@[q],
                            ) || spanned(grown, edges@[q]) by {
                                let e = edges@[q];
                                lemma_connected_push(forest, (a, b, raw), e.0, e.1);
                                lemma_neighbors_push(forest, (a, b, raw), e.0);
                                lemma_neighbors_push(forest, (a, b, raw), e.1);
                                if e == item.edge {
                                    assert(connected(grown, a, b));
                                }
                            }
                        }
                    }
                }
            }
            proof {
                if settled {
                    assert forall|q: int| 0 <= q < edges@.len() implies waits(
                        queue@,
                        #[trigger] edges@[q],
                    ) || spanned(forest, edges@[q]) by {
                        if edges@[q] == item.edge {
                            assert(spanned(forest, edges@[q]));
                        }
                    }
                }
            }
        }
        proof {
            assert forall|k: int| 0 <= k < graph.edges().len() implies spanned(
                result.edges(),
                #[trigger] graph.edges()[k],
            ) by {
                if waits(queue@, edges@[k]) {
                    let j = choose|j: int|
                        0 <= j < queue@.len() && (#[trigger] queue@[j]).edge == edges@[k];
                }
            }
        }
        result
    }
}

impl<N: WithPosition> PoleConnector<N> for WeightedMSTConnector {
    open spec fn accepts(&self, graph: &WeightedGraph<N>) -> bool {
        true
    }

    fn connect_poles(&self, graph: &WeightedGraph<N>) -> (r: WeightedGraph<N>)
        ensures
            is_forest(r.edges()),
            r.edges() == spec_span(graph.edges()),
    {
        let nodes = graph.clone_nodes();
        WeightedMSTConnector::span(graph, nodes)
    }
}

/// The longest step along one axis that a wire may take: four thousand
/// tiles, in map-space units.
pub const MAX_SPAN: i64 = 4_000_000_000;

/// A step from one place to another, by its two coordinates.
pub type Vector = (i64, i64);

/// An angle from 0 to 180 degrees, given by a direction above the x axis:
/// the angle is the one between that direction and the positive x axis.
#[derive(Clone, Copy, Debug, PartialEq, Eq, Structural)]
pub struct Angle {
    pub cos: i64,
    pub sin: i64,
}

impl Angle {
    /// The direction points up or along the axis and is not too long.
    pub open spec fn wf(self) -> bool {
        &&& -1_000_000_000 <= self.cos <= 1_000_000_000
        &&& 0 <= self.sin <= 1_000_000_000
    }

    /// The angle between the direction `(cos, sin)` and the positive x axis.
    pub fn new(cos: i64, sin: i64) -> (r: Angle)
        ensures
            r.cos == cos,
            r.sin == sin,
    {
        Angle { cos, sin }
    }

    /// Thirty degrees, to nine places.
    pub fn degrees_30() -> (r: Angle)
        ensures
            r.wf(),
            r.cos == 866_025_404,
            r.sin == 500_000_000,
    {
        Angle { cos: 866_025_404, sin: 500_000_000 }
    }

    /// A hundred degrees, to nine places.
    pub fn degrees_100() -> (r: Angle)
        ensures
            r.wf(),
            r.cos == -173_648_178,
            r.sin == 984_807_753,
    {
        Angle { cos: -173_648_178, sin: 984_807_753 }
    }
}

/// The step from `from` to `to`.
pub open spec fn spec_vector(from: MapPosition, to: MapPosition) -> Vector {
    ((to.x - from.x) as i64, (to.y - from.y) as i64)
}

/// The cross product of two steps: positive where `v` turns to the side of
/// growing `y` from `u`.
pub open spec fn spec_cross(u: Vector, v: Vector) -> int {
    u.0 * v.1 - u.1 * v.0
}

/// The dot product of two steps.
pub open spec fn spec_dot(u: Vector, v: Vector) -> int {
    u.0 * v.0 + u.1 * v.1
}

/// The cross product of the steps from `a` to `b` and from `a` to `c`.
pub open spec fn spec_orientation(a: MapPosition, b: MapPosition, c: MapPosition) -> int {
    (b.x - a.x) * (c.y - a.y) - (b.y - a.y) * (c.x - a.x)
}

/// The sign of a number: -1, 0 or 1.
pub open spec fn signum(v: int) -> int {
    if v > 0 {
        1
    } else if v < 0 {
        -1
    } else {
        0
    }
}

/// Whether the segments from `a` to `b` and from `c` to `d` cross: `c` and
/// `d` lie on different sides of the line through `a` and `b`, or one of
/// them on it, and likewise `a` and `b` for the line through `c` and `d`.
pub open spec fn spec_line_seg_intersects(
    a: MapPosition,
    b: MapPosition,
    c: MapPosition,
    d: MapPosition,
) -> bool {
    signum(spec_orientation(a, b, c)) != signum(spec_orientation(a, b, d)) && signum(
        spec_orientation(c, d, a),
    ) != signum(spec_orientation(c, d, b))
}

/// Whether no coordinate of the step is longer than [`MAX_SPAN`].
pub open spec fn short(v: Vector) -> bool {
    -MAX_SPAN <= v.0 <= MAX_SPAN && -MAX_SPAN <= v.1 <= MAX_SPAN
}

/// Whether the angle between `u` and `v`, from 0 to 180 degrees, is less
/// than `bound`.
pub open spec fn spec_angle_less(u: Vector, v: Vector, bound: Angle) -> bool {
    let cross = spec_cross(u, v);
    spec_dot(u, v) * bound.sin - (if cross >= 0 {
        cross
    } else {
        -cross
    }) * bound.cos > 0
}

/// The cross product of the steps from `a` to `b` and from `a` to `c`.
pub fn orientation(a: MapPosition, b: MapPosition, c: MapPosition) -> (r: i128)
    requires
        a.in_world(),
        b.in_world(),
        c.in_world(),
    ensures
        r == spec_orientation(a, b, c),
{
    let ux: i128 = b.x as i128 - a.x as i128;
    let uy: i128 = b.y as i128 - a.y as i128;
    let vx: i128 = c.x as i128 - a.x as i128;
    let vy: i128 = c.y as i128 - a.y as i128;
    assert(-16_000_000_000_000_000_000_000_000_000_000 <= ux * vy
        <= 16_000_000_000_000_000_000_000_000_000_000) by (nonlinear_arith)
        requires
            -4_000_000_000_000_000 <= ux <= 4_000_000_000_000_000,
            -4_000_000_000_000_000 <= vy <= 4_000_000_000_000_000,
    ;
    assert(-16_000_000_000_000_000_000_000_000_000_000 <= uy * vx
        <= 16_000_000_000_000_000_000_000_000_000_000) by (nonlinear_arith)
        requires
            -4_000_000_000_000_000 <= uy <= 4_000_000_000_000_000,
            -4_000_000_000_000_000 <= vx <= 4_000_000_000_000_000,
    ;
    ux * vy - uy * vx
}

/// Whether `b` lies to the left of the line from `base` to `a`, seen with
/// `y` growing upwards.
pub fn is_left(base: MapPosition, a: MapPosition, b: MapPosition) -> (r: bool)
    requires
        base.in_world(),
        a.in_world(),
        b.in_world(),
    ensures
        r == (spec_orientation(base, a, b) > 0),
{
    orientation(base, a, b) > 0
}

fn sign_of(v: i128) -> (r: i8)
    ensures
        r == signum(v as int),
{
    if v > 0 {
        1
    } else if v < 0 {
        -1
    } else {
        0
    }
}

/// Whether the segments from `a` to `b` and from `c` to `d` cross.
pub fn line_seg_intersects(a: MapPosition, b: MapPosition, c: MapPosition, d: MapPosition) -> (r:
    bool)
    requires
        a.in_world(),
        b.in_world(),
        c.in_world(),
        d.in_world(),
    ensures
        r == spec_line_seg_intersects(a, b, c, d),
{
    let o1 = sign_of(orientation(a, b, c));
    let o2 = sign_of(orientation(a, b, d));
    let o3 = sign_of(orientation(c, d, a));
    let o4 = sign_of(orientation(c, d, b));
    o1 != o2 && o3 != o4
}

fn cross_of(u: Vector, v: Vector) -> (r: i128)
    requires
        short(u),
        short(v),
    ensures
        r == spec_cross(u, v),
        -32_000_000_000_000_000_000 <= r <= 32_000_000_000_000_000_000,
{
    let a: i128 = u.0 as i128;
    let b: i128 = u.1 as i128;
    let c: i128 = v.0 as i128;
    let d: i128 = v.1 as i128;
    assert(-16_000_000_000_000_000_000 <= a * d <= 16_000_000_000_000_000_000) by (nonlinear_arith)
        requires
            -4_000_000_000 <= a <= 4_000_000_000,
            -4_000_000_000 <= d <= 4_000_000_000,
    ;
    assert(-16_000_000_000_000_000_000 <= b * c <= 16_000_000_000_000_000_000) by (nonlinear_arith)
        requires
            -4_000_000_000 <= b <= 4_000_000_000,
            -4_000_000_000 <= c <= 4_000_000_000,
    ;
    a * d - b * c
}

fn dot_of(u: Vector, v: Vector) -> (r: i128)
    requires
        short(u),
        short(v),
    ensures
        r == spec_dot(u, v),
        -32_000_000_000_000_000_000 <= r <= 32_000_000_000_000_000_000,
{
    let a: i128 = u.0 as i128;
    let b: i128 = u.1 as i128;
    let c: i128 = v.0 as i128;
    let d: i128 = v.1 as i128;
    assert(-16_000_000_000_000_000_000 <= a * c <= 16_000_000_000_000_000_000) by (nonlinear_arith)
        requires
            -4_000_000_000 <= a <= 4_000_000_000,
            -4_000_000_000 <= c <= 4_000_000_000,
    ;
    assert(-16_000_000_000_000_000_000 <= b * d <= 16_000_000_000_000_000_000) by (nonlinear_arith)
        requires
            -4_000_000_000 <= b <= 4_000_000_000,
            -4_000_000_000 <= d <= 4_000_000_000,
    ;
    a * c + b * d
}

/// Whether the angle between `u` and `v` is less than `bound`.
pub fn angle_less(u: Vector, v: Vector, bound: Angle) -> (r: bool)
    requires
        short(u),
        short(v),
        bound.wf(),
    ensures
        r == spec_angle_less(u, v, bound),
{
    let cross = cross_of(u, v);
    let dot = dot_of(u, v);
    let turn: i128 = if cross >= 0 {
        cross
    } else {
        -cross
    };
    let s: i128 = bound.sin as i128;
    let c: i128 = bound.cos as i128;
    assert(-32_000_000_000_000_000_000_000_000_000 <= dot * s
        <= 32_000_000_000_000_000_000_000_000_000) by (nonlinear_arith)
        requires
            -32_000_000_000_000_000_000 <= dot <= 32_000_000_000_000_000_000,
            0 <= s <= 1_000_000_000,
    ;
    assert(-32_000_000_000_000_000_000_000_000_000 <= turn * c
        <= 32_000_000_000_000_000_000_000_000_000) by (nonlinear_arith)
        requires
            0 <= turn <= 32_000_000_000_000_000_000,
            -1_000_000_000 <= c <= 1_000_000_000,
    ;
    dot * s - turn * c > 0
}

/// Whether the places of two nodes are no more than [`MAX_SPAN`] apart along
/// either axis.
pub open spec fn spans(p: MapPosition, q: MapPosition) -> bool {
    &&& -MAX_SPAN <= q.x - p.x <= MAX_SPAN
    &&& -MAX_SPAN <= q.y - p.y <= MAX_SPAN
}

/// Whether every node of the graph stands in the world and no edge is
/// longer than [`MAX_SPAN`] along either axis.
pub open spec fn geometry_ok<N: WithPosition>(graph: &WeightedGraph<N>) -> bool {
    &&& forall|i: int|
        0 <= i < graph.nodes().len() ==> (#[trigger] graph.nodes()[i]).spec_position().in_world()
    &&& forall|k: int|
        0 <= k < graph.edges().len() ==> spans(
            graph.nodes()[(#[trigger] graph.edges()[k]).0 as int].spec_position(),
            graph.nodes()[graph.edges()[k].1 as int].spec_position(),
        )
}

/// The place of node `a`.
pub open spec fn place<N: WithPosition>(graph: &WeightedGraph<N>, a: u32) -> MapPosition {
    graph.nodes()[a as int].spec_position()
}

/// The steps from node `e` along the wires of `graph` that end there, in the
/// order in which the graph lists its neighbours.
pub open spec fn wires_at<N: WithPosition>(cand: &WeightedGraph<N>, res: &WeightedGraph<N>, e: u32) -> Seq<
    Vector,
> {
    Seq::new(
        res.spec_neighbors(e).len(),
        |k: int| spec_vector(place(cand, e), place(cand, res.spec_neighbors(e)[k])),
    )
}

/// Whether node `x` is a neighbour of `a` or of `b` in `cand`, and neither
/// of the two.
pub open spec fn around<N>(cand: &WeightedGraph<N>, a: u32, b: u32, x: u32) -> bool {
    &&& x != a
    &&& x != b
    &&& cand.spec_neighbors(a).contains(x) || cand.spec_neighbors(b).contains(x)
}

/// Whether a wire between `l` and `r` stands in the way of one from `a` to
/// `b`: both are around `a` and `b`, `l` to the left of the line from `a` to
/// `b` and `r` not, a wire of `res` joins them, and the two segments cross.
pub open spec fn blocks<N: WithPosition>(
    cand: &WeightedGraph<N>,
    res: &WeightedGraph<N>,
    a: u32,
    b: u32,
    l: u32,
    r: u32,
) -> bool {
    &&& around(cand, a, b, l)
    &&& around(cand, a, b, r)
    &&& spec_orientation(place(cand, a), place(cand, b), place(cand, l)) > 0
    &&& !(spec_orientation(place(cand, a), place(cand, b), place(cand, r)) > 0)
    &&& res.spec_contains_edge(l, r)
    &&& spec_line_seg_intersects(place(cand, a), place(cand, b), place(cand, l), place(cand, r))
}

/// The place of what stands at node `a` of `nodes`.
pub open spec fn place_on<N: WithPosition>(nodes: Seq<N>, a: u32) -> MapPosition {
    nodes[a as int].spec_position()
}

/// The steps from node `e` along the wires `res` that end there.
pub open spec fn wires_on<N: WithPosition>(nodes: Seq<N>, res: Seq<Edge>, e: u32) -> Seq<Vector> {
    Seq::new(
        crate::topology::neighbor_list(res, e).len(),
        |k: int|
            spec_vector(place_on(nodes, e), place_on(nodes, crate::topology::neighbor_list(res, e)[k])),
    )
}

/// Whether node `x` is a neighbour of `a` or of `b` by the wires `cand`,
/// and neither of the two.
pub open spec fn around_on(cand: Seq<Edge>, a: u32, b: u32, x: u32) -> bool {
    &&& x != a
    &&& x != b
    &&& crate::topology::neighbor_list(cand, a).contains(x) || crate::topology::neighbor_list(
        cand,
        b,
    ).contains(x)
}

/// Whether a wire of `res` between `l` and `r` stands in the way of one
/// from `a` to `b`.
pub open spec fn blocks_on<N: WithPosition>(
    nodes: Seq<N>,
    cand: Seq<Edge>,
    res: Seq<Edge>,
    a: u32,
    b: u32,
    l: u32,
    r: u32,
) -> bool {
    &&& around_on(cand, a, b, l)
    &&& around_on(cand, a, b, r)
    &&& spec_orientation(place_on(nodes, a), place_on(nodes, b), place_on(nodes, l)) > 0
    &&& !(spec_orientation(place_on(nodes, a), place_on(nodes, b), place_on(nodes, r)) > 0)
    &&& crate::topology::joined(res, l, r)
    &&& spec_line_seg_intersects(
        place_on(nodes, a),
        place_on(nodes, b),
        place_on(nodes, l),
        place_on(nodes, r),
    )
}

/// Whether `order` holds every edge of `edges` by its place, with the weight
/// by which the wires are put in order, the least weight first and, of two
/// of one weight, the one that stands earlier in `edges`.
pub open spec fn is_pretty_order<N: WithPosition>(
    nodes: Seq<N>,
    edges: Seq<Edge>,
    order: Seq<(u64, u64)>,
) -> bool {
    &&& crate::sorting::strictly_ascending(order)
    &&& forall|x: (u64, u64)| #[trigger]
        order.contains(x) <==> (x.1 < edges.len() && x.0 == PrettyPoleConnector::spec_edge_weight(
            edges[x.1 as int].2,
            place_on(nodes, edges[x.1 as int].0),
            place_on(nodes, edges[x.1 as int].1),
        ))
}

/// The edges of `edges` by place and weight in the order of
/// `is_pretty_order`.
pub open spec fn spec_pretty_order<N: WithPosition>(nodes: Seq<N>, edges: Seq<Edge>) -> Seq<
    (u64, u64),
> {
    choose|order: Seq<(u64, u64)>| is_pretty_order(nodes, edges, order)
}

/// Chooses wires that look orderly: first a spanning forest, then every
/// further wire, the most axis-aligned and shortest first, that crosses no
/// wire drawn before and keeps its distance from the wires at its ends.
///
/// The input is taken to hold every wire that is possible; where it does
/// not, wires of the result may cross.
#[derive(Clone, Copy, Debug)]
pub struct PrettyPoleConnector {
    /// Any two wires at a pole enclose at least this angle.
    pub min_angle: Angle,
    /// The two wires next to a new wire, one on each side, enclose at least
    /// this angle.
    pub min_adjacent_angle: Angle,
}

impl PrettyPoleConnector {
    /// Thirty degrees between any two wires, a hundred between the two next
    /// to a new one.
    pub open spec fn spec_default() -> Self {
        PrettyPoleConnector {
            min_angle: Angle { cos: 866_025_404, sin: 500_000_000 },
            min_adjacent_angle: Angle { cos: (-173_648_178i64), sin: 984_807_753 },
        }
    }

    /// Thirty degrees between any two wires, a hundred between the two next
    /// to a new one.
    pub fn default() -> (r: Self)
        ensures
            r.wf(),
            r == Self::spec_default(),
            r.min_angle.cos == 866_025_404,
            r.min_angle.sin == 500_000_000,
            r.min_adjacent_angle.cos == -173_648_178,
            r.min_adjacent_angle.sin == 984_807_753,
    {
        PrettyPoleConnector {
            min_angle: Angle::degrees_30(),
            min_adjacent_angle: Angle::degrees_100(),
        }
    }

    pub open spec fn wf(&self) -> bool {
        self.min_angle.wf() && self.min_adjacent_angle.wf()
    }

    /// Whether wire `v` is nearer to the new wire `u` than the least angle.
    pub open spec fn too_near(&self, u: Vector, v: Vector) -> bool {
        spec_angle_less(u, v, self.min_angle)
    }

    /// Whether the new wire `u` would be pinched between `v` on its one side
    /// and `w` on its other: the angle from `v` over `u` to `w` is less than
    /// the least angle between the wires next to a new one.
    pub open spec fn pinched(&self, u: Vector, v: Vector, w: Vector) -> bool {
        &&& spec_cross(u, v) < 0
        &&& spec_cross(u, w) >= 0
        &&& spec_cross(v, w) > 0
        &&& spec_angle_less(v, w, self.min_adjacent_angle)
    }

    /// Whether the wires `wires` at a pole leave no room for the new wire `u`.
    pub open spec fn spec_crowds(&self, u: Vector, wires: Seq<Vector>) -> bool {
        ||| exists|i: int| 0 <= i < wires.len() && #[trigger] self.too_near(u, wires[i])
        ||| exists|i: int, j: int|
            0 <= i < wires.len() && 0 <= j < wires.len() && #[trigger] self.pinched(
                u,
                wires[i],
                wires[j],
            )
    }

    /// Whether the wires `wires` at a pole leave no room for the new wire `u`.
    pub fn crowds(&self, u: Vector, wires: &Vec<Vector>) -> (r: bool)
        requires
            self.wf(),
            short(u),
            forall|i: int| 0 <= i < wires@.len() ==> short(#[trigger] wires@[i]),
        ensures
            r == self.spec_crowds(u, wires@),
    {
        let mut i: usize = 0;
        while i < wires.len()
            invariant
                0 <= i <= wires@.len(),
                self.wf(),
                short(u),
                forall|k: int| 0 <= k < wires@.len() ==> short(#[trigger] wires@[k]),
                forall|k: int| 0 <= k < i ==> !#[trigger] self.too_near(u, wires@[k]),
            decreases wires@.len() - i,
        {
            if angle_less(u, wires[i], self.min_angle) {
                assert(self.too_near(u, wires@[i as int]));
                return true;
            }
            i = i + 1;
        }
        let mut a: usize = 0;
        while a < wires.len()
            invariant
                0 <= a <= wires@.len(),
                self.wf(),
                short(u),
                forall|k: int| 0 <= k < wires@.len() ==> short(#[trigger] wires@[k]),
                forall|k: int| 0 <= k < wires@.len() ==> !#[trigger] self.too_near(u, wires@[k]),
                forall|p: int, q: int|
                    0 <= p < a && 0 <= q < wires@.len() ==> !#[trigger] self.pinched(
                        u,
                        wires@[p],
                        wires@[q],
                    ),
            decreases wires@.len() - a,
        {
            let v = wires[a];
            if cross_of(u, v) < 0 {
                let mut b: usize = 0;
                while b < wires.len()
                    invariant
                        0 <= b <= wires@.len(),
                        0 <= a < wires@.len(),
                        v == wires@[a as int],
                        spec_cross(u, v) < 0,
                        self.wf(),
                        short(u),
                        forall|k: int| 0 <= k < wires@.len() ==> short(#[trigger] wires@[k]),
                        forall|q: int|
                            0 <= q < b ==> !#[trigger] self.pinched(u, wires@[a as int], wires@[q]),
                    decreases wires@.len() - b,
                {
                    let w = wires[b];
                    if cross_of(u, w) >= 0 && cross_of(v, w) > 0 && angle_less(
                        v,
                        w,
                        self.min_adjacent_angle,
                    ) {
                        assert(self.pinched(u, wires@[a as int], wires@[b as int]));
                        return true;
                    }
                    b = b + 1;
                }
            }
            a = a + 1;
        }
        false
    }

    /// Whether some wire of `res` stands in the way of one from `a` to `b`.
    pub open spec fn spec_crossed<N: WithPosition>(
        cand: &WeightedGraph<N>,
        res: &WeightedGraph<N>,
        a: u32,
        b: u32,
    ) -> bool {
        exists|l: u32, r: u32| #[trigger] blocks(cand, res, a, b, l, r)
    }

    /// Whether a wire from `a` to `b` may be added to `res`: none joins them
    /// yet, both hold fewer than [`MAX_DEGREE`] wires, no wire of `res`
    /// stands in the way, and the wires at either end leave room.
    pub open spec fn spec_can_connect<N: WithPosition>(
        &self,
        cand: &WeightedGraph<N>,
        res: &WeightedGraph<N>,
        a: u32,
        b: u32,
    ) -> bool {
        &&& !res.spec_contains_edge(a, b)
        &&& degree(res.edges(), a) < MAX_DEGREE
        &&& degree(res.edges(), b) < MAX_DEGREE
        &&& !Self::spec_crossed(cand, res, a, b)
        &&& !self.spec_crowds(spec_vector(place(cand, a), place(cand, b)), wires_at(cand, res, a))
        &&& !self.spec_crowds(spec_vector(place(cand, b), place(cand, a)), wires_at(cand, res, b))
    }

    /// The neighbours of `a` and of `b` in `cand`, but for the two
    /// themselves, parted into those to the left of the line from `a` to `b`
    /// and the others.
    #[verifier::loop_isolation(false)]
    fn sides<N: WithPosition>(cand: &WeightedGraph<N>, a: u32, b: u32) -> (r: (Vec<u32>, Vec<u32>))
        requires
            cand.wf(),
            geometry_ok(cand),
            a < cand.nodes().len(),
            b < cand.nodes().len(),
        ensures
            forall|x: u32|
                r.0@.contains(x) <==> (around(cand, a, b, x) && spec_orientation(
                    place(cand, a),
                    place(cand, b),
                    place(cand, x),
                ) > 0),
            forall|x: u32|
                r.1@.contains(x) <==> (around(cand, a, b, x) && !(spec_orientation(
                    place(cand, a),
                    place(cand, b),
                    place(cand, x),
                ) > 0)),
            forall|i: int| 0 <= i < r.0@.len() ==> (#[trigger] r.0@[i]) < cand.nodes().len(),
            forall|i: int| 0 <= i < r.1@.len() ==> (#[trigger] r.1@[i]) < cand.nodes().len(),
    {
        let mut left: Vec<u32> = Vec::new();
        let mut right: Vec<u32> = Vec::new();
        let pos_a = cand.node_weight(a).position();
        let pos_b = cand.node_weight(b).position();
        let first = cand.neighbors(a);
        let second = cand.neighbors(b);
        proof {
            cand.lemma_wf();
            crate::graph::lemma_neighbors_valid(cand.edges(), cand.nodes().len(), a);
            crate::graph::lemma_neighbors_valid(cand.edges(), cand.nodes().len(), b);
        }
        let mut round: usize = 0;
        while round < 2
            invariant
                0 <= round <= 2,
                cand.wf(),
                geometry_ok(cand),
                a < cand.nodes().len(),
                b < cand.nodes().len(),
                pos_a == place(cand, a),
                pos_b == place(cand, b),
                first@ == cand.spec_neighbors(a),
                second@ == cand.spec_neighbors(b),
                forall|i: int| 0 <= i < first@.len() ==> (#[trigger] first@[i]) < cand.nodes().len(),
                forall|i: int| 0 <= i < second@.len() ==> (#[trigger] second@[i]) < cand.nodes().len(),
                forall|i: int| 0 <= i < left@.len() ==> (#[trigger] left@[i]) < cand.nodes().len(),
                forall|i: int| 0 <= i < right@.len() ==> (#[trigger] right@[i]) < cand.nodes().len(),
                forall|x: u32| #[trigger]
                    left@.contains(x) <==> (x != a && x != b && ((round >= 1 && first@.contains(x))
                        || (round >= 2 && second@.contains(x))) && spec_orientation(
                        pos_a,
                        pos_b,
                        place(cand, x),
                    ) > 0),
                forall|x: u32| #[trigger]
                    right@.contains(x) <==> (x != a && x != b && ((round >= 1 && first@.contains(
                        x,
                    )) || (round >= 2 && second@.contains(x))) && !(spec_orientation(
                        pos_a,
                        pos_b,
                        place(cand, x),
                    ) > 0)),
            decreases 2 - round,
        {
            let list = if round == 0 {
                &first
            } else {
                &second
            };
            let ghost left0 = left@;
            let ghost right0 = right@;
            let mut i: usize = 0;
            while i < list.len()
                invariant
                    0 <= i <= list@.len(),
                    0 <= round < 2,
                    cand.wf(),
                    geometry_ok(cand),
                    a < cand.nodes().len(),
                    b < cand.nodes().len(),
                    pos_a == place(cand, a),
                    pos_b == place(cand, b),
                    list@ == (if round == 0 {
                        first@
                    } else {
                        second@
                    }),
                    forall|k: int| 0 <= k < list@.len() ==> (#[trigger] list@[k]) < cand.nodes().len(),
                    forall|k: int| 0 <= k < left@.len() ==> (#[trigger] left@[k]) < cand.nodes().len(),
                    forall|k: int| 0 <= k < right@.len() ==> (#[trigger] right@[k]) < cand.nodes().len(),
                    forall|x: u32| #[trigger]
                        left@.contains(x) <==> (left0.contains(x) || (x != a && x != b && exists|
                            k: int,
                        |
                            0 <= k < i && #[trigger] list@[k] == x) && spec_orientation(
                            pos_a,
                            pos_b,
                            place(cand, x),
                        ) > 0),
                    forall|x: u32| #[trigger]
                        right@.contains(x) <==> (right0.contains(x) || (x != a && x != b && exists|
                            k: int,
                        |
                            0 <= k < i && #[trigger] list@[k] == x) && !(spec_orientation(
                            pos_a,
                            pos_b,
                            place(cand, x),
                        ) > 0)),
                decreases list@.len() - i,
            {
                let x = list[i];
                let ghost l1 = left@;
                let ghost r1 = right@;
                if x != a && x != b {
                    let pos_x = cand.node_weight(x).position();
                    if is_left(pos_a, pos_b, pos_x) {
                        left.push(x);
                    } else {
                        right.push(x);
                    }
                }
                proof {
                    assert forall|y: u32|
                        left@.contains(y) <==> (left0.contains(y) || (y != a && y != b && exists|
                            k: int,
                        |
                            0 <= k < i + 1 && #[trigger] list@[k] == y) && spec_orientation(
                            pos_a,
                            pos_b,
                            place(cand, y),
                        ) > 0) by {
                        lemma_push_contains_u32(l1, x, y);
                        assert(l1.contains(y) <==> (left0.contains(y) || (y != a && y != b
                            && exists|k: int| 0 <= k < i && #[trigger] list@[k] == y)
                            && spec_orientation(pos_a, pos_b, place(cand, y)) > 0));
                        if exists|k: int| 0 <= k < i && #[trigger] list@[k] == y {
                            let k = choose|k: int| 0 <= k < i && #[trigger] list@[k] == y;
                            assert(0 <= k < i + 1 && list@[k] == y);
                        }
                        if exists|k: int| 0 <= k < i + 1 && #[trigger] list@[k] == y {
                            let k = choose|k: int| 0 <= k < i + 1 && #[trigger] list@[k] == y;
                            if k < i {
                                assert(0 <= k < i && list@[k] == y);
                            }
                        }
                        if y == x {
                            assert(list@[i as int] == y);
                        }
                    }
                    assert forall|y: u32|
                        right@.contains(y) <==> (right0.contains(y) || (y != a && y != b && exists|
                            k: int,
                        |
                            0 <= k < i + 1 && #[trigger] list@[k] == y) && !(spec_orientation(
                            pos_a,
                            pos_b,
                            place(cand, y),
                        ) > 0)) by {
                        lemma_push_contains_u32(r1, x, y);
                        assert(r1.contains(y) <==> (right0.contains(y) || (y != a && y != b
                            && exists|k: int| 0 <= k < i && #[trigger] list@[k] == y) && !(
                        spec_orientation(pos_a, pos_b, place(cand, y)) > 0)));
                        if exists|k: int| 0 <= k < i && #[trigger] list@[k] == y {
                            let k = choose|k: int| 0 <= k < i && #[trigger] list@[k] == y;
                            assert(0 <= k < i + 1 && list@[k] == y);
                        }
                        if exists|k: int| 0 <= k < i + 1 && #[trigger] list@[k] == y {
                            let k = choose|k: int| 0 <= k < i + 1 && #[trigger] list@[k] == y;
                            if k < i {
                                assert(0 <= k < i && list@[k] == y);
                            }
                        }
                        if y == x {
                            assert(list@[i as int] == y);
                        }
                    }
                }
                i = i + 1;
            }
            proof {
                assert forall|x: u32|
                    list@.contains(x) <==> exists|k: int|
                        0 <= k < list@.len() && #[trigger] list@[k] == x by {
                    if list@.contains(x) {
                        let k = choose|k: int| 0 <= k < list@.len() && list@[k] == x;
                        assert(0 <= k < list@.len() && list@[k] == x);
                    }
                }
                assert forall|x: u32| #[trigger]
                    left@.contains(x) <==> (x != a && x != b && ((round + 1 >= 1 && first@.contains(
                        x,
                    )) || (round + 1 >= 2 && second@.contains(x))) && spec_orientation(
                        pos_a,
                        pos_b,
                        place(cand, x),
                    ) > 0) by {
                    assert(left0.contains(x) <==> (x != a && x != b && ((round >= 1
                        && first@.contains(x)) || (round >= 2 && second@.contains(x)))
                        && spec_orientation(pos_a, pos_b, place(cand, x)) > 0));
                }
                assert forall|x: u32| #[trigger]
                    right@.contains(x) <==> (x != a && x != b && ((round + 1 >= 1
                        && first@.contains(x)) || (round + 1 >= 2 && second@.contains(x))) && !(
                    spec_orientation(pos_a, pos_b, place(cand, x)) > 0)) by {
                    assert(right0.contains(x) <==> (x != a && x != b && ((round >= 1
                        && first@.contains(x)) || (round >= 2 && second@.contains(x))) && !(
                    spec_orientation(pos_a, pos_b, place(cand, x)) > 0)));
                }
            }
            round = round + 1;
        }
        (left, right)
    }

    /// The steps from node `e` along the wires of `res` that end there.
    fn steps_at<N: WithPosition>(cand: &WeightedGraph<N>, res: &WeightedGraph<N>, e: u32) -> (r:
        Vec<Vector>)
        requires
            cand.wf(),
            res.wf(),
            geometry_ok(cand),
            res.nodes().len() == cand.nodes().len(),
            res.links().submap_of(cand.links()),
            e < cand.nodes().len(),
        ensures
            r@ == wires_at(cand, res, e),
            forall|i: int| 0 <= i < r@.len() ==> short(#[trigger] r@[i]),
    {
        let list = res.neighbors(e);
        let pos_e = cand.node_weight(e).position();
        let mut out: Vec<Vector> = Vec::new();
        proof {
            res.lemma_wf();
            cand.lemma_wf();
            crate::graph::lemma_neighbors_valid(res.edges(), res.nodes().len(), e);
        }
        let mut i: usize = 0;
        while i < list.len()
            invariant
                0 <= i <= list@.len(),
                cand.wf(),
                res.wf(),
                geometry_ok(cand),
                res.nodes().len() == cand.nodes().len(),
                res.links().submap_of(cand.links()),
                e < cand.nodes().len(),
                list@ == res.spec_neighbors(e),
                pos_e == place(cand, e),
                forall|k: int|
                    0 <= k < list@.len() ==> (#[trigger] list@[k]) < res.nodes().len() && list@[k]
                        != e && res.spec_contains_edge(e, list@[k]),
                out@.len() == i,
                forall|k: int|
                    0 <= k < i ==> #[trigger] out@[k] == spec_vector(pos_e, place(cand, list@[k]))
                        && short(out@[k]),
            decreases list@.len() - i,
        {
            let x = list[i];
            let pos_x = cand.node_weight(x).position();
            proof {
                assert(list@[i as int] < res.nodes().len());
                res.lemma_links_joined(e, x);
                cand.lemma_links_joined(e, x);
                assert(cand.links().contains_key(pair(e, x)));
                let k = choose|k: int|
                    0 <= k < cand.edges().len() && crate::topology::joins(
                        #[trigger] cand.edges()[k],
                        e,
                        x,
                    );
                assert(spans(
                    place(cand, cand.edges()[k].0),
                    place(cand, cand.edges()[k].1),
                ));
                assert(pos_e.in_world() && pos_x.in_world());
            }
            out.push((pos_x.x - pos_e.x, pos_x.y - pos_e.y));
            i = i + 1;
        }
        assert(out@ =~= wires_at(cand, res, e));
        out
    }

    /// Whether a wire from `a` to `b` may be added to the wires `res`, where
    /// `cand` are all the wires that are possible between `nodes`.
    pub open spec fn can_connect_on<N: WithPosition>(
        &self,
        nodes: Seq<N>,
        cand: Seq<Edge>,
        res: Seq<Edge>,
        a: u32,
        b: u32,
    ) -> bool {
        &&& !crate::topology::joined(res, a, b)
        &&& degree(res, a) < MAX_DEGREE
        &&& degree(res, b) < MAX_DEGREE
        &&& !(exists|l: u32, r: u32| #[trigger] blocks_on(nodes, cand, res, a, b, l, r))
        &&& !self.spec_crowds(
            spec_vector(place_on(nodes, a), place_on(nodes, b)),
            wires_on(nodes, res, a),
        )
        &&& !self.spec_crowds(
            spec_vector(place_on(nodes, b), place_on(nodes, a)),
            wires_on(nodes, res, b),
        )
    }

    /// The wires that grow from `forest` when the edges of `cand` are tried
    /// in the order `order`: each joins if it may when its turn comes.
    pub open spec fn spec_pretty_from<N: WithPosition>(
        &self,
        nodes: Seq<N>,
        cand: Seq<Edge>,
        order: Seq<(u64, u64)>,
        forest: Seq<Edge>,
    ) -> Seq<Edge>
        decreases order.len(),
    {
        if order.len() == 0 {
            forest
        } else {
            let rest = self.spec_pretty_from(nodes, cand, order.drop_last(), forest);
            let e = cand[order.last().1 as int];
            if self.can_connect_on(nodes, cand, rest, e.0, e.1) {
                rest.push(e)
            } else {
                rest
            }
        }
    }

    /// The wires chosen among the wires `cand` that are possible between
    /// `nodes`: the spanning forest, and then every wire, in the order of
    /// the weights, that may be added when its turn comes.
    pub open spec fn spec_connect<N: WithPosition>(&self, nodes: Seq<N>, cand: Seq<Edge>) -> Seq<
        Edge,
    > {
        self.spec_pretty_from(nodes, cand, spec_pretty_order(nodes, cand), spec_span(cand))
    }

    /// Whether a wire may be added depends on the nodes and the edges of the
    /// two graphs only.
    pub proof fn lemma_can_connect_on<N: WithPosition>(
        &self,
        cand: &WeightedGraph<N>,
        res: &WeightedGraph<N>,
        a: u32,
        b: u32,
    )
        ensures
            self.spec_can_connect(cand, res, a, b) == self.can_connect_on(
                cand.nodes(),
                cand.edges(),
                res.edges(),
                a,
                b,
            ),
    {
        let nodes = cand.nodes();
        assert(wires_at(cand, res, a) =~= wires_on(nodes, res.edges(), a));
        assert(wires_at(cand, res, b) =~= wires_on(nodes, res.edges(), b));
        if Self::spec_crossed(cand, res, a, b) {
            let (l, r) = choose|l: u32, r: u32| #[trigger] blocks(cand, res, a, b, l, r);
            assert(blocks_on(nodes, cand.edges(), res.edges(), a, b, l, r));
        }
        if exists|l: u32, r: u32| #[trigger]
            blocks_on(nodes, cand.edges(), res.edges(), a, b, l, r) {
            let (l, r) = choose|l: u32, r: u32| #[trigger]
                blocks_on(nodes, cand.edges(), res.edges(), a, b, l, r);
            assert(blocks(cand, res, a, b, l, r));
        }
    }

    /// The weight by which the wires are put in order: the length `raw`,
    /// divided by one plus twice the square of the difference between the two
    /// coordinates of the unit step from `from` to `to`, all rounded down.
    pub open spec fn spec_edge_weight(raw: u64, from: MapPosition, to: MapPosition) -> int {
        let dx = to.x - from.x;
        let dy = to.y - from.y;
        let d2 = dx * dx + dy * dy;
        let gap = (if dx >= 0 {
            dx
        } else {
            -dx
        }) - (if dy >= 0 {
            dy
        } else {
            -dy
        });
        if d2 == 0 {
            raw as int
        } else {
            (raw * d2) / (d2 + 2 * gap * gap)
        }
    }

    /// The weight by which the wire from `src` to `tgt` is put in order. It
    /// is least, for a given length, for a wire along an axis.
    pub fn edge_weight(orig_weight: u64, src: MapPosition, tgt: MapPosition) -> (r: u64)
        requires
            src.in_world(),
            tgt.in_world(),
            spans(src, tgt),
            orig_weight <= MAX_EDGE_WEIGHT,
        ensures
            r == Self::spec_edge_weight(orig_weight, src, tgt),
            r <= orig_weight,
    {
        let dx: i128 = tgt.x as i128 - src.x as i128;
        let dy: i128 = tgt.y as i128 - src.y as i128;
        let ax: i128 = if dx >= 0 {
            dx
        } else {
            -dx
        };
        let ay: i128 = if dy >= 0 {
            dy
        } else {
            -dy
        };
        let gap: i128 = ax - ay;
        assert(0 <= dx * dx <= 16_000_000_000_000_000_000) by (nonlinear_arith)
            requires
                -4_000_000_000 <= dx <= 4_000_000_000,
        ;
        assert(0 <= dy * dy <= 16_000_000_000_000_000_000) by (nonlinear_arith)
            requires
                -4_000_000_000 <= dy <= 4_000_000_000,
        ;
        assert(0 <= gap * gap <= 16_000_000_000_000_000_000) by (nonlinear_arith)
            requires
                -4_000_000_000 <= gap <= 4_000_000_000,
        ;
        let d2: i128 = dx * dx + dy * dy;
        if d2 == 0 {
            return orig_weight;
        }
        let den: i128 = d2 + 2 * (gap * gap);
        let raw: i128 = orig_weight as i128;
        assert(0 <= raw * d2 <= 4_000_000_000 * 32_000_000_000_000_000_000) by (nonlinear_arith)
            requires
                0 <= raw <= 4_000_000_000,
                0 <= d2 <= 32_000_000_000_000_000_000,
        ;
        let num: i128 = raw * d2;
        let q: i128 = num / den;
        proof {
            assert(2 * (gap * gap) == 2 * gap * gap) by (nonlinear_arith);
            assert(num / den <= raw) by (nonlinear_arith)
                requires
                    num == raw * d2,
                    den >= d2,
                    d2 > 0,
                    raw >= 0,
            ;
            assert(0 <= num / den) by (nonlinear_arith)
                requires
                    num >= 0,
                    den > 0,
            ;
        }
        q as u64
    }

    /// The wires chosen for `graph`: a spanning forest, and then every wire
    /// of `graph`, in the order of `edge_weight`, that may be added when its
    /// turn comes.
    pub fn connect<N: WithPosition>(&self, graph: &WeightedGraph<N>) -> (r: WeightedGraph<N>)
        requires
            self.wf(),
            graph.wf(),
            geometry_ok(graph),
        ensures
            r.wf(),
            r.nodes() == graph.nodes(),
            r.links().submap_of(graph.links()),
            forall|a: u32| degree(r.edges(), a) <= MAX_DEGREE,
            forall|k: int|
                0 <= k < graph.edges().len() ==> spanned(r.edges(), #[trigger] graph.edges()[k]),
            r.edges() == self.spec_connect(graph.nodes(), graph.edges()),
    {
        let mut result = WeightedMSTConnector::span(graph, graph.clone_nodes());
        let ghost forest = result.edges();
        let ghost nodes = graph.nodes();
        let edges = graph.edge_list();
        proof {
            graph.lemma_wf();
        }
        let mut keys: Vec<(u64, u64)> = Vec::new();
        let mut k: usize = 0;
        while k < edges.len()
            invariant
                0 <= k <= edges@.len(),
                graph.wf(),
                geometry_ok(graph),
                edges@ == graph.edges(),
                edges@.len() < u32::MAX,
                crate::graph::simple(edges@, graph.nodes().len()),
                keys@.len() == k,
                forall|j: int|
                    0 <= j < k ==> (#[trigger] keys@[j]).1 == j && keys@[j].0
                        == Self::spec_edge_weight(
                        edges@[j].2,
                        place_on(graph.nodes(), edges@[j].0),
                        place_on(graph.nodes(), edges@[j].1),
                    ),
            decreases edges@.len() - k,
        {
            let (s, t, w) = edges[k];
            assert(edges@[k as int].0 < graph.nodes().len());
            let key = Self::edge_weight(
                w,
                graph.node_weight(s).position(),
                graph.node_weight(t).position(),
            );
            keys.push((key, k as u64));
            k = k + 1;
        }
        proof {
            assert forall|a: int, b: int|
                0 <= a < keys@.len() && 0 <= b < keys@.len() && a != b implies keys@[a]
                != keys@[b] by {}
        }
        let sorted = crate::sorting::sorted_pairs(keys);
        proof {
            crate::sorting::lemma_sorted_distinct(sorted@, keys@);
            assert(is_pretty_order(nodes, edges@, sorted@)) by {
                assert forall|x: (u64, u64)| #[trigger]
                    sorted@.contains(x) <==> (x.1 < edges@.len() && x.0 == Self::spec_edge_weight(
                        edges@[x.1 as int].2,
                        place_on(nodes, edges@[x.1 as int].0),
                        place_on(nodes, edges@[x.1 as int].1),
                    )) by {
                    if keys@.contains(x) {
                        let j = choose|j: int| 0 <= j < keys@.len() && keys@[j] == x;
                        assert(keys@[j] == x);
                    }
                    if x.1 < edges@.len() && x.0 == Self::spec_edge_weight(
                        edges@[x.1 as int].2,
                        place_on(nodes, edges@[x.1 as int].0),
                        place_on(nodes, edges@[x.1 as int].1),
                    ) {
                        assert(keys@[x.1 as int] == x);
                    }
                }
            }
            let chosen = spec_pretty_order(nodes, edges@);
            assert(is_pretty_order(nodes, edges@, chosen));
            crate::sorting::lemma_sorted_unique(sorted@, chosen);
            assert(sorted@.take(0) =~= Seq::empty());
        }
        let mut i: usize = 0;
        while i < sorted.len()
            invariant
                0 <= i <= sorted@.len(),
                nodes == graph.nodes(),
                forest == spec_span(edges@),
                result.edges() == self.spec_pretty_from(nodes, edges@, sorted@.take(i as int), forest),
                self.wf(),
                graph.wf(),
                geometry_ok(graph),
                result.wf(),
                result.nodes() == graph.nodes(),
                result.links().submap_of(graph.links()),
                forall|a: u32| degree(result.edges(), a) <= MAX_DEGREE,
                forall|k: int| 0 <= k < edges@.len() ==> spanned(result.edges(), #[trigger] edges@[k]),
                edges@ == graph.edges(),
                crate::graph::simple(edges@, graph.nodes().len()),
                keys@.len() == edges@.len(),
                edges@.len() < u32::MAX,
                forall|j: int| 0 <= j < keys@.len() ==> (#[trigger] keys@[j]).1 == j,
                forall|x: (u64, u64)| sorted@.contains(x) <==> keys@.contains(x),
            decreases sorted@.len() - i,
        {
            let at = sorted[i].1;
            proof {
                assert(sorted@.contains(sorted@[i as int]));
                assert(keys@.contains(sorted@[i as int]));
                let j = choose|j: int| 0 <= j < keys@.len() && keys@[j] == sorted@[i as int];
                assert(keys@[j].1 == j);
            }
            let (s, t, w) = edges[at as usize];
            proof {
                assert(edges@[at as int].0 < graph.nodes().len());
                crate::graph::lemma_link_of_edge(edges@, graph.nodes().len(), at as int);
                self.lemma_can_connect_on(graph, &result, s, t);
                let t1 = sorted@.take(i + 1);
                assert(t1.drop_last() =~= sorted@.take(i as int));
                assert(t1.last() == sorted@[i as int]);
            }
            if self.can_connect(graph, &result, s, t) {
                let ghost old_edges = result.edges();
                proof {
                    result.lemma_wf();
                    result.lemma_links_joined(s, t);
                    let grown = old_edges.push((s, t, w));
                    assert(crate::graph::simple(grown, graph.nodes().len())) by {
                        assert forall|j: int, k: int| 0 <= j < k < grown.len() implies !crate::topology::joins(
                            #[trigger] grown[j],
                            (#[trigger] grown[k]).0,
                            grown[k].1,
                        ) by {
                            if k == old_edges.len() {
                                if crate::topology::joins(grown[j], s, t) {
                                    assert(crate::topology::joins(old_edges[j], s, t));
                                }
                            }
                        }
                    }
                    crate::graph::lemma_links_push(old_edges, graph.nodes().len(), (s, t, w));
                    assert(crate::graph::link_map(grown) == result.links().insert(pair(s, t), w));
                    assert(pair(edges@[at as int].0, edges@[at as int].1) == pair(s, t));
                    assert(graph.links().contains_key(pair(s, t)) && graph.links()[pair(s, t)] == w);
                    assert(crate::graph::link_map(grown).submap_of(crate::graph::link_map(edges@)));
                    crate::graph::lemma_sublinks_fewer_edges(grown, edges@, graph.nodes().len());
                }
                result.update_edge(s, t, w);
                proof {
                    assert forall|x: u32| degree(result.edges(), x) <= MAX_DEGREE by {
                        lemma_neighbors_push(old_edges, (s, t, w), x);
                        assert(degree(old_edges, x) <= MAX_DEGREE);
                    }
                    assert forall|k: int| 0 <= k < edges@.len() implies spanned(
                        result.edges(),
                        #[trigger] edges@[k],
                    ) by {
                        let e = edges@[k];
                        assert(spanned(old_edges, e));
                        lemma_connected_push(old_edges, (s, t, w), e.0, e.1);
                        lemma_neighbors_push(old_edges, (s, t, w), e.0);
                        lemma_neighbors_push(old_edges, (s, t, w), e.1);
                    }
                }
            }
            i = i + 1;
        }
        proof {
            assert(sorted@.take(sorted@.len() as int) =~= sorted@);
        }
        result
    }

    /// Whether a wire from `a` to `b` may be added to `res`.
    #[verifier::loop_isolation(false)]
    pub fn can_connect<N: WithPosition>(
        &self,
        cand_graph: &WeightedGraph<N>,
        res_graph: &WeightedGraph<N>,
        a: u32,
        b: u32,
    ) -> (r: bool)
        requires
            self.wf(),
            cand_graph.wf(),
            res_graph.wf(),
            geometry_ok(cand_graph),
            res_graph.nodes().len() == cand_graph.nodes().len(),
            res_graph.links().submap_of(cand_graph.links()),
            a < cand_graph.nodes().len(),
            b < cand_graph.nodes().len(),
            spans(place(cand_graph, a), place(cand_graph, b)),
        ensures
            r == self.spec_can_connect(cand_graph, res_graph, a, b),
    {
        if res_graph.contains_edge(a, b) {
            return false;
        }
        if res_graph.neighbors(a).len() >= MAX_DEGREE || res_graph.neighbors(b).len() >= MAX_DEGREE {
            return false;
        }
        let pos_a = cand_graph.node_weight(a).position();
        let pos_b = cand_graph.node_weight(b).position();
        let (left, right) = Self::sides(cand_graph, a, b);
        let mut i: usize = 0;
        while i < left.len()
            invariant
                0 <= i <= left@.len(),
                cand_graph.wf(),
                res_graph.wf(),
                geometry_ok(cand_graph),
                a < cand_graph.nodes().len(),
                b < cand_graph.nodes().len(),
                pos_a == place(cand_graph, a),
                pos_b == place(cand_graph, b),
                forall|k: int| 0 <= k < left@.len() ==> (#[trigger] left@[k]) < cand_graph.nodes().len(),
                forall|k: int| 0 <= k < right@.len() ==> (#[trigger] right@[k]) < cand_graph.nodes().len(),
                forall|p: int, q: int|
                    0 <= p < i && 0 <= q < right@.len() ==> !(res_graph.spec_contains_edge(
                        #[trigger] left@[p],
                        #[trigger] right@[q],
                    ) && spec_line_seg_intersects(
                        pos_a,
                        pos_b,
                        place(cand_graph, left@[p]),
                        place(cand_graph, right@[q]),
                    )),
            decreases left@.len() - i,
        {
            let l = left[i];
            let pos_l = cand_graph.node_weight(l).position();
            let mut j: usize = 0;
            while j < right.len()
                invariant
                    0 <= j <= right@.len(),
                    0 <= i < left@.len(),
                    l == left@[i as int],
                    cand_graph.wf(),
                    res_graph.wf(),
                    geometry_ok(cand_graph),
                    a < cand_graph.nodes().len(),
                    b < cand_graph.nodes().len(),
                    pos_a == place(cand_graph, a),
                    pos_b == place(cand_graph, b),
                    pos_l == place(cand_graph, l),
                    l < cand_graph.nodes().len(),
                    forall|k: int|
                        0 <= k < right@.len() ==> (#[trigger] right@[k]) < cand_graph.nodes().len(),
                    forall|q: int|
                        0 <= q < j ==> !(res_graph.spec_contains_edge(l, #[trigger] right@[q])
                            && spec_line_seg_intersects(
                            pos_a,
                            pos_b,
                            pos_l,
                            place(cand_graph, right@[q]),
                        )),
                decreases right@.len() - j,
            {
                let r = right[j];
                if res_graph.contains_edge(l, r) {
                    let pos_r = cand_graph.node_weight(r).position();
                    if line_seg_intersects(pos_a, pos_b, pos_l, pos_r) {
                        proof {
                            assert(left@.contains(l));
                            assert(right@.contains(r));
                            assert(blocks(cand_graph, res_graph, a, b, l, r));
                        }
                        return false;
                    }
                }
                j = j + 1;
            }
            i = i + 1;
        }
        proof {
            assert(!Self::spec_crossed(cand_graph, res_graph, a, b)) by {
                if Self::spec_crossed(cand_graph, res_graph, a, b) {
                    let (l, r) = choose|l: u32, r: u32| #[trigger]
                        blocks(cand_graph, res_graph, a, b, l, r);
                    assert(left@.contains(l));
                    assert(right@.contains(r));
                    let p = choose|p: int| 0 <= p < left@.len() && left@[p] == l;
                    let q = choose|q: int| 0 <= q < right@.len() && right@[q] == r;
                    assert(!(res_graph.spec_contains_edge(left@[p], right@[q])
                        && spec_line_seg_intersects(
                        pos_a,
                        pos_b,
                        place(cand_graph, left@[p]),
                        place(cand_graph, right@[q]),
                    )));
                }
            }
        }
        let at_a = Self::steps_at(cand_graph, res_graph, a);
        if self.crowds((pos_b.x - pos_a.x, pos_b.y - pos_a.y), &at_a) {
            return false;
        }
        let at_b = Self::steps_at(cand_graph, res_graph, b);
        if self.crowds((pos_a.x - pos_b.x, pos_a.y - pos_b.y), &at_b) {
            return false;
        }
        true
    }
}

proof fn lemma_push_contains_u32(s: Seq<u32>, a: u32, x: u32)
    ensures
        s.push(a).contains(x) <==> (s.contains(x) || x == a),
{
    if s.push(a).contains(x) {
        let k = choose|k: int| 0 <= k < s.push(a).len() && s.push(a)[k] == x;
        if k < s.len() {
            assert(s[k] == x);
        }
    }
    if s.contains(x) {
        let k = choose|k: int| 0 <= k < s.len() && s[k] == x;
        assert(s.push(a)[k] == x);
    }
    if x == a {
        assert(s.push(a)[s.len() as int] == x);
    }
}

impl<N: WithPosition> PoleConnector<N> for PrettyPoleConnector {
    open spec fn accepts(&self, graph: &WeightedGraph<N>) -> bool {
        self.wf() && geometry_ok(graph)
    }

    fn connect_poles(&self, graph: &WeightedGraph<N>) -> (r: WeightedGraph<N>)
        ensures
            r.edges() == self.spec_connect(graph.nodes(), graph.edges()),
    {
        self.connect(graph)
    }
}

} // verus!
