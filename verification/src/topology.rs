//! The shape of a graph, kept in a `petgraph` graph, and the two `petgraph`
//! algorithms that the solvers call.
//!
//! `petgraph` holds the edges with their weights; what stands at a node is
//! kept beside it, by node number. The graph is opaque to the verifier: its
//! edge list and its number of nodes have names, and every function here is a
//! thin call whose contract over those names is taken on trust.

use crate::pole_solver::set_cover_ilp::rank;
use petgraph::graph::NodeIndex;
use petgraph::graph::UnGraph;
use petgraph::unionfind::UnionFind;
use vstd::prelude::*;

verus! {

#[verifier::external_type_specification]
#[verifier::external_body]
#[verifier::reject_recursive_types(N)]
#[verifier::reject_recursive_types(E)]
#[verifier::reject_recursive_types(Ty)]
#[verifier::reject_recursive_types(Ix)]
pub struct ExGraph<N, E, Ty, Ix>(petgraph::graph::Graph<N, E, Ty, Ix>);

#[verifier::external_type_specification]
#[verifier::external_body]
pub struct ExUndirected(petgraph::Undirected);

#[verifier::external_type_specification]
#[verifier::external_body]
#[verifier::reject_recursive_types(K)]
pub struct ExUnionFind<K>(petgraph::unionfind::UnionFind<K>);

/// The edges of a graph in the order in which they were added: for each the
/// two nodes it joins, as given when it was added, and its weight.
pub uninterp spec fn graph_edges(g: UnGraph<(), u64>) -> Seq<(u32, u32, u64)>;

/// The number of nodes of a graph.
pub uninterp spec fn graph_size(g: UnGraph<(), u64>) -> nat;

/// For each element of a union-find structure the representative of its set.
pub uninterp spec fn union_find_roots(uf: UnionFind<u32>) -> Seq<u32>;

/// What `petgraph::algo::dijkstra` finds from `start` in the undirected graph
/// of `nodes` nodes with edges `edges`, where a step over an edge of weight
/// `w` to node `t` costs `hop_cost(free[t], w)`: for each node the least cost
/// of a path to it, or `None` if there is no path.
pub uninterp spec fn shortest_costs(
    edges: Seq<(u32, u32, u64)>,
    nodes: nat,
    start: u32,
    free: Seq<bool>,
) -> Seq<Option<u64>>;

/// Whether edge `e` joins `a` and `b`, in either direction.
pub open spec fn joins(e: (u32, u32, u64), a: u32, b: u32) -> bool {
    (e.0 == a && e.1 == b) || (e.0 == b && e.1 == a)
}

/// Whether some edge of `edges` joins `a` and `b`.
pub open spec fn joined(edges: Seq<(u32, u32, u64)>, a: u32, b: u32) -> bool {
    exists|k: int| 0 <= k < edges.len() && joins(#[trigger] edges[k], a, b)
}

/// The far ends of the edges that were added as starting at `a`, the newest
/// first.
pub open spec fn out_targets(edges: Seq<(u32, u32, u64)>, a: u32) -> Seq<u32>
    decreases edges.len(),
{
    if edges.len() == 0 {
        Seq::empty()
    } else {
        let rest = out_targets(edges.drop_last(), a);
        if edges.last().0 == a {
            seq![edges.last().1] + rest
        } else {
            rest
        }
    }
}

/// The near ends of the edges that were added as ending at `a` and starting
/// elsewhere, the newest first.
pub open spec fn in_sources(edges: Seq<(u32, u32, u64)>, a: u32) -> Seq<u32>
    decreases edges.len(),
{
    if edges.len() == 0 {
        Seq::empty()
    } else {
        let rest = in_sources(edges.drop_last(), a);
        if edges.last().1 == a && edges.last().0 != a {
            seq![edges.last().0] + rest
        } else {
            rest
        }
    }
}

/// The neighbours of `a` in the order in which the graph lists them: first
/// over the edges that start at `a`, then over those that end there.
pub open spec fn neighbor_list(edges: Seq<(u32, u32, u64)>, a: u32) -> Seq<u32> {
    out_targets(edges, a) + in_sources(edges, a)
}

/// The cost that the search for shortest paths adds for a step over an edge
/// of weight `weight`: nothing if the step leads to a node that is free to
/// enter, the weight and three tiles otherwise.
pub open spec fn spec_hop_cost(free: bool, weight: u64) -> u64 {
    if free {
        0
    } else {
        (weight + HOP_PENALTY) as u64
    }
}

/// What a step to a node that is not free costs besides the weight of the
/// edge: three tiles, in map-space units.
pub const HOP_PENALTY: u64 = 3_000_000;

/// The largest weight an edge may have.
pub const MAX_EDGE_WEIGHT: u64 = 4_000_000_000;

/// The cost of a step over an edge of weight `weight` to node `target`.
pub fn hop_cost(free: &Vec<bool>, target: usize, weight: u64) -> (r: u64)
    ensures
        target < free@.len() && weight <= MAX_EDGE_WEIGHT ==> r == spec_hop_cost(
            free@[target as int],
            weight,
        ),
{
    if target < free.len() && weight <= MAX_EDGE_WEIGHT {
        if free[target] {
            0
        } else {
            weight + HOP_PENALTY
        }
    } else {
        0
    }
}

/// `Graph::new_undirected`: a graph without nodes or edges.
#[verifier::external_body]
pub(crate) fn graph_new() -> (r: UnGraph<(), u64>)
    ensures
        graph_edges(r) =~= Seq::empty(),
        graph_size(r) == 0,
{
    UnGraph::new_undirected()
}

/// `Graph::node_count`.
#[verifier::external_body]
pub(crate) fn graph_node_count(g: &UnGraph<(), u64>) -> (r: usize)
    ensures
        r == graph_size(*g),
{
    g.node_count()
}

/// `Graph::edge_count`.
#[verifier::external_body]
pub(crate) fn graph_edge_count(g: &UnGraph<(), u64>) -> (r: usize)
    ensures
        r == graph_edges(*g).len(),
{
    g.edge_count()
}

/// `Graph::add_node`: the graph gains a node, numbered after those it had. It
/// panics where the number would not fit the index type.
#[verifier::external_body]
pub(crate) fn graph_add_node(g: &mut UnGraph<(), u64>) -> (r: u32)
    requires
        graph_size(*old(g)) < u32::MAX,
    ensures
        r == graph_size(*old(g)),
        graph_size(*final(g)) == graph_size(*old(g)) + 1,
        graph_edges(*final(g)) == graph_edges(*old(g)),
{
    g.add_node(()).index() as u32
}

/// `Graph::add_edge`: the graph gains an edge from `a` to `b`, after those it
/// had, also where one joins the two already. It panics where a node does not
/// exist or the number of edges would not fit the index type.
#[verifier::external_body]
pub(crate) fn graph_add_edge(g: &mut UnGraph<(), u64>, a: u32, b: u32, weight: u64) -> (r: u32)
    requires
        a < graph_size(*old(g)),
        b < graph_size(*old(g)),
        graph_edges(*old(g)).len() < u32::MAX,
    ensures
        r == graph_edges(*old(g)).len(),
        graph_size(*final(g)) == graph_size(*old(g)),
        graph_edges(*final(g)) == graph_edges(*old(g)).push((a, b, weight)),
{
    g.add_edge(NodeIndex::new(a as usize), NodeIndex::new(b as usize), weight).index() as u32
}

/// `Graph::find_edge`: the number of an edge that joins `a` and `b` in either
/// direction, if there is one.
#[verifier::external_body]
pub(crate) fn graph_find_edge(g: &UnGraph<(), u64>, a: u32, b: u32) -> (r: Option<u32>)
    ensures
        r is Some <==> joined(graph_edges(*g), a, b),
        r is Some ==> r->0 < graph_edges(*g).len() && joins(
            graph_edges(*g)[r->0 as int],
            a,
            b,
        ),
{
    g.find_edge(NodeIndex::new(a as usize), NodeIndex::new(b as usize)).map(|e| e.index() as u32)
}

/// `Graph::update_edge`: where an edge joins `a` and `b` in either direction,
/// one such edge gets the weight `weight` and nothing else changes; where
/// none does, the graph gains the edge as by `add_edge`. The result is the
/// number of that edge.
#[verifier::external_body]
pub(crate) fn graph_update_edge(g: &mut UnGraph<(), u64>, a: u32, b: u32, weight: u64) -> (r: u32)
    requires
        a < graph_size(*old(g)),
        b < graph_size(*old(g)),
        graph_edges(*old(g)).len() < u32::MAX,
    ensures
        graph_size(*final(g)) == graph_size(*old(g)),
        joined(graph_edges(*old(g)), a, b) ==> r < graph_edges(*old(g)).len() && joins(
            graph_edges(*old(g))[r as int],
            a,
            b,
        ) && graph_edges(*final(g)) == graph_edges(*old(g)).update(
            r as int,
            (graph_edges(*old(g))[r as int].0, graph_edges(*old(g))[r as int].1, weight),
        ),
        !joined(graph_edges(*old(g)), a, b) ==> r == graph_edges(*old(g)).len() && graph_edges(
            *final(g),
        ) == graph_edges(*old(g)).push((a, b, weight)),
{
    g.update_edge(NodeIndex::new(a as usize), NodeIndex::new(b as usize), weight).index() as u32
}

/// `Graph::neighbors`: for an undirected graph the far ends of all edges at
/// `a`, first of those that were added as starting at `a`, then of those
/// added as ending there, each group from the newest to the oldest; an edge
/// from `a` to itself is listed once. That order is the order of a graph
/// from which no edge or node was ever removed; no function here removes
/// one, so every graph that reaches this call is of that kind.
#[verifier::external_body]
pub(crate) fn graph_neighbors(g: &UnGraph<(), u64>, a: u32) -> (r: Vec<u32>)
    ensures
        r@ == neighbor_list(graph_edges(*g), a),
{
    g.neighbors(NodeIndex::new(a as usize)).map(|n| n.index() as u32).collect()
}

/// `Graph::raw_edges`: the edges in the order in which they were added.
#[verifier::external_body]
pub(crate) fn graph_edge_list(g: &UnGraph<(), u64>) -> (r: Vec<(u32, u32, u64)>)
    ensures
        r@ == graph_edges(*g),
{
    g.raw_edges().iter().map(
        |e| (e.source().index() as u32, e.target().index() as u32, e.weight),
    ).collect()
}

/// Edge `e` between the nodes that `keep` marks, under the numbers that its
/// ends have among those nodes.
pub open spec fn kept_edge(e: (u32, u32, u64), keep: Seq<bool>) -> (u32, u32, u64) {
    (rank(keep, e.0 as int) as u32, rank(keep, e.1 as int) as u32, e.2)
}

/// The edges of `edges` of which `keep` marks both ends, in their order and
/// under the numbers that their ends have among the marked nodes.
pub open spec fn kept_edges(edges: Seq<(u32, u32, u64)>, keep: Seq<bool>) -> Seq<(u32, u32, u64)>
    decreases edges.len(),
{
    if edges.len() == 0 {
        Seq::empty()
    } else {
        let rest = kept_edges(edges.drop_last(), keep);
        let e = edges.last();
        if keep[e.0 as int] && keep[e.1 as int] {
            rest.push(kept_edge(e, keep))
        } else {
            rest
        }
    }
}

/// `Graph::filter_map` with a node filter that keeps the nodes that `keep`
/// marks and an edge map that keeps every weight: the kept nodes are
/// numbered anew in their order, and the edges between two kept nodes
/// follow in their order, from the new number of their source to that of
/// their target.
#[verifier::external_body]
pub(crate) fn graph_filter(g: &UnGraph<(), u64>, keep: &Vec<bool>) -> (r: UnGraph<(), u64>)
    requires
        keep@.len() == graph_size(*g),
    ensures
        graph_size(r) == rank(keep@, keep@.len() as int),
        graph_edges(r) == kept_edges(graph_edges(*g), keep@),
{
    g.filter_map(|i, _| keep[i.index()].then_some(()), |_, w| Some(*w))
}

/// `Graph::clone`: a graph with as many nodes and the same edges.
#[verifier::external_body]
pub(crate) fn graph_clone(g: &UnGraph<(), u64>) -> (r: UnGraph<(), u64>)
    ensures
        graph_size(r) == graph_size(*g),
        graph_edges(r) == graph_edges(*g),
{
    g.clone()
}

/// `petgraph::algo::dijkstra` without a goal: the least cost of a path from
/// `start` to every node that has one. The cost of a step is computed by
/// [`hop_cost`]. The bounds keep every sum of costs within `u64`.
#[verifier::external_body]
pub(crate) fn graph_shortest_costs(g: &UnGraph<(), u64>, start: u32, free: &Vec<bool>) -> (r: Vec<
    Option<u64>,
>)
    requires
        start < graph_size(*g),
        free@.len() == graph_size(*g),
        forall|k: int|
            0 <= k < graph_edges(*g).len() ==> (#[trigger] graph_edges(*g)[k]).2
                <= MAX_EDGE_WEIGHT,
    ensures
        r@ == shortest_costs(graph_edges(*g), graph_size(*g), start, free@),
        r@.len() == graph_size(*g),
{
    let costs = petgraph::algo::dijkstra(
        g,
        NodeIndex::new(start as usize),
        None,
        |e| hop_cost(free, petgraph::visit::EdgeRef::target(&e).index(), *e.weight()),
    );
    (0..g.node_count()).map(|i| costs.get(&NodeIndex::new(i)).copied()).collect()
}

/// Whether `after` is `before` with the sets of `x` and `y` made one under
/// the representative `root`.
pub open spec fn merged(before: Seq<u32>, after: Seq<u32>, x: u32, y: u32, root: u32) -> bool {
    &&& after.len() == before.len()
    &&& forall|i: int|
        0 <= i < before.len() ==> #[trigger] after[i] == (if before[i] == before[x as int]
            || before[i] == before[y as int] {
            root
        } else {
            before[i]
        })
}

/// `UnionFind::new`: `n` sets of one element each, every element its own
/// representative.
#[verifier::external_body]
pub(crate) fn union_find_new(n: usize) -> (r: UnionFind<u32>)
    requires
        n <= u32::MAX,
    ensures
        union_find_roots(r).len() == n,
        forall|i: int| 0 <= i < n ==> #[trigger] union_find_roots(r)[i] == i,
{
    UnionFind::new(n)
}

/// `UnionFind::equiv`: whether `x` and `y` have one representative. It
/// panics where an element does not exist.
#[verifier::external_body]
pub(crate) fn union_find_equiv(uf: &UnionFind<u32>, x: u32, y: u32) -> (r: bool)
    requires
        x < union_find_roots(*uf).len(),
        y < union_find_roots(*uf).len(),
    ensures
        r == (union_find_roots(*uf)[x as int] == union_find_roots(*uf)[y as int]),
{
    uf.equiv(x, y)
}

/// `UnionFind::union`: the sets of `x` and `y` become one, under the
/// representative of one of them; the result tells whether they were two
/// sets before. It panics where an element does not exist.
#[verifier::external_body]
pub(crate) fn union_find_union(uf: &mut UnionFind<u32>, x: u32, y: u32) -> (r: bool)
    requires
        x < union_find_roots(*old(uf)).len(),
        y < union_find_roots(*old(uf)).len(),
    ensures
        r == (union_find_roots(*old(uf))[x as int] != union_find_roots(*old(uf))[y as int]),
        union_find_roots(*final(uf)).len() == union_find_roots(*old(uf)).len(),
        merged(
            union_find_roots(*old(uf)),
            union_find_roots(*final(uf)),
            x,
            y,
            union_find_roots(*old(uf))[x as int],
        ) || merged(
            union_find_roots(*old(uf)),
            union_find_roots(*final(uf)),
            x,
            y,
            union_find_roots(*old(uf))[y as int],
        ),
{
    uf.union(x, y)
}

} // verus!
