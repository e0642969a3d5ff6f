//! An undirected graph with weighted edges and a value at every node.

use crate::topology::graph_add_edge;
use crate::topology::graph_add_node;
use crate::topology::graph_clone;
use crate::topology::graph_edge_count;
use crate::topology::graph_edge_list;
use crate::topology::graph_edges;
use crate::pole_solver::set_cover_ilp::lemma_rank_grows;
use crate::pole_solver::set_cover_ilp::lemma_rank_one;
use crate::pole_solver::set_cover_ilp::rank;
use crate::topology::graph_filter;
use crate::topology::graph_find_edge;
use crate::topology::kept_edge;
use crate::topology::kept_edges;
use crate::topology::graph_neighbors;
use crate::topology::graph_new;
use crate::topology::graph_node_count;
use crate::topology::graph_size;
use crate::topology::graph_update_edge;
use crate::topology::in_sources;
use crate::topology::joined;
use crate::topology::joins;
use crate::topology::neighbor_list;
use crate::topology::out_targets;
use crate::topology::MAX_EDGE_WEIGHT;
use petgraph::graph::UnGraph;
use vstd::prelude::*;

verus! {

/// One edge: the two nodes it joins and its weight.
pub type Edge = (u32, u32, u64);

/// Whether the edges of `edges` join existing nodes, none joins a node to
/// itself, no two join the same pair, and no weight is above
/// [`MAX_EDGE_WEIGHT`].
pub open spec fn simple(edges: Seq<Edge>, nodes: nat) -> bool {
    &&& forall|k: int|
        0 <= k < edges.len() ==> {
            let e = #[trigger] edges[k];
            e.0 < nodes && e.1 < nodes && e.0 != e.1 && e.2 <= MAX_EDGE_WEIGHT
        }
    &&& forall|j: int, k: int|
        0 <= j < k < edges.len() ==> !joins(#[trigger] edges[j], (#[trigger] edges[k]).0, edges[k].1)
}

/// The number of edges of `edges` at node `a`.
pub open spec fn degree(edges: Seq<Edge>, a: u32) -> nat {
    neighbor_list(edges, a).len()
}

/// A new edge adds one neighbour at each of its ends and none elsewhere.
pub proof fn lemma_neighbors_push(edges: Seq<Edge>, e: Edge, a: u32)
    requires
        e.0 != e.1,
    ensures
        degree(edges.push(e), a) == degree(edges, a) + (if e.0 == a || e.1 == a {
            1nat
        } else {
            0nat
        }),
        e.0 == a ==> neighbor_list(edges.push(e), a) == seq![e.1] + neighbor_list(edges, a),
        e.0 != a && e.1 != a ==> neighbor_list(edges.push(e), a) == neighbor_list(edges, a),
        e.1 == a ==> neighbor_list(edges.push(e), a) == out_targets(edges, a) + (seq![e.0]
            + in_sources(edges, a)),
{
    let p = edges.push(e);
    assert(p.drop_last() =~= edges);
    assert(p.last() == e);
    if e.0 == a {
        assert(out_targets(p, a) == seq![e.1] + out_targets(edges, a));
        assert(in_sources(p, a) == in_sources(edges, a));
        assert(neighbor_list(p, a) =~= seq![e.1] + neighbor_list(edges, a));
    } else if e.1 == a {
        assert(out_targets(p, a) == out_targets(edges, a));
        assert(in_sources(p, a) == seq![e.0] + in_sources(edges, a));
    } else {
        assert(out_targets(p, a) == out_targets(edges, a));
        assert(in_sources(p, a) == in_sources(edges, a));
    }
}

/// A new weight on an edge changes nobody's neighbours.
pub proof fn lemma_neighbors_update(edges: Seq<Edge>, k: int, weight: u64, a: u32)
    requires
        0 <= k < edges.len(),
    ensures
        out_targets(edges.update(k, (edges[k].0, edges[k].1, weight)), a) == out_targets(edges, a),
        in_sources(edges.update(k, (edges[k].0, edges[k].1, weight)), a) == in_sources(edges, a),
        neighbor_list(edges.update(k, (edges[k].0, edges[k].1, weight)), a) == neighbor_list(
            edges,
            a,
        ),
    decreases edges.len(),
{
    let u = edges.update(k, (edges[k].0, edges[k].1, weight));
    if k == edges.len() - 1 {
        assert(u.drop_last() =~= edges.drop_last());
        assert(u.last().0 == edges.last().0 && u.last().1 == edges.last().1);
    } else {
        lemma_neighbors_update(edges.drop_last(), k, weight, a);
        assert(u.drop_last() =~= edges.drop_last().update(k, (edges[k].0, edges[k].1, weight)));
        assert(edges.drop_last()[k] == edges[k]);
        assert(u.last() == edges.last());
    }
    assert(out_targets(u, a) == out_targets(edges, a));
    assert(in_sources(u, a) == in_sources(edges, a));
}

/// A node is among the neighbours of another exactly if an edge joins them.
pub proof fn lemma_neighbors_are_joined(edges: Seq<Edge>, a: u32, b: u32)
    requires
        a != b,
    ensures
        neighbor_list(edges, a).contains(b) <==> joined(edges, a, b),
        out_targets(edges, a).contains(b) <==> exists|k: int|
            0 <= k < edges.len() && (#[trigger] edges[k]).0 == a && edges[k].1 == b,
        in_sources(edges, a).contains(b) <==> exists|k: int|
            0 <= k < edges.len() && (#[trigger] edges[k]).1 == a && edges[k].0 == b,
    decreases edges.len(),
{
    if edges.len() > 0 {
        let rest = edges.drop_last();
        let e = edges.last();
        lemma_neighbors_are_joined(rest, a, b);
        let o = out_targets(edges, a);
        let i = in_sources(edges, a);
        let ro = out_targets(rest, a);
        let ri = in_sources(rest, a);
        assert(o.contains(b) <==> (ro.contains(b) || (e.0 == a && e.1 == b))) by {
            if e.0 == a {
                lemma_cons_contains(e.1, ro, b);
            }
        }
        assert(i.contains(b) <==> (ri.contains(b) || (e.1 == a && e.0 == b))) by {
            if e.1 == a && e.0 != a {
                lemma_cons_contains(e.0, ri, b);
            }
        }
        assert((exists|k: int| 0 <= k < edges.len() && (#[trigger] edges[k]).0 == a && edges[k].1 == b)
            <==> ((exists|k: int| 0 <= k < rest.len() && (#[trigger] rest[k]).0 == a && rest[k].1 == b)
            || (e.0 == a && e.1 == b))) by {
            if exists|k: int| 0 <= k < edges.len() && (#[trigger] edges[k]).0 == a && edges[k].1 == b {
                let k = choose|k: int|
                    0 <= k < edges.len() && (#[trigger] edges[k]).0 == a && edges[k].1 == b;
                if k < rest.len() {
                    assert(rest[k] == edges[k]);
                }
            }
            if exists|k: int| 0 <= k < rest.len() && (#[trigger] rest[k]).0 == a && rest[k].1 == b {
                let k = choose|k: int|
                    0 <= k < rest.len() && (#[trigger] rest[k]).0 == a && rest[k].1 == b;
                assert(edges[k] == rest[k]);
            }
            if e.0 == a && e.1 == b {
                assert(edges[edges.len() - 1] == e);
            }
        }
        assert((exists|k: int| 0 <= k < edges.len() && (#[trigger] edges[k]).1 == a && edges[k].0 == b)
            <==> ((exists|k: int| 0 <= k < rest.len() && (#[trigger] rest[k]).1 == a && rest[k].0 == b)
            || (e.1 == a && e.0 == b))) by {
            if exists|k: int| 0 <= k < edges.len() && (#[trigger] edges[k]).1 == a && edges[k].0 == b {
                let k = choose|k: int|
                    0 <= k < edges.len() && (#[trigger] edges[k]).1 == a && edges[k].0 == b;
                if k < rest.len() {
                    assert(rest[k] == edges[k]);
                }
            }
            if exists|k: int| 0 <= k < rest.len() && (#[trigger] rest[k]).1 == a && rest[k].0 == b {
                let k = choose|k: int|
                    0 <= k < rest.len() && (#[trigger] rest[k]).1 == a && rest[k].0 == b;
                assert(edges[k] == rest[k]);
            }
            if e.1 == a && e.0 == b {
                assert(edges[edges.len() - 1] == e);
            }
        }
    }
    let o = out_targets(edges, a);
    let i = in_sources(edges, a);
    assert((o + i).contains(b) <==> (o.contains(b) || i.contains(b))) by {
        lemma_concat_contains(o, i, b);
    }
    assert(joined(edges, a, b) <==> ((exists|k: int|
        0 <= k < edges.len() && (#[trigger] edges[k]).0 == a && edges[k].1 == b) || (exists|k: int|
        0 <= k < edges.len() && (#[trigger] edges[k]).1 == a && edges[k].0 == b))) by {
        if joined(edges, a, b) {
            let k = choose|k: int| 0 <= k < edges.len() && joins(#[trigger] edges[k], a, b);
            assert(edges[k].0 == a && edges[k].1 == b || edges[k].1 == a && edges[k].0 == b);
        }
        if exists|k: int| 0 <= k < edges.len() && (#[trigger] edges[k]).0 == a && edges[k].1 == b {
            let k = choose|k: int|
                0 <= k < edges.len() && (#[trigger] edges[k]).0 == a && edges[k].1 == b;
            assert(joins(edges[k], a, b));
        }
        if exists|k: int| 0 <= k < edges.len() && (#[trigger] edges[k]).1 == a && edges[k].0 == b {
            let k = choose|k: int|
                0 <= k < edges.len() && (#[trigger] edges[k]).1 == a && edges[k].0 == b;
            assert(joins(edges[k], a, b));
        }
    }
}

/// In a simple graph the neighbours of a node are other nodes of the graph,
/// each joined to it by an edge.
pub proof fn lemma_neighbors_valid(edges: Seq<Edge>, nodes: nat, a: u32)
    requires
        simple(edges, nodes),
    ensures
        forall|i: int|
            0 <= i < neighbor_list(edges, a).len() ==> {
                let x = #[trigger] neighbor_list(edges, a)[i];
                x < nodes && x != a && joined(edges, a, x)
            },
{
    let list = neighbor_list(edges, a);
    assert forall|i: int| 0 <= i < list.len() implies {
        let x = #[trigger] list[i];
        x < nodes && x != a && joined(edges, a, x)
    } by {
        let x = list[i];
        lemma_listed_is_end(edges, a, x);
        let k = choose|k: int| 0 <= k < edges.len() && joins(#[trigger] edges[k], a, x);
        assert(edges[k].0 < nodes && edges[k].1 < nodes && edges[k].0 != edges[k].1);
    }
}

/// Whatever the graph lists as a neighbour of a node is the far end of an
/// edge at that node.
pub proof fn lemma_listed_is_end(edges: Seq<Edge>, a: u32, x: u32)
    requires
        neighbor_list(edges, a).contains(x),
    ensures
        joined(edges, a, x),
    decreases edges.len(),
{
    let o = out_targets(edges, a);
    let i = in_sources(edges, a);
    lemma_concat_contains(o, i, x);
    if edges.len() > 0 {
        let rest = edges.drop_last();
        let e = edges.last();
        let ro = out_targets(rest, a);
        let ri = in_sources(rest, a);
        let mut in_rest = false;
        if o.contains(x) {
            if e.0 == a {
                lemma_cons_contains(e.1, ro, x);
                if x == e.1 {
                    assert(joins(edges[edges.len() - 1], a, x));
                } else {
                    in_rest = true;
                }
            } else {
                in_rest = true;
            }
            if in_rest {
                lemma_concat_contains(ro, ri, x);
                lemma_listed_is_end(rest, a, x);
                let k = choose|k: int| 0 <= k < rest.len() && joins(#[trigger] rest[k], a, x);
                assert(joins(edges[k], a, x));
            }
        } else {
            if e.1 == a && e.0 != a {
                lemma_cons_contains(e.0, ri, x);
                if x == e.0 {
                    assert(joins(edges[edges.len() - 1], a, x));
                } else {
                    in_rest = true;
                }
            } else {
                in_rest = true;
            }
            if in_rest {
                lemma_concat_contains(ro, ri, x);
                lemma_listed_is_end(rest, a, x);
                let k = choose|k: int| 0 <= k < rest.len() && joins(#[trigger] rest[k], a, x);
                assert(joins(edges[k], a, x));
            }
        }
    }
}

proof fn lemma_cons_contains(head: u32, tail: Seq<u32>, x: u32)
    ensures
        (seq![head] + tail).contains(x) <==> (x == head || tail.contains(x)),
{
    let s = seq![head] + tail;
    if s.contains(x) {
        let k = choose|k: int| 0 <= k < s.len() && s[k] == x;
        if k > 0 {
            assert(tail[k - 1] == x);
        }
    }
    if x == head {
        assert(s[0] == x);
    }
    if tail.contains(x) {
        let k = choose|k: int| 0 <= k < tail.len() && tail[k] == x;
        assert(s[k + 1] == x);
    }
}

proof fn lemma_concat_contains(a: Seq<u32>, b: Seq<u32>, x: u32)
    ensures
        (a + b).contains(x) <==> (a.contains(x) || b.contains(x)),
{
    let s = a + b;
    if s.contains(x) {
        let k = choose|k: int| 0 <= k < s.len() && s[k] == x;
        if k < a.len() {
            assert(a[k] == x);
        } else {
            assert(b[k - a.len()] == x);
        }
    }
    if a.contains(x) {
        let k = choose|k: int| 0 <= k < a.len() && a[k] == x;
        assert(s[k] == x);
    }
    if b.contains(x) {
        let k = choose|k: int| 0 <= k < b.len() && b[k] == x;
        assert(s[k + a.len()] == x);
    }
}

/// The two nodes `a` and `b` as a pair with the smaller first.
pub open spec fn pair(a: u32, b: u32) -> (u32, u32) {
    if a <= b {
        (a, b)
    } else {
        (b, a)
    }
}

/// The position in `edges` of an edge that joins `a` and `b`.
pub open spec fn edge_between(edges: Seq<Edge>, a: u32, b: u32) -> int {
    choose|k: int| 0 <= k < edges.len() && joins(#[trigger] edges[k], a, b)
}

/// The edges as a map: from every pair of joined nodes, the smaller first,
/// to the weight of the edge between them.
pub open spec fn link_map(edges: Seq<Edge>) -> Map<(u32, u32), u64> {
    Map::new(
        |p: (u32, u32)| p.0 < p.1 && joined(edges, p.0, p.1),
        |p: (u32, u32)| edges[edge_between(edges, p.0, p.1)].2,
    )
}

/// In a simple graph the edge at position `k` is the one that `link_map`
/// shows between its ends.
pub proof fn lemma_link_of_edge(edges: Seq<Edge>, nodes: nat, k: int)
    requires
        simple(edges, nodes),
        0 <= k < edges.len(),
    ensures
        link_map(edges).contains_key(pair(edges[k].0, edges[k].1)),
        link_map(edges)[pair(edges[k].0, edges[k].1)] == edges[k].2,
        edge_between(edges, edges[k].0, edges[k].1) == k,
        edge_between(edges, edges[k].1, edges[k].0) == k,
{
    let e = edges[k];
    assert(joins(e, e.0, e.1));
    assert(joins(e, e.1, e.0));
    let p = pair(e.0, e.1);
    assert(joins(e, p.0, p.1));
    let j = edge_between(edges, e.0, e.1);
    assert(joins(edges[j], e.0, e.1));
    if j < k {
        assert(!joins(edges[j], edges[k].0, edges[k].1));
    } else if k < j {
        assert(!joins(edges[k], edges[j].0, edges[j].1));
    }
    let j2 = edge_between(edges, e.1, e.0);
    assert(joins(edges[j2], e.1, e.0));
    if j2 < k {
        assert(!joins(edges[j2], edges[k].0, edges[k].1));
    } else if k < j2 {
        assert(!joins(edges[k], edges[j2].0, edges[j2].1));
    }
}

/// A new edge of a simple graph adds its pair to the map of links.
pub proof fn lemma_links_push(edges: Seq<Edge>, nodes: nat, e: Edge)
    requires
        simple(edges.push(e), nodes),
    ensures
        simple(edges, nodes),
        !joined(edges, e.0, e.1),
        link_map(edges.push(e)) == link_map(edges).insert(pair(e.0, e.1), e.2),
{
    let p = edges.push(e);
    assert forall|k: int| 0 <= k < edges.len() implies {
        let x = #[trigger] edges[k];
        x.0 < nodes && x.1 < nodes && x.0 != x.1 && x.2 <= MAX_EDGE_WEIGHT
    } by {
        assert(p[k] == edges[k]);
    }
    assert forall|j: int, k: int| 0 <= j < k < edges.len() implies !joins(
        #[trigger] edges[j],
        (#[trigger] edges[k]).0,
        edges[k].1,
    ) by {
        assert(p[j] == edges[j]);
        assert(p[k] == edges[k]);
    }
    if joined(edges, e.0, e.1) {
        let j = choose|j: int| 0 <= j < edges.len() && joins(#[trigger] edges[j], e.0, e.1);
        assert(p[j] == edges[j]);
        assert(p[edges.len() as int] == e);
        assert(!joins(p[j], p[edges.len() as int].0, p[edges.len() as int].1));
    }
    assert forall|q: (u32, u32)|
        link_map(p).contains_key(q) <==> link_map(edges).insert(pair(e.0, e.1), e.2).contains_key(
            q,
        ) by {
        if joined(p, q.0, q.1) {
            let k = choose|k: int| 0 <= k < p.len() && joins(#[trigger] p[k], q.0, q.1);
            if k < edges.len() {
                assert(edges[k] == p[k]);
            }
        }
        if joined(edges, q.0, q.1) {
            let k = choose|k: int| 0 <= k < edges.len() && joins(#[trigger] edges[k], q.0, q.1);
            assert(p[k] == edges[k]);
        }
        if q == pair(e.0, e.1) {
            assert(p[edges.len() as int] == e);
            assert(joins(p[edges.len() as int], q.0, q.1));
        }
    }
    assert forall|q: (u32, u32)| link_map(p).contains_key(q) implies link_map(p)[q]
        == link_map(edges).insert(pair(e.0, e.1), e.2)[q] by {
        let k = edge_between(p, q.0, q.1);
        assert(joins(p[k], q.0, q.1));
        lemma_link_of_edge(p, nodes, k);
        if k < edges.len() {
            assert(p[k] == edges[k]);
            assert(joins(edges[k], q.0, q.1));
            let j = edge_between(edges, q.0, q.1);
            assert(joins(edges[j], q.0, q.1));
            if j < k {
                assert(!joins(edges[j], edges[k].0, edges[k].1));
            } else if k < j {
                assert(!joins(edges[k], edges[j].0, edges[j].1));
            }
            assert(q != pair(e.0, e.1)) by {
                if q == pair(e.0, e.1) {
                    assert(joins(edges[k], e.0, e.1));
                }
            }
        } else {
            assert(p[k] == e);
        }
    }
    assert(link_map(p) =~= link_map(edges).insert(pair(e.0, e.1), e.2));
}

/// A new weight on an edge of a simple graph changes the map of links at
/// the pair of that edge only.
pub proof fn lemma_links_update(edges: Seq<Edge>, nodes: nat, k: int, weight: u64)
    requires
        simple(edges, nodes),
        0 <= k < edges.len(),
    ensures
        link_map(edges.update(k, (edges[k].0, edges[k].1, weight))) == link_map(edges).insert(
            pair(edges[k].0, edges[k].1),
            weight,
        ),
{
    let e = edges[k];
    let u = edges.update(k, (e.0, e.1, weight));
    assert forall|q: (u32, u32)| link_map(u).contains_key(q) <==> link_map(edges).insert(
        pair(e.0, e.1),
        weight,
    ).contains_key(q) by {
        if joined(u, q.0, q.1) {
            let j = choose|j: int| 0 <= j < u.len() && joins(#[trigger] u[j], q.0, q.1);
            assert(joins(edges[j], q.0, q.1));
        }
        if joined(edges, q.0, q.1) {
            let j = choose|j: int| 0 <= j < edges.len() && joins(#[trigger] edges[j], q.0, q.1);
            assert(joins(u[j], q.0, q.1));
        }
        if q == pair(e.0, e.1) {
            assert(joins(u[k], q.0, q.1));
        }
    }
    assert forall|q: (u32, u32)| link_map(u).contains_key(q) implies link_map(u)[q] == link_map(
        edges,
    ).insert(pair(e.0, e.1), weight)[q] by {
        let j = edge_between(u, q.0, q.1);
        assert(joins(u[j], q.0, q.1));
        assert(joins(edges[j], q.0, q.1));
        let i = edge_between(edges, q.0, q.1);
        assert(joined(edges, q.0, q.1));
        assert(joins(edges[i], q.0, q.1));
        if i < j {
            assert(!joins(edges[i], edges[j].0, edges[j].1));
        } else if j < i {
            assert(!joins(edges[j], edges[i].0, edges[i].1));
        }
        if j == k {
        } else {
            assert(u[j] == edges[j]);
            assert(q != pair(e.0, e.1)) by {
                if q == pair(e.0, e.1) {
                    assert(joins(edges[k], q.0, q.1));
                    if j < k {
                        assert(!joins(edges[j], edges[k].0, edges[k].1));
                    } else {
                        assert(!joins(edges[k], edges[j].0, edges[j].1));
                    }
                }
            }
        }
    }
    assert(link_map(u) =~= link_map(edges).insert(pair(e.0, e.1), weight));
}

/// Whether a path along `edges` leads from `x` to `y`.
pub open spec fn connected(edges: Seq<Edge>, x: u32, y: u32) -> bool
    decreases edges.len(),
{
    if edges.len() == 0 {
        x == y
    } else {
        let rest = edges.drop_last();
        let e = edges.last();
        ||| connected(rest, x, y)
        ||| connected(rest, x, e.0) && connected(rest, e.1, y)
        ||| connected(rest, x, e.1) && connected(rest, e.0, y)
    }
}

/// Whether no edge of `edges` joins two nodes that the edges before it
/// connect already: the edges form no cycle.
pub open spec fn is_forest(edges: Seq<Edge>) -> bool {
    forall|k: int|
        0 <= k < edges.len() ==> !connected(
            edges.take(k),
            (#[trigger] edges[k]).0,
            edges[k].1,
        )
}

/// Every node is connected to itself.
pub proof fn lemma_connected_reflexive(edges: Seq<Edge>, x: u32)
    ensures
        connected(edges, x, x),
    decreases edges.len(),
{
    if edges.len() > 0 {
        lemma_connected_reflexive(edges.drop_last(), x);
    }
}

/// What is connected stays connected when an edge is added, and the ends of
/// the new edge are connected.
pub proof fn lemma_connected_push(edges: Seq<Edge>, e: Edge, x: u32, y: u32)
    ensures
        connected(edges, x, y) ==> connected(edges.push(e), x, y),
        connected(edges.push(e), e.0, e.1),
        connected(edges.push(e), x, y) <==> (connected(edges, x, y) || (connected(edges, x, e.0)
            && connected(edges, e.1, y)) || (connected(edges, x, e.1) && connected(
            edges,
            e.0,
            y,
        ))),
{
    assert(edges.push(e).drop_last() =~= edges);
    assert(edges.push(e).last() == e);
    lemma_connected_reflexive(edges, e.0);
    lemma_connected_reflexive(edges, e.1);
}

/// The two ends of an edge are connected.
pub proof fn lemma_joined_connected(edges: Seq<Edge>, a: u32, b: u32)
    requires
        joined(edges, a, b),
    ensures
        connected(edges, a, b),
    decreases edges.len(),
{
    let k = choose|k: int| 0 <= k < edges.len() && joins(#[trigger] edges[k], a, b);
    let rest = edges.drop_last();
    let e = edges.last();
    if k == edges.len() - 1 {
        lemma_connected_reflexive(rest, a);
        lemma_connected_reflexive(rest, b);
    } else {
        assert(joins(rest[k], a, b));
        lemma_joined_connected(rest, a, b);
    }
}

/// A simple graph whose links are among those of another has no more edges.
pub proof fn lemma_sublinks_fewer_edges(sub: Seq<Edge>, all: Seq<Edge>, nodes: nat)
    requires
        simple(sub, nodes),
        simple(all, nodes),
        link_map(sub).submap_of(link_map(all)),
    ensures
        sub.len() <= all.len(),
{
    let at = Seq::new(sub.len(), |j: int| edge_between(all, sub[j].0, sub[j].1));
    assert forall|j: int| 0 <= j < at.len() implies 0 <= #[trigger] at[j] < all.len() && joins(
        all[at[j]],
        sub[j].0,
        sub[j].1,
    ) by {
        lemma_link_of_edge(sub, nodes, j);
        let p = pair(sub[j].0, sub[j].1);
        assert(link_map(sub).contains_key(p));
        assert(link_map(all).contains_key(p));
        assert(joined(all, p.0, p.1));
        let k = choose|k: int| 0 <= k < all.len() && joins(#[trigger] all[k], p.0, p.1);
        assert(joins(all[k], sub[j].0, sub[j].1));
    }
    assert forall|i: int, j: int| 0 <= i < at.len() && 0 <= j < at.len() && i != j implies at[i]
        != at[j] by {
        assert(0 <= at[i] < all.len() && joins(all[at[i]], sub[i].0, sub[i].1));
        assert(0 <= at[j] < all.len() && joins(all[at[j]], sub[j].0, sub[j].1));
        if at[i] == at[j] {
            if i < j {
                assert(!joins(sub[i], sub[j].0, sub[j].1));
            } else {
                assert(!joins(sub[j], sub[i].0, sub[i].1));
            }
        }
    }
    crate::pole_graph::lemma_distinct_below(at, all.len() as int);
}

/// An undirected graph: a value of type `N` at every node, and weighted edges
/// of which at most one joins any two nodes. Nodes are numbered from zero in
/// the order in which they were added, edges likewise.
pub struct WeightedGraph<N> {
    topology: UnGraph<(), u64>,
    nodes: Vec<N>,
}

impl<N> WeightedGraph<N> {
    /// What stands at the nodes, by node number.
    pub closed spec fn nodes(&self) -> Seq<N> {
        self.nodes@
    }

    /// The edges in the order in which they were added.
    pub closed spec fn edges(&self) -> Seq<Edge> {
        graph_edges(self.topology)
    }

    /// Every node has its value, and the edges are those of a simple graph.
    pub closed spec fn wf(&self) -> bool {
        &&& graph_size(self.topology) == self.nodes@.len()
        &&& self.nodes@.len() <= u32::MAX
        &&& graph_edges(self.topology).len() < u32::MAX
        &&& simple(graph_edges(self.topology), self.nodes@.len())
    }

    /// What `wf` says of the nodes and edges.
    pub proof fn lemma_wf(&self)
        requires
            self.wf(),
        ensures
            self.nodes().len() <= u32::MAX,
            self.edges().len() < u32::MAX,
            simple(self.edges(), self.nodes().len()),
    {
    }

    /// Whether an edge joins `a` and `b`.
    pub open spec fn spec_contains_edge(&self, a: u32, b: u32) -> bool {
        joined(self.edges(), a, b)
    }

    /// The edges as a map from pairs of nodes, the smaller first, to weights.
    pub open spec fn links(&self) -> Map<(u32, u32), u64> {
        link_map(self.edges())
    }

    /// The neighbours of `a` in the order in which the graph lists them.
    pub open spec fn spec_neighbors(&self, a: u32) -> Seq<u32> {
        neighbor_list(self.edges(), a)
    }

    /// A graph without nodes.
    pub fn new_undirected() -> (r: Self)
        ensures
            r.wf(),
            r.nodes() =~= Seq::empty(),
            r.edges() =~= Seq::empty(),
    {
        WeightedGraph { topology: graph_new(), nodes: Vec::new() }
    }

    pub fn node_count(&self) -> (r: usize)
        requires
            self.wf(),
        ensures
            r == self.nodes().len(),
    {
        graph_node_count(&self.topology)
    }

    pub fn edge_count(&self) -> (r: usize)
        ensures
            r == self.edges().len(),
    {
        graph_edge_count(&self.topology)
    }

    /// Adds a node that holds `weight`; the result is its number.
    pub fn add_node(&mut self, weight: N) -> (r: u32)
        requires
            old(self).wf(),
            old(self).nodes().len() < u32::MAX,
        ensures
            final(self).wf(),
            r == old(self).nodes().len(),
            final(self).nodes() == old(self).nodes().push(weight),
            final(self).edges() == old(self).edges(),
    {
        let r = graph_add_node(&mut self.topology);
        self.nodes.push(weight);
        r
    }

    /// What stands at node `a`.
    pub fn node_weight(&self, a: u32) -> (r: &N)
        requires
            a < self.nodes().len(),
        ensures
            *r == self.nodes()[a as int],
    {
        &self.nodes[a as usize]
    }

    /// Whether an edge joins `a` and `b`.
    pub fn contains_edge(&self, a: u32, b: u32) -> (r: bool)
        ensures
            r == self.spec_contains_edge(a, b),
    {
        graph_find_edge(&self.topology, a, b).is_some()
    }

    /// The weight of the edge that joins `a` and `b`, if there is one.
    pub fn edge_weight(&self, a: u32, b: u32) -> (r: Option<u64>)
        requires
            self.wf(),
        ensures
            r is Some <==> self.spec_contains_edge(a, b),
            r is Some ==> exists|k: int|
                0 <= k < self.edges().len() && joins(#[trigger] self.edges()[k], a, b)
                    && self.edges()[k].2 == r->0,
    {
        match graph_find_edge(&self.topology, a, b) {
            Some(k) => {
                let list = graph_edge_list(&self.topology);
                let w = list[k as usize].2;
                assert(joins(self.edges()[k as int], a, b) && self.edges()[k as int].2 == w);
                Some(w)
            },
            None => None,
        }
    }

    /// Adds an edge between two different nodes that no edge joins yet.
    pub fn add_edge(&mut self, a: u32, b: u32, weight: u64) -> (r: u32)
        requires
            old(self).wf(),
            a < old(self).nodes().len(),
            b < old(self).nodes().len(),
            a != b,
            weight <= MAX_EDGE_WEIGHT,
            !old(self).spec_contains_edge(a, b),
            old(self).edges().len() + 1 < u32::MAX,
        ensures
            final(self).wf(),
            r == old(self).edges().len(),
            final(self).nodes() == old(self).nodes(),
            final(self).edges() == old(self).edges().push((a, b, weight)),
            final(self).links() == old(self).links().insert(pair(a, b), weight),
    {
        let ghost before = self.edges();
        let r = graph_add_edge(&mut self.topology, a, b, weight);
        proof {
            let after = self.edges();
            assert forall|j: int, k: int| 0 <= j < k < after.len() implies !joins(
                #[trigger] after[j],
                (#[trigger] after[k]).0,
                after[k].1,
            ) by {
                if k == before.len() {
                    assert(before[j] == after[j]);
                    if joins(after[j], a, b) {
                        assert(joins(before[j], a, b));
                    }
                } else {
                    assert(before[j] == after[j]);
                    assert(before[k] == after[k]);
                }
            }
            assert forall|k: int| 0 <= k < after.len() implies {
                let e = #[trigger] after[k];
                e.0 < self.nodes@.len() && e.1 < self.nodes@.len() && e.0 != e.1 && e.2
                    <= MAX_EDGE_WEIGHT
            } by {
                if k < before.len() {
                    assert(before[k] == after[k]);
                }
            }
            lemma_links_push(before, self.nodes@.len(), (a, b, weight));
        }
        r
    }

    /// Gives the edge between `a` and `b` the weight `weight`, adding the
    /// edge if none joins them yet.
    pub fn update_edge(&mut self, a: u32, b: u32, weight: u64) -> (r: u32)
        requires
            old(self).wf(),
            a < old(self).nodes().len(),
            b < old(self).nodes().len(),
            a != b,
            weight <= MAX_EDGE_WEIGHT,
            old(self).edges().len() + 1 < u32::MAX,
        ensures
            final(self).wf(),
            final(self).nodes() == old(self).nodes(),
            old(self).spec_contains_edge(a, b) ==> r < old(self).edges().len() && joins(
                old(self).edges()[r as int],
                a,
                b,
            ) && final(self).edges() == old(self).edges().update(
                r as int,
                (old(self).edges()[r as int].0, old(self).edges()[r as int].1, weight),
            ),
            !old(self).spec_contains_edge(a, b) ==> r == old(self).edges().len() && final(self).edges() == old(self).edges().push((a, b, weight)),
            final(self).links() == old(self).links().insert(pair(a, b), weight),
    {
        let ghost before = self.edges();
        let r = graph_update_edge(&mut self.topology, a, b, weight);
        proof {
            let after = self.edges();
            if joined(before, a, b) {
                assert forall|j: int, k: int| 0 <= j < k < after.len() implies !joins(
                    #[trigger] after[j],
                    (#[trigger] after[k]).0,
                    after[k].1,
                ) by {
                    assert(!joins(before[j], before[k].0, before[k].1));
                }
                assert forall|k: int| 0 <= k < after.len() implies {
                    let e = #[trigger] after[k];
                    e.0 < self.nodes@.len() && e.1 < self.nodes@.len() && e.0 != e.1 && e.2
                        <= MAX_EDGE_WEIGHT
                } by {
                    let e = before[k];
                    assert(e.0 < self.nodes@.len());
                }
                lemma_links_update(before, self.nodes@.len(), r as int, weight);
                assert(pair(before[r as int].0, before[r as int].1) == pair(a, b));
            } else {
                assert forall|j: int, k: int| 0 <= j < k < after.len() implies !joins(
                    #[trigger] after[j],
                    (#[trigger] after[k]).0,
                    after[k].1,
                ) by {
                    if k == before.len() {
                        assert(before[j] == after[j]);
                        if joins(after[j], a, b) {
                            assert(joins(before[j], a, b));
                        }
                    } else {
                        assert(before[j] == after[j]);
                        assert(before[k] == after[k]);
                    }
                }
                assert forall|k: int| 0 <= k < after.len() implies {
                    let e = #[trigger] after[k];
                    e.0 < self.nodes@.len() && e.1 < self.nodes@.len() && e.0 != e.1 && e.2
                        <= MAX_EDGE_WEIGHT
                } by {
                    if k < before.len() {
                        assert(before[k] == after[k]);
                    }
                }
                lemma_links_push(before, self.nodes@.len(), (a, b, weight));
            }
        }
        r
    }

    /// An edge joins two nodes exactly if the map of links holds their pair.
    pub proof fn lemma_links_joined(&self, a: u32, b: u32)
        requires
            self.wf(),
        ensures
            self.spec_contains_edge(a, b) <==> self.links().contains_key(pair(a, b)),
            self.spec_contains_edge(a, b) == self.spec_contains_edge(b, a),
            self.spec_contains_edge(a, b) ==> a != b && a < self.nodes().len() && b
                < self.nodes().len() && self.links()[pair(a, b)] <= MAX_EDGE_WEIGHT,
            a != b ==> (self.spec_neighbors(a).contains(b) <==> self.links().contains_key(
                pair(a, b),
            )),
    {
        let edges = self.edges();
        if joined(edges, a, b) {
            let k = choose|k: int| 0 <= k < edges.len() && joins(#[trigger] edges[k], a, b);
            assert(joins(edges[k], b, a));
            assert(joins(edges[k], pair(a, b).0, pair(a, b).1));
            lemma_link_of_edge(edges, self.nodes().len(), k);
            assert(pair(edges[k].0, edges[k].1) == pair(a, b));
        }
        if joined(edges, b, a) {
            let k = choose|k: int| 0 <= k < edges.len() && joins(#[trigger] edges[k], b, a);
            assert(joins(edges[k], a, b));
        }
        if self.links().contains_key(pair(a, b)) {
            let k = choose|k: int|
                0 <= k < edges.len() && joins(#[trigger] edges[k], pair(a, b).0, pair(a, b).1);
            assert(joins(edges[k], a, b));
        }
        if a != b {
            lemma_neighbors_are_joined(edges, a, b);
        }
    }

    /// The neighbours of `a`: the far ends of the edges at `a`.
    pub fn neighbors(&self, a: u32) -> (r: Vec<u32>)
        ensures
            r@ == self.spec_neighbors(a),
    {
        graph_neighbors(&self.topology, a)
    }

    /// For every node the least cost of a path to it from `start`, where a
    /// step over an edge costs nothing if it leads to a node that `free`
    /// marks, and the weight of the edge and three tiles otherwise; `None`
    /// for a node that no path reaches.
    pub fn shortest_costs(&self, start: u32, free: &Vec<bool>) -> (r: Vec<Option<u64>>)
        requires
            self.wf(),
            start < self.nodes().len(),
            free@.len() == self.nodes().len(),
        ensures
            r@ == crate::topology::shortest_costs(
                self.edges(),
                self.nodes().len(),
                start,
                free@,
            ),
            r@.len() == self.nodes().len(),
    {
        crate::topology::graph_shortest_costs(&self.topology, start, free)
    }

    /// The edges in the order in which they were added.
    pub fn edge_list(&self) -> (r: Vec<Edge>)
        ensures
            r@ == self.edges(),
    {
        graph_edge_list(&self.topology)
    }

    /// A graph without edges in which what stands at a node is taken from
    /// `nodes`.
    pub fn with_topology_of_size<M>(&self, nodes: Vec<M>) -> (r: WeightedGraph<M>)
        requires
            nodes@.len() <= u32::MAX,
        ensures
            r.wf(),
            r.nodes() == nodes@,
            r.edges() =~= Seq::empty(),
    {
        let mut topology = graph_new();
        let mut i: usize = 0;
        while i < nodes.len()
            invariant
                0 <= i <= nodes@.len(),
                nodes@.len() <= u32::MAX,
                graph_size(topology) == i,
                graph_edges(topology) =~= Seq::empty(),
            decreases nodes@.len() - i,
        {
            graph_add_node(&mut topology);
            i = i + 1;
        }
        WeightedGraph { topology, nodes }
    }

    /// A graph of the same shape in which what stands at a node is taken from
    /// `nodes`.
    pub fn with_nodes<M>(&self, nodes: Vec<M>) -> (r: WeightedGraph<M>)
        requires
            self.wf(),
            nodes@.len() == self.nodes().len(),
        ensures
            r.wf(),
            r.nodes() == nodes@,
            r.edges() == self.edges(),
    {
        WeightedGraph { topology: graph_clone(&self.topology), nodes }
    }
}

/// Whether `x` is an edge of `edges` between two nodes that `keep` marks,
/// under the new numbers of its ends.
pub open spec fn kept_of_some(edges: Seq<Edge>, keep: Seq<bool>, x: Edge) -> bool {
    exists|q: int|
        0 <= q < edges.len() && keep[(#[trigger] edges[q]).0 as int] && keep[edges[q].1 as int] && x
            == kept_edge(edges[q], keep)
}

/// The edges that are kept of a simple graph are those between two nodes
/// that `keep` marks, each once and in their order, and they make a simple
/// graph on the marked nodes.
pub proof fn lemma_kept_edges(edges: Seq<Edge>, keep: Seq<bool>, n: nat)
    requires
        simple(edges, n),
        keep.len() == n,
    ensures
        simple(kept_edges(edges, keep), rank(keep, n as int) as nat),
        kept_edges(edges, keep).len() <= edges.len(),
        forall|k: int|
            0 <= k < kept_edges(edges, keep).len() ==> kept_of_some(
                edges,
                keep,
                #[trigger] kept_edges(edges, keep)[k],
            ),
        forall|q: int|
            0 <= q < edges.len() && keep[(#[trigger] edges[q]).0 as int] && keep[edges[q].1 as int]
                ==> exists|k: int|
                0 <= k < kept_edges(edges, keep).len() && #[trigger] kept_edges(edges, keep)[k]
                    == kept_edge(edges[q], keep),
    decreases edges.len(),
{
    let kept = kept_edges(edges, keep);
    lemma_rank_grows(keep, n as int, n as int);
    if edges.len() > 0 {
        let front = edges.drop_last();
        let rest = kept_edges(front, keep);
        let e = edges.last();
        assert(simple(front, n)) by {
            assert forall|k: int| 0 <= k < front.len() implies {
                let x = #[trigger] front[k];
                x.0 < n && x.1 < n && x.0 != x.1 && x.2 <= MAX_EDGE_WEIGHT
            } by {
                assert(front[k] == edges[k]);
            }
            assert forall|j: int, k: int| 0 <= j < k < front.len() implies !joins(
                #[trigger] front[j],
                (#[trigger] front[k]).0,
                front[k].1,
            ) by {
                assert(front[j] == edges[j] && front[k] == edges[k]);
            }
        }
        lemma_kept_edges(front, keep, n);
        assert(edges[edges.len() - 1] == e);
        assert(e.0 < n && e.1 < n && e.0 != e.1);
        let both = keep[e.0 as int] && keep[e.1 as int];
        assert forall|k: int| 0 <= k < kept.len() implies kept_of_some(
            edges,
            keep,
            #[trigger] kept[k],
        ) by {
            if k < rest.len() {
                assert(kept_of_some(front, keep, rest[k]));
                let q = choose|q: int|
                    0 <= q < front.len() && keep[(#[trigger] front[q]).0 as int]
                        && keep[front[q].1 as int] && rest[k] == kept_edge(front[q], keep);
                assert(edges[q] == front[q]);
                assert(kept[k] == rest[k]);
            } else {
                assert(kept[k] == kept_edge(edges[edges.len() - 1], keep));
            }
        }
        assert forall|q: int|
            0 <= q < edges.len() && keep[(#[trigger] edges[q]).0 as int]
                && keep[edges[q].1 as int] implies exists|k: int|
            0 <= k < kept.len() && #[trigger] kept[k] == kept_edge(edges[q], keep) by {
            if q < front.len() {
                assert(front[q] == edges[q]);
                let k = choose|k: int|
                    0 <= k < rest.len() && #[trigger] rest[k] == kept_edge(front[q], keep);
                assert(kept[k] == rest[k]);
            } else {
                assert(kept[kept.len() - 1] == kept_edge(edges[q], keep));
            }
        }
        let m = rank(keep, n as int) as nat;
        assert(simple(kept, m)) by {
            assert forall|k: int| 0 <= k < kept.len() implies {
                let x = #[trigger] kept[k];
                x.0 < m && x.1 < m && x.0 != x.1 && x.2 <= MAX_EDGE_WEIGHT
            } by {
                if k < rest.len() {
                    assert(kept[k] == rest[k]);
                } else {
                    lemma_rank_grows(keep, e.0 as int, n as int);
                    lemma_rank_grows(keep, e.1 as int, n as int);
                    lemma_rank_one(keep, e.0 as int, e.1 as int);
                }
            }
            assert forall|j: int, k: int| 0 <= j < k < kept.len() implies !joins(
                #[trigger] kept[j],
                (#[trigger] kept[k]).0,
                kept[k].1,
            ) by {
                if k < rest.len() {
                    assert(kept[j] == rest[j] && kept[k] == rest[k]);
                } else {
                    assert(kept[j] == rest[j]);
                    assert(kept_of_some(front, keep, rest[j]));
                    let q = choose|q: int|
                        0 <= q < front.len() && keep[(#[trigger] front[q]).0 as int]
                            && keep[front[q].1 as int] && rest[j] == kept_edge(front[q], keep);
                    let f = front[q];
                    assert(edges[q] == f);
                    assert(f.0 < n && f.1 < n);
                    if joins(kept[j], kept[k].0, kept[k].1) {
                        lemma_rank_grows(keep, e.0 as int, n as int);
                        lemma_rank_grows(keep, e.1 as int, n as int);
                        lemma_rank_grows(keep, f.0 as int, n as int);
                        lemma_rank_grows(keep, f.1 as int, n as int);
                        lemma_rank_one(keep, f.0 as int, e.0 as int);
                        lemma_rank_one(keep, f.1 as int, e.1 as int);
                        lemma_rank_one(keep, f.0 as int, e.1 as int);
                        lemma_rank_one(keep, f.1 as int, e.0 as int);
                        assert(joins(edges[q], e.0, e.1));
                        assert(!joins(edges[q], edges[edges.len() - 1].0, edges[edges.len() - 1].1));
                    }
                }
            }
        }
    } else {
        assert(simple(kept, rank(keep, n as int) as nat));
    }
}

impl<N> WeightedGraph<N> {
    /// The part of the graph on the nodes that `keep` marks, with `nodes`
    /// standing at them: the marked nodes are numbered anew in their order,
    /// and the edges between two of them follow in their order.
    pub fn filtered(&self, keep: &Vec<bool>, nodes: Vec<N>) -> (r: WeightedGraph<N>)
        requires
            self.wf(),
            keep@.len() == self.nodes().len(),
            nodes@.len() == rank(keep@, keep@.len() as int),
        ensures
            r.wf(),
            r.nodes() == nodes@,
            r.edges() == kept_edges(self.edges(), keep@),
    {
        proof {
            lemma_kept_edges(graph_edges(self.topology), keep@, self.nodes@.len());
            lemma_rank_grows(keep@, keep@.len() as int, keep@.len() as int);
        }
        WeightedGraph { topology: graph_filter(&self.topology, keep), nodes }
    }
}

impl<N: crate::pole_graph::WithPosition> WeightedGraph<N> {
    /// Copies of what stands at the nodes, by node number.
    pub fn clone_nodes(&self) -> (r: Vec<N>)
        ensures
            r@ == self.nodes(),
    {
        let mut out: Vec<N> = Vec::new();
        let mut i: usize = 0;
        while i < self.nodes.len()
            invariant
                0 <= i <= self.nodes@.len(),
                out@.len() == i,
                forall|j: int| 0 <= j < i ==> #[trigger] out@[j] == self.nodes@[j],
            decreases self.nodes@.len() - i,
        {
            let c = self.nodes[i].duplicate();
            out.push(c);
            i = i + 1;
        }
        assert(out@ =~= self.nodes@);
        out
    }
}

} // verus!
