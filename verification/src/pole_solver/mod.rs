//! The choice of poles and of the wires between them.

pub mod connections;
pub mod set_cover_ilp;
pub mod wiring;

use crate::better_bp::EntityId;
use crate::pole_graph::CandPoleGraph;
use crate::sorting::lemma_same_members;
use crate::sorting::pair_lt;
use crate::sorting::sorted_pairs;
use vstd::prelude::*;

verus! {

/// Why no choice of poles was made.
#[derive(Debug)]
pub struct SolveError {
    pub message: String,
}

/// Something that chooses, among candidate poles, some that still power
/// every entity that the candidates can power, at the least cost it finds.
pub trait PoleCoverSolver {
    /// The part of `graph` that was chosen, or the reason why none was.
    fn solve(&self, graph: &CandPoleGraph) -> (r: Result<CandPoleGraph, SolveError>)
        requires
            graph.wf(),
    ;
}

/// Whether candidate pole `node` of `graph` would power the consumer `id`.
pub open spec fn powers(graph: &CandPoleGraph, node: u32, id: EntityId) -> bool {
    node < graph.nodes().len() && graph.nodes()[node as int].powered().contains(id)
}

/// Whether `list` grows strictly from each member to the next.
pub open spec fn strictly_ascending(list: Seq<u32>) -> bool {
    forall|i: int, j: int| 0 <= i < j < list.len() ==> #[trigger] list[i] < #[trigger] list[j]
}

/// Whether `dict` lists, for every consumer that some candidate pole of
/// `graph` would power, exactly the poles that would, in ascending order,
/// and the consumers in the ascending order of their ids.
pub open spec fn is_coverage_dict(graph: &CandPoleGraph, dict: Seq<(EntityId, Vec<u32>)>) -> bool {
    &&& forall|i: int, j: int|
        0 <= i < j < dict.len() ==> (#[trigger] dict[i]).0.0 < (#[trigger] dict[j]).0.0
    &&& forall|k: int|
        0 <= k < dict.len() ==> (#[trigger] dict[k]).1@.len() > 0 && strictly_ascending(dict[k].1@)
    &&& forall|k: int, node: u32|
        0 <= k < dict.len() ==> ((#[trigger] dict[k]).1@.contains(node) <==> #[trigger] powers(
            graph,
            node,
            dict[k].0,
        ))
    &&& forall|node: u32, id: EntityId| #[trigger]
        powers(graph, node, id) ==> exists|k: int| 0 <= k < dict.len() && (#[trigger] dict[k]).0 == id
}

/// For every power consumer that a candidate pole would power, the poles
/// that would.
#[verifier::loop_isolation(false)]
pub fn get_pole_coverage_dict(graph: &CandPoleGraph) -> (r: Vec<(EntityId, Vec<u32>)>)
    requires
        graph.wf(),
    ensures
        is_coverage_dict(graph, r@),
{
    proof {
        graph.lemma_wf();
    }
    let n = graph.node_count();
    let mut pairs: Vec<(u64, u64)> = Vec::new();
    let mut i: usize = 0;
    while i < n
        invariant
            0 <= i <= n,
            forall|x: (u64, u64)| #[trigger]
                pairs@.contains(x) <==> (x.0 <= u32::MAX && x.1 < i && powers(
                    graph,
                    x.1 as u32,
                    EntityId(x.0 as u32),
                )),
            pairs@.no_duplicates(),
        decreases n - i,
    {
        let ids = graph.node_weight(i as u32).powered_entities.to_vec();
        let ghost base = pairs@;
        let mut k: usize = 0;
        while k < ids.len()
            invariant
                0 <= k <= ids@.len(),
                forall|x: (u64, u64)| #[trigger]
                    pairs@.contains(x) <==> (base.contains(x) || (x.1 == i && exists|q: int|
                        0 <= q < k && (#[trigger] ids@[q]).0 == x.0)),
                pairs@.no_duplicates(),
            decreases ids@.len() - k,
        {
            let ghost prev = pairs@;
            let item = (ids[k].0 as u64, i as u64);
            proof {
                if prev.contains(item) {
                    if base.contains(item) {
                        assert(item.1 < i);
                    } else {
                        let q = choose|q: int| 0 <= q < k && (#[trigger] ids@[q]).0 == item.0;
                        assert(ids@[q] == ids@[k as int]);
                    }
                }
                lemma_push_unique(prev, item);
            }
            pairs.push(item);
            proof {
                assert forall|x: (u64, u64)| #[trigger]
                    pairs@.contains(x) <==> (base.contains(x) || (x.1 == i && exists|q: int|
                        0 <= q < k + 1 && (#[trigger] ids@[q]).0 == x.0)) by {
                    lemma_push_member(prev, item, x);
                    assert(prev.contains(x) <==> (base.contains(x) || (x.1 == i && exists|q: int|
                        0 <= q < k && (#[trigger] ids@[q]).0 == x.0)));
                    if exists|q: int| 0 <= q < k && (#[trigger] ids@[q]).0 == x.0 {
                        let q = choose|q: int| 0 <= q < k && (#[trigger] ids@[q]).0 == x.0;
                        assert(0 <= q < k + 1 && ids@[q].0 == x.0);
                    }
                    if exists|q: int| 0 <= q < k + 1 && (#[trigger] ids@[q]).0 == x.0 {
                        let q = choose|q: int| 0 <= q < k + 1 && (#[trigger] ids@[q]).0 == x.0;
                        if q < k {
                            assert(0 <= q < k && ids@[q].0 == x.0);
                        }
                    }
                    if x == item {
                        assert(ids@[k as int].0 == x.0);
                    }
                }
            }
            k = k + 1;
        }
        proof {
            assert forall|x: (u64, u64)| #[trigger]
                pairs@.contains(x) <==> (x.0 <= u32::MAX && x.1 < i + 1 && powers(
                    graph,
                    x.1 as u32,
                    EntityId(x.0 as u32),
                )) by {
                assert(base.contains(x) <==> (x.0 <= u32::MAX && x.1 < i && powers(
                    graph,
                    x.1 as u32,
                    EntityId(x.0 as u32),
                )));
                if x.1 == i && exists|q: int| 0 <= q < ids@.len() && (#[trigger] ids@[q]).0 == x.0 {
                    let q = choose|q: int| 0 <= q < ids@.len() && (#[trigger] ids@[q]).0 == x.0;
                    assert(ids@.to_set().contains(ids@[q]));
                    assert(ids@[q] == EntityId(x.0 as u32));
                }
                if x.0 <= u32::MAX && x.1 == i && powers(graph, x.1 as u32, EntityId(x.0 as u32)) {
                    assert(ids@.to_set().contains(EntityId(x.0 as u32)));
                    let q = choose|q: int| 0 <= q < ids@.len() && ids@[q] == EntityId(x.0 as u32);
                    assert(ids@[q].0 == x.0);
                }
            }
        }
        i = i + 1;
    }
    let sorted = sorted_pairs(pairs);
    proof {
        lemma_same_members(sorted@, pairs@);
        assert forall|a: int, b: int| 0 <= a < b < sorted@.len() implies pair_lt(
            #[trigger] sorted@[a],
            #[trigger] sorted@[b],
        ) by {
            assert(!pair_lt(sorted@[b], sorted@[a]));
            assert(sorted@[a] != sorted@[b]);
        }
    }
    let mut out: Vec<(EntityId, Vec<u32>)> = Vec::new();
    let mut t: usize = 0;
    while t < sorted.len()
        invariant
            0 <= t <= sorted@.len(),
            forall|i: int, j: int|
                0 <= i < j < out@.len() ==> (#[trigger] out@[i]).0.0 < (#[trigger] out@[j]).0.0,
            forall|k: int|
                0 <= k < out@.len() ==> (#[trigger] out@[k]).1@.len() > 0 && strictly_ascending(
                    out@[k].1@,
                ),
            forall|k: int, node: u32|
                0 <= k < out@.len() ==> ((#[trigger] out@[k]).1@.contains(node) <==> #[trigger] powers(
                    graph,
                    node,
                    out@[k].0,
                )),
            forall|j: int|
                0 <= j < t ==> exists|k: int|
                    0 <= k < out@.len() && (#[trigger] out@[k]).0.0 == (#[trigger] sorted@[j]).0,
            forall|k: int|
                0 <= k < out@.len() && t < sorted@.len() ==> (#[trigger] out@[k]).0.0
                    < sorted@[t as int].0,
            t > 0 && t < sorted@.len() ==> sorted@[t - 1].0 < sorted@[t as int].0,
        decreases sorted@.len() - t,
    {
        let id = sorted[t].0;
        let start = t;
        let mut list: Vec<u32> = Vec::new();
        let ghost done = out@;
        proof {
            assert(sorted@.contains(sorted@[t as int]));
            assert(pairs@.contains(sorted@[t as int]));
        }
        while t < sorted.len() && sorted[t].0 == id
            invariant
                start <= t <= sorted@.len(),
                out@ == done,
                id <= u32::MAX,
                list@.len() == t - start,
                forall|j: int| start <= j < t ==> (#[trigger] sorted@[j]).0 == id,
                forall|j: int| 0 <= j < list@.len() ==> #[trigger] list@[j] == sorted@[start + j].1,
            decreases sorted@.len() - t,
        {
            proof {
                assert(sorted@.contains(sorted@[t as int]));
                assert(pairs@.contains(sorted@[t as int]));
            }
            list.push(sorted[t].1 as u32);
            t = t + 1;
        }
        let ghost group = list@;
        proof {
            assert(group.len() > 0);
            assert(strictly_ascending(group)) by {
                assert forall|a: int, b: int| 0 <= a < b < group.len() implies #[trigger] group[a]
                    < #[trigger] group[b] by {
                    assert(pair_lt(sorted@[start + a], sorted@[start + b]));
                    assert(sorted@.contains(sorted@[start + a]));
                    assert(sorted@.contains(sorted@[start + b]));
                }
            }
            assert forall|node: u32|
                group.contains(node) <==> #[trigger] powers(graph, node, EntityId(id as u32)) by {
                if group.contains(node) {
                    let j = choose|j: int| 0 <= j < group.len() && group[j] == node;
                    assert(sorted@.contains(sorted@[start + j]));
                    assert(pairs@.contains(sorted@[start + j]));
                }
                if powers(graph, node, EntityId(id as u32)) {
                    let x = (id, node as u64);
                    assert(pairs@.contains(x));
                    assert(sorted@.contains(x));
                    let j = choose|j: int| 0 <= j < sorted@.len() && sorted@[j] == x;
                    if j < start {
                        assert(start > 0);
                        if j < start - 1 {
                            assert(pair_lt(sorted@[j], sorted@[start - 1]));
                        }
                        assert(sorted@[start - 1].0 < sorted@[start as int].0);
                        assert(false);
                    }
                    if j >= t {
                        if j > t {
                            assert(pair_lt(sorted@[t as int], sorted@[j]));
                        }
                        assert(pair_lt(sorted@[t - 1], sorted@[t as int]));
                        assert(false);
                    }
                    assert(group[j - start] == node);
                }
            }
            if t < sorted@.len() {
                assert(pair_lt(sorted@[t - 1], sorted@[t as int]));
            }
        }
        out.push((EntityId(id as u32), list));
        proof {
            assert forall|i: int, j: int| 0 <= i < j < out@.len() implies (#[trigger] out@[i]).0.0
                < (#[trigger] out@[j]).0.0 by {
                if j == done.len() {
                    assert(out@[i] == done[i]);
                }
            }
            assert forall|j: int| 0 <= j < t implies exists|k: int|
                0 <= k < out@.len() && (#[trigger] out@[k]).0.0 == (#[trigger] sorted@[j]).0 by {
                if j < start {
                    let k = choose|k: int|
                        0 <= k < done.len() && (#[trigger] done[k]).0.0 == sorted@[j].0;
                    assert(out@[k] == done[k]);
                } else {
                    assert(out@[done.len() as int].0.0 == sorted@[j].0);
                }
            }
            assert forall|k: int| 0 <= k < out@.len() && t < sorted@.len() implies (
            #[trigger] out@[k]).0.0 < sorted@[t as int].0 by {
                if k < done.len() {
                    assert(out@[k] == done[k]);
                }
            }
        }
    }
    proof {
        assert forall|node: u32, id: EntityId| #[trigger] powers(graph, node, id) implies exists|
            k: int,
        |
            0 <= k < out@.len() && (#[trigger] out@[k]).0 == id by {
            let x = (id.0 as u64, node as u64);
            assert(EntityId(x.0 as u32) == id);
            assert(pairs@.contains(x));
            assert(sorted@.contains(x));
            let j = choose|j: int| 0 <= j < sorted@.len() && sorted@[j] == x;
            let k = choose|k: int|
                0 <= k < out@.len() && (#[trigger] out@[k]).0.0 == (#[trigger] sorted@[j]).0;
            assert(out@[k].0 == id);
        }
    }
    out
}

proof fn lemma_push_member(s: Seq<(u64, u64)>, a: (u64, u64), x: (u64, u64))
    ensures
        s.push(a).contains(x) <==> (s.contains(x) || x == a),
{
    if s.push(a).contains(x) {
        let k = choose|k: int| 0 <= k < s.push(a).len() && s.push(a)[k] == x;
        if k < s.len() {
            assert(s[k] == x);
        }
    }
    if s.contains(x) {
        let k = choose|k: int| 0 <= k < s.len() && s[k] == x;
        assert(s.push(a)[k] == x);
    }
    if x == a {
        assert(s.push(a)[s.len() as int] == x);
    }
}

proof fn lemma_push_unique(s: Seq<(u64, u64)>, a: (u64, u64))
    requires
        s.no_duplicates(),
        !s.contains(a),
    ensures
        s.push(a).no_duplicates(),
{
    assert forall|i: int, j: int|
        0 <= i < s.push(a).len() && 0 <= j < s.push(a).len() && i != j implies s.push(a)[i]
        != s.push(a)[j] by {
        if i < s.len() && j < s.len() {
        } else if i < s.len() {
            assert(s.contains(s[i]));
        } else {
            assert(s.contains(s[j]));
        }
    }
}

} // verus!
