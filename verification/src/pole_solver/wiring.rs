//! What holds of the wires that the orderly connector draws.

use crate::graph::Edge;
use crate::pole_graph::WithPosition;
use crate::pole_solver::connections::PrettyPoleConnector;
use vstd::prelude::*;

verus! {

/// The wires that grow from a forest begin with the forest, and every wire
/// that follows it could be connected when it was added: its ends were not
/// joined yet and held fewer than five wires, no wire between two
/// neighbours of its ends, one to its left and one not, crossed it, and it
/// kept the least angles to the wires at its ends.
pub proof fn lemma_wires_fit_when_added<N: WithPosition>(
    connector: &PrettyPoleConnector,
    nodes: Seq<N>,
    cand: Seq<Edge>,
    order: Seq<(u64, u64)>,
    forest: Seq<Edge>,
)
    ensures
        ({
            let wires = connector.spec_pretty_from(nodes, cand, order, forest);
            &&& forest.len() <= wires.len() <= forest.len() + order.len()
            &&& wires.take(forest.len() as int) == forest
            &&& forall|k: int|
                forest.len() <= k < wires.len() ==> connector.can_connect_on(
                    nodes,
                    cand,
                    wires.take(k),
                    (#[trigger] wires[k]).0,
                    wires[k].1,
                )
        }),
    decreases order.len(),
{
    let wires = connector.spec_pretty_from(nodes, cand, order, forest);
    if order.len() == 0 {
        assert(wires.take(forest.len() as int) =~= forest);
    } else {
        let rest = connector.spec_pretty_from(nodes, cand, order.drop_last(), forest);
        lemma_wires_fit_when_added(connector, nodes, cand, order.drop_last(), forest);
        assert(wires.take(forest.len() as int) =~= rest.take(forest.len() as int));
        assert forall|k: int| forest.len() <= k < wires.len() implies connector.can_connect_on(
            nodes,
            cand,
            wires.take(k),
            (#[trigger] wires[k]).0,
            wires[k].1,
        ) by {
            if k < rest.len() {
                assert(wires.take(k) =~= rest.take(k));
                assert(wires[k] == rest[k]);
            } else {
                assert(wires.take(k) =~= rest);
            }
        }
    }
}

} // verus!
