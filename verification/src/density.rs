//! The node of highest relative degree.

use vstd::prelude::*;
use crate::adjacency::ends_at;
use crate::store::GraphStore;

verus! {

/// `best` is the first node of highest degree among the first `n` nodes.
pub open spec fn first_of_highest_degree(edges: Seq<(usize, usize)>, n: usize, best: usize) -> bool {
    &&& best < n
    &&& forall|v: usize| v < n ==> ends_at(edges, v) <= ends_at(edges, best)
    &&& forall|v: usize| v < best ==> ends_at(edges, v) < ends_at(edges, best)
}

/// Only one node is the first of highest degree.
pub proof fn lemma_first_of_highest_unique(edges: Seq<(usize, usize)>, n: usize, a: usize, b: usize)
    requires
        first_of_highest_degree(edges, n, a),
        first_of_highest_degree(edges, n, b),
    ensures
        a == b,
{
    if a < b {
        assert(ends_at(edges, a) < ends_at(edges, b));
        assert(ends_at(edges, b) <= ends_at(edges, a));
    } else if b < a {
        assert(ends_at(edges, b) < ends_at(edges, a));
        assert(ends_at(edges, a) <= ends_at(edges, b));
    }
}

/// The node whose degree is the highest share of the node count. All shares
/// have the node count as their denominator, so the highest share is the
/// highest degree; among nodes that tie, the one of lowest index is
/// returned. On a graph without nodes the result is 0. The result names a
/// single node and says nothing of any subgraph around it.
pub fn find_densest_subgraph(graph: &GraphStore) -> (best: usize)
    requires
        graph.wf(),
    ensures
        graph.node_total() == 0 ==> best == 0,
        graph.node_total() > 0 ==> first_of_highest_degree(
            graph.edge_list(),
            graph.node_total() as usize,
            best,
        ),
{
    let n = graph.node_count();
    let ghost edges = graph.edge_list();
    let mut best: usize = 0;
    let mut highest: usize = 0;
    let mut v: usize = 0;
    while v < n
        invariant
            graph.wf(),
            n == graph.node_total(),
            edges == graph.edge_list(),
            v <= n,
            v == 0 ==> best == 0 && highest == 0,
            v > 0 ==> first_of_highest_degree(edges, v, best) && highest == ends_at(edges, best),
        decreases n - v,
    {
        let d = graph.degree(v);
        if d > highest {
            highest = d;
            best = v;
        }
        v += 1;
    }
    best
}

} // verus!
