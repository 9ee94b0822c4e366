//! The degree distribution: how many nodes have each degree.

use std::collections::HashMap;
use vstd::prelude::*;
use crate::adjacency::{ends_at, lemma_ends_bounded};
use crate::store::GraphStore;

verus! {

broadcast use vstd::std_specs::hash::group_hash_axioms;

/// The number of nodes below `upto` whose degree is `d`.
pub open spec fn nodes_with_degree(edges: Seq<(usize, usize)>, upto: usize, d: usize) -> nat
    decreases upto,
{
    if upto == 0 {
        0
    } else {
        nodes_with_degree(edges, (upto - 1) as usize, d) + (if ends_at(edges, (upto - 1) as usize)
            == d {
            1nat
        } else {
            0nat
        })
    }
}

/// The degree distribution of the first `n` nodes: each degree that some node
/// has, with the number of nodes that have it.
pub open spec fn degree_distribution(edges: Seq<(usize, usize)>, n: usize) -> Map<usize, usize> {
    Map::new(
        |d: usize| nodes_with_degree(edges, n, d) > 0,
        |d: usize| nodes_with_degree(edges, n, d) as usize,
    )
}

/// The sum of the counts that `m` holds for the keys below `bound`.
pub open spec fn counted(m: Map<usize, usize>, bound: usize) -> nat
    decreases bound,
{
    if bound == 0 {
        0
    } else {
        counted(m, (bound - 1) as usize) + (if m.contains_key((bound - 1) as usize) {
            m[(bound - 1) as usize] as nat
        } else {
            0nat
        })
    }
}

/// The sum, over the degrees below `bound`, of the number of nodes below
/// `upto` with that degree.
pub open spec fn tally(edges: Seq<(usize, usize)>, upto: usize, bound: usize) -> nat
    decreases bound,
{
    if bound == 0 {
        0
    } else {
        tally(edges, upto, (bound - 1) as usize) + nodes_with_degree(
            edges,
            upto,
            (bound - 1) as usize,
        )
    }
}

/// No degree is had by more nodes than there are.
pub proof fn lemma_nodes_with_degree_bounded(edges: Seq<(usize, usize)>, upto: usize, d: usize)
    ensures
        nodes_with_degree(edges, upto, d) <= upto,
    decreases upto,
{
    if upto > 0 {
        lemma_nodes_with_degree_bounded(edges, (upto - 1) as usize, d);
    }
}

proof fn lemma_tally_next_node(edges: Seq<(usize, usize)>, upto: usize, bound: usize)
    requires
        upto < usize::MAX,
    ensures
        tally(edges, (upto + 1) as usize, bound) == tally(edges, upto, bound) + (if ends_at(
            edges,
            upto,
        ) < bound {
            1nat
        } else {
            0nat
        }),
    decreases bound,
{
    if bound > 0 {
        lemma_tally_next_node(edges, upto, (bound - 1) as usize);
    }
}

proof fn lemma_tally_is_node_count(edges: Seq<(usize, usize)>, upto: usize, bound: usize)
    requires
        forall|v: usize| v < upto ==> ends_at(edges, v) < bound,
    ensures
        tally(edges, upto, bound) == upto,
    decreases upto,
{
    if upto == 0 {
        lemma_tally_of_none(edges, bound);
    } else {
        lemma_tally_is_node_count(edges, (upto - 1) as usize, bound);
        lemma_tally_next_node(edges, (upto - 1) as usize, bound);
    }
}

proof fn lemma_tally_of_none(edges: Seq<(usize, usize)>, bound: usize)
    ensures
        tally(edges, 0, bound) == 0,
    decreases bound,
{
    if bound > 0 {
        lemma_tally_of_none(edges, (bound - 1) as usize);
    }
}

proof fn lemma_counted_is_tally(edges: Seq<(usize, usize)>, n: usize, bound: usize)
    ensures
        counted(degree_distribution(edges, n), bound) == tally(edges, n, bound),
    decreases bound,
{
    if bound > 0 {
        lemma_counted_is_tally(edges, n, (bound - 1) as usize);
        lemma_nodes_with_degree_bounded(edges, n, (bound - 1) as usize);
    }
}

/// The counts of a degree distribution add up to the number of nodes: every
/// degree that occurs is at most twice the number of edges, and the counts
/// for the degrees up to there sum to `n`.
pub proof fn lemma_distribution_sums_to_node_count(edges: Seq<(usize, usize)>, n: usize)
    requires
        2 * edges.len() < usize::MAX,
    ensures
        forall|d: usize| #[trigger]
            degree_distribution(edges, n).contains_key(d) ==> d <= 2 * edges.len(),
        counted(degree_distribution(edges, n), (2 * edges.len() + 1) as usize) == n,
{
    let bound = (2 * edges.len() + 1) as usize;
    assert forall|v: usize| v < n implies ends_at(edges, v) < bound by {
        lemma_ends_bounded(edges, v);
    }
    lemma_tally_is_node_count(edges, n, bound);
    lemma_counted_is_tally(edges, n, bound);
    assert forall|d: usize| #[trigger]
        degree_distribution(edges, n).contains_key(d) implies d <= 2 * edges.len() by {
        lemma_degree_occurs(edges, n, d);
        let v = choose|v: usize| v < n && ends_at(edges, v) == d;
        lemma_ends_bounded(edges, v);
    }
}

/// The distribution is a function of the graph: two maps that meet the
/// contract of `compute_degree_distribution` on one graph are equal.
pub proof fn lemma_distribution_unique(
    edges: Seq<(usize, usize)>,
    n: usize,
    a: Map<usize, usize>,
    b: Map<usize, usize>,
)
    requires
        a == degree_distribution(edges, n),
        b == degree_distribution(edges, n),
    ensures
        a == b,
{
}

/// A degree with a positive count is the degree of some node.
pub proof fn lemma_degree_occurs(edges: Seq<(usize, usize)>, upto: usize, d: usize)
    requires
        nodes_with_degree(edges, upto, d) > 0,
    ensures
        exists|v: usize| v < upto && ends_at(edges, v) == d,
    decreases upto,
{
    if upto > 0 {
        let last = (upto - 1) as usize;
        if ends_at(edges, last) == d {
        } else {
            lemma_degree_occurs(edges, last, d);
            let v = choose|v: usize| v < last && ends_at(edges, v) == d;
            assert(v < upto && ends_at(edges, v) == d);
        }
    }
}

/// Tabulates the degrees: the result maps each degree that some node has to
/// the number of nodes that have it. The degree of a node is the number of
/// edge ends at it.
pub fn compute_degree_distribution(graph: &GraphStore) -> (counts: HashMap<usize, usize>)
    requires
        graph.wf(),
    ensures
        counts@ == degree_distribution(graph.edge_list(), graph.node_total() as usize),
{
    let n = graph.node_count();
    let ghost edges = graph.edge_list();
    let mut counts: HashMap<usize, usize> = HashMap::new();
    let mut v: usize = 0;
    while v < n
        invariant
            graph.wf(),
            n == graph.node_total(),
            edges == graph.edge_list(),
            v <= n,
            counts@ =~= degree_distribution(edges, v),
        decreases n - v,
    {
        let d = graph.degree(v);
        let seen: usize = match counts.get(&d) {
            Some(c) => *c,
            None => 0,
        };
        proof {
            lemma_nodes_with_degree_bounded(edges, v, d);
        }
        counts.insert(d, seen + 1);
        proof {
            assert forall|k: usize| #[trigger]
                nodes_with_degree(edges, (v + 1) as usize, k) <= v + 1 by {
                lemma_nodes_with_degree_bounded(edges, (v + 1) as usize, k);
            }
        }
        v += 1;
    }
    counts
}

} // verus!
