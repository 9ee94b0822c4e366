//! The local clustering coefficient: the share of the pairs of a node's
//! neighbors that are themselves joined by an edge.

use std::collections::HashMap;
use vstd::prelude::*;
use crate::adjacency::{ends_at, lemma_ends_bounded, lemma_neighbor_count, lemma_neighbors_below, neighbors_of};
use crate::paths::joined;
use crate::ratio::Ratio;
use crate::store::GraphStore;

verus! {

broadcast use vstd::std_specs::hash::group_hash_axioms;

/// The number of places `j` with `i < j < upto` whose entry of `adj` is
/// joined to entry `i`.
pub open spec fn closed_from(edges: Seq<(usize, usize)>, adj: Seq<usize>, i: int, upto: int) -> nat
    decreases upto - i,
{
    if upto <= i + 1 {
        0
    } else {
        closed_from(edges, adj, i, upto - 1) + (if joined(edges, adj[i], adj[upto - 1]) {
            1nat
        } else {
            0nat
        })
    }
}

/// The number of pairs of places `i < j` of `adj`, with `i < rows`, whose
/// entries are joined by an edge.
pub open spec fn closed_pairs(edges: Seq<(usize, usize)>, adj: Seq<usize>, rows: int) -> nat
    decreases rows,
{
    if rows <= 0 {
        0
    } else {
        closed_pairs(edges, adj, rows - 1) + closed_from(edges, adj, rows - 1, adj.len() as int)
    }
}

/// The clustering coefficient of node `v`: of the `d * (d - 1) / 2` pairs of
/// entries of its neighbor list, the share whose two nodes are joined by an
/// edge; zero for a node of degree at most one.
pub open spec fn clustering(edges: Seq<(usize, usize)>, v: usize) -> Ratio {
    let adj = neighbors_of(edges, v);
    let d = adj.len();
    if d > 1 {
        Ratio { num: closed_pairs(edges, adj, d as int) as u64, den: (d * (d - 1) / 2) as u64 }
    } else {
        Ratio { num: 0, den: 1 }
    }
}

proof fn lemma_closed_from_bounded(edges: Seq<(usize, usize)>, adj: Seq<usize>, i: int, upto: int)
    requires
        0 <= i,
    ensures
        i < upto ==> closed_from(edges, adj, i, upto) <= upto - i - 1,
        i >= upto ==> closed_from(edges, adj, i, upto) == 0,
    decreases upto - i,
{
    if upto > i + 1 {
        lemma_closed_from_bounded(edges, adj, i, upto - 1);
    }
}

proof fn lemma_closed_pairs_bounded(edges: Seq<(usize, usize)>, adj: Seq<usize>, rows: int)
    requires
        0 <= rows <= adj.len(),
    ensures
        2 * closed_pairs(edges, adj, rows) <= rows * (2 * adj.len() - rows - 1),
    decreases rows,
{
    if rows > 0 {
        let d = adj.len() as int;
        lemma_closed_pairs_bounded(edges, adj, rows - 1);
        lemma_closed_from_bounded(edges, adj, rows - 1, d);
        assert((rows - 1) * (2 * d - (rows - 1) - 1) + 2 * (d - (rows - 1) - 1) == rows * (2 * d
            - rows - 1)) by (nonlinear_arith);
    } else {
        assert(rows * (2 * adj.len() - rows - 1) == 0) by (nonlinear_arith)
            requires
                rows == 0,
        ;
    }
}

/// A clustering coefficient lies between zero and one, and is zero for a
/// node of degree at most one.
pub proof fn lemma_clustering_within_unit(edges: Seq<(usize, usize)>, v: usize)
    requires
        edges.len() < 0x8000_0000,
    ensures
        clustering(edges, v).den > 0,
        clustering(edges, v).num <= clustering(edges, v).den,
        neighbors_of(edges, v).len() <= 1 ==> clustering(edges, v).num == 0,
{
    let adj = neighbors_of(edges, v);
    let d = adj.len() as int;
    lemma_neighbor_count(edges, v);
    lemma_ends_bounded(edges, v);
    if d > 1 {
        lemma_closed_pairs_bounded(edges, adj, d);
        let pairs = d * (d - 1);
        assert(2 <= pairs <= 0xffff_ffff * 0xffff_ffff) by (nonlinear_arith)
            requires
                2 <= d <= 0xffff_ffff,
                pairs == d * (d - 1),
        ;
        assert(d * (2 * d - d - 1) == pairs) by (nonlinear_arith)
            requires
                pairs == d * (d - 1),
        ;
    }
}

/// The coefficients are a function of the graph: two maps that meet the
/// contract of `compute_local_clustering` on one graph are equal.
pub proof fn lemma_clustering_unique(
    edges: Seq<(usize, usize)>,
    n: nat,
    a: Map<usize, Ratio>,
    b: Map<usize, Ratio>,
)
    requires
        forall|v: usize| #[trigger] a.contains_key(v) <==> v < n,
        forall|v: usize| v < n ==> #[trigger] a[v] == clustering(edges, v),
        forall|v: usize| #[trigger] b.contains_key(v) <==> v < n,
        forall|v: usize| v < n ==> #[trigger] b[v] == clustering(edges, v),
    ensures
        a == b,
{
    assert(a =~= b);
}

/// The clustering coefficient of every node, by node index.
pub fn compute_local_clustering(graph: &GraphStore) -> (result: HashMap<usize, Ratio>)
    requires
        graph.wf(),
    ensures
        forall|v: usize| #[trigger] result@.contains_key(v) <==> v < graph.node_total(),
        forall|v: usize|
            v < graph.node_total() ==> #[trigger] result@[v] == clustering(graph.edge_list(), v),
{
    let n = graph.node_count();
    let ghost edges = graph.edge_list();
    let mut result: HashMap<usize, Ratio> = HashMap::new();
    let mut v: usize = 0;
    while v < n
        invariant
            graph.wf(),
            n == graph.node_total(),
            edges == graph.edge_list(),
            v <= n,
            forall|u: usize| #[trigger] result@.contains_key(u) <==> u < v,
            forall|u: usize| u < v ==> #[trigger] result@[u] == clustering(edges, u),
        decreases n - v,
    {
        let adj = graph.neighbors(v);
        let d = adj.len();
        proof {
            lemma_neighbor_count(edges, v);
            lemma_ends_bounded(edges, v);
            lemma_neighbors_below(edges, n as nat, v);
        }
        if d > 1 {
            let mut closed: u64 = 0;
            let mut i: usize = 0;
            while i < d
                invariant
                    graph.wf(),
                    edges == graph.edge_list(),
                    adj@ == neighbors_of(edges, v),
                    d == adj.len(),
                    d <= 0xffff_ffff,
                    i <= d,
                    closed == closed_pairs(edges, adj@, i as int),
                    closed <= i * d,
                decreases d - i,
            {
                assert(i * d + d <= d * d && d * d <= 0xffff_ffff * 0xffff_ffff) by (nonlinear_arith)
                    requires
                        i < d,
                        d <= 0xffff_ffff,
                ;
                let mut j: usize = i + 1;
                while j < d
                    invariant
                        graph.wf(),
                        edges == graph.edge_list(),
                        d == adj.len(),
                        i < j <= d,
                        closed == closed_pairs(edges, adj@, i as int) + closed_from(
                            edges,
                            adj@,
                            i as int,
                            j as int,
                        ),
                        closed <= i * d + (j - i - 1),
                        i * d + d <= 0xffff_ffff * 0xffff_ffff,
                    decreases d - j,
                {
                    if graph.contains_edge(adj[i], adj[j]) {
                        closed = closed + 1;
                    }
                    j += 1;
                }
                assert((i + 1) * d == i * d + d) by (nonlinear_arith);
                i += 1;
            }
            let wide: u64 = d as u64;
            assert(wide * (wide - 1) <= 0xffff_ffff * 0xffff_ffff) by (nonlinear_arith)
                requires
                    1 < wide <= 0xffff_ffff,
            ;
            let possible: u64 = wide * (wide - 1) / 2;
            result.insert(v, Ratio { num: closed, den: possible });
        } else {
            result.insert(v, Ratio::zero());
        }
        v += 1;
    }
    result
}

} // verus!
