//! Closeness centrality: for each node, the number of other nodes over the
//! sum of its hop distances to the nodes it reaches.

use vstd::prelude::*;
use crate::paths::{connected, hop_distance, is_hop_distance, is_walk, joined, lemma_hop_distance_unique, lemma_reaches_itself, reaches_in, walk_between};
use crate::ranking::{is_ranking, lemma_ranking_unique, rank};
use crate::ratio::Ratio;
use crate::store::GraphStore;

verus! {

/// What node `t` adds to the distance sum of `s`: its hop distance, and
/// nothing if `s` does not reach it.
pub open spec fn reach_cost(edges: Seq<(usize, usize)>, s: usize, t: usize) -> nat {
    match hop_distance(edges, s, t) {
        Some(d) => d,
        None => 0,
    }
}

/// The sum of the hop distances from `s` to the nodes below `upto` that it
/// reaches.
pub open spec fn total_distance(edges: Seq<(usize, usize)>, s: usize, upto: usize) -> nat
    decreases upto,
{
    if upto == 0 {
        0
    } else {
        total_distance(edges, s, (upto - 1) as usize) + reach_cost(edges, s, (upto - 1) as usize)
    }
}

/// The closeness of node `s` in a graph of `n` nodes: `(n - 1) / total`,
/// where `total` is the sum of the distances to the nodes that `s` reaches,
/// and zero where that sum is zero. Nodes that `s` does not reach are left
/// out of the sum, and the numerator is not adjusted for them.
pub open spec fn closeness(edges: Seq<(usize, usize)>, n: usize, s: usize) -> Ratio {
    let total = total_distance(edges, s, n);
    if total > 0 {
        Ratio { num: (n - 1) as u64, den: total as u64 }
    } else {
        Ratio { num: 0, den: 1 }
    }
}

/// The closeness of every node, by node index.
pub open spec fn closeness_scores(edges: Seq<(usize, usize)>, n: usize) -> Seq<Ratio> {
    Seq::new(n as nat, |s: int| closeness(edges, n, s as usize))
}

/// The hop distance is the one number that is a hop distance.
pub proof fn lemma_hop_distance_is(edges: Seq<(usize, usize)>, s: usize, t: usize, d: nat)
    requires
        is_hop_distance(edges, s, t, d),
    ensures
        hop_distance(edges, s, t) == Some(d),
{
    assert(connected(edges, s, t));
    let c = choose|c: nat| is_hop_distance(edges, s, t, c);
    lemma_hop_distance_unique(edges, s, t, c, d);
}

/// No edge joins `s` to another node.
pub open spec fn isolated(edges: Seq<(usize, usize)>, s: usize) -> bool {
    forall|t: usize| #[trigger] joined(edges, s, t) ==> t == s
}

proof fn lemma_walk_stays(edges: Seq<(usize, usize)>, s: usize, walk: Seq<usize>, i: int)
    requires
        isolated(edges, s),
        is_walk(edges, walk),
        walk[0] == s,
        0 <= i < walk.len(),
    ensures
        walk[i] == s,
    decreases i,
{
    if i > 0 {
        lemma_walk_stays(edges, s, walk, i - 1);
        assert(joined(edges, walk[i - 1], walk[i - 1 + 1]));
    }
}

proof fn lemma_isolated_total(edges: Seq<(usize, usize)>, s: usize, upto: usize)
    requires
        isolated(edges, s),
    ensures
        total_distance(edges, s, upto) == 0,
    decreases upto,
{
    if upto > 0 {
        let t = (upto - 1) as usize;
        lemma_isolated_total(edges, s, t);
        if connected(edges, s, t) {
            let k = choose|k: nat| reaches_in(edges, s, t, k);
            let walk = choose|walk: Seq<usize>| #[trigger]
                walk_between(edges, walk, s, t) && walk.len() == k + 1;
            lemma_walk_stays(edges, s, walk, k as int);
            lemma_reaches_itself(edges, s);
            lemma_hop_distance_is(edges, s, s, 0);
        }
    }
}

/// An isolated node has closeness zero.
pub proof fn lemma_isolated_scores_zero(edges: Seq<(usize, usize)>, n: usize, s: usize)
    requires
        isolated(edges, s),
    ensures
        closeness(edges, n, s) == (Ratio { num: 0, den: 1 }),
{
    lemma_isolated_total(edges, s, n);
}

/// The closeness ranking is a function of the graph: two rankings that meet
/// the contract of `compute_closeness_centrality` on one graph are equal.
pub proof fn lemma_closeness_unique(
    edges: Seq<(usize, usize)>,
    n: usize,
    a: Seq<(usize, Ratio)>,
    b: Seq<(usize, Ratio)>,
)
    requires
        is_ranking(closeness_scores(edges, n), a),
        is_ranking(closeness_scores(edges, n), b),
    ensures
        a == b,
{
    lemma_ranking_unique(closeness_scores(edges, n), a, b);
}

/// The closeness of every node, ranked from the highest score down; nodes of
/// equal score stand in the order of their indices.
pub fn compute_closeness_centrality(graph: &GraphStore) -> (ranking: Vec<(usize, Ratio)>)
    requires
        graph.wf(),
    ensures
        is_ranking(closeness_scores(graph.edge_list(), graph.node_total() as usize), ranking@),
{
    let n = graph.node_count();
    let ghost edges = graph.edge_list();
    let mut scores: Vec<Ratio> = Vec::new();
    let mut s: usize = 0;
    while s < n
        invariant
            graph.wf(),
            n == graph.node_total(),
            edges == graph.edge_list(),
            s <= n,
            scores.len() == s,
            forall|i: int|
                0 <= i < s ==> (#[trigger] scores@[i]) == closeness(edges, n, i as usize)
                    && scores@[i].wf(),
        decreases n - s,
    {
        let lengths = graph.distances_from(s);
        let mut total: u64 = 0;
        let mut t: usize = 0;
        while t < n
            invariant
                n == graph.node_total(),
                n < u32::MAX,
                edges == graph.edge_list(),
                t <= n,
                lengths@.len() == n,
                forall|t: usize|
                    t < n ==> match #[trigger] lengths@[t as int] {
                        Some(d) => d < n && is_hop_distance(edges, s, t, d as nat),
                        None => !connected(edges, s, t),
                    },
                total == total_distance(edges, s, t),
                total <= t * n,
            decreases n - t,
        {
            assert(t * n + n <= n * n && n * n <= 0xffff_ffff * 0xffff_ffff) by (nonlinear_arith)
                requires
                    t < n,
                    n < 0xffff_ffff,
            ;
            match lengths[t] {
                Some(d) => {
                    proof {
                        lemma_hop_distance_is(edges, s, t, d as nat);
                    }
                    total = total + d as u64;
                },
                None => {},
            }
            assert((t + 1) * n == t * n + n) by (nonlinear_arith);
            t += 1;
        }
        let score = if total > 0 {
            Ratio { num: (n - 1) as u64, den: total }
        } else {
            Ratio::zero()
        };
        scores.push(score);
        s += 1;
    }
    proof {
        assert(scores@ =~= closeness_scores(edges, n));
    }
    rank(&scores)
}

} // verus!
