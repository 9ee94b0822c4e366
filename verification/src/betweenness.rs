//! The traversal behind betweenness centrality: from one source, the
//! breadth-first order of the nodes it reaches, their hop distances, and for
//! each node its predecessors on shortest paths. Path counts and dependencies
//! are sums of quotients, which a caller accumulates over this structure.

use vstd::prelude::*;
use crate::adjacency::{count_in, lemma_contains_concat, lemma_count_in_positive, lemma_neighbors_below, lemma_neighbors_joined, neighbors_of};
use crate::paths::{connected, is_hop_distance, is_walk, joined, lemma_distinct_bounded, lemma_reaches_itself, lemma_reaches_next, reaches_in, walk_between};
use crate::store::GraphStore;

verus! {

/// Node `v` has been given a distance.
pub open spec fn visited(dist: Seq<Option<usize>>, v: usize) -> bool {
    v < dist.len() && dist[v as int] is Some
}

/// The distance given to a visited node.
pub open spec fn hops(dist: Seq<Option<usize>>, v: usize) -> nat {
    dist[v as int].unwrap() as nat
}

/// `order` and `dist` are the outcome of a breadth-first traversal from
/// `source`: `dist` holds the hop distance of every node that `source`
/// reaches and `None` for the others, and `order` lists the reached nodes,
/// each once, the source first, nearer nodes before farther ones.
pub open spec fn explored(
    edges: Seq<(usize, usize)>,
    n: nat,
    source: usize,
    order: Seq<usize>,
    dist: Seq<Option<usize>>,
) -> bool {
    &&& dist.len() == n
    &&& forall|v: usize|
        v < n ==> match #[trigger] dist[v as int] {
            Some(d) => is_hop_distance(edges, source, v, d as nat),
            None => !connected(edges, source, v),
        }
    &&& order.len() > 0 && order[0] == source
    &&& order.no_duplicates()
    &&& forall|i: int| 0 <= i < order.len() ==> visited(dist, #[trigger] order[i])
    &&& forall|v: usize| #[trigger] visited(dist, v) ==> order.contains(v)
    &&& forall|i: int, j: int|
        0 <= i <= j < order.len() ==> hops(dist, #[trigger] order[i]) <= hops(
            dist,
            #[trigger] order[j],
        )
}

/// `order`, followed by the entries of `adj` that are not yet in it, each
/// once, in the order in which `adj` holds them.
pub open spec fn absorbed(order: Seq<usize>, adj: Seq<usize>) -> Seq<usize>
    decreases adj.len(),
{
    if adj.len() == 0 {
        order
    } else if absorbed(order, adj.drop_last()).contains(adj.last()) {
        absorbed(order, adj.drop_last())
    } else {
        absorbed(order, adj.drop_last()).push(adj.last())
    }
}

/// The order of visit that results from `order` when the nodes from place
/// `head` on take in their neighbors, one node after the other.
pub open spec fn visit_from(edges: Seq<(usize, usize)>, order: Seq<usize>, head: nat, n: nat) -> Seq<
    usize,
>
    decreases n - head,
{
    if head < order.len() && head < n {
        visit_from(edges, absorbed(order, neighbors_of(edges, order[head as int])), head + 1, n)
    } else {
        order
    }
}

/// The breadth-first order of visit from `source`: the source, then the new
/// neighbors of each visited node in turn, as its neighbor list holds them.
pub open spec fn visit_order(edges: Seq<(usize, usize)>, n: nat, source: usize) -> Seq<usize> {
    visit_from(edges, seq![source], 0, n)
}

/// `w` is one hop farther from the source than `v`.
pub open spec fn one_closer(dist: Seq<Option<usize>>, v: usize, w: usize) -> bool {
    visited(dist, v) && visited(dist, w) && hops(dist, w) == hops(dist, v) + 1
}

/// `v`, `times` times over.
pub open spec fn repeated(v: usize, times: nat) -> Seq<usize> {
    Seq::new(times, |i: int| v)
}

/// What `v` adds to the predecessors of `w`, having met the neighbors
/// `seen`: itself once for each time `w` is among them, if `w` is one hop
/// farther out than `v`.
pub open spec fn links(dist: Seq<Option<usize>>, v: usize, w: usize, seen: Seq<usize>) -> Seq<usize> {
    if one_closer(dist, v, w) {
        repeated(v, count_in(seen, w))
    } else {
        Seq::empty()
    }
}

/// The predecessors of `w` on shortest paths from the source: the nodes of
/// `order`, in that order, that are one hop nearer than `w` and joined to
/// it, each listed once per edge that joins them.
pub open spec fn feeders(
    order: Seq<usize>,
    edges: Seq<(usize, usize)>,
    dist: Seq<Option<usize>>,
    w: usize,
) -> Seq<usize>
    decreases order.len(),
{
    if order.len() == 0 {
        Seq::empty()
    } else {
        feeders(order.drop_last(), edges, dist, w) + links(
            dist,
            order.last(),
            w,
            neighbors_of(edges, order.last()),
        )
    }
}

/// Every neighbor of `u` has a distance, at most one more than that of `u`.
spec fn settled(edges: Seq<(usize, usize)>, dist: Seq<Option<usize>>, u: usize) -> bool {
    forall|w: usize| #[trigger]
        joined(edges, u, w) ==> w < dist.len() && dist[w as int] is Some && hops(dist, w) <= hops(
            dist,
            u,
        ) + 1
}

/// No node of `order` is more than one hop farther out than `dv`.
spec fn within(order: Seq<usize>, dist: Seq<Option<usize>>, dv: nat) -> bool {
    forall|i: int| 0 <= i < order.len() ==> hops(dist, #[trigger] order[i]) <= dv + 1
}

/// The state of a traversal that has scanned the neighbors of the first
/// `head` nodes of `order`.
spec fn scanning(
    edges: Seq<(usize, usize)>,
    n: nat,
    source: usize,
    order: Seq<usize>,
    dist: Seq<Option<usize>>,
    head: int,
) -> bool {
    &&& dist.len() == n
    &&& 0 <= head <= order.len() <= n
    &&& order.len() > 0 && order[0] == source
    &&& order.no_duplicates()
    &&& forall|i: int|
        0 <= i < order.len() ==> (#[trigger] order[i]) < n && dist[order[i] as int] is Some && hops(
            dist,
            order[i],
        ) <= i
    &&& forall|v: usize| #[trigger]
        visited(dist, v) ==> order.contains(v) && reaches_in(edges, source, v, hops(dist, v))
    &&& forall|i: int, j: int|
        0 <= i <= j < order.len() ==> hops(dist, #[trigger] order[i]) <= hops(
            dist,
            #[trigger] order[j],
        )
    &&& forall|i: int| 0 <= i < head ==> settled(edges, dist, #[trigger] order[i])
}

/// Discovering a new neighbor `x` of the node under scan keeps the state of
/// the traversal in order.
proof fn lemma_discover(
    edges: Seq<(usize, usize)>,
    n: nat,
    source: usize,
    order: Seq<usize>,
    dist: Seq<Option<usize>>,
    head: int,
    x: usize,
)
    requires
        n <= usize::MAX,
        scanning(edges, n, source, order, dist, head),
        head < order.len(),
        within(order, dist, hops(dist, order[head])),
        joined(edges, order[head], x),
        x < n,
        dist[x as int] is None,
    ensures
        hops(dist, order[head]) + 1 <= order.len() < n,
        scanning(
            edges,
            n,
            source,
            order.push(x),
            dist.update(x as int, Some((hops(dist, order[head]) + 1) as usize)),
            head,
        ),
        within(
            order.push(x),
            dist.update(x as int, Some((hops(dist, order[head]) + 1) as usize)),
            hops(dist, order[head]),
        ),
{
    let v = order[head];
    let dv = hops(dist, v);
    let far = (dv + 1) as usize;
    let order2 = order.push(x);
    let dist2 = dist.update(x as int, Some(far));
    assert(dv <= head);
    if order.contains(x) {
        let i = choose|i: int| 0 <= i < order.len() && order[i] == x;
        assert(dist[order[i] as int] is Some);
    }
    assert forall|i: int, j: int|
        0 <= i < order2.len() && 0 <= j < order2.len() && i != j implies order2[i] != order2[j] by {
        if i < order.len() && j < order.len() {
        } else if i < order.len() {
            assert(order.contains(order[i]));
        } else {
            assert(order.contains(order[j]));
        }
    }
    assert forall|i: int| 0 <= i < order2.len() implies (#[trigger] order2[i]) < n by {
        if i < order.len() {
            assert(order2[i] == order[i]);
        }
    }
    lemma_distinct_bounded(order2, n);
    assert forall|i: int| 0 <= i < order2.len() implies (#[trigger] order2[i]) < n
        && dist2[order2[i] as int] is Some && hops(dist2, order2[i]) <= i by {
        if i < order.len() {
            assert(order2[i] == order[i]);
            assert(order.contains(order[i]));
        }
    }
    assert(visited(dist, v));
    assert forall|u: usize| #[trigger] visited(dist2, u) implies order2.contains(u) && reaches_in(
        edges,
        source,
        u,
        hops(dist2, u),
    ) by {
        if u == x {
            assert(order2[order.len() as int] == x);
            lemma_reaches_next(edges, source, v, x, dv);
        } else {
            assert(visited(dist, u));
            let k = choose|k: int| 0 <= k < order.len() && order[k] == u;
            assert(order2[k] == u);
        }
    }
    assert forall|i: int, j: int| 0 <= i <= j < order2.len() implies hops(
        dist2,
        #[trigger] order2[i],
    ) <= hops(dist2, #[trigger] order2[j]) by {
        if i < order.len() {
            assert(order2[i] == order[i]);
            assert(order.contains(order[i]));
        }
        if j < order.len() {
            assert(order2[j] == order[j]);
            assert(order.contains(order[j]));
        }
    }
    assert forall|i: int| 0 <= i < head implies settled(edges, dist2, #[trigger] order2[i]) by {
        assert(order2[i] == order[i]);
        assert(order.contains(order[i]));
        assert(settled(edges, dist, order[i]));
    }
    assert forall|i: int| 0 <= i < order2.len() implies hops(dist2, #[trigger] order2[i]) <= dv
        + 1 by {
        if i < order.len() {
            assert(order2[i] == order[i]);
            assert(order.contains(order[i]));
        }
    }
}

/// Along a walk from the source, a finished traversal has given every node a
/// distance that is at most its place in the walk.
proof fn lemma_walk_stays_close(
    edges: Seq<(usize, usize)>,
    source: usize,
    order: Seq<usize>,
    dist: Seq<Option<usize>>,
    walk: Seq<usize>,
    i: int,
)
    requires
        scanning(edges, dist.len(), source, order, dist, order.len() as int),
        is_walk(edges, walk),
        walk[0] == source,
        0 <= i < walk.len(),
    ensures
        visited(dist, walk[i]),
        hops(dist, walk[i]) <= i,
    decreases i,
{
    if i == 0 {
        assert(order[0] == source);
    } else {
        lemma_walk_stays_close(edges, source, order, dist, walk, i - 1);
        let u = walk[i - 1];
        assert(visited(dist, u));
        let k = choose|k: int| 0 <= k < order.len() && order[k] == u;
        assert(settled(edges, dist, order[k]));
        assert(joined(edges, walk[i - 1], walk[i - 1 + 1]));
    }
}

/// When every reached node has been scanned, the traversal is complete.
proof fn lemma_explored(
    edges: Seq<(usize, usize)>,
    source: usize,
    order: Seq<usize>,
    dist: Seq<Option<usize>>,
)
    requires
        scanning(edges, dist.len(), source, order, dist, order.len() as int),
    ensures
        explored(edges, dist.len(), source, order, dist),
        forall|v: usize| #[trigger] visited(dist, v) ==> hops(dist, v) < dist.len(),
{
    let n = dist.len();
    assert forall|v: usize| v < n implies match #[trigger] dist[v as int] {
        Some(d) => is_hop_distance(edges, source, v, d as nat),
        None => !connected(edges, source, v),
    } by {
        assert forall|k: nat| reaches_in(edges, source, v, k) implies visited(dist, v) && hops(
            dist,
            v,
        ) <= k by {
            let walk = choose|walk: Seq<usize>| #[trigger]
                walk_between(edges, walk, source, v) && walk.len() == k + 1;
            lemma_walk_stays_close(edges, source, order, dist, walk, k as int);
        }
        if dist[v as int] is Some {
            assert(visited(dist, v));
        }
    }
    assert forall|v: usize| #[trigger] visited(dist, v) implies hops(dist, v) < n by {
        let k = choose|k: int| 0 <= k < order.len() && order[k] == v;
        assert(hops(dist, order[k]) <= k);
    }
}

/// The breadth-first traversal from `source`: the order of visit and the
/// distances.
fn breadth_first(graph: &GraphStore, source: usize) -> (found: (Vec<usize>, Vec<Option<usize>>))
    requires
        graph.wf(),
        source < graph.node_total(),
    ensures
        explored(graph.edge_list(), graph.node_total(), source, found.0@, found.1@),
        found.0@ == visit_order(graph.edge_list(), graph.node_total(), source),
        forall|v: usize| #[trigger] visited(found.1@, v) ==> hops(found.1@, v) < found.1@.len(),
{
    let n = graph.node_count();
    let ghost edges = graph.edge_list();
    let mut dist: Vec<Option<usize>> = Vec::new();
    let mut k: usize = 0;
    while k < n
        invariant
            k <= n,
            dist.len() == k,
            forall|i: int| 0 <= i < k ==> dist@[i] is None,
        decreases n - k,
    {
        dist.push(None);
        k += 1;
    }
    dist.set(source, Some(0));
    let mut order: Vec<usize> = Vec::new();
    order.push(source);
    proof {
        lemma_reaches_itself(edges, source);
        assert forall|v: usize| #[trigger] visited(dist@, v) implies order@.contains(v)
            && reaches_in(edges, source, v, hops(dist@, v)) by {
            assert(v == source);
            assert(order@[0] == source);
        }
    }
    let mut head: usize = 0;
    while head < order.len()
        invariant
            graph.wf(),
            n == graph.node_total(),
            edges == graph.edge_list(),
            scanning(edges, n as nat, source, order@, dist@, head as int),
            head < order.len() ==> within(order@, dist@, hops(dist@, order@[head as int])),
            visit_from(edges, order@, head as nat, n as nat) == visit_order(
                edges,
                n as nat,
                source,
            ),
        decreases n - head,
    {
        let v = order[head];
        let dv: usize = match dist[v] {
            Some(d) => d,
            None => 0,
        };
        let adj = graph.neighbors(v);
        let ghost start = order@;
        proof {
            lemma_neighbors_below(edges, n as nat, v);
            assert(adj@.take(0) =~= Seq::<usize>::empty());
        }
        let mut j: usize = 0;
        while j < adj.len()
            invariant
                n == graph.node_total(),
                edges == graph.edge_list(),
                adj@ == neighbors_of(edges, v),
                forall|p: int| 0 <= p < adj.len() ==> (#[trigger] adj@[p]) < n,
                order@ == absorbed(start, adj@.take(j as int)),
                head < order.len(),
                order@[head as int] == v,
                dist@[v as int] == Some(dv),
                scanning(edges, n as nat, source, order@, dist@, head as int),
                within(order@, dist@, dv as nat),
                j <= adj.len(),
                forall|p: int|
                    0 <= p < j ==> dist@[(#[trigger] adj@[p]) as int] is Some && hops(
                        dist@,
                        adj@[p],
                    ) <= dv + 1,
            decreases adj.len() - j,
        {
            let x = adj[j];
            proof {
                assert(adj@.contains(x));
                lemma_neighbors_joined(edges, v, x);
                assert(adj@.take(j + 1).drop_last() =~= adj@.take(j as int));
                assert(adj@.take(j + 1).last() == x);
                if order@.contains(x) {
                    let k = choose|k: int| 0 <= k < order@.len() && order@[k] == x;
                    assert(dist@[order@[k] as int] is Some);
                }
                if dist@[x as int] is Some {
                    assert(visited(dist@, x));
                }
            }
            match dist[x] {
                None => {
                    proof {
                        lemma_discover(edges, n as nat, source, order@, dist@, head as int, x);
                    }
                    dist.set(x, Some(dv + 1));
                    order.push(x);
                },
                Some(_) => {
                    proof {
                        assert(visited(dist@, x));
                        let k = choose|k: int| 0 <= k < order@.len() && order@[k] == x;
                        assert(hops(dist@, order@[k]) <= dv + 1);
                    }
                },
            }
            j += 1;
        }
        proof {
            assert(adj@.take(j as int) =~= adj@);
            assert(start[head as int] == v);
            assert forall|w: usize| #[trigger] joined(edges, v, w) implies w < dist@.len()
                && dist@[w as int] is Some && hops(dist@, w) <= hops(dist@, v) + 1 by {
                lemma_neighbors_joined(edges, v, w);
                let p = choose|p: int| 0 <= p < adj@.len() && adj@[p] == w;
                assert(dist@[adj@[p] as int] is Some);
            }
            assert(settled(edges, dist@, order@[head as int]));
            if head + 1 < order.len() {
                assert forall|i: int| 0 <= i < order@.len() implies hops(
                    dist@,
                    #[trigger] order@[i],
                ) <= hops(dist@, order@[head + 1]) + 1 by {
                    assert(hops(dist@, order@[head as int]) <= hops(dist@, order@[head + 1]));
                }
            }
        }
        head += 1;
    }
    proof {
        lemma_explored(edges, source, order@, dist@);
    }
    (order, dist)
}

/// For every node, its predecessors on shortest paths, given the order of
/// visit and the distances of a traversal.
fn predecessors(graph: &GraphStore, order: &Vec<usize>, dist: &Vec<Option<usize>>) -> (preds: Vec<
    Vec<usize>,
>)
    requires
        graph.wf(),
        dist.len() == graph.node_total(),
        forall|i: int| 0 <= i < order.len() ==> visited(dist@, #[trigger] order@[i]),
        forall|v: usize| #[trigger] visited(dist@, v) ==> hops(dist@, v) < dist@.len(),
    ensures
        preds.len() == dist.len(),
        forall|w: usize|
            w < dist.len() ==> (#[trigger] preds@[w as int])@ == feeders(
                order@,
                graph.edge_list(),
                dist@,
                w,
            ),
{
    let n = dist.len();
    let ghost edges = graph.edge_list();
    let mut preds: Vec<Vec<usize>> = Vec::new();
    let mut k: usize = 0;
    while k < n
        invariant
            k <= n,
            preds.len() == k,
            forall|i: int| 0 <= i < k ==> (#[trigger] preds@[i])@ == Seq::<usize>::empty(),
        decreases n - k,
    {
        preds.push(Vec::new());
        k += 1;
    }
    let mut i: usize = 0;
    while i < order.len()
        invariant
            graph.wf(),
            n == dist.len(),
            n == graph.node_total(),
            edges == graph.edge_list(),
            preds.len() == n,
            i <= order.len(),
            forall|i: int| 0 <= i < order.len() ==> visited(dist@, #[trigger] order@[i]),
            forall|v: usize| #[trigger] visited(dist@, v) ==> hops(dist@, v) < dist@.len(),
            forall|w: usize|
                w < n ==> (#[trigger] preds@[w as int])@ == feeders(
                    order@.take(i as int),
                    edges,
                    dist@,
                    w,
                ),
        decreases order.len() - i,
    {
        let v = order[i];
        proof {
            assert(visited(dist@, order@[i as int]));
        }
        let dv: usize = match dist[v] {
            Some(d) => d,
            None => 0,
        };
        let adj = graph.neighbors(v);
        proof {
            lemma_neighbors_below(edges, n as nat, v);
            assert(adj@.take(0) =~= Seq::<usize>::empty());
            assert forall|w: usize| w < n implies (#[trigger] preds@[w as int])@ == feeders(
                order@.take(i as int),
                edges,
                dist@,
                w,
            ) + links(dist@, v, w, adj@.take(0)) by {
                assert(links(dist@, v, w, adj@.take(0)) =~= Seq::<usize>::empty());
            }
        }
        let mut j: usize = 0;
        while j < adj.len()
            invariant
                n == dist.len(),
                preds.len() == n,
                j <= adj.len(),
                v < n,
                dist@[v as int] == Some(dv),
                dv < n,
                adj@ == neighbors_of(edges, v),
                forall|p: int| 0 <= p < adj.len() ==> (#[trigger] adj@[p]) < n,
                forall|w: usize|
                    w < n ==> (#[trigger] preds@[w as int])@ == feeders(
                        order@.take(i as int),
                        edges,
                        dist@,
                        w,
                    ) + links(dist@, v, w, adj@.take(j as int)),
            decreases adj.len() - j,
        {
            let x = adj[j];
            let ghost before = preds@;
            let feeds = match dist[x] {
                Some(dx) => dx == dv + 1,
                None => false,
            };
            if feeds {
                preds[x].push(v);
            }
            proof {
                assert(adj@.take(j + 1).drop_last() =~= adj@.take(j as int));
                assert(adj@.take(j + 1).last() == x);
                assert forall|w: usize| w < n implies (#[trigger] preds@[w as int])@ == feeders(
                    order@.take(i as int),
                    edges,
                    dist@,
                    w,
                ) + links(dist@, v, w, adj@.take(j + 1)) by {
                    let had = count_in(adj@.take(j as int), w);
                    if w == x {
                        assert(feeds == one_closer(dist@, v, w));
                        if feeds {
                            assert(preds@[w as int]@ == before[w as int]@.push(v));
                            assert(repeated(v, had + 1) =~= repeated(v, had).push(v));
                        }
                    } else {
                        assert(preds@[w as int] == before[w as int]);
                    }
                }
            }
            j += 1;
        }
        proof {
            assert(adj@.take(j as int) =~= adj@);
            assert(order@.take(i + 1).drop_last() =~= order@.take(i as int));
            assert(order@.take(i + 1).last() == v);
        }
        i += 1;
    }
    proof {
        assert(order@.take(i as int) =~= order@);
    }
    preds
}

/// What a breadth-first traversal from one source finds.
pub struct ShortestPaths {
    /// The node the traversal started from.
    pub source: usize,
    /// The nodes reached, in the order of visit. Read from the back, this is
    /// the order in which dependencies are accumulated.
    pub order: Vec<usize>,
    /// For every node its hop distance from the source, `None` where the
    /// source does not reach it.
    pub distance: Vec<Option<usize>>,
    /// For every node its predecessors on shortest paths from the source.
    pub predecessors: Vec<Vec<usize>>,
}

impl ShortestPaths {
    /// This is the traversal of the graph with these `edges` and `n` nodes
    /// from `source`.
    pub open spec fn describes(&self, edges: Seq<(usize, usize)>, n: nat, source: usize) -> bool {
        &&& self.source == source
        &&& explored(edges, n, source, self.order@, self.distance@)
        &&& self.order@ == visit_order(edges, n, source)
        &&& self.predecessors@.len() == n
        &&& forall|w: usize|
            w < n ==> (#[trigger] self.predecessors@[w as int])@ == feeders(
                self.order@,
                edges,
                self.distance@,
                w,
            )
    }
}

/// Traverses the graph breadth-first from `source` and records, for every
/// node, its distance and its predecessors on shortest paths.
pub fn shortest_paths_from(graph: &GraphStore, source: usize) -> (paths: ShortestPaths)
    requires
        graph.wf(),
        source < graph.node_total(),
    ensures
        paths.describes(graph.edge_list(), graph.node_total(), source),
{
    let (order, distance) = breadth_first(graph, source);
    let predecessors = predecessors(graph, &order, &distance);
    ShortestPaths { source, order, distance, predecessors }
}

/// A traversal is a function of the graph and the source: two that describe
/// the same traversal hold the same order, distances and predecessors.
pub proof fn lemma_traversal_unique(
    edges: Seq<(usize, usize)>,
    n: nat,
    source: usize,
    a: ShortestPaths,
    b: ShortestPaths,
)
    requires
        a.describes(edges, n, source),
        b.describes(edges, n, source),
    ensures
        a.order@ == b.order@,
        a.distance@ == b.distance@,
        forall|w: usize| w < n ==> (#[trigger] a.predecessors@[w as int])@ == b.predecessors@[w as int]@,
{
    assert(a.distance.len() == n);
    assert forall|v: int| 0 <= v < n implies a.distance@[v] == b.distance@[v] by {
        let t = v as usize;
        match (a.distance@[t as int], b.distance@[t as int]) {
            (Some(d), Some(e)) => {
                crate::paths::lemma_hop_distance_unique(edges, source, t, d as nat, e as nat);
            },
            (Some(d), None) => {
                assert(reaches_in(edges, source, t, d as nat));
            },
            (None, Some(e)) => {
                assert(reaches_in(edges, source, t, e as nat));
            },
            (None, None) => {},
        }
    }
    assert(a.distance@ =~= b.distance@);
}

/// The predecessors of `w` are the visited nodes that are joined to `w` and
/// one hop nearer to the source.
pub proof fn lemma_predecessors_are_nearer_neighbors(
    order: Seq<usize>,
    edges: Seq<(usize, usize)>,
    dist: Seq<Option<usize>>,
    w: usize,
    v: usize,
)
    ensures
        feeders(order, edges, dist, w).contains(v) <==> (order.contains(v) && one_closer(
            dist,
            v,
            w,
        ) && joined(edges, v, w)),
    decreases order.len(),
{
    if order.len() > 0 {
        let rest = order.drop_last();
        let last = order.last();
        let added = links(dist, last, w, neighbors_of(edges, last));
        lemma_predecessors_are_nearer_neighbors(rest, edges, dist, w, v);
        lemma_contains_concat(feeders(rest, edges, dist, w), added, v);
        lemma_count_in_positive(neighbors_of(edges, last), w);
        lemma_neighbors_joined(edges, last, w);
        assert(added.contains(v) <==> (v == last && one_closer(dist, last, w) && joined(
            edges,
            last,
            w,
        ))) by {
            if one_closer(dist, last, w) && joined(edges, last, w) {
                assert(added[0] == last);
            }
        }
        assert(order.contains(v) <==> (rest.contains(v) || v == last)) by {
            if rest.contains(v) {
                let i = choose|i: int| 0 <= i < rest.len() && rest[i] == v;
                assert(order[i] == v);
            }
            if order.contains(v) && v != last {
                let i = choose|i: int| 0 <= i < order.len() && order[i] == v;
                assert(rest[i] == v);
            }
            if v == last {
                assert(order[order.len() - 1] == v);
            }
        }
    }
}

/// Every predecessor of a node is visited before the node, so that the
/// order of visit, read from the back, meets each node before any of its
/// predecessors.
pub proof fn lemma_predecessors_come_first(
    edges: Seq<(usize, usize)>,
    n: nat,
    source: usize,
    order: Seq<usize>,
    dist: Seq<Option<usize>>,
    i: int,
    j: int,
)
    requires
        explored(edges, n, source, order, dist),
        0 <= i < order.len(),
        0 <= j < order.len(),
        feeders(order, edges, dist, order[j]).contains(order[i]),
    ensures
        i < j,
{
    lemma_predecessors_are_nearer_neighbors(order, edges, dist, order[j], order[i]);
    if j <= i {
        assert(hops(dist, order[j]) <= hops(dist, order[i]));
    }
}

/// In a graph without edges no node has a predecessor, whatever the
/// traversal.
pub proof fn lemma_no_edges_no_predecessors(order: Seq<usize>, dist: Seq<Option<usize>>, w: usize)
    ensures
        feeders(order, Seq::<(usize, usize)>::empty(), dist, w) =~= Seq::<usize>::empty(),
    decreases order.len(),
{
    if order.len() > 0 {
        let none = Seq::<(usize, usize)>::empty();
        lemma_no_edges_no_predecessors(order.drop_last(), dist, w);
        crate::adjacency::lemma_neighbor_count(none, order.last());
        assert(neighbors_of(none, order.last()) =~= Seq::<usize>::empty());
    }
}

} // verus!
