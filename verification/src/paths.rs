//! Walks and hop distances over a list of undirected edges.

use vstd::prelude::*;

verus! {

/// Some edge of the list was added from `a` to `b`.
pub open spec fn has_edge(edges: Seq<(usize, usize)>, a: usize, b: usize) -> bool {
    exists|i: int| #![trigger edges[i]] 0 <= i < edges.len() && edges[i] == (a, b)
}

/// Some edge of the list joins `a` and `b`, in either orientation.
pub open spec fn joined(edges: Seq<(usize, usize)>, a: usize, b: usize) -> bool {
    has_edge(edges, a, b) || has_edge(edges, b, a)
}

/// Every endpoint of every edge is a node index below `n`.
pub open spec fn endpoints_below(edges: Seq<(usize, usize)>, n: nat) -> bool {
    forall|i: int| 0 <= i < edges.len() ==> (#[trigger] edges[i]).0 < n && edges[i].1 < n
}

/// `w` is a non-empty sequence of nodes in which each is joined to the next.
pub open spec fn is_walk(edges: Seq<(usize, usize)>, w: Seq<usize>) -> bool {
    w.len() > 0 && forall|i: int|
        0 <= i < w.len() - 1 ==> joined(edges, #[trigger] w[i], w[i + 1])
}

/// `w` is a walk that starts at `s` and ends at `t`.
pub open spec fn walk_between(edges: Seq<(usize, usize)>, w: Seq<usize>, s: usize, t: usize) -> bool {
    is_walk(edges, w) && w[0] == s && w.last() == t
}

/// Some walk of exactly `steps` edges leads from `s` to `t`.
pub open spec fn reaches_in(edges: Seq<(usize, usize)>, s: usize, t: usize, steps: nat) -> bool {
    exists|w: Seq<usize>| #[trigger] walk_between(edges, w, s, t) && w.len() == steps + 1
}

/// Some walk leads from `s` to `t`.
pub open spec fn connected(edges: Seq<(usize, usize)>, s: usize, t: usize) -> bool {
    exists|k: nat| reaches_in(edges, s, t, k)
}

/// `d` is the number of edges of a shortest walk from `s` to `t`.
pub open spec fn is_hop_distance(edges: Seq<(usize, usize)>, s: usize, t: usize, d: nat) -> bool {
    reaches_in(edges, s, t, d) && forall|k: nat| k < d ==> !reaches_in(edges, s, t, k)
}

/// The hop distance from `s` to `t`, or `None` where no walk joins them.
pub open spec fn hop_distance(edges: Seq<(usize, usize)>, s: usize, t: usize) -> Option<nat> {
    if connected(edges, s, t) {
        Some(choose|d: nat| is_hop_distance(edges, s, t, d))
    } else {
        None
    }
}

/// An edge is in a list if it is the last one or is in the list before it.
pub proof fn lemma_has_edge_step(edges: Seq<(usize, usize)>, a: usize, b: usize)
    requires
        edges.len() > 0,
    ensures
        has_edge(edges, a, b) <==> (has_edge(edges.drop_last(), a, b) || edges.last() == (a, b)),
{
    let rest = edges.drop_last();
    if has_edge(edges, a, b) {
        let i = choose|i: int| #![trigger edges[i]] 0 <= i < edges.len() && edges[i] == (a, b);
        if i < edges.len() - 1 {
            assert(rest[i] == (a, b));
        }
    }
    if has_edge(rest, a, b) {
        let i = choose|i: int| #![trigger rest[i]] 0 <= i < rest.len() && rest[i] == (a, b);
        assert(edges[i] == (a, b));
    }
    if edges.last() == (a, b) {
        assert(edges[edges.len() - 1] == (a, b));
    }
}

/// Nodes that an edge joins are nodes of the graph.
pub proof fn lemma_joined_below(edges: Seq<(usize, usize)>, n: nat, a: usize, b: usize)
    requires
        endpoints_below(edges, n),
        joined(edges, a, b),
    ensures
        a < n,
        b < n,
{
    if has_edge(edges, a, b) {
        let i = choose|i: int| #![trigger edges[i]] 0 <= i < edges.len() && edges[i] == (a, b);
        assert(edges[i].0 < n);
    } else {
        let i = choose|i: int| #![trigger edges[i]] 0 <= i < edges.len() && edges[i] == (b, a);
        assert(edges[i].0 < n);
    }
}

/// Every node reaches itself in no step.
pub proof fn lemma_reaches_itself(edges: Seq<(usize, usize)>, s: usize)
    ensures
        reaches_in(edges, s, s, 0),
{
    assert(walk_between(edges, seq![s], s, s));
}

/// A walk can be continued along an edge.
pub proof fn lemma_reaches_next(edges: Seq<(usize, usize)>, s: usize, v: usize, w: usize, d: nat)
    requires
        reaches_in(edges, s, v, d),
        joined(edges, v, w),
    ensures
        reaches_in(edges, s, w, d + 1),
{
    let walk = choose|walk: Seq<usize>| #[trigger]
        walk_between(edges, walk, s, v) && walk.len() == d + 1;
    let longer = walk.push(w);
    assert forall|i: int| 0 <= i < longer.len() - 1 implies joined(
        edges,
        #[trigger] longer[i],
        longer[i + 1],
    ) by {
        if i < walk.len() - 1 {
            assert(joined(edges, walk[i], walk[i + 1]));
        }
    }
    assert(walk_between(edges, longer, s, w));
}

/// Distinct numbers below `n` are at most `n` in number.
pub proof fn lemma_distinct_bounded(s: Seq<usize>, n: nat)
    requires
        s.no_duplicates(),
        forall|i: int| 0 <= i < s.len() ==> (#[trigger] s[i]) < n,
    ensures
        s.len() <= n,
    decreases n,
{
    if s.len() == 0 {
    } else if n == 0 {
        assert(s[0] < n);
    } else if exists|p: int| 0 <= p < s.len() && #[trigger] s[p] == n - 1 {
        let p = choose|p: int| 0 <= p < s.len() && #[trigger] s[p] == n - 1;
        let t = Seq::new((s.len() - 1) as nat, |j: int| if j < p { s[j] } else { s[j + 1] });
        assert forall|i: int| 0 <= i < t.len() implies (#[trigger] t[i]) < n - 1 by {
            if i < p {
                assert(s[i] != s[p]);
            } else {
                assert(s[i + 1] != s[p]);
            }
        }
        assert forall|i: int, j: int| 0 <= i < t.len() && 0 <= j < t.len() && i != j implies t[i]
            != t[j] by {
            let i2 = if i < p { i } else { i + 1 };
            let j2 = if j < p { j } else { j + 1 };
            assert(s[i2] != s[j2]);
        }
        lemma_distinct_bounded(t, (n - 1) as nat);
    } else {
        assert forall|i: int| 0 <= i < s.len() implies (#[trigger] s[i]) < n - 1 by {
            assert(s[i] < n);
        }
        lemma_distinct_bounded(s, (n - 1) as nat);
    }
}

/// A shortest walk between two nodes of a graph with `n` nodes has fewer than
/// `n` edges: a longer one would pass some node twice and could be cut short.
pub proof fn lemma_hop_distance_below(edges: Seq<(usize, usize)>, n: nat, s: usize, t: usize, d: nat)
    requires
        endpoints_below(edges, n),
        s < n,
        is_hop_distance(edges, s, t, d),
    ensures
        d < n,
{
    let w = choose|w: Seq<usize>| #[trigger] walk_between(edges, w, s, t) && w.len() == d + 1;
    assert forall|i: int| 0 <= i < w.len() implies (#[trigger] w[i]) < n by {
        if i > 0 {
            assert(joined(edges, w[i - 1], w[i - 1 + 1]));
            lemma_joined_below(edges, n, w[i - 1], w[i]);
        }
    }
    if d >= n {
        if w.no_duplicates() {
            lemma_distinct_bounded(w, n);
        } else {
            let (i, j) = choose|i: int, j: int|
                0 <= i < w.len() && 0 <= j < w.len() && i != j && w[i] == w[j];
            let (lo, hi) = if i < j { (i, j) } else { (j, i) };
            let cut = w.take(lo + 1) + w.skip(hi + 1);
            assert forall|k: int| 0 <= k < cut.len() - 1 implies joined(
                edges,
                #[trigger] cut[k],
                cut[k + 1],
            ) by {
                if k < lo {
                    assert(joined(edges, w[k], w[k + 1]));
                } else if k == lo {
                    assert(joined(edges, w[hi], w[hi + 1]));
                } else {
                    assert(joined(edges, w[k + (hi - lo)], w[k + (hi - lo) + 1]));
                }
            }
            assert(cut.last() == t) by {
                if hi + 1 < w.len() {
                    assert(cut[cut.len() - 1] == w[w.len() - 1]);
                }
            }
            assert(walk_between(edges, cut, s, t));
            assert(reaches_in(edges, s, t, (cut.len() - 1) as nat));
        }
    }
}

/// A pair of nodes has at most one hop distance.
pub proof fn lemma_hop_distance_unique(edges: Seq<(usize, usize)>, s: usize, t: usize, d: nat, e: nat)
    requires
        is_hop_distance(edges, s, t, d),
        is_hop_distance(edges, s, t, e),
    ensures
        d == e,
{
}

} // verus!
