//! The neighbor list of a node, read off the list of edges.

use vstd::prelude::*;
use crate::backing::{incoming, listed_neighbors, outgoing};
use crate::paths::{endpoints_below, has_edge, joined, lemma_has_edge_step};

verus! {

/// The number of self-loops at `a`.
pub open spec fn loops_at(edges: Seq<(usize, usize)>, a: usize) -> nat
    decreases edges.len(),
{
    if edges.len() == 0 {
        0
    } else if edges.last() == (a, a) {
        loops_at(edges.drop_last(), a) + 1
    } else {
        loops_at(edges.drop_last(), a)
    }
}

/// The neighbor list of `a`, one entry for each end of an edge at `a`: the
/// neighbors in the order in which the graph lists them (the far ends of the
/// edges added from `a`, newest first, then the near ends of those added
/// towards `a`, newest first), followed by one more entry of `a` for every
/// self-loop, which the graph lists once and which has both its ends at `a`.
pub open spec fn neighbors_of(edges: Seq<(usize, usize)>, a: usize) -> Seq<usize> {
    listed_neighbors(edges, a) + Seq::new(loops_at(edges, a), |i: int| a)
}

/// The number of edge ends at `a`: an edge counts once for each of its two
/// endpoints that is `a`.
pub open spec fn ends_at(edges: Seq<(usize, usize)>, a: usize) -> nat
    decreases edges.len(),
{
    if edges.len() == 0 {
        0
    } else {
        ends_at(edges.drop_last(), a) + (if edges.last().0 == a { 1nat } else { 0nat })
            + (if edges.last().1 == a { 1nat } else { 0nat })
    }
}

/// How often `a` occurs in `s`.
pub open spec fn count_in(s: Seq<usize>, a: usize) -> nat
    decreases s.len(),
{
    if s.len() == 0 {
        0
    } else if s.last() == a {
        count_in(s.drop_last(), a) + 1
    } else {
        count_in(s.drop_last(), a)
    }
}

pub proof fn lemma_count_in_concat(x: Seq<usize>, y: Seq<usize>, a: usize)
    ensures
        count_in(x + y, a) == count_in(x, a) + count_in(y, a),
    decreases y.len(),
{
    if y.len() == 0 {
        assert(x + y =~= x);
    } else {
        assert((x + y).drop_last() =~= x + y.drop_last());
        lemma_count_in_concat(x, y.drop_last(), a);
    }
}

/// Among the neighbors that the graph lists for `a`, `a` itself occurs once
/// for every self-loop.
pub proof fn lemma_listed_loops(edges: Seq<(usize, usize)>, a: usize)
    ensures
        count_in(outgoing(edges, a), a) == loops_at(edges, a),
        count_in(incoming(edges, a), a) == 0,
        count_in(listed_neighbors(edges, a), a) == loops_at(edges, a),
    decreases edges.len(),
{
    if edges.len() > 0 {
        let rest = edges.drop_last();
        let e = edges.last();
        lemma_listed_loops(rest, a);
        lemma_count_in_concat(seq![e.1], outgoing(rest, a), a);
        lemma_count_in_concat(seq![e.0], incoming(rest, a), a);
        assert(seq![e.1].drop_last() =~= Seq::<usize>::empty());
        assert(seq![e.0].drop_last() =~= Seq::<usize>::empty());
        assert(count_in(Seq::<usize>::empty(), a) == 0);
        assert(count_in(seq![e.1], a) == if e.1 == a { 1nat } else { 0nat });
        assert(count_in(seq![e.0], a) == if e.0 == a { 1nat } else { 0nat });
    }
    lemma_count_in_concat(outgoing(edges, a), incoming(edges, a), a);
}

/// The neighbor list of a node has one entry for each edge end at the node.
pub proof fn lemma_neighbor_count(edges: Seq<(usize, usize)>, a: usize)
    ensures
        neighbors_of(edges, a).len() == ends_at(edges, a),
        outgoing(edges, a).len() + incoming(edges, a).len() + loops_at(edges, a) == ends_at(edges, a),
    decreases edges.len(),
{
    if edges.len() > 0 {
        lemma_neighbor_count(edges.drop_last(), a);
    }
}

/// A node has at most two edge ends per edge.
pub proof fn lemma_ends_bounded(edges: Seq<(usize, usize)>, a: usize)
    ensures
        ends_at(edges, a) <= 2 * edges.len(),
    decreases edges.len(),
{
    if edges.len() > 0 {
        lemma_ends_bounded(edges.drop_last(), a);
    }
}

/// A number that is no node's index has no edge end, hence no neighbor.
pub proof fn lemma_outside_has_no_neighbors(edges: Seq<(usize, usize)>, n: nat, a: usize)
    requires
        endpoints_below(edges, n),
        a >= n,
    ensures
        ends_at(edges, a) == 0,
        neighbors_of(edges, a) =~= Seq::<usize>::empty(),
    decreases edges.len(),
{
    if edges.len() > 0 {
        let rest = edges.drop_last();
        assert(edges.last() == edges[edges.len() - 1]);
        assert forall|i: int| 0 <= i < rest.len() implies (#[trigger] rest[i]).0 < n && rest[i].1 < n by {
            assert(rest[i] == edges[i]);
        }
        lemma_outside_has_no_neighbors(rest, n, a);
    }
    lemma_neighbor_count(edges, a);
}

/// A value occurs in a concatenation if it occurs in one of the two parts.
pub proof fn lemma_contains_concat(x: Seq<usize>, y: Seq<usize>, b: usize)
    ensures
        (x + y).contains(b) <==> (x.contains(b) || y.contains(b)),
{
    let z = x + y;
    if z.contains(b) {
        let i = choose|i: int| 0 <= i < z.len() && z[i] == b;
        if i < x.len() {
            assert(x[i] == b);
        } else {
            assert(y[i - x.len()] == b);
        }
    }
    if x.contains(b) {
        let i = choose|i: int| 0 <= i < x.len() && x[i] == b;
        assert(z[i] == b);
    }
    if y.contains(b) {
        let i = choose|i: int| 0 <= i < y.len() && y[i] == b;
        assert(z[i + x.len()] == b);
    }
}

/// A value is counted in a sequence exactly when it occurs there.
pub proof fn lemma_count_in_positive(s: Seq<usize>, a: usize)
    ensures
        count_in(s, a) > 0 <==> s.contains(a),
    decreases s.len(),
{
    if s.len() > 0 {
        let rest = s.drop_last();
        lemma_count_in_positive(rest, a);
        if rest.contains(a) {
            let i = choose|i: int| 0 <= i < rest.len() && rest[i] == a;
            assert(s[i] == a);
        }
        if s.contains(a) && s.last() != a {
            let i = choose|i: int| 0 <= i < s.len() && s[i] == a;
            assert(rest[i] == a);
        }
        if s.last() == a {
            assert(s[s.len() - 1] == a);
        }
    }
}

/// Which values the parts of a neighbor list hold, in terms of the edges.
pub proof fn lemma_listed_edges(edges: Seq<(usize, usize)>, a: usize, b: usize)
    ensures
        outgoing(edges, a).contains(b) <==> has_edge(edges, a, b),
        incoming(edges, a).contains(b) <==> (has_edge(edges, b, a) && b != a),
        loops_at(edges, a) > 0 <==> has_edge(edges, a, a),
    decreases edges.len(),
{
    if edges.len() > 0 {
        let rest = edges.drop_last();
        let e = edges.last();
        lemma_listed_edges(rest, a, b);
        lemma_has_edge_step(edges, a, b);
        lemma_has_edge_step(edges, b, a);
        lemma_has_edge_step(edges, a, a);
        lemma_contains_concat(seq![e.1], outgoing(rest, a), b);
        lemma_contains_concat(seq![e.0], incoming(rest, a), b);
        assert(seq![e.1].contains(b) <==> e.1 == b) by {
            assert(seq![e.1][0] == e.1);
        }
        assert(seq![e.0].contains(b) <==> e.0 == b) by {
            assert(seq![e.0][0] == e.0);
        }
    }
}

/// The neighbor relation is that of the edges: `b` is listed among the
/// neighbors of `a` exactly when some edge joins the two.
pub proof fn lemma_neighbors_joined(edges: Seq<(usize, usize)>, a: usize, b: usize)
    ensures
        neighbors_of(edges, a).contains(b) <==> joined(edges, a, b),
{
    lemma_listed_edges(edges, a, b);
    let extra = Seq::new(loops_at(edges, a), |i: int| a);
    lemma_contains_concat(outgoing(edges, a), incoming(edges, a), b);
    lemma_contains_concat(listed_neighbors(edges, a), extra, b);
    assert(extra.contains(b) <==> (loops_at(edges, a) > 0 && b == a)) by {
        if loops_at(edges, a) > 0 {
            assert(extra[0] == a);
        }
    }
}

/// The neighbor relation is symmetric.
pub proof fn lemma_neighbors_symmetric(edges: Seq<(usize, usize)>, a: usize, b: usize)
    ensures
        neighbors_of(edges, a).contains(b) <==> neighbors_of(edges, b).contains(a),
{
    lemma_neighbors_joined(edges, a, b);
    lemma_neighbors_joined(edges, b, a);
}

/// Every neighbor of a node is a node.
pub proof fn lemma_neighbors_below(edges: Seq<(usize, usize)>, n: nat, a: usize)
    requires
        endpoints_below(edges, n),
    ensures
        forall|i: int|
            0 <= i < neighbors_of(edges, a).len() ==> (#[trigger] neighbors_of(edges, a)[i]) < n,
{
    assert forall|i: int| 0 <= i < neighbors_of(edges, a).len() implies (#[trigger] neighbors_of(
        edges,
        a,
    )[i]) < n by {
        let b = neighbors_of(edges, a)[i];
        assert(neighbors_of(edges, a).contains(b));
        lemma_neighbors_joined(edges, a, b);
        crate::paths::lemma_joined_below(edges, n, a, b);
    }
}

} // verus!
