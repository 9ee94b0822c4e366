//! The `petgraph` graph that holds the nodes and edges, and the calls made into
//! it. The contracts of the functions marked `external_body` are taken on
//! trust: each restates what the source of `petgraph` shows for an undirected
//! graph with `u32` indices, over the number of nodes and the list of edges
//! that the graph holds.

use vstd::prelude::*;
use crate::paths::{connected, is_hop_distance, joined};

verus! {

/// `petgraph::graph::Graph`, declared so that a graph can be held and handed
/// on. A value is opaque: all that is known of it is what the functions
/// below say of its nodes and edges.
#[verifier::external_type_specification]
#[verifier::external_body]
#[verifier::reject_recursive_types(N)]
#[verifier::reject_recursive_types(E)]
#[verifier::reject_recursive_types(Ty)]
#[verifier::reject_recursive_types(Ix)]
pub struct ExGraph<N, E, Ty, Ix>(petgraph::graph::Graph<N, E, Ty, Ix>);

/// `petgraph::Undirected`, the marker that makes a graph's edges undirected.
#[verifier::external_type_specification]
#[verifier::external_body]
pub struct ExUndirected(petgraph::Undirected);

/// The number of nodes that the graph holds.
pub uninterp spec fn graph_nodes(g: petgraph::graph::Graph<(), (), petgraph::Undirected, u32>) -> nat;

/// The endpoints of the graph's edges, in the order in which they were added.
pub uninterp spec fn graph_edges(g: petgraph::graph::Graph<(), (), petgraph::Undirected, u32>) -> Seq<(usize, usize)>;

/// The far ends of the edges recorded as leaving `a`, newest edge first.
pub open spec fn outgoing(edges: Seq<(usize, usize)>, a: usize) -> Seq<usize>
    decreases edges.len(),
{
    if edges.len() == 0 {
        Seq::empty()
    } else if edges.last().0 == a {
        seq![edges.last().1] + outgoing(edges.drop_last(), a)
    } else {
        outgoing(edges.drop_last(), a)
    }
}

/// The near ends of the edges recorded as arriving at `a` from another node,
/// newest edge first.
pub open spec fn incoming(edges: Seq<(usize, usize)>, a: usize) -> Seq<usize>
    decreases edges.len(),
{
    if edges.len() == 0 {
        Seq::empty()
    } else if edges.last().1 == a && edges.last().0 != a {
        seq![edges.last().0] + incoming(edges.drop_last(), a)
    } else {
        incoming(edges.drop_last(), a)
    }
}

/// What `petgraph` lists as the neighbors of `a`: first along the edges that
/// leave `a`, then along those that arrive from elsewhere. A self-loop is
/// listed once.
pub open spec fn listed_neighbors(edges: Seq<(usize, usize)>, a: usize) -> Seq<usize> {
    outgoing(edges, a) + incoming(edges, a)
}

/// `Graph::new_undirected`: a graph without nodes or edges.
#[verifier::external_body]
pub(crate) fn new_undirected() -> (g: petgraph::graph::Graph<(), (), petgraph::Undirected, u32>)
    ensures
        graph_nodes(g) == 0,
        graph_edges(g) == Seq::<(usize, usize)>::empty(),
{
    petgraph::graph::Graph::new_undirected()
}

/// `Graph::add_node`: appends a node and returns its index, which is the
/// number of nodes there were. It panics once the index would be `u32::MAX`.
#[verifier::external_body]
pub(crate) fn add_node(g: &mut petgraph::graph::Graph<(), (), petgraph::Undirected, u32>) -> (index: usize)
    requires
        graph_nodes(*old(g)) < u32::MAX,
    ensures
        index == graph_nodes(*old(g)),
        graph_nodes(*final(g)) == graph_nodes(*old(g)) + 1,
        graph_edges(*final(g)) == graph_edges(*old(g)),
{
    g.add_node(()).index()
}

/// `Graph::add_edge`: appends an edge between two existing nodes. It panics
/// where a node is missing or the edge's index would be `u32::MAX`.
#[verifier::external_body]
pub(crate) fn add_edge(g: &mut petgraph::graph::Graph<(), (), petgraph::Undirected, u32>, a: usize, b: usize)
    requires
        a < graph_nodes(*old(g)),
        b < graph_nodes(*old(g)),
        graph_edges(*old(g)).len() < u32::MAX,
    ensures
        graph_nodes(*final(g)) == graph_nodes(*old(g)),
        graph_edges(*final(g)) == graph_edges(*old(g)).push((a, b)),
{
    g.add_edge(petgraph::graph::NodeIndex::new(a), petgraph::graph::NodeIndex::new(b), ());
}

/// `Graph::node_count`.
#[verifier::external_body]
pub(crate) fn node_count(g: &petgraph::graph::Graph<(), (), petgraph::Undirected, u32>) -> (n: usize)
    ensures
        n == graph_nodes(*g),
{
    g.node_count()
}

/// `Graph::edge_count`.
#[verifier::external_body]
pub(crate) fn edge_count(g: &petgraph::graph::Graph<(), (), petgraph::Undirected, u32>) -> (n: usize)
    ensures
        n == graph_edges(*g).len(),
{
    g.edge_count()
}

/// `Graph::neighbors` of an existing node, collected in the order in which the
/// iterator yields them.
#[verifier::external_body]
pub(crate) fn neighbors(g: &petgraph::graph::Graph<(), (), petgraph::Undirected, u32>, a: usize) -> (list: Vec<usize>)
    requires
        a < graph_nodes(*g),
    ensures
        list@ == listed_neighbors(graph_edges(*g), a),
{
    g.neighbors(petgraph::graph::NodeIndex::new(a)).map(|v| v.index()).collect()
}

/// `Graph::contains_edge` on two existing nodes: whether some edge joins them,
/// whichever of the two it was added from.
#[verifier::external_body]
pub(crate) fn contains_edge(g: &petgraph::graph::Graph<(), (), petgraph::Undirected, u32>, a: usize, b: usize) -> (found: bool)
    requires
        a < graph_nodes(*g),
        b < graph_nodes(*g),
    ensures
        found == joined(graph_edges(*g), a, b),
{
    g.contains_edge(petgraph::graph::NodeIndex::new(a), petgraph::graph::NodeIndex::new(b))
}

/// The length given to every edge when shortest paths are measured.
pub fn edge_length() -> (length: usize)
    ensures
        length == 1,
{
    1
}

/// `petgraph::algo::dijkstra` from an existing node, every edge of length one
/// and no goal: entry `v` of the result is the length of a shortest path from
/// `start` to node `v`, and `None` where no path leads there.
#[verifier::external_body]
pub(crate) fn dijkstra(g: &petgraph::graph::Graph<(), (), petgraph::Undirected, u32>, start: usize) -> (lengths: Vec<Option<usize>>)
    requires
        start < graph_nodes(*g),
    ensures
        lengths@.len() == graph_nodes(*g),
        forall|v: usize| 0 <= v < lengths@.len() ==> match #[trigger] lengths@[v as int] {
            Some(d) => is_hop_distance(graph_edges(*g), start, v, d as nat),
            None => !connected(graph_edges(*g), start, v),
        },
{
    let found = petgraph::algo::dijkstra(g, petgraph::graph::NodeIndex::new(start), None, |_| edge_length());
    (0..g.node_count()).map(|v| found.get(&petgraph::graph::NodeIndex::new(v)).copied()).collect()
}

} // verus!
