//! The graph store: nodes named by outside identifiers, held under dense
//! indices in order of first appearance, with the edges between them.

use std::collections::HashMap;
use vstd::prelude::*;
use crate::adjacency::{count_in, ends_at, lemma_listed_loops, lemma_neighbor_count, lemma_outside_has_no_neighbors, neighbors_of};
use crate::backing::{add_edge, add_node, contains_edge, dijkstra, edge_count, graph_edges, graph_nodes, listed_neighbors, neighbors, new_undirected, node_count};
use crate::paths::{connected, endpoints_below, is_hop_distance, joined, lemma_hop_distance_below};

verus! {

broadcast use vstd::std_specs::hash::group_hash_axioms;

/// `ids` with `id` appended, unless `id` is in it already.
pub open spec fn noted(ids: Seq<u32>, id: u32) -> Seq<u32> {
    if ids.contains(id) {
        ids
    } else {
        ids.push(id)
    }
}

/// The identifiers that occur in `pairs`, each once, in the order in which
/// they first appear (within a pair, the left one first).
pub open spec fn first_seen(pairs: Seq<(u32, u32)>) -> Seq<u32>
    decreases pairs.len(),
{
    if pairs.len() == 0 {
        Seq::empty()
    } else {
        noted(noted(first_seen(pairs.drop_last()), pairs.last().0), pairs.last().1)
    }
}

/// `edge` joins the nodes whose identifiers are those of `pair`, in the same
/// orientation.
pub open spec fn stands_for(ids: Seq<u32>, edge: (usize, usize), pair: (u32, u32)) -> bool {
    &&& edge.0 < ids.len()
    &&& edge.1 < ids.len()
    &&& ids[edge.0 as int] == pair.0
    &&& ids[edge.1 as int] == pair.1
}

/// An undirected multigraph whose nodes are numbered `0..n`. Self-loops and
/// repeated edges are kept as they were given.
pub struct GraphStore {
    graph: petgraph::graph::Graph<(), (), petgraph::Undirected, u32>,
    ids: Vec<u32>,
    index_of: HashMap<u32, usize>,
}

impl GraphStore {
    /// The outside identifier of each node, by node index.
    pub closed spec fn ids(&self) -> Seq<u32> {
        self.ids@
    }

    /// The endpoints of each edge, as node indices, in the order of insertion.
    pub closed spec fn edge_list(&self) -> Seq<(usize, usize)> {
        graph_edges(self.graph)
    }

    /// The graph holds one node per identifier, and the lookup table maps each
    /// identifier to the index at which it stands.
    pub closed spec fn lookup_agrees(&self) -> bool {
        &&& graph_nodes(self.graph) == self.ids@.len()
        &&& forall|id: u32|
            #![trigger self.index_of@.contains_key(id)]
            #![trigger self.ids@.contains(id)]
            self.index_of@.contains_key(id) <==> self.ids@.contains(id)
        &&& forall|id: u32| #[trigger]
            self.index_of@.contains_key(id) ==> self.index_of@[id] < self.ids@.len()
                && self.ids@[self.index_of@[id] as int] == id
    }

    /// The number of nodes.
    pub open spec fn node_total(&self) -> nat {
        self.ids().len()
    }

    /// The neighbor list of node `a`: one entry for each edge end at `a`.
    pub open spec fn adjacency(&self, a: usize) -> Seq<usize> {
        neighbors_of(self.edge_list(), a)
    }

    /// The invariant of a store: identifiers are distinct, every edge joins
    /// two of the store's nodes, and the counts stay within what the graph's
    /// `u32` indices allow for edges and for the nodes at their ends.
    pub open spec fn wf(&self) -> bool {
        &&& self.lookup_agrees()
        &&& self.ids().no_duplicates()
        &&& self.ids().len() < u32::MAX
        &&& self.edge_list().len() < 0x8000_0000
        &&& endpoints_below(self.edge_list(), self.ids().len())
    }

    fn empty() -> (store: GraphStore)
        ensures
            store.wf(),
            store.ids() == Seq::<u32>::empty(),
            store.edge_list() == Seq::<(usize, usize)>::empty(),
    {
        GraphStore { graph: new_undirected(), ids: Vec::new(), index_of: HashMap::new() }
    }

    /// The index of `id`, which becomes a new node if it has none yet.
    fn intern(&mut self, id: u32) -> (index: usize)
        requires
            old(self).wf(),
            old(self).ids().len() + 1 < u32::MAX,
        ensures
            final(self).wf(),
            final(self).ids() == noted(old(self).ids(), id),
            index < final(self).ids().len(),
            final(self).ids()[index as int] == id,
            final(self).edge_list() == old(self).edge_list(),
    {
        let known: Option<usize> = match self.index_of.get(&id) {
            Some(index) => Some(*index),
            None => None,
        };
        match known {
            Some(index) => index,
            None => {
                let ghost before = self.ids@;
                let index = add_node(&mut self.graph);
                self.ids.push(id);
                self.index_of.insert(id, index);
                proof {
                    let after = self.ids@;
                    assert(!before.contains(id));
                    assert(after == before.push(id));
                    assert(after[before.len() as int] == id);
                    assert forall|i: int, j: int|
                        0 <= i < after.len() && 0 <= j < after.len() && i != j implies after[i]
                        != after[j] by {
                        if i < before.len() && j < before.len() {
                        } else if i < before.len() {
                            assert(before.contains(before[i]));
                        } else {
                            assert(before.contains(before[j]));
                        }
                    }
                    assert forall|x: u32|
                        self.index_of@.contains_key(x) <==> after.contains(x) by {
                        if x != id {
                            if before.contains(x) {
                                let i = choose|i: int| 0 <= i < before.len() && before[i] == x;
                                assert(after[i] == x);
                            }
                            if after.contains(x) {
                                let i = choose|i: int| 0 <= i < after.len() && after[i] == x;
                                assert(before[i] == x);
                            }
                        }
                    }
                    assert forall|x: u32| #[trigger]
                        self.index_of@.contains_key(x) implies self.index_of@[x] < after.len()
                        && after[self.index_of@[x] as int] == x by {
                        if x != id {
                            assert(old(self).index_of@.contains_key(x));
                        }
                    }
                }
                index
            },
        }
    }

    /// Appends an edge between two nodes of the store.
    fn connect(&mut self, a: usize, b: usize)
        requires
            old(self).wf(),
            a < old(self).ids().len(),
            b < old(self).ids().len(),
            old(self).edge_list().len() + 1 < 0x8000_0000,
        ensures
            final(self).wf(),
            final(self).ids() == old(self).ids(),
            final(self).edge_list() == old(self).edge_list().push((a, b)),
    {
        add_edge(&mut self.graph, a, b);
    }

    /// Builds the store from pairs of identifiers. Each identifier becomes a
    /// node the first time it is met and keeps that index; each pair becomes
    /// one edge, self-loops and repetitions included. The graph indexes nodes
    /// and edges by `u32`, which bounds the number of pairs.
    pub fn build(pairs: &Vec<(u32, u32)>) -> (store: GraphStore)
        requires
            pairs.len() < 0x8000_0000,
        ensures
            store.wf(),
            store.ids() == first_seen(pairs@),
            store.edge_list().len() == pairs.len(),
            forall|i: int|
                0 <= i < pairs.len() ==> stands_for(
                    store.ids(),
                    #[trigger] store.edge_list()[i],
                    pairs@[i],
                ),
    {
        let mut store = GraphStore::empty();
        let mut k: usize = 0;
        while k < pairs.len()
            invariant
                k <= pairs.len() < 0x8000_0000,
                store.wf(),
                store.ids() == first_seen(pairs@.take(k as int)),
                store.ids().len() <= 2 * k,
                store.edge_list().len() == k,
                forall|i: int|
                    0 <= i < k ==> stands_for(store.ids(), #[trigger] store.edge_list()[i], pairs@[i]),
            decreases pairs.len() - k,
        {
            let (x, y) = pairs[k];
            let ghost ids0 = store.ids();
            let a = store.intern(x);
            let ghost ids1 = store.ids();
            let b = store.intern(y);
            store.connect(a, b);
            proof {
                assert(pairs@.take(k + 1).drop_last() =~= pairs@.take(k as int));
                assert(pairs@.take(k + 1).last() == pairs@[k as int]);
                assert(ids1 == noted(ids0, x));
                assert(store.ids() == noted(ids1, y));
                assert forall|i: int| 0 <= i < k + 1 implies stands_for(
                    store.ids(),
                    #[trigger] store.edge_list()[i],
                    pairs@[i],
                ) by {
                    if i < k {
                        assert(stands_for(ids0, store.edge_list()[i], pairs@[i]));
                    }
                }
            }
            k += 1;
        }
        proof {
            assert(pairs@.take(k as int) =~= pairs@);
        }
        store
    }

    /// The number of nodes.
    pub fn node_count(&self) -> (n: usize)
        requires
            self.wf(),
        ensures
            n == self.node_total(),
    {
        node_count(&self.graph)
    }

    /// The number of edges, each occurrence counted.
    pub fn edge_count(&self) -> (n: usize)
        requires
            self.wf(),
        ensures
            n == self.edge_list().len(),
    {
        edge_count(&self.graph)
    }

    /// The identifier of the node at `index`, if there is such a node.
    pub fn external_id(&self, index: usize) -> (id: Option<u32>)
        requires
            self.wf(),
        ensures
            id == (if index < self.node_total() {
                Some(self.ids()[index as int])
            } else {
                None
            }),
    {
        if index < self.ids.len() {
            Some(self.ids[index])
        } else {
            None
        }
    }

    /// The index of the node that stands for `id`, if `id` occurred.
    pub fn index_of(&self, id: u32) -> (index: Option<usize>)
        requires
            self.wf(),
        ensures
            match index {
                Some(i) => i < self.node_total() && self.ids()[i as int] == id,
                None => !self.ids().contains(id),
            },
    {
        match self.index_of.get(&id) {
            Some(index) => Some(*index),
            None => None,
        }
    }

    /// The neighbors of node `a`, one entry for each edge end at `a`: a
    /// neighbor joined by several edges is listed once per edge, and a
    /// self-loop lists `a` twice. A number that is no node's index has none.
    pub fn neighbors(&self, a: usize) -> (list: Vec<usize>)
        requires
            self.wf(),
        ensures
            list@ == self.adjacency(a),
    {
        if a >= node_count(&self.graph) {
            proof {
                lemma_outside_has_no_neighbors(self.edge_list(), self.node_total(), a);
            }
            return Vec::new();
        }
        let mut list = neighbors(&self.graph, a);
        let ghost listed = list@;
        let stop = list.len();
        let mut i: usize = 0;
        while i < stop
            invariant
                i <= stop == listed.len(),
                listed == listed_neighbors(self.edge_list(), a),
                list@ == listed + Seq::new(count_in(listed.take(i as int), a), |k: int| a),
            decreases stop - i,
        {
            proof {
                assert(listed.take(i + 1).drop_last() =~= listed.take(i as int));
            }
            if list[i] == a {
                list.push(a);
            }
            i += 1;
        }
        proof {
            assert(listed.take(i as int) =~= listed);
            lemma_listed_loops(self.edge_list(), a);
        }
        list
    }

    /// Whether some edge joins `a` and `b`, in either orientation.
    pub fn contains_edge(&self, a: usize, b: usize) -> (found: bool)
        requires
            self.wf(),
        ensures
            found == joined(self.edge_list(), a, b),
    {
        let n = node_count(&self.graph);
        if a < n && b < n {
            contains_edge(&self.graph, a, b)
        } else {
            false
        }
    }

    /// The hop distance from `source` to every node: entry `t` is the number
    /// of edges of a shortest walk from `source` to `t`, `None` where there
    /// is no walk.
    pub fn distances_from(&self, source: usize) -> (lengths: Vec<Option<usize>>)
        requires
            self.wf(),
            source < self.node_total(),
        ensures
            lengths@.len() == self.node_total(),
            forall|t: usize|
                t < self.node_total() ==> match #[trigger] lengths@[t as int] {
                    Some(d) => d < self.node_total() && is_hop_distance(
                        self.edge_list(),
                        source,
                        t,
                        d as nat,
                    ),
                    None => !connected(self.edge_list(), source, t),
                },
    {
        let lengths = dijkstra(&self.graph, source);
        proof {
            assert forall|t: usize| t < self.node_total() implies match #[trigger] lengths@[t as int] {
                Some(d) => d < self.node_total() && is_hop_distance(
                    self.edge_list(),
                    source,
                    t,
                    d as nat,
                ),
                None => !connected(self.edge_list(), source, t),
            } by {
                if let Some(d) = lengths@[t as int] {
                    lemma_hop_distance_below(
                        self.edge_list(),
                        self.node_total(),
                        source,
                        t,
                        d as nat,
                    );
                }
            }
        }
        lengths
    }

    /// The degree of node `a`: the number of edge ends at `a`, so that a
    /// self-loop counts twice and a repeated edge once per occurrence.
    pub fn degree(&self, a: usize) -> (d: usize)
        requires
            self.wf(),
        ensures
            d == ends_at(self.edge_list(), a),
            d == self.adjacency(a).len(),
    {
        proof {
            lemma_neighbor_count(self.edge_list(), a);
        }
        self.neighbors(a).len()
    }
}

} // verus!
