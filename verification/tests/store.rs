use graph_metrics::betweenness::shortest_paths_from;
use graph_metrics::ranking::rank;
use graph_metrics::ratio::Ratio;
use graph_metrics::store::GraphStore;

#[test]
fn nodes_are_numbered_in_order_of_first_appearance() {
    let graph = GraphStore::build(&vec![(30, 10), (10, 20), (30, 20), (40, 30)]);
    assert_eq!(graph.node_count(), 4);
    assert_eq!(graph.edge_count(), 4);
    assert_eq!(graph.index_of(30), Some(0));
    assert_eq!(graph.index_of(10), Some(1));
    assert_eq!(graph.index_of(20), Some(2));
    assert_eq!(graph.index_of(40), Some(3));
    assert_eq!(graph.index_of(50), None);
    assert_eq!(graph.external_id(0), Some(30));
    assert_eq!(graph.external_id(3), Some(40));
    assert_eq!(graph.external_id(4), None);
}

#[test]
fn repeated_edges_and_loops_are_kept() {
    let graph = GraphStore::build(&vec![(1, 2), (1, 2), (2, 1), (2, 2)]);
    assert_eq!(graph.node_count(), 2);
    assert_eq!(graph.edge_count(), 4);
    assert_eq!(graph.degree(0), 3);
    assert_eq!(graph.degree(1), 5);
}

#[test]
fn neighbors_come_in_the_order_of_the_graph() {
    // ids 10 -> 0, 20 -> 1, 30 -> 2; edges (0,1) (1,2) (0,2) (0,0)
    let graph = GraphStore::build(&vec![(10, 20), (20, 30), (10, 30), (10, 10)]);
    assert_eq!(graph.neighbors(0), vec![0, 2, 1, 0]);
    assert_eq!(graph.neighbors(1), vec![2, 0]);
    assert_eq!(graph.neighbors(2), vec![0, 1]);
    assert_eq!(graph.neighbors(3), Vec::<usize>::new());
    assert_eq!(graph.degree(0), 4);
    assert_eq!(graph.degree(3), 0);
}

#[test]
fn neighbors_are_symmetric() {
    let graph = GraphStore::build(&vec![(1, 2), (2, 3), (3, 1), (3, 4), (5, 5), (1, 2)]);
    let n = graph.node_count();
    for a in 0..n {
        for b in 0..n {
            let ab = graph.neighbors(a).contains(&b);
            let ba = graph.neighbors(b).contains(&a);
            assert_eq!(ab, ba);
            assert_eq!(ab, graph.contains_edge(a, b));
        }
    }
}

#[test]
fn contains_edge_in_either_orientation() {
    let graph = GraphStore::build(&vec![(0, 1), (1, 2), (3, 3)]);
    assert!(graph.contains_edge(0, 1));
    assert!(graph.contains_edge(1, 0));
    assert!(graph.contains_edge(2, 1));
    assert!(graph.contains_edge(3, 3));
    assert!(!graph.contains_edge(0, 2));
    assert!(!graph.contains_edge(0, 0));
    assert!(!graph.contains_edge(0, 4));
    assert!(!graph.contains_edge(9, 1));
}

#[test]
fn distances_are_hop_counts() {
    // 0 - 1 - 2 - 3 with a chord 0 - 2, and 4 - 5 apart
    let graph = GraphStore::build(&vec![(0, 1), (1, 2), (2, 3), (0, 2), (4, 5)]);
    assert_eq!(graph.distances_from(0), vec![Some(0), Some(1), Some(1), Some(2), None, None]);
    assert_eq!(graph.distances_from(3), vec![Some(2), Some(2), Some(1), Some(0), None, None]);
    assert_eq!(graph.distances_from(5), vec![None, None, None, None, Some(1), Some(0)]);
}

#[test]
fn traversal_agrees_with_distances() {
    let graph = GraphStore::build(&vec![(0, 1), (1, 2), (2, 3), (0, 2), (4, 5), (3, 3), (1, 2)]);
    for s in 0..graph.node_count() {
        let paths = shortest_paths_from(&graph, s);
        assert_eq!(paths.source, s);
        assert_eq!(paths.distance, graph.distances_from(s));
    }
}

#[test]
fn traversal_of_a_diamond() {
    let graph = GraphStore::build(&vec![(0, 1), (0, 2), (1, 3), (2, 3)]);
    let paths = shortest_paths_from(&graph, 0);
    assert_eq!(paths.order, vec![0, 2, 1, 3]);
    assert_eq!(paths.distance, vec![Some(0), Some(1), Some(1), Some(2)]);
    assert_eq!(paths.predecessors, vec![vec![], vec![0], vec![0], vec![2, 1]]);
}

#[test]
fn traversal_lists_a_predecessor_once_per_edge() {
    let graph = GraphStore::build(&vec![(0, 1), (0, 1), (1, 1), (1, 2)]);
    let paths = shortest_paths_from(&graph, 0);
    assert_eq!(paths.order, vec![0, 1, 2]);
    assert_eq!(paths.distance, vec![Some(0), Some(1), Some(2)]);
    assert_eq!(paths.predecessors, vec![vec![], vec![0, 0], vec![1]]);
}

#[test]
fn traversal_stays_within_the_component() {
    let graph = GraphStore::build(&vec![(0, 1), (2, 3)]);
    let paths = shortest_paths_from(&graph, 2);
    assert_eq!(paths.order, vec![2, 3]);
    assert_eq!(paths.distance, vec![None, None, Some(0), Some(1)]);
    assert_eq!(paths.predecessors, vec![vec![], vec![], vec![], vec![2]]);
}

#[test]
fn fractions_compare_by_value() {
    let half = Ratio { num: 1, den: 2 };
    let two_quarters = Ratio { num: 2, den: 4 };
    let third = Ratio { num: 1, den: 3 };
    assert!(half.exceeds(&third));
    assert!(!third.exceeds(&half));
    assert!(!half.exceeds(&two_quarters));
    assert!(!two_quarters.exceeds(&half));
    let large = Ratio { num: u64::MAX, den: 1 };
    let larger = Ratio { num: u64::MAX, den: u64::MAX - 1 };
    assert!(large.exceeds(&larger));
    assert_eq!(Ratio::zero(), Ratio { num: 0, den: 1 });
}

#[test]
fn ranking_is_by_score_then_by_index() {
    let scores = vec![
        Ratio { num: 1, den: 2 },
        Ratio { num: 3, den: 4 },
        Ratio { num: 2, den: 4 },
        Ratio { num: 0, den: 1 },
        Ratio { num: 6, den: 8 },
    ];
    let ranking = rank(&scores);
    let nodes: Vec<usize> = ranking.iter().map(|entry| entry.0).collect();
    assert_eq!(nodes, vec![1, 4, 0, 2, 3]);
    for entry in &ranking {
        assert_eq!(entry.1, scores[entry.0]);
    }
    assert!(rank(&Vec::new()).is_empty());
}

/// Pairs of identifiers below `ids`, drawn by a fixed linear congruence.
fn scattered_pairs(count: usize, ids: u32) -> Vec<(u32, u32)> {
    let mut state: u64 = 0x2545_f491_4f6c_dd1d;
    let mut pairs = Vec::new();
    for _ in 0..count {
        state = state.wrapping_mul(6364136223846793005).wrapping_add(1442695040888963407);
        let a = ((state >> 33) % ids as u64) as u32;
        state = state.wrapping_mul(6364136223846793005).wrapping_add(1442695040888963407);
        let b = ((state >> 33) % ids as u64) as u32;
        pairs.push((a, b));
    }
    pairs
}

#[test]
fn neighbor_lists_follow_the_edge_list() {
    let pairs = scattered_pairs(300, 40);
    let graph = GraphStore::build(&pairs);
    let edges: Vec<(usize, usize)> = pairs
        .iter()
        .map(|&(a, b)| (graph.index_of(a).unwrap(), graph.index_of(b).unwrap()))
        .collect();
    assert_eq!(graph.edge_count(), edges.len());
    let mut ends = 0;
    for node in 0..graph.node_count() {
        let mut expected: Vec<usize> = Vec::new();
        for &(a, b) in edges.iter().rev() {
            if a == node {
                expected.push(b);
            }
        }
        for &(a, b) in edges.iter().rev() {
            if b == node && a != node {
                expected.push(a);
            }
        }
        for &(a, b) in edges.iter() {
            if a == node && b == node {
                expected.push(node);
            }
        }
        assert_eq!(graph.neighbors(node), expected);
        assert_eq!(graph.degree(node), expected.len());
        ends += expected.len();
        for other in 0..graph.node_count() {
            let joined = edges.iter().any(|&e| e == (node, other) || e == (other, node));
            assert_eq!(graph.contains_edge(node, other), joined);
        }
    }
    assert_eq!(ends, 2 * edges.len());
}

#[test]
fn both_shortest_path_computations_agree() {
    let pairs = scattered_pairs(45, 60);
    let graph = GraphStore::build(&pairs);
    let mut unreached = 0;
    for s in 0..graph.node_count() {
        let lengths = graph.distances_from(s);
        let paths = shortest_paths_from(&graph, s);
        assert_eq!(lengths, paths.distance);
        assert_eq!(lengths[s], Some(0));
        assert_eq!(paths.order[0], s);
        assert_eq!(paths.order.len(), lengths.iter().filter(|d| d.is_some()).count());
        unreached += lengths.iter().filter(|d| d.is_none()).count();
        for (w, preds) in paths.predecessors.iter().enumerate() {
            for &v in preds {
                assert!(graph.contains_edge(v, w));
                assert_eq!(lengths[w].unwrap(), lengths[v].unwrap() + 1);
            }
        }
    }
    assert!(unreached > 0);
}
