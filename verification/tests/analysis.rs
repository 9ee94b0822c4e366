use graph_metrics::betweenness::shortest_paths_from;
use graph_metrics::closeness::compute_closeness_centrality;
use graph_metrics::clustering::compute_local_clustering;
use graph_metrics::degree::compute_degree_distribution;
use graph_metrics::density::find_densest_subgraph;
use graph_metrics::ratio::Ratio;
use graph_metrics::store::GraphStore;

fn path_of_three() -> GraphStore {
    GraphStore::build(&vec![(0, 1), (1, 2)])
}

fn triangle() -> GraphStore {
    GraphStore::build(&vec![(0, 1), (1, 2), (0, 2)])
}

fn as_float(r: &Ratio) -> f32 {
    r.num as f32 / r.den as f32
}

/// Accumulates path counts and dependencies over the traversal from every
/// source, and ranks the nodes by the sum.
fn betweenness(graph: &GraphStore) -> Vec<(usize, f32)> {
    let n = graph.node_count();
    let mut total = vec![0.0f32; n];
    for s in 0..n {
        let paths = shortest_paths_from(graph, s);
        let mut sigma = vec![0.0f32; n];
        let mut delta = vec![0.0f32; n];
        sigma[s] = 1.0;
        for &w in &paths.order {
            for &v in &paths.predecessors[w] {
                sigma[w] += sigma[v];
            }
        }
        for &w in paths.order.iter().rev() {
            for &v in &paths.predecessors[w] {
                let share = (sigma[v] / sigma[w]) * (1.0 + delta[w]);
                delta[v] += share;
            }
            if w != s {
                total[w] += delta[w];
            }
        }
    }
    let mut ranked: Vec<(usize, f32)> = total.into_iter().enumerate().collect();
    ranked.sort_by(|a, b| b.1.partial_cmp(&a.1).unwrap());
    ranked
}

#[test]
fn test_degree_distribution() {
    let graph = path_of_three();
    let degree_distribution = compute_degree_distribution(&graph);
    assert_eq!(degree_distribution.get(&1), Some(&2));
    assert_eq!(degree_distribution.get(&2), Some(&1));
}

#[test]
fn test_closeness_centrality() {
    let graph = path_of_three();
    let closeness = compute_closeness_centrality(&graph);
    assert_eq!(closeness.len(), 3);
}

#[test]
fn test_betweenness_centrality() {
    let graph = path_of_three();
    let betweenness = betweenness(&graph);
    assert_eq!(betweenness.len(), 3);
}

#[test]
fn test_local_clustering() {
    let graph = triangle();
    let clustering = compute_local_clustering(&graph);
    assert!(as_float(clustering.get(&0).unwrap()) > 0.8);
}

#[test]
fn test_densest_subgraph() {
    let graph = triangle();
    let densest = find_densest_subgraph(&graph);
    assert!(densest == 0 || densest == 1 || densest == 2);
}

#[test]
fn degree_counts_sum_to_node_count() {
    let graph = GraphStore::build(&vec![(1, 2), (2, 3), (3, 1), (3, 4), (5, 5), (1, 2)]);
    let distribution = compute_degree_distribution(&graph);
    let sum: usize = distribution.values().sum();
    assert_eq!(sum, graph.node_count());
    assert_eq!(graph.node_count(), 5);
}

#[test]
fn degree_distribution_counts_loops_twice_and_repeats_each_time() {
    // nodes: 1 -> 0, 2 -> 1, 3 -> 2, 4 -> 3, 5 -> 4
    let graph = GraphStore::build(&vec![(1, 2), (2, 3), (3, 1), (3, 4), (5, 5), (1, 2)]);
    assert_eq!(graph.degree(0), 3);
    assert_eq!(graph.degree(1), 3);
    assert_eq!(graph.degree(2), 3);
    assert_eq!(graph.degree(3), 1);
    assert_eq!(graph.degree(4), 2);
    let distribution = compute_degree_distribution(&graph);
    assert_eq!(distribution.len(), 3);
    assert_eq!(distribution.get(&3), Some(&3));
    assert_eq!(distribution.get(&1), Some(&1));
    assert_eq!(distribution.get(&2), Some(&1));
    assert_eq!(distribution.get(&0), None);
}

#[test]
fn closeness_of_a_path_is_exact_and_ranked() {
    let graph = path_of_three();
    let closeness = compute_closeness_centrality(&graph);
    assert_eq!(
        closeness,
        vec![
            (1, Ratio { num: 2, den: 2 }),
            (0, Ratio { num: 2, den: 3 }),
            (2, Ratio { num: 2, den: 3 }),
        ]
    );
}

#[test]
fn closeness_leaves_unreached_nodes_out_of_the_sum() {
    // two components: 0 - 1 and 2 - 3 - 4
    let graph = GraphStore::build(&vec![(0, 1), (2, 3), (3, 4)]);
    let closeness = compute_closeness_centrality(&graph);
    assert_eq!(
        closeness,
        vec![
            (0, Ratio { num: 4, den: 1 }),
            (1, Ratio { num: 4, den: 1 }),
            (3, Ratio { num: 4, den: 2 }),
            (2, Ratio { num: 4, den: 3 }),
            (4, Ratio { num: 4, den: 3 }),
        ]
    );
}

#[test]
fn closeness_of_an_isolated_node_is_zero() {
    let graph = GraphStore::build(&vec![(7, 7), (1, 2)]);
    let closeness = compute_closeness_centrality(&graph);
    assert_eq!(closeness.len(), graph.node_count());
    let lonely = closeness.iter().find(|entry| entry.0 == 0).unwrap();
    assert_eq!(lonely.1, Ratio { num: 0, den: 1 });
    assert_eq!(closeness[2].0, 0);
    for entry in &closeness {
        assert!(entry.1.den > 0);
    }
}

#[test]
fn betweenness_of_a_path_peaks_in_the_middle() {
    let graph = path_of_three();
    let ranked = betweenness(&graph);
    assert_eq!(ranked[0], (1, 2.0));
    let score_of = |node: usize| ranked.iter().find(|e| e.0 == node).unwrap().1;
    assert!(score_of(1) > score_of(0));
    assert!(score_of(1) > score_of(2));
    assert_eq!(score_of(0), 0.0);
    assert_eq!(score_of(2), 0.0);
}

#[test]
fn betweenness_splits_over_equal_paths() {
    // a square: two shortest paths between opposite corners
    let graph = GraphStore::build(&vec![(0, 1), (1, 2), (2, 3), (3, 0)]);
    let ranked = betweenness(&graph);
    assert_eq!(ranked.len(), 4);
    for entry in &ranked {
        assert_eq!(entry.1, 1.0);
    }
}

#[test]
fn clustering_of_a_triangle_is_one() {
    let graph = triangle();
    let clustering = compute_local_clustering(&graph);
    assert_eq!(clustering.len(), 3);
    for node in 0..3 {
        assert_eq!(clustering.get(&node), Some(&Ratio { num: 1, den: 1 }));
    }
}

#[test]
fn clustering_is_zero_at_degree_one_and_a_share_elsewhere() {
    // a triangle 0 1 2 with a tail 2 - 3
    let graph = GraphStore::build(&vec![(0, 1), (1, 2), (0, 2), (2, 3)]);
    let clustering = compute_local_clustering(&graph);
    assert_eq!(clustering.get(&3), Some(&Ratio { num: 0, den: 1 }));
    assert_eq!(clustering.get(&2), Some(&Ratio { num: 1, den: 3 }));
    assert_eq!(clustering.get(&0), Some(&Ratio { num: 1, den: 1 }));
    for value in clustering.values() {
        assert!(value.num <= value.den);
    }
}

#[test]
fn densest_node_of_a_triangle_is_the_first() {
    assert_eq!(find_densest_subgraph(&triangle()), 0);
}

#[test]
fn densest_node_is_the_first_of_highest_degree() {
    // degrees: 1, 3, 3, 1, 2 -- nodes 1 and 2 tie
    let graph = GraphStore::build(&vec![(0, 1), (1, 2), (2, 3), (1, 4), (4, 2)]);
    assert_eq!(find_densest_subgraph(&graph), 1);
}

#[test]
fn round_trip_on_a_path() {
    let graph = path_of_three();
    let distribution = compute_degree_distribution(&graph);
    assert_eq!(distribution.len(), 2);
    assert_eq!(distribution.get(&1), Some(&2));
    assert_eq!(distribution.get(&2), Some(&1));
    assert_eq!(compute_closeness_centrality(&graph).len(), 3);
    let ranked = betweenness(&graph);
    assert_eq!(ranked.len(), 3);
    assert_eq!(ranked[0].0, 1);
    assert!(ranked[0].1 > ranked[1].1);
}

#[test]
fn analyses_give_the_same_result_twice() {
    let graph = GraphStore::build(&vec![(3, 9), (9, 4), (4, 3), (4, 8), (8, 8), (1, 2)]);
    assert_eq!(compute_degree_distribution(&graph), compute_degree_distribution(&graph));
    assert_eq!(compute_closeness_centrality(&graph), compute_closeness_centrality(&graph));
    assert_eq!(compute_local_clustering(&graph), compute_local_clustering(&graph));
    assert_eq!(find_densest_subgraph(&graph), find_densest_subgraph(&graph));
    for s in 0..graph.node_count() {
        let a = shortest_paths_from(&graph, s);
        let b = shortest_paths_from(&graph, s);
        assert_eq!(a.order, b.order);
        assert_eq!(a.distance, b.distance);
        assert_eq!(a.predecessors, b.predecessors);
    }
    assert_eq!(betweenness(&graph), betweenness(&graph));
}

#[test]
fn analyses_of_an_empty_graph() {
    let graph = GraphStore::build(&Vec::new());
    assert_eq!(graph.node_count(), 0);
    assert_eq!(graph.edge_count(), 0);
    assert!(compute_degree_distribution(&graph).is_empty());
    assert!(compute_closeness_centrality(&graph).is_empty());
    assert!(compute_local_clustering(&graph).is_empty());
    assert_eq!(find_densest_subgraph(&graph), 0);
    assert!(betweenness(&graph).is_empty());
}

#[test]
fn analyses_of_a_single_node() {
    let graph = GraphStore::build(&vec![(4, 4)]);
    assert_eq!(graph.node_count(), 1);
    let distribution = compute_degree_distribution(&graph);
    assert_eq!(distribution.get(&2), Some(&1));
    assert_eq!(compute_closeness_centrality(&graph), vec![(0, Ratio { num: 0, den: 1 })]);
    // the loop lists the node twice among its own neighbors, and it is joined to itself
    assert_eq!(compute_local_clustering(&graph).get(&0), Some(&Ratio { num: 1, den: 1 }));
    assert_eq!(find_densest_subgraph(&graph), 0);
    assert_eq!(betweenness(&graph), vec![(0, 0.0)]);
}
