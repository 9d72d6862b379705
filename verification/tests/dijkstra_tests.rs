use grephite::dijkstra::shortest_paths;
use grephite::graph::Graph;
use grephite::graph::from_triples;

/// The fixed weighted graph: nodes 1-2-3-4 in a path with weights 1, 2, 3
/// plus a shortcut edge 1-4 of weight 10, which is longer than the path.
fn path_with_shortcut() -> Graph {
    let triples = vec![
        (1u64, 2u64, Some(1u64)),
        (2u64, 3u64, Some(2u64)),
        (3u64, 4u64, Some(3u64)),
        (1u64, 4u64, Some(10u64)),
    ];
    from_triples(&triples)
}

#[test]
fn distances_on_the_fixed_weighted_graph() {
    let g = path_with_shortcut();
    let dist = shortest_paths(&g, 1);
    let ids = g.node_ids();
    assert_eq!(ids, vec![1, 2, 3, 4]);
    assert_eq!(dist, vec![Some(0), Some(1), Some(3), Some(6)]);
}

#[test]
fn unreachable_nodes_have_no_distance() {
    let mut g = path_with_shortcut();
    g.ensure_node(99);
    let dist = shortest_paths(&g, 1);
    assert_eq!(dist.len(), 5);
    assert_eq!(dist[4], None);
}

#[test]
fn absent_weight_counts_as_one() {
    let triples = vec![(1u64, 2u64, None), (2u64, 3u64, None)];
    let g = from_triples(&triples);
    let dist = shortest_paths(&g, 1);
    assert_eq!(dist, vec![Some(0), Some(1), Some(2)]);
}

#[test]
fn shortcut_wins_when_it_is_cheaper() {
    let triples = vec![
        (1u64, 2u64, Some(5u64)),
        (2u64, 3u64, Some(5u64)),
        (1u64, 3u64, Some(2u64)),
    ];
    let g = from_triples(&triples);
    let dist = shortest_paths(&g, 1);
    assert_eq!(dist, vec![Some(0), Some(5), Some(2)]);
}

#[test]
fn source_alone_is_at_distance_zero() {
    let mut g = Graph::new();
    let a = g.insert_node();
    let dist = shortest_paths(&g, a);
    assert_eq!(dist, vec![Some(0)]);
}

#[test]
fn parallel_edges_use_the_lighter_one() {
    let triples = vec![(1u64, 2u64, Some(8u64)), (1u64, 2u64, Some(3u64))];
    let g = from_triples(&triples);
    let dist = shortest_paths(&g, 2);
    assert_eq!(dist, vec![Some(3), Some(0)]);
}

#[test]
fn edges_work_in_both_directions() {
    let triples = vec![(1u64, 2u64, Some(7u64))];
    let g = from_triples(&triples);
    let dist = shortest_paths(&g, 2);
    assert_eq!(dist, vec![Some(7), Some(0)]);
}
