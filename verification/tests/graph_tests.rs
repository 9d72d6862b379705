use grephite::graph::Graph;
use grephite::graph::compute_degrees;
use grephite::graph::from_triples;

#[test]
fn insert_nodes_get_fresh_increasing_ids() {
    let mut g = Graph::new();
    let a = g.insert_node();
    let b = g.insert_node();
    let c = g.insert_node();
    assert_eq!(a, 1);
    assert_eq!(b, 2);
    assert_eq!(c, 3);
    assert_eq!(g.node_count(), 3);
    assert!(g.contains_node(a));
    assert!(!g.contains_node(99));
}

#[test]
fn insert_edge_updates_both_adjacency_entries() {
    let mut g = Graph::new();
    let a = g.insert_node();
    let b = g.insert_node();
    assert!(g.insert_edge(a, b, None));
    let na = g.neighbors(a).unwrap();
    let nb = g.neighbors(b).unwrap();
    assert_eq!(na, vec![b]);
    assert_eq!(nb, vec![a]);
}

#[test]
fn insert_edge_to_dead_node_is_refused() {
    let mut g = Graph::new();
    let a = g.insert_node();
    assert!(!g.insert_edge(a, 77, None));
    assert!(!g.insert_edge(77, a, None));
    assert_eq!(g.neighbors(a).unwrap(), Vec::<u64>::new());
    assert!(g.neighbors(77).is_none());
}

#[test]
fn parallel_edges_appear_twice_in_adjacency() {
    let mut g = Graph::new();
    let a = g.insert_node();
    let b = g.insert_node();
    assert!(g.insert_edge(a, b, Some(2)));
    assert!(g.insert_edge(a, b, Some(5)));
    assert_eq!(g.neighbors(a).unwrap(), vec![b, b]);
    assert_eq!(g.neighbors(b).unwrap(), vec![a, a]);
}

#[test]
fn delete_edge_removes_one_adjacency_entry_each_way() {
    let mut g = Graph::new();
    let a = g.insert_node();
    let b = g.insert_node();
    g.insert_edge(a, b, Some(2));
    g.insert_edge(a, b, Some(5));
    g.delete_edge(0);
    assert_eq!(g.neighbors(a).unwrap(), vec![b]);
    assert_eq!(g.neighbors(b).unwrap(), vec![a]);
}

#[test]
fn delete_node_cascades_to_edges_and_reverse_entries() {
    let mut g = Graph::new();
    let a = g.insert_node();
    let b = g.insert_node();
    let c = g.insert_node();
    g.insert_edge(a, b, None);
    g.insert_edge(b, c, None);
    g.insert_edge(a, c, None);
    assert!(g.delete_node(b));
    assert!(!g.contains_node(b));
    assert!(g.contains_node(a) && g.contains_node(c));
    // Only the a-c edge is left, and no list mentions the dead node.
    assert_eq!(g.neighbors(a).unwrap(), vec![c]);
    assert_eq!(g.neighbors(c).unwrap(), vec![a]);
    assert_eq!(compute_degrees(&g), vec![1, 1]);
}

#[test]
fn delete_dead_node_is_a_no_op() {
    let mut g = Graph::new();
    let a = g.insert_node();
    assert!(!g.delete_node(42));
    assert!(g.contains_node(a));
    assert_eq!(g.node_count(), 1);
}

#[test]
fn self_loop_counts_twice() {
    let mut g = Graph::new();
    let a = g.insert_node();
    assert!(g.insert_edge(a, a, None));
    assert_eq!(g.neighbors(a).unwrap(), vec![a, a]);
    assert_eq!(compute_degrees(&g), vec![2]);
    g.delete_edge(0);
    assert_eq!(g.neighbors(a).unwrap(), Vec::<u64>::new());
}

#[test]
fn from_triples_maps_duplicate_ids_to_one_node() {
    let triples = vec![(1u64, 2u64, None), (2u64, 3u64, Some(4u64)), (1u64, 3u64, None)];
    let g = from_triples(&triples);
    assert_eq!(g.node_count(), 3);
    assert_eq!(g.node_ids(), vec![1, 2, 3]);
    assert_eq!(g.neighbors(2).unwrap(), vec![1, 3]);
    assert_eq!(compute_degrees(&g), vec![2, 2, 2]);
}

#[test]
fn degrees_follow_insertions_and_deletions() {
    let mut g = Graph::new();
    let a = g.insert_node();
    let b = g.insert_node();
    let c = g.insert_node();
    g.insert_edge(a, b, None);
    g.insert_edge(a, c, None);
    assert_eq!(compute_degrees(&g), vec![2, 1, 1]);
    g.delete_edge(0);
    assert_eq!(compute_degrees(&g), vec![1, 0, 1]);
}

#[test]
fn ensure_node_keeps_counter_at_or_above_every_id() {
    let mut g = Graph::new();
    g.ensure_node(7);
    g.ensure_node(3);
    g.ensure_node(7);
    assert_eq!(g.node_count(), 2);
    let fresh = g.insert_node();
    assert_eq!(fresh, 8);
}
