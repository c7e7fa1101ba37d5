use dungen::graph::{
    largest_connected_subgraph, longest_path_in_tree, prune_outer_nodes_to_reach_size, RoomGraph,
    spanning_tree,
};
use dungen::symmetric_map::SymmetricMap;

/// A path graph 0-1-2-...-(n-1) whose node weights equal their slots.
fn path_graph(n: usize) -> RoomGraph {
    let mut g = RoomGraph::new();
    for i in 0..n {
        g.add_node(i);
    }
    for i in 1..n {
        g.add_edge(i - 1, i);
    }
    g
}

#[test]
fn symmetric_map_lookup_is_order_blind() {
    // Symmetric map symmetry: a value inserted via (i, j) is read via (j, i).
    let mut m: SymmetricMap<u32> = SymmetricMap::new();
    m.insert(3, 9, 42);
    m.insert(5, 5, 7);
    assert_eq!(*m.get(9, 3), 42);
    assert_eq!(*m.get(3, 9), 42);
    assert_eq!(*m.get(5, 5), 7);
    m.insert(9, 3, 1);
    assert_eq!(*m.get(3, 9), 1);
}

#[test]
fn longest_path_covers_whole_path_graph() {
    // Longest-path-in-tree correctness on a path of five nodes.
    let g = path_graph(5);
    let path = longest_path_in_tree(&g);
    assert_eq!(path.len(), 5);
    let mut sorted = path.clone();
    sorted.sort();
    assert_eq!(sorted, vec![0, 1, 2, 3, 4]);
    for pair in path.windows(2) {
        assert!(pair[0].abs_diff(pair[1]) == 1);
    }
}

#[test]
fn longest_path_of_star_has_three_nodes() {
    let mut g = RoomGraph::new();
    for i in 0..4 {
        g.add_node(i);
    }
    g.add_edge(0, 1);
    g.add_edge(0, 2);
    g.add_edge(0, 3);
    let path = longest_path_in_tree(&g);
    assert_eq!(path.len(), 3);
    assert_eq!(path[1], 0);
}

#[test]
fn pruning_preserves_protected_nodes() {
    // Pruning preserves protected nodes: an acceptance predicate that
    // requires nodes 0 and 1 keeps them through any amount of pruning.
    let mut g = path_graph(3);
    let leaf_a = g.add_node(3);
    let leaf_b = g.add_node(4);
    g.add_edge(1, leaf_a);
    g.add_edge(2, leaf_b);
    let protected = [0usize, 1usize];
    prune_outer_nodes_to_reach_size(
        &mut g,
        |h: &RoomGraph| protected.iter().all(|n| h.contains_node(*n)),
        2,
    );
    assert!(g.contains_node(0));
    assert!(g.contains_node(1));
    assert!(g.node_count() <= 3);
}

#[test]
fn pruning_stops_at_target_size() {
    let mut g = path_graph(6);
    prune_outer_nodes_to_reach_size(&mut g, |_h: &RoomGraph| true, 3);
    assert_eq!(g.node_count(), 3);
}

#[test]
fn largest_component_is_selected() {
    let mut g = RoomGraph::new();
    for i in 0..6 {
        g.add_node(i);
    }
    // Component {0, 1} and component {2, 3, 4, 5}.
    g.add_edge(0, 1);
    g.add_edge(2, 3);
    g.add_edge(3, 4);
    g.add_edge(4, 5);
    let sub = largest_connected_subgraph(&g).expect("two components");
    assert_eq!(sub.node_count(), 4);
    for n in 2..6 {
        assert!(sub.contains_node(n));
    }
    assert!(!sub.contains_node(0));
    assert!(!sub.contains_node(1));
}

#[test]
fn connected_graph_needs_no_reduction() {
    let g = path_graph(4);
    assert!(largest_connected_subgraph(&g).is_none());
}

#[test]
fn spanning_tree_keeps_nodes_and_drops_cycles() {
    let mut g = RoomGraph::new();
    for i in 0..4 {
        g.add_node(i);
    }
    g.add_edge(0, 1);
    g.add_edge(1, 2);
    g.add_edge(2, 3);
    g.add_edge(3, 0);
    let t = spanning_tree(&g);
    assert_eq!(t.node_count(), 4);
    let mut edges = 0;
    for a in 0..4 {
        for b in (a + 1)..4 {
            if t.has_edge_exec(a, b) {
                assert!(g.has_edge_exec(a, b));
                edges += 1;
            }
        }
    }
    assert_eq!(edges, 3);
}

#[test]
fn removed_node_can_be_restored_exactly() {
    let mut g = path_graph(4);
    let (weight, removed) = g.remove_node(1);
    assert_eq!(weight, 1);
    assert!(!g.contains_node(1));
    assert!(!g.has_edge_exec(0, 1));
    assert_eq!(removed.len(), 2);
    g.restore_node(1, weight);
    for e in removed.iter() {
        g.add_edge(e.0, e.1);
    }
    assert!(g.contains_node(1));
    assert!(g.has_edge_exec(0, 1));
    assert!(g.has_edge_exec(1, 2));
    assert_eq!(g.node_count(), 4);
}

#[test]
fn pruning_rejected_everywhere_changes_nothing() {
    let mut g = path_graph(5);
    prune_outer_nodes_to_reach_size(&mut g, |_h: &RoomGraph| false, 1);
    assert_eq!(g.node_count(), 5);
    for n in 0..5 {
        assert!(g.contains_node(n));
    }
    for i in 1..5 {
        assert!(g.has_edge_exec(i - 1, i));
    }
}
