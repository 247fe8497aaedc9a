//! Behaviour of the edge-list graph operations on concrete values.

use adj_list::AdjList;

#[test]
fn new_graph_has_one_slot() {
    let g = AdjList::new();
    assert_eq!(g.len(), 1);
    assert_eq!(g.edge_count(), 0);
}

#[test]
fn add_node_raises_len_to_max() {
    let mut g = AdjList::new();
    g.add_node(2);
    assert_eq!(g.len(), 3);
    g.add_node(1);
    assert_eq!(g.len(), 3);
    g.add_node(5);
    assert_eq!(g.len(), 6);
    g.add_node(0);
    assert_eq!(g.len(), 6);
    assert_eq!(g.edge_count(), 0);
}

#[test]
fn connect_is_symmetric() {
    let mut g = AdjList::new();
    g.add_node(2);
    g.connect(0, 1, 5);
    assert!(g.nodes_connected(0, 1));
    assert!(g.nodes_connected(1, 0));
    assert_eq!(g.distance(0, 1), 5);
    assert_eq!(g.distance(1, 0), 5);
}

#[test]
fn connect_overwrites_weight() {
    let mut g = AdjList::new();
    g.add_node(1);
    g.connect(0, 1, 5);
    g.connect(0, 1, 9);
    assert_eq!(g.distance(0, 1), 9);
    assert_eq!(g.distance(1, 0), 9);
    // exactly one logical edge: two directed records, no duplicates
    assert_eq!(g.edge_count(), 2);
}

#[test]
fn chain_scenario() {
    let mut g = AdjList::new();
    g.add_node(2);
    g.connect(0, 1, 5);
    g.connect(1, 2, 7);
    assert_eq!(g.len(), 3);
    assert_eq!(g.distance(0, 1), 5);
    assert_eq!(g.distance(1, 2), 7);
    assert!(!g.nodes_connected(0, 2));
}

#[test]
fn neighbours_in_insertion_order() {
    let mut g = AdjList::new();
    g.add_node(3);
    g.connect(0, 2, 4);
    g.connect(0, 1, 6);
    assert_eq!(g.node_neighbours(0), vec![2, 1]);
    assert_eq!(g.node_neighbours(1), vec![0]);
    assert_eq!(g.node_neighbours(2), vec![0]);
    assert_eq!(g.node_neighbours(3), Vec::<usize>::new());
    assert_eq!(g.num_neighbours(0), 2);
    assert_eq!(g.num_neighbours(3), 0);
}

#[test]
fn out_of_range_query_is_false() {
    let mut g = AdjList::new();
    g.add_node(1);
    g.connect(0, 1, 3);
    assert!(!g.nodes_connected(5, 7));
    assert!(!g.nodes_connected(0, 9));
}

#[test]
fn self_loop_is_one_record() {
    let mut g = AdjList::new();
    g.add_node(1);
    g.connect(0, 0, 3);
    assert!(g.nodes_connected(0, 0));
    assert_eq!(g.distance(0, 0), 3);
    assert_eq!(g.edge_count(), 1);
    g.connect(0, 0, 8);
    assert_eq!(g.distance(0, 0), 8);
    assert_eq!(g.edge_count(), 1);
}

#[test]
fn memory_counts_record_bytes() {
    let mut g = AdjList::new();
    assert_eq!(g.memory(), 0);
    g.add_node(1);
    g.connect(0, 1, 3);
    assert_eq!(g.memory(), 2 * std::mem::size_of::<adj_list::EdgeRecord>());
}

#[test]
fn graph_connected_on_chain() {
    let mut g = AdjList::new();
    g.add_node(2);
    g.connect(0, 1, 5);
    g.connect(1, 2, 7);
    assert!(g.graph_connected());
}

#[test]
fn graph_connected_single_node() {
    let g = AdjList::new();
    assert!(g.graph_connected());
}

#[test]
fn graph_not_connected_without_edges() {
    let mut g = AdjList::new();
    g.add_node(1);
    assert!(!g.graph_connected());
}

#[test]
fn graph_not_connected_with_isolated_node() {
    let mut g = AdjList::new();
    g.add_node(3);
    g.connect(0, 1, 2);
    g.connect(1, 2, 2);
    assert!(!g.graph_connected());
    g.connect(3, 0, 2);
    assert!(g.graph_connected());
}
