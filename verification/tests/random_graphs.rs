//! Behaviour of the spanning-chain generator, with seeded random sources.

use adj_list::AdjList;
use rand::rngs::SmallRng;
use rand::SeedableRng;

/// Breadth-first traversal over `node_neighbours`, starting from node 0.
fn reachable_from_zero(g: &AdjList) -> Vec<bool> {
    let n = g.len();
    let mut seen = vec![false; n];
    let mut queue = vec![0usize];
    seen[0] = true;
    while let Some(u) = queue.pop() {
        for v in g.node_neighbours(u) {
            if !seen[v] {
                seen[v] = true;
                queue.push(v);
            }
        }
    }
    seen
}

#[test]
fn random_connected_spans_all_nodes() {
    let mut rng = SmallRng::seed_from_u64(42);
    let g = AdjList::random_connected(5, &mut rng);
    assert_eq!(g.len(), 5);
    // a spanning chain: exactly n - 1 undirected connections, two records each
    assert_eq!(g.edge_count(), 8);
    let seen = reachable_from_zero(&g);
    assert!(seen.iter().all(|&s| s));
}

#[test]
fn random_connected_larger_graph() {
    let mut rng = SmallRng::seed_from_u64(7);
    let g = AdjList::random_connected(50, &mut rng);
    assert_eq!(g.len(), 50);
    assert_eq!(g.edge_count(), 2 * 49);
    let seen = reachable_from_zero(&g);
    assert!(seen.iter().all(|&s| s));
    assert!(g.graph_connected());
}

#[test]
fn random_connected_single_node() {
    let mut rng = SmallRng::seed_from_u64(3);
    let g = AdjList::random_connected(1, &mut rng);
    assert_eq!(g.len(), 1);
    assert_eq!(g.edge_count(), 0);
}

#[test]
fn random_connected_weights_in_range() {
    let mut rng = SmallRng::seed_from_u64(11);
    let g = AdjList::random_connected(10, &mut rng);
    for i in 0..g.edge_count() {
        let (_, _, w) = g.edge_at(i);
        assert!((adj_list::MIN_WEIGHT..=adj_list::MAX_WEIGHT).contains(&w));
    }
}

#[test]
fn same_seed_gives_identical_edge_lists() {
    let mut rng1 = SmallRng::seed_from_u64(42);
    let mut rng2 = SmallRng::seed_from_u64(42);
    let g1 = AdjList::random_connected(5, &mut rng1);
    let g2 = AdjList::random_connected(5, &mut rng2);
    assert_eq!(g1.len(), g2.len());
    assert_eq!(g1.edge_count(), g2.edge_count());
    for i in 0..g1.edge_count() {
        assert_eq!(g1.edge_at(i), g2.edge_at(i));
    }
}

#[test]
fn from_spanning_order_lays_exact_records() {
    let order = vec![2usize, 0, 1];
    let weights = vec![7, 9];
    let g = AdjList::from_spanning_order(&order, &weights);
    assert_eq!(g.len(), 3);
    assert_eq!(g.edge_count(), 4);
    assert_eq!(g.edge_at(0), (2, 0, 7));
    assert_eq!(g.edge_at(1), (0, 2, 7));
    assert_eq!(g.edge_at(2), (0, 1, 9));
    assert_eq!(g.edge_at(3), (1, 0, 9));
    assert_eq!(g.distance(2, 0), 7);
    assert_eq!(g.distance(0, 1), 9);
    assert!(!g.nodes_connected(2, 1));
    assert!(g.graph_connected());
}

#[test]
fn from_spanning_order_is_deterministic() {
    let order = vec![3usize, 1, 0, 2];
    let weights = vec![4, 5, 6];
    let g1 = AdjList::from_spanning_order(&order, &weights);
    let g2 = AdjList::from_spanning_order(&order, &weights);
    assert_eq!(g1.edge_count(), g2.edge_count());
    for i in 0..g1.edge_count() {
        assert_eq!(g1.edge_at(i), g2.edge_at(i));
    }
}
