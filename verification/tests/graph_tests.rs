use oslom_core::{Network, NetworkBuilder};

#[test]
fn test_basic_functionality() {
    let mut builder = NetworkBuilder::new(false);
    builder.add_edge(0, 1, 1.0);
    builder.add_edge(1, 2, 1.0);
    builder.add_edge(2, 3, 1.0);

    let network = builder.build();
    assert_eq!(network.node_count(), 4);
    assert_eq!(network.edge_count(), 3);
}

#[test]
fn test_undirected_network() {
    let mut builder = NetworkBuilder::new(false);
    builder.add_edge(0, 1, 1.0)
           .add_edge(1, 2, 2.0)
           .add_edge(2, 0, 1.5);

    let network = builder.build();

    assert_eq!(network.node_count(), 3);
    assert_eq!(network.edge_count(), 3);
    assert!(!network.is_directed());

    // Check degrees
    assert_eq!(network.degree(0), 2);
    assert_eq!(network.degree(1), 2);
    assert_eq!(network.degree(2), 2);

    // Check weighted degrees
    assert_eq!(network.weighted_degree(0), 2.5);
    assert_eq!(network.weighted_degree(1), 3.0);
    assert_eq!(network.weighted_degree(2), 3.5);
}

#[test]
fn test_directed_network() {
    let mut builder = NetworkBuilder::new(true);
    builder.add_edge(0, 1, 1.0)
           .add_edge(1, 2, 2.0);

    let network = builder.build();

    assert_eq!(network.node_count(), 3);
    assert_eq!(network.edge_count(), 2);
    assert!(network.is_directed());

    assert_eq!(network.degree(0), 1);
    assert_eq!(network.degree(1), 1);
    assert_eq!(network.degree(2), 0);
}

#[test]
fn test_subgraph() {
    let mut builder = NetworkBuilder::new(false);
    builder.add_edge(0, 1, 1.0)
           .add_edge(1, 2, 1.0)
           .add_edge(2, 3, 1.0)
           .add_edge(0, 3, 1.0);

    let network = builder.build();
    let subgraph = network.subgraph(&[0, 1, 2]);

    assert_eq!(subgraph.node_count(), 3);
    assert_eq!(subgraph.edge_count(), 2); // Only edges within the subgraph
}

#[test]
fn non_positive_weights_are_skipped() {
    let mut builder = NetworkBuilder::new(false);
    builder.add_edge(0, 1, 0.0).add_edge(1, 2, -1.0).add_edge(2, 3, 0.5);
    let network = builder.build();
    assert_eq!(network.node_count(), 2);
    assert_eq!(network.edge_count(), 1);
    assert_eq!(network.total_weight(), 0.5);
    assert_eq!(network.degree(1), 0);
}

#[test]
fn self_loop_counts_once_in_adjacency() {
    let mut builder = NetworkBuilder::new(false);
    builder.add_edge(0, 0, 1.0).add_edge(0, 1, 2.0);
    let network = builder.build();
    assert_eq!(network.degree(0), 2);
    assert_eq!(network.degree(1), 1);
    // three adjacency entries, halved and rounded down
    assert_eq!(network.edge_count(), 1);
    assert_eq!(network.total_weight(), 3.0);
    assert_eq!(network.neighbors(0).unwrap(), &[(0, 1.0), (1, 2.0)][..]);
    assert!(network.neighbors(7).is_none());
}

#[test]
fn nodes_lists_each_node_once() {
    let mut builder = NetworkBuilder::new(true);
    builder.add_edge(5, 6, 1.0).add_edge(6, 5, 1.0).add_edge(7, 5, 1.0);
    let network: Network<f64> = builder.build();
    let mut nodes = network.nodes();
    nodes.sort();
    assert_eq!(nodes, vec![5, 6, 7]);
    assert_eq!(network.weighted_degree(9), 0.0);
}

#[test]
fn directed_subgraph_keeps_direction() {
    let mut builder = NetworkBuilder::new(true);
    builder.add_edge(0, 1, 1.0).add_edge(1, 0, 2.0).add_edge(1, 2, 3.0);
    let network = builder.build();
    let sub = network.subgraph(&[1, 0, 1]);
    assert!(sub.is_directed());
    assert_eq!(sub.edge_count(), 2);
    assert_eq!(sub.weighted_degree(1), 2.0);
    assert_eq!(sub.total_weight(), 3.0);
}

#[test]
fn undirected_adjacency_is_symmetric() {
    let mut builder = NetworkBuilder::new(false);
    builder.add_edge(0, 1, 1.0).add_edge(1, 0, 2.0).add_edge(1, 2, 1.0).add_edge(2, 2, 1.0);
    let network = builder.build();
    for u in 0..3usize {
        for v in 0..3usize {
            let uv = network.neighbors(u).map_or(0, |s| s.iter().filter(|e| e.0 == v).count());
            let vu = network.neighbors(v).map_or(0, |s| s.iter().filter(|e| e.0 == u).count());
            assert_eq!(uv, vu);
        }
    }
}

#[test]
fn subgraph_of_all_nodes_keeps_every_edge() {
    let mut builder = NetworkBuilder::new(false);
    builder.add_edge(0, 1, 1.0).add_edge(1, 2, 2.0).add_edge(2, 2, 3.0);
    let network = builder.build();
    let all = network.nodes();
    let sub = network.subgraph(&all);
    assert_eq!(sub.edge_count(), network.edge_count());
    assert_eq!(sub.total_weight(), network.total_weight());
    for n in all {
        assert_eq!(sub.neighbors(n), network.neighbors(n));
    }
}
