use oslom_core::louvain::LouvainOptimizer;
use oslom_core::NetworkBuilder;

#[test]
fn test_louvain_simple() {
    let mut builder = NetworkBuilder::new(false);
    // Create two triangles connected by a weak edge
    builder.add_edge(0, 1, 1.0)
           .add_edge(1, 2, 1.0)
           .add_edge(2, 0, 1.0)
           .add_edge(3, 4, 1.0)
           .add_edge(4, 5, 1.0)
           .add_edge(5, 3, 1.0)
           .add_edge(2, 3, 0.1);

    let network = builder.build();
    let mut optimizer = LouvainOptimizer::new(&network);
    let result = optimizer.optimize().unwrap();

    // Should find at least 2 communities
    assert!(result.size() >= 2);
    assert!(result.coverage() == 6); // All nodes should be assigned
}

#[test]
fn test_louvain_single_node() {
    let mut builder = NetworkBuilder::new(false);
    builder.add_edge(0, 0, 1.0);

    let network = builder.build();
    let mut optimizer = LouvainOptimizer::new(&network);
    let result = optimizer.optimize().unwrap();

    assert_eq!(result.size(), 1);
    assert_eq!(result.coverage(), 1);
}

#[test]
fn test_louvain_disconnected() {
    let mut builder = NetworkBuilder::new(false);
    builder.add_edge(0, 1, 1.0)
           .add_edge(2, 3, 1.0); // Two disconnected edges

    let network = builder.build();
    let mut optimizer = LouvainOptimizer::new(&network);
    let result = optimizer.optimize().unwrap();

    // Should find separate communities for disconnected components
    assert!(result.size() >= 2);
    assert_eq!(result.coverage(), 4);
}

#[test]
fn louvain_modules_are_sorted_and_disjoint() {
    let mut builder = NetworkBuilder::new(false);
    builder.add_edge(9, 4, 1.0).add_edge(4, 7, 1.0).add_edge(7, 9, 1.0).add_edge(1, 2, 1.0);
    let network = builder.build();
    let mut optimizer = LouvainOptimizer::new(&network);
    let result = optimizer.optimize().unwrap();
    let mut seen = Vec::new();
    for m in result.modules() {
        assert!(!m.nodes.is_empty());
        assert!(m.nodes.windows(2).all(|w| w[0] < w[1]));
        seen.extend(m.nodes.iter().copied());
    }
    seen.sort();
    assert_eq!(seen, vec![1, 2, 4, 7, 9]);
}

#[test]
fn louvain_modules_stay_in_components() {
    let mut builder = NetworkBuilder::new(false);
    builder.add_edge(0, 1, 1.0).add_edge(1, 2, 1.0).add_edge(2, 0, 1.0);
    builder.add_edge(10, 11, 1.0).add_edge(11, 12, 1.0).add_edge(12, 10, 1.0);
    let network = builder.build();
    let mut optimizer = LouvainOptimizer::new(&network);
    let modules = optimizer.optimize().unwrap();
    for module in modules.modules() {
        let low = module.nodes.iter().all(|&n| n < 10);
        let high = module.nodes.iter().all(|&n| n >= 10);
        assert!(low || high);
    }
}

#[test]
fn louvain_self_loop_only_succeeds() {
    let mut builder = NetworkBuilder::new(false);
    builder.add_edge(3, 3, 1.0).add_edge(5, 5, 2.0);
    let network = builder.build();
    let mut optimizer = LouvainOptimizer::new(&network);
    let modules = optimizer.optimize().unwrap();
    assert_eq!(modules.size(), 2);
    assert_eq!(modules.coverage(), 2);
}

fn node_sets(result: &oslom_core::ModuleCollection<f64>) -> Vec<Vec<usize>> {
    let mut sets: Vec<Vec<usize>> = result.modules().iter().map(|m| m.nodes.clone()).collect();
    sets.sort();
    sets
}

#[test]
fn louvain_second_optimize_repeats_modules() {
    let mut builder = NetworkBuilder::new(false);
    builder.add_edge(0, 1, 1.0)
           .add_edge(1, 2, 1.0)
           .add_edge(2, 0, 1.0)
           .add_edge(3, 4, 1.0)
           .add_edge(4, 5, 1.0)
           .add_edge(5, 3, 1.0)
           .add_edge(2, 3, 0.1);
    let network = builder.build();
    let mut optimizer = LouvainOptimizer::new(&network);
    let first = optimizer.optimize().unwrap();
    let second = optimizer.optimize().unwrap();
    assert_eq!(node_sets(&first), node_sets(&second));
    assert_eq!(node_sets(&first), vec![vec![0, 1, 2], vec![3, 4, 5]]);
}
