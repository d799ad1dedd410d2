use std::cell::RefCell;

use oslom_core::oslom::{evaluate_modules, run_oslom, ModuleScorer, OslomConfig, Progress};
use oslom_core::statistics::calculate_edge_statistics;
use oslom_core::{ModuleCollection, Network, NetworkBuilder, NodeId, OslomError};

/// Scores a module by its number of nodes and records progress events.
struct SizeScorer {
    events: RefCell<Vec<Progress>>,
}

impl ModuleScorer<f64> for SizeScorer {
    fn evaluate_module(&self, _network: &Network<f64>, nodes: &[NodeId]) -> f64 {
        nodes.len() as f64
    }

    fn progress(&self, event: Progress) {
        self.events.borrow_mut().push(event);
    }
}

fn two_triangles() -> Network<f64> {
    let mut builder = NetworkBuilder::new(false);
    builder.add_edge(0, 1, 1.0)
           .add_edge(1, 2, 1.0)
           .add_edge(2, 0, 1.0)
           .add_edge(3, 4, 1.0)
           .add_edge(4, 5, 1.0)
           .add_edge(5, 3, 1.0)
           .add_edge(2, 3, 0.1);
    builder.build()
}

#[test]
fn empty_network_is_insufficient_data() {
    let network: Network<f64> = NetworkBuilder::new(false).build();
    let scorer = SizeScorer { events: RefCell::new(Vec::new()) };
    let result = run_oslom(&network, &OslomConfig::default(), &scorer);
    assert!(matches!(result, Err(OslomError::InsufficientData(_))));
    assert!(scorer.events.borrow().is_empty());
}

#[test]
fn oslom_levels_and_statistics() {
    let network = two_triangles();
    let scorer = SizeScorer { events: RefCell::new(Vec::new()) };
    let config = OslomConfig::default();
    let result = run_oslom(&network, &config, &scorer).unwrap();
    assert!(result.num_levels() > 0);
    assert_eq!(result.max_level() + 1, result.num_levels());
    assert_eq!(result.statistics.total_nodes, 6);
    let base = result.get_level(0).unwrap();
    assert_eq!(result.statistics.num_modules, base.size());
    assert_eq!(result.statistics.coverage, base.coverage());
    assert_eq!(result.statistics.coverage + result.statistics.homeless_nodes, 6);
    assert!(result.get_level(99).is_none());
    let formatted = result.to_python_format();
    assert_eq!(formatted.len(), result.num_levels());
    assert_eq!(formatted[&0].len(), base.size());
    let events = scorer.events.borrow();
    assert_eq!(events[0], Progress::LevelStart { level: 0 });
    assert!(events.contains(&Progress::ModulesFound { level: 0, count: base.size() }));
}

#[test]
fn threshold_above_every_score_gives_no_levels() {
    let network = two_triangles();
    let scorer = SizeScorer { events: RefCell::new(Vec::new()) };
    let mut config = OslomConfig::default();
    config.threshold = 100.0;
    let result = run_oslom(&network, &config, &scorer).unwrap();
    assert_eq!(result.num_levels(), 0);
    assert_eq!(result.max_level(), 0);
    assert_eq!(result.statistics.num_modules, 0);
    assert_eq!(result.statistics.homeless_nodes, 6);
    assert_eq!(*scorer.events.borrow().last().unwrap(), Progress::NoModules { level: 0 });
}

#[test]
fn several_runs_with_singletons() {
    let mut builder = NetworkBuilder::new(false);
    builder.add_edge(0, 1, 1.0).add_edge(1, 2, 1.0).add_edge(2, 0, 1.0).add_edge(3, 3, 1.0);
    let network = builder.build();
    let scorer = SizeScorer { events: RefCell::new(Vec::new()) };
    let mut config = OslomConfig::default();
    config.num_threads = None;
    config.r = 3;
    config.find_singletons = true;
    let result = run_oslom(&network, &config, &scorer).unwrap();
    let runs: Vec<Progress> = scorer
        .events
        .borrow()
        .iter()
        .copied()
        .filter(|e| matches!(e, Progress::Run { .. }))
        .collect();
    assert_eq!(runs[0], Progress::Run { run: 1, runs: 3 });
    assert!(result.num_levels() >= 1);
}

#[test]
fn default_config_values() {
    let config: OslomConfig<f64> = OslomConfig::default();
    assert_eq!(config.r, 10);
    assert_eq!(config.hr, 50);
    assert_eq!(config.threshold, 0.1);
    assert_eq!(config.cp, 0.5);
    assert!(!config.find_singletons);
    assert_eq!(config.random_seed, None);
    assert!(!config.verbose);
    assert_eq!(config.max_iterations, 100);
    assert_eq!(config.convergence_tolerance, 1e-6);
    assert_eq!(config.num_threads, Some(1));
}

#[test]
fn edge_statistics_of_a_triangle() {
    let network = two_triangles();
    assert_eq!(calculate_edge_statistics(&network, &[0, 1, 2]), (3, 1, 7));
    assert_eq!(calculate_edge_statistics(&network, &[0, 3]), (0, 5, 5));
    assert_eq!(calculate_edge_statistics(&network, &[]), (0, 0, 0));
}

/// Scores a module by its number of nodes; stands in for the statistical
/// test, which lives outside the library.
struct ModuleSize;

impl ModuleScorer<f64> for ModuleSize {
    fn evaluate_module(&self, _network: &Network<f64>, nodes: &[NodeId]) -> f64 {
        nodes.len() as f64
    }

    fn progress(&self, _event: Progress) {}
}

#[test]
fn test_basic_oslom() {
    let mut builder = NetworkBuilder::new(false);
    // Create a simple network with two communities
    builder.add_edge(0, 1, 1.0)
           .add_edge(1, 2, 1.0)
           .add_edge(2, 0, 1.0)
           .add_edge(3, 4, 1.0)
           .add_edge(4, 5, 1.0)
           .add_edge(5, 3, 1.0)
           .add_edge(2, 3, 0.1); // Weak connection between communities

    let network = builder.build();
    let config = OslomConfig::default();

    let result = run_oslom(&network, &config, &ModuleSize).unwrap();

    assert!(result.num_levels() > 0);
    assert!(result.statistics.num_modules > 0);
    assert!(result.statistics.coverage > 0);
}

#[test]
fn test_empty_network() {
    let network = NetworkBuilder::new(false).build();
    let config = OslomConfig::default();

    let result = run_oslom(&network, &config, &ModuleSize);
    assert!(result.is_err());
}

#[test]
fn test_single_node() {
    let mut builder = NetworkBuilder::new(false);
    builder.add_edge(0, 0, 1.0); // Self-loop

    let network = builder.build();
    let config = OslomConfig::default();

    let result = run_oslom(&network, &config, &ModuleSize).unwrap();
    assert_eq!(result.statistics.total_nodes, 1);
}

#[test]
fn python_format_lists_each_module_once() {
    let network = two_triangles();
    let result = run_oslom(&network, &OslomConfig::default(), &ModuleSize).unwrap();
    let formatted = result.to_python_format();
    for (level, numbered) in &formatted {
        let collection = result.get_level(*level).unwrap();
        let mut listed: Vec<Vec<NodeId>> = numbered.values().cloned().collect();
        let mut expected: Vec<Vec<NodeId>> =
            collection.modules().iter().map(|m| m.nodes.clone()).collect();
        listed.sort();
        expected.sort();
        assert_eq!(listed, expected);
        let mut keys: Vec<usize> = numbered.keys().copied().collect();
        keys.sort();
        assert_eq!(keys, (0..collection.size()).collect::<Vec<usize>>());
    }
}

#[test]
fn level_zero_modules_hold_only_network_nodes() {
    let mut builder = NetworkBuilder::new(false);
    builder.add_edge(10, 11, 1.0)
           .add_edge(11, 12, 1.0)
           .add_edge(12, 10, 1.0)
           .add_edge(20, 21, 1.0);
    let network = builder.build();
    let result = run_oslom(&network, &OslomConfig::default(), &ModuleSize).unwrap();
    let node_list = network.nodes();
    let base = result.get_level(0).unwrap();
    for module in base.modules() {
        for node in &module.nodes {
            assert!(node_list.contains(node));
        }
    }
    assert!(result.statistics.coverage <= result.statistics.total_nodes);
    assert_eq!(result.statistics.total_nodes, 5);
}

#[test]
fn singletons_found_with_one_thread() {
    let mut builder = NetworkBuilder::new(false);
    builder.add_edge(0, 1, 1.0).add_edge(1, 2, 1.0).add_edge(2, 0, 1.0).add_edge(4, 4, 1.0);
    let network = builder.build();
    let mut config = OslomConfig::default();
    config.r = 2;
    config.find_singletons = true;
    assert_eq!(config.num_threads, Some(1));
    let scorer = SizeScorer { events: RefCell::new(Vec::new()) };
    let result = run_oslom(&network, &config, &scorer).unwrap();
    let base = result.get_level(0).unwrap();
    assert!(base.modules().iter().any(|m| m.nodes == vec![3]));
    let runs = scorer
        .events
        .borrow()
        .iter()
        .filter(|e| matches!(e, Progress::Run { .. }))
        .count();
    assert!(runs >= 2);
}

#[test]
fn seeded_run_succeeds() {
    let network = two_triangles();
    let mut config = OslomConfig::default();
    config.random_seed = Some(7);
    let result = run_oslom(&network, &config, &ModuleSize).unwrap();
    assert!(result.num_levels() > 0);
    assert_eq!(result.statistics.total_nodes, 6);
}

#[test]
fn self_loop_network_succeeds_with_one_module_per_node() {
    let mut builder = NetworkBuilder::new(false);
    builder.add_edge(0, 0, 1.0).add_edge(1, 1, 2.0).add_edge(2, 2, 1.0);
    let network = builder.build();
    let result = run_oslom(&network, &OslomConfig::default(), &ModuleSize).unwrap();
    assert_eq!(result.num_levels(), 1);
    let base = result.get_level(0).unwrap();
    assert_eq!(base.size(), 3);
    assert_eq!(base.coverage(), 3);
    for module in base.modules() {
        assert_eq!(module.nodes.len(), 1);
        assert_eq!(module.score, 1.0);
    }
}

#[test]
fn evaluated_modules_keep_the_scorers_values() {
    let network = two_triangles();
    let mut modules = ModuleCollection::new();
    modules.insert_module(vec![0], 0.0);
    modules.insert_module(vec![0, 1, 2], 0.0);
    modules.insert_module(vec![3, 4], 0.0);
    let kept = evaluate_modules(&network, 2.0, &modules, &ModuleSize);
    assert_eq!(kept.size(), 2);
    let mut found: Vec<(Vec<NodeId>, f64)> =
        kept.modules().iter().map(|m| (m.nodes.clone(), m.score)).collect();
    found.sort_by(|a, b| a.0.cmp(&b.0));
    assert_eq!(found, vec![(vec![0, 1, 2], 3.0), (vec![3, 4], 2.0)]);
    let ids: Vec<usize> = kept.modules().iter().map(|m| m.id).collect();
    let mut sorted_ids = ids.clone();
    sorted_ids.sort();
    assert_eq!(sorted_ids, vec![0, 1]);
}

#[test]
fn self_loop_network_succeeds_with_singletons() {
    let mut builder = NetworkBuilder::new(false);
    builder.add_edge(0, 0, 1.0).add_edge(1, 1, 1.0).add_edge(2, 2, 1.0).add_edge(3, 3, 1.0);
    let network = builder.build();
    let mut config = OslomConfig::default();
    config.find_singletons = true;
    config.threshold = 5.0;
    let result = run_oslom(&network, &config, &ModuleSize).unwrap();
    assert_eq!(result.num_levels(), 1);
    let base = result.get_level(0).unwrap();
    assert_eq!(base.size(), 4);
    assert_eq!(base.coverage(), 4);
    for module in base.modules() {
        assert_eq!(module.nodes.len(), 1);
        assert_eq!(module.score, 0.0);
    }
}
