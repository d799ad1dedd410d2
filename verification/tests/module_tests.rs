use oslom_core::modules::{Module, ModuleCollection};
use oslom_core::OslomError;

#[test]
fn test_module_operations() {
    let mut collection = ModuleCollection::new();

    let id1 = collection.insert_module(vec![0, 1, 2], 0.8);
    let id2 = collection.insert_module(vec![2, 3, 4], 0.7);

    assert_eq!(collection.size(), 2);
    assert_eq!(collection.coverage(), 5);

    // Test overlap
    let overlap = collection.check_overlap(id1, id2).unwrap();
    assert!(overlap > 0.0); // Should have overlap due to node 2

    // Test merge
    let merged_id = collection.merge_modules(&[id1, id2]).unwrap();
    assert_eq!(collection.size(), 1);

    let merged_module = collection.get_module(merged_id).unwrap();
    assert_eq!(merged_module.size(), 5); // All unique nodes
}

#[test]
fn test_overlapping_pairs() {
    let mut collection = ModuleCollection::new();

    collection.insert_module(vec![0, 1, 2], 0.8);
    collection.insert_module(vec![2, 3, 4], 0.7);
    collection.insert_module(vec![5, 6, 7], 0.6);

    let overlaps = collection.find_overlapping_pairs(0.1);
    assert_eq!(overlaps.len(), 1); // Only first two modules overlap
}

#[test]
fn test_homeless_nodes() {
    let mut collection = ModuleCollection::new();
    collection.insert_module(vec![0, 2, 4], 0.8);

    let homeless = collection.homeless_nodes(6);
    assert_eq!(homeless, vec![1, 3, 5]);
}

#[test]
fn merged_score_is_the_mean_and_ids_are_fresh() {
    let mut collection = ModuleCollection::new();
    let a = collection.insert_module(vec![0, 1], 0.5);
    let b = collection.insert_module(vec![1, 2], 1.5);
    assert_eq!((a, b), (0, 1));
    let merged = collection.merge_modules(&[a, 99, b]).unwrap();
    assert_eq!(merged, 2);
    let m = collection.get_module(merged).unwrap();
    assert_eq!(m.score, 1.0);
    assert_eq!(m.nodes, vec![0, 1, 2]);
    assert!(collection.get_module(a).is_none());
    assert_eq!(collection.node_memberships(1).unwrap().len(), 1);
}

#[test]
fn merge_errors_leave_collection_unchanged() {
    let mut collection: ModuleCollection<f64> = ModuleCollection::new();
    collection.insert_module(vec![3], 0.2);
    assert!(matches!(collection.merge_modules(&[]), Err(OslomError::InvalidConfig(_))));
    assert!(matches!(collection.merge_modules(&[7, 8]), Err(OslomError::InvalidConfig(_))));
    assert_eq!(collection.size(), 1);
    assert_eq!(collection.coverage(), 1);
}

#[test]
fn remove_module_updates_memberships() {
    let mut collection = ModuleCollection::new();
    let a = collection.insert_module(vec![0, 1], 0.5);
    let b = collection.insert_module(vec![1, 2], 0.5);
    let removed = collection.remove_module(a).unwrap();
    assert_eq!(removed.nodes, vec![0, 1]);
    assert!(collection.remove_module(a).is_none());
    assert!(collection.node_memberships(0).is_none());
    assert_eq!(collection.node_memberships(1).unwrap().iter().copied().collect::<Vec<_>>(), vec![b]);
    assert_eq!(collection.coverage(), 2);
}

#[test]
fn overlap_ratio_uses_smaller_module() {
    let big = Module::new(0, vec![0, 1, 2, 3], 0.0);
    let small = Module::new(1, vec![3, 4], 0.0);
    assert_eq!(big.intersection_size(&small), 1);
    assert_eq!(big.overlap_ratio(&small), 0.5);
    let empty: Module<f64> = Module::new(2, vec![], 0.0);
    assert_eq!(big.overlap_ratio(&empty), 0.0);
    assert!(small.contains(4));
    assert!(!small.contains(0));
}

#[test]
fn effective_groups_counts_non_empty_modules() {
    let mut collection = ModuleCollection::new();
    collection.insert_module(vec![], 0.0);
    collection.insert_module(vec![1], 0.0);
    assert_eq!(collection.size(), 2);
    assert_eq!(collection.effective_groups(), 1);
    let mut ids = collection.module_ids();
    ids.sort();
    assert_eq!(ids, vec![0, 1]);
    assert_eq!(collection.modules().len(), 2);
}

#[test]
fn merge_keeps_coverage() {
    let mut collection = ModuleCollection::new();
    let a = collection.insert_module(vec![0, 1, 2], 0.8);
    let b = collection.insert_module(vec![2, 3], 0.7);
    collection.insert_module(vec![9], 0.1);
    assert_eq!(collection.coverage(), 5);
    collection.merge_modules(&[a, b, a]).unwrap();
    assert_eq!(collection.coverage(), 5);
    assert_eq!(collection.homeless_nodes(10), vec![4, 5, 6, 7, 8]);
}
