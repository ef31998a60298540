use textbuf::metrics::RopeMetrics;

#[test]
fn test_metrics_recording_counts() {
    let mut metrics = RopeMetrics::new();
    metrics.record_insertion(100);
    metrics.record_deletion(50);
    metrics.record_search();
    metrics.record_split();
    metrics.record_merge();
    metrics.record_rebalance();
    metrics.record_rotation();
    metrics.record_node(true);
    metrics.record_node(false);
    metrics.record_time(10_000_000);
    metrics.update_max_height(5);
    metrics.record_memory_usage(1024);
    metrics.record_cache_hit();
    metrics.record_cache_miss();

    assert_eq!(metrics.total_insertions, 1);
    assert_eq!(metrics.total_deletions, 1);
    assert_eq!(metrics.total_searches, 1);
    assert_eq!(metrics.total_nodes, 2);
    assert_eq!(metrics.total_leaves, 1);
    assert_eq!(metrics.total_internal_nodes, 1);
    assert_eq!(metrics.max_height, 5);
    assert_eq!(metrics.total_bytes, 50);
    assert_eq!(metrics.total_operations, 3);
    assert!(metrics.get_total_time() >= 10_000_000);
    assert_eq!(metrics.peak_memory_usage, 1024);
    assert_eq!(metrics.cache_hits, 1);
    assert_eq!(metrics.cache_misses, 1);
}

#[test]
fn test_metrics_reset() {
    let mut metrics = RopeMetrics::new();
    metrics.record_insertion(100);
    metrics.record_search();
    metrics.reset();

    assert_eq!(metrics.total_insertions, 0);
    assert_eq!(metrics.total_searches, 0);
    assert_eq!(metrics.total_operations, 0);
}

#[test]
fn test_metrics_clone() {
    let mut metrics = RopeMetrics::new();
    metrics.record_insertion(100);

    let cloned = metrics.clone();
    assert_eq!(cloned.total_insertions, metrics.total_insertions);
}

#[test]
fn test_metrics_node_removal() {
    let mut metrics = RopeMetrics::new();
    metrics.record_node(true);
    metrics.record_node(false);
    metrics.record_node_removed(true);
    assert_eq!(metrics.total_nodes, 1);
    assert_eq!(metrics.total_leaves, 0);
    assert_eq!(metrics.total_internal_nodes, 1);
}
