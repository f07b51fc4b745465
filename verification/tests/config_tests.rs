use hashline::config::{HashAlgorithm, HashlineConfig};


#[test]
fn test_default_config() {
    let cfg = HashlineConfig::default();
    assert!(cfg.enable_snapshots);
    assert_eq!(cfg.hash_algorithm, HashAlgorithm::Xxh32);
    assert_eq!(cfg.max_snapshots_per_file, 4);
    assert_eq!(cfg.max_snapshot_paths, 30);
    assert_eq!(cfg.max_snapshot_bytes, 64 * 1024 * 1024);
}

#[test]
fn test_hash_algorithm_default() {
    assert_eq!(HashAlgorithm::default(), HashAlgorithm::Xxh32);
}
