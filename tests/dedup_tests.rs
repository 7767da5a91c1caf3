use stowr_core::ContentDeduplicator;

#[test]
fn test_deduplicator_basic() {
    let mut dedup = ContentDeduplicator::new();

    let hash1 = "abc123".to_string();
    assert_eq!(dedup.check_duplicate(&hash1), None);

    dedup.register_file(hash1.clone(), "storage1".to_string());

    assert_eq!(dedup.check_duplicate(&hash1), Some("storage1".to_string()));

    let info = dedup.get_dedup_info("storage1").unwrap();
    assert_eq!(info.ref_count, 2);
}

#[test]
fn test_hash_calculation() {
    let data = b"Hello, World!";
    let hash = ContentDeduplicator::calculate_hash(data);
    assert!(!hash.is_empty());
    assert_eq!(hash.len(), 64);
}

#[test]
fn test_remove_reference() {
    let mut dedup = ContentDeduplicator::new();

    dedup.register_file("hash1".to_string(), "storage1".to_string());
    dedup.check_duplicate("hash1");

    assert!(!dedup.remove_reference("storage1"));

    assert!(dedup.remove_reference("storage1"));
}

#[test]
fn test_remove_reference_by_hash() {
    let mut dedup = ContentDeduplicator::new();

    dedup.register_file("hash1".to_string(), "storage1".to_string());
    dedup.check_duplicate("hash1");

    assert!(!dedup.remove_hash_reference("hash1"));

    assert!(dedup.remove_hash_reference("hash1"));
}

#[test]
fn test_add_reference_by_hash() {
    let mut dedup = ContentDeduplicator::new();

    dedup.register_file("hash1".to_string(), "storage1".to_string());

    dedup.add_hash_reference("hash1", "storage1");

    let info = dedup.get_dedup_info("storage1").unwrap();
    assert_eq!(info.ref_count, 2);

    dedup.add_hash_reference("hash2", "storage2");
    assert_eq!(dedup.lookup("hash2"), Some("storage2".to_string()));
}

#[test]
fn hash_is_lowercase_hex_sha256() {
    let hash = ContentDeduplicator::calculate_hash(b"");
    assert_eq!(hash, "e3b0c44298fc1c149afbf4c8996fb92427ae41e4649b934ca495991b7852b855");
    let hash = ContentDeduplicator::calculate_hash(b"abc");
    assert_eq!(hash, "ba7816bf8f01cfea414140de5dae2223b00361a396177a9cb410ff61f20015ad");
}

#[test]
fn release_of_unknown_id_says_delete() {
    let mut dedup = ContentDeduplicator::new();
    assert!(dedup.remove_reference("nothing"));
    assert!(dedup.remove_hash_reference("nothing"));
}

#[test]
fn add_reference_with_other_id_changes_nothing() {
    let mut dedup = ContentDeduplicator::new();
    dedup.register_file("h".to_string(), "a".to_string());
    dedup.add_hash_reference("h", "b");
    assert_eq!(dedup.get_dedup_info("a").unwrap().ref_count, 1);
    assert!(dedup.get_dedup_info("b").is_none());
}

#[test]
fn rebuild_replaces_state_and_stats_count() {
    let mut dedup = ContentDeduplicator::new();
    dedup.register_file("old".to_string(), "x".to_string());
    dedup
        .rebuild_from_index(vec![
            ("id1".to_string(), "h1".to_string(), 3),
            ("id2".to_string(), "h2".to_string(), 1),
        ])
        .unwrap();
    assert!(dedup.lookup("old").is_none());
    assert_eq!(dedup.lookup("h1"), Some("id1".to_string()));
    let info = dedup.get_reference_info("h1").unwrap();
    assert_eq!(info.ref_count, 3);
    assert!(info.is_reference);
    assert_eq!(info.original_storage_id, Some("id1".to_string()));
    let stats = dedup.get_stats();
    assert_eq!(stats.total_files, 4);
    assert_eq!(stats.unique_files, 2);
    assert_eq!(stats.duplicate_files, 2);
}
