use vibe_image_comparator::cache::{FileMetadata, HashCache};
use vibe_image_comparator::config::Config;
use vibe_image_comparator::errors::CoreError;

fn meta(path: &str, size: u64, sha: &str, hash: &str) -> FileMetadata {
    FileMetadata {
        path: path.to_string(),
        size,
        sha256: sha.to_string(),
        perceptual_hash: hash.to_string(),
    }
}

const HASH_A: &str = "0000000000000000";
const HASH_B: &str = "00000000000000ff";
const HASH_C: &str = "ffffffffffffffff";

#[test]
fn record_then_lookup_hits() {
    let mut store = HashCache::new_in_memory().unwrap();
    store.store_hash(&meta("/a.png", 10, "sha-a", HASH_A)).unwrap();
    let got = store.get_cached_hash("/a.png", 10, "sha-a");
    assert_eq!(got, Some(HASH_A.to_string()));
}

#[test]
fn lookup_mismatch_returns_nothing() {
    let mut store = HashCache::new_in_memory().unwrap();
    store.store_hash(&meta("/a.png", 10, "sha-a", HASH_A)).unwrap();
    assert_eq!(store.get_cached_hash("/a.png", 11, "sha-a"), None);
    assert_eq!(store.get_cached_hash("/a.png", 10, "sha-other"), None);
    assert_eq!(store.get_cached_hash("/b.png", 10, "sha-a"), None);
}

#[test]
fn record_is_idempotent() {
    let mut store = HashCache::new_in_memory().unwrap();
    store.store_hash(&meta("/a.png", 10, "sha-a", HASH_A)).unwrap();
    store.store_hash(&meta("/a.png", 10, "sha-a", HASH_A)).unwrap();
    assert_eq!(store.get_all_cached_hashes().len(), 1);
    assert_eq!(store.table_counts(), (1, 1));
    assert_eq!(store.get_cached_hash("/a.png", 10, "sha-a"), Some(HASH_A.to_string()));
}

#[test]
fn identical_content_shares_one_hash_row() {
    let mut store = HashCache::new_in_memory().unwrap();
    store.store_hash(&meta("/a.png", 10, "sha-same", HASH_A)).unwrap();
    store.store_hash(&meta("/b.jpg", 10, "sha-same", HASH_A)).unwrap();
    assert_eq!(store.table_counts(), (2, 1));
    let all = store.get_all_cached_hashes();
    assert_eq!(all.len(), 2);
    assert!(all.iter().all(|(_, h)| h == HASH_A));
}

#[test]
fn rehash_replaces_in_place_and_collects_orphan() {
    let mut store = HashCache::new_in_memory().unwrap();
    store.store_hash(&meta("/a.png", 10, "sha-old", HASH_A)).unwrap();
    store.store_hash(&meta("/a.png", 12, "sha-new", HASH_B)).unwrap();
    assert_eq!(store.get_cached_hash("/a.png", 10, "sha-old"), None);
    assert_eq!(store.get_cached_hash("/a.png", 12, "sha-new"), Some(HASH_B.to_string()));
    // The old digest's hash row lost its last reference and is gone.
    assert_eq!(store.table_counts(), (1, 1));
}

#[test]
fn forget_unknown_path_is_noop_but_clears_groups() {
    let mut store = HashCache::new_in_memory().unwrap();
    store.store_hash(&meta("/a.png", 10, "sha-a", HASH_A)).unwrap();
    store.store_hash(&meta("/b.png", 11, "sha-b", HASH_B)).unwrap();
    store
        .store_duplicate_groups(15, &vec![vec!["/a.png".to_string(), "/b.png".to_string()]])
        .unwrap();
    assert!(store.get_cached_duplicate_groups(15).is_some());
    store.remove_file_entry("/never-recorded.png").unwrap();
    // No table change...
    assert_eq!(store.table_counts(), (2, 2));
    assert_eq!(store.get_cached_hash("/a.png", 10, "sha-a"), Some(HASH_A.to_string()));
    // ...but the group cache is cleared unconditionally.
    assert_eq!(store.get_cached_duplicate_groups(15), None);
}

#[test]
fn forget_removes_entry_and_orphaned_hash() {
    let mut store = HashCache::new_in_memory().unwrap();
    store.store_hash(&meta("/a.png", 10, "sha-a", HASH_A)).unwrap();
    store.store_hash(&meta("/b.png", 11, "sha-b", HASH_B)).unwrap();
    store.remove_file_entry("/a.png").unwrap();
    assert_eq!(store.get_cached_hash("/a.png", 10, "sha-a"), None);
    assert_eq!(store.get_cached_hash("/b.png", 11, "sha-b"), Some(HASH_B.to_string()));
    assert_eq!(store.table_counts(), (1, 1));
}

#[test]
fn sweep_removes_exactly_the_missing_file() {
    let mut store = HashCache::new_in_memory().unwrap();
    store.store_hash(&meta("/gone.png", 10, "sha-a", HASH_A)).unwrap();
    store.store_hash(&meta("/kept.png", 11, "sha-b", HASH_B)).unwrap();
    let removed = store.cleanup_missing_files(&vec!["/gone.png".to_string()]).unwrap();
    assert_eq!(removed, 1);
    assert_eq!(store.get_cached_hash("/gone.png", 10, "sha-a"), None);
    assert_eq!(store.get_cached_hash("/kept.png", 11, "sha-b"), Some(HASH_B.to_string()));
    // A second pass finds nothing left to remove.
    let removed_again = store.cleanup_missing_files(&vec!["/gone.png".to_string()]).unwrap();
    assert_eq!(removed_again, 0);
}

#[test]
fn transactional_sweep_counts_files_and_hashes() {
    let mut store = HashCache::new_in_memory().unwrap();
    store.store_hash(&meta("/gone.png", 10, "sha-a", HASH_A)).unwrap();
    store.store_hash(&meta("/kept.png", 11, "sha-b", HASH_B)).unwrap();
    store
        .store_duplicate_groups(15, &vec![vec!["/gone.png".to_string(), "/kept.png".to_string()]])
        .unwrap();
    let (files, hashes) =
        store.cleanup_missing_files_and_hashes(&vec!["/gone.png".to_string()]).unwrap();
    assert_eq!((files, hashes), (1, 1));
    assert_eq!(store.get_cached_duplicate_groups(15), None);
    let (files2, hashes2) =
        store.cleanup_missing_files_and_hashes(&vec!["/gone.png".to_string()]).unwrap();
    assert_eq!((files2, hashes2), (0, 0));
}

#[test]
fn group_round_trip_and_invalidation() {
    let mut store = HashCache::new_in_memory().unwrap();
    store.store_hash(&meta("/a.png", 10, "sha-a", HASH_A)).unwrap();
    store.store_hash(&meta("/b.png", 11, "sha-b", HASH_B)).unwrap();
    let groups = vec![vec!["/a.png".to_string(), "/b.png".to_string()]];
    store.store_duplicate_groups(7, &groups).unwrap();
    // Immediate load for the same threshold returns an equal set.
    assert_eq!(store.get_cached_duplicate_groups(7), Some(groups.clone()));
    // A different threshold has nothing cached.
    assert_eq!(store.get_cached_duplicate_groups(8), None);
    // Recording any new file makes the fingerprint stale.
    store.store_hash(&meta("/c.png", 12, "sha-c", HASH_C)).unwrap();
    assert_eq!(store.get_cached_duplicate_groups(7), None);
}

#[test]
fn storing_groups_drops_singletons() {
    let mut store = HashCache::new_in_memory().unwrap();
    store.store_hash(&meta("/a.png", 10, "sha-a", HASH_A)).unwrap();
    store.store_hash(&meta("/b.png", 11, "sha-b", HASH_B)).unwrap();
    let groups = vec![
        vec!["/lone.png".to_string()],
        vec!["/a.png".to_string(), "/b.png".to_string()],
    ];
    store.store_duplicate_groups(5, &groups).unwrap();
    assert_eq!(
        store.get_cached_duplicate_groups(5),
        Some(vec![vec!["/a.png".to_string(), "/b.png".to_string()]])
    );
}

#[test]
fn storing_an_empty_group_list_replaces_with_nothing() {
    let mut store = HashCache::new_in_memory().unwrap();
    store.store_hash(&meta("/a.png", 10, "sha-a", HASH_A)).unwrap();
    store.store_hash(&meta("/b.png", 11, "sha-b", HASH_B)).unwrap();
    // Nothing cached yet: an empty replacement still caches nothing.
    store.store_duplicate_groups(5, &Vec::new()).unwrap();
    assert_eq!(store.get_cached_duplicate_groups(5), None);
    // An empty replacement deletes the threshold's cached rows...
    store
        .store_duplicate_groups(5, &vec![vec!["/a.png".to_string(), "/b.png".to_string()]])
        .unwrap();
    assert!(store.get_cached_duplicate_groups(5).is_some());
    store.store_duplicate_groups(5, &Vec::new()).unwrap();
    assert_eq!(store.get_cached_duplicate_groups(5), None);
    // ...and leaves other thresholds alone.
    store
        .store_duplicate_groups(6, &vec![vec!["/a.png".to_string(), "/b.png".to_string()]])
        .unwrap();
    store.store_duplicate_groups(5, &Vec::new()).unwrap();
    assert!(store.get_cached_duplicate_groups(6).is_some());
}

#[test]
fn clearing_groups_leaves_tables_alone() {
    let mut store = HashCache::new_in_memory().unwrap();
    store.store_hash(&meta("/a.png", 10, "sha-a", HASH_A)).unwrap();
    store.store_hash(&meta("/b.png", 11, "sha-b", HASH_B)).unwrap();
    store
        .store_duplicate_groups(15, &vec![vec!["/a.png".to_string(), "/b.png".to_string()]])
        .unwrap();
    store.clear_duplicate_groups_cache().unwrap();
    assert_eq!(store.get_cached_duplicate_groups(15), None);
    assert_eq!(store.table_counts(), (2, 2));
}

#[test]
fn listing_is_sorted_by_path() {
    let mut store = HashCache::new_in_memory().unwrap();
    store.store_hash(&meta("/c.png", 1, "sha-c", HASH_C)).unwrap();
    store.store_hash(&meta("/a.png", 2, "sha-a", HASH_A)).unwrap();
    store.store_hash(&meta("/b.png", 3, "sha-b", HASH_B)).unwrap();
    let all = store.get_all_cached_hashes();
    let paths: Vec<String> = all.iter().map(|(p, _)| p.clone()).collect();
    assert_eq!(paths, vec!["/a.png", "/b.png", "/c.png"]);
}

#[test]
fn opening_an_impossible_location_is_unavailable() {
    let result = HashCache::new(Some("/nonexistent-dir-for-sure/deeper/cache.db"));
    assert!(matches!(result, Err(CoreError::StoreUnavailable { .. })));
}

#[test]
fn error_messages_describe_each_failure() {
    let unavailable = CoreError::StoreUnavailable { detail: "no such directory".to_string() };
    assert!(unavailable.message().contains("store unavailable"));
    let store = CoreError::Store { detail: "constraint".to_string() };
    assert!(store.message().contains("store operation failed"));
    assert!(!CoreError::HashGenerationFailed.message().is_empty());
    assert!(!CoreError::DecodeError.message().is_empty());
    assert!(!CoreError::InaccessibleFile.message().is_empty());
}

#[test]
fn config_defaults_and_overrides() {
    let config = Config::default();
    assert_eq!(config.grid_size, 64);
    assert_eq!(config.threshold, 15);
    assert!(config.database_path.is_none());
    assert_eq!(config.effective_threshold(None), 15);
    assert_eq!(config.effective_threshold(Some(3)), 3);
    assert_eq!(config.effective_grid_size(None), 64);
    assert_eq!(config.effective_grid_size(Some(128)), 128);
}
