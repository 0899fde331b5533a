use vibe_image_comparator::cache::{
    blob_column_present, convert_legacy_rows, FileMetadata, HashCache,
};

fn meta(path: &str, size: u64, sha: &str, hash: &str) -> FileMetadata {
    FileMetadata {
        path: path.to_string(),
        size,
        sha256: sha.to_string(),
        perceptual_hash: hash.to_string(),
    }
}

const HASH_A: &str = "0000000000000000";
const HASH_B: &str = "00000000000000ff";

/// Gives each test a clean database file to work against.
fn scrub(path: &str) {
    let conn = rusqlite::Connection::open(path).unwrap();
    conn.execute_batch(
        "DROP TABLE IF EXISTS duplicate_group_files;
         DROP TABLE IF EXISTS duplicate_groups;
         DROP TABLE IF EXISTS files;
         DROP TABLE IF EXISTS perceptual_hashes;
         DROP TABLE IF EXISTS file_hashes;",
    )
    .unwrap();
}

#[test]
fn reopening_a_file_backed_store_keeps_everything() {
    let path = "/tmp/vibe_image_comparator_test_persist.db";
    scrub(path);
    {
        let mut store = HashCache::new(Some(path)).unwrap();
        store.store_hash(&meta("/b.png", 11, "sha-b", HASH_B)).unwrap();
        store.store_hash(&meta("/a.png", 10, "sha-a", HASH_A)).unwrap();
        store
            .store_duplicate_groups(9, &vec![vec!["/a.png".to_string(), "/b.png".to_string()]])
            .unwrap();
    }
    let reopened = HashCache::new(Some(path)).unwrap();
    assert_eq!(reopened.get_cached_hash("/a.png", 10, "sha-a"), Some(HASH_A.to_string()));
    assert_eq!(reopened.get_cached_hash("/b.png", 11, "sha-b"), Some(HASH_B.to_string()));
    let all = reopened.get_all_cached_hashes();
    let paths: Vec<String> = all.iter().map(|(p, _)| p.clone()).collect();
    assert_eq!(paths, vec!["/a.png", "/b.png"]);
    // The reloaded tables recompute the same fingerprint, so the
    // cached groups are still valid.
    assert_eq!(
        reopened.get_cached_duplicate_groups(9),
        Some(vec![vec!["/a.png".to_string(), "/b.png".to_string()]])
    );
}

#[test]
fn legacy_flat_table_is_adopted_and_dropped() {
    let path = "/tmp/vibe_image_comparator_test_legacy.db";
    scrub(path);
    {
        let conn = rusqlite::Connection::open(path).unwrap();
        conn.execute_batch(
            "CREATE TABLE file_hashes (path TEXT UNIQUE NOT NULL, size INTEGER NOT NULL, sha256 TEXT NOT NULL, perceptual_hash BLOB NOT NULL);",
        )
        .unwrap();
        conn.execute(
            "INSERT INTO file_hashes (path, size, sha256, perceptual_hash) VALUES (?1, ?2, ?3, ?4)",
            ("/old.png", 10i64, "sha-old", HASH_A.as_bytes().to_vec()),
        )
        .unwrap();
        // A raw, non-text hash is unusable under the current encoding
        // and its row is dropped by the migration.
        conn.execute(
            "INSERT INTO file_hashes (path, size, sha256, perceptual_hash) VALUES (?1, ?2, ?3, ?4)",
            ("/binary.png", 11i64, "sha-bin", vec![0xffu8, 0xfe, 0x00]),
        )
        .unwrap();
    }
    let store = HashCache::new(Some(path)).unwrap();
    assert_eq!(store.get_cached_hash("/old.png", 10, "sha-old"), Some(HASH_A.to_string()));
    assert_eq!(store.get_all_cached_hashes().len(), 1);
    drop(store);
    let conn = rusqlite::Connection::open(path).unwrap();
    let legacy_count: i64 = conn
        .query_row(
            "SELECT COUNT(*) FROM sqlite_master WHERE type='table' AND name='file_hashes'",
            (),
            |row| row.get(0),
        )
        .unwrap();
    assert_eq!(legacy_count, 0);
}

#[test]
fn blob_encoded_schema_is_rebuilt() {
    let path = "/tmp/vibe_image_comparator_test_blobcol.db";
    scrub(path);
    {
        let conn = rusqlite::Connection::open(path).unwrap();
        conn.execute_batch(
            "CREATE TABLE perceptual_hashes (id INTEGER PRIMARY KEY, sha256 TEXT UNIQUE NOT NULL, perceptual_hash BLOB NOT NULL, created_at DATETIME DEFAULT CURRENT_TIMESTAMP);
             CREATE TABLE files (id INTEGER PRIMARY KEY, path TEXT UNIQUE NOT NULL, size INTEGER NOT NULL, perceptual_hash_id INTEGER NOT NULL, created_at DATETIME DEFAULT CURRENT_TIMESTAMP);",
        )
        .unwrap();
        conn.execute(
            "INSERT INTO perceptual_hashes (sha256, perceptual_hash) VALUES (?1, ?2)",
            ("sha-x", vec![1u8, 2, 3]),
        )
        .unwrap();
        conn.execute(
            "INSERT INTO files (path, size, perceptual_hash_id) VALUES (?1, ?2, 1)",
            ("/x.png", 5i64),
        )
        .unwrap();
    }
    // The destructive upgrade loses the cached data but leaves a
    // working, current schema.
    let mut store = HashCache::new(Some(path)).unwrap();
    assert!(store.get_all_cached_hashes().is_empty());
    store.store_hash(&meta("/fresh.png", 7, "sha-f", HASH_B)).unwrap();
    drop(store);
    let reopened = HashCache::new(Some(path)).unwrap();
    assert_eq!(reopened.get_cached_hash("/fresh.png", 7, "sha-f"), Some(HASH_B.to_string()));
}

#[test]
fn legacy_row_conversion_clamps_and_drops() {
    let rows: Vec<(String, i64, String, Vec<u8>)> = vec![
        ("/ok.png".to_string(), 10, "sha-1".to_string(), HASH_A.as_bytes().to_vec()),
        ("/neg.png".to_string(), -4, "sha-2".to_string(), HASH_B.as_bytes().to_vec()),
        ("/bin.png".to_string(), 3, "sha-3".to_string(), vec![0xff, 0xfe]),
    ];
    let converted = convert_legacy_rows(&rows);
    assert_eq!(converted.len(), 2);
    assert_eq!(converted[0].path, "/ok.png");
    assert_eq!(converted[0].size, 10);
    assert_eq!(converted[0].perceptual_hash, HASH_A);
    assert_eq!(converted[1].path, "/neg.png");
    assert_eq!(converted[1].size, 0);
    assert_eq!(converted[1].perceptual_hash, HASH_B);
}

#[test]
fn blob_column_detection_matches_name_and_type() {
    let blob = vec![
        ("id".to_string(), "INTEGER".to_string()),
        ("perceptual_hash".to_string(), "blob".to_string()),
    ];
    assert!(blob_column_present(&blob));
    let text = vec![
        ("id".to_string(), "INTEGER".to_string()),
        ("perceptual_hash".to_string(), "TEXT".to_string()),
    ];
    assert!(!blob_column_present(&text));
    let other = vec![("payload".to_string(), "BLOB".to_string())];
    assert!(!blob_column_present(&other));
    assert!(!blob_column_present(&Vec::new()));
}
