use vibe_image_comparator::cache::{FileMetadata, HashCache};
use vibe_image_comparator::cluster::{
    find_duplicates, get_duplicates_from_cache, paginate_groups, HashedFile,
};
use vibe_image_comparator::encoding::{decode_hash, distance};

const ZERO: &str = "0000000000000000";
const ONE_BIT: &str = "0000000000000001";
const TWO_BITS: &str = "0000000000000003";
const FAR: &str = "ffffffffffffffff";

fn item(path: &str, encoded: &str) -> HashedFile {
    HashedFile { path: path.to_string(), bits: decode_hash(encoded).unwrap() }
}

fn meta(path: &str, size: u64, sha: &str, hash: &str) -> FileMetadata {
    FileMetadata {
        path: path.to_string(),
        size,
        sha256: sha.to_string(),
        perceptual_hash: hash.to_string(),
    }
}

#[test]
fn decoding_rejects_malformed_encodings() {
    assert!(decode_hash("").is_none());
    assert!(decode_hash("00ff").is_none());
    assert!(decode_hash("00000000000000zz").is_none());
    assert!(decode_hash("00000000000000001").is_none());
    assert!(decode_hash(ZERO).is_some());
    assert!(decode_hash("ABCDEF0123456789").is_some());
}

#[test]
fn distance_counts_differing_bits() {
    let a = decode_hash(ZERO).unwrap();
    let b = decode_hash(ONE_BIT).unwrap();
    let c = decode_hash(TWO_BITS).unwrap();
    let far = decode_hash(FAR).unwrap();
    assert_eq!(distance(&a, &b), 1);
    assert_eq!(distance(&a, &c), 2);
    assert_eq!(distance(&b, &c), 1);
    assert_eq!(distance(&a, &far), 64);
}

#[test]
fn distance_is_symmetric_and_zero_on_self() {
    let a = decode_hash("acdbe86135344e3a").unwrap();
    let b = decode_hash("00f0ce661a5b11a5").unwrap();
    assert_eq!(distance(&a, &b), distance(&b, &a));
    assert_eq!(distance(&a, &a), 0);
    assert_eq!(distance(&b, &b), 0);
}

#[test]
fn decoded_distance_agrees_with_imghash() {
    let pairs = [
        ("acdbe86135344e3a", "00f0ce661a5b11a5"),
        (ZERO, FAR),
        (ONE_BIT, TWO_BITS),
        ("0123456789abcdef", "fedcba9876543210"),
    ];
    for (s1, s2) in pairs {
        let ours = distance(&decode_hash(s1).unwrap(), &decode_hash(s2).unwrap());
        let theirs = imghash::ImageHash::decode(s1, 8, 8)
            .unwrap()
            .distance(&imghash::ImageHash::decode(s2, 8, 8).unwrap())
            .unwrap();
        assert_eq!(ours as usize, theirs);
    }
}

#[test]
fn threshold_boundary_groups_at_exact_distance() {
    let items = vec![item("/a", ZERO), item("/b", ONE_BIT)];
    // distance is exactly 1: grouped at threshold 1...
    let grouped = find_duplicates(&items, 1);
    assert_eq!(grouped, vec![vec!["/a".to_string(), "/b".to_string()]]);
    // ...but not at one less.
    let apart = find_duplicates(&items, 0);
    assert!(apart.is_empty());
}

#[test]
fn threshold_zero_groups_only_identical_hashes() {
    let items = vec![item("/a", ZERO), item("/b", ZERO), item("/c", ONE_BIT)];
    let grouped = find_duplicates(&items, 0);
    assert_eq!(grouped, vec![vec!["/a".to_string(), "/b".to_string()]]);
}

#[test]
fn three_identical_hashes_form_one_group() {
    let items = vec![item("/x.jpg", FAR), item("/x.png", FAR), item("/x.webp", FAR)];
    let grouped = find_duplicates(&items, 15);
    assert_eq!(
        grouped,
        vec![vec!["/x.jpg".to_string(), "/x.png".to_string(), "/x.webp".to_string()]]
    );
}

#[test]
fn clustering_is_anchor_greedy_not_transitive() {
    // b is within 1 of both a and c, but c is 2 away from a: once a
    // claims b, c is never compared to b again and stays alone.
    let items = vec![item("/a", ZERO), item("/b", ONE_BIT), item("/c", TWO_BITS)];
    let grouped = find_duplicates(&items, 1);
    assert_eq!(grouped, vec![vec!["/a".to_string(), "/b".to_string()]]);
}

#[test]
fn group_output_follows_input_order() {
    let items = vec![
        item("/far", FAR),
        item("/a", ZERO),
        item("/b", ZERO),
        item("/far2", FAR),
    ];
    let grouped = find_duplicates(&items, 0);
    assert_eq!(
        grouped,
        vec![
            vec!["/far".to_string(), "/far2".to_string()],
            vec!["/a".to_string(), "/b".to_string()],
        ]
    );
}

#[test]
fn cached_duplicates_recompute_then_shortcut() {
    let mut store = HashCache::new_in_memory().unwrap();
    store.store_hash(&meta("/a.png", 1, "sha-a", ZERO)).unwrap();
    store.store_hash(&meta("/b.png", 2, "sha-b", ZERO)).unwrap();
    store.store_hash(&meta("/c.png", 3, "sha-c", FAR)).unwrap();
    let expected = vec![vec!["/a.png".to_string(), "/b.png".to_string()]];
    // First call recomputes from the stored hashes and persists.
    let first = get_duplicates_from_cache(&mut store, 3).unwrap();
    assert_eq!(first, expected);
    assert_eq!(store.get_cached_duplicate_groups(3), Some(expected.clone()));
    // Second call can answer from the cached groups.
    let second = get_duplicates_from_cache(&mut store, 3).unwrap();
    assert_eq!(second, expected);
    // A store change invalidates the shortcut; recomputation picks
    // up the new file.
    store.store_hash(&meta("/d.png", 4, "sha-d", ZERO)).unwrap();
    assert_eq!(store.get_cached_duplicate_groups(3), None);
    let third = get_duplicates_from_cache(&mut store, 3).unwrap();
    assert_eq!(
        third,
        vec![vec!["/a.png".to_string(), "/b.png".to_string(), "/d.png".to_string()]]
    );
}

#[test]
fn undecodable_stored_hashes_are_skipped() {
    let mut store = HashCache::new_in_memory().unwrap();
    store.store_hash(&meta("/ok1.png", 1, "sha-a", ZERO)).unwrap();
    store.store_hash(&meta("/ok2.png", 2, "sha-b", ZERO)).unwrap();
    store.store_hash(&meta("/bad.png", 3, "sha-c", "not-a-hash")).unwrap();
    let groups = get_duplicates_from_cache(&mut store, 0).unwrap();
    assert_eq!(groups, vec![vec!["/ok1.png".to_string(), "/ok2.png".to_string()]]);
}

#[test]
fn pagination_slices_the_group_list() {
    let groups: Vec<Vec<String>> = (0..5)
        .map(|i| vec![format!("/g{}/a", i), format!("/g{}/b", i)])
        .collect();
    let page = paginate_groups(&groups, 1, Some(2));
    assert_eq!(page, groups[1..3].to_vec());
    let tail = paginate_groups(&groups, 3, None);
    assert_eq!(tail, groups[3..].to_vec());
    let beyond = paginate_groups(&groups, 9, Some(2));
    assert!(beyond.is_empty());
    let oversized = paginate_groups(&groups, 4, Some(10));
    assert_eq!(oversized, groups[4..].to_vec());
}
