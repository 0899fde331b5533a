use vibe_image_comparator::cache::{FileMetadata, HashCache};
use vibe_image_comparator::cluster::find_duplicates;
use vibe_image_comparator::encoding::decode_hash;
use vibe_image_comparator::hasher::{
    canonical_min, commit_outcomes, generate_hashes_with_cache, generate_rotation_invariant_hash_safe,
    partition_batch, perceptual_hasher_default, process_one, ImageMetadata, ProcessOutcome,
};

const ZERO: &str = "0000000000000000";
const FAR: &str = "ffffffffffffffff";

fn probe(path: &str, size: u64, sha: &str) -> Option<ImageMetadata> {
    Some(ImageMetadata { path: path.to_string(), size, sha256: sha.to_string() })
}

fn meta(path: &str, size: u64, sha: &str, hash: &str) -> FileMetadata {
    FileMetadata {
        path: path.to_string(),
        size,
        sha256: sha.to_string(),
        perceptual_hash: hash.to_string(),
    }
}

fn test_image() -> image::DynamicImage {
    let img = image::RgbImage::from_fn(32, 32, |x, y| {
        image::Rgb([(x * 8) as u8, (y * 7) as u8, ((x * 3 + y * 5) % 251) as u8])
    });
    image::DynamicImage::ImageRgb8(img)
}

#[test]
fn canonical_min_picks_smallest_encoding() {
    let cands = vec!["bb".to_string(), "aa".to_string(), "cc".to_string()];
    assert_eq!(canonical_min(&cands), Some("aa".to_string()));
    assert_eq!(canonical_min(&Vec::new()), None);
    let dup = vec!["aa".to_string(), "aa".to_string()];
    assert_eq!(canonical_min(&dup), Some("aa".to_string()));
}

#[test]
fn canonical_hash_is_rotation_invariant() {
    let hasher = perceptual_hasher_default();
    let img = test_image();
    let base = generate_rotation_invariant_hash_safe(&hasher, &img).unwrap();
    let quarter = generate_rotation_invariant_hash_safe(&hasher, &img.rotate90()).unwrap();
    let half = generate_rotation_invariant_hash_safe(&hasher, &img.rotate180()).unwrap();
    let three = generate_rotation_invariant_hash_safe(&hasher, &img.rotate270()).unwrap();
    assert_eq!(base, quarter);
    assert_eq!(base, half);
    assert_eq!(base, three);
    // The canonical encoding is a decodable 8 x 8 hash.
    assert!(decode_hash(&base).is_some());
}

#[test]
fn hashing_the_same_image_twice_is_deterministic() {
    let hasher = perceptual_hasher_default();
    let img = test_image();
    let first = generate_rotation_invariant_hash_safe(&hasher, &img).unwrap();
    let second = generate_rotation_invariant_hash_safe(&hasher, &img).unwrap();
    assert_eq!(first, second);
}

#[test]
fn rotated_pair_groups_at_threshold_zero() {
    let hasher = perceptual_hasher_default();
    let img = test_image();
    let a = generate_rotation_invariant_hash_safe(&hasher, &img).unwrap();
    let b = generate_rotation_invariant_hash_safe(&hasher, &img.rotate90()).unwrap();
    let items = vec![
        vibe_image_comparator::cluster::HashedFile {
            path: "/orig.png".to_string(),
            bits: decode_hash(&a).unwrap(),
        },
        vibe_image_comparator::cluster::HashedFile {
            path: "/turned.png".to_string(),
            bits: decode_hash(&b).unwrap(),
        },
    ];
    let grouped = find_duplicates(&items, 0);
    assert_eq!(grouped, vec![vec!["/orig.png".to_string(), "/turned.png".to_string()]]);
}

#[test]
fn same_pixels_in_three_formats_form_one_group() {
    let hasher = perceptual_hasher_default();
    // A smooth, blocky picture: lossy JPEG barely disturbs its
    // perceptual hash, so all three encodings land within the
    // threshold.
    let img = image::DynamicImage::ImageRgb8(image::RgbImage::from_fn(64, 64, |x, y| {
        let a = if x < 40 { 230u8 } else { 20u8 };
        let b = if y < 24 { 200u8 } else { 60u8 };
        image::Rgb([a, b, a / 2 + b / 2])
    }));
    let mut encoded: Vec<(String, String)> = Vec::new();
    for (name, format) in [
        ("/img.jpg", image::ImageFormat::Jpeg),
        ("/img.png", image::ImageFormat::Png),
        ("/img.webp", image::ImageFormat::WebP),
    ] {
        let mut buf = std::io::Cursor::new(Vec::new());
        img.write_to(&mut buf, format).unwrap();
        let decoded = image::load_from_memory(buf.get_ref()).unwrap();
        let hash = generate_rotation_invariant_hash_safe(&hasher, &decoded).unwrap();
        encoded.push((name.to_string(), hash));
    }
    let items: Vec<vibe_image_comparator::cluster::HashedFile> = encoded
        .iter()
        .map(|(p, h)| vibe_image_comparator::cluster::HashedFile {
            path: p.clone(),
            bits: decode_hash(h).unwrap(),
        })
        .collect();
    let grouped = find_duplicates(&items, 15);
    assert_eq!(
        grouped,
        vec![vec![
            "/img.jpg".to_string(),
            "/img.png".to_string(),
            "/img.webp".to_string(),
        ]]
    );
}

#[test]
fn partition_separates_hits_and_misses() {
    let mut store = HashCache::new_in_memory().unwrap();
    store.store_hash(&meta("/known.png", 10, "sha-k", ZERO)).unwrap();
    let probes = vec![
        probe("/known.png", 10, "sha-k"),
        probe("/unknown.png", 20, "sha-u"),
        None,
    ];
    let (hits, misses) = partition_batch(&store, &probes);
    assert_eq!(hits.len(), 1);
    assert_eq!(hits[0].path, "/known.png");
    assert_eq!(misses.len(), 1);
    assert_eq!(misses[0].path, "/unknown.png");
}

#[test]
fn stale_probe_is_a_miss() {
    let mut store = HashCache::new_in_memory().unwrap();
    store.store_hash(&meta("/a.png", 10, "sha-old", ZERO)).unwrap();
    // Same path, changed content digest: must not reuse the stale hash.
    let probes = vec![probe("/a.png", 10, "sha-new")];
    let (hits, misses) = partition_batch(&store, &probes);
    assert!(hits.is_empty());
    assert_eq!(misses.len(), 1);
}

#[test]
fn undecodable_cached_hash_is_a_miss() {
    let mut store = HashCache::new_in_memory().unwrap();
    store.store_hash(&meta("/a.png", 10, "sha-a", "garbage")).unwrap();
    let probes = vec![probe("/a.png", 10, "sha-a")];
    let (hits, misses) = partition_batch(&store, &probes);
    assert!(hits.is_empty());
    assert_eq!(misses.len(), 1);
}

#[test]
fn fully_cached_batch_does_no_hashing() {
    let mut store = HashCache::new_in_memory().unwrap();
    for (p, s, sha, h) in [
        ("/one.png", 1, "sha-1", ZERO),
        ("/two.png", 2, "sha-2", ZERO),
        ("/three.png", 3, "sha-3", FAR),
        ("/four.png", 4, "sha-4", FAR),
    ] {
        store.store_hash(&meta(p, s, sha, h)).unwrap();
    }
    // Five probes; one is an inaccessible file the caller could not
    // stat. Everything else is answered from the cache.
    let probes = vec![
        probe("/one.png", 1, "sha-1"),
        probe("/two.png", 2, "sha-2"),
        None,
        probe("/three.png", 3, "sha-3"),
        probe("/four.png", 4, "sha-4"),
    ];
    let result = generate_hashes_with_cache(&probes, &mut store).unwrap();
    assert_eq!(result.cache_hits, 4);
    assert_eq!(result.cache_misses, 0);
    assert_eq!(result.hashes.len(), 4);
    // The store kept exactly its four entries; the inaccessible path
    // never reached it.
    assert_eq!(store.table_counts().0, 4);
}

#[test]
fn unreadable_miss_is_dropped_and_evicted() {
    let mut store = HashCache::new_in_memory().unwrap();
    // The path is recorded, but its digest changed, so it is a miss;
    // opening it fails, so it is dropped and evicted from the store.
    store.store_hash(&meta("/definitely/not/here.png", 10, "sha-old", ZERO)).unwrap();
    let probes = vec![probe("/definitely/not/here.png", 11, "sha-new")];
    let result = generate_hashes_with_cache(&probes, &mut store).unwrap();
    assert_eq!(result.cache_hits, 0);
    assert_eq!(result.cache_misses, 0);
    assert!(result.hashes.is_empty());
    assert_eq!(store.table_counts(), (0, 0));
}

#[test]
fn processing_an_unreadable_file_fails_closed() {
    let hasher = perceptual_hasher_default();
    let m = ImageMetadata {
        path: "/definitely/not/here.png".to_string(),
        size: 1,
        sha256: "sha-x".to_string(),
    };
    let outcome = process_one(&hasher, &m);
    match outcome {
        ProcessOutcome::Failed { path } => assert_eq!(path, "/definitely/not/here.png"),
        ProcessOutcome::Hashed { .. } => panic!("an unreadable file cannot hash"),
    }
}

#[test]
fn commit_records_successes_and_evicts_failures() {
    let mut store = HashCache::new_in_memory().unwrap();
    store.store_hash(&meta("/broken.png", 5, "sha-b", FAR)).unwrap();
    let outcomes = vec![
        ProcessOutcome::Hashed {
            meta: ImageMetadata { path: "/new.png".to_string(), size: 7, sha256: "sha-n".to_string() },
            encoded: ZERO.to_string(),
            bits: decode_hash(ZERO).unwrap(),
        },
        ProcessOutcome::Failed { path: "/broken.png".to_string() },
    ];
    let mut results = Vec::new();
    commit_outcomes(&mut store, &outcomes, &mut results).unwrap();
    assert_eq!(results.len(), 1);
    assert_eq!(results[0].path, "/new.png");
    assert_eq!(store.get_cached_hash("/new.png", 7, "sha-n"), Some(ZERO.to_string()));
    assert_eq!(store.get_cached_hash("/broken.png", 5, "sha-b"), None);
}
