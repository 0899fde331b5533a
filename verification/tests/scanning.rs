use vibe_image_comparator::config::Config;
use vibe_image_comparator::scanner::{
    expand_tilde, process_file, should_ignore_path, should_process_image_file,
    validate_image_format,
};
use vibe_image_comparator::server::{build_file_infos, config_response, content_type_for, AppState};

fn accepted() -> Vec<String> {
    ["jpg", "jpeg", "png", "gif", "bmp", "tiff", "tif", "webp"]
        .iter()
        .map(|s| s.to_string())
        .collect()
}

const PNG_MAGIC: [u8; 8] = [0x89, 0x50, 0x4E, 0x47, 0x0D, 0x0A, 0x1A, 0x0A];

#[test]
fn magic_numbers_validate_by_extension() {
    assert!(validate_image_format("png", &PNG_MAGIC.to_vec()));
    assert!(validate_image_format("PNG", &PNG_MAGIC.to_vec()));
    assert!(!validate_image_format("png", &vec![0xFF, 0xD8, 0xFF, 0xE0]));
    assert!(validate_image_format("jpg", &vec![0xFF, 0xD8, 0xFF, 0xE0]));
    assert!(validate_image_format("jpeg", &vec![0xFF, 0xD8, 0xFF, 0xE0]));
    assert!(validate_image_format("gif", &b"GIF89a__".to_vec()));
    assert!(validate_image_format("gif", &b"GIF87a__".to_vec()));
    assert!(!validate_image_format("gif", &b"GIF88a__".to_vec()));
    assert!(validate_image_format("webp", &b"RIFF\x10\x00\x00\x00WEBPVP8 ".to_vec()));
    assert!(!validate_image_format("webp", &b"RIFF\x10\x00\x00\x00WAVE".to_vec()));
    assert!(validate_image_format("bmp", &b"BM\x00\x00\x00\x00".to_vec()));
    assert!(validate_image_format("tiff", &vec![0x4D, 0x4D, 0x00, 0x2A]));
    assert!(validate_image_format("tif", &vec![0x49, 0x49, 0x2A, 0x00]));
    // Unknown extensions are left to the decoder.
    assert!(validate_image_format("xyz", &vec![1, 2, 3, 4]));
}

#[test]
fn too_small_headers_never_validate() {
    assert!(!validate_image_format("png", &vec![0x89, 0x50, 0x4E]));
    assert!(!validate_image_format("xyz", &vec![1, 2, 3]));
    assert!(!validate_image_format("png", &Vec::new()));
}

#[test]
fn processing_decision_combines_all_checks() {
    let exts = accepted();
    let ext = "png".to_string();
    let header = PNG_MAGIC.to_vec();
    assert!(should_process_image_file(true, Some(&ext), &exts, false, Some(&header)));
    // Inaccessible files are skipped whatever else holds.
    assert!(!should_process_image_file(false, Some(&ext), &exts, false, Some(&header)));
    // No extension, or one that is not an image, is skipped.
    assert!(!should_process_image_file(true, None, &exts, false, Some(&header)));
    let text = "txt".to_string();
    assert!(!should_process_image_file(true, Some(&text), &exts, false, Some(&header)));
    // A wrong header fails validation unless validation is skipped.
    let bad = vec![0u8, 0, 0, 0];
    assert!(!should_process_image_file(true, Some(&ext), &exts, false, Some(&bad)));
    assert!(should_process_image_file(true, Some(&ext), &exts, true, Some(&bad)));
    // An unreadable header fails closed.
    assert!(!should_process_image_file(true, Some(&ext), &exts, false, None));
    // Extension matching ignores case.
    let upper = "PNG".to_string();
    assert!(should_process_image_file(true, Some(&upper), &exts, false, Some(&header)));
}

#[test]
fn process_file_yields_the_path_or_nothing() {
    let exts = accepted();
    let ext = "png".to_string();
    let header = PNG_MAGIC.to_vec();
    let path = "/pics/cat.png".to_string();
    let listed = process_file(&path, true, Some(&ext), &exts, false, Some(&header));
    assert_eq!(listed, vec![path.clone()]);
    let skipped = process_file(&path, false, Some(&ext), &exts, false, Some(&header));
    assert!(skipped.is_empty());
}

#[test]
fn ignore_patterns_match_by_prefix() {
    let patterns = vec!["/home/me/secret".to_string(), "/tmp/".to_string()];
    assert!(should_ignore_path("/home/me/secret/a.png", &patterns));
    assert!(should_ignore_path("/home/me/secretive", &patterns));
    assert!(should_ignore_path("/tmp/x.png", &patterns));
    assert!(!should_ignore_path("/home/me/public/a.png", &patterns));
    assert!(!should_ignore_path("/var/tmp/x.png", &patterns));
    assert!(!should_ignore_path("/a", &Vec::new()));
}

#[test]
fn tilde_expansion_uses_the_given_home() {
    let home = "/home/me".to_string();
    assert_eq!(expand_tilde("~", Some(&home)), "/home/me");
    assert_eq!(expand_tilde("~/pics", Some(&home)), "/home/me/pics");
    assert_eq!(expand_tilde("/abs/path", Some(&home)), "/abs/path");
    assert_eq!(expand_tilde("~elsewhere", Some(&home)), "~elsewhere");
    assert_eq!(expand_tilde("~/pics", None), "~/pics");
    assert_eq!(expand_tilde("~", None), "~");
}

#[test]
fn config_response_prefers_overrides() {
    let state = AppState {
        config: Config { grid_size: 64, threshold: 15, database_path: None },
        threshold_override: Some(5),
        grid_size_override: None,
    };
    let response = config_response(&state);
    assert_eq!(response.threshold, 5);
    assert_eq!(response.grid_size, 64);
    assert!(response.database_path.is_none());
}

#[test]
fn content_types_follow_the_extension() {
    let ext = |s: &str| Some(s.to_string());
    assert_eq!(content_type_for(ext("jpg").as_ref()), "image/jpeg");
    assert_eq!(content_type_for(ext("jpeg").as_ref()), "image/jpeg");
    assert_eq!(content_type_for(ext("png").as_ref()), "image/png");
    assert_eq!(content_type_for(ext("gif").as_ref()), "image/gif");
    assert_eq!(content_type_for(ext("webp").as_ref()), "image/webp");
    assert_eq!(content_type_for(ext("bmp").as_ref()), "image/bmp");
    assert_eq!(content_type_for(ext("tiff").as_ref()), "image/tiff");
    assert_eq!(content_type_for(ext("tif").as_ref()), "image/tiff");
    assert_eq!(content_type_for(ext("txt").as_ref()), "application/octet-stream");
    assert_eq!(content_type_for(None), "application/octet-stream");
}

#[test]
fn file_infos_pair_paths_with_existence() {
    let groups = vec![
        vec!["/a".to_string(), "/b".to_string()],
        vec!["/c".to_string()],
    ];
    let exists = vec![vec![true, false], vec![true]];
    let infos = build_file_infos(&groups, &exists);
    assert_eq!(infos.len(), 2);
    assert_eq!(infos[0][0].path, "/a");
    assert!(infos[0][0].exists);
    assert_eq!(infos[0][1].path, "/b");
    assert!(!infos[0][1].exists);
    assert_eq!(infos[1][0].path, "/c");
}
