use gallery_core::names::{
    escape_like_pattern, file_stem_from_rel_path, is_image_ext, parent_folder,
    strip_trailing_index_suffix,
};
use gallery_core::paths::{
    authorize, is_under_root, join_paths, normalize_rel_path, path_to_rel_string, relative_path,
    resolve_full_path, PolicyViolation,
};

#[test]
fn normalize_turns_backslashes_and_trims() {
    assert_eq!(normalize_rel_path("photos\\2024\\a.jpg"), "photos/2024/a.jpg");
    assert_eq!(normalize_rel_path("  /photos/2024/  "), "photos/2024");
    assert_eq!(normalize_rel_path("///a///"), "a");
    assert_eq!(normalize_rel_path(""), "");
    assert_eq!(normalize_rel_path(" \t\n"), "");
    assert_eq!(normalize_rel_path("/"), "");
}

#[test]
fn normalize_trims_white_space_before_slashes_only() {
    // White space inside the slashes stays: slashes are stripped after it.
    assert_eq!(normalize_rel_path("/ a /"), " a ");
    assert_eq!(normalize_rel_path("\u{3000}a\u{a0}"), "a");
}

#[test]
fn normalize_collapses_every_dot_segment() {
    assert_eq!(normalize_rel_path("a/./b"), "a/b");
    assert_eq!(normalize_rel_path("a/././b"), "a/b");
    assert_eq!(normalize_rel_path("a/./././b/./c"), "a/b/c");
    assert_eq!(normalize_rel_path("a/./b/./c"), "a/b/c");
    assert_eq!(normalize_rel_path("a/.//./b"), "a//b");
    assert_eq!(normalize_rel_path("./a"), "./a");
    assert_eq!(normalize_rel_path("a/."), "a/.");
    assert_eq!(normalize_rel_path("a/../b"), "a/../b");
    assert_eq!(normalize_rel_path("a/.b/c"), "a/.b/c");
    for text in ["a/././b", "/./././", "x/./y/././z/.", "\\.\\.\\a"] {
        assert!(!normalize_rel_path(text).contains("/./"));
    }
}

#[test]
fn join_puts_one_slash_between() {
    assert_eq!(join_paths("/data", "a/b.jpg"), "/data/a/b.jpg");
    assert_eq!(join_paths("/data/", "a"), "/data/a");
    assert_eq!(join_paths("", "a"), "a");
    assert_eq!(join_paths("/data", ""), "/data/");
    assert_eq!(join_paths("/data", "/etc"), "/etc");
}

#[test]
fn resolve_cleans_lexically() {
    assert_eq!(resolve_full_path("/data", "a/b.jpg"), "/data/a/b.jpg");
    assert_eq!(resolve_full_path("/data", "a/../b"), "/data/b");
    assert_eq!(resolve_full_path("/data", "a//b/./c"), "/data/a/b/c");
    assert_eq!(resolve_full_path("/data", "../outside"), "/outside");
    assert_eq!(resolve_full_path("/data", ""), "/data");
    assert_eq!(resolve_full_path("/data/photos", "../../x"), "/x");
}

#[test]
fn containment_is_a_prefix_of_the_root_string() {
    assert!(is_under_root("/data", "/data/a.jpg"));
    assert!(is_under_root("/data", "/data"));
    assert!(!is_under_root("/data", "/dat"));
    assert!(!is_under_root("/data", "/outside"));
    assert!(!is_under_root("/data", "/other/data"));
    assert!(is_under_root("", "/anything"));
}

#[test]
fn boundary_admits_paths_under_root() {
    let p = authorize("/data", " photos\\2024/ ", false).unwrap();
    assert_eq!(p.rel, "photos/2024");
    assert_eq!(p.full, "/data/photos/2024");
    assert!(is_under_root("/data", &p.full));
}

#[test]
fn boundary_rejects_escape_when_policy_disallows() {
    assert_eq!(authorize("/data", "../outside", false).unwrap_err(), PolicyViolation);
    assert_eq!(authorize("/data", "a/../../outside/x.jpg", false).unwrap_err(), PolicyViolation);
    // The resolved path lies outside the root.
    assert!(!is_under_root("/data", &resolve_full_path("/data", "../outside")));
}

#[test]
fn boundary_admits_escape_when_policy_allows() {
    let p = authorize("/data", "../outside", true).unwrap();
    assert_eq!(p.rel, "../outside");
    assert_eq!(p.full, "/outside");
}

#[test]
fn dot_dot_inside_root_is_admitted() {
    let p = authorize("/data", "a/b/../c.jpg", false).unwrap();
    assert_eq!(p.full, "/data/a/c.jpg");
}

#[test]
fn relative_string_of_paths() {
    assert_eq!(path_to_rel_string("/data", "/data/a/b.jpg"), "a/b.jpg");
    assert_eq!(path_to_rel_string("/data", "/data"), "");
    assert_eq!(path_to_rel_string("/data", "/outside/x.jpg"), "../outside/x.jpg");
    // A relative path has no form relative to an absolute root.
    assert_eq!(path_to_rel_string("/data", "a.jpg"), "");
    assert_eq!(relative_path("a.jpg", "/data"), None);
    assert_eq!(relative_path("/data/a.jpg", "/data"), Some("a.jpg".to_string()));
}

#[test]
fn image_extensions_ignore_case() {
    assert!(is_image_ext("a.jpg"));
    assert!(is_image_ext("a.JPG"));
    assert!(is_image_ext("dir/a.Jpeg"));
    assert!(is_image_ext("a.png"));
    assert!(is_image_ext("a.gif"));
    assert!(is_image_ext("a.WebP"));
    assert!(is_image_ext("a.bmp"));
    assert!(is_image_ext("a.tar.png"));
    assert!(!is_image_ext("a.txt"));
    assert!(!is_image_ext("a.jpgx"));
    assert!(!is_image_ext("jpg"));
    assert!(!is_image_ext(".jpg"));
    assert!(!is_image_ext("a."));
    assert!(!is_image_ext(""));
    assert!(!is_image_ext("dir.png/readme"));
    assert!(!is_image_ext(".."));
}

#[test]
fn like_patterns_are_escaped() {
    assert_eq!(escape_like_pattern("a_b%c\\d"), "a\\_b\\%c\\\\d");
    assert_eq!(escape_like_pattern("plain/path"), "plain/path");
    assert_eq!(escape_like_pattern(""), "");
}

#[test]
fn parent_folder_is_what_precedes_the_last_slash() {
    assert_eq!(parent_folder("photos/2024/a.jpg"), "photos/2024");
    assert_eq!(parent_folder("a.jpg"), "");
    assert_eq!(parent_folder("../ext/a.jpg"), "../ext");
    assert_eq!(parent_folder(""), "");
    assert_eq!(parent_folder("win\\dir/a.jpg"), "win/dir");
}

#[test]
fn file_stem_drops_the_extension() {
    assert_eq!(file_stem_from_rel_path("photos/IMG_001 (2).jpg"), "IMG_001 (2)");
    assert_eq!(file_stem_from_rel_path("a.tar.gz"), "a.tar");
    assert_eq!(file_stem_from_rel_path("dir/.hidden"), ".hidden");
    assert_eq!(file_stem_from_rel_path("noext"), "noext");
    assert_eq!(file_stem_from_rel_path("dir/.."), "");
    assert_eq!(file_stem_from_rel_path(""), "");
}

#[test]
fn index_suffix_is_stripped() {
    assert_eq!(strip_trailing_index_suffix("IMG_001 (2)"), "IMG_001");
    assert_eq!(strip_trailing_index_suffix("IMG (12)"), "IMG");
    assert_eq!(strip_trailing_index_suffix("IMG  (3)"), "IMG");
    assert_eq!(strip_trailing_index_suffix("x (1) (2)"), "x (1)");
    assert_eq!(strip_trailing_index_suffix(" (7)"), "");
}

#[test]
fn index_suffix_needs_digits_in_brackets_after_a_space() {
    assert_eq!(strip_trailing_index_suffix("IMG (b)"), "IMG (b)");
    assert_eq!(strip_trailing_index_suffix("IMG ()"), "IMG ()");
    assert_eq!(strip_trailing_index_suffix("IMG(2)"), "IMG(2)");
    assert_eq!(strip_trailing_index_suffix("IMG (2) "), "IMG (2) ");
    assert_eq!(strip_trailing_index_suffix("IMG (2"), "IMG (2");
    assert_eq!(strip_trailing_index_suffix(")"), ")");
    assert_eq!(strip_trailing_index_suffix(""), "");
    assert_eq!(strip_trailing_index_suffix("plain"), "plain");
}
