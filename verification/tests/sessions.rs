use gallery_core::browse::{
    browse_items, browse_target, item_type, list_folder, sort_entries, visible_entries,
    DirEntryInfo,
};
use gallery_core::config::{env_flag_enabled, SecurityPolicy};
use gallery_core::files::{
    decode_request_path, file_headers, forbidden_message, locate_file, path_or_raw, FileError,
};
use gallery_core::builder::PlaylistRequest;
use gallery_core::catalog::ImageEntry;
use gallery_core::session::{
    lookup_session, read_session, record_session, restore_candidates, restore_error_detail,
    restore_session, serve_playlist, source_label, surviving_paths, RestoreError, SessionSource,
    SessionStore,
};

fn strings(items: &[&str]) -> Vec<String> {
    items.iter().map(|s| s.to_string()).collect()
}

fn dir(name: &str) -> DirEntryInfo {
    DirEntryInfo { name: name.to_string(), is_dir: true }
}

fn plain(name: &str) -> DirEntryInfo {
    DirEntryInfo { name: name.to_string(), is_dir: false }
}

#[test]
fn memory_tier_answers_first() {
    let mut store = SessionStore::new();
    assert!(store.get("10.0.0.1").is_none());
    store.put("10.0.0.1", strings(&["a.jpg", "b.jpg"]));
    store.put("10.0.0.2", strings(&["c.jpg"]));
    assert_eq!(store.get("10.0.0.1"), Some(strings(&["a.jpg", "b.jpg"])));
    store.put("10.0.0.1", strings(&["z.jpg"]));
    assert_eq!(store.get("10.0.0.1"), Some(strings(&["z.jpg"])));
    assert_eq!(store.get("10.0.0.2"), Some(strings(&["c.jpg"])));
    let view = lookup_session(&store, "10.0.0.1", Some("[\"durable.jpg\"]".to_string()));
    assert!(view.has_session);
    assert_eq!(view.source, Some(SessionSource::Memory));
    assert_eq!(view.playlist, strings(&["z.jpg"]));
    assert_eq!(view.playlist_size, 1);
}

#[test]
fn durable_tier_answers_on_a_memory_miss() {
    let store = SessionStore::new();
    let view = lookup_session(&store, "10.0.0.9", Some("[\"a.jpg\", \"b c.jpg\"]".to_string()));
    assert!(view.has_session);
    assert_eq!(view.source, Some(SessionSource::Database));
    assert_eq!(view.playlist, strings(&["a.jpg", "b c.jpg"]));
    assert_eq!(view.playlist_size, 2);
}

#[test]
fn no_session_where_neither_tier_has_one() {
    let store = SessionStore::new();
    let none = lookup_session(&store, "10.0.0.9", None);
    assert!(!none.has_session);
    assert_eq!(none.source, None);
    assert_eq!(none.playlist_size, 0);
    assert!(none.playlist.is_empty());
    let broken = lookup_session(&store, "10.0.0.9", Some("not json".to_string()));
    assert!(!broken.has_session);
    let wrong_shape = lookup_session(&store, "10.0.0.9", Some("{\"a\": 1}".to_string()));
    assert!(!wrong_shape.has_session);
}

#[test]
fn read_session_prefers_memory() {
    let both = read_session(Some(strings(&["m"])), Some(strings(&["d", "e"])));
    assert_eq!(both.source, Some(SessionSource::Memory));
    assert_eq!(both.playlist, strings(&["m"]));
    let durable = read_session(None, Some(strings(&["d", "e"])));
    assert_eq!(durable.source, Some(SessionSource::Database));
    assert_eq!(durable.playlist_size, 2);
    let empty_memory = read_session(Some(Vec::new()), Some(strings(&["d"])));
    assert!(empty_memory.has_session);
    assert_eq!(empty_memory.playlist_size, 0);
    assert_eq!(source_label(SessionSource::Memory), "memory");
    assert_eq!(source_label(SessionSource::Database), "database");
}

#[test]
fn writing_a_session_updates_memory_and_gives_the_durable_text() {
    let mut store = SessionStore::new();
    let text = record_session(&mut store, "ip", &strings(&["a.jpg", "say \"hi\".png"]));
    assert_eq!(text, Some("[\"a.jpg\",\"say \\\"hi\\\".png\"]".to_string()));
    assert_eq!(store.get("ip"), Some(strings(&["a.jpg", "say \"hi\".png"])));
    // What was written durably reads back as the same list.
    let fresh = SessionStore::new();
    let view = lookup_session(&fresh, "ip", text);
    assert_eq!(view.playlist, strings(&["a.jpg", "say \"hi\".png"]));
}

#[test]
fn served_playlist_becomes_the_session() {
    let mut store = SessionStore::new();
    let rows = vec![
        ImageEntry::new("p/b.jpg".to_string(), 1, 4, 3),
        ImageEntry::new("p/a.jpg".to_string(), 2, 4, 3),
        ImageEntry::new("q/c.jpg".to_string(), 3, 4, 3),
    ];
    let request = PlaylistRequest {
        paths: strings(&["p"]),
        sort: "name".to_string(),
        orientation: "Both".to_string(),
        direction: "forward".to_string(),
        current_path: None,
    };
    let served = serve_playlist(&mut store, "ip", "/data", false, &request, &rows, &Vec::new());
    assert_eq!(served.playlist, strings(&["p/a.jpg", "p/b.jpg"]));
    assert_eq!(served.durable_record, Some("[\"p/a.jpg\",\"p/b.jpg\"]".to_string()));
    assert_eq!(store.get("ip"), Some(strings(&["p/a.jpg", "p/b.jpg"])));
    assert!(store.get("other").is_none());
}

#[test]
fn restore_drops_paths_that_are_gone() {
    let mut store = SessionStore::new();
    let candidates = restore_candidates("/data", false, &strings(&["x.jpg", "y.jpg"]));
    assert_eq!(candidates[0].full, "/data/x.jpg");
    assert!(candidates[0].permitted);
    let restored = restore_session(&mut store, "ip", &candidates, &vec![true, false], 0).unwrap();
    assert_eq!(restored.valid_count, 1);
    assert_eq!(restored.original_count, 2);
    assert_eq!(restored.playlist, strings(&["x.jpg"]));
    assert_eq!(restored.current_index, 0);
    assert_eq!(restored.durable_record, Some("[\"x.jpg\"]".to_string()));
    assert_eq!(store.get("ip"), Some(strings(&["x.jpg"])));
}

#[test]
fn restore_drops_paths_that_the_boundary_refuses() {
    let mut store = SessionStore::new();
    let candidates = restore_candidates("/data", false, &strings(&["../out.jpg", " /a\\b.jpg"]));
    assert!(!candidates[0].permitted);
    assert_eq!(candidates[1].rel, "a/b.jpg");
    let restored = restore_session(&mut store, "ip", &candidates, &vec![true, true], 7).unwrap();
    assert_eq!(restored.playlist, strings(&["a/b.jpg"]));
    assert_eq!(restored.current_index, 0);
    let allowed = restore_candidates("/data", true, &strings(&["../out.jpg"]));
    assert!(allowed[0].permitted);
    assert_eq!(surviving_paths(&allowed, &vec![true]), strings(&["../out.jpg"]));
}

#[test]
fn restore_clamps_the_index() {
    let mut store = SessionStore::new();
    let candidates = restore_candidates("/data", false, &strings(&["a", "b", "c", "d"]));
    let alive = vec![true, true, false, true];
    let inside = restore_session(&mut store, "ip", &candidates, &alive, 1).unwrap();
    assert_eq!(inside.current_index, 1);
    let last = restore_session(&mut store, "ip", &candidates, &alive, 2).unwrap();
    assert_eq!(last.current_index, 2);
    let beyond = restore_session(&mut store, "ip", &candidates, &alive, 3).unwrap();
    assert_eq!(beyond.current_index, 2);
    let far = restore_session(&mut store, "ip", &candidates, &alive, usize::MAX).unwrap();
    assert_eq!(far.current_index, 2);
    assert_eq!(far.playlist, strings(&["a", "b", "d"]));
}

#[test]
fn restore_of_an_empty_playlist_fails() {
    let mut store = SessionStore::new();
    store.put("ip", strings(&["kept.jpg"]));
    let err = restore_session(&mut store, "ip", &Vec::new(), &Vec::new(), 0).unwrap_err();
    assert_eq!(err, RestoreError::EmptyPlaylist);
    assert_eq!(restore_error_detail(err), "Playlist cannot be empty");
    assert_eq!(store.get("ip"), Some(strings(&["kept.jpg"])));
}

#[test]
fn restore_without_valid_paths_fails() {
    let mut store = SessionStore::new();
    store.put("ip", strings(&["kept.jpg"]));
    let candidates = restore_candidates("/data", false, &strings(&["gone.jpg", "../out.jpg"]));
    let err = restore_session(&mut store, "ip", &candidates, &vec![false, true], 0).unwrap_err();
    assert_eq!(err, RestoreError::NoValidPaths);
    assert_eq!(restore_error_detail(err), "No valid paths in playlist");
    // A candidate without a liveness answer counts as gone.
    let short = restore_session(&mut store, "ip", &candidates, &Vec::new(), 0).unwrap_err();
    assert_eq!(short, RestoreError::NoValidPaths);
    assert_eq!(store.get("ip"), Some(strings(&["kept.jpg"])));
}

#[test]
fn browse_target_resolves_and_falls_back() {
    let root = browse_target("/data", "", false);
    assert_eq!((root.full.as_str(), root.rel.as_str()), ("/data", ""));
    let dot = browse_target("/data", ".", false);
    assert_eq!((dot.full.as_str(), dot.rel.as_str()), ("/data", ""));
    let sub = browse_target("/data", "/photos\\2024/", false);
    assert_eq!((sub.full.as_str(), sub.rel.as_str()), ("/data/photos/2024", "photos/2024"));
    let refused = browse_target("/data", "../outside", false);
    assert_eq!((refused.full.as_str(), refused.rel.as_str()), ("/data", ""));
    let allowed = browse_target("/data", "../outside", true);
    assert_eq!((allowed.full.as_str(), allowed.rel.as_str()), ("/outside", "../outside"));
    let back = browse_target("/data", "a/..", false);
    assert_eq!((back.full.as_str(), back.rel.as_str()), ("/data", ""));
}

#[test]
fn listing_hides_dot_names_and_other_files() {
    let entries = vec![
        plain("b.jpg"),
        dir(".git"),
        plain("notes.txt"),
        dir("sub"),
        plain(".hidden.png"),
        plain("A.PNG"),
    ];
    let shown = visible_entries(&entries);
    let names: Vec<String> = shown.iter().map(|e| e.name.clone()).collect();
    assert_eq!(names, strings(&["b.jpg", "sub", "A.PNG"]));
}

#[test]
fn listing_puts_folders_first_in_natural_order() {
    let entries = vec![plain("img10.jpg"), dir("z"), plain("img9.jpg"), dir("B"), dir("a10"), dir("a9")];
    let sorted = sort_entries(&entries);
    let names: Vec<String> = sorted.iter().map(|e| e.name.clone()).collect();
    assert_eq!(names, strings(&["a9", "a10", "B", "z", "img9.jpg", "img10.jpg"]));
}

#[test]
fn folders_stand_before_files_whatever_their_names() {
    let entries = vec![
        plain("1 0.jpg"), dir("10"), plain("010.png"), dir(" 1 0"), plain("a.gif"), dir("A"),
        plain("A.gif"), dir("001"), plain("01.bmp"), dir("01"),
    ];
    let sorted = sort_entries(&entries);
    assert_eq!(sorted.len(), entries.len());
    let first_file = sorted.iter().position(|e| !e.is_dir).unwrap();
    assert_eq!(first_file, 5);
    assert!(sorted[first_file..].iter().all(|e| !e.is_dir));
    let items = list_folder("/data", "/data", &entries);
    for w in items.windows(2) {
        assert!(w[0].is_folder || !w[1].is_folder);
    }
}

#[test]
fn listing_of_a_folder() {
    let entries = vec![plain("b.jpg"), plain("skip.txt"), dir("inner"), plain("a.gif"), dir(".x")];
    let items = list_folder("/data", "/data/photos", &entries);
    let lines: Vec<(String, String, String)> =
        items.iter().map(|i| (i.name.clone(), i.path.clone(), item_type(i))).collect();
    assert_eq!(
        lines,
        vec![
            ("inner".to_string(), "photos/inner".to_string(), "folder".to_string()),
            ("a.gif".to_string(), "photos/a.gif".to_string(), "file".to_string()),
            ("b.jpg".to_string(), "photos/b.jpg".to_string(), "file".to_string()),
        ]
    );
    assert!(list_folder("/data", "/data", &Vec::new()).is_empty());
    let top = browse_items("/data", "/data", &vec![plain("a.jpg")]);
    assert_eq!(top[0].path, "a.jpg");
}

#[test]
fn request_paths_are_percent_decoded() {
    assert_eq!(decode_request_path("foo%20bar.jpg"), "foo bar.jpg");
    assert_eq!(decode_request_path("plain.jpg"), "plain.jpg");
    assert_eq!(decode_request_path("a%2Fb.jpg"), "a/b.jpg");
    assert_eq!(decode_request_path("a+b.jpg"), "a+b.jpg");
    // Bytes that are no UTF-8 leave the raw value in place.
    assert_eq!(decode_request_path("bad%FF.jpg"), "bad%FF.jpg");
    assert_eq!(path_or_raw(None, "raw"), "raw");
    assert_eq!(path_or_raw(Some("decoded".to_string()), "raw"), "decoded");
}

#[test]
fn file_outside_root_is_forbidden() {
    assert_eq!(locate_file("/data", "..%2Fsecret.jpg", false).unwrap_err(), FileError::Forbidden);
    assert_eq!(locate_file("/data", "../secret.jpg", false).unwrap_err(), FileError::Forbidden);
    assert_eq!(forbidden_message(), "Access outside ROOT_DIR is disabled");
    let allowed = locate_file("/data", "..%2Fsecret.jpg", true).unwrap();
    assert_eq!(allowed.full, "/secret.jpg");
    let inside = locate_file("/data", "photos/my%20cat.jpg", false).unwrap();
    assert_eq!(inside.rel, "photos/my cat.jpg");
    assert_eq!(inside.full, "/data/photos/my cat.jpg");
}

#[test]
fn missing_file_is_not_found() {
    assert_eq!(file_headers("/data/a.jpg", false).unwrap_err(), FileError::NotFound);
}

#[test]
fn headers_carry_the_media_type() {
    let jpg = file_headers("/data/a.jpg", true).unwrap();
    assert_eq!(jpg.content_type, "image/jpeg");
    assert_eq!(jpg.cache_control, "public, max-age=3600");
    assert_eq!(file_headers("/data/a.PNG", true).unwrap().content_type, "image/png");
    assert_eq!(file_headers("/data/a.webp", true).unwrap().content_type, "image/webp");
    assert_eq!(
        file_headers("/data/no_extension", true).unwrap().content_type,
        "application/octet-stream"
    );
}

#[test]
fn policy_flag_is_set_and_toggled() {
    let mut policy = SecurityPolicy::from_setting(Some("1"));
    assert!(policy.allow_parent_dir_access);
    assert!(!SecurityPolicy::from_setting(Some("true")).allow_parent_dir_access);
    assert!(!SecurityPolicy::from_setting(Some("")).allow_parent_dir_access);
    assert!(!SecurityPolicy::from_setting(None).allow_parent_dir_access);
    assert_eq!(policy.setting(), "1");
    assert!(!policy.toggle());
    assert_eq!(policy.setting(), "0");
    assert!(policy.toggle());
    policy.set(false);
    assert!(!policy.allow_parent_dir_access);
    policy.set(true);
    assert!(policy.allow_parent_dir_access);
}

#[test]
fn boolean_settings() {
    assert!(env_flag_enabled(Some("1")));
    assert!(env_flag_enabled(Some("true")));
    assert!(env_flag_enabled(Some(" YES \n")));
    assert!(env_flag_enabled(Some("On")));
    assert!(!env_flag_enabled(Some("0")));
    assert!(!env_flag_enabled(Some("")));
    assert!(!env_flag_enabled(Some("enabled")));
    assert!(!env_flag_enabled(Some("t rue")));
    assert!(!env_flag_enabled(None));
}
