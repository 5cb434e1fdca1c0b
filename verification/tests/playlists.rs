use gallery_core::builder::{
    build_playlist, cold_scopes, external_scopes, finish_playlist, folder_path, pending_external,
    request_folders, reverse_paths, rotate_to, scope_like_pattern, PlaylistRequest, SyncedScopes,
};
use gallery_core::catalog::ImageEntry;
use gallery_core::natural::natural_less;
use gallery_core::playlist::{
    default_direction, default_orientation, default_sort, parse_direction, parse_orientation,
    parse_sort, resolve_scope, resolve_scopes, scope_selects, select_images, Direction,
    Orientation, SortStrategy,
};
use gallery_core::strategy::{
    arrange_by_folder, folder_first_image_prefix, items_in_folder, order_by_date, order_by_name,
    order_folders_by_date, order_folders_by_prefix, order_images, playlist_folders, position_in,
    shuffle_folders, shuffle_images, FolderTime,
};

fn strings(items: &[&str]) -> Vec<String> {
    items.iter().map(|s| s.to_string()).collect()
}

fn entry(path: &str, mtime_micros: u64, width: u32, height: u32) -> ImageEntry {
    ImageEntry::new(path.to_string(), mtime_micros, width, height)
}

fn entries(paths: &[&str]) -> Vec<ImageEntry> {
    paths.iter().map(|p| entry(p, 0, 4, 3)).collect()
}

fn paths(items: &[ImageEntry]) -> Vec<String> {
    items.iter().map(|e| e.path.clone()).collect()
}

fn request(scopes: &[&str], sort: &str) -> PlaylistRequest {
    PlaylistRequest {
        paths: strings(scopes),
        sort: sort.to_string(),
        orientation: default_orientation(),
        direction: default_direction(),
        current_path: None,
    }
}

#[test]
fn natural_order_compares_digit_runs_as_numbers() {
    assert!(natural_less("img2.jpg", "img10.jpg"));
    assert!(!natural_less("img10.jpg", "img2.jpg"));
    // Plain lexical order would put "img10.jpg" first.
    assert!("img10.jpg" < "img2.jpg");
    assert!(natural_less("img9", "img10"));
    assert!(!natural_less("IMG1", "img1"));
    assert!(!natural_less("img1", "IMG1"));
    assert!(natural_less("a", "B"));
}

#[test]
fn defaults_of_a_request() {
    assert_eq!(default_sort(), "shuffle");
    assert_eq!(default_orientation(), "Both");
    assert_eq!(default_direction(), "forward");
}

#[test]
fn names_are_parsed_with_fallbacks() {
    assert_eq!(parse_sort("shuffle"), SortStrategy::Shuffle);
    assert_eq!(parse_sort("date"), SortStrategy::Date);
    assert_eq!(parse_sort("name"), SortStrategy::Name);
    assert_eq!(parse_sort("subfolder_random"), SortStrategy::SubfolderRandom);
    assert_eq!(parse_sort("subfolder_date"), SortStrategy::SubfolderDate);
    assert_eq!(parse_sort("subfolder_prefix"), SortStrategy::SubfolderPrefix);
    assert_eq!(parse_sort("no such strategy"), SortStrategy::Name);
    assert_eq!(parse_sort("Shuffle"), SortStrategy::Name);
    assert_eq!(parse_orientation("Landscape"), Orientation::Landscape);
    assert_eq!(parse_orientation("Portrait"), Orientation::Portrait);
    assert_eq!(parse_orientation("Both"), Orientation::Both);
    assert_eq!(parse_orientation("landscape"), Orientation::Both);
    assert_eq!(parse_direction("reverse"), Direction::Reverse);
    assert_eq!(parse_direction("forward"), Direction::Forward);
    assert_eq!(parse_direction(""), Direction::Forward);
}

#[test]
fn refused_scope_falls_back_to_root() {
    assert_eq!(resolve_scope("/data", "../outside", false), ".");
    assert_eq!(resolve_scope("/data", "../outside", true), "../outside");
    assert_eq!(resolve_scope("/data", " /photos/2024/ ", false), "photos/2024");
}

#[test]
fn scopes_are_deduplicated_keeping_the_first() {
    let got = resolve_scopes(
        "/data",
        &strings(&["b", "a", "/b/", "../x", ".", "a", "../y"]),
        false,
    );
    assert_eq!(got, strings(&["b", "a", "."]));
}

#[test]
fn selection_matches_scope_policy_and_orientation() {
    let wide = entry("photos/a.jpg", 0, 4, 3);
    let tall = entry("photos/b.jpg", 0, 3, 4);
    let outside = entry("../ext/c.jpg", 0, 4, 3);
    assert!(scope_selects("photos", false, Orientation::Both, &wide));
    assert!(scope_selects("photos", false, Orientation::Landscape, &wide));
    assert!(!scope_selects("photos", false, Orientation::Portrait, &wide));
    assert!(scope_selects("photos", false, Orientation::Portrait, &tall));
    assert!(!scope_selects("photo", false, Orientation::Both, &wide));
    assert!(scope_selects(".", false, Orientation::Both, &wide));
    assert!(!scope_selects(".", false, Orientation::Both, &outside));
    assert!(scope_selects(".", true, Orientation::Both, &outside));
    assert!(scope_selects("../ext", true, Orientation::Both, &outside));
    assert!(!scope_selects("../ext", false, Orientation::Both, &outside));
}

#[test]
fn selection_unions_scopes_and_keeps_first_of_each_path() {
    let rows = entries(&["a/1.jpg", "b/2.jpg", "a/3.jpg", "c/4.jpg"]);
    let got = select_images(&rows, &strings(&["b", "a", "."]), false, Orientation::Both);
    assert_eq!(paths(&got), strings(&["b/2.jpg", "a/1.jpg", "a/3.jpg", "c/4.jpg"]));
    let none = select_images(&rows, &strings(&["nothing"]), false, Orientation::Both);
    assert!(none.is_empty());
}

#[test]
fn name_order_is_natural_and_ignores_case() {
    let got = order_by_name(&entries(&["img10.jpg", "img2.jpg", "IMG1.jpg"]));
    assert_eq!(paths(&got), strings(&["IMG1.jpg", "img2.jpg", "img10.jpg"]));
}

#[test]
fn name_order_is_stable_on_ties() {
    let got = order_by_name(&entries(&["B.jpg", "a.jpg", "b.jpg", "A.jpg"]));
    assert_eq!(paths(&got), strings(&["a.jpg", "A.jpg", "B.jpg", "b.jpg"]));
}

#[test]
fn date_order_is_newest_first_and_stable() {
    let items = vec![
        entry("old.jpg", 10, 1, 1),
        entry("new.jpg", 30, 1, 1),
        entry("mid1.jpg", 20, 1, 1),
        entry("mid2.jpg", 20, 1, 1),
    ];
    let got = order_by_date(&items);
    assert_eq!(paths(&got), strings(&["new.jpg", "mid1.jpg", "mid2.jpg", "old.jpg"]));
}

#[test]
fn sorting_many_items_gives_a_sorted_permutation() {
    let mut items: Vec<ImageEntry> = Vec::new();
    let mut x: u64 = 12345;
    for i in 0..500u64 {
        x = x.wrapping_mul(6364136223846793005).wrapping_add(1442695040888963407);
        items.push(entry(&format!("f{}.jpg", i), (x >> 33) % 50, 1, 1));
    }
    let got = order_by_date(&items);
    assert_eq!(got.len(), items.len());
    for w in got.windows(2) {
        assert!(w[0].mtime_micros >= w[1].mtime_micros);
        if w[0].mtime_micros == w[1].mtime_micros {
            let a: u64 = w[0].path[1..w[0].path.len() - 4].parse().unwrap();
            let b: u64 = w[1].path[1..w[1].path.len() - 4].parse().unwrap();
            assert!(a < b);
        }
    }
    let mut seen = paths(&got);
    seen.sort();
    let mut all = paths(&items);
    all.sort();
    assert_eq!(seen, all);
}

#[test]
fn shuffle_keeps_the_items() {
    let names: Vec<String> = (0..60).map(|i| format!("p{}.jpg", i)).collect();
    let items: Vec<ImageEntry> = names.iter().map(|n| entry(n, 0, 1, 1)).collect();
    let mut moved = false;
    for _ in 0..5 {
        let got = shuffle_images(&items);
        let mut sorted = paths(&got);
        sorted.sort();
        let mut want = names.clone();
        want.sort();
        assert_eq!(sorted, want);
        if paths(&got) != names {
            moved = true;
        }
    }
    // Sixty items stay in place five times over only if nothing shuffles.
    assert!(moved);
}

#[test]
fn shuffled_folders_are_the_same_folders() {
    let folders: Vec<String> = (0..40).map(|i| format!("d{}", i)).collect();
    let mut moved = false;
    for _ in 0..5 {
        let got = shuffle_folders(&folders);
        let mut sorted = got.clone();
        sorted.sort();
        let mut want = folders.clone();
        want.sort();
        assert_eq!(sorted, want);
        if got != folders {
            moved = true;
        }
    }
    assert!(moved);
}

#[test]
fn folders_are_listed_where_first_named() {
    let items = entries(&["b/1.jpg", "a/2.jpg", "b/3.jpg", "top.jpg", "a/x/4.jpg"]);
    assert_eq!(playlist_folders(&items), strings(&["b", "a", "", "a/x"]));
    assert_eq!(position_in(&strings(&["b", "a"]), &"a".to_string()), 1);
    assert_eq!(position_in(&strings(&["b", "a"]), &"zz".to_string()), 2);
}

#[test]
fn arranging_by_folder_keeps_folders_together() {
    let items = entries(&["a/10.jpg", "b/1.jpg", "a/2.jpg", "b/0.jpg"]);
    let got = arrange_by_folder(&items, &strings(&["b", "a"]));
    assert_eq!(paths(&got), strings(&["b/0.jpg", "b/1.jpg", "a/2.jpg", "a/10.jpg"]));
    // Entries of a folder that is not named come last.
    let partial = arrange_by_folder(&items, &strings(&["b"]));
    assert_eq!(paths(&partial), strings(&["b/0.jpg", "b/1.jpg", "a/2.jpg", "a/10.jpg"]));
}

#[test]
fn entries_of_a_folder_stand_together_whatever_their_names() {
    let shown = [
        "b/ 10.jpg", "a/x 1.jpg", "b/10.jpg", "a/X1.jpg", "c/001.jpg", "a/x01.jpg", "b/1 0.jpg",
        "c/1.jpg", "a/x1.jpg", "top.jpg", "c/01.jpg",
    ];
    let items = entries(&shown);
    let order = strings(&["c", "", "a", "b"]);
    let got = paths(&arrange_by_folder(&items, &order));
    assert_eq!(got.len(), shown.len());
    let folder_of = |p: &String| match p.rfind('/') {
        Some(cut) => p[..cut].to_string(),
        None => String::new(),
    };
    let ranks: Vec<usize> =
        got.iter().map(|p| order.iter().position(|f| *f == folder_of(p)).unwrap()).collect();
    for w in ranks.windows(2) {
        assert!(w[0] <= w[1]);
    }
    let mut sorted = got.clone();
    sorted.sort();
    let mut want = strings(&shown);
    want.sort();
    assert_eq!(sorted, want);
}

#[test]
fn folders_by_date_are_oldest_first() {
    let times = vec![
        FolderTime { folder: "a".to_string(), mtime_micros: 200 },
        FolderTime { folder: "b".to_string(), mtime_micros: 100 },
    ];
    let got = order_folders_by_date(&strings(&["a", "b", "unknown"]), &times);
    assert_eq!(got, strings(&["unknown", "b", "a"]));
}

#[test]
fn subfolder_date_strategy() {
    let items = entries(&["a/1.jpg", "b/2.jpg", "a/0.jpg"]);
    let times = vec![
        FolderTime { folder: "a".to_string(), mtime_micros: 200 },
        FolderTime { folder: "b".to_string(), mtime_micros: 100 },
    ];
    let got = order_images(&items, SortStrategy::SubfolderDate, &times);
    assert_eq!(paths(&got), strings(&["b/2.jpg", "a/0.jpg", "a/1.jpg"]));
}

#[test]
fn prefix_of_a_folder_comes_from_its_first_image() {
    assert_eq!(folder_first_image_prefix(&entries(&["d/Holiday (3).jpg", "d/z.jpg"])), "Holiday");
    assert_eq!(folder_first_image_prefix(&entries(&["d/plain.png"])), "plain");
    assert_eq!(folder_first_image_prefix(&Vec::new()), "");
    let items = entries(&["a/1.jpg", "b/2.jpg", "a/3.jpg"]);
    assert_eq!(paths(&items_in_folder(&items, &"a".to_string())), strings(&["a/1.jpg", "a/3.jpg"]));
}

#[test]
fn subfolder_prefix_strategy() {
    let items = entries(&["b/zeta.jpg", "a/beta.jpg", "a/alpha (3).jpg", "c/alpha.jpg"]);
    let folders = playlist_folders(&items);
    let arranged = arrange_by_folder(&items, &folders);
    assert_eq!(
        paths(&arranged),
        strings(&["b/zeta.jpg", "a/alpha (3).jpg", "a/beta.jpg", "c/alpha.jpg"])
    );
    // Folders a and c share the prefix "alpha"; the folder name breaks the tie.
    assert_eq!(order_folders_by_prefix(&arranged, &folders), strings(&["a", "c", "b"]));
    let got = order_images(&items, SortStrategy::SubfolderPrefix, &Vec::new());
    assert_eq!(
        paths(&got),
        strings(&["a/alpha (3).jpg", "a/beta.jpg", "c/alpha.jpg", "b/zeta.jpg"])
    );
}

#[test]
fn subfolder_random_keeps_folders_together_and_sorted() {
    let items = entries(&["a/2.jpg", "b/1.jpg", "a/1.jpg", "c/9.jpg", "b/0.jpg"]);
    for _ in 0..10 {
        let got = paths(&order_images(&items, SortStrategy::SubfolderRandom, &Vec::new()));
        assert_eq!(got.len(), 5);
        let a = got.iter().position(|p| p == "a/1.jpg").unwrap();
        assert_eq!(got[a + 1], "a/2.jpg");
        let b = got.iter().position(|p| p == "b/0.jpg").unwrap();
        assert_eq!(got[b + 1], "b/1.jpg");
        assert!(got.contains(&"c/9.jpg".to_string()));
    }
}

#[test]
fn rotation_is_cyclic() {
    let list = strings(&["a", "b", "c", "d"]);
    assert_eq!(rotate_to(&list, &"c".to_string()), strings(&["c", "d", "a", "b"]));
    assert_eq!(rotate_to(&list, &"a".to_string()), list);
    assert_eq!(rotate_to(&list, &"d".to_string()), strings(&["d", "a", "b", "c"]));
}

#[test]
fn rotation_to_a_missing_path_changes_nothing() {
    let list = strings(&["a", "b", "c", "d"]);
    assert_eq!(rotate_to(&list, &"zz".to_string()), list);
    assert!(rotate_to(&Vec::new(), &"a".to_string()).is_empty());
}

#[test]
fn reversal_and_finishing() {
    assert_eq!(reverse_paths(&strings(&["a", "b", "c"])), strings(&["c", "b", "a"]));
    let ordered = entries(&["a.jpg", "b.jpg", "c.jpg", "d.jpg"]);
    let got = finish_playlist(&ordered, Direction::Reverse, &Some("/b.jpg ".to_string()));
    // Reversed first, then rotated to the normalised current path.
    assert_eq!(got, strings(&["b.jpg", "a.jpg", "d.jpg", "c.jpg"]));
    let plain = finish_playlist(&ordered, Direction::Forward, &None);
    assert_eq!(plain, strings(&["a.jpg", "b.jpg", "c.jpg", "d.jpg"]));
}

#[test]
fn playlist_of_one_scope_sorted_by_name() {
    let rows = entries(&["photos/2024/b.jpg", "photos/2024/a.jpg"]);
    let req = request(&["photos/2024"], "name");
    let got = build_playlist("/data", false, &req, &rows, &Vec::new());
    assert_eq!(got, strings(&["photos/2024/a.jpg", "photos/2024/b.jpg"]));
}

#[test]
fn playlist_falls_back_to_root_for_refused_scope() {
    let rows = entries(&["photos/b.jpg", "a.jpg", "../outside/x.jpg"]);
    let req = request(&["../outside"], "name");
    let got = build_playlist("/data", false, &req, &rows, &Vec::new());
    assert_eq!(got, strings(&["a.jpg", "photos/b.jpg"]));
    let allowed = build_playlist("/data", true, &req, &rows, &Vec::new());
    assert_eq!(allowed, strings(&["../outside/x.jpg"]));
}

#[test]
fn playlist_with_unknown_strategy_sorts_by_name() {
    let rows = entries(&["x/10.jpg", "x/9.jpg"]);
    let got = build_playlist("/data", false, &request(&["x"], "whatever"), &rows, &Vec::new());
    assert_eq!(got, strings(&["x/9.jpg", "x/10.jpg"]));
}

#[test]
fn playlist_honours_orientation_direction_and_current_path() {
    let rows = vec![
        entry("p/a.jpg", 1, 4, 3),
        entry("p/b.jpg", 2, 3, 4),
        entry("p/c.jpg", 3, 5, 3),
        entry("p/d.jpg", 4, 6, 3),
    ];
    let req = PlaylistRequest {
        paths: strings(&["p"]),
        sort: "date".to_string(),
        orientation: "Landscape".to_string(),
        direction: "reverse".to_string(),
        current_path: Some("p/c.jpg".to_string()),
    };
    // Newest first: d, c, a; reversed: a, c, d; rotated to c: c, d, a.
    let got = build_playlist("/data", false, &req, &rows, &Vec::new());
    assert_eq!(got, strings(&["p/c.jpg", "p/d.jpg", "p/a.jpg"]));
}

#[test]
fn empty_playlist_is_a_valid_result() {
    let got = build_playlist("/data", false, &request(&["none"], "name"), &Vec::new(), &Vec::new());
    assert!(got.is_empty());
    let no_scopes = build_playlist("/data", false, &request(&[], "date"), &entries(&["a.jpg"]), &Vec::new());
    assert!(no_scopes.is_empty());
}

#[test]
fn shuffled_playlist_has_each_path_once() {
    let rows = entries(&["a/1.jpg", "a/2.jpg", "b/3.jpg"]);
    let req = request(&["a", ".", "b"], &default_sort());
    let mut got = build_playlist("/data", false, &req, &rows, &Vec::new());
    got.sort();
    assert_eq!(got, strings(&["a/1.jpg", "a/2.jpg", "b/3.jpg"]));
}

#[test]
fn folders_of_a_request_and_their_paths() {
    let rows = entries(&["a/1.jpg", "b/2.jpg", "top.jpg"]);
    let req = request(&["."], "subfolder_date");
    assert_eq!(request_folders("/data", false, &req, &rows), strings(&["a", "b", ""]));
    assert_eq!(folder_path("/data", ""), "/data");
    assert_eq!(folder_path("/data", "a/b"), "/data/a/b");
}

#[test]
fn refused_scope_gives_the_playlist_of_the_root() {
    let rows = entries(&["photos/b.jpg", "a.jpg", "../outside/x.jpg", "photos/a10.jpg"]);
    for sort in ["name", "date", "subfolder_date", "subfolder_prefix"] {
        let refused =
            build_playlist("/data", false, &request(&["photos", "../outside"], sort), &rows, &Vec::new());
        let root = build_playlist("/data", false, &request(&["photos", "."], sort), &rows, &Vec::new());
        assert_eq!(refused, root);
        assert!(refused.iter().all(|p| !p.starts_with("../")));
        assert_eq!(refused.len(), 3);
    }
    assert_eq!(
        resolve_scopes("/data", &strings(&["../x", "a", "b/../../y"]), false),
        resolve_scopes("/data", &strings(&[".", "a", "."]), false)
    );
}

#[test]
fn no_scope_is_external_when_parent_access_is_forbidden() {
    let asked = strings(&["../ext", "a/../../other", "in", "/abs/../.."]);
    let scopes = resolve_scopes("/data", &asked, false);
    assert!(external_scopes("/data", &scopes).is_empty());
    assert!(pending_external("/data", &scopes, &SyncedScopes::new()).is_empty());
    let allowed = resolve_scopes("/data", &asked, true);
    assert_eq!(external_scopes("/data", &allowed), strings(&["../ext", "a/../../other", "abs/../.."]));
}

#[test]
fn external_scopes_are_those_outside_root() {
    let scopes = strings(&["a", "../ext", ".", "", "../ext", "b/../../other"]);
    assert_eq!(external_scopes("/data", &scopes), strings(&["../ext", "b/../../other"]));
}

#[test]
fn external_scopes_are_synced_once() {
    let scopes = strings(&["../ext", "../more", "in"]);
    let mut synced = SyncedScopes::new();
    assert!(!synced.contains(&"../ext".to_string()));
    assert_eq!(pending_external("/data", &scopes, &synced), strings(&["../ext", "../more"]));
    assert!(synced.insert("../ext".to_string()));
    assert!(!synced.insert("../ext".to_string()));
    assert!(synced.contains(&"../ext".to_string()));
    assert_eq!(pending_external("/data", &scopes, &synced), strings(&["../more"]));
}

#[test]
fn cold_scopes_have_no_rows() {
    let rows = entries(&["a/1.jpg", "ab/2.jpg"]);
    let scopes = strings(&["a", "b", ".", "", "ab", "a/1.jpg", "a/2.jpg"]);
    assert_eq!(cold_scopes(&scopes, &rows), strings(&["b", "a/2.jpg"]));
    assert_eq!(cold_scopes(&scopes, &Vec::new()), strings(&["a", "b", "ab", "a/1.jpg", "a/2.jpg"]));
}

#[test]
fn scope_pattern_is_escaped() {
    assert_eq!(scope_like_pattern("my_dir/50%"), "my\\_dir/50\\%/%");
    assert_eq!(scope_like_pattern("../ext"), "../ext/%");
}
