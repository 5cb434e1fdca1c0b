use gallery_core::catalog::{
    describe_image, entry_path_list, is_escaping, is_in_scope, is_root, is_stale, plan_reconcile,
    stored_mtime, FsFile, ImageEntry, EXTRACTION_CONCURRENCY, MTIME_TOLERANCE_MICROS,
};

fn file(path: &str, mtime_micros: u64) -> FsFile {
    FsFile { path: path.to_string(), mtime_micros }
}

fn row(path: &str, mtime_micros: u64) -> ImageEntry {
    ImageEntry::new(path.to_string(), mtime_micros, 4, 3)
}

#[test]
fn orientation_is_derived_from_dimensions() {
    assert!(ImageEntry::new("a.jpg".to_string(), 0, 100, 50).is_landscape);
    assert!(!ImageEntry::new("a.jpg".to_string(), 0, 50, 100).is_landscape);
    // A square image counts as landscape.
    assert!(ImageEntry::new("a.jpg".to_string(), 0, 80, 80).is_landscape);
}

#[test]
fn describe_image_needs_dimensions_and_a_relative_path() {
    let e = describe_image("/data", "/data/p/a.jpg", 7, Some((100, 50))).unwrap();
    assert_eq!(e.path, "p/a.jpg");
    assert_eq!(e.mtime_micros, 7);
    assert_eq!((e.width, e.height), (100, 50));
    assert!(e.is_landscape);
    assert!(describe_image("/data", "/data/p/a.jpg", 7, None).is_none());
    assert!(describe_image("/data", "p/a.jpg", 7, Some((1, 2))).is_none());
    let out = describe_image("/data", "/mnt/x.png", 1, Some((1, 2))).unwrap();
    assert_eq!(out.path, "../mnt/x.png");
    assert!(!out.is_landscape);
}

#[test]
fn limits_of_a_reconcile() {
    assert_eq!(EXTRACTION_CONCURRENCY, 16);
    assert_eq!(MTIME_TOLERANCE_MICROS, 1000);
}

#[test]
fn tolerance_is_one_millisecond() {
    assert!(!is_stale(5_000, 5_000));
    assert!(!is_stale(5_000, 6_000));
    assert!(!is_stale(6_000, 5_000));
    assert!(is_stale(5_000, 6_001));
    assert!(is_stale(6_001, 5_000));
    assert!(is_stale(0, u64::MAX));
}

#[test]
fn scope_holds_itself_and_what_lies_under_it() {
    assert!(is_in_scope("photos", "photos/a.jpg"));
    assert!(is_in_scope("photos", "photos"));
    assert!(!is_in_scope("photos", "photos2/a.jpg"));
    assert!(!is_in_scope("photos", "other/photos/a.jpg"));
    assert!(is_in_scope("", "anything/at/all.jpg"));
    assert!(is_in_scope(".", "anything.jpg"));
    assert!(is_escaping("../x.jpg"));
    assert!(!is_escaping("..x.jpg"));
    assert!(!is_escaping("a/../x.jpg"));
}

#[test]
fn root_scope_is_empty_or_a_dot() {
    assert!(is_root(""));
    assert!(is_root("."));
    assert!(!is_root(".."));
    assert!(!is_root("./"));
    assert!(!is_root("a"));
    let rows = vec![row("a.jpg", 1), row("b/c.jpg", 2)];
    assert_eq!(entry_path_list(&rows), vec!["a.jpg".to_string(), "b/c.jpg".to_string()]);
}

#[test]
fn stored_mtime_finds_the_row() {
    let rows = vec![row("a.jpg", 1), row("b.jpg", 2)];
    assert_eq!(stored_mtime(&rows, &"b.jpg".to_string()), Some(2));
    assert_eq!(stored_mtime(&rows, &"c.jpg".to_string()), None);
}

#[test]
fn full_reconcile_diffs_files_and_rows() {
    let fs = vec![file("a.jpg", 1_000_000), file("b.jpg", 2_000_000), file("c.jpg", 3_000_000)];
    let rows = vec![
        row("a.jpg", 1_000_500),
        row("c.jpg", 3_001_001),
        row("gone.jpg", 5),
        row("../ext/d.jpg", 6),
    ];
    let plan = plan_reconcile(".", &fs, &rows);
    assert_eq!(plan.to_process, vec!["b.jpg".to_string(), "c.jpg".to_string()]);
    // The row outside the root survives the sweep of the root.
    assert_eq!(plan.to_evict, vec!["gone.jpg".to_string()]);
}

#[test]
fn scoped_reconcile_touches_only_its_scope() {
    let fs = vec![file("photos/x.jpg", 10), file("elsewhere/z.jpg", 10)];
    let rows = vec![row("photos/x.jpg", 10), row("photos/old.jpg", 10), row("other/y.jpg", 10)];
    let plan = plan_reconcile("photos", &fs, &rows);
    assert!(plan.to_process.is_empty());
    assert_eq!(plan.to_evict, vec!["photos/old.jpg".to_string()]);
}

#[test]
fn external_scope_evicts_its_own_missing_rows() {
    let fs = vec![file("../ext/a.jpg", 10)];
    let rows = vec![row("../ext/a.jpg", 10), row("../ext/b.jpg", 10), row("in.jpg", 1)];
    let plan = plan_reconcile("../ext", &fs, &rows);
    assert!(plan.to_process.is_empty());
    assert_eq!(plan.to_evict, vec!["../ext/b.jpg".to_string()]);
}

#[test]
fn reconcile_of_empty_tree_evicts_everything_under_root() {
    let fs: Vec<FsFile> = Vec::new();
    let rows = vec![row("a.jpg", 1), row("../x.jpg", 1)];
    let plan = plan_reconcile("", &fs, &rows);
    assert!(plan.to_process.is_empty());
    assert_eq!(plan.to_evict, vec!["a.jpg".to_string()]);
}

#[test]
fn second_reconcile_of_unchanged_tree_does_nothing() {
    let fs = vec![file("a.jpg", 1_000_000), file("b.jpg", 2_000_000)];
    let rows = vec![row("a.jpg", 900_000), row("gone.jpg", 5), row("../ext/d.jpg", 6)];
    let first = plan_reconcile(".", &fs, &rows);
    assert_eq!(first.to_process, vec!["a.jpg".to_string(), "b.jpg".to_string()]);
    assert_eq!(first.to_evict, vec!["gone.jpg".to_string()]);
    // Apply the batch as a keyed store does: upserts by path, then evictions.
    let mut after: Vec<ImageEntry> = Vec::new();
    for r in &rows {
        let replaced = first.to_process.contains(&r.path);
        let evicted = first.to_evict.contains(&r.path);
        if !replaced && !evicted {
            after.push(r.duplicate());
        }
    }
    for f in &fs {
        if first.to_process.contains(&f.path) {
            after.push(ImageEntry::new(f.path.clone(), f.mtime_micros, 4, 3));
        }
    }
    let second = plan_reconcile(".", &fs, &after);
    assert!(second.to_process.is_empty());
    assert!(second.to_evict.is_empty());
}

#[test]
fn file_that_gave_no_entry_is_read_again() {
    let fs = vec![file("a.jpg", 1), file("broken.jpg", 2)];
    let rows: Vec<ImageEntry> = Vec::new();
    let first = plan_reconcile(".", &fs, &rows);
    assert_eq!(first.to_process.len(), 2);
    let after = vec![row("a.jpg", 1)];
    let second = plan_reconcile(".", &fs, &after);
    assert_eq!(second.to_process, vec!["broken.jpg".to_string()]);
    assert!(second.to_evict.is_empty());
}
