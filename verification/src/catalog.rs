//! The catalog of indexed images and its reconciliation against the
//! filesystem: which files must be read again, and which rows must go.
use vstd::prelude::*;
use crate::paths::rel_string;
use crate::text::{chars_of, has_prefix, same_chars, same_text, views};

verus! {

/// How far, in microseconds, a file's modification time may lie from the
/// stored one before the file counts as changed: one millisecond.
pub const MTIME_TOLERANCE_MICROS: u64 = 1000;

/// How many files have their metadata read at the same time during one
/// reconcile.
pub const EXTRACTION_CONCURRENCY: usize = 16;

/// An image is landscape when it is at least as wide as it is high.
pub open spec fn landscape(width: u32, height: u32) -> bool {
    width >= height
}

/// One row of the catalog: an indexed image, keyed by its root-relative
/// path. Modification times are whole microseconds since the epoch.
#[derive(Clone, Debug)]
pub struct ImageEntry {
    pub path: String,
    pub mtime_micros: u64,
    pub width: u32,
    pub height: u32,
    pub is_landscape: bool,
}

impl ImageEntry {
    /// The orientation flag is derived from the dimensions.
    pub open spec fn wf(&self) -> bool {
        self.is_landscape == landscape(self.width, self.height)
    }

    /// An entry whose orientation follows from its dimensions.
    pub fn new(path: String, mtime_micros: u64, width: u32, height: u32) -> (e: ImageEntry)
        ensures
            e.wf(),
            e.path == path,
            e.mtime_micros == mtime_micros,
            e.width == width,
            e.height == height,
    {
        ImageEntry { path, mtime_micros, width, height, is_landscape: width >= height }
    }

    /// A copy of the entry.
    pub fn duplicate(&self) -> (e: ImageEntry)
        ensures
            e == *self,
    {
        ImageEntry {
            path: self.path.clone(),
            mtime_micros: self.mtime_micros,
            width: self.width,
            height: self.height,
            is_landscape: self.is_landscape,
        }
    }
}

/// The paths of a sequence of entries.
pub open spec fn entry_paths(rows: Seq<ImageEntry>) -> Seq<Seq<char>> {
    rows.map_values(|r: ImageEntry| r.path@)
}

/// Builds the catalog entry of a file from what was read of it: nothing
/// where the header gave no dimensions or the file has no path relative to
/// the root.
pub fn describe_image(
    root_dir: &str,
    full_path: &str,
    mtime_micros: u64,
    dimensions: Option<(u32, u32)>,
) -> (out: Option<ImageEntry>)
    ensures
        out is Some <==> dimensions is Some && crate::paths::relative_to(full_path@, root_dir@)
            is Some,
        out matches Some(e) ==> e.wf() && e.path@ == rel_string(root_dir@, full_path@)
            && e.mtime_micros == mtime_micros && Some((e.width, e.height)) == dimensions,
{
    match dimensions {
        None => None,
        Some((width, height)) => {
            match crate::paths::relative_path(full_path, root_dir) {
                None => None,
                Some(path) => Some(ImageEntry::new(path, mtime_micros, width, height)),
            }
        },
    }
}

/// A file found on the filesystem pass: its root-relative path and its
/// modification time.
#[derive(Clone, Debug)]
pub struct FsFile {
    pub path: String,
    pub mtime_micros: u64,
}

/// The paths of the files of a filesystem pass.
pub open spec fn fs_paths(fs: Seq<FsFile>) -> Seq<Seq<char>> {
    fs.map_values(|f: FsFile| f.path@)
}

/// Whether the scope stands for the whole root: empty, or a single dot.
pub open spec fn is_root_scope(scope: Seq<char>) -> bool {
    scope.len() == 0 || scope == seq!['.']
}

/// Whether `path` is the scope itself or lies under it.
pub open spec fn in_scope(scope: Seq<char>, path: Seq<char>) -> bool {
    is_root_scope(scope) || path == scope || (scope + seq!['/']).is_prefix_of(path)
}

/// Whether a root-relative path begins by leaving the root.
pub open spec fn escaping(path: Seq<char>) -> bool {
    seq!['.', '.', '/'].is_prefix_of(path)
}

/// The first row with the given path.
pub open spec fn find_row(rows: Seq<ImageEntry>, path: Seq<char>) -> Option<ImageEntry>
    decreases rows.len(),
{
    if rows.len() == 0 {
        None
    } else if rows[0].path@ == path {
        Some(rows[0])
    } else {
        find_row(rows.skip(1), path)
    }
}

/// Whether two modification times differ by more than the tolerance.
pub open spec fn stale(fs_mtime: u64, stored_mtime: u64) -> bool {
    fs_mtime - stored_mtime > MTIME_TOLERANCE_MICROS || stored_mtime - fs_mtime
        > MTIME_TOLERANCE_MICROS
}

/// Whether a file must be read again: the catalog has no row for it, or the
/// row's modification time is stale.
pub open spec fn needs_processing(rows: Seq<ImageEntry>, path: Seq<char>, mtime: u64) -> bool {
    match find_row(rows, path) {
        None => true,
        Some(r) => stale(mtime, r.mtime_micros),
    }
}

/// Selects the files of the pass that lie in the scope and must be read.
pub open spec fn processable(scope: Seq<char>, rows: Seq<ImageEntry>) -> spec_fn(FsFile) -> bool {
    |f: FsFile| in_scope(scope, f.path@) && needs_processing(rows, f.path@, f.mtime_micros)
}

/// Whether the row with this path must leave the catalog: it lies in the
/// scope and the pass did not find it. A reconcile of the whole root spares
/// the rows that live outside the root.
pub open spec fn evictable(scope: Seq<char>, found: Seq<Seq<char>>, path: Seq<char>) -> bool {
    in_scope(scope, path) && !found.contains(path) && !(is_root_scope(scope) && escaping(path))
}

/// Selects the rows that must leave the catalog.
pub open spec fn evicted(scope: Seq<char>, found: Seq<Seq<char>>) -> spec_fn(ImageEntry) -> bool {
    |r: ImageEntry| evictable(scope, found, r.path@)
}

/// The paths of the files to read again, in the order of the pass.
pub open spec fn paths_to_process(
    scope: Seq<char>,
    fs: Seq<FsFile>,
    rows: Seq<ImageEntry>,
) -> Seq<Seq<char>> {
    fs_paths(fs.filter(processable(scope, rows)))
}

/// The paths of the rows to delete, in the order of the rows.
pub open spec fn paths_to_evict(
    scope: Seq<char>,
    fs: Seq<FsFile>,
    rows: Seq<ImageEntry>,
) -> Seq<Seq<char>> {
    entry_paths(rows.filter(evicted(scope, fs_paths(fs))))
}

/// What one reconcile has to do.
#[derive(Clone, Debug)]
pub struct ReconcilePlan {
    /// The root-relative paths of the files whose metadata must be read.
    pub to_process: Vec<String>,
    /// The paths of the rows to delete.
    pub to_evict: Vec<String>,
}

/// Whether the characters spell a scope that stands for the whole root.
pub fn is_root_chars(scope: &Vec<char>) -> (b: bool)
    ensures
        b == is_root_scope(scope@),
{
    if scope.len() == 0 {
        true
    } else if scope.len() == 1 && scope[0] == '.' {
        assert(scope@ =~= seq!['.']);
        true
    } else {
        assert(scope@ != seq!['.']) by {
            if scope@ == seq!['.'] {
                assert(seq!['.'].len() == 1);
                assert(seq!['.'][0] == '.');
            }
        }
        false
    }
}

/// Whether the scope stands for the whole root.
pub fn is_root(scope: &str) -> (b: bool)
    ensures
        b == is_root_scope(scope@),
{
    let s = chars_of(scope);
    is_root_chars(&s)
}

/// The paths of the entries, in their order.
pub fn entry_path_list(items: &Vec<ImageEntry>) -> (out: Vec<String>)
    ensures
        views(out@) == entry_paths(items@),
        out.len() == items.len(),
{
    let mut out: Vec<String> = Vec::new();
    let mut k: usize = 0;
    while k < items.len()
        invariant
            k <= items.len(),
            out.len() == k,
            forall|j: int| 0 <= j < k ==> out[j]@ == items[j].path@,
        decreases items.len() - k,
    {
        out.push(items[k].path.clone());
        k += 1;
    }
    assert(views(out@) =~= entry_paths(items@));
    out
}

/// The characters of a scope followed by a slash.
fn with_slash(scope: &Vec<char>) -> (out: Vec<char>)
    ensures
        out@ == scope@ + seq!['/'],
{
    let mut out = scope.clone();
    out.push('/');
    assert(out@ =~= scope@ + seq!['/']);
    out
}

fn in_scope_chars(scope: &Vec<char>, prefix: &Vec<char>, path: &Vec<char>) -> (b: bool)
    requires
        prefix@ == scope@ + seq!['/'],
    ensures
        b == in_scope(scope@, path@),
{
    is_root_chars(scope) || same_chars(path, scope) || has_prefix(path, prefix)
}

fn is_escaping_chars(path: &Vec<char>) -> (b: bool)
    ensures
        b == escaping(path@),
{
    let lead: Vec<char> = vec!['.', '.', '/'];
    assert(lead@ =~= seq!['.', '.', '/']);
    has_prefix(path, &lead)
}

/// Whether a root-relative path begins by leaving the root.
pub fn is_escaping(path: &str) -> (b: bool)
    ensures
        b == escaping(path@),
{
    let p = chars_of(path);
    is_escaping_chars(&p)
}

/// Whether `path` is the scope itself or lies under it.
pub fn is_in_scope(scope: &str, path: &str) -> (b: bool)
    ensures
        b == in_scope(scope@, path@),
{
    let s = chars_of(scope);
    let prefix = with_slash(&s);
    let p = chars_of(path);
    in_scope_chars(&s, &prefix, &p)
}

/// The modification time stored for `path`, if the catalog has a row for it.
pub fn stored_mtime(rows: &Vec<ImageEntry>, path: &String) -> (out: Option<u64>)
    ensures
        match find_row(rows@, path@) {
            Some(r) => out == Some(r.mtime_micros),
            None => out is None,
        },
{
    let mut i: usize = 0;
    assert(rows@.skip(0) =~= rows@);
    while i < rows.len()
        invariant
            i <= rows.len(),
            find_row(rows@, path@) == find_row(rows@.skip(i as int), path@),
        decreases rows.len() - i,
    {
        if same_text(&rows[i].path, path) {
            return Some(rows[i].mtime_micros);
        }
        assert(rows@.skip(i as int).skip(1) =~= rows@.skip(i + 1));
        i += 1;
    }
    None
}

/// Whether two modification times differ by more than the tolerance.
pub fn is_stale(fs_mtime: u64, stored: u64) -> (b: bool)
    ensures
        b == stale(fs_mtime, stored),
{
    if fs_mtime >= stored {
        fs_mtime - stored > MTIME_TOLERANCE_MICROS
    } else {
        stored - fs_mtime > MTIME_TOLERANCE_MICROS
    }
}

fn pass_found(fs: &Vec<FsFile>, path: &String) -> (b: bool)
    ensures
        b == fs_paths(fs@).contains(path@),
{
    let mut i: usize = 0;
    while i < fs.len()
        invariant
            i <= fs.len(),
            forall|k: int| 0 <= k < i ==> fs_paths(fs@)[k] != path@,
        decreases fs.len() - i,
    {
        if same_text(&fs[i].path, path) {
            assert(fs_paths(fs@)[i as int] == path@);
            return true;
        }
        i += 1;
    }
    false
}

/// Plans one reconcile of `scope`: the diff between the files that the
/// filesystem pass found and the rows that the catalog holds. A file is read
/// again when it lies in the scope and has no row, or a row whose
/// modification time is off by more than the tolerance. A row is deleted
/// when it lies in the scope and the pass did not find its file; the
/// reconcile of the whole root keeps the rows that live outside the root.
pub fn plan_reconcile(scope: &str, fs: &Vec<FsFile>, rows: &Vec<ImageEntry>) -> (plan:
    ReconcilePlan)
    ensures
        views(plan.to_process@) == paths_to_process(scope@, fs@, rows@),
        views(plan.to_evict@) == paths_to_evict(scope@, fs@, rows@),
{
    let s = chars_of(scope);
    let prefix = with_slash(&s);
    let whole = is_root_chars(&s);
    let mut to_process: Vec<String> = Vec::new();
    let mut i: usize = 0;
    let ghost want = processable(scope@, rows@);
    proof {
        reveal(Seq::filter);
        assert(fs@.take(0).filter(want) =~= Seq::<FsFile>::empty());
        assert(views(to_process@) =~= fs_paths(fs@.take(0).filter(want)));
    }
    while i < fs.len()
        invariant
            i <= fs.len(),
            s@ == scope@,
            prefix@ == s@ + seq!['/'],
            want == processable(scope@, rows@),
            views(to_process@) == fs_paths(fs@.take(i as int).filter(want)),
        decreases fs.len() - i,
    {
        let f = &fs[i];
        let p = chars_of(f.path.as_str());
        let needed = in_scope_chars(&s, &prefix, &p) && match stored_mtime(rows, &f.path) {
            None => true,
            Some(m) => is_stale(f.mtime_micros, m),
        };
        proof {
            let before = fs@.take(i as int);
            assert(fs@.take(i + 1) =~= before.push(fs@[i as int]));
            before.lemma_filter_push(fs@[i as int], want);
            assert(needed == want(fs@[i as int]));
        }
        if needed {
            let ghost old_paths = views(to_process@);
            to_process.push(f.path.clone());
            assert(views(to_process@) =~= old_paths.push(f.path@));
            assert(fs_paths(fs@.take(i as int).filter(want).push(fs@[i as int])) =~= fs_paths(
                fs@.take(i as int).filter(want),
            ).push(f.path@));
        }
        i += 1;
    }
    assert(fs@.take(fs.len() as int) =~= fs@);
    let mut to_evict: Vec<String> = Vec::new();
    let mut j: usize = 0;
    let ghost gone = evicted(scope@, fs_paths(fs@));
    proof {
        reveal(Seq::filter);
        assert(rows@.take(0).filter(gone) =~= Seq::<ImageEntry>::empty());
        assert(views(to_evict@) =~= entry_paths(rows@.take(0).filter(gone)));
    }
    while j < rows.len()
        invariant
            j <= rows.len(),
            s@ == scope@,
            prefix@ == s@ + seq!['/'],
            whole == is_root_scope(scope@),
            gone == evicted(scope@, fs_paths(fs@)),
            views(to_evict@) == entry_paths(rows@.take(j as int).filter(gone)),
        decreases rows.len() - j,
    {
        let r = &rows[j];
        let p = chars_of(r.path.as_str());
        let leaves = in_scope_chars(&s, &prefix, &p) && !pass_found(fs, &r.path) && !(whole
            && is_escaping_chars(&p));
        proof {
            let before = rows@.take(j as int);
            assert(rows@.take(j + 1) =~= before.push(rows@[j as int]));
            before.lemma_filter_push(rows@[j as int], gone);
            assert(leaves == gone(rows@[j as int]));
        }
        if leaves {
            let ghost old_paths = views(to_evict@);
            to_evict.push(r.path.clone());
            assert(views(to_evict@) =~= old_paths.push(r.path@));
            assert(entry_paths(rows@.take(j as int).filter(gone).push(rows@[j as int]))
                =~= entry_paths(rows@.take(j as int).filter(gone)).push(r.path@));
        }
        j += 1;
    }
    assert(rows@.take(rows.len() as int) =~= rows@);
    ReconcilePlan { to_process, to_evict }
}

/// The keyed store that a sequence of rows stands for: each path with the
/// first row that carries it.
pub open spec fn catalog_of(rows: Seq<ImageEntry>) -> Map<Seq<char>, ImageEntry> {
    Map::new(
        |p: Seq<char>| find_row(rows, p) is Some,
        |p: Seq<char>| find_row(rows, p).unwrap(),
    )
}

/// The store after a batch of upserts, each inserting or replacing the row
/// of its path, applied in order.
pub open spec fn with_upserts(
    store: Map<Seq<char>, ImageEntry>,
    upserts: Seq<ImageEntry>,
) -> Map<Seq<char>, ImageEntry>
    decreases upserts.len(),
{
    if upserts.len() == 0 {
        store
    } else {
        with_upserts(store, upserts.drop_last()).insert(upserts.last().path@, upserts.last())
    }
}

/// The store after one reconcile: the upserts applied, then the evicted
/// paths deleted.
pub open spec fn store_after(
    store: Map<Seq<char>, ImageEntry>,
    upserts: Seq<ImageEntry>,
    evictions: Seq<Seq<char>>,
) -> Map<Seq<char>, ImageEntry> {
    with_upserts(store, upserts).remove_keys(evictions.to_set())
}

/// Whether an entry describes a file of the pass as the pass saw it: same
/// path, same modification time.
pub open spec fn taken_from(fs: Seq<FsFile>, e: ImageEntry) -> bool {
    exists|k: int|
        0 <= k < fs.len() && (#[trigger] fs[k]).path@ == e.path@ && fs[k].mtime_micros
            == e.mtime_micros
}

/// Selects the files that were to be read and for which no entry came back.
pub open spec fn still_unread(
    scope: Seq<char>,
    rows: Seq<ImageEntry>,
    upserts: Seq<ImageEntry>,
) -> spec_fn(FsFile) -> bool {
    |f: FsFile| processable(scope, rows)(f) && !entry_paths(upserts).contains(f.path@)
}

/// The last upsert of a batch that carries the given path.
pub open spec fn last_upsert(upserts: Seq<ImageEntry>, path: Seq<char>) -> Option<ImageEntry>
    decreases upserts.len(),
{
    if upserts.len() == 0 {
        None
    } else if upserts.last().path@ == path {
        Some(upserts.last())
    } else {
        last_upsert(upserts.drop_last(), path)
    }
}

proof fn last_upsert_is_member(upserts: Seq<ImageEntry>, path: Seq<char>)
    ensures
        last_upsert(upserts, path) matches Some(u) ==> u.path@ == path && upserts.contains(u),
        last_upsert(upserts, path) is None ==> !entry_paths(upserts).contains(path),
    decreases upserts.len(),
{
    if upserts.len() > 0 {
        if upserts.last().path@ == path {
            assert(upserts[upserts.len() - 1] == upserts.last());
        } else {
            let rest = upserts.drop_last();
            last_upsert_is_member(rest, path);
            if let Some(u) = last_upsert(rest, path) {
                let k = choose|k: int| 0 <= k < rest.len() && rest[k] == u;
                assert(upserts[k] == u);
            } else {
                if entry_paths(upserts).contains(path) {
                    let k = choose|k: int|
                        0 <= k < entry_paths(upserts).len() && entry_paths(upserts)[k] == path;
                    assert(entry_paths(rest)[k] == path);
                }
            }
        }
    }
}

proof fn upserts_lookup(
    store: Map<Seq<char>, ImageEntry>,
    upserts: Seq<ImageEntry>,
    path: Seq<char>,
)
    ensures
        with_upserts(store, upserts).dom().contains(path) <==> store.dom().contains(path)
            || last_upsert(upserts, path) is Some,
        last_upsert(upserts, path) matches Some(u) ==> with_upserts(store, upserts)[path] == u,
        last_upsert(upserts, path) is None && store.dom().contains(path) ==> with_upserts(
            store,
            upserts,
        )[path] == store[path],
    decreases upserts.len(),
{
    if upserts.len() > 0 {
        upserts_lookup(store, upserts.drop_last(), path);
    }
}

proof fn found_row_is_member(rows: Seq<ImageEntry>, path: Seq<char>)
    ensures
        find_row(rows, path) matches Some(r) ==> r.path@ == path && rows.contains(r),
        find_row(rows, path) is None ==> !entry_paths(rows).contains(path),
    decreases rows.len(),
{
    if rows.len() > 0 {
        if rows[0].path@ == path {
        } else {
            let rest = rows.skip(1);
            found_row_is_member(rest, path);
            if let Some(r) = find_row(rest, path) {
                let k = choose|k: int| 0 <= k < rest.len() && rest[k] == r;
                assert(rows[k + 1] == r);
            } else {
                if entry_paths(rows).contains(path) {
                    let k = choose|k: int|
                        0 <= k < entry_paths(rows).len() && entry_paths(rows)[k] == path;
                    assert(entry_paths(rest)[k - 1] == path);
                }
            }
        }
    }
}

proof fn filters_agree<A>(s: Seq<A>, p: spec_fn(A) -> bool, q: spec_fn(A) -> bool)
    requires
        forall|k: int| 0 <= k < s.len() ==> p(#[trigger] s[k]) == q(s[k]),
    ensures
        s.filter(p) == s.filter(q),
    decreases s.len(),
{
    reveal(Seq::filter);
    if s.len() > 0 {
        let rest = s.drop_last();
        assert forall|k: int| 0 <= k < rest.len() implies p(#[trigger] rest[k]) == q(rest[k]) by {
            assert(rest[k] == s[k]);
        }
        filters_agree(rest, p, q);
        assert(p(s[s.len() - 1]) == q(s[s.len() - 1]));
    }
}

/// A path that the pass found is never among the paths to evict.
proof fn found_paths_stay(scope: Seq<char>, fs: Seq<FsFile>, rows: Seq<ImageEntry>, path: Seq<char>)
    requires
        paths_to_evict(scope, fs, rows).contains(path),
    ensures
        evictable(scope, fs_paths(fs), path),
{
    let gone = evicted(scope, fs_paths(fs));
    let kept = rows.filter(gone);
    let k = choose|k: int| 0 <= k < entry_paths(kept).len() && entry_paths(kept)[k] == path;
    rows.lemma_filter_pred(gone, k);
    assert(gone(kept[k]));
}

/// Reconciling is idempotent. Let one reconcile of `scope` run on the rows
/// `rows`, let `upserts` be the entries that came back for files of the pass,
/// each with the path and modification time that the pass saw, and let
/// `after` be the rows of the store once the upserts are applied and the
/// planned evictions deleted. A second reconcile of the same scope over the
/// same files then deletes nothing, and reads again exactly the files that
/// the first one wanted to read and got no entry for: nothing at all where
/// every such file yielded its entry.
pub proof fn reconcile_is_idempotent(
    scope: Seq<char>,
    fs: Seq<FsFile>,
    rows: Seq<ImageEntry>,
    upserts: Seq<ImageEntry>,
    after: Seq<ImageEntry>,
)
    requires
        fs_paths(fs).no_duplicates(),
        forall|k: int| 0 <= k < upserts.len() ==> taken_from(fs, #[trigger] upserts[k]),
        catalog_of(after) == store_after(
            catalog_of(rows),
            upserts,
            paths_to_evict(scope, fs, rows),
        ),
    ensures
        paths_to_evict(scope, fs, after).len() == 0,
        paths_to_process(scope, fs, after) == fs_paths(
            fs.filter(still_unread(scope, rows, upserts)),
        ),
        (forall|k: int|
            0 <= k < fs.len() && processable(scope, rows)(#[trigger] fs[k]) ==> entry_paths(
                upserts,
            ).contains(fs[k].path@)) ==> paths_to_process(scope, fs, after).len() == 0,
{
    let store = catalog_of(rows);
    let evictions = paths_to_evict(scope, fs, rows);
    let mid = with_upserts(store, upserts);
    let found = fs_paths(fs);
    let gone = evicted(scope, found);
    // No row of the new store is evictable.
    assert forall|i: int| 0 <= i < after.len() implies !gone(#[trigger] after[i]) by {
        let p = after[i].path@;
        if evictable(scope, found, p) {
            found_row_is_member(after, p);
            assert(entry_paths(after)[i] == p);
            assert(catalog_of(after).dom().contains(p));
            assert(mid.dom().contains(p) && !evictions.to_set().contains(p));
            upserts_lookup(store, upserts, p);
            last_upsert_is_member(upserts, p);
            if let Some(u) = last_upsert(upserts, p) {
                let k = choose|k: int| 0 <= k < upserts.len() && upserts[k] == u;
                assert(taken_from(fs, upserts[k]));
                let m = choose|m: int|
                    0 <= m < fs.len() && (#[trigger] fs[m]).path@ == u.path@ && fs[m].mtime_micros
                        == u.mtime_micros;
                assert(found[m] == p);
                assert(false);
            } else {
                found_row_is_member(rows, p);
                let r = find_row(rows, p).unwrap();
                let j = choose|j: int| 0 <= j < rows.len() && rows[j] == r;
                assert(gone(rows[j]));
                rows.lemma_filter_contains(gone, j);
                let kept = rows.filter(gone);
                let t = choose|t: int| 0 <= t < kept.len() && kept[t] == rows[j];
                assert(entry_paths(kept)[t] == p);
                assert(evictions.contains(p));
                assert(false);
            }
        }
    }
    assert(after.all(|x: ImageEntry| !gone(x)));
    after.lemma_all_neg_filter_empty(gone);
    // The second pass wants exactly the files that stayed unread.
    let want2 = processable(scope, after);
    let unread = still_unread(scope, rows, upserts);
    assert forall|k: int| 0 <= k < fs.len() implies want2(#[trigger] fs[k]) == unread(fs[k]) by {
        let f = fs[k];
        let p = f.path@;
        assert(found[k] == p);
        assert(!evictions.contains(p)) by {
            if evictions.contains(p) {
                found_paths_stay(scope, fs, rows, p);
            }
        }
        upserts_lookup(store, upserts, p);
        last_upsert_is_member(upserts, p);
        found_row_is_member(after, p);
        found_row_is_member(rows, p);
        assert(catalog_of(after).dom().contains(p) == mid.dom().contains(p));
        if let Some(u) = last_upsert(upserts, p) {
            let i = choose|i: int| 0 <= i < upserts.len() && upserts[i] == u;
            assert(taken_from(fs, upserts[i]));
            let m = choose|m: int|
                0 <= m < fs.len() && (#[trigger] fs[m]).path@ == u.path@ && fs[m].mtime_micros
                    == u.mtime_micros;
            assert(found[m] == p);
            assert(m == k);
            assert(catalog_of(after)[p] == u);
            assert(find_row(after, p) == Some(u));
            assert(entry_paths(upserts)[i] == p);
        } else {
            if store.dom().contains(p) {
                assert(catalog_of(after)[p] == store[p]);
                assert(find_row(after, p) == find_row(rows, p));
            } else {
                assert(find_row(after, p) is None);
            }
        }
    }
    filters_agree(fs, want2, unread);
    if forall|k: int|
        0 <= k < fs.len() && processable(scope, rows)(#[trigger] fs[k]) ==> entry_paths(
            upserts,
        ).contains(fs[k].path@) {
        assert(fs.all(|x: FsFile| !unread(x)));
        fs.lemma_all_neg_filter_empty(unread);
    }
}

} // verus!
