//! The playlist builder as a whole: from a request and the rows of the
//! catalog to the ordered list of paths, and the decisions on which scopes
//! must be reconciled before the catalog is queried.
use vstd::prelude::*;
use crate::catalog::{
    entry_path_list, entry_paths, escaping, in_scope, is_in_scope, is_root, is_root_scope,
    ImageEntry,
};
use crate::names::{escape_like_pattern, like_escaped};
use crate::paths::{
    is_under_root, normalize_rel_path, normalized, resolve_full_path, resolved, under_root,
};
use crate::natural::{by_name, by_number, by_two_names};
use crate::order::{
    is_permutation, permutation_keeps_items, permutation_of, reordered, stable_sort_of,
    stable_sort_rearranges,
};
use crate::playlist::{
    candidates, candidates_stay_inside_root, direction_named, first_by_path_is_distinct,
    first_occurrences, first_occurrences_are_distinct, orientation_named, parse_direction,
    parse_orientation, parse_sort, resolve_scopes, scopes_of, scopes_stay_inside_root,
    select_images, selected, strategy_named, Direction, SortStrategy,
};
use crate::strategy::{
    entry_mtimes, folder_prefixes, folder_times, folders_of, grouped, grouped_rearranges,
    index_in, index_in_finds, order_images, ordering_of, playlist_folders, position_in,
    FolderTime,
};
use crate::text::{chars_of, contains_text, string_of, views};

verus! {

/// The paths in playing direction.
pub open spec fn directed(paths: Seq<Seq<char>>, direction: Direction) -> Seq<Seq<char>> {
    match direction {
        Direction::Forward => paths,
        Direction::Reverse => paths.reverse(),
    }
}

/// The paths rotated left so that `current` comes first; unchanged where
/// `current` is not among them.
pub open spec fn rotated_to(paths: Seq<Seq<char>>, current: Seq<char>) -> Seq<Seq<char>> {
    let k = index_in(paths, current);
    if k < paths.len() {
        paths.skip(k) + paths.take(k)
    } else {
        paths
    }
}

/// The paths resumed at the current path of the request, if it has one.
pub open spec fn resumed(paths: Seq<Seq<char>>, current: Option<Seq<char>>) -> Seq<Seq<char>> {
    match current {
        Some(c) => rotated_to(paths, normalized(c)),
        None => paths,
    }
}

/// The view of an optional string.
pub open spec fn text_of(s: Option<String>) -> Option<Seq<char>> {
    match s {
        Some(t) => Some(t@),
        None => None,
    }
}

/// The playlist that ordered entries give: their paths, in playing
/// direction, resumed at the current path.
pub open spec fn playlist_of(
    ordered: Seq<ImageEntry>,
    direction: Direction,
    current: Option<Seq<char>>,
) -> Seq<Seq<char>> {
    resumed(directed(entry_paths(ordered), direction), current)
}

/// The paths in reverse order.
pub fn reverse_paths(paths: &Vec<String>) -> (out: Vec<String>)
    ensures
        views(out@) == views(paths@).reverse(),
{
    let n = paths.len();
    let mut out: Vec<String> = Vec::new();
    let mut k: usize = 0;
    while k < n
        invariant
            k <= n == paths.len(),
            out.len() == k,
            forall|j: int| 0 <= j < k ==> out[j]@ == paths[n - 1 - j]@,
        decreases n - k,
    {
        out.push(paths[n - 1 - k].clone());
        k += 1;
    }
    assert(views(out@) =~= views(paths@).reverse());
    out
}

/// Rotates the paths left so that `current` comes first. The rotation is
/// cyclic: nothing is dropped. Where `current` does not occur the paths stay
/// as they are.
pub fn rotate_to(paths: &Vec<String>, current: &String) -> (out: Vec<String>)
    ensures
        views(out@) == rotated_to(views(paths@), current@),
{
    let n = paths.len();
    let start = position_in(paths, current);
    let mut out: Vec<String> = Vec::new();
    if start >= n {
        let mut k: usize = 0;
        while k < n
            invariant
                k <= n == paths.len(),
                out.len() == k,
                forall|j: int| 0 <= j < k ==> out[j]@ == paths[j]@,
            decreases n - k,
        {
            out.push(paths[k].clone());
            k += 1;
        }
        assert(views(out@) =~= views(paths@));
        return out;
    }
    let mut k: usize = start;
    while k < n
        invariant
            start <= k <= n == paths.len(),
            out.len() == k - start,
            forall|j: int| 0 <= j < k - start ==> out[j]@ == paths[start + j]@,
        decreases n - k,
    {
        out.push(paths[k].clone());
        k += 1;
    }
    let mut m: usize = 0;
    while m < start
        invariant
            m <= start < n == paths.len(),
            out.len() == n - start + m,
            forall|j: int| 0 <= j < n - start ==> out[j]@ == paths[start + j]@,
            forall|j: int| 0 <= j < m ==> out[n - start + j]@ == paths[j]@,
        decreases start - m,
    {
        out.push(paths[m].clone());
        m += 1;
    }
    assert(views(out@) =~= views(paths@).skip(start as int) + views(paths@).take(start as int));
    out
}

/// Turns ordered entries into the playlist: takes their paths, reverses them
/// where the direction asks for it, and rotates them to the current path
/// where one is given and occurs.
pub fn finish_playlist(
    ordered: &Vec<ImageEntry>,
    direction: Direction,
    current: &Option<String>,
) -> (out: Vec<String>)
    ensures
        views(out@) == playlist_of(ordered@, direction, text_of(*current)),
{
    let paths = entry_path_list(ordered);
    let turned = match direction {
        Direction::Forward => paths,
        Direction::Reverse => reverse_paths(&paths),
    };
    match current {
        Some(c) => {
            let wanted = normalize_rel_path(c.as_str());
            rotate_to(&turned, &wanted)
        },
        None => turned,
    }
}

/// What a client asks of the playlist builder.
#[derive(Clone, Debug)]
pub struct PlaylistRequest {
    /// The requested scopes, as the client wrote them.
    pub paths: Vec<String>,
    /// The name of the sort strategy.
    pub sort: String,
    /// The name of the orientation filter.
    pub orientation: String,
    /// The name of the direction.
    pub direction: String,
    /// The path at which playing resumes.
    pub current_path: Option<String>,
}

/// The entries that a request selects, before ordering.
pub open spec fn requested_candidates(
    root: Seq<char>,
    allow_parent: bool,
    request: PlaylistRequest,
    rows: Seq<ImageEntry>,
) -> Seq<ImageEntry> {
    candidates(
        rows,
        scopes_of(root, views(request.paths@), allow_parent),
        allow_parent,
        orientation_named(request.orientation@),
    )
}

/// The folders whose modification times the request's strategy may need:
/// those that hold the selected entries.
pub fn request_folders(
    root_dir: &str,
    allow_parent: bool,
    request: &PlaylistRequest,
    rows: &Vec<ImageEntry>,
) -> (out: Vec<String>)
    ensures
        views(out@) == folders_of(requested_candidates(root_dir@, allow_parent, *request, rows@)),
{
    let scopes = resolve_scopes(root_dir, &request.paths, allow_parent);
    let orientation = parse_orientation(request.orientation.as_str());
    let items = select_images(rows, &scopes, allow_parent, orientation);
    playlist_folders(&items)
}

/// The absolute path of a folder of the playlist: the root for the empty
/// folder name, the resolved path otherwise.
pub fn folder_path(root_dir: &str, parent: &str) -> (out: String)
    ensures
        out@ == (if parent@.len() == 0 {
            root_dir@
        } else {
            resolved(root_dir@, parent@)
        }),
{
    let p = chars_of(parent);
    if p.len() == 0 {
        let r = chars_of(root_dir);
        string_of(&r)
    } else {
        resolve_full_path(root_dir, parent)
    }
}

/// Builds the playlist of a request from the rows of the catalog. The
/// requested paths become scopes, a refused one falling back to the root;
/// the scopes select rows, each path once; the strategy orders them; the
/// direction may reverse the order; and the list is rotated to the current
/// path where that occurs. An empty playlist is a valid result.
pub fn build_playlist(
    root_dir: &str,
    allow_parent: bool,
    request: &PlaylistRequest,
    rows: &Vec<ImageEntry>,
    times: &Vec<FolderTime>,
) -> (out: Vec<String>)
    ensures
        exists|ordered: Seq<ImageEntry>|
            #[trigger] ordering_of(
                strategy_named(request.sort@),
                ordered,
                requested_candidates(root_dir@, allow_parent, *request, rows@),
                times@,
            ) && views(out@) == playlist_of(
                ordered,
                direction_named(request.direction@),
                text_of(request.current_path),
            ),
{
    let scopes = resolve_scopes(root_dir, &request.paths, allow_parent);
    let orientation = parse_orientation(request.orientation.as_str());
    let items = select_images(rows, &scopes, allow_parent, orientation);
    let strategy = parse_sort(request.sort.as_str());
    let ordered = order_images(&items, strategy, times);
    let direction = parse_direction(request.direction.as_str());
    let out = finish_playlist(&ordered, direction, &request.current_path);
    assert(ordering_of(
        strategy_named(request.sort@),
        ordered@,
        requested_candidates(root_dir@, allow_parent, *request, rows@),
        times@,
    ));
    out
}

/// Reversal keeps the members of a list and repeats none that was single.
pub proof fn reversal_keeps_paths(paths: Seq<Seq<char>>)
    ensures
        paths.reverse().len() == paths.len(),
        forall|x: Seq<char>| paths.reverse().contains(x) <==> paths.contains(x),
        paths.no_duplicates() ==> paths.reverse().no_duplicates(),
{
    let r = paths.reverse();
    let n = paths.len() as int;
    assert forall|x: Seq<char>| r.contains(x) <==> paths.contains(x) by {
        if r.contains(x) {
            let k = choose|k: int| 0 <= k < r.len() && r[k] == x;
            assert(paths[n - 1 - k] == x);
        }
        if paths.contains(x) {
            let i = choose|i: int| 0 <= i < paths.len() && paths[i] == x;
            assert(r[n - 1 - i] == x);
        }
    }
    if paths.no_duplicates() {
        assert forall|a: int, b: int| 0 <= a < r.len() && 0 <= b < r.len() && a != b implies r[a]
            != r[b] by {
            assert(r[a] == paths[n - 1 - a] && r[b] == paths[n - 1 - b]);
        }
    }
}

/// Rotation is cyclic: it keeps the length and the members of a list and
/// repeats none that was single; and where the current path occurs it comes
/// first.
pub proof fn rotation_keeps_paths(paths: Seq<Seq<char>>, current: Seq<char>)
    ensures
        rotated_to(paths, current).len() == paths.len(),
        forall|x: Seq<char>| rotated_to(paths, current).contains(x) <==> paths.contains(x),
        paths.no_duplicates() ==> rotated_to(paths, current).no_duplicates(),
        paths.contains(current) ==> rotated_to(paths, current)[0] == current,
        !paths.contains(current) ==> rotated_to(paths, current) == paths,
{
    let k = index_in(paths, current);
    index_in_finds(paths, current);
    let r = rotated_to(paths, current);
    let n = paths.len() as int;
    if k < n {
        assert forall|x: Seq<char>| r.contains(x) <==> paths.contains(x) by {
            if r.contains(x) {
                let j = choose|j: int| 0 <= j < r.len() && r[j] == x;
                if j < n - k {
                    assert(paths[k + j] == x);
                } else {
                    assert(paths[j - (n - k)] == x);
                }
            }
            if paths.contains(x) {
                let i = choose|i: int| 0 <= i < paths.len() && paths[i] == x;
                if i >= k {
                    assert(r[i - k] == x);
                } else {
                    assert(r[n - k + i] == x);
                }
            }
        }
        if paths.no_duplicates() {
            assert forall|a: int, b: int|
                0 <= a < r.len() && 0 <= b < r.len() && a != b implies r[a] != r[b] by {
                let ia = if a < n - k {
                    k + a
                } else {
                    a - (n - k)
                };
                let ib = if b < n - k {
                    k + b
                } else {
                    b - (n - k)
                };
                assert(r[a] == paths[ia] && r[b] == paths[ib]);
            }
        }
        assert(r[0] == paths[k]);
    }
}

/// Every strategy rearranges: its result holds the entries it was given, in
/// some order.
pub proof fn ordering_rearranges(
    strategy: SortStrategy,
    out: Seq<ImageEntry>,
    items: Seq<ImageEntry>,
    times: Seq<FolderTime>,
)
    requires
        ordering_of(strategy, out, items, times),
    ensures
        permutation_of(out, items),
{
    match strategy {
        SortStrategy::Shuffle => {},
        SortStrategy::Date => {
            stable_sort_rearranges(out, items, by_number(entry_mtimes(items), true));
        },
        SortStrategy::Name => {
            stable_sort_rearranges(out, items, by_name(entry_paths(items)));
        },
        SortStrategy::SubfolderRandom => {
            let ordered = choose|ordered: Seq<Seq<char>>|
                permutation_of(ordered, folders_of(items)) && #[trigger] grouped(
                    out,
                    items,
                    ordered,
                );
            grouped_rearranges(out, items, ordered);
        },
        SortStrategy::SubfolderDate => {
            let ordered = choose|ordered: Seq<Seq<char>>|
                stable_sort_of(
                    ordered,
                    folders_of(items),
                    by_number(folder_times(folders_of(items), times), false),
                ) && #[trigger] grouped(out, items, ordered);
            grouped_rearranges(out, items, ordered);
        },
        SortStrategy::SubfolderPrefix => {
            let (arranged, ordered) = choose|arranged: Seq<ImageEntry>, ordered: Seq<Seq<char>>|
                #[trigger] grouped(arranged, items, folders_of(items)) && stable_sort_of(
                    ordered,
                    folders_of(items),
                    by_two_names(folder_prefixes(arranged, folders_of(items)), folders_of(items)),
                ) && #[trigger] grouped(out, items, ordered);
            grouped_rearranges(out, items, ordered);
        },
    }
}

/// The playlist is exact. Whatever the strategy, the direction and the
/// current path, the playlist built from entries with distinct paths holds
/// each of their paths once and nothing else.
pub proof fn playlist_is_exact(
    strategy: SortStrategy,
    ordered: Seq<ImageEntry>,
    items: Seq<ImageEntry>,
    times: Seq<FolderTime>,
    direction: Direction,
    current: Option<Seq<char>>,
)
    requires
        ordering_of(strategy, ordered, items, times),
        entry_paths(items).no_duplicates(),
    ensures
        playlist_of(ordered, direction, current).len() == items.len(),
        playlist_of(ordered, direction, current).no_duplicates(),
        forall|p: Seq<char>|
            playlist_of(ordered, direction, current).contains(p) <==> entry_paths(items).contains(
                p,
            ),
{
    ordering_rearranges(strategy, ordered, items, times);
    let p = choose|p: Seq<usize>|
        #[trigger] is_permutation(p, items.len()) && ordered == reordered(items, p);
    assert(entry_paths(ordered) =~= reordered(entry_paths(items), p));
    assert(is_permutation(p, entry_paths(items).len()));
    permutation_keeps_items(entry_paths(ordered), entry_paths(items));
    let turned = directed(entry_paths(ordered), direction);
    reversal_keeps_paths(entry_paths(ordered));
    if let Some(c) = current {
        rotation_keeps_paths(turned, normalized(c));
    }
}

/// The playlist of a request holds no path twice, and holds exactly the
/// paths of the catalog rows that the request's scopes select.
pub proof fn requested_playlist_is_exact(
    root: Seq<char>,
    allow_parent: bool,
    request: PlaylistRequest,
    rows: Seq<ImageEntry>,
    times: Seq<FolderTime>,
    ordered: Seq<ImageEntry>,
)
    requires
        ordering_of(
            strategy_named(request.sort@),
            ordered,
            requested_candidates(root, allow_parent, request, rows),
            times,
        ),
    ensures
        ({
            let out = playlist_of(
                ordered,
                direction_named(request.direction@),
                text_of(request.current_path),
            );
            let chosen = selected(
                rows,
                scopes_of(root, views(request.paths@), allow_parent),
                allow_parent,
                orientation_named(request.orientation@),
            );
            &&& out.no_duplicates()
            &&& forall|p: Seq<char>| out.contains(p) <==> entry_paths(chosen).contains(p)
        }),
{
    let chosen = selected(
        rows,
        scopes_of(root, views(request.paths@), allow_parent),
        allow_parent,
        orientation_named(request.orientation@),
    );
    first_by_path_is_distinct(chosen);
    playlist_is_exact(
        strategy_named(request.sort@),
        ordered,
        requested_candidates(root, allow_parent, request, rows),
        times,
        direction_named(request.direction@),
        text_of(request.current_path),
    );
}

/// Under a policy that forbids parent access the playlist of a request
/// holds no path that lives outside the root, whatever scopes the request
/// names and whatever rows the catalog holds.
pub proof fn playlist_stays_inside_root(
    root: Seq<char>,
    request: PlaylistRequest,
    rows: Seq<ImageEntry>,
    times: Seq<FolderTime>,
    ordered: Seq<ImageEntry>,
)
    requires
        ordering_of(
            strategy_named(request.sort@),
            ordered,
            requested_candidates(root, false, request, rows),
            times,
        ),
    ensures
        forall|p: Seq<char>|
            playlist_of(
                ordered,
                direction_named(request.direction@),
                text_of(request.current_path),
            ).contains(p) ==> !escaping(p),
{
    let items = requested_candidates(root, false, request, rows);
    let out = playlist_of(
        ordered,
        direction_named(request.direction@),
        text_of(request.current_path),
    );
    let scopes = scopes_of(root, views(request.paths@), false);
    let orientation = orientation_named(request.orientation@);
    first_by_path_is_distinct(selected(rows, scopes, false, orientation));
    playlist_is_exact(
        strategy_named(request.sort@),
        ordered,
        items,
        times,
        direction_named(request.direction@),
        text_of(request.current_path),
    );
    candidates_stay_inside_root(rows, scopes, orientation);
    assert forall|p: Seq<char>| out.contains(p) implies !escaping(p) by {
        assert(entry_paths(items).contains(p));
        let i = choose|i: int| 0 <= i < entry_paths(items).len() && entry_paths(items)[i] == p;
        assert(items[i].path@ == p);
    }
}

/// Whether a scope names a place outside the root directory.
pub open spec fn outside_root(root: Seq<char>) -> spec_fn(Seq<char>) -> bool {
    |scope: Seq<char>| !is_root_scope(scope) && !under_root(root, resolved(root, scope))
}

/// The scopes that lie outside the root, each once.
pub open spec fn external_among(root: Seq<char>, scopes: Seq<Seq<char>>) -> Seq<Seq<char>> {
    first_occurrences(scopes.filter(outside_root(root)))
}

/// Under a policy that forbids parent access no scope of a request is
/// external, so that no reconcile is started outside the root.
pub proof fn forbidden_policy_has_no_external_scope(root: Seq<char>, requested: Seq<Seq<char>>)
    ensures
        external_among(root, scopes_of(root, requested, false)).len() == 0,
{
    let scopes = scopes_of(root, requested, false);
    let pick = outside_root(root);
    scopes_stay_inside_root(root, requested);
    assert forall|i: int| 0 <= i < scopes.len() implies !pick(#[trigger] scopes[i]) by {
        let s = scopes[i];
        assert(s == seq!['.'] || under_root(root, resolved(root, s)));
    }
    assert(scopes.all(|x: Seq<char>| !pick(x)));
    scopes.lemma_all_neg_filter_empty(pick);
    assert(scopes.filter(pick) =~= Seq::<Seq<char>>::empty());
}

/// The scopes of a request that lie outside the root directory: the ones
/// that are reconciled on demand, once in the life of the process.
pub fn external_scopes(root_dir: &str, scopes: &Vec<String>) -> (out: Vec<String>)
    ensures
        views(out@) == external_among(root_dir@, views(scopes@)),
{
    let ghost sc = views(scopes@);
    let ghost pick = outside_root(root_dir@);
    let mut out: Vec<String> = Vec::new();
    let mut i: usize = 0;
    proof {
        reveal(Seq::filter);
        assert(sc.take(0).filter(pick) =~= Seq::<Seq<char>>::empty());
        assert(views(out@) =~= first_occurrences(sc.take(0).filter(pick)));
    }
    while i < scopes.len()
        invariant
            i <= scopes.len(),
            sc == views(scopes@),
            pick == outside_root(root_dir@),
            views(out@) == first_occurrences(sc.take(i as int).filter(pick)),
        decreases scopes.len() - i,
    {
        let scope = &scopes[i];
        let outside = !is_root(scope.as_str()) && {
            let full = resolve_full_path(root_dir, scope.as_str());
            !is_under_root(root_dir, full.as_str())
        };
        proof {
            let before = sc.take(i as int);
            assert(sc.take(i + 1) =~= before.push(sc[i as int]));
            before.lemma_filter_push(sc[i as int], pick);
            assert(outside == pick(sc[i as int]));
            if outside {
                assert(before.filter(pick).push(sc[i as int]).drop_last() =~= before.filter(pick));
                first_occurrences_are_distinct(before.filter(pick));
            }
        }
        if outside && !contains_text(&out, scope) {
            let ghost old_views = views(out@);
            out.push(scope.clone());
            assert(views(out@) =~= old_views.push(scope@));
        }
        i += 1;
    }
    assert(sc.take(scopes.len() as int) =~= sc);
    out
}

/// The scopes that were reconciled on demand since the process started.
pub struct SyncedScopes {
    scopes: Vec<String>,
}

impl SyncedScopes {
    /// The set of scopes that the cache holds.
    pub closed spec fn view(&self) -> Set<Seq<char>> {
        views(self.scopes@).to_set()
    }

    /// An empty cache.
    pub fn new() -> (cache: SyncedScopes)
        ensures
            cache@ == Set::<Seq<char>>::empty(),
    {
        let cache = SyncedScopes { scopes: Vec::new() };
        assert(views(cache.scopes@).to_set() =~= Set::<Seq<char>>::empty());
        cache
    }

    /// Whether the scope was reconciled already.
    pub fn contains(&self, scope: &String) -> (b: bool)
        ensures
            b == self@.contains(scope@),
    {
        contains_text(&self.scopes, scope)
    }

    /// Remembers a scope; says whether it was new.
    pub fn insert(&mut self, scope: String) -> (fresh: bool)
        ensures
            final(self)@ == old(self)@.insert(scope@),
            fresh == !old(self)@.contains(scope@),
    {
        if contains_text(&self.scopes, &scope) {
            assert(old(self)@.insert(scope@) =~= old(self)@);
            false
        } else {
            let ghost before = views(self.scopes@);
            self.scopes.push(scope);
            assert(views(self.scopes@) =~= before.push(scope@));
            assert(before.push(scope@).to_set() =~= before.to_set().insert(scope@)) by {
                assert forall|x: Seq<char>| before.push(scope@).contains(x) <==> (before.contains(
                    x,
                ) || x == scope@) by {
                    if before.push(scope@).contains(x) {
                        let k = choose|k: int|
                            0 <= k < before.push(scope@).len() && before.push(scope@)[k] == x;
                        if k < before.len() {
                            assert(before[k] == x);
                        }
                    }
                    if before.contains(x) {
                        let k = choose|k: int| 0 <= k < before.len() && before[k] == x;
                        assert(before.push(scope@)[k] == x);
                    }
                    if x == scope@ {
                        assert(before.push(scope@)[before.len() as int] == x);
                    }
                }
            }
            true
        }
    }
}

/// Selects the scopes that the cache does not hold.
pub open spec fn unsynced(synced: Set<Seq<char>>) -> spec_fn(Seq<char>) -> bool {
    |scope: Seq<char>| !synced.contains(scope)
}

/// The external scopes of a request that must be reconciled now: those
/// outside the root that were not reconciled since the process started.
pub fn pending_external(root_dir: &str, scopes: &Vec<String>, synced: &SyncedScopes) -> (out: Vec<
    String,
>)
    ensures
        views(out@) == external_among(root_dir@, views(scopes@)).filter(unsynced(synced@)),
{
    let external = external_scopes(root_dir, scopes);
    let ghost ext = views(external@);
    let ghost pick = unsynced(synced@);
    let mut out: Vec<String> = Vec::new();
    let mut i: usize = 0;
    proof {
        reveal(Seq::filter);
        assert(ext.take(0).filter(pick) =~= Seq::<Seq<char>>::empty());
        assert(views(out@) =~= ext.take(0).filter(pick));
    }
    while i < external.len()
        invariant
            i <= external.len(),
            ext == views(external@),
            pick == unsynced(synced@),
            views(out@) == ext.take(i as int).filter(pick),
        decreases external.len() - i,
    {
        proof {
            let before = ext.take(i as int);
            assert(ext.take(i + 1) =~= before.push(ext[i as int]));
            before.lemma_filter_push(ext[i as int], pick);
        }
        if !synced.contains(&external[i]) {
            let ghost old_views = views(out@);
            out.push(external[i].clone());
            assert(views(out@) =~= old_views.push(ext[i as int]));
        }
        i += 1;
    }
    assert(ext.take(external.len() as int) =~= ext);
    out
}

/// Selects the cold scopes: those other than the root for which the
/// catalog holds no row, neither of the scope itself nor under it.
pub open spec fn cold(rows: Seq<ImageEntry>) -> spec_fn(Seq<char>) -> bool {
    |scope: Seq<char>|
        !is_root_scope(scope) && forall|i: int|
            0 <= i < rows.len() ==> !in_scope(scope, #[trigger] rows[i].path@)
}

fn has_rows_in(rows: &Vec<ImageEntry>, scope: &String) -> (b: bool)
    ensures
        b == exists|i: int| 0 <= i < rows.len() && in_scope(scope@, #[trigger] rows[i].path@),
{
    let mut i: usize = 0;
    while i < rows.len()
        invariant
            i <= rows.len(),
            forall|k: int| 0 <= k < i ==> !in_scope(scope@, #[trigger] rows[k].path@),
        decreases rows.len() - i,
    {
        if is_in_scope(scope.as_str(), rows[i].path.as_str()) {
            assert(in_scope(scope@, rows[i as int].path@));
            return true;
        }
        i += 1;
    }
    false
}

/// The cold scopes of a request: the scopes other than the root for which
/// the catalog holds nothing yet, so that the first view of a new folder is
/// never empty for want of a reconcile.
pub fn cold_scopes(scopes: &Vec<String>, rows: &Vec<ImageEntry>) -> (out: Vec<String>)
    ensures
        views(out@) == views(scopes@).filter(cold(rows@)),
{
    let ghost sc = views(scopes@);
    let ghost pick = cold(rows@);
    let mut out: Vec<String> = Vec::new();
    let mut i: usize = 0;
    proof {
        reveal(Seq::filter);
        assert(sc.take(0).filter(pick) =~= Seq::<Seq<char>>::empty());
        assert(views(out@) =~= sc.take(0).filter(pick));
    }
    while i < scopes.len()
        invariant
            i <= scopes.len(),
            sc == views(scopes@),
            pick == cold(rows@),
            views(out@) == sc.take(i as int).filter(pick),
        decreases scopes.len() - i,
    {
        let is_cold = !is_root(scopes[i].as_str()) && !has_rows_in(rows, &scopes[i]);
        proof {
            let before = sc.take(i as int);
            assert(sc.take(i + 1) =~= before.push(sc[i as int]));
            before.lemma_filter_push(sc[i as int], pick);
            assert(is_cold == pick(sc[i as int]));
        }
        if is_cold {
            let ghost old_views = views(out@);
            out.push(scopes[i].clone());
            assert(views(out@) =~= old_views.push(sc[i as int]));
        }
        i += 1;
    }
    assert(sc.take(scopes.len() as int) =~= sc);
    out
}

/// The prefix pattern that matches the rows under a scope in a store that
/// is queried by pattern: the scope with its wildcard characters escaped, a
/// slash, and the wildcard for the rest.
pub fn scope_like_pattern(scope: &str) -> (out: String)
    ensures
        out@ == like_escaped(scope@) + seq!['/', '%'],
{
    let escaped = escape_like_pattern(scope);
    let mut v = chars_of(escaped.as_str());
    v.push('/');
    v.push('%');
    assert(v@ =~= like_escaped(scope@) + seq!['/', '%']);
    string_of(&v)
}

} // verus!
