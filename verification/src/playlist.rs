//! The playlist builder: scope resolution with fallback to the root, the
//! selection of catalog rows, the ordering strategies, reversal, rotation to
//! the current item.
use vstd::prelude::*;
use crate::catalog::{
    entry_paths, escaping, in_scope, is_escaping, is_in_scope, ImageEntry,
};
use crate::paths::{
    authorize, collapse_dot_segments, normalized, permitted, resolved, under_root,
};
use crate::text::{
    chars_of, contains_text, owned, replace_char, same_chars, same_text, string_of, strip_end,
    strip_start, views, Strip,
};

verus! {

/// How a playlist is ordered.
#[derive(Clone, Copy, PartialEq, Eq, Structural, Debug)]
pub enum SortStrategy {
    Shuffle,
    Date,
    Name,
    SubfolderRandom,
    SubfolderDate,
    SubfolderPrefix,
}

/// Which images a playlist admits.
#[derive(Clone, Copy, PartialEq, Eq, Structural, Debug)]
pub enum Orientation {
    Both,
    Landscape,
    Portrait,
}

/// Whether the ordered playlist is played as it stands or backwards.
#[derive(Clone, Copy, PartialEq, Eq, Structural, Debug)]
pub enum Direction {
    Forward,
    Reverse,
}

/// The strategy that a name stands for; an unknown name stands for `Name`.
pub open spec fn strategy_named(name: Seq<char>) -> SortStrategy {
    if name == "shuffle"@ {
        SortStrategy::Shuffle
    } else if name == "date"@ {
        SortStrategy::Date
    } else if name == "subfolder_random"@ {
        SortStrategy::SubfolderRandom
    } else if name == "subfolder_date"@ {
        SortStrategy::SubfolderDate
    } else if name == "subfolder_prefix"@ {
        SortStrategy::SubfolderPrefix
    } else {
        SortStrategy::Name
    }
}

/// The filter that a name stands for; anything but `Landscape` and
/// `Portrait` admits both.
pub open spec fn orientation_named(name: Seq<char>) -> Orientation {
    if name == "Landscape"@ {
        Orientation::Landscape
    } else if name == "Portrait"@ {
        Orientation::Portrait
    } else {
        Orientation::Both
    }
}

/// The direction that a name stands for; anything but `reverse` is forward.
pub open spec fn direction_named(name: Seq<char>) -> Direction {
    if name == "reverse"@ {
        Direction::Reverse
    } else {
        Direction::Forward
    }
}

fn is_word(name: &Vec<char>, word: &str) -> (b: bool)
    ensures
        b == (name@ == word@),
{
    let w = chars_of(word);
    same_chars(name, &w)
}

/// Reads a sort strategy.
pub fn parse_sort(name: &str) -> (s: SortStrategy)
    ensures
        s == strategy_named(name@),
{
    let n = chars_of(name);
    if is_word(&n, "shuffle") {
        SortStrategy::Shuffle
    } else if is_word(&n, "date") {
        SortStrategy::Date
    } else if is_word(&n, "subfolder_random") {
        SortStrategy::SubfolderRandom
    } else if is_word(&n, "subfolder_date") {
        SortStrategy::SubfolderDate
    } else if is_word(&n, "subfolder_prefix") {
        SortStrategy::SubfolderPrefix
    } else {
        SortStrategy::Name
    }
}

/// Reads an orientation filter.
pub fn parse_orientation(name: &str) -> (o: Orientation)
    ensures
        o == orientation_named(name@),
{
    let n = chars_of(name);
    if is_word(&n, "Landscape") {
        Orientation::Landscape
    } else if is_word(&n, "Portrait") {
        Orientation::Portrait
    } else {
        Orientation::Both
    }
}

/// Reads a direction.
pub fn parse_direction(name: &str) -> (d: Direction)
    ensures
        d == direction_named(name@),
{
    let n = chars_of(name);
    if is_word(&n, "reverse") {
        Direction::Reverse
    } else {
        Direction::Forward
    }
}

/// The sort strategy of a request that names none.
pub fn default_sort() -> (s: String)
    ensures
        s@ == "shuffle"@,
        strategy_named(s@) == SortStrategy::Shuffle,
{
    owned("shuffle")
}

/// The orientation filter of a request that names none.
pub fn default_orientation() -> (s: String)
    ensures
        s@ == "Both"@,
        orientation_named(s@) == Orientation::Both,
{
    proof {
        reveal_strlit("Both");
        reveal_strlit("Landscape");
        reveal_strlit("Portrait");
        assert("Both"@.len() == 4 && "Landscape"@.len() == 9 && "Portrait"@.len() == 8);
    }
    owned("Both")
}

/// The direction of a request that names none.
pub fn default_direction() -> (s: String)
    ensures
        s@ == "forward"@,
        direction_named(s@) == Direction::Forward,
{
    proof {
        reveal_strlit("forward");
        reveal_strlit("reverse");
        assert("forward"@[0] == 'f' && "reverse"@[0] == 'r');
    }
    owned("forward")
}

/// The strings of `s` without repetitions: each one where it first occurs.
pub open spec fn first_occurrences(s: Seq<Seq<char>>) -> Seq<Seq<char>>
    decreases s.len(),
{
    if s.len() == 0 {
        s
    } else if s.drop_last().contains(s.last()) {
        first_occurrences(s.drop_last())
    } else {
        first_occurrences(s.drop_last()).push(s.last())
    }
}

/// Removing repetitions keeps exactly the strings that occur, each once.
pub proof fn first_occurrences_are_distinct(s: Seq<Seq<char>>)
    ensures
        first_occurrences(s).no_duplicates(),
        forall|x: Seq<char>| first_occurrences(s).contains(x) <==> s.contains(x),
    decreases s.len(),
{
    if s.len() > 0 {
        let rest = s.drop_last();
        let head = first_occurrences(rest);
        let full = first_occurrences(s);
        first_occurrences_are_distinct(rest);
        assert forall|x: Seq<char>| full.contains(x) <==> s.contains(x) by {
            if s.contains(x) {
                let k = choose|k: int| 0 <= k < s.len() && s[k] == x;
                if k < rest.len() {
                    assert(rest[k] == x);
                    assert(rest.contains(x));
                    assert(head.contains(x));
                    let j = choose|j: int| 0 <= j < head.len() && head[j] == x;
                    assert(full[j] == x);
                } else if rest.contains(x) {
                    assert(head.contains(x));
                } else {
                    assert(full[head.len() as int] == x);
                }
            }
            if full.contains(x) {
                let j = choose|j: int| 0 <= j < full.len() && full[j] == x;
                if j < head.len() {
                    assert(head[j] == x);
                    assert(head.contains(x));
                    assert(rest.contains(x));
                    let k = choose|k: int| 0 <= k < rest.len() && rest[k] == x;
                    assert(s[k] == x);
                } else {
                    assert(s[s.len() - 1] == x);
                }
            }
        }
        if !rest.contains(s.last()) {
            assert forall|i: int, j: int|
                0 <= i < full.len() && 0 <= j < full.len() && i != j implies full[i] != full[j] by {
                if i == head.len() {
                    assert(head[j] == full[j]);
                    assert(head.contains(full[j]));
                    assert(rest.contains(full[j]));
                } else if j == head.len() {
                    assert(head[i] == full[i]);
                    assert(head.contains(full[i]));
                    assert(rest.contains(full[i]));
                } else {
                    assert(head[i] == full[i] && head[j] == full[j]);
                }
            }
        }
    }
}

/// The scope that a requested path stands for: its normal form where the
/// boundary admits it, the root otherwise.
pub open spec fn scope_of(root: Seq<char>, requested: Seq<char>, allow_parent: bool) -> Seq<char> {
    if permitted(root, resolved(root, normalized(requested)), allow_parent) {
        normalized(requested)
    } else {
        seq!['.']
    }
}

/// The scopes that a list of requested paths stands for, without
/// repetitions.
pub open spec fn scopes_of(
    root: Seq<char>,
    requested: Seq<Seq<char>>,
    allow_parent: bool,
) -> Seq<Seq<char>> {
    first_occurrences(requested.map_values(|r: Seq<char>| scope_of(root, r, allow_parent)))
}

/// The root scope is its own normal form.
pub proof fn root_scope_is_normal()
    ensures
        normalized(seq!['.']) == seq!['.'],
{
    let dot = seq!['.'];
    assert(replace_char(dot, '\\', '/') =~= dot);
    assert(dot.len() == 1 && dot[0] == '.' && dot.last() == '.');
    assert(strip_start(dot, Strip::Whitespace) == dot);
    assert(strip_end(dot, Strip::Whitespace) == dot);
    assert(strip_start(dot, Strip::Slashes) == dot);
    assert(strip_end(dot, Strip::Slashes) == dot);
    assert(dot.skip(1) =~= Seq::<char>::empty());
    assert(collapse_dot_segments(dot.skip(1)) =~= Seq::<char>::empty());
    assert(collapse_dot_segments(dot) =~= dot);
}

/// The requested paths with each one that the boundary refuses replaced by
/// the root scope.
pub open spec fn with_fallback(
    root: Seq<char>,
    requested: Seq<Seq<char>>,
    allow_parent: bool,
) -> Seq<Seq<char>> {
    requested.map_values(
        |r: Seq<char>|
            if permitted(root, resolved(root, normalized(r)), allow_parent) {
                r
            } else {
                seq!['.']
            },
    )
}

/// A refused scope counts as the root. Asking for a path that the boundary
/// refuses is the same as asking for the root in its place: the scopes are
/// the same, and so is everything that is built from them.
pub proof fn refused_scope_counts_as_root(
    root: Seq<char>,
    requested: Seq<Seq<char>>,
    allow_parent: bool,
)
    ensures
        scopes_of(root, with_fallback(root, requested, allow_parent), allow_parent) == scopes_of(
            root,
            requested,
            allow_parent,
        ),
        forall|rows: Seq<ImageEntry>, orientation: Orientation| #[trigger]
            candidates(
                rows,
                scopes_of(root, with_fallback(root, requested, allow_parent), allow_parent),
                allow_parent,
                orientation,
            ) == candidates(
                rows,
                scopes_of(root, requested, allow_parent),
                allow_parent,
                orientation,
            ),
{
    root_scope_is_normal();
    let replaced = with_fallback(root, requested, allow_parent);
    let a = replaced.map_values(|r: Seq<char>| scope_of(root, r, allow_parent));
    let b = requested.map_values(|r: Seq<char>| scope_of(root, r, allow_parent));
    assert(a =~= b);
}

/// Under a policy that forbids parent access, no scope of a request names
/// a place outside the root: each is the root scope or resolves to a path
/// with the root as its prefix.
pub proof fn scopes_stay_inside_root(root: Seq<char>, requested: Seq<Seq<char>>)
    ensures
        forall|i: int|
            0 <= i < scopes_of(root, requested, false).len() ==> {
                let s = #[trigger] scopes_of(root, requested, false)[i];
                s == seq!['.'] || under_root(root, resolved(root, s))
            },
{
    let all = requested.map_values(|r: Seq<char>| scope_of(root, r, false));
    let scopes = scopes_of(root, requested, false);
    first_occurrences_are_distinct(all);
    assert forall|i: int| 0 <= i < scopes.len() implies {
        let s = #[trigger] scopes[i];
        s == seq!['.'] || under_root(root, resolved(root, s))
    } by {
        assert(scopes.contains(scopes[i]));
        assert(all.contains(scopes[i]));
        let k = choose|k: int| 0 <= k < all.len() && all[k] == scopes[i];
        assert(all[k] == scope_of(root, requested[k], false));
    }
}

/// The scope that one requested path stands for. A path that the boundary
/// refuses is not an error: it falls back to the root.
pub fn resolve_scope(root_dir: &str, requested: &str, allow_parent: bool) -> (out: String)
    ensures
        out@ == scope_of(root_dir@, requested@, allow_parent),
{
    match authorize(root_dir, requested, allow_parent) {
        Ok(p) => p.rel,
        Err(_) => {
            let dot: Vec<char> = vec!['.'];
            assert(dot@ =~= seq!['.']);
            string_of(&dot)
        },
    }
}

/// Resolves the requested paths to scopes and drops repeated scopes, the
/// first occurrence staying where it is.
pub fn resolve_scopes(root_dir: &str, requested: &Vec<String>, allow_parent: bool) -> (out: Vec<
    String,
>)
    ensures
        views(out@) == scopes_of(root_dir@, views(requested@), allow_parent),
{
    let ghost all = views(requested@).map_values(
        |r: Seq<char>| scope_of(root_dir@, r, allow_parent),
    );
    let mut out: Vec<String> = Vec::new();
    let mut i: usize = 0;
    assert(views(out@) =~= first_occurrences(all.take(0)));
    while i < requested.len()
        invariant
            i <= requested.len(),
            all == views(requested@).map_values(
                |r: Seq<char>| scope_of(root_dir@, r, allow_parent),
            ),
            views(out@) == first_occurrences(all.take(i as int)),
        decreases requested.len() - i,
    {
        let scope = resolve_scope(root_dir, requested[i].as_str(), allow_parent);
        proof {
            assert(all.take(i + 1).drop_last() =~= all.take(i as int));
            assert(all.take(i + 1).last() == scope@);
            first_occurrences_are_distinct(all.take(i as int));
        }
        if !contains_text(&out, &scope) {
            let ghost before = views(out@);
            out.push(scope);
            assert(views(out@) =~= before.push(scope@));
        }
        i += 1;
    }
    assert(all.take(requested.len() as int) =~= all);
    out
}

/// Whether the orientation filter admits an image.
pub open spec fn admits(orientation: Orientation, is_landscape: bool) -> bool {
    match orientation {
        Orientation::Both => true,
        Orientation::Landscape => is_landscape,
        Orientation::Portrait => !is_landscape,
    }
}

/// Selects the rows that one scope contributes: the row of the scope itself
/// and the rows under it, all rows for the root; without the rows that live
/// outside the root where the policy forbids them; filtered by orientation.
pub open spec fn selects(
    scope: Seq<char>,
    allow_parent: bool,
    orientation: Orientation,
) -> spec_fn(ImageEntry) -> bool {
    |r: ImageEntry|
        in_scope(scope, r.path@) && (allow_parent || !escaping(r.path@)) && admits(
            orientation,
            r.is_landscape,
        )
}

/// The rows that the scopes contribute, scope after scope.
pub open spec fn selected(
    rows: Seq<ImageEntry>,
    scopes: Seq<Seq<char>>,
    allow_parent: bool,
    orientation: Orientation,
) -> Seq<ImageEntry>
    decreases scopes.len(),
{
    if scopes.len() == 0 {
        Seq::empty()
    } else {
        selected(rows, scopes.drop_last(), allow_parent, orientation) + rows.filter(
            selects(scopes.last(), allow_parent, orientation),
        )
    }
}

/// The entries of `rows` without repeated paths: for each path the first
/// entry that carries it.
pub open spec fn first_by_path(rows: Seq<ImageEntry>) -> Seq<ImageEntry>
    decreases rows.len(),
{
    if rows.len() == 0 {
        rows
    } else if entry_paths(rows.drop_last()).contains(rows.last().path@) {
        first_by_path(rows.drop_last())
    } else {
        first_by_path(rows.drop_last()).push(rows.last())
    }
}

/// The images of a playlist before ordering: what the scopes select, each
/// path once.
pub open spec fn candidates(
    rows: Seq<ImageEntry>,
    scopes: Seq<Seq<char>>,
    allow_parent: bool,
    orientation: Orientation,
) -> Seq<ImageEntry> {
    first_by_path(selected(rows, scopes, allow_parent, orientation))
}

/// Removing repeated paths keeps exactly the paths that occur, each once.
pub proof fn first_by_path_is_distinct(rows: Seq<ImageEntry>)
    ensures
        entry_paths(first_by_path(rows)) == first_occurrences(entry_paths(rows)),
        entry_paths(first_by_path(rows)).no_duplicates(),
        forall|p: Seq<char>|
            entry_paths(first_by_path(rows)).contains(p) <==> entry_paths(rows).contains(p),
    decreases rows.len(),
{
    if rows.len() > 0 {
        let rest = rows.drop_last();
        first_by_path_is_distinct(rest);
        assert(entry_paths(rows).drop_last() =~= entry_paths(rest));
        assert(entry_paths(rows).last() == rows.last().path@);
        if !entry_paths(rest).contains(rows.last().path@) {
            assert(entry_paths(first_by_path(rest).push(rows.last())) =~= entry_paths(
                first_by_path(rest),
            ).push(rows.last().path@));
        }
    } else {
        assert(entry_paths(rows) =~= Seq::<Seq<char>>::empty());
    }
    first_occurrences_are_distinct(entry_paths(rows));
}

/// Every entry that the scopes select is a row that one of them selects.
pub proof fn selected_rows_are_selected(
    rows: Seq<ImageEntry>,
    scopes: Seq<Seq<char>>,
    allow_parent: bool,
    orientation: Orientation,
    i: int,
)
    requires
        0 <= i < selected(rows, scopes, allow_parent, orientation).len(),
    ensures
        rows.contains(selected(rows, scopes, allow_parent, orientation)[i]),
        exists|k: int|
            0 <= k < scopes.len() && selects(#[trigger] scopes[k], allow_parent, orientation)(
                selected(rows, scopes, allow_parent, orientation)[i],
            ),
    decreases scopes.len(),
{
    let head = selected(rows, scopes.drop_last(), allow_parent, orientation);
    let pick = selects(scopes.last(), allow_parent, orientation);
    if i < head.len() {
        selected_rows_are_selected(rows, scopes.drop_last(), allow_parent, orientation, i);
        let k = choose|k: int|
            0 <= k < scopes.drop_last().len() && selects(
                #[trigger] scopes.drop_last()[k],
                allow_parent,
                orientation,
            )(head[i]);
        assert(scopes[k] == scopes.drop_last()[k]);
    } else {
        let j = i - head.len();
        rows.lemma_filter_pred(pick, j);
        assert(rows.filter(pick).contains(rows.filter(pick)[j]));
        rows.lemma_filter_contains_rev(pick, rows.filter(pick)[j]);
        assert(scopes[scopes.len() - 1] == scopes.last());
    }
}

/// Every entry that is left after repeated paths are removed was there
/// before.
pub proof fn first_by_path_keeps_entries(rows: Seq<ImageEntry>, i: int)
    requires
        0 <= i < first_by_path(rows).len(),
    ensures
        rows.contains(first_by_path(rows)[i]),
    decreases rows.len(),
{
    if rows.len() > 0 {
        let rest = rows.drop_last();
        if i < first_by_path(rest).len() {
            first_by_path_keeps_entries(rest, i);
            let k = choose|k: int| 0 <= k < rest.len() && rest[k] == first_by_path(rest)[i];
            assert(rows[k] == first_by_path(rest)[i]);
        } else {
            assert(rows[rows.len() - 1] == rows.last());
        }
    }
}

/// Under a policy that forbids parent access no candidate lives outside the
/// root, whatever the scopes and whatever the catalog holds.
pub proof fn candidates_stay_inside_root(
    rows: Seq<ImageEntry>,
    scopes: Seq<Seq<char>>,
    orientation: Orientation,
)
    ensures
        forall|i: int|
            0 <= i < candidates(rows, scopes, false, orientation).len() ==> !escaping(
                (#[trigger] candidates(rows, scopes, false, orientation)[i]).path@,
            ),
{
    let chosen = selected(rows, scopes, false, orientation);
    let kept = candidates(rows, scopes, false, orientation);
    assert forall|i: int| 0 <= i < kept.len() implies !escaping((#[trigger] kept[i]).path@) by {
        first_by_path_keeps_entries(chosen, i);
        let j = choose|j: int| 0 <= j < chosen.len() && chosen[j] == kept[i];
        selected_rows_are_selected(rows, scopes, false, orientation, j);
    }
}

fn has_path(items: &Vec<ImageEntry>, path: &String) -> (b: bool)
    ensures
        b == entry_paths(items@).contains(path@),
{
    let mut i: usize = 0;
    while i < items.len()
        invariant
            i <= items.len(),
            forall|k: int| 0 <= k < i ==> entry_paths(items@)[k] != path@,
        decreases items.len() - i,
    {
        if same_text(&items[i].path, path) {
            assert(entry_paths(items@)[i as int] == path@);
            return true;
        }
        i += 1;
    }
    false
}

/// Whether one scope selects a row.
pub fn scope_selects(
    scope: &str,
    allow_parent: bool,
    orientation: Orientation,
    row: &ImageEntry,
) -> (b: bool)
    ensures
        b == selects(scope@, allow_parent, orientation)(*row),
{
    let fits = match orientation {
        Orientation::Both => true,
        Orientation::Landscape => row.is_landscape,
        Orientation::Portrait => !row.is_landscape,
    };
    fits && is_in_scope(scope, row.path.as_str()) && (allow_parent || !is_escaping(
        row.path.as_str(),
    ))
}

/// Queries the rows for every scope in turn and keeps, of rows with one
/// path, the first.
pub fn select_images(
    rows: &Vec<ImageEntry>,
    scopes: &Vec<String>,
    allow_parent: bool,
    orientation: Orientation,
) -> (out: Vec<ImageEntry>)
    ensures
        out@ == candidates(rows@, views(scopes@), allow_parent, orientation),
{
    let ghost sc = views(scopes@);
    let mut out: Vec<ImageEntry> = Vec::new();
    let mut s: usize = 0;
    assert(sc.take(0) =~= Seq::<Seq<char>>::empty());
    while s < scopes.len()
        invariant
            s <= scopes.len(),
            sc == views(scopes@),
            out@ == first_by_path(selected(rows@, sc.take(s as int), allow_parent, orientation)),
        decreases scopes.len() - s,
    {
        let ghost base = selected(rows@, sc.take(s as int), allow_parent, orientation);
        let ghost pick = selects(sc[s as int], allow_parent, orientation);
        let mut i: usize = 0;
        proof {
            reveal(Seq::filter);
            assert(rows@.take(0).filter(pick) =~= Seq::<ImageEntry>::empty());
            assert(base + rows@.take(0).filter(pick) =~= base);
        }
        while i < rows.len()
            invariant
                i <= rows.len(),
                s < scopes.len(),
                sc == views(scopes@),
                pick == selects(sc[s as int], allow_parent, orientation),
                out@ == first_by_path(base + rows@.take(i as int).filter(pick)),
            decreases rows.len() - i,
        {
            let row = &rows[i];
            let take = scope_selects(scopes[s].as_str(), allow_parent, orientation, row);
            proof {
                let before = rows@.take(i as int);
                assert(rows@.take(i + 1) =~= before.push(rows@[i as int]));
                before.lemma_filter_push(rows@[i as int], pick);
                if take {
                    let joined = base + before.filter(pick);
                    assert(base + before.filter(pick).push(rows@[i as int]) =~= joined.push(
                        rows@[i as int],
                    ));
                    assert(joined.push(rows@[i as int]).drop_last() =~= joined);
                    first_by_path_is_distinct(joined);
                }
            }
            if take && !has_path(&out, &row.path) {
                out.push(row.duplicate());
            }
            i += 1;
        }
        proof {
            assert(rows@.take(rows.len() as int) =~= rows@);
            assert(sc.take(s + 1).drop_last() =~= sc.take(s as int));
            assert(sc.take(s + 1).last() == sc[s as int]);
        }
        s += 1;
    }
    assert(sc.take(scopes.len() as int) =~= sc);
    out
}

} // verus!
