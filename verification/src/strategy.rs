//! The ordering strategies of the playlist builder.
use vstd::prelude::*;
use rand::seq::SliceRandom;
use crate::catalog::{entry_path_list, entry_paths, ImageEntry};
use crate::names::{
    file_stem, file_stem_from_rel_path, parent_folder, parent_of, strip_trailing_index_suffix,
    without_index_suffix,
};
use crate::natural::{
    by_name, by_number, by_number_is_total_preorder, by_two_names, firsts_of, natural_order,
    seconds_of, ByName, ByNumber, ByTwoNames, NamePair,
};
use crate::order::{
    ahead, is_permutation, permutation_of, rearrangements_compose, reordered, stable_order,
    stable_sort_by_witness, stable_sort_of, stable_sort_rearranges, stably_sorted,
    total_preorder, Ranking,
};
use crate::playlist::{first_occurrences, first_occurrences_are_distinct, SortStrategy};
use crate::text::{contains_text, same_text, views};

verus! {

/// Calls `SliceRandom::shuffle` of the rand crate with the thread's
/// generator. The shuffle only swaps items of the vector, so whatever the
/// generator yields the vector afterwards holds the items it held before, in
/// some order; nothing is claimed of which order.
#[verifier::external_body]
fn shuffle_items<T>(items: &mut Vec<T>)
    ensures
        permutation_of(final(items)@, old(items)@),
{
    items.shuffle(&mut rand::thread_rng());
}

/// The modification times of a sequence of entries.
pub open spec fn entry_mtimes(items: Seq<ImageEntry>) -> Seq<u64> {
    items.map_values(|e: ImageEntry| e.mtime_micros)
}

/// The parent folders of a sequence of entries.
pub open spec fn parents(items: Seq<ImageEntry>) -> Seq<Seq<char>> {
    items.map_values(|e: ImageEntry| parent_of(e.path@))
}

/// The folders that hold the entries, each where it first occurs.
pub open spec fn folders_of(items: Seq<ImageEntry>) -> Seq<Seq<char>> {
    first_occurrences(parents(items))
}

/// The first index of `x` in `list`, or the length of `list` where `x` does
/// not occur.
pub open spec fn index_in(list: Seq<Seq<char>>, x: Seq<char>) -> int
    decreases list.len(),
{
    if list.len() == 0 {
        0
    } else if list[0] == x {
        0
    } else {
        1 + index_in(list.skip(1), x)
    }
}

/// `index_in` finds the first occurrence: below the length exactly when `x`
/// occurs, and then at an index that holds `x`.
pub proof fn index_in_finds(list: Seq<Seq<char>>, x: Seq<char>)
    ensures
        0 <= index_in(list, x) <= list.len(),
        index_in(list, x) < list.len() <==> list.contains(x),
        index_in(list, x) < list.len() ==> list[index_in(list, x)] == x,
    decreases list.len(),
{
    if list.len() > 0 {
        if list[0] == x {
        } else {
            let rest = list.skip(1);
            index_in_finds(rest, x);
            if rest.contains(x) {
                let j = choose|j: int| 0 <= j < rest.len() && rest[j] == x;
                assert(list[j + 1] == x);
            }
            if list.contains(x) {
                let i = choose|i: int| 0 <= i < list.len() && list[i] == x;
                assert(rest[i - 1] == x);
            }
        }
    }
}

/// For each entry the place of its parent folder in `ordered`.
pub open spec fn group_numbers(items: Seq<ImageEntry>, ordered: Seq<Seq<char>>) -> Seq<u64> {
    items.map_values(|e: ImageEntry| index_in(ordered, parent_of(e.path@)) as u64)
}

/// Whether `out` holds the entries of `items` folder by folder: sorted by
/// name in natural order, and then sorted stably by the place of each
/// entry's folder in `ordered`. The second sort is by a number, so it holds
/// whatever the names are: the folders stand in the order of `ordered`, and
/// the entries of one folder stand together in the order that the sort by
/// name gave them.
pub open spec fn grouped(
    out: Seq<ImageEntry>,
    items: Seq<ImageEntry>,
    ordered: Seq<Seq<char>>,
) -> bool {
    exists|named: Seq<ImageEntry>|
        #[trigger] stable_sort_of(named, items, by_name(entry_paths(items))) && stable_sort_of(
            out,
            named,
            by_number(group_numbers(named, ordered), false),
        )
}

/// Whether no entry stands before an entry of an earlier folder of
/// `ordered`, so that the entries of each folder stand together.
pub open spec fn folder_by_folder(out: Seq<ImageEntry>, ordered: Seq<Seq<char>>) -> bool {
    forall|a: int, b: int|
        0 <= a < b < out.len() ==> index_in(ordered, parent_of((#[trigger] out[a]).path@))
            <= index_in(ordered, parent_of((#[trigger] out[b]).path@))
}

/// Grouping rearranges the entries and puts them folder by folder, whatever
/// their names are.
pub proof fn grouped_is_folder_by_folder(
    out: Seq<ImageEntry>,
    items: Seq<ImageEntry>,
    ordered: Seq<Seq<char>>,
)
    requires
        grouped(out, items, ordered),
        ordered.len() <= u64::MAX,
    ensures
        permutation_of(out, items),
        folder_by_folder(out, ordered),
{
    let named = choose|named: Seq<ImageEntry>|
        #[trigger] stable_sort_of(named, items, by_name(entry_paths(items))) && stable_sort_of(
            out,
            named,
            by_number(group_numbers(named, ordered), false),
        );
    let keys = group_numbers(named, ordered);
    let rel = by_number(keys, false);
    stable_sort_rearranges(named, items, by_name(entry_paths(items)));
    stable_sort_rearranges(out, named, rel);
    rearrangements_compose(out, named, items);
    by_number_is_total_preorder(keys, false);
    let p = choose|p: Seq<usize>|
        #[trigger] is_permutation(p, named.len()) && out == reordered(named, p) && (
        total_preorder(rel, named.len()) ==> stably_sorted(rel, p));
    assert forall|a: int, b: int| 0 <= a < b < out.len() implies index_in(
        ordered,
        parent_of((#[trigger] out[a]).path@),
    ) <= index_in(ordered, parent_of((#[trigger] out[b]).path@)) by {
        assert(ahead(rel, p[a] as int, p[b] as int));
        assert(0 <= p[a] < named.len() && 0 <= p[b] < named.len());
        index_in_finds(ordered, parent_of(out[a].path@));
        index_in_finds(ordered, parent_of(out[b].path@));
    }
}

/// Grouping rearranges the entries.
pub proof fn grouped_rearranges(
    out: Seq<ImageEntry>,
    items: Seq<ImageEntry>,
    ordered: Seq<Seq<char>>,
)
    requires
        grouped(out, items, ordered),
    ensures
        permutation_of(out, items),
{
    let named = choose|named: Seq<ImageEntry>|
        #[trigger] stable_sort_of(named, items, by_name(entry_paths(items))) && stable_sort_of(
            out,
            named,
            by_number(group_numbers(named, ordered), false),
        );
    stable_sort_rearranges(named, items, by_name(entry_paths(items)));
    stable_sort_rearranges(out, named, by_number(group_numbers(named, ordered), false));
    rearrangements_compose(out, named, items);
}

/// The modification time of a folder, as read from the filesystem.
#[derive(Clone, Debug)]
pub struct FolderTime {
    pub folder: String,
    pub mtime_micros: u64,
}

/// The modification time recorded for a folder: that of the first record
/// that names it, zero where none does.
pub open spec fn folder_time(times: Seq<FolderTime>, folder: Seq<char>) -> u64
    decreases times.len(),
{
    if times.len() == 0 {
        0
    } else if times[0].folder@ == folder {
        times[0].mtime_micros
    } else {
        folder_time(times.skip(1), folder)
    }
}

/// The modification times of a list of folders.
pub open spec fn folder_times(folders: Seq<Seq<char>>, times: Seq<FolderTime>) -> Seq<u64> {
    folders.map_values(|f: Seq<char>| folder_time(times, f))
}

/// Selects the entries that lie directly in `folder`.
pub open spec fn in_folder(folder: Seq<char>) -> spec_fn(ImageEntry) -> bool {
    |e: ImageEntry| parent_of(e.path@) == folder
}

/// The prefix that stands for a folder's images: the stem of the first
/// one's file name without a trailing duplicate index; empty where the
/// folder has no image.
pub open spec fn first_image_prefix(items: Seq<ImageEntry>) -> Seq<char> {
    if items.len() == 0 {
        Seq::empty()
    } else {
        without_index_suffix(file_stem(items[0].path@))
    }
}

/// The prefixes of a list of folders, each taken from the folder's first
/// entry in `arranged`.
pub open spec fn folder_prefixes(arranged: Seq<ImageEntry>, folders: Seq<Seq<char>>) -> Seq<
    Seq<char>,
> {
    folders.map_values(|f: Seq<char>| first_image_prefix(arranged.filter(in_folder(f))))
}

/// What each strategy promises of its result `out` for the entries `items`.
///
/// Shuffling promises a rearrangement and no more. Sorting by date puts
/// the newest first, sorting by name follows the natural order. The three
/// folder strategies keep each folder's entries together, sorted by name,
/// and differ in the order of the folders: any order; ascending by the
/// folder's own modification time; by the natural order of the folders'
/// prefixes, then of their names.
pub open spec fn ordering_of(
    strategy: SortStrategy,
    out: Seq<ImageEntry>,
    items: Seq<ImageEntry>,
    times: Seq<FolderTime>,
) -> bool {
    match strategy {
        SortStrategy::Shuffle => permutation_of(out, items),
        SortStrategy::Date => stable_sort_of(out, items, by_number(entry_mtimes(items), true)),
        SortStrategy::Name => stable_sort_of(out, items, by_name(entry_paths(items))),
        SortStrategy::SubfolderRandom => exists|ordered: Seq<Seq<char>>|
            permutation_of(ordered, folders_of(items)) && #[trigger] grouped(out, items, ordered),
        SortStrategy::SubfolderDate => exists|ordered: Seq<Seq<char>>|
            stable_sort_of(
                ordered,
                folders_of(items),
                by_number(folder_times(folders_of(items), times), false),
            ) && #[trigger] grouped(out, items, ordered),
        SortStrategy::SubfolderPrefix => exists|arranged: Seq<ImageEntry>, ordered: Seq<Seq<char>>|
            #[trigger] grouped(arranged, items, folders_of(items)) && stable_sort_of(
                ordered,
                folders_of(items),
                by_two_names(folder_prefixes(arranged, folders_of(items)), folders_of(items)),
            ) && #[trigger] grouped(out, items, ordered),
    }
}

/// Sorting by date puts no entry before a newer one, whatever the entries.
pub proof fn date_order_is_newest_first(out: Seq<ImageEntry>, items: Seq<ImageEntry>)
    requires
        stable_sort_of(out, items, by_number(entry_mtimes(items), true)),
    ensures
        forall|a: int, b: int|
            0 <= a < b < out.len() ==> (#[trigger] out[a]).mtime_micros >= (
            #[trigger] out[b]).mtime_micros,
{
    let rel = by_number(entry_mtimes(items), true);
    by_number_is_total_preorder(entry_mtimes(items), true);
    let p = choose|p: Seq<usize>|
        #[trigger] is_permutation(p, items.len()) && out == reordered(items, p) && (
        total_preorder(rel, items.len()) ==> stably_sorted(rel, p));
    assert forall|a: int, b: int| 0 <= a < b < out.len() implies (#[trigger] out[a]).mtime_micros
        >= (#[trigger] out[b]).mtime_micros by {
        assert(ahead(rel, p[a] as int, p[b] as int));
        assert(0 <= p[a] < items.len() && 0 <= p[b] < items.len());
    }
}

/// Sorting by name puts no entry before one whose path precedes its own in
/// natural order, provided natural order is a total preorder on the paths
/// of the entries.
pub proof fn name_order_is_natural(out: Seq<ImageEntry>, items: Seq<ImageEntry>)
    requires
        stable_sort_of(out, items, by_name(entry_paths(items))),
    ensures
        total_preorder(by_name(entry_paths(items)), items.len()) ==> forall|a: int, b: int|
            0 <= a < b < out.len() ==> natural_order(
                (#[trigger] out[a]).path@,
                (#[trigger] out[b]).path@,
            ) <= 0,
{
    let rel = by_name(entry_paths(items));
    let p = choose|p: Seq<usize>|
        #[trigger] is_permutation(p, items.len()) && out == reordered(items, p) && (
        total_preorder(rel, items.len()) ==> stably_sorted(rel, p));
    if total_preorder(rel, items.len()) {
        assert forall|a: int, b: int| 0 <= a < b < out.len() implies natural_order(
            (#[trigger] out[a]).path@,
            (#[trigger] out[b]).path@,
        ) <= 0 by {
            assert(ahead(rel, p[a] as int, p[b] as int));
            assert(0 <= p[a] < items.len() && 0 <= p[b] < items.len());
        }
    }
}

/// The entries of `items` in the order that `p` lists their positions.
fn arrange(items: &Vec<ImageEntry>, p: &Vec<usize>) -> (out: Vec<ImageEntry>)
    requires
        forall|k: int| 0 <= k < p.len() ==> #[trigger] p[k] < items.len(),
    ensures
        out@ == reordered(items@, p@),
{
    let mut out: Vec<ImageEntry> = Vec::new();
    let mut k: usize = 0;
    while k < p.len()
        invariant
            k <= p.len(),
            forall|j: int| 0 <= j < p.len() ==> #[trigger] p[j] < items.len(),
            out.len() == k,
            forall|j: int| 0 <= j < k ==> out[j] == items[p[j] as int],
        decreases p.len() - k,
    {
        out.push(items[p[k]].duplicate());
        k += 1;
    }
    assert(out@ =~= reordered(items@, p@));
    out
}

/// The names of `names` in the order that `p` lists their positions.
fn arrange_names(names: &Vec<String>, p: &Vec<usize>) -> (out: Vec<String>)
    requires
        forall|k: int| 0 <= k < p.len() ==> #[trigger] p[k] < names.len(),
    ensures
        views(out@) == reordered(views(names@), p@),
{
    let mut out: Vec<String> = Vec::new();
    let mut k: usize = 0;
    while k < p.len()
        invariant
            k <= p.len(),
            forall|j: int| 0 <= j < p.len() ==> #[trigger] p[j] < names.len(),
            out.len() == k,
            forall|j: int| 0 <= j < k ==> out[j]@ == names[p[j] as int]@,
        decreases p.len() - k,
    {
        out.push(names[p[k]].clone());
        k += 1;
    }
    assert(views(out@) =~= reordered(views(names@), p@));
    out
}

fn mtimes_of(items: &Vec<ImageEntry>) -> (out: Vec<u64>)
    ensures
        out@ == entry_mtimes(items@),
{
    let mut out: Vec<u64> = Vec::new();
    let mut k: usize = 0;
    while k < items.len()
        invariant
            k <= items.len(),
            out.len() == k,
            forall|j: int| 0 <= j < k ==> out[j] == items[j].mtime_micros,
        decreases items.len() - k,
    {
        out.push(items[k].mtime_micros);
        k += 1;
    }
    assert(out@ =~= entry_mtimes(items@));
    out
}

/// The entries sorted by path in natural order, entries whose paths tie
/// staying in their order.
pub fn order_by_name(items: &Vec<ImageEntry>) -> (out: Vec<ImageEntry>)
    ensures
        stable_sort_of(out@, items@, by_name(entry_paths(items@))),
{
    let names = entry_path_list(items);
    let ranking = ByName { names: &names };
    let p = stable_order(&ranking);
    let out = arrange(items, &p);
    proof {
        stable_sort_by_witness(out@, items@, by_name(entry_paths(items@)), p@);
    }
    out
}

/// The entries sorted by modification time, newest first, entries of one
/// time staying in their order.
pub fn order_by_date(items: &Vec<ImageEntry>) -> (out: Vec<ImageEntry>)
    ensures
        stable_sort_of(out@, items@, by_number(entry_mtimes(items@), true)),
{
    let keys = mtimes_of(items);
    let ranking = ByNumber { keys: &keys, descending: true };
    let p = stable_order(&ranking);
    let out = arrange(items, &p);
    proof {
        stable_sort_by_witness(out@, items@, by_number(entry_mtimes(items@), true), p@);
    }
    out
}

/// The positions `0..n` in a random order.
fn shuffled_positions(n: usize) -> (p: Vec<usize>)
    ensures
        is_permutation(p@, n as nat),
{
    let mut p: Vec<usize> = Vec::new();
    let mut k: usize = 0;
    while k < n
        invariant
            k <= n,
            p.len() == k,
            forall|j: int| 0 <= j < k ==> p[j] == j,
        decreases n - k,
    {
        p.push(k);
        k += 1;
    }
    let ghost identity = p@;
    shuffle_items(&mut p);
    proof {
        let q = choose|q: Seq<usize>|
            #[trigger] is_permutation(q, identity.len()) && p@ == reordered(identity, q);
        assert(p@ =~= q);
    }
    p
}

/// The entries in a random order.
pub fn shuffle_images(items: &Vec<ImageEntry>) -> (out: Vec<ImageEntry>)
    ensures
        permutation_of(out@, items@),
{
    let p = shuffled_positions(items.len());
    let out = arrange(items, &p);
    assert(is_permutation(p@, items@.len()) && out@ == reordered(items@, p@));
    out
}

/// The folders that hold the entries, each once, in the order in which the
/// entries first name them.
pub fn playlist_folders(items: &Vec<ImageEntry>) -> (out: Vec<String>)
    ensures
        views(out@) == folders_of(items@),
{
    let ghost all = parents(items@);
    let mut out: Vec<String> = Vec::new();
    let mut i: usize = 0;
    assert(views(out@) =~= first_occurrences(all.take(0)));
    while i < items.len()
        invariant
            i <= items.len(),
            all == parents(items@),
            views(out@) == first_occurrences(all.take(i as int)),
        decreases items.len() - i,
    {
        let folder = parent_folder(items[i].path.as_str());
        proof {
            assert(all.take(i + 1).drop_last() =~= all.take(i as int));
            assert(all.take(i + 1).last() == folder@);
            first_occurrences_are_distinct(all.take(i as int));
        }
        if !contains_text(&out, &folder) {
            let ghost before = views(out@);
            out.push(folder);
            assert(views(out@) =~= before.push(folder@));
        }
        i += 1;
    }
    assert(all.take(items.len() as int) =~= all);
    out
}

/// The first index of `x` in `list`, or the length of `list`.
pub fn position_in(list: &Vec<String>, x: &String) -> (k: usize)
    ensures
        k as int == index_in(views(list@), x@),
        k <= list.len(),
{
    let ghost l = views(list@);
    let mut i: usize = 0;
    assert(l.skip(0) =~= l);
    while i < list.len()
        invariant
            i <= list.len(),
            l == views(list@),
            index_in(l, x@) == i + index_in(l.skip(i as int), x@),
        decreases list.len() - i,
    {
        if same_text(&list[i], x) {
            return i;
        }
        assert(l.skip(i as int).skip(1) =~= l.skip(i + 1));
        i += 1;
    }
    i
}

/// The entries folder by folder: the folders in the order of `ordered`, the
/// entries of one folder together and by name in natural order. Entries of
/// a folder that `ordered` does not name come last.
pub fn arrange_by_folder(items: &Vec<ImageEntry>, ordered: &Vec<String>) -> (out: Vec<ImageEntry>)
    ensures
        grouped(out@, items@, views(ordered@)),
        folder_by_folder(out@, views(ordered@)),
{
    let named = order_by_name(items);
    let mut keys: Vec<u64> = Vec::new();
    let mut k: usize = 0;
    while k < named.len()
        invariant
            k <= named.len(),
            keys.len() == k,
            forall|j: int|
                0 <= j < k ==> #[trigger] keys[j] == index_in(
                    views(ordered@),
                    parent_of(named[j].path@),
                ) as u64,
        decreases named.len() - k,
    {
        let folder = parent_folder(named[k].path.as_str());
        let group = position_in(ordered, &folder);
        keys.push(group as u64);
        k += 1;
    }
    assert(keys@ =~= group_numbers(named@, views(ordered@)));
    let ranking = ByNumber { keys: &keys, descending: false };
    let p = stable_order(&ranking);
    let out = arrange(&named, &p);
    let folders: usize = ordered.len();
    proof {
        let rel = by_number(group_numbers(named@, views(ordered@)), false);
        assert(ranking.relation() == rel);
        stable_sort_by_witness(out@, named@, rel, p@);
        assert(stable_sort_of(named@, items@, by_name(entry_paths(items@))));
        assert(grouped(out@, items@, views(ordered@)));
        assert(views(ordered@).len() == folders);
        grouped_is_folder_by_folder(out@, items@, views(ordered@));
    }
    out
}

fn recorded_time(times: &Vec<FolderTime>, folder: &String) -> (t: u64)
    ensures
        t == folder_time(times@, folder@),
{
    let mut i: usize = 0;
    assert(times@.skip(0) =~= times@);
    while i < times.len()
        invariant
            i <= times.len(),
            folder_time(times@, folder@) == folder_time(times@.skip(i as int), folder@),
        decreases times.len() - i,
    {
        if same_text(&times[i].folder, folder) {
            return times[i].mtime_micros;
        }
        assert(times@.skip(i as int).skip(1) =~= times@.skip(i + 1));
        i += 1;
    }
    0
}

/// The folders sorted by their own modification time, oldest first; a
/// folder without a record counts as never modified.
pub fn order_folders_by_date(folders: &Vec<String>, times: &Vec<FolderTime>) -> (out: Vec<String>)
    ensures
        stable_sort_of(
            views(out@),
            views(folders@),
            by_number(folder_times(views(folders@), times@), false),
        ),
{
    let mut keys: Vec<u64> = Vec::new();
    let mut k: usize = 0;
    while k < folders.len()
        invariant
            k <= folders.len(),
            keys.len() == k,
            forall|j: int| 0 <= j < k ==> keys[j] == folder_time(times@, folders[j]@),
        decreases folders.len() - k,
    {
        keys.push(recorded_time(times, &folders[k]));
        k += 1;
    }
    assert(keys@ =~= folder_times(views(folders@), times@));
    let ranking = ByNumber { keys: &keys, descending: false };
    let p = stable_order(&ranking);
    let out = arrange_names(folders, &p);
    proof {
        let rel = by_number(folder_times(views(folders@), times@), false);
        assert(ranking.relation() == rel);
        stable_sort_by_witness(views(out@), views(folders@), rel, p@);
    }
    out
}

/// The folders in a random order.
pub fn shuffle_folders(folders: &Vec<String>) -> (out: Vec<String>)
    ensures
        permutation_of(views(out@), views(folders@)),
{
    let p = shuffled_positions(folders.len());
    let out = arrange_names(folders, &p);
    assert(is_permutation(p@, views(folders@).len()) && views(out@) == reordered(
        views(folders@),
        p@,
    ));
    out
}

/// The prefix that stands for a folder's images, taken from the first of
/// them.
pub fn folder_first_image_prefix(items: &Vec<ImageEntry>) -> (out: String)
    ensures
        out@ == first_image_prefix(items@),
{
    if items.len() == 0 {
        return String::new();
    }
    let stem = file_stem_from_rel_path(items[0].path.as_str());
    strip_trailing_index_suffix(stem.as_str())
}

/// The entries that lie directly in `folder`, in their order.
pub fn items_in_folder(items: &Vec<ImageEntry>, folder: &String) -> (out: Vec<ImageEntry>)
    ensures
        out@ == items@.filter(in_folder(folder@)),
{
    let ghost pick = in_folder(folder@);
    let mut out: Vec<ImageEntry> = Vec::new();
    let mut i: usize = 0;
    proof {
        reveal(Seq::filter);
        assert(items@.take(0).filter(pick) =~= Seq::<ImageEntry>::empty());
    }
    while i < items.len()
        invariant
            i <= items.len(),
            pick == in_folder(folder@),
            out@ == items@.take(i as int).filter(pick),
        decreases items.len() - i,
    {
        let parent = parent_folder(items[i].path.as_str());
        proof {
            let before = items@.take(i as int);
            assert(items@.take(i + 1) =~= before.push(items@[i as int]));
            before.lemma_filter_push(items@[i as int], pick);
        }
        if same_text(&parent, folder) {
            out.push(items[i].duplicate());
        }
        i += 1;
    }
    assert(items@.take(items.len() as int) =~= items@);
    out
}

/// The folders sorted by the natural order of their prefixes, folders with
/// one prefix by the natural order of their names. The prefix of a folder
/// comes from its first entry in `arranged`.
pub fn order_folders_by_prefix(arranged: &Vec<ImageEntry>, folders: &Vec<String>) -> (out: Vec<
    String,
>)
    ensures
        stable_sort_of(
            views(out@),
            views(folders@),
            by_two_names(folder_prefixes(arranged@, views(folders@)), views(folders@)),
        ),
{
    let mut pairs: Vec<NamePair> = Vec::new();
    let mut k: usize = 0;
    while k < folders.len()
        invariant
            k <= folders.len(),
            pairs.len() == k,
            forall|j: int|
                0 <= j < k ==> (#[trigger] pairs[j]).first@ == first_image_prefix(
                    arranged@.filter(in_folder(folders[j]@)),
                ) && pairs[j].second@ == folders[j]@,
        decreases folders.len() - k,
    {
        let members = items_in_folder(arranged, &folders[k]);
        let prefix = folder_first_image_prefix(&members);
        pairs.push(NamePair { first: prefix, second: folders[k].clone() });
        k += 1;
    }
    assert(firsts_of(pairs@) =~= folder_prefixes(arranged@, views(folders@)));
    assert(seconds_of(pairs@) =~= views(folders@));
    let ranking = ByTwoNames { pairs: &pairs };
    let p = stable_order(&ranking);
    let out = arrange_names(folders, &p);
    proof {
        let rel = by_two_names(folder_prefixes(arranged@, views(folders@)), views(folders@));
        assert(ranking.relation() == rel);
        stable_sort_by_witness(views(out@), views(folders@), rel, p@);
    }
    out
}

/// Orders the entries by the given strategy. The folder modification times
/// are read only by the strategy that sorts folders by date.
pub fn order_images(
    items: &Vec<ImageEntry>,
    strategy: SortStrategy,
    times: &Vec<FolderTime>,
) -> (out: Vec<ImageEntry>)
    ensures
        ordering_of(strategy, out@, items@, times@),
{
    match strategy {
        SortStrategy::Shuffle => shuffle_images(items),
        SortStrategy::Date => order_by_date(items),
        SortStrategy::Name => order_by_name(items),
        SortStrategy::SubfolderRandom => {
            let folders = playlist_folders(items);
            let ordered = shuffle_folders(&folders);
            let out = arrange_by_folder(items, &ordered);
            assert(permutation_of(views(ordered@), folders_of(items@)) && grouped(
                out@,
                items@,
                views(ordered@),
            ));
            out
        },
        SortStrategy::SubfolderDate => {
            let folders = playlist_folders(items);
            let ordered = order_folders_by_date(&folders, times);
            let out = arrange_by_folder(items, &ordered);
            assert(grouped(out@, items@, views(ordered@)));
            out
        },
        SortStrategy::SubfolderPrefix => {
            let folders = playlist_folders(items);
            let arranged = arrange_by_folder(items, &folders);
            let ordered = order_folders_by_prefix(&arranged, &folders);
            let out = arrange_by_folder(items, &ordered);
            assert(grouped(arranged@, items@, folders_of(items@)) && grouped(
                out@,
                items@,
                views(ordered@),
            ));
            out
        },
    }
}

} // verus!
