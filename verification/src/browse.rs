//! The folder browser: one level of a directory, as the filesystem shows it
//! now, with folders before files and names in natural order.
use vstd::prelude::*;
use crate::catalog::{is_root, is_root_scope};
use crate::names::{image_path, is_image_ext};
use crate::natural::{by_name, by_number, by_number_is_total_preorder, ByName, ByNumber};
use crate::order::{
    ahead, is_permutation, permutation_of, rearrangements_compose, reordered, stable_order,
    stable_sort_by_witness, stable_sort_of, stable_sort_rearranges, stably_sorted,
    total_preorder, Ranking,
};
use crate::paths::{
    is_under_root, join_paths, joined, normalize_rel_path, normalized, path_to_rel_string,
    rel_string, resolve_full_path, resolved, under_root,
};
use crate::text::{chars_of, owned};

verus! {

/// The folder that a browse request shows.
#[derive(Clone, Debug)]
pub struct BrowseTarget {
    /// The absolute path of the folder to read.
    pub full: String,
    /// The folder's root-relative path, empty for the root itself.
    pub rel: String,
}

/// The absolute path that a requested folder stands for, before the policy
/// is asked.
pub open spec fn wanted_folder(root: Seq<char>, requested: Seq<char>) -> Seq<char> {
    if is_root_scope(normalized(requested)) {
        root
    } else {
        resolved(root, normalized(requested))
    }
}

/// Whether a browse request falls back to the root: the policy forbids
/// leaving the root and the wanted folder lies outside it.
pub open spec fn falls_back(root: Seq<char>, requested: Seq<char>, allow_parent: bool) -> bool {
    !allow_parent && !under_root(root, wanted_folder(root, requested))
}

/// The absolute path of the folder that a browse request shows.
pub open spec fn browse_full(root: Seq<char>, requested: Seq<char>, allow_parent: bool) -> Seq<
    char,
> {
    if falls_back(root, requested, allow_parent) {
        root
    } else {
        wanted_folder(root, requested)
    }
}

/// The root-relative path of the folder that a browse request shows.
pub open spec fn browse_rel(root: Seq<char>, requested: Seq<char>, allow_parent: bool) -> Seq<
    char,
> {
    if falls_back(root, requested, allow_parent) {
        Seq::empty()
    } else {
        let rel = rel_string(root, wanted_folder(root, requested));
        if rel == seq!['.'] {
            Seq::empty()
        } else {
            rel
        }
    }
}

/// Resolves the folder of a browse request. A folder that the policy
/// refuses is not an error: the root is shown in its place.
pub fn browse_target(root_dir: &str, requested: &str, allow_parent: bool) -> (out: BrowseTarget)
    ensures
        out.full@ == browse_full(root_dir@, requested@, allow_parent),
        out.rel@ == browse_rel(root_dir@, requested@, allow_parent),
{
    let rel = normalize_rel_path(requested);
    let wanted = if is_root(rel.as_str()) {
        owned(root_dir)
    } else {
        resolve_full_path(root_dir, rel.as_str())
    };
    if !allow_parent && !is_under_root(root_dir, wanted.as_str()) {
        BrowseTarget { full: owned(root_dir), rel: String::new() }
    } else {
        let shown = path_to_rel_string(root_dir, wanted.as_str());
        let shown_chars = chars_of(shown.as_str());
        if shown_chars.len() == 1 && shown_chars[0] == '.' {
            assert(shown@ =~= seq!['.']);
            BrowseTarget { full: wanted, rel: String::new() }
        } else {
            assert(shown@ != seq!['.']) by {
                if shown@ == seq!['.'] {
                    assert(seq!['.'].len() == 1);
                    assert(seq!['.'][0] == '.');
                }
            }
            BrowseTarget { full: wanted, rel: shown }
        }
    }
}

/// One entry of a directory, as read from the filesystem.
#[derive(Clone, Debug)]
pub struct DirEntryInfo {
    pub name: String,
    pub is_dir: bool,
}

/// One line of a folder listing.
#[derive(Clone, Debug)]
pub struct BrowseItem {
    pub name: String,
    /// The entry's root-relative path.
    pub path: String,
    pub is_folder: bool,
}

/// The kind of a line of the listing, as the client is told.
pub fn item_type(item: &BrowseItem) -> (out: String)
    ensures
        out@ == (if item.is_folder {
            "folder"@
        } else {
            "file"@
        }),
{
    if item.is_folder {
        owned("folder")
    } else {
        owned("file")
    }
}

/// Selects the entries that a listing shows: no name that begins with a
/// dot; every folder; of the files those with an image extension.
pub open spec fn listed() -> spec_fn(DirEntryInfo) -> bool {
    |e: DirEntryInfo| !(e.name@.len() > 0 && e.name@[0] == '.') && (e.is_dir || image_path(e.name@))
}

/// The rank of each entry: nought for a folder, one for a file.
pub open spec fn kind_ranks(entries: Seq<DirEntryInfo>) -> Seq<u64> {
    entries.map_values(
        |e: DirEntryInfo|
            if e.is_dir {
                0u64
            } else {
                1u64
            },
    )
}

/// The names of the entries.
pub open spec fn entry_names(entries: Seq<DirEntryInfo>) -> Seq<Seq<char>> {
    entries.map_values(|e: DirEntryInfo| e.name@)
}

/// Whether `out` is the listing of `entries`: sorted by name in natural
/// order, and then sorted stably by kind. The second sort is by a number, so
/// it holds whatever the names are: folders stand before files, and the
/// entries of one kind stand in the order that the sort by name gave them.
pub open spec fn listing_of(out: Seq<DirEntryInfo>, entries: Seq<DirEntryInfo>) -> bool {
    exists|named: Seq<DirEntryInfo>|
        #[trigger] stable_sort_of(named, entries, by_name(entry_names(entries)))
            && stable_sort_of(out, named, by_number(kind_ranks(named), false))
}

/// Whether no file stands before a folder.
pub open spec fn folders_first(out: Seq<DirEntryInfo>) -> bool {
    forall|a: int, b: int|
        0 <= a < b < out.len() ==> (#[trigger] out[a]).is_dir || !(#[trigger] out[b]).is_dir
}

/// A listing rearranges the entries and puts folders before files, whatever
/// the names are.
pub proof fn listing_puts_folders_first(out: Seq<DirEntryInfo>, entries: Seq<DirEntryInfo>)
    requires
        listing_of(out, entries),
    ensures
        permutation_of(out, entries),
        folders_first(out),
{
    let named = choose|named: Seq<DirEntryInfo>|
        #[trigger] stable_sort_of(named, entries, by_name(entry_names(entries)))
            && stable_sort_of(out, named, by_number(kind_ranks(named), false));
    let keys = kind_ranks(named);
    let rel = by_number(keys, false);
    stable_sort_rearranges(named, entries, by_name(entry_names(entries)));
    stable_sort_rearranges(out, named, rel);
    rearrangements_compose(out, named, entries);
    by_number_is_total_preorder(keys, false);
    let p = choose|p: Seq<usize>|
        #[trigger] is_permutation(p, named.len()) && out == reordered(named, p) && (
        total_preorder(rel, named.len()) ==> stably_sorted(rel, p));
    assert forall|a: int, b: int| 0 <= a < b < out.len() implies (#[trigger] out[a]).is_dir || !(
    #[trigger] out[b]).is_dir by {
        assert(ahead(rel, p[a] as int, p[b] as int));
        assert(0 <= p[a] < named.len() && 0 <= p[b] < named.len());
    }
}

/// Whether `item` is the line of the listing for the entry `e` of the folder
/// at `folder`.
pub open spec fn line_for(
    item: BrowseItem,
    root: Seq<char>,
    folder: Seq<char>,
    e: DirEntryInfo,
) -> bool {
    &&& item.name@ == e.name@
    &&& item.is_folder == e.is_dir
    &&& item.path@ == rel_string(root, joined(folder, e.name@))
}

/// Whether `items` are the lines for `entries`, one for one.
pub open spec fn lines_for(
    items: Seq<BrowseItem>,
    root: Seq<char>,
    folder: Seq<char>,
    entries: Seq<DirEntryInfo>,
) -> bool {
    items.len() == entries.len() && forall|i: int|
        0 <= i < items.len() ==> line_for(#[trigger] items[i], root, folder, entries[i])
}

fn copy_entry(e: &DirEntryInfo) -> (out: DirEntryInfo)
    ensures
        out == *e,
{
    DirEntryInfo { name: e.name.clone(), is_dir: e.is_dir }
}

/// The entries that a listing shows, in the order in which they were read.
pub fn visible_entries(entries: &Vec<DirEntryInfo>) -> (out: Vec<DirEntryInfo>)
    ensures
        out@ == entries@.filter(listed()),
{
    let ghost pick = listed();
    let mut out: Vec<DirEntryInfo> = Vec::new();
    let mut i: usize = 0;
    proof {
        reveal(Seq::filter);
        assert(entries@.take(0).filter(pick) =~= Seq::<DirEntryInfo>::empty());
    }
    while i < entries.len()
        invariant
            i <= entries.len(),
            pick == listed(),
            out@ == entries@.take(i as int).filter(pick),
        decreases entries.len() - i,
    {
        let e = &entries[i];
        let name = chars_of(e.name.as_str());
        let hidden = name.len() > 0 && name[0] == '.';
        let shown = !hidden && (e.is_dir || is_image_ext(e.name.as_str()));
        proof {
            let before = entries@.take(i as int);
            assert(entries@.take(i + 1) =~= before.push(entries@[i as int]));
            before.lemma_filter_push(entries@[i as int], pick);
            assert(shown == pick(entries@[i as int]));
        }
        if shown {
            out.push(copy_entry(e));
        }
        i += 1;
    }
    assert(entries@.take(entries.len() as int) =~= entries@);
    out
}

/// The entries of `entries` in the order that `p` lists their positions.
fn arrange_entries(entries: &Vec<DirEntryInfo>, p: &Vec<usize>) -> (out: Vec<DirEntryInfo>)
    requires
        forall|k: int| 0 <= k < p.len() ==> #[trigger] p[k] < entries.len(),
    ensures
        out@ == reordered(entries@, p@),
{
    let mut out: Vec<DirEntryInfo> = Vec::new();
    let mut k: usize = 0;
    while k < p.len()
        invariant
            k <= p.len(),
            forall|j: int| 0 <= j < p.len() ==> #[trigger] p[j] < entries.len(),
            out.len() == k,
            forall|j: int| 0 <= j < k ==> out[j] == entries[p[j] as int],
        decreases p.len() - k,
    {
        out.push(copy_entry(&entries[p[k]]));
        k += 1;
    }
    assert(out@ =~= reordered(entries@, p@));
    out
}

/// The entries with folders first, and inside each kind by name in natural
/// order.
pub fn sort_entries(entries: &Vec<DirEntryInfo>) -> (out: Vec<DirEntryInfo>)
    ensures
        listing_of(out@, entries@),
        folders_first(out@),
{
    let mut names: Vec<String> = Vec::new();
    let mut k: usize = 0;
    while k < entries.len()
        invariant
            k <= entries.len(),
            names.len() == k,
            forall|j: int| 0 <= j < k ==> names[j]@ == entries[j].name@,
        decreases entries.len() - k,
    {
        names.push(entries[k].name.clone());
        k += 1;
    }
    assert(crate::text::views(names@) =~= entry_names(entries@));
    let by_names = ByName { names: &names };
    let first = stable_order(&by_names);
    let named = arrange_entries(entries, &first);
    let mut keys: Vec<u64> = Vec::new();
    let mut m: usize = 0;
    while m < named.len()
        invariant
            m <= named.len(),
            keys.len() == m,
            forall|j: int| 0 <= j < m ==> keys[j] == kind_ranks(named@)[j],
        decreases named.len() - m,
    {
        keys.push(if named[m].is_dir { 0 } else { 1 });
        m += 1;
    }
    assert(keys@ =~= kind_ranks(named@));
    let by_kind = ByNumber { keys: &keys, descending: false };
    let second = stable_order(&by_kind);
    let out = arrange_entries(&named, &second);
    proof {
        stable_sort_by_witness(named@, entries@, by_name(entry_names(entries@)), first@);
        stable_sort_by_witness(out@, named@, by_number(kind_ranks(named@), false), second@);
        assert(listing_of(out@, entries@));
        listing_puts_folders_first(out@, entries@);
    }
    out
}

/// The lines of a listing for the given entries of the folder at
/// `folder_full`.
pub fn browse_items(root_dir: &str, folder_full: &str, entries: &Vec<DirEntryInfo>) -> (out: Vec<
    BrowseItem,
>)
    ensures
        lines_for(out@, root_dir@, folder_full@, entries@),
{
    let mut out: Vec<BrowseItem> = Vec::new();
    let mut i: usize = 0;
    while i < entries.len()
        invariant
            i <= entries.len(),
            out.len() == i,
            forall|k: int|
                0 <= k < i ==> line_for(#[trigger] out[k], root_dir@, folder_full@, entries[k]),
        decreases entries.len() - i,
    {
        let e = &entries[i];
        let full = join_paths(folder_full, e.name.as_str());
        let path = path_to_rel_string(root_dir, full.as_str());
        out.push(BrowseItem { name: e.name.clone(), path, is_folder: e.is_dir });
        i += 1;
    }
    out
}

/// Lists one folder from the entries that the filesystem returned for it:
/// hidden entries and files that are no images are left out, the rest is
/// sorted, folders first, and each entry gets its root-relative path.
pub fn list_folder(root_dir: &str, folder_full: &str, entries: &Vec<DirEntryInfo>) -> (out: Vec<
    BrowseItem,
>)
    ensures
        exists|sorted: Seq<DirEntryInfo>| #[trigger]
            listing_of(sorted, entries@.filter(listed())) && lines_for(
                out@,
                root_dir@,
                folder_full@,
                sorted,
            ),
        forall|a: int, b: int|
            0 <= a < b < out.len() ==> (#[trigger] out[a]).is_folder || !(
            #[trigger] out[b]).is_folder,
{
    let visible = visible_entries(entries);
    let sorted = sort_entries(&visible);
    let out = browse_items(root_dir, folder_full, &sorted);
    assert(listing_of(sorted@, entries@.filter(listed())));
    assert forall|a: int, b: int| 0 <= a < b < out.len() implies (#[trigger] out[a]).is_folder
        || !(#[trigger] out[b]).is_folder by {
        assert(line_for(out[a], root_dir@, folder_full@, sorted[a]));
        assert(line_for(out[b], root_dir@, folder_full@, sorted[b]));
        assert(sorted[a].is_dir || !sorted[b].is_dir);
    }
    out
}

} // verus!
