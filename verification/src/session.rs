//! The session store: the last playlist of each client, held in memory and
//! mirrored to a durable record, and the restoring of a playlist that a
//! client hands back.
use vstd::prelude::*;
use crate::builder::{
    build_playlist, playlist_of, requested_candidates, text_of, PlaylistRequest,
};
use crate::catalog::ImageEntry;
use crate::playlist::{direction_named, strategy_named};
use crate::strategy::{ordering_of, FolderTime};
use crate::paths::{
    is_under_root, normalize_rel_path, normalized, permitted, resolve_full_path, resolved,
};
use crate::text::{owned, same_text, views};

verus! {

/// What `serde_json::to_string` makes of a list of strings: its JSON text,
/// or nothing where serialising fails.
pub uninterp spec fn playlist_json(playlist: Seq<Seq<char>>) -> Option<Seq<char>>;

/// What `serde_json::from_str` reads from a text as a list of strings, or
/// nothing where the text is no JSON array of strings.
pub uninterp spec fn parsed_playlist(json: Seq<char>) -> Option<Seq<Seq<char>>>;

/// Calls `serde_json::to_string` on the list, which depends on the strings
/// alone; the text is named by `playlist_json`, an error becomes `None`.
#[verifier::external_body]
fn encode_playlist(playlist: &Vec<String>) -> (out: Option<String>)
    ensures
        text_of(out) == playlist_json(views(playlist@)),
{
    match serde_json::to_string(playlist) {
        Ok(s) => Some(s),
        Err(_) => None,
    }
}

/// Calls `serde_json::from_str` for a list of strings, which depends on the
/// text alone; the list is named by `parsed_playlist`, an error becomes
/// `None`.
#[verifier::external_body]
fn decode_playlist(json: &str) -> (out: Option<Vec<String>>)
    ensures
        match out {
            Some(v) => parsed_playlist(json@) == Some(views(v@)),
            None => parsed_playlist(json@) is None,
        },
{
    match serde_json::from_str::<Vec<String>>(json) {
        Ok(v) => Some(v),
        Err(_) => None,
    }
}

/// The session of one client in the memory tier.
pub struct SessionRecord {
    pub identity: String,
    pub playlist: Vec<String>,
}

/// The playlist of the first record with the given identity.
pub open spec fn lookup(records: Seq<SessionRecord>, identity: Seq<char>) -> Option<
    Seq<Seq<char>>,
>
    decreases records.len(),
{
    if records.len() == 0 {
        None
    } else if records[0].identity@ == identity {
        Some(views(records[0].playlist@))
    } else {
        lookup(records.skip(1), identity)
    }
}

/// The mapping from identities to playlists that a list of records stands
/// for.
pub open spec fn sessions_of(records: Seq<SessionRecord>) -> Map<Seq<char>, Seq<Seq<char>>> {
    Map::new(
        |id: Seq<char>| lookup(records, id) is Some,
        |id: Seq<char>| lookup(records, id).unwrap(),
    )
}

proof fn lookup_after_replace(
    records: Seq<SessionRecord>,
    i: int,
    rec: SessionRecord,
    id: Seq<char>,
)
    requires
        0 <= i < records.len(),
        records[i].identity@ == rec.identity@,
        forall|k: int| 0 <= k < i ==> records[k].identity@ != rec.identity@,
    ensures
        lookup(records.update(i, rec), id) == (if id == rec.identity@ {
            Some(views(rec.playlist@))
        } else {
            lookup(records, id)
        }),
    decreases records.len(),
{
    let after = records.update(i, rec);
    if i == 0 {
        assert(after.skip(1) =~= records.skip(1));
    } else {
        assert(after[0] == records[0]);
        assert(records[0].identity@ != rec.identity@);
        assert(after.skip(1) =~= records.skip(1).update(i - 1, rec));
        assert forall|k: int| 0 <= k < i - 1 implies records.skip(1)[k].identity@
            != rec.identity@ by {
            assert(records.skip(1)[k] == records[k + 1]);
        }
        lookup_after_replace(records.skip(1), i - 1, rec, id);
    }
}

proof fn lookup_after_push(records: Seq<SessionRecord>, rec: SessionRecord, id: Seq<char>)
    requires
        forall|k: int| 0 <= k < records.len() ==> records[k].identity@ != rec.identity@,
    ensures
        lookup(records.push(rec), id) == (if id == rec.identity@ {
            Some(views(rec.playlist@))
        } else {
            lookup(records, id)
        }),
    decreases records.len(),
{
    let after = records.push(rec);
    if records.len() == 0 {
        assert(after.skip(1) =~= Seq::<SessionRecord>::empty());
        assert(lookup(after.skip(1), id) is None);
        assert(after[0] == rec);
    } else {
        assert(after[0] == records[0]);
        assert(after.skip(1) =~= records.skip(1).push(rec));
        assert forall|k: int| 0 <= k < records.skip(1).len() implies records.skip(1)[k].identity@
            != rec.identity@ by {
            assert(records.skip(1)[k] == records[k + 1]);
        }
        lookup_after_push(records.skip(1), rec, id);
    }
}

fn copy_list(list: &Vec<String>) -> (out: Vec<String>)
    ensures
        views(out@) == views(list@),
{
    let mut out: Vec<String> = Vec::new();
    let mut k: usize = 0;
    while k < list.len()
        invariant
            k <= list.len(),
            out.len() == k,
            forall|j: int| 0 <= j < k ==> out[j]@ == list[j]@,
        decreases list.len() - k,
    {
        out.push(list[k].clone());
        k += 1;
    }
    assert(views(out@) =~= views(list@));
    out
}

/// The memory tier of the session store: one playlist per client identity.
pub struct SessionStore {
    records: Vec<SessionRecord>,
}

impl SessionStore {
    /// The playlists that the store holds, by identity.
    pub closed spec fn view(&self) -> Map<Seq<char>, Seq<Seq<char>>> {
        sessions_of(self.records@)
    }

    /// A store without sessions.
    pub fn new() -> (store: SessionStore)
        ensures
            store@ == Map::<Seq<char>, Seq<Seq<char>>>::empty(),
    {
        let store = SessionStore { records: Vec::new() };
        assert(sessions_of(store.records@) =~= Map::<Seq<char>, Seq<Seq<char>>>::empty());
        store
    }

    fn find(&self, identity: &String) -> (out: Option<usize>)
        ensures
            match out {
                Some(i) => i < self.records.len() && self.records[i as int].identity@ == identity@
                    && (forall|k: int| 0 <= k < i ==> self.records[k].identity@ != identity@)
                    && lookup(self.records@, identity@) == Some(
                    views(self.records[i as int].playlist@),
                ),
                None => (forall|k: int|
                    0 <= k < self.records.len() ==> self.records[k].identity@ != identity@)
                    && lookup(self.records@, identity@) is None,
            },
    {
        let mut i: usize = 0;
        assert(self.records@.skip(0) =~= self.records@);
        while i < self.records.len()
            invariant
                i <= self.records.len(),
                forall|k: int| 0 <= k < i ==> self.records[k].identity@ != identity@,
                lookup(self.records@, identity@) == lookup(
                    self.records@.skip(i as int),
                    identity@,
                ),
            decreases self.records.len() - i,
        {
            if same_text(&self.records[i].identity, identity) {
                return Some(i);
            }
            assert(self.records@.skip(i as int).skip(1) =~= self.records@.skip(i + 1));
            i += 1;
        }
        None
    }

    /// The playlist of a client, if the memory tier holds one.
    pub fn get(&self, identity: &str) -> (out: Option<Vec<String>>)
        ensures
            match out {
                Some(p) => self@.contains_key(identity@) && self@[identity@] == views(p@),
                None => !self@.contains_key(identity@),
            },
    {
        let id = owned(identity);
        match self.find(&id) {
            Some(i) => Some(copy_list(&self.records[i].playlist)),
            None => None,
        }
    }

    /// Stores the playlist of a client, replacing an earlier one.
    pub fn put(&mut self, identity: &str, playlist: Vec<String>)
        ensures
            final(self)@ == old(self)@.insert(identity@, views(playlist@)),
    {
        let id = owned(identity);
        let found = self.find(&id);
        let rec = SessionRecord { identity: id, playlist };
        let ghost before = self.records@;
        match found {
            Some(i) => {
                self.records.set(i, rec);
                assert forall|other: Seq<char>| #[trigger]
                    lookup(self.records@, other) == (if other == identity@ {
                        Some(views(playlist@))
                    } else {
                        lookup(before, other)
                    }) by {
                    lookup_after_replace(before, i as int, rec, other);
                }
            },
            None => {
                self.records.push(rec);
                assert forall|other: Seq<char>| #[trigger]
                    lookup(self.records@, other) == (if other == identity@ {
                        Some(views(playlist@))
                    } else {
                        lookup(before, other)
                    }) by {
                    lookup_after_push(before, rec, other);
                }
            },
        }
        assert(sessions_of(self.records@) =~= sessions_of(before).insert(
            identity@,
            views(playlist@),
        ));
    }
}

/// The tier that answered a read.
#[derive(Clone, Copy, PartialEq, Eq, Structural, Debug)]
pub enum SessionSource {
    Memory,
    Database,
}

/// The name under which a tier is reported.
pub fn source_label(source: SessionSource) -> (out: String)
    ensures
        out@ == (match source {
            SessionSource::Memory => "memory"@,
            SessionSource::Database => "database"@,
        }),
{
    match source {
        SessionSource::Memory => owned("memory"),
        SessionSource::Database => owned("database"),
    }
}

/// What a read of the session store reports.
#[derive(Debug)]
pub struct SessionView {
    pub has_session: bool,
    pub source: Option<SessionSource>,
    pub playlist_size: usize,
    pub playlist: Vec<String>,
}

/// What a read reports for the contents of the two tiers: the memory tier
/// where it holds a session, else the durable tier, else nothing.
pub open spec fn session_read(
    memory: Option<Seq<Seq<char>>>,
    durable: Option<Seq<Seq<char>>>,
) -> (Option<SessionSource>, Seq<Seq<char>>) {
    match memory {
        Some(p) => (Some(SessionSource::Memory), p),
        None => match durable {
            Some(p) => (Some(SessionSource::Database), p),
            None => (None, Seq::empty()),
        },
    }
}

/// The views of an optional list of strings.
pub open spec fn list_of(list: Option<Vec<String>>) -> Option<Seq<Seq<char>>> {
    match list {
        Some(v) => Some(views(v@)),
        None => None,
    }
}

/// Whether a report states the given source and playlist.
pub open spec fn reports(view: SessionView, read: (Option<SessionSource>, Seq<Seq<char>>)) -> bool {
    &&& view.source == read.0
    &&& view.has_session == (read.0 is Some)
    &&& views(view.playlist@) == read.1
    &&& view.playlist_size == read.1.len()
}

/// Reports a session from what the two tiers returned, the memory tier
/// first.
pub fn read_session(memory: Option<Vec<String>>, durable: Option<Vec<String>>) -> (out:
    SessionView)
    ensures
        reports(out, session_read(list_of(memory), list_of(durable))),
{
    match memory {
        Some(playlist) => {
            assert(views(playlist@).len() == playlist@.len());
            SessionView {
                has_session: true,
                source: Some(SessionSource::Memory),
                playlist_size: playlist.len(),
                playlist,
            }
        },
        None => match durable {
            Some(playlist) => {
                assert(views(playlist@).len() == playlist@.len());
                SessionView {
                    has_session: true,
                    source: Some(SessionSource::Database),
                    playlist_size: playlist.len(),
                    playlist,
                }
            },
            None => {
                let playlist: Vec<String> = Vec::new();
                assert(views(playlist@) =~= Seq::<Seq<char>>::empty());
                SessionView { has_session: false, source: None, playlist_size: 0, playlist }
            },
        },
    }
}

/// What the durable tier holds for a client, as far as it can be read: the
/// list that its record parses to.
pub open spec fn durable_list(record: Option<Seq<char>>) -> Option<Seq<Seq<char>>> {
    match record {
        Some(json) => parsed_playlist(json),
        None => None,
    }
}

/// Reads the session of a client: from the memory tier where it holds one,
/// else from the durable record, if there is one and it parses.
pub fn lookup_session(store: &SessionStore, identity: &str, durable_record: Option<String>) -> (out:
    SessionView)
    ensures
        reports(
            out,
            session_read(
                if store@.contains_key(identity@) {
                    Some(store@[identity@])
                } else {
                    None
                },
                durable_list(text_of(durable_record)),
            ),
        ),
{
    let memory = store.get(identity);
    let durable = match memory {
        Some(_) => None,
        None => match durable_record {
            Some(json) => decode_playlist(json.as_str()),
            None => None,
        },
    };
    read_session(memory, durable)
}

/// Writes the playlist of a client to the memory tier and returns the text
/// for the durable tier. The memory tier is written whether or not the text
/// could be made.
pub fn record_session(store: &mut SessionStore, identity: &str, playlist: &Vec<String>) -> (out:
    Option<String>)
    ensures
        final(store)@ == old(store)@.insert(identity@, views(playlist@)),
        text_of(out) == playlist_json(views(playlist@)),
{
    let json = encode_playlist(playlist);
    store.put(identity, copy_list(playlist));
    json
}

/// A playlist as it goes out to a client.
#[derive(Debug)]
pub struct ServedPlaylist {
    /// The ordered paths.
    pub playlist: Vec<String>,
    /// The text for the durable tier, where it could be made.
    pub durable_record: Option<String>,
}

/// Builds the playlist of a request and makes it the session of the client
/// that asked.
pub fn serve_playlist(
    store: &mut SessionStore,
    identity: &str,
    root_dir: &str,
    allow_parent: bool,
    request: &PlaylistRequest,
    rows: &Vec<ImageEntry>,
    times: &Vec<FolderTime>,
) -> (out: ServedPlaylist)
    ensures
        exists|ordered: Seq<ImageEntry>|
            #[trigger] ordering_of(
                strategy_named(request.sort@),
                ordered,
                requested_candidates(root_dir@, allow_parent, *request, rows@),
                times@,
            ) && views(out.playlist@) == playlist_of(
                ordered,
                direction_named(request.direction@),
                text_of(request.current_path),
            ),
        final(store)@ == old(store)@.insert(identity@, views(out.playlist@)),
        text_of(out.durable_record) == playlist_json(views(out.playlist@)),
{
    let playlist = build_playlist(root_dir, allow_parent, request, rows, times);
    let durable_record = record_session(store, identity, &playlist);
    ServedPlaylist { playlist, durable_record }
}

/// One path of a playlist that a client wants restored, passed through the
/// security boundary.
#[derive(Clone, Debug)]
pub struct RestoreCandidate {
    /// The normalised relative path.
    pub rel: String,
    /// The cleaned absolute path, whose existence is to be checked.
    pub full: String,
    /// Whether the boundary admits the path.
    pub permitted: bool,
}

/// Whether `c` is what the boundary makes of the requested path.
pub open spec fn candidate_for(
    c: RestoreCandidate,
    root: Seq<char>,
    requested: Seq<char>,
    allow_parent: bool,
) -> bool {
    &&& c.rel@ == normalized(requested)
    &&& c.full@ == resolved(root, c.rel@)
    &&& c.permitted == permitted(root, c.full@, allow_parent)
}

/// Passes every path of a playlist through the security boundary.
pub fn restore_candidates(root_dir: &str, allow_parent: bool, playlist: &Vec<String>) -> (out: Vec<
    RestoreCandidate,
>)
    ensures
        out.len() == playlist.len(),
        forall|i: int|
            0 <= i < out.len() ==> candidate_for(
                #[trigger] out[i],
                root_dir@,
                playlist[i]@,
                allow_parent,
            ),
{
    let mut out: Vec<RestoreCandidate> = Vec::new();
    let mut i: usize = 0;
    while i < playlist.len()
        invariant
            i <= playlist.len(),
            out.len() == i,
            forall|k: int|
                0 <= k < i ==> candidate_for(
                    #[trigger] out[k],
                    root_dir@,
                    playlist[k]@,
                    allow_parent,
                ),
        decreases playlist.len() - i,
    {
        let rel = normalize_rel_path(playlist[i].as_str());
        let full = resolve_full_path(root_dir, rel.as_str());
        let permitted = allow_parent || is_under_root(root_dir, full.as_str());
        out.push(RestoreCandidate { rel, full, permitted });
        i += 1;
    }
    out
}

/// Why a playlist could not be restored.
#[derive(Clone, Copy, PartialEq, Eq, Structural, Debug)]
pub enum RestoreError {
    /// The client handed over an empty playlist.
    EmptyPlaylist,
    /// No path of the playlist is both admitted and still a file.
    NoValidPaths,
}

/// The text that tells a client why restoring failed.
pub fn restore_error_detail(error: RestoreError) -> (out: String)
    ensures
        out@ == (match error {
            RestoreError::EmptyPlaylist => "Playlist cannot be empty"@,
            RestoreError::NoValidPaths => "No valid paths in playlist"@,
        }),
{
    match error {
        RestoreError::EmptyPlaylist => owned("Playlist cannot be empty"),
        RestoreError::NoValidPaths => owned("No valid paths in playlist"),
    }
}

/// A restored session.
#[derive(Debug)]
pub struct Restored {
    /// The paths that survived, in their order.
    pub playlist: Vec<String>,
    /// How many paths survived.
    pub valid_count: usize,
    /// How many paths the client handed over.
    pub original_count: usize,
    /// The index at which playing resumes.
    pub current_index: usize,
    /// The text for the durable tier, where it could be made.
    pub durable_record: Option<String>,
}

/// The paths of a playlist that survive restoring: those that the boundary
/// admits and whose file is alive. A candidate without a liveness answer
/// counts as gone.
pub open spec fn survivors(candidates: Seq<RestoreCandidate>, alive: Seq<bool>) -> Seq<Seq<char>>
    decreases candidates.len(),
{
    if candidates.len() == 0 {
        Seq::empty()
    } else {
        let head = survivors(candidates.drop_last(), alive);
        let i = candidates.len() - 1;
        if candidates[i].permitted && i < alive.len() && alive[i] {
            head.push(candidates[i].rel@)
        } else {
            head
        }
    }
}

/// The index clamped into the playlist.
pub open spec fn clamped(index: usize, len: nat) -> int {
    if index < len {
        index as int
    } else if len == 0 {
        0
    } else {
        len - 1
    }
}

/// The paths that survive restoring.
pub fn surviving_paths(candidates: &Vec<RestoreCandidate>, alive: &Vec<bool>) -> (out: Vec<String>)
    ensures
        views(out@) == survivors(candidates@, alive@),
{
    let mut out: Vec<String> = Vec::new();
    let mut i: usize = 0;
    assert(views(out@) =~= survivors(candidates@.take(0), alive@));
    while i < candidates.len()
        invariant
            i <= candidates.len(),
            views(out@) == survivors(candidates@.take(i as int), alive@),
        decreases candidates.len() - i,
    {
        assert(candidates@.take(i + 1).drop_last() =~= candidates@.take(i as int));
        if candidates[i].permitted && i < alive.len() && alive[i] {
            let ghost before = views(out@);
            out.push(candidates[i].rel.clone());
            assert(views(out@) =~= before.push(candidates[i as int].rel@));
        }
        i += 1;
    }
    assert(candidates@.take(candidates.len() as int) =~= candidates@);
    out
}

/// Restores the session of a client from the playlist it hands back. The
/// candidates are the paths after the security boundary, `alive` says for
/// each whether its file still exists. The surviving paths become the
/// client's session in the memory tier. Fails, and leaves the store as it
/// is, where the playlist is empty or no path survives.
pub fn restore_session(
    store: &mut SessionStore,
    identity: &str,
    candidates: &Vec<RestoreCandidate>,
    alive: &Vec<bool>,
    current_index: usize,
) -> (out: Result<Restored, RestoreError>)
    ensures
        match out {
            Ok(r) => {
                &&& candidates.len() > 0
                &&& views(r.playlist@) == survivors(candidates@, alive@)
                &&& r.playlist.len() > 0
                &&& r.valid_count == r.playlist.len()
                &&& r.original_count == candidates.len()
                &&& r.current_index == clamped(current_index, r.playlist.len() as nat)
                &&& text_of(r.durable_record) == playlist_json(views(r.playlist@))
                &&& final(store)@ == old(store)@.insert(identity@, views(r.playlist@))
            },
            Err(RestoreError::EmptyPlaylist) => candidates.len() == 0 && final(store)@ == old(
                store,
            )@,
            Err(RestoreError::NoValidPaths) => candidates.len() > 0 && survivors(
                candidates@,
                alive@,
            ).len() == 0 && final(store)@ == old(store)@,
        },
{
    if candidates.len() == 0 {
        return Err(RestoreError::EmptyPlaylist);
    }
    let playlist = surviving_paths(candidates, alive);
    assert(views(playlist@).len() == playlist@.len());
    if playlist.len() == 0 {
        return Err(RestoreError::NoValidPaths);
    }
    let durable_record = record_session(store, identity, &playlist);
    let last = playlist.len() - 1;
    let index = if current_index < last {
        current_index
    } else {
        last
    };
    Ok(
        Restored {
            valid_count: playlist.len(),
            original_count: candidates.len(),
            current_index: index,
            durable_record,
            playlist,
        },
    )
}

} // verus!
