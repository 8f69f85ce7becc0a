//! What a music library already holds of one artist.
//!
//! The library is read from a listing of the music directory that the
//! caller has made: the entries of the directory, of the artist's
//! directories in it and of the album directories in those.
use vstd::prelude::*;
use crate::media::MediaType;
use crate::normalize::{
    normalize_music_name, normalize_name, normalized_music_name, normalized_name, track_extension,
};
use crate::text::{ends_with, has_suffix, lowercase, lowercased, names};

verus! {

/// One entry of a directory.
#[derive(Debug)]
pub struct Entry {
    /// The entry's name; `None` where the name is not valid Unicode.
    pub name: Option<String>,
    /// What the entry is.
    pub node: Node,
}

/// What a path leads to.
#[derive(Debug)]
pub enum Node {
    /// A regular file.
    File,
    /// A directory with its entries, or with `None` where they could not be
    /// read.
    Directory(Option<Vec<Entry>>),
    /// Anything else.
    Other,
}

/// A directory on the way could not be listed.
#[derive(Debug)]
pub struct ScanError {
    /// The way to that directory from the one that the scan was started on:
    /// for each step down, the index of the entry that was entered. Empty
    /// where the directory that the scan was started on is the one.
    pub path: Vec<usize>,
}

/// The albums and tracks of one artist that the library holds: two sets of
/// titles, each kept as a list. A scan puts a title into its list once.
#[derive(Debug)]
pub struct Exist {
    /// The names of the albums, in lower case.
    pub albums: Vec<String>,
    /// The normalized names of the tracks.
    pub musics: Vec<String>,
}

impl Node {
    /// The entries, where this is a directory that could be read.
    pub open spec fn listing(self) -> Option<Seq<Entry>> {
        match self {
            Node::Directory(Some(entries)) => Some(entries@),
            _ => None,
        }
    }
}

impl Entry {
    /// The entry is a file whose name ends as a track's does.
    pub open spec fn is_track(self) -> bool {
        self.node is File && self.name is Some && has_suffix(self.name->0@, track_extension())
    }

    /// The entry is a directory with a name: an album, where it stands in an
    /// artist's directory.
    pub open spec fn is_album(self) -> bool {
        self.node is Directory && self.name is Some
    }

    /// The entry is an album whose directory could not be read.
    pub open spec fn is_unreadable_album(self) -> bool {
        self.is_album() && self.node.listing() is None
    }

    /// The entry is a directory whose normalized name is that of
    /// `target_name`: a directory of the artist, where it stands in the
    /// music directory.
    pub open spec fn is_artist_directory(self, target_name: Seq<char>) -> bool {
        self.node is Directory && self.name is Some && normalized_name(self.name->0@)
            == normalized_name(target_name)
    }

    /// The entry is a directory of the artist that cannot be scanned.
    pub open spec fn is_unreadable_artist(self, target_name: Seq<char>) -> bool {
        self.is_artist_directory(target_name) && !is_scannable(self.node)
    }
}

/// `index` is the first place in `entries` at which `p` holds.
pub open spec fn is_first(entries: Seq<Entry>, p: spec_fn(Entry) -> bool, index: int) -> bool {
    &&& 0 <= index < entries.len()
    &&& p(entries[index])
    &&& forall|k: int| 0 <= k < index ==> !p(#[trigger] entries[k])
}

/// The names of the albums among `entries`, in lower case and in their
/// order.
pub open spec fn album_names(entries: Seq<Entry>) -> Seq<Seq<char>> {
    entries.filter(|e: Entry| e.is_album()).map_values(|e: Entry| lowercased(e.name->0@))
}

/// The normalized names of the tracks in the albums among `entries`, album
/// after album.
pub open spec fn artist_tracks(entries: Seq<Entry>, artist_name: Seq<char>) -> Seq<Seq<char>> {
    entries.filter(|e: Entry| e.is_album()).map_values(
        |e: Entry| track_names(e.node.listing()->0, artist_name),
    ).flatten()
}

/// An artist's directory can be scanned: it could be read, and so could
/// each album in it.
pub open spec fn is_scannable(artist_dir: Node) -> bool {
    &&& artist_dir.listing() is Some
    &&& forall|j: int|
        0 <= j < artist_dir.listing()->0.len() ==> !(
        #[trigger] artist_dir.listing()->0[j]).is_unreadable_album()
}

/// `path` leads from an artist's directory to what stops its scan: the
/// directory itself, or else the first album in it that could not be read.
pub open spec fn artist_failure(artist_dir: Node, path: Seq<usize>) -> bool {
    match artist_dir.listing() {
        None => path.len() == 0,
        Some(entries) => path.len() == 1 && is_first(
            entries,
            |e: Entry| e.is_unreadable_album(),
            path[0] as int,
        ),
    }
}

/// The directories of the artist among the entries of the music directory,
/// in their order.
pub open spec fn artist_directories(root: Seq<Entry>, target_name: Seq<char>) -> Seq<Entry> {
    root.filter(|e: Entry| e.is_artist_directory(target_name))
}

/// `found` lists the places of the artist's directories in `root`: each of
/// them once, in rising order, and nothing else.
pub open spec fn finds(found: Seq<usize>, root: Seq<Entry>, target_name: Seq<char>) -> bool {
    &&& forall|k: int|
        0 <= k < found.len() ==> (#[trigger] found[k]) < root.len() && root[found[k] as int].is_artist_directory(
            target_name,
        )
    &&& forall|k: int, l: int| 0 <= k < l < found.len() ==> found[k] < found[l]
    &&& forall|i: int|
        0 <= i < root.len() && (#[trigger] root[i]).is_artist_directory(target_name)
            ==> found.contains(i as usize)
    &&& found.map_values(|i: usize| root[i as int]) =~= artist_directories(root, target_name)
}

/// The names of all albums in the artist's directories, directory after
/// directory.
pub open spec fn library_albums(root: Seq<Entry>, artist_name: Seq<char>) -> Seq<Seq<char>> {
    artist_directories(root, artist_name).map_values(
        |e: Entry| album_names(e.node.listing()->0),
    ).flatten()
}

/// The normalized names of all tracks in the artist's directories,
/// directory after directory.
pub open spec fn library_tracks(root: Seq<Entry>, artist_name: Seq<char>) -> Seq<Seq<char>> {
    artist_directories(root, artist_name).map_values(
        |e: Entry| artist_tracks(e.node.listing()->0, artist_name),
    ).flatten()
}

/// `path` leads from the music directory to what stops the scan: the
/// directory itself, or else what stops the scan of the first directory of
/// the artist that cannot be scanned.
pub open spec fn library_failure(music_dir: Node, artist_name: Seq<char>, path: Seq<usize>) -> bool {
    match music_dir.listing() {
        None => path.len() == 0,
        Some(root) => path.len() >= 1 && is_first(
            root,
            |e: Entry| e.is_unreadable_artist(artist_name),
            path[0] as int,
        ) && artist_failure(root[path[0] as int].node, path.skip(1)),
    }
}

/// `held` with each title of `more` that it does not hold yet put at its
/// end, one title after another.
pub open spec fn with_new(held: Seq<Seq<char>>, more: Seq<Seq<char>>) -> Seq<Seq<char>>
    decreases more.len(),
{
    if more.len() == 0 {
        held
    } else {
        let before = with_new(held, more.drop_last());
        if before.contains(more.last()) {
            before
        } else {
            before.push(more.last())
        }
    }
}

/// The titles of `list`, each one once, in the order in which they come
/// first.
pub open spec fn first_occurrences(list: Seq<Seq<char>>) -> Seq<Seq<char>> {
    with_new(Seq::empty(), list)
}

/// The library can be scanned for the artist: the music directory could be
/// read, and each directory of the artist in it can be scanned.
pub open spec fn is_library_scannable(music_dir: Node, artist_name: Seq<char>) -> bool {
    &&& music_dir.listing() is Some
    &&& forall|i: int|
        0 <= i < music_dir.listing()->0.len() ==> !(
        #[trigger] music_dir.listing()->0[i]).is_unreadable_artist(artist_name)
}

/// `name` is the normalized name of a track among `files`.
pub open spec fn is_track_among(files: Seq<Entry>, artist_name: Seq<char>, name: Seq<char>) -> bool {
    exists|k: int|
        0 <= k < files.len() && (#[trigger] files[k]).is_track() && normalized_music_name(
            files[k].name->0@,
            artist_name,
        ) == name
}

/// `name` is the normalized name of a track in one of the albums among
/// `entries`.
pub open spec fn is_track_of_artist(
    entries: Seq<Entry>,
    artist_name: Seq<char>,
    name: Seq<char>,
) -> bool {
    exists|j: int|
        0 <= j < entries.len() && (#[trigger] entries[j]).is_album() && is_track_among(
            entries[j].node.listing()->0,
            artist_name,
            name,
        )
}

/// `name` is the normalized name of a track in an album of one of the
/// artist's directories.
pub open spec fn is_track_in_library(root: Seq<Entry>, artist_name: Seq<char>, name: Seq<char>) -> bool {
    exists|i: int|
        0 <= i < root.len() && (#[trigger] root[i]).is_artist_directory(artist_name)
            && is_track_of_artist(root[i].node.listing()->0, artist_name, name)
}

/// `name` is the lower-case name of one of the albums among `entries`.
pub open spec fn is_album_among(entries: Seq<Entry>, name: Seq<char>) -> bool {
    exists|j: int|
        0 <= j < entries.len() && (#[trigger] entries[j]).is_album() && lowercased(
            entries[j].name->0@,
        ) == name
}

/// `name` is the lower-case name of an album in one of the artist's
/// directories.
pub open spec fn is_album_in_library(root: Seq<Entry>, artist_name: Seq<char>, name: Seq<char>) -> bool {
    exists|i: int|
        0 <= i < root.len() && (#[trigger] root[i]).is_artist_directory(artist_name)
            && is_album_among(root[i].node.listing()->0, name)
}

impl Exist {
    /// This is what a scan of the music directory finds for the artist: the
    /// library can be scanned, and the two lists hold the albums and the
    /// tracks of the artist's directories as sets. No title stands twice in
    /// a list, the titles of a list are those found, and they stand in the
    /// order in which they were found first.
    pub open spec fn is_scan_of(self, music_dir: Node, artist_name: Seq<char>) -> bool {
        &&& is_library_scannable(music_dir, artist_name)
        &&& names(self.albums@).no_duplicates()
        &&& names(self.musics@).no_duplicates()
        &&& names(self.albums@).to_set() =~= library_albums(
            music_dir.listing()->0,
            artist_name,
        ).to_set()
        &&& names(self.musics@).to_set() =~= library_tracks(
            music_dir.listing()->0,
            artist_name,
        ).to_set()
        &&& names(self.albums@) == first_occurrences(
            library_albums(music_dir.listing()->0, artist_name),
        )
        &&& names(self.musics@) == first_occurrences(
            library_tracks(music_dir.listing()->0, artist_name),
        )
    }

    /// The names held for one kind of media, as a set.
    pub open spec fn titles(self, kind: MediaType) -> Set<Seq<char>> {
        match kind {
            MediaType::Music => names(self.musics@).to_set(),
            MediaType::Album => names(self.albums@).to_set(),
        }
    }

    /// The names held for one kind of media.
    pub fn get(&self, kind: &MediaType) -> (r: &Vec<String>)
        ensures
            *r == match kind {
                MediaType::Music => self.musics,
                MediaType::Album => self.albums,
            },
    {
        match kind {
            MediaType::Music => &self.musics,
            MediaType::Album => &self.albums,
        }
    }

    /// Whether the library holds `name` as a title of the given kind.
    /// Nothing but the two lists is looked at, and nothing is changed.
    pub fn contains(&self, name: &str, kind: &MediaType) -> (r: bool)
        ensures
            r == self.titles(*kind).contains(name@),
    {
        let wanted = name.to_owned();
        holds(self.get(kind), &wanted)
    }
}

/// Whether `title` stands in `list`.
fn holds(list: &Vec<String>, title: &String) -> (r: bool)
    ensures
        r == names(list@).contains(title@),
{
    let mut i: usize = 0;
    while i < list.len()
        invariant
            i <= list.len(),
            forall|k: int| 0 <= k < i ==> (#[trigger] list@[k])@ != title@,
        decreases list.len() - i,
    {
        if list[i] == *title {
            assert(names(list@)[i as int] == title@);
            return true;
        }
        i += 1;
    }
    assert(!names(list@).contains(title@)) by {
        if names(list@).contains(title@) {
            let k = choose|k: int| 0 <= k < names(list@).len() && names(list@)[k] == title@;
            assert(list@[k]@ == title@);
        }
    }
    false
}

/// Puts `title` at the end of `list` where `list` does not hold it yet.
fn push_new(list: &mut Vec<String>, title: String)
    ensures
        names(final(list)@) == with_new(names(old(list)@), seq![title@]),
{
    proof {
        assert(seq![title@].drop_last() =~= Seq::<Seq<char>>::empty());
        assert(with_new(names(list@), Seq::empty()) == names(list@));
    }
    if !holds(list, &title) {
        proof {
            list@.lemma_push_map_commute(|s: String| s@, title);
        }
        list.push(title);
    }
}

/// Puts each title of `more` that `list` does not hold yet at the end of
/// `list`, one title after another.
fn add_new(list: &mut Vec<String>, more: &Vec<String>)
    ensures
        names(final(list)@) == with_new(names(old(list)@), names(more@)),
{
    let ghost held = names(list@);
    let mut i: usize = 0;
    while i < more.len()
        invariant
            i <= more.len(),
            names(list@) == with_new(held, names(more@).take(i as int)),
        decreases more.len() - i,
    {
        proof {
            let seen = names(more@).take(i + 1);
            assert(seen.drop_last() =~= names(more@).take(i as int));
            assert(seen.last() == more@[i as int]@);
        }
        if !holds(list, &more[i]) {
            let title = more[i].clone();
            proof {
                list@.lemma_push_map_commute(|s: String| s@, title);
            }
            list.push(title);
        }
        i += 1;
    }
    proof {
        names(more@).lemma_take_len();
    }
}

impl Node {
    /// The entries, where this is a directory that could be read.
    pub fn entries(&self) -> (r: Option<&Vec<Entry>>)
        ensures
            match r {
                Some(entries) => self.listing() == Some(entries@),
                None => self.listing() is None,
            },
    {
        match self {
            Node::Directory(Some(entries)) => Some(entries),
            _ => None,
        }
    }
}

/// The normalized names of the tracks among `files`, in their order.
pub open spec fn track_names(files: Seq<Entry>, artist_name: Seq<char>) -> Seq<Seq<char>> {
    files.filter(|e: Entry| e.is_track()).map_values(
        |e: Entry| normalized_music_name(e.name->0@, artist_name),
    )
}

/// The normalized name of a track, from the entry of its file.
///
/// `None` where the entry's name is not valid Unicode or does not end as a
/// track's does.
pub fn process_music_entry(entry: &Entry, artist_name: &str) -> (r: Option<String>)
    ensures
        match r {
            Some(name) => entry.name is Some && has_suffix(entry.name->0@, track_extension())
                && name@ == normalized_music_name(entry.name->0@, artist_name@),
            None => !(entry.name is Some && has_suffix(entry.name->0@, track_extension())),
        },
{
    match &entry.name {
        Some(file_name) => {
            if ends_with(file_name.as_str(), MediaType::Music.file_extension()) {
                Some(normalize_music_name(file_name.as_str(), artist_name))
            } else {
                None
            }
        },
        None => None,
    }
}

/// The normalized names of the tracks in an album directory, each name once,
/// in the order in which the names come first.
///
/// Fails where `album_dir` is not a directory that could be read.
pub fn process_album_directory(album_dir: &Node, artist_name: &str) -> (r: Result<
    Vec<String>,
    ScanError,
>)
    ensures
        match r {
            Ok(musics) => album_dir.listing() is Some && names(musics@) == first_occurrences(
                track_names(album_dir.listing()->0, artist_name@),
            ),
            Err(e) => album_dir.listing() is None && e.path@ == Seq::<usize>::empty(),
        },
{
    match album_dir {
        Node::Directory(Some(files)) => {
            let mut musics: Vec<String> = Vec::new();
            let mut i: usize = 0;
            while i < files.len()
                invariant
                    i <= files.len(),
                    names(musics@) == first_occurrences(
                        track_names(files@.take(i as int), artist_name@),
                    ),
                decreases files.len() - i,
            {
                let entry = &files[i];
                proof {
                    files@.lemma_take_succ_push(i as int);
                    files@.take(i as int).lemma_filter_push(*entry, |e: Entry| e.is_track());
                }
                match &entry.node {
                    Node::File => {
                        if let Some(music_name) = process_music_entry(entry, artist_name) {
                            proof {
                                files@.take(i as int).filter(
                                    |e: Entry| e.is_track(),
                                ).lemma_push_map_commute(
                                    |e: Entry| normalized_music_name(e.name->0@, artist_name@),
                                    *entry,
                                );
                                lemma_first_occurrences_push(
                                    track_names(files@.take(i as int), artist_name@),
                                    music_name@,
                                );
                            }
                            push_new(&mut musics, music_name);
                        }
                    },
                    _ => {},
                }
                i += 1;
            }
            proof {
                files@.lemma_take_len();
            }
            Ok(musics)
        },
        _ => Err(ScanError { path: Vec::new() }),
    }
}

/// The albums of an artist's directory and the tracks in them: first the
/// albums' names in lower case, then the tracks' normalized names. Each list
/// holds a title once, in the order in which the titles come first.
///
/// Fails where `artist_dir` or an album in it is not a directory that could
/// be read; the error leads to the first such directory.
pub fn process_artist_directory(artist_dir: &Node, artist_name: &str) -> (r: Result<
    (Vec<String>, Vec<String>),
    ScanError,
>)
    ensures
        match r {
            Ok(found) => is_scannable(*artist_dir) && names(found.0@) == first_occurrences(
                album_names(artist_dir.listing()->0),
            ) && names(found.1@) == first_occurrences(
                artist_tracks(artist_dir.listing()->0, artist_name@),
            ),
            Err(e) => !is_scannable(*artist_dir) && artist_failure(*artist_dir, e.path@),
        },
{
    let entries = match artist_dir.entries() {
        Some(entries) => entries,
        None => {
            return Err(ScanError { path: Vec::new() });
        },
    };
    let mut albums: Vec<String> = Vec::new();
    let mut musics: Vec<String> = Vec::new();
    let mut i: usize = 0;
    while i < entries.len()
        invariant
            i <= entries.len(),
            artist_dir.listing() == Some(entries@),
            forall|k: int| 0 <= k < i ==> !(#[trigger] entries@[k]).is_unreadable_album(),
            names(albums@) == first_occurrences(album_names(entries@.take(i as int))),
            names(musics@) == first_occurrences(
                artist_tracks(entries@.take(i as int), artist_name@),
            ),
        decreases entries.len() - i,
    {
        let entry = &entries[i];
        let ghost seen = entries@.take(i as int);
        let ghost seen_albums = seen.filter(|e: Entry| e.is_album());
        proof {
            entries@.lemma_take_succ_push(i as int);
            seen.lemma_filter_push(*entry, |e: Entry| e.is_album());
        }
        match &entry.node {
            Node::Directory(_) => {
                if let Some(album_name) = &entry.name {
                    match process_album_directory(&entry.node, artist_name) {
                        Ok(tracks) => {
                            let album = lowercase(album_name.as_str());
                            proof {
                                seen_albums.lemma_push_map_commute(
                                    |e: Entry| lowercased(e.name->0@),
                                    *entry,
                                );
                                lemma_first_occurrences_push(album_names(seen), album@);
                                let per_album = |e: Entry|
                                    track_names(e.node.listing()->0, artist_name@);
                                seen_albums.lemma_push_map_commute(per_album, *entry);
                                seen_albums.map_values(per_album).lemma_flatten_push(
                                    per_album(*entry),
                                );
                                lemma_first_occurrences_concat(
                                    artist_tracks(seen, artist_name@),
                                    per_album(*entry),
                                );
                            }
                            push_new(&mut albums, album);
                            add_new(&mut musics, &tracks);
                        },
                        Err(e) => {
                            let mut path = e.path;
                            path.insert(0, i);
                            proof {
                                assert(path@ =~= seq![i]);
                                assert(artist_dir.listing()->0[i as int].is_unreadable_album());
                            }
                            return Err(ScanError { path });
                        },
                    }
                }
            },
            _ => {},
        }
        i += 1;
    }
    proof {
        entries@.lemma_take_len();
    }
    Ok((albums, musics))
}

/// The places of the artist's directories among the entries of the music
/// directory: those directories whose normalized name is that of
/// `target_name`.
///
/// Fails where `root` is not a directory that could be read.
pub fn find_artist_directories(root: &Node, target_name: &str) -> (r: Result<
    Vec<usize>,
    ScanError,
>)
    ensures
        match r {
            Ok(found) => root.listing() is Some && finds(
                found@,
                root.listing()->0,
                target_name@,
            ),
            Err(e) => root.listing() is None && e.path@.len() == 0,
        },
{
    let entries = match root.entries() {
        Some(entries) => entries,
        None => {
            return Err(ScanError { path: Vec::new() });
        },
    };
    let normalized_target = normalize_name(target_name);
    let mut found: Vec<usize> = Vec::new();
    let mut i: usize = 0;
    while i < entries.len()
        invariant
            i <= entries.len(),
            normalized_target@ == normalized_name(target_name@),
            finds(found@, entries@.take(i as int), target_name@),
        decreases entries.len() - i,
    {
        let entry = &entries[i];
        let ghost seen = entries@.take(i as int);
        let ghost next = entries@.take(i + 1);
        let ghost before = found@;
        let mut is_match = false;
        match &entry.node {
            Node::Directory(_) => {
                if let Some(dir_name) = &entry.name {
                    let normalized = normalize_name(dir_name.as_str());
                    is_match = normalized == normalized_target;
                }
            },
            _ => {},
        }
        if is_match {
            found.push(i);
        }
        proof {
            entries@.lemma_take_succ_push(i as int);
            seen.lemma_filter_push(*entry, |e: Entry| e.is_artist_directory(target_name@));
            assert forall|k: int| 0 <= k < before.len() implies seen[before[k] as int]
                == next[before[k] as int] by {}
            assert(before.map_values(|i: usize| seen[i as int]) =~= before.map_values(
                |i: usize| next[i as int],
            ));
            assert forall|j: int|
                0 <= j < next.len() && (#[trigger] next[j]).is_artist_directory(
                    target_name@,
                ) implies found@.contains(j as usize) by {
                if j < i {
                    assert(seen[j].is_artist_directory(target_name@));
                    let k = choose|k: int| 0 <= k < before.len() && before[k] == j as usize;
                    assert(found@[k] == j as usize);
                } else {
                    assert(found@[found@.len() - 1] == j as usize);
                }
            }
            if is_match {
                before.lemma_push_map_commute(|i: usize| next[i as int], i);
            }
        }
        i += 1;
    }
    proof {
        entries@.lemma_take_len();
    }
    Ok(found)
}

/// What the library holds of an artist: the albums in the artist's
/// directories and the tracks in those albums.
///
/// `music_dir` is the listing of the music directory. The artist's
/// directories are the directories in it whose normalized name is that of
/// `artist_name`; they are scanned in their order, and what they hold is
/// united: a title that is found more than once, in one directory or in
/// several, is listed once, where it was found first. The scan fails at the
/// first directory on its way that could not be read, to which the error
/// leads.
pub fn get_list_of_exist(artist_name: &str, music_dir: &Node) -> (r: Result<Exist, ScanError>)
    ensures
        match r {
            Ok(exist) => exist.is_scan_of(*music_dir, artist_name@),
            Err(e) => library_failure(*music_dir, artist_name@, e.path@),
        },
{
    let root = match music_dir.entries() {
        Some(root) => root,
        None => {
            return Err(ScanError { path: Vec::new() });
        },
    };
    let artist_dirs = match find_artist_directories(music_dir, artist_name) {
        Ok(found) => found,
        Err(e) => {
            return Err(e);
        },
    };
    let ghost dirs = artist_directories(root@, artist_name@);
    let ghost per_dir_albums = |e: Entry| album_names(e.node.listing()->0);
    let ghost per_dir_tracks = |e: Entry| artist_tracks(e.node.listing()->0, artist_name@);
    let mut albums: Vec<String> = Vec::new();
    let mut musics: Vec<String> = Vec::new();
    let mut k: usize = 0;
    while k < artist_dirs.len()
        invariant
            k <= artist_dirs.len(),
            music_dir.listing() == Some(root@),
            finds(artist_dirs@, root@, artist_name@),
            dirs == artist_directories(root@, artist_name@),
            per_dir_albums == |e: Entry| album_names(e.node.listing()->0),
            per_dir_tracks == |e: Entry| artist_tracks(e.node.listing()->0, artist_name@),
            forall|l: int| 0 <= l < k ==> is_scannable(#[trigger] dirs[l].node),
            names(albums@) == first_occurrences(
                dirs.take(k as int).map_values(per_dir_albums).flatten(),
            ),
            names(musics@) == first_occurrences(
                dirs.take(k as int).map_values(per_dir_tracks).flatten(),
            ),
        decreases artist_dirs.len() - k,
    {
        let at = artist_dirs[k];
        assert(dirs[k as int] == root@[at as int]) by {
            assert(artist_dirs@.map_values(|i: usize| root@[i as int])[k as int] == root@[at as int]);
        }
        match process_artist_directory(&root[at].node, artist_name) {
            Ok(found) => {
                let (albums_in_dir, musics_in_dir) = found;
                proof {
                    dirs.lemma_take_succ_push(k as int);
                    let seen = dirs.take(k as int);
                    seen.lemma_push_map_commute(per_dir_albums, dirs[k as int]);
                    seen.lemma_push_map_commute(per_dir_tracks, dirs[k as int]);
                    seen.map_values(per_dir_albums).lemma_flatten_push(
                        per_dir_albums(dirs[k as int]),
                    );
                    seen.map_values(per_dir_tracks).lemma_flatten_push(
                        per_dir_tracks(dirs[k as int]),
                    );
                    lemma_first_occurrences_concat(
                        seen.map_values(per_dir_albums).flatten(),
                        per_dir_albums(dirs[k as int]),
                    );
                    lemma_first_occurrences_concat(
                        seen.map_values(per_dir_tracks).flatten(),
                        per_dir_tracks(dirs[k as int]),
                    );
                }
                add_new(&mut albums, &albums_in_dir);
                add_new(&mut musics, &musics_in_dir);
            },
            Err(e) => {
                let mut path = e.path;
                path.insert(0, at);
                proof {
                    assert(path@.skip(1) =~= e.path@);
                    assert forall|i: int| 0 <= i < at implies !(
                    #[trigger] root@[i]).is_unreadable_artist(artist_name@) by {
                        if root@[i].is_artist_directory(artist_name@) {
                            let l = choose|l: int|
                                0 <= l < artist_dirs@.len() && artist_dirs@[l] == i as usize;
                            assert(l < k) by {
                                if l > k {
                                    assert(artist_dirs@[k as int] < artist_dirs@[l]);
                                }
                            }
                            assert(artist_dirs@.map_values(|i: usize| root@[i as int])[l]
                                == root@[i]);
                            assert(is_scannable(dirs[l].node));
                        }
                    }
                }
                return Err(ScanError { path });
            },
        }
        k += 1;
    }
    proof {
        dirs.lemma_take_len();
        lemma_with_new(Seq::empty(), library_albums(root@, artist_name@));
        lemma_with_new(Seq::empty(), library_tracks(root@, artist_name@));
        assert(root@.len() == root.len());
        assert forall|i: int| 0 <= i < root@.len() implies !(
        #[trigger] root@[i]).is_unreadable_artist(artist_name@) by {
            if root@[i].is_artist_directory(artist_name@) {
                let l = choose|l: int|
                    0 <= l < artist_dirs@.len() && artist_dirs@[l] == i as usize;
                assert(artist_dirs@.map_values(|i: usize| root@[i as int])[l] == root@[i]);
                assert(is_scannable(dirs[l].node));
            }
        }
    }
    Ok(Exist { albums, musics })
}

/// Adding the titles of two lists one list after the other is adding the
/// titles of the two lists laid end to end.
pub proof fn lemma_with_new_in_two_steps(
    held: Seq<Seq<char>>,
    first: Seq<Seq<char>>,
    second: Seq<Seq<char>>,
)
    ensures
        with_new(held, first + second) == with_new(with_new(held, first), second),
    decreases second.len(),
{
    if second.len() == 0 {
        assert(first + second =~= first);
    } else {
        lemma_with_new_in_two_steps(held, first, second.drop_last());
        assert((first + second).drop_last() =~= first + second.drop_last());
        assert((first + second).last() == second.last());
    }
}

/// A list with the first occurrences of its titles taken first adds what
/// the list itself adds.
pub proof fn lemma_with_new_of_first_occurrences(held: Seq<Seq<char>>, more: Seq<Seq<char>>)
    ensures
        with_new(held, first_occurrences(more)) == with_new(held, more),
    decreases more.len(),
{
    if more.len() > 0 {
        let init = more.drop_last();
        let last = more.last();
        lemma_with_new_of_first_occurrences(held, init);
        lemma_with_new(Seq::empty(), init);
        lemma_with_new(held, init);
        if !first_occurrences(init).contains(last) {
            assert(first_occurrences(more).drop_last() =~= first_occurrences(init));
        } else {
            assert(init.contains(last));
        }
    }
}

/// The first occurrences in two lists laid end to end are those of the
/// first list, with what is new in the first occurrences of the second.
pub proof fn lemma_first_occurrences_concat(first: Seq<Seq<char>>, second: Seq<Seq<char>>)
    ensures
        first_occurrences(first + second) == with_new(
            first_occurrences(first),
            first_occurrences(second),
        ),
        first_occurrences(first + second) == with_new(first_occurrences(first), second),
{
    lemma_with_new_in_two_steps(Seq::empty(), first, second);
    lemma_with_new_of_first_occurrences(first_occurrences(first), second);
}

/// The first occurrences in a list with one more title at its end.
pub proof fn lemma_first_occurrences_push(list: Seq<Seq<char>>, title: Seq<char>)
    ensures
        first_occurrences(list.push(title)) == with_new(first_occurrences(list), seq![title]),
{
    lemma_with_new_in_two_steps(Seq::empty(), list, seq![title]);
    assert(list + seq![title] =~= list.push(title));
}

/// Adding new titles leaves a list without repeated titles as one, and the
/// list then holds the titles it held and the titles that were to be added.
pub proof fn lemma_with_new(held: Seq<Seq<char>>, more: Seq<Seq<char>>)
    ensures
        held.no_duplicates() ==> with_new(held, more).no_duplicates(),
        forall|title: Seq<char>|
            with_new(held, more).contains(title) <==> held.contains(title) || more.contains(
                title,
            ),
        with_new(held, more).to_set() =~= held.to_set().union(more.to_set()),
    decreases more.len(),
{
    let all = with_new(held, more);
    if more.len() > 0 {
        let init = more.drop_last();
        let last = more.last();
        let before = with_new(held, init);
        lemma_with_new(held, init);
        assert(init.push(last) =~= more);
        assert forall|title: Seq<char>|
            all.contains(title) <==> held.contains(title) || more.contains(title) by {
            vstd::seq_lib::lemma_seq_contains_after_push(init, last, title);
            vstd::seq_lib::lemma_seq_contains_after_push(before, last, title);
        }
        if held.no_duplicates() && !before.contains(last) {
            assert forall|i: int, j: int|
                0 <= i < all.len() && 0 <= j < all.len() && i != j implies all[i] != all[j] by {
                if i < before.len() && j < before.len() {
                } else if i < before.len() {
                    assert(before.contains(before[i]));
                } else {
                    assert(before.contains(before[j]));
                }
            }
        }
    }
    assert(all.to_set() =~= held.to_set().union(more.to_set()));
}

/// Something stands in a list of lists laid end to end exactly if it
/// stands in one of the lists.
proof fn lemma_flatten_contains<A>(lists: Seq<Seq<A>>, x: A)
    ensures
        lists.flatten().contains(x) <==> exists|m: int|
            0 <= m < lists.len() && (#[trigger] lists[m]).contains(x),
    decreases lists.len(),
{
    if lists.len() == 0 {
        assert(lists.flatten() =~= Seq::<A>::empty());
    } else {
        let init = lists.drop_last();
        let last = lists.last();
        lemma_flatten_contains(init, x);
        init.lemma_flatten_push(last);
        assert(init.push(last) =~= lists);
        let flat = lists.flatten();
        if flat.contains(x) {
            let at = choose|at: int| 0 <= at < flat.len() && flat[at] == x;
            if at < init.flatten().len() {
                assert(init.flatten()[at] == x);
                let m = choose|m: int| 0 <= m < init.len() && (#[trigger] init[m]).contains(x);
                assert(lists[m].contains(x));
            } else {
                assert(last[at - init.flatten().len()] == x);
                assert(lists[lists.len() - 1].contains(x));
            }
        }
        if exists|m: int| 0 <= m < lists.len() && (#[trigger] lists[m]).contains(x) {
            let m = choose|m: int| 0 <= m < lists.len() && (#[trigger] lists[m]).contains(x);
            if m < init.len() {
                assert(init[m].contains(x));
                let at = choose|at: int| 0 <= at < init.flatten().len() && init.flatten()[at] == x;
                assert(flat[at] == x);
            } else {
                let at = choose|at: int| 0 <= at < last.len() && last[at] == x;
                assert(flat[init.flatten().len() + at] == x);
            }
        }
    }
}

/// What `f` makes of the entries that meet `p` holds `y` exactly if `f`
/// makes `y` of an entry that meets `p`.
proof fn lemma_chosen_contains<B>(
    entries: Seq<Entry>,
    p: spec_fn(Entry) -> bool,
    f: spec_fn(Entry) -> B,
    y: B,
)
    ensures
        entries.filter(p).map_values(f).contains(y) <==> exists|k: int|
            0 <= k < entries.len() && p(#[trigger] entries[k]) && f(entries[k]) == y,
{
    let chosen = entries.filter(p);
    let made = chosen.map_values(f);
    if made.contains(y) {
        let m = choose|m: int| 0 <= m < made.len() && made[m] == y;
        entries.lemma_filter_pred(p, m);
        assert(chosen.contains(chosen[m]));
        entries.lemma_filter_contains_rev(p, chosen[m]);
        let k = choose|k: int| 0 <= k < entries.len() && entries[k] == chosen[m];
        assert(p(entries[k]) && f(entries[k]) == y);
    }
    if exists|k: int| 0 <= k < entries.len() && p(#[trigger] entries[k]) && f(entries[k]) == y {
        let k = choose|k: int|
            0 <= k < entries.len() && p(#[trigger] entries[k]) && f(entries[k]) == y;
        entries.lemma_filter_contains(p, k);
        let m = choose|m: int| 0 <= m < chosen.len() && chosen[m] == entries[k];
        assert(made[m] == y);
    }
}

/// The lists that `f` makes of the entries that meet `p`, laid end to end,
/// hold `y` exactly if `f` makes a list that holds `y` of an entry that
/// meets `p`.
proof fn lemma_chosen_lists_contain<B>(
    entries: Seq<Entry>,
    p: spec_fn(Entry) -> bool,
    f: spec_fn(Entry) -> Seq<B>,
    y: B,
)
    ensures
        entries.filter(p).map_values(f).flatten().contains(y) <==> exists|k: int|
            0 <= k < entries.len() && p(#[trigger] entries[k]) && f(entries[k]).contains(y),
{
    let lists = entries.filter(p).map_values(f);
    lemma_flatten_contains(lists, y);
    if lists.flatten().contains(y) {
        let m = choose|m: int| 0 <= m < lists.len() && (#[trigger] lists[m]).contains(y);
        assert(lists.contains(lists[m]));
        lemma_chosen_contains(entries, p, f, lists[m]);
    }
    if exists|k: int|
        0 <= k < entries.len() && p(#[trigger] entries[k]) && f(entries[k]).contains(y) {
        let k = choose|k: int|
            0 <= k < entries.len() && p(#[trigger] entries[k]) && f(entries[k]).contains(y);
        lemma_chosen_contains(entries, p, f, f(entries[k]));
        let m = choose|m: int| 0 <= m < lists.len() && lists[m] == f(entries[k]);
        assert(lists[m].contains(y));
    }
}

/// The tracks that a scan lists for an artist's directories are the tracks
/// in the albums of those directories, and the albums it lists are the
/// albums in them.
pub proof fn lemma_library_lists(root: Seq<Entry>, artist_name: Seq<char>, name: Seq<char>)
    ensures
        library_tracks(root, artist_name).contains(name) <==> is_track_in_library(
            root,
            artist_name,
            name,
        ),
        library_albums(root, artist_name).contains(name) <==> is_album_in_library(
            root,
            artist_name,
            name,
        ),
{
    let is_artist = |e: Entry| e.is_artist_directory(artist_name);
    let is_album = |e: Entry| e.is_album();
    let is_track = |e: Entry| e.is_track();
    let dir_tracks = |e: Entry| artist_tracks(e.node.listing()->0, artist_name);
    let dir_albums = |e: Entry| album_names(e.node.listing()->0);
    let album_tracks = |e: Entry| track_names(e.node.listing()->0, artist_name);
    let album_name = |e: Entry| lowercased(e.name->0@);
    let track_name = |e: Entry| normalized_music_name(e.name->0@, artist_name);
    lemma_chosen_lists_contain(root, is_artist, dir_tracks, name);
    lemma_chosen_lists_contain(root, is_artist, dir_albums, name);
    assert forall|i: int| 0 <= i < root.len() implies (dir_tracks(#[trigger] root[i]).contains(
        name,
    ) <==> is_track_of_artist(root[i].node.listing()->0, artist_name, name)) by {
        let entries = root[i].node.listing()->0;
        lemma_chosen_lists_contain(entries, is_album, album_tracks, name);
        assert forall|j: int| 0 <= j < entries.len() implies (album_tracks(
            #[trigger] entries[j],
        ).contains(name) <==> is_track_among(entries[j].node.listing()->0, artist_name, name)) by {
            lemma_chosen_contains(entries[j].node.listing()->0, is_track, track_name, name);
        }
    }
    assert forall|i: int| 0 <= i < root.len() implies (dir_albums(#[trigger] root[i]).contains(
        name,
    ) <==> is_album_among(root[i].node.listing()->0, name)) by {
        lemma_chosen_contains(root[i].node.listing()->0, is_album, album_name, name);
    }
}

/// After a scan, the library holds a title exactly if the title is that of
/// a track, or of an album, in one of the artist's directories.
pub proof fn lemma_scan_holds_what_is_there(
    exist: Exist,
    music_dir: Node,
    artist_name: Seq<char>,
    name: Seq<char>,
)
    requires
        exist.is_scan_of(music_dir, artist_name),
    ensures
        exist.titles(MediaType::Music).contains(name) <==> is_track_in_library(
            music_dir.listing()->0,
            artist_name,
            name,
        ),
        exist.titles(MediaType::Album).contains(name) <==> is_album_in_library(
            music_dir.listing()->0,
            artist_name,
            name,
        ),
{
    lemma_library_lists(music_dir.listing()->0, artist_name, name);
}

} // verus!
