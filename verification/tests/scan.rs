use musicscan::find_exist::{
    find_artist_directories, get_list_of_exist, process_album_directory,
    process_artist_directory, process_music_entry, Entry, Exist, Node,
};
use musicscan::media::MediaType;

fn file(name: &str) -> Entry {
    Entry { name: Some(name.to_string()), node: Node::File }
}

fn dir(name: &str, entries: Vec<Entry>) -> Entry {
    Entry { name: Some(name.to_string()), node: Node::Directory(Some(entries)) }
}

fn unreadable(name: &str) -> Entry {
    Entry { name: Some(name.to_string()), node: Node::Directory(None) }
}

fn root(entries: Vec<Entry>) -> Node {
    Node::Directory(Some(entries))
}

#[test]
fn scan_of_one_album_with_two_tracks() {
    let music_dir = root(vec![dir(
        "artist",
        vec![dir("AlbumA", vec![file("track1.mp3"), file("track2.mp3")])],
    )]);
    let exist = get_list_of_exist("artist", &music_dir).unwrap();
    assert_eq!(exist.albums, vec!["albuma"]);
    assert_eq!(exist.musics, vec!["track1", "track2"]);
}

#[test]
fn scan_takes_the_artist_out_of_track_names() {
    let music_dir = root(vec![dir(
        "artist",
        vec![dir("AlbumA", vec![file("artist-track1.mp3"), file("track2_artist.mp3")])],
    )]);
    let exist = get_list_of_exist("artist", &music_dir).unwrap();
    assert_eq!(exist.albums, vec!["albuma"]);
    assert_eq!(exist.musics, vec!["track1", "track2"]);
}

#[test]
fn scan_merges_all_directories_of_the_artist() {
    let music_dir = root(vec![
        dir("The-Weeknd", vec![dir("Starboy", vec![file("starboy.mp3")])]),
        dir("Adele", vec![dir("25", vec![file("hello.mp3")])]),
        dir("the_weeknd", vec![dir("After Hours", vec![file("Blinding-Lights.mp3")])]),
        dir("THE WEEKND", vec![]),
    ]);
    let exist = get_list_of_exist("the weeknd", &music_dir).unwrap();
    assert_eq!(exist.albums, vec!["starboy", "after hours"]);
    assert_eq!(exist.musics, vec!["starboy", "blinding lights"]);
}

#[test]
fn scan_finds_nothing_where_no_directory_matches() {
    let music_dir = root(vec![dir("Adele", vec![dir("25", vec![file("hello.mp3")])])]);
    let exist = get_list_of_exist("queen", &music_dir).unwrap();
    assert!(exist.albums.is_empty());
    assert!(exist.musics.is_empty());
    let empty = get_list_of_exist("queen", &root(vec![])).unwrap();
    assert!(empty.albums.is_empty());
    assert!(empty.musics.is_empty());
}

#[test]
fn album_names_are_lower_cased_and_nothing_more() {
    let music_dir = root(vec![dir(
        "queen",
        vec![dir("Queen_II - Deluxe ", vec![]), dir("queen", vec![])],
    )]);
    let exist = get_list_of_exist("queen", &music_dir).unwrap();
    assert_eq!(exist.albums, vec!["queen_ii - deluxe ", "queen"]);
    assert!(exist.musics.is_empty());
}

#[test]
fn only_files_one_level_below_an_album_are_tracks() {
    let music_dir = root(vec![
        file("queen"),
        dir(
            "queen",
            vec![
                file("loose.mp3"),
                dir(
                    "Jazz",
                    vec![
                        file("bicycle-race.mp3"),
                        file("cover.jpg"),
                        dir("extras.mp3", vec![file("deep.mp3")]),
                        Entry { name: Some("link.mp3".to_string()), node: Node::Other },
                        Entry { name: None, node: Node::File },
                    ],
                ),
                Entry { name: None, node: Node::Directory(None) },
                Entry { name: Some("Other".to_string()), node: Node::Other },
            ],
        ),
    ]);
    let exist = get_list_of_exist("queen", &music_dir).unwrap();
    assert_eq!(exist.albums, vec!["jazz"]);
    assert_eq!(exist.musics, vec!["bicycle race"]);
}

#[test]
fn a_file_named_as_the_artist_is_no_artist_directory() {
    let music_dir = root(vec![file("queen"), Entry { name: None, node: Node::Directory(None) }]);
    let found = find_artist_directories(&music_dir, "queen").unwrap();
    assert!(found.is_empty());
    assert!(get_list_of_exist("queen", &music_dir).is_ok());
}

#[test]
fn artist_directories_are_found_in_their_order() {
    let music_dir = root(vec![
        dir("Adele", vec![]),
        dir("Daft-Punk", vec![]),
        file("daft punk"),
        unreadable("daft_punk"),
        dir("Daft", vec![]),
        dir(" DAFT PUNK ", vec![]),
    ]);
    assert_eq!(find_artist_directories(&music_dir, "daft punk").unwrap(), vec![1, 3, 5]);
    assert_eq!(find_artist_directories(&music_dir, "Daft_Punk").unwrap(), vec![1, 3, 5]);
    assert_eq!(find_artist_directories(&music_dir, "adele").unwrap(), vec![0]);
    assert!(find_artist_directories(&music_dir, "queen").unwrap().is_empty());
}

#[test]
fn unreadable_music_directory_fails_the_scan() {
    let err = get_list_of_exist("queen", &Node::Directory(None)).unwrap_err();
    assert!(err.path.is_empty());
    assert!(get_list_of_exist("queen", &Node::File).unwrap_err().path.is_empty());
    assert!(get_list_of_exist("queen", &Node::Other).unwrap_err().path.is_empty());
    assert!(find_artist_directories(&Node::Directory(None), "queen").unwrap_err().path.is_empty());
}

#[test]
fn unreadable_artist_directory_fails_the_scan() {
    let music_dir = root(vec![
        dir("Adele", vec![]),
        dir("Queen", vec![dir("Jazz", vec![file("a.mp3")])]),
        unreadable("queen"),
        unreadable("QUEEN"),
    ]);
    let err = get_list_of_exist("queen", &music_dir).unwrap_err();
    assert_eq!(err.path, vec![2]);
}

#[test]
fn unreadable_album_fails_the_scan() {
    let music_dir = root(vec![
        unreadable("Adele"),
        dir("Queen", vec![file("note.txt"), dir("Jazz", vec![]), unreadable("Innuendo")]),
        unreadable("queen"),
    ]);
    let err = get_list_of_exist("queen", &music_dir).unwrap_err();
    assert_eq!(err.path, vec![1, 2]);
}

#[test]
fn directories_of_other_artists_need_not_be_readable() {
    let music_dir = root(vec![
        unreadable("Adele"),
        dir("Queen", vec![dir("Jazz", vec![file("Queen - Mustapha.mp3")])]),
    ]);
    let exist = get_list_of_exist("Queen", &music_dir).unwrap();
    assert_eq!(exist.albums, vec!["jazz"]);
    assert_eq!(exist.musics, vec!["mustapha"]);
}

#[test]
fn artist_directory_lists_albums_then_tracks() {
    let artist_dir = root(vec![
        dir("B", vec![file("b1.mp3"), file("b2.mp3")]),
        file("a.mp3"),
        dir("A", vec![file("a1.mp3")]),
    ]);
    let (albums, musics) = process_artist_directory(&artist_dir, "nobody").unwrap();
    assert_eq!(albums, vec!["b", "a"]);
    assert_eq!(musics, vec!["b1", "b2", "a1"]);
}

#[test]
fn artist_directory_fails_at_its_first_unreadable_album() {
    let artist_dir =
        root(vec![dir("A", vec![]), unreadable("B"), dir("C", vec![]), unreadable("D")]);
    assert_eq!(process_artist_directory(&artist_dir, "nobody").unwrap_err().path, vec![1]);
    let unread = process_artist_directory(&Node::Directory(None), "nobody").unwrap_err();
    assert!(unread.path.is_empty());
    assert!(process_artist_directory(&Node::File, "nobody").is_err());
}

#[test]
fn album_directory_lists_its_tracks() {
    let album = root(vec![
        file("02-Second.mp3"),
        file("cover.png"),
        file("01-First.mp3"),
        dir("more.mp3", vec![]),
    ]);
    assert_eq!(process_album_directory(&album, "nobody").unwrap(), vec!["02 second", "01 first"]);
    assert!(process_album_directory(&root(vec![]), "nobody").unwrap().is_empty());
}

#[test]
fn album_directory_that_could_not_be_read_fails() {
    assert!(process_album_directory(&Node::Directory(None), "nobody").unwrap_err().path.is_empty());
    assert!(process_album_directory(&Node::File, "nobody").is_err());
    assert!(process_album_directory(&Node::Other, "nobody").is_err());
}

#[test]
fn music_entry_needs_a_name_that_ends_as_a_track() {
    assert_eq!(process_music_entry(&file("Queen-Jazz.mp3"), "Queen"), Some("jazz".to_string()));
    assert_eq!(process_music_entry(&file("jazz.MP3"), "Queen"), None);
    assert_eq!(process_music_entry(&file("jazz.mp3.bak"), "Queen"), None);
    assert_eq!(process_music_entry(&file("mp3"), "Queen"), None);
    assert_eq!(process_music_entry(&file(".mp3"), "Queen"), Some(String::new()));
    assert_eq!(process_music_entry(&Entry { name: None, node: Node::File }, "Queen"), None);
}

#[test]
fn existence_is_membership_in_the_list_of_the_kind() {
    let exist = Exist {
        albums: vec!["jazz".to_string(), "".to_string()],
        musics: vec!["mustapha".to_string(), "jazz ".to_string()],
    };
    assert!(exist.contains("jazz", &MediaType::Album));
    assert!(exist.contains("", &MediaType::Album));
    assert!(!exist.contains("mustapha", &MediaType::Album));
    assert!(!exist.contains("Jazz", &MediaType::Album));
    assert!(exist.contains("mustapha", &MediaType::Music));
    assert!(exist.contains("jazz ", &MediaType::Music));
    assert!(!exist.contains("jazz", &MediaType::Music));
    assert!(!exist.contains("", &MediaType::Music));
    assert_eq!(exist.albums.len(), 2);
    assert_eq!(exist.musics.len(), 2);
}

#[test]
fn nothing_exists_in_an_empty_library() {
    let exist = Exist { albums: vec![], musics: vec![] };
    assert!(!exist.contains("", &MediaType::Album));
    assert!(!exist.contains("x", &MediaType::Music));
}

#[test]
fn get_hands_out_the_list_of_the_kind() {
    let exist = Exist { albums: vec!["a".to_string()], musics: vec!["m".to_string()] };
    assert_eq!(exist.get(&MediaType::Album), &vec!["a".to_string()]);
    assert_eq!(exist.get(&MediaType::Music), &vec!["m".to_string()]);
}

#[test]
fn after_a_scan_a_title_exists_where_its_file_is_there() {
    let music_dir = root(vec![
        dir("Daft-Punk", vec![dir("Discovery", vec![file("daft_punk-one-more-time.mp3")])]),
        dir("Justice", vec![dir("Cross", vec![file("genesis.mp3")])]),
        dir("daft punk", vec![dir("Homework", vec![file("Da Funk.mp3"), file("notes.txt")])]),
    ]);
    let exist = get_list_of_exist("daft punk", &music_dir).unwrap();
    assert!(exist.contains("one more time", &MediaType::Music));
    assert!(exist.contains("da funk", &MediaType::Music));
    assert!(!exist.contains("genesis", &MediaType::Music));
    assert!(!exist.contains("notes.txt", &MediaType::Music));
    assert!(!exist.contains("discovery", &MediaType::Music));
    assert!(exist.contains("discovery", &MediaType::Album));
    assert!(exist.contains("homework", &MediaType::Album));
    assert!(!exist.contains("cross", &MediaType::Album));
    assert!(!exist.contains("da funk", &MediaType::Album));
}

#[test]
fn two_files_with_one_title_give_the_title_once() {
    let music_dir =
        root(vec![dir("artist", vec![dir("AlbumA", vec![file("a-b.mp3"), file("a_b.mp3")])])]);
    let exist = get_list_of_exist("artist", &music_dir).unwrap();
    assert_eq!(exist.albums, vec!["albuma"]);
    assert_eq!(exist.musics, vec!["a b"]);
    assert!(exist.contains("a b", &MediaType::Music));
}

#[test]
fn one_album_name_in_two_directories_of_the_artist_is_listed_once() {
    let music_dir = root(vec![
        dir("Queen", vec![dir("Jazz", vec![file("mustapha.mp3")]), dir("Live", vec![])]),
        dir("queen", vec![dir("JAZZ", vec![file("Mustapha.mp3"), file("bicycle-race.mp3")])]),
    ]);
    let exist = get_list_of_exist("queen", &music_dir).unwrap();
    assert_eq!(exist.albums, vec!["jazz", "live"]);
    assert_eq!(exist.musics, vec!["mustapha", "bicycle race"]);
}

#[test]
fn a_title_stands_where_it_was_found_first() {
    let music_dir = root(vec![
        dir(
            "queen",
            vec![
                dir("One", vec![file("c.mp3"), file("a.mp3"), file("C.mp3")]),
                dir("Two", vec![file("b.mp3"), file("a.mp3"), file("c.mp3"), file("d.mp3")]),
                dir("one", vec![file("e.mp3")]),
            ],
        ),
        dir("Queen", vec![dir("Three", vec![file("d.mp3"), file("f.mp3")]), dir("TWO", vec![])]),
    ]);
    let exist = get_list_of_exist("queen", &music_dir).unwrap();
    assert_eq!(exist.albums, vec!["one", "two", "three"]);
    assert_eq!(exist.musics, vec!["c", "a", "b", "d", "e", "f"]);
}

#[test]
fn the_same_title_is_kept_apart_for_albums_and_tracks() {
    let music_dir = root(vec![dir("queen", vec![dir("jazz", vec![file("jazz.mp3")])])]);
    let exist = get_list_of_exist("queen", &music_dir).unwrap();
    assert_eq!(exist.albums, vec!["jazz"]);
    assert_eq!(exist.musics, vec!["jazz"]);
}

#[test]
fn album_directory_lists_a_title_once() {
    let album = root(vec![file("x-y.mp3"), file("z.mp3"), file("x_y.mp3"), file("X Y.mp3")]);
    assert_eq!(process_album_directory(&album, "nobody").unwrap(), vec!["x y", "z"]);
}

#[test]
fn artist_directory_lists_a_title_once() {
    let artist_dir = root(vec![
        dir("Hits", vec![file("one.mp3"), file("two.mp3")]),
        dir("HITS", vec![file("two.mp3"), file("three.mp3"), file("ONE.mp3")]),
    ]);
    let (albums, musics) = process_artist_directory(&artist_dir, "nobody").unwrap();
    assert_eq!(albums, vec!["hits"]);
    assert_eq!(musics, vec!["one", "two", "three"]);
}

#[test]
fn track_ending_is_looked_for_character_by_character() {
    let names = [
        "é.mp3", "日本語.mp3", "x.mp", ".mp3", "mp3", "", "a.mp3.mp3", "a.mp3 ", "a.mp३", "amp3",
        "a.mp3\u{301}", "\u{1f3b5}.mp3", "é", "a.MP3",
    ];
    for name in names {
        let found = process_music_entry(&file(name), "nobody").is_some();
        assert_eq!(found, name.ends_with(".mp3"), "{:?}", name);
    }
}
