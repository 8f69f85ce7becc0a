use musicscan::find_exist::Exist;
use musicscan::links::{
    artist_key, get_url, media_name, plan_media, section_url, LinkError, MediaPlan, SelectError,
};
use musicscan::media::MediaType;

fn strings(items: &[&str]) -> Vec<String> {
    items.iter().map(|s| s.to_string()).collect()
}

#[test]
fn best_url_is_the_first_without_the_low_bitrate_mark() {
    let urls = strings(&["a-128.mp3", "a-320.mp3"]);
    assert_eq!(get_url(&urls, &MediaType::Music), Ok("a-320.mp3".to_string()));
    let more = strings(&["x128.mp3", "y-320.mp3", "z-256.mp3"]);
    assert_eq!(get_url(&more, &MediaType::Music), Ok("y-320.mp3".to_string()));
    let first = strings(&["a-320.mp3", "a-128.mp3"]);
    assert_eq!(get_url(&first, &MediaType::Music), Ok("a-320.mp3".to_string()));
}

#[test]
fn single_candidate_is_taken_as_it_is() {
    assert_eq!(get_url(&strings(&["a-320.mp3"]), &MediaType::Music), Ok("a-320.mp3".to_string()));
    assert_eq!(get_url(&strings(&["a-128.mp3"]), &MediaType::Music), Ok("a-128.mp3".to_string()));
    let mixed = strings(&["page.html", "a-128.mp3", "a-320.zip"]);
    assert_eq!(get_url(&mixed, &MediaType::Music), Ok("a-128.mp3".to_string()));
    assert_eq!(get_url(&mixed, &MediaType::Album), Ok("a-320.zip".to_string()));
}

#[test]
fn no_candidates_is_a_result_of_its_own() {
    assert_eq!(get_url(&vec![], &MediaType::Music), Err(SelectError::NoCandidates));
    assert_eq!(get_url(&vec![], &MediaType::Album), Err(SelectError::NoCandidates));
    let others = strings(&["a.zip", "b.MP3", "c.mp3?x=1"]);
    assert_eq!(get_url(&others, &MediaType::Music), Err(SelectError::NoCandidates));
}

#[test]
fn several_candidates_all_of_low_bitrate_give_none() {
    let urls = strings(&["a-128.mp3", "b/128/c.mp3", "x.zip"]);
    assert_eq!(get_url(&urls, &MediaType::Music), Err(SelectError::OnlyLowBitrate));
    let albums = strings(&["a128.zip", "1280.zip"]);
    assert_eq!(get_url(&albums, &MediaType::Album), Err(SelectError::OnlyLowBitrate));
}

#[test]
fn low_bitrate_mark_is_the_text_128_anywhere() {
    let urls = strings(&["1-2-8.mp3", "128.mp3"]);
    assert_eq!(get_url(&urls, &MediaType::Music), Ok("1-2-8.mp3".to_string()));
    let late = strings(&["ab128.mp3", "12.mp3"]);
    assert_eq!(get_url(&late, &MediaType::Music), Ok("12.mp3".to_string()));
}

#[test]
fn title_is_the_last_part_but_one_of_the_address() {
    assert_eq!(
        media_name("https://host/music/queen-bohemian-rhapsody/", "queen"),
        Ok("bohemian rhapsody".to_string())
    );
    assert_eq!(media_name("https://host/music/some_song/x", "queen"), Ok("some song".to_string()));
    assert_eq!(media_name("a/b", "queen"), Ok("a".to_string()));
    assert_eq!(media_name("/b", "queen"), Ok(String::new()));
    assert_eq!(media_name("a//", "queen"), Ok(String::new()));
    assert_eq!(media_name("/", "queen"), Ok(String::new()));
}

#[test]
fn title_is_normalized_as_a_track_name_is() {
    assert_eq!(media_name("h/Queen-Jazz.mp3/", "Queen"), Ok("jazz".to_string()));
    assert_eq!(media_name("h/The_Show-Must-Go-On/", "queen"), Ok("the show must go on".to_string()));
}

#[test]
fn address_without_a_slash_holds_no_title() {
    assert_eq!(media_name("queen-jazz", "queen"), Err(LinkError::InvalidUrlStructure));
    assert_eq!(media_name("", "queen"), Err(LinkError::InvalidUrlStructure));
}

#[test]
fn owned_title_is_not_fetched() {
    let exist = Exist { albums: strings(&["jazz"]), musics: strings(&["mustapha"]) };
    let track = plan_media("h/queen-mustapha/", "queen", &exist, &MediaType::Music).unwrap();
    assert!(matches!(track, MediaPlan::Owned(name) if name == "mustapha"));
    let album = plan_media("h/queen-jazz/", "queen", &exist, &MediaType::Album).unwrap();
    assert!(matches!(album, MediaPlan::Owned(name) if name == "jazz"));
}

#[test]
fn new_title_is_fetched() {
    let exist = Exist { albums: strings(&["jazz"]), musics: strings(&["mustapha"]) };
    let track = plan_media("h/queen-jazz/", "queen", &exist, &MediaType::Music).unwrap();
    assert!(matches!(track, MediaPlan::Fetch(name) if name == "jazz"));
    let album = plan_media("h/queen-mustapha/", "queen", &exist, &MediaType::Album).unwrap();
    assert!(matches!(album, MediaPlan::Fetch(name) if name == "mustapha"));
}

#[test]
fn link_without_title_is_not_planned() {
    let exist = Exist { albums: vec![], musics: vec![] };
    let planned = plan_media("nothing", "queen", &exist, &MediaType::Music);
    assert!(matches!(planned, Err(LinkError::InvalidUrlStructure)));
}

#[test]
fn section_address_names_the_kind() {
    assert_eq!(section_url("https://host/artists/queen", &MediaType::Music), "https://host/artists/queen/?section=music");
    assert_eq!(section_url("", &MediaType::Album), "/?section=album");
}

#[test]
fn kinds_have_their_extension_and_label() {
    assert_eq!(MediaType::Music.file_extension(), ".mp3");
    assert_eq!(MediaType::Album.file_extension(), ".zip");
    assert_eq!(MediaType::Music.label(), "music");
    assert_eq!(MediaType::Album.label(), "album");
}

#[test]
fn artist_key_is_spaced_and_lower_cased_but_not_trimmed() {
    assert_eq!(artist_key("The-Weeknd"), "the weeknd");
    assert_eq!(artist_key("_Daft_Punk "), " daft punk ");
    assert_eq!(artist_key("BJÖRK"), "björk");
}

#[test]
fn low_bitrate_mark_is_looked_for_character_by_character() {
    let marked = ["128.mp3", "é128.mp3", "a/128", "1128", "12128x", "日本128語"];
    let unmarked = ["", "12", "1 28", "821", "１２８", "12é8", "1-2-8", "28128".get(0..4).unwrap()];
    for text in marked {
        assert!(text.contains("128"));
        let urls = vec![format!("{}.zip", text), "b.zip".to_string()];
        assert_eq!(get_url(&urls, &MediaType::Album), Ok("b.zip".to_string()), "{:?}", text);
    }
    for text in unmarked {
        assert!(!text.contains("128"));
        let urls = vec![format!("{}.zip", text), "b.zip".to_string()];
        assert_eq!(get_url(&urls, &MediaType::Album), Ok(format!("{}.zip", text)), "{:?}", text);
    }
}
