use musicscan::output::{file_name, render, UrlTable};

fn table(pairs: &[(&str, &str)]) -> UrlTable {
    let mut table = UrlTable::new();
    for (title, url) in pairs {
        table.insert(title.to_string(), url.to_string());
    }
    table
}

#[test]
fn empty_tables_are_written_as_empty_objects() {
    let text = render(&UrlTable::new(), &UrlTable::new());
    assert_eq!(text, r#"{"tracks":{},"albums":{}}"#);
}

#[test]
fn tables_are_written_title_by_title() {
    let tracks = table(&[("hello", "https://host/hello-320.mp3"), ("skyfall", "")]);
    let albums = table(&[("25", "https://host/25.zip")]);
    assert_eq!(
        render(&tracks, &albums),
        r#"{"tracks":{"hello":"https://host/hello-320.mp3","skyfall":""},"albums":{"25":"https://host/25.zip"}}"#
    );
}

#[test]
fn quotation_marks_backslashes_and_control_characters_are_escaped() {
    let tracks = table(&[("say \"hi\"", "a\\b"), ("line\nbreak\ttab\rback", "\u{0}\u{1f}\u{b}")]);
    assert_eq!(
        render(&tracks, &UrlTable::new()),
        "{\"tracks\":{\"say \\\"hi\\\"\":\"a\\\\b\",\"line\\nbreak\\ttab\\rback\":\"\\u0000\\u001f\\u000b\"},\"albums\":{}}"
    );
}

#[test]
fn other_characters_are_written_as_they_are() {
    let albums = table(&[("björk – début/é", "\u{7f} ~")]);
    assert_eq!(
        render(&UrlTable::new(), &albums),
        "{\"tracks\":{},\"albums\":{\"björk – début/é\":\"\u{7f} ~\"}}"
    );
}

#[test]
fn every_control_character_is_escaped_with_four_digits() {
    for code in 0u8..32 {
        let c = char::from(code);
        let text = render(&table(&[("", &c.to_string())]), &UrlTable::new());
        let escaped = match c {
            '\n' => "\\n".to_string(),
            '\r' => "\\r".to_string(),
            '\t' => "\\t".to_string(),
            _ => format!("\\u{:04x}", code),
        };
        assert_eq!(text, format!("{{\"tracks\":{{\"\":\"{}\"}},\"albums\":{{}}}}", escaped));
    }
}

#[test]
fn a_title_keeps_the_address_given_last() {
    let mut tracks = table(&[("a", "1"), ("b", "2"), ("c", "3")]);
    tracks.insert("b".to_string(), "4".to_string());
    assert_eq!(tracks.len(), 3);
    assert_eq!(tracks.get("b"), Some("4".to_string()));
    assert_eq!(render(&tracks, &UrlTable::new()), r#"{"tracks":{"a":"1","b":"4","c":"3"},"albums":{}}"#);
}

#[test]
fn a_table_holds_what_was_put_into_it() {
    let mut albums = UrlTable::new();
    assert_eq!(albums.len(), 0);
    assert_eq!(albums.get("x"), None);
    albums.insert("x".to_string(), String::new());
    albums.insert("".to_string(), "u".to_string());
    assert_eq!(albums.len(), 2);
    assert_eq!(albums.get("x"), Some(String::new()));
    assert_eq!(albums.get(""), Some("u".to_string()));
    assert_eq!(albums.get("X"), None);
}

#[test]
fn file_is_named_after_the_artist() {
    assert_eq!(file_name("the weeknd"), "the weeknd.json");
    assert_eq!(file_name(""), ".json");
}
