use exportsnap::export::chat_media::{is_alphanumeric_run, media_tokens, parse_history_token, ChatMediaFile, Discovery, Family, Token};
use exportsnap::paths::FilePath;

#[test]
fn an_id_is_a_run_of_ascii_alphanumerics_and_nothing_else() {
    assert!(is_alphanumeric_run("aB3"));
    assert!(is_alphanumeric_run("0"));
    assert!(!is_alphanumeric_run(""), "an empty tail is not an id");
    assert!(!is_alphanumeric_run("ab-cd"));
    assert!(!is_alphanumeric_run("ab.cd"));
    assert!(!is_alphanumeric_run("ab~cd"));
    assert!(!is_alphanumeric_run("ab_cd"));
}

#[test]
fn the_two_families_are_told_apart_by_the_tail_alone() {
    assert_eq!(Family::parse("aB3xY9"), Some(Family::Plain { id: "aB3xY9".to_owned() }));
    assert_eq!(
        Family::parse("vantsnap-1234567.zip.a1b2c3d"),
        Some(Family::Zip { mid: "vantsnap-1234567".to_owned(), hash: "a1b2c3d".to_owned() })
    );
    assert_eq!(Family::parse("vantsnap.zip.a1b2c3d"), None, "no digits half");
    assert_eq!(Family::parse("vantsnap-12x4567.zip.a1b2c3d"), None, "the digits half is not digits");
    assert_eq!(Family::parse("vantsnap-1234567.zip."), None, "no hash");
    assert_eq!(Family::parse("-1234567.zip.a1b2c3d"), None, "no word");
    assert_eq!(Family::parse(""), None);
}

#[test]
fn every_token_is_named_in_all() {
    for token in Token::ALL {
        match token {
            Token::B | Token::Media | Token::Overlay | Token::Thumbnail => {}
        }
        assert_eq!(Token::parse(token.as_word()), Some(token));
    }
    assert_eq!(Token::parse("metadata"), None, "the role the census found zero files for");
    assert_eq!(Token::parse("B"), Some(Token::B), "matched without regard to case");
}

#[test]
fn a_file_name_is_read_into_its_parts() {
    let file = ChatMediaFile::parse(&FilePath::new("/x/chat_media/2021-03-04_b~aB3xY9.jpg")).unwrap();
    assert_eq!(file.day.text(), "2021-03-04");
    assert_eq!(file.token, Token::B);
    assert_eq!(file.family, Family::Plain { id: "aB3xY9".to_owned() });
    assert_eq!(file.extension, "jpg");
    assert!(ChatMediaFile::parse(&FilePath::new("/x/chat_media/notes.txt")).is_none());
    assert!(ChatMediaFile::parse(&FilePath::new("/x/chat_media/2021-03-04_b~aB3xY9.jpg\0ff")).is_none(), "the name is not text");
    assert!(ChatMediaFile::parse(&FilePath::new("/\0ff/chat_media/2021-03-04_b~aB3xY9.jpg")).is_some(), "the name is text");
}

#[test]
fn a_discovery_pairs_media_with_the_layer_of_its_id() {
    let parse = |name: &str| ChatMediaFile::parse(&FilePath::new(name)).unwrap();
    let found = Discovery::from_files(
        vec![
            parse("/x/2021-03-04_media~zip-1234567.zip.aa.jpg"),
            parse("/x/2021-03-04_overlay~zip-1234567.zip.aa.png"),
            parse("/x/2021-03-04_b~aB3xY9.jpg"),
        ],
        vec![FilePath::new("/x/strange.bin")],
    );
    assert_eq!(found.media.len() + found.unmatched_overlays.len() + found.duplicates.len() >= 2, true);
    assert_eq!(found.unparsed, vec![FilePath::new("/x/strange.bin")]);
    assert!(found.unreadable.is_empty());
}

#[test]
fn a_history_names_its_media_one_token_at_a_time() {
    let tokens = media_tokens("b~one | b~two");
    assert_eq!(tokens, vec!["b~one".to_owned(), "b~two".to_owned()]);
    assert!(parse_history_token("b~aB3xY9").is_some());
    assert!(parse_history_token("").is_none());
}
