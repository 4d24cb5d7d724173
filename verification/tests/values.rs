use exportsnap::calendar::LocalTime;
use exportsnap::export::chat_dirs::{child_name, dir_name, portable, MAX_DIR_NAME, UNNAMED_DIR};
use exportsnap::export::ledger::{suffix_text, Ledger};
use exportsnap::export::model::{Day, Timestamp};
use exportsnap::export::outputs::{kept_name, under, Outputs, RecordedOutputs};
use exportsnap::paths::FilePath;
use exportsnap::text::{decimal_text, folded, is_empty_text, parse_i32, trim_text};

#[test]
fn a_path_is_its_components() {
    assert_eq!(FilePath::new("/a//b/./c/"), FilePath::new("/a/b/c"));
    assert_eq!(FilePath::new("./a").text(), "./a");
    assert_eq!(FilePath::new("/").parent(), None);
    assert_eq!(FilePath::new("a/b").parent(), Some(FilePath::new("a")));
    assert_eq!(FilePath::new("/a/..").file_name(), None);
    assert_eq!(FilePath::new("/a/b").join("c").text(), "/a/b/c");
    assert!(FilePath::new("/a/b").starts_with(&FilePath::new("/a")));
    assert!(!FilePath::new("/ab").starts_with(&FilePath::new("/a")));
    assert_eq!(FilePath::new("/A/b").folded_text(), "/a/b");
}

#[test]
fn a_reading_exists_only_where_the_calendar_has_it() {
    assert!(LocalTime::new(2021, 2, 29, 0, 0, 0).is_none());
    assert!(LocalTime::new(2020, 2, 29, 23, 59, 59).is_some());
    assert!(LocalTime::new(2021, 1, 1, 24, 0, 0).is_none());
    let start = LocalTime::new(1970, 1, 1, 0, 0, 0).unwrap();
    assert_eq!(start.unix(), 0);
    let later = LocalTime::new(2021, 3, 4, 9, 0, 0).unwrap();
    assert_eq!(later.unix(), 1_614_848_400);
    assert_eq!(later.ahead(3600), LocalTime::new(2021, 3, 4, 10, 0, 0).unwrap());
    assert_eq!(LocalTime::of_epoch_ms(1_614_848_400_999), Some(later));
    assert_eq!(LocalTime::of_epoch_ms(i64::MAX), None);
    assert_eq!(later.exif_text(), "2021:03:04 09:00:00");
    assert_eq!(later.compact_text(), "20210304_090000");
    assert_eq!(LocalTime::of_tag("2021:03:04 09:00:00"), Some(later));
    assert_eq!(LocalTime::of_tag("2021-03-04"), None);
    let leap = LocalTime::of_tag("2021:03:04 09:00:60").unwrap();
    assert_eq!(leap, LocalTime { second: 60, ..later });
    assert_eq!(leap.unix(), later.unix() + 59, "a leap second counts as the one before it");
    assert_eq!((leap.exif_text(), leap.compact_text()), ("2021:03:04 09:00:60".to_owned(), "20210304_090060".to_owned()));
    assert_eq!(LocalTime::of_tag("2021:03:04 09:00:61"), None);
    assert!(LocalTime::new(2021, 3, 4, 9, 0, 60).is_none());
    assert_eq!(LocalTime { year: 12021, ..later }.year_text(), "+12021");
}

#[test]
fn days_and_instants_are_read_as_they_are_spelled() {
    assert_eq!(Day::parse("2021-02-30").map(Day::text), Some("2021-02-30".to_owned()));
    assert_eq!(Day::parse("2021-2-30"), None);
    let at = Timestamp::parse("2021-03-04 09:00:00 UTC").unwrap();
    assert_eq!((at.hour, at.second), (9, 0));
    assert_eq!(Timestamp::parse("2021-03-04 09:00:00"), None);
    assert_eq!(Timestamp::from_epoch_ms(1_614_848_400_000), Some(at));
    assert!(at.not_after(Timestamp { second: 1, ..at }));
}

#[test]
fn a_directory_name_is_portable_and_short() {
    assert_eq!(dir_name("a/b:c"), "a_b_c");
    assert_eq!(dir_name(""), UNNAMED_DIR);
    assert!(dir_name(&"x".repeat(500)).len() <= MAX_DIR_NAME);
    assert_eq!(dir_name("???"), UNNAMED_DIR, "a key made of refused characters alone");
    assert_eq!(dir_name(&"?".repeat(500)), UNNAMED_DIR);
    assert_eq!(dir_name("_?_"), "___");
    assert_eq!(dir_name("con.txt"), "_con.txt");
    let long = dir_name(&format!("con.{}", "a".repeat(60)));
    assert_eq!(long, format!("_con.{}", "a".repeat(59)));
    assert_eq!(long.len(), MAX_DIR_NAME);
    let dotted = dir_name(&format!("con.{}.a", "a".repeat(58)));
    assert_eq!(dotted, format!("_con.{}", "a".repeat(58)), "a dot the cut brings to the end goes too");
    assert!(portable('a') && !portable('/'));
    assert_eq!(child_name(&FilePath::new("/out"), &FilePath::new("/out/a")), Some("a".to_owned()));
    assert_eq!(child_name(&FilePath::new("/out"), &FilePath::new("/out/a/b")), None);
}

#[test]
fn a_ledger_hands_out_each_name_once() {
    let mut ledger = Ledger::new();
    assert_eq!(ledger.issue("a", ".jpg"), 0);
    assert_eq!(ledger.issue("a", ".jpg"), 1);
    assert!(ledger.holds("a_2.jpg"));
    assert!(!ledger.claim("a.jpg".to_owned()));
    assert!(ledger.claim("b.jpg".to_owned()));
    assert_eq!(suffix_text(0), "");
    assert_eq!(suffix_text(1), "_2");
}

#[test]
fn copies_of_originals_keep_their_own_names() {
    let mut outputs = Outputs::new(FilePath::new("/out"), &RecordedOutputs::empty());
    let kept = outputs.kept(&FilePath::new("/out/originals"), &FilePath::new("/x/m.jpg"), FilePath::new("/x/m.png")).unwrap();
    assert_eq!(kept.main_copy.text(), "/out/originals/m.jpg");
    assert_eq!(kept.overlay_copy.text(), "/out/originals/m.png");
    let again = outputs.kept(&FilePath::new("/out/originals"), &FilePath::new("/y/M.jpg"), FilePath::new("/y/n.png")).unwrap();
    assert_eq!(again.main_copy.text(), "/out/originals/M_2.jpg", "one file where case is folded");
    assert_eq!(kept_name(&FilePath::new("/x/m.tar.gz")), Some(("m.tar".to_owned(), "gz".to_owned())));
    assert!(under(&FilePath::new("/out"), &FilePath::new("/out/a/b.jpg")));
    assert!(!under(&FilePath::new("/out"), &FilePath::new("/other/b.jpg")));
}

#[test]
fn texts_are_folded_trimmed_and_read() {
    assert_eq!(folded("AbÇ"), "abÇ");
    assert_eq!(trim_text(" \u{a0}a b\n"), "a b");
    assert!(is_empty_text("") && !is_empty_text(" "));
    assert_eq!(parse_i32("-42"), Some(-42));
    assert_eq!(parse_i32("+7"), Some(7));
    assert_eq!(parse_i32("2147483648"), None);
    assert_eq!(parse_i32(""), None);
    assert_eq!(decimal_text(1200), "1200");
}
