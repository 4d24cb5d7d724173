use exportsnap::config::{load, serialize, Config, ConfigError, ConfigPath, ConfigText, Tier};
use exportsnap::export::chat_fix::OverlayMode;

const FILE: &str = "/c/config.toml";

fn loaded(text: &str) -> Result<Config, ConfigError> {
    load(FILE, ConfigText::Text(text.to_owned()))
}

fn path() -> String {
    FILE.to_owned()
}

fn full() -> Config {
    Config {
        theme: Some(Tier::Compatible),
        out_dir: Some(ConfigPath::Text("/out \"quoted\"".to_owned())),
        ffmpeg_path: Some(ConfigPath::Text("/usr/bin/ffmpeg".to_owned())),
        transcode: Some(false),
        overlay_mode: Some(OverlayMode::Originals),
    }
}

#[test]
fn an_absent_or_empty_file_sets_nothing() {
    assert_eq!(load(FILE, ConfigText::Absent), Ok(Config::default()));
    assert_eq!(loaded(""), Ok(Config::default()));
}

#[test]
fn every_key_is_read() {
    let text = "out_dir = \"/out\"\nffmpeg_path = \"/bin/ff\"\ntranscode = true\noverlay_mode = \"merged\"\n[theme]\nname = \"full\"\n";
    assert_eq!(
        loaded(text),
        Ok(Config {
            theme: Some(Tier::Full),
            out_dir: Some(ConfigPath::Text("/out".to_owned())),
            ffmpeg_path: Some(ConfigPath::Text("/bin/ff".to_owned())),
            transcode: Some(true),
            overlay_mode: Some(OverlayMode::Merged),
        })
    );
}

#[test]
fn what_is_written_is_read_back() {
    let text = serialize(FILE, &full()).unwrap();
    assert!(text.contains("[theme]"), "{text}");
    assert_eq!(loaded(&text), Ok(full()));
    let nothing = serialize(FILE, &Config::default()).unwrap();
    assert_eq!(loaded(&nothing), Ok(Config::default()));
}

#[test]
fn what_a_file_may_not_say_is_named() {
    let unreadable = load(FILE, ConfigText::Unreadable { source: "denied".to_owned() });
    assert_eq!(unreadable, Err(ConfigError::Read { path: path(), source: "denied".to_owned() }));
    assert!(matches!(loaded("= broken"), Err(ConfigError::Toml { .. })));
    assert_eq!(loaded("outdir = 1"), Err(ConfigError::UnknownKey { path: path(), key: "outdir".to_owned() }));
    assert_eq!(loaded("[theme]\nnome = \"full\""), Err(ConfigError::UnknownThemeKey { path: path(), key: "nome".to_owned() }));
    assert!(matches!(loaded("[theme]"), Err(ConfigError::MissingKey { .. })));
    assert_eq!(loaded("[theme]\nname = \"loud\""), Err(ConfigError::UnknownTheme { path: path(), value: "loud".to_owned() }));
    assert_eq!(loaded("overlay_mode = \"most\""), Err(ConfigError::UnknownOverlayMode { path: path(), value: "most".to_owned() }));
    assert_eq!(loaded("out_dir = \"\""), Err(ConfigError::EmptyPath { path: path(), key: "out_dir".to_owned() }));
    match loaded("transcode = \"yes\"") {
        Err(ConfigError::WrongType { key, got, .. }) => assert_eq!((key.as_str(), got.as_str()), ("transcode", "a string")),
        other => panic!("{other:?}"),
    }
    match loaded("out_dir = 3") {
        Err(ConfigError::WrongType { key, got, .. }) => assert_eq!((key.as_str(), got.as_str()), ("out_dir", "an integer")),
        other => panic!("{other:?}"),
    }
}

#[test]
fn a_path_no_text_can_hold_is_refused() {
    let shown = "/out/\u{fffd}".to_owned();
    let strange = Config { out_dir: Some(ConfigPath::NotUtf8 { shown: shown.clone(), known_as: "the odd one".to_owned() }), ..Config::default() };
    assert_eq!(
        serialize(FILE, &strange),
        Err(ConfigError::PathNotUtf8 { path: path(), key: "out_dir".to_owned(), value: shown })
    );
    let empty = Config { ffmpeg_path: Some(ConfigPath::Text(String::new())), ..Config::default() };
    assert_eq!(serialize(FILE, &empty), Err(ConfigError::EmptyPath { path: path(), key: "ffmpeg_path".to_owned() }));
}

#[test]
fn every_failure_names_the_file() {
    let word = || "w".to_owned();
    for error in [
        ConfigError::Read { path: path(), source: word() },
        ConfigError::Toml { path: path(), source: word() },
        ConfigError::UnknownKey { path: path(), key: word() },
        ConfigError::UnknownThemeKey { path: path(), key: word() },
        ConfigError::MissingKey { path: path(), key: word(), expected: word() },
        ConfigError::WrongType { path: path(), key: word(), expected: word(), got: word() },
        ConfigError::UnknownTheme { path: path(), value: word() },
        ConfigError::UnknownOverlayMode { path: path(), value: word() },
        ConfigError::EmptyPath { path: path(), key: word() },
        ConfigError::PathNotUtf8 { path: path(), key: word(), value: word() },
        ConfigError::Serialize { path: path(), source: word() },
        ConfigError::Write { path: path(), source: word() },
    ] {
        assert!(error.message().contains(FILE), "{}", error.message());
    }
    let said = ConfigError::UnknownKey { path: path(), key: "a\"b".to_owned() }.message();
    assert!(said.contains("unknown key \"a\\\"b\""), "{said}");
}

#[test]
fn names_and_tiers_go_both_ways() {
    for tier in [Tier::Full, Tier::Compatible] {
        assert_eq!(Tier::from_name(tier.as_name()), Some(tier));
    }
    assert_eq!(Tier::from_name("FULL"), None);
    let mut seen = Vec::new();
    let mut mode = OverlayMode::default();
    for _ in 0..3 {
        seen.push(mode.as_word());
        assert!(mode.composites() || mode.keeps_originals(), "no mode loses a caption");
        mode = mode.next();
    }
    assert_eq!(mode, OverlayMode::Both);
    seen.sort_unstable();
    assert_eq!(seen, vec!["both", "merged", "originals"]);
}
