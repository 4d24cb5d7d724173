use std::cell::RefCell;

use exportsnap::app::{App, Key, KeyCode, KeyKind, Modal, Modifiers, ScreenAnswer, Step};
use exportsnap::config::{Config, ConfigPath, Tier};
use exportsnap::env::{Environment, Room, Tool};
use exportsnap::export::chat_fix::OverlayMode;
use exportsnap::paths::FilePath;
use exportsnap::screens::{HelpRow, Pane, RunAlert, RunDefaults, SettingsLayers, TabActivity};
use exportsnap::tab::Tab;

fn nowhere(_: &FilePath) -> Room {
    Room { available: None, total: None }
}

fn started() -> App {
    App::start_with(
        Tier::Full,
        "/nope".to_owned(),
        RunDefaults::resolve(None, &Config::default(), "/nope"),
        SettingsLayers::unset(),
        |_: Tool| None,
        |_: &FilePath| false,
        nowhere,
    )
}

fn key(code: KeyCode) -> Key {
    Key { code, modifiers: Modifiers { shift: false, control: false, alt: false, rest: false } }
}

fn press(app: &mut App, c: char) -> Step {
    app.handle_key(key(KeyCode::Char(c)), 0)
}

#[test]
fn startup_walks_path_once_per_tool() {
    let walks = RefCell::new(Vec::new());
    let app = App::start_with(
        Tier::Full,
        "/nope".to_owned(),
        RunDefaults::resolve(None, &Config::default(), "/nope"),
        SettingsLayers::unset(),
        |tool: Tool| {
            walks.borrow_mut().push(tool);
            Some(FilePath::new(&format!("/located/{}", tool.command())))
        },
        |path: &FilePath| path.text() == "/",
        |path: &FilePath| if path.text() == "/" { Room { available: Some(5), total: Some(9) } } else { nowhere(path) },
    );
    let walks = walks.into_inner();
    assert_eq!(walks.len(), Tool::ALL.len(), "one walk per tool and no more: {walks:?}");
    for tool in Tool::ALL {
        assert_eq!(walks.iter().filter(|walked| **walked == tool).count(), 1, "{tool:?} is looked up exactly once");
    }
    for environment in [app.overview().environment(), app.memories().environment(), app.chat_media().environment()] {
        assert_eq!(environment.ffmpeg, Some(FilePath::new("/located/ffmpeg")), "that one probe reaches every screen");
    }
    let overview_space = app.overview().environment().available_space;
    assert_eq!(overview_space, None, "the overview measures the source dir, which is absent");
    assert!(app.memories().environment().available_space.is_some(), "the media screens measure the output root");
    assert!(app.chat_media().environment().available_space.is_some(), "the media screens measure the output root");
}

#[test]
fn a_config_ffmpeg_path_beats_the_probe() {
    let walks = RefCell::new(Vec::new());
    let defaults = RunDefaults {
        out_root: "/nope/exportsnap-out".to_owned(),
        ffmpeg: Some(FilePath::new("/usr/bin/ffmpeg")),
        transcode: true,
        overlay_mode: OverlayMode::Both,
    };
    let app = App::start_with(
        Tier::Full,
        "/nope".to_owned(),
        defaults,
        SettingsLayers::unset(),
        |tool: Tool| {
            walks.borrow_mut().push(tool);
            Some(FilePath::new(&format!("/probed/{}", tool.command())))
        },
        |_: &FilePath| false,
        nowhere,
    );
    for environment in [app.overview().environment(), app.memories().environment(), app.chat_media().environment()] {
        assert_eq!(
            environment.ffmpeg,
            Some(FilePath::new("/usr/bin/ffmpeg")),
            "the config's ffmpeg_path must beat the probe on every screen"
        );
    }
    assert_eq!(walks.into_inner().len(), Tool::ALL.len(), "the probe still runs once per tool");
    assert_eq!(app.settings().detected_ffmpeg, Some(FilePath::new("/probed/ffmpeg")), "the settings still show what was found");
}

fn committed(config: &mut Config) {
    config.out_dir = Some(ConfigPath::Text("/committed/out".to_owned()));
}

#[test]
fn a_reprobe_reads_the_settings_screens_live_config() {
    let mut app = started();
    committed(&mut app.settings_mut().config);
    app.reprobe_source("/nope".to_owned(), |_: Tool| None, |_: &FilePath| false, nowhere);
    let (_, out) = app.memories().run_paths();
    assert_eq!(out, "/committed/out", "the committed out_dir must reach the run screens");
}

#[test]
fn a_committed_setting_reaches_the_run_screens_without_a_reprobe() {
    let mut app = started();
    app.switch_to(Tab::Settings);
    let settings = app.settings_mut();
    committed(&mut settings.config);
    settings.config.transcode = Some(false);
    settings.config.overlay_mode = Some(OverlayMode::Originals);
    settings.config.ffmpeg_path = Some(ConfigPath::Text("/committed/ffmpeg".to_owned()));
    let enter = key(KeyCode::Enter);
    assert!(matches!(app.handle_key(enter, 0), Step::Ask));
    assert!(matches!(app.screen_answered(enter, ScreenAnswer::Committed { consumed: true }), Step::Settled));

    assert_eq!(app.memories().run_paths().1, "/committed/out", "out_dir reaches the memories root");
    assert_eq!(app.chat_media().run_paths().1, "/committed/out", "out_dir reaches the chat root");
    assert_eq!(app.history().run_paths().1, "/committed/out", "out_dir reaches the history root");
    assert!(!app.memories().is_transcode_on(), "transcode reaches the memories screen");
    assert!(!app.chat_media().is_transcode_on(), "transcode reaches the chat screen");
    assert_eq!(app.chat_media().overlay_mode(), OverlayMode::Originals, "overlay mode reaches the chat screen");
    let ffmpeg = Some(FilePath::new("/committed/ffmpeg"));
    assert_eq!(app.memories().environment().ffmpeg, ffmpeg, "ffmpeg path reaches the memories screen");
    assert_eq!(app.chat_media().environment().ffmpeg, ffmpeg, "ffmpeg path reaches the chat screen");
}

#[test]
fn a_settings_commit_preserves_a_per_run_form_override() {
    let mut app = started();
    let memories = app.memories_mut();
    memories.transcode = false;
    memories.transcode_set = true;
    let chat = app.chat_media_mut();
    chat.overlay_mode = OverlayMode::Originals;
    chat.overlay_set = true;
    app.switch_to(Tab::Settings);
    committed(&mut app.settings_mut().config);
    app.screen_answered(key(KeyCode::Enter), ScreenAnswer::Committed { consumed: true });

    assert_eq!(app.memories().run_paths().1, "/committed/out", "out_dir reaches the memories root");
    assert!(!app.memories().is_transcode_on(), "the per-run transcode override survives an out_dir commit");
    assert_eq!(app.chat_media().overlay_mode(), OverlayMode::Originals, "the per-run overlay override survives an out_dir commit");
}

#[test]
fn the_defaults_follow_the_flag_then_the_file_then_the_source() {
    let mut config = Config::default();
    let derived = RunDefaults::resolve(None, &config, "/export");
    assert_eq!(derived.out_root, "/export/exportsnap-out");
    assert_eq!((derived.transcode, derived.overlay_mode, derived.ffmpeg), (true, OverlayMode::Both, None));
    assert_eq!(RunDefaults::resolve(None, &config, "").out_root, "exportsnap-out");
    assert_eq!(RunDefaults::resolve(None, &config, "/export/").out_root, "/export/exportsnap-out");
    committed(&mut config);
    assert_eq!(RunDefaults::resolve(None, &config, "/export").out_root, "/committed/out");
    assert_eq!(RunDefaults::resolve(Some("/flag"), &config, "/export").out_root, "/flag");
    config.out_dir = Some(ConfigPath::NotUtf8 { shown: "/out/\u{fffd}".to_owned(), known_as: "the odd one".to_owned() });
    assert_eq!(RunDefaults::resolve(None, &config, "/export").out_root, "the odd one", "a path with no text is kept, not respelled");
}

#[test]
fn leaving_takes_two_presses_and_any_other_key_disarms() {
    let mut app = started();
    press(&mut app, 'q');
    assert!(app.is_quit_armed() && app.is_running());
    assert!(matches!(press(&mut app, 'z'), Step::Ask));
    assert!(!app.is_quit_armed());
    press(&mut app, 'Q');
    press(&mut app, 'q');
    assert!(!app.is_running());
}

#[test]
fn the_interrupt_leaves_at_once_and_the_copy_chord_does_not() {
    let mut app = started();
    let chord = |shift| Key { code: KeyCode::Char('c'), modifiers: Modifiers { shift, control: true, alt: true, rest: false } };
    app.handle_key(chord(true), 0);
    assert!(app.is_running());
    app.handle_key(chord(false), 0);
    assert!(!app.is_running());
}

#[test]
fn q_steps_back_up_before_it_quits() {
    let mut app = started();
    app.switch_to(Tab::Account);
    app.account_mut().descended = true;
    assert!(app.descended());
    assert!(matches!(press(&mut app, 'q'), Step::Ascend(Tab::Account)));
    assert!(!app.is_quit_armed());
}

#[test]
fn letters_belong_to_a_screen_that_takes_text() {
    let mut app = started();
    app.overview_mut().editing = true;
    app.settings_mut().toast = true;
    for c in ['q', 'a', '?', 'x'] {
        assert!(matches!(press(&mut app, c), Step::Ask), "{c}");
    }
    assert!(app.settings().toast);
}

fn busy() -> Pane {
    Pane {
        alert: None,
        descended: false,
        actions: vec!["start", "stop", "clear"],
        hotkeys: vec![Some('s'), Some('t'), None],
        help_keys: vec![HelpRow { keys: "space", what: "toggle" }],
        in_flight: true,
    }
}

fn selected(app: &App) -> Option<usize> {
    match app.modal() {
        Some(Modal::ActionMenu(menu)) => Some(menu.selected),
        _ => None,
    }
}

#[test]
fn the_action_menu_goes_round_and_picks() {
    let mut app = started();
    press(&mut app, 'a');
    assert!(app.modal().is_none(), "the overview offers nothing");
    app.switch_to(Tab::Memories);
    app.memories_mut().pane = busy();
    assert!(app.has_actions());
    press(&mut app, 'A');
    assert_eq!(selected(&app), Some(0));
    app.handle_key(key(KeyCode::Up), 0);
    assert_eq!(selected(&app), Some(2));
    app.handle_key(key(KeyCode::Down), 0);
    app.handle_key(key(KeyCode::Down), 0);
    assert_eq!(selected(&app), Some(1));
    assert!(matches!(press(&mut app, 'z'), Step::Settled), "an unassigned key is inert");
    assert!(matches!(app.handle_key(key(KeyCode::Enter), 0), Step::Act(Tab::Memories, "stop")));
    assert!(app.modal().is_none());
    press(&mut app, 'a');
    assert!(matches!(press(&mut app, 'S'), Step::Act(Tab::Memories, "start")), "hotkeys take no notice of case");
    press(&mut app, 'a');
    app.handle_key(key(KeyCode::Esc), 0);
    assert!(app.modal().is_none());
}

#[test]
fn the_help_scrolls_as_far_as_its_text() {
    let mut app = started();
    press(&mut app, '?');
    assert_eq!(app.modal(), Some(&Modal::Help { scroll: 0 }));
    for _ in 0..5 {
        app.handle_key(key(KeyCode::Down), 2);
    }
    assert_eq!(app.modal(), Some(&Modal::Help { scroll: 2 }));
    app.handle_key(key(KeyCode::Up), 2);
    assert_eq!(app.modal(), Some(&Modal::Help { scroll: 1 }));
    app.handle_key(key(KeyCode::Left), 2);
    assert_eq!(app.active(), Tab::Overview, "no tab switch while it is open");
    press(&mut app, 'q');
    assert!(app.modal().is_none() && !app.is_quit_armed());
}

#[test]
fn a_dismissal_reaches_the_toast_before_the_alert_even_under_the_help() {
    let mut app = started();
    app.switch_to(Tab::History);
    app.history_mut().pane.alert = Some(RunAlert { text: "done".to_owned(), kind: TabActivity::Finished });
    app.settings_mut().toast = true;
    press(&mut app, '?');
    press(&mut app, 'x');
    assert!(!app.settings().toast && app.alert().is_some());
    press(&mut app, 'X');
    assert!(app.alert().is_none() && app.modal().is_some());
    assert!(matches!(press(&mut app, 'x'), Step::Settled), "with nothing showing it is the help's");
}

#[test]
fn a_key_a_screen_leaves_alone_moves_between_tabs() {
    let mut app = started();
    let mut pass = |app: &mut App, key: Key| {
        assert!(matches!(app.handle_key(key, 0), Step::Ask));
        app.screen_answered(key, ScreenAnswer::Unhandled)
    };
    pass(&mut app, key(KeyCode::Left));
    assert_eq!(app.active(), Tab::Settings);
    pass(&mut app, key(KeyCode::Right));
    assert_eq!(app.active(), Tab::Overview);
    let jump = |c| Key { code: KeyCode::Char(c), modifiers: Modifiers { shift: false, control: false, alt: true, rest: false } };
    assert!(matches!(pass(&mut app, jump('3')), Step::Ascend(Tab::Overview)));
    assert_eq!(app.active(), Tab::ChatMedia);
    pass(&mut app, jump('9'));
    assert_eq!(app.active(), Tab::Settings);
    assert!(matches!(pass(&mut app, jump('0')), Step::Settled));
    assert!(matches!(pass(&mut app, jump('7')), Step::Settled));
    assert_eq!(app.active(), Tab::Settings);
    let right = key(KeyCode::Right);
    app.handle_key(right, 0);
    app.screen_answered(right, ScreenAnswer::Consumed);
    assert_eq!(app.active(), Tab::Settings);
    assert!(matches!(app.screen_answered(right, ScreenAnswer::Moved { source: "/x".to_owned() }), Step::Reprobe(path) if path == "/x"));
}

#[test]
fn tabs_are_reached_by_the_digit_they_show() {
    for tab in Tab::ALL {
        let digit = tab.jump_index().unwrap();
        assert_eq!(Tab::from_jump_digit(u32::from(digit)), Some(tab));
        assert_eq!(tab.next().previous(), tab);
    }
    assert_eq!(Tab::from_jump_digit(9), Some(Tab::Settings));
    assert_eq!(Tab::from_jump_digit(0), None);
    assert_eq!(Tab::from_jump_digit(8), None);
    assert_eq!(Tab::ChatMedia.label(), "chat media");
}

#[test]
fn a_run_that_ends_out_of_sight_marks_its_tab_until_it_is_visited() {
    let mut app = started();
    let ended = || Pane { alert: Some(RunAlert { text: "done".to_owned(), kind: TabActivity::Failed }), ..Pane::default() };
    app.tick(ended(), Pane::default(), busy(), false);
    assert_eq!(app.activity()[Tab::Memories.index()], Some(TabActivity::Failed));
    assert_eq!(app.activity()[Tab::ChatMedia.index()], None);
    assert!(app.awaits_tick());
    app.switch_to(Tab::Memories);
    assert_eq!(app.activity()[Tab::Memories.index()], None);
    app.switch_to(Tab::Overview);
    app.tick(ended(), Pane::default(), Pane::default(), false);
    assert_eq!(app.activity()[Tab::Memories.index()], None, "an alert that was there already marks nothing");
    assert!(!app.awaits_tick());
    assert_eq!(app.screen_alert(Tab::Memories).map(RunAlert::activity), Some(TabActivity::Failed));
}

#[test]
fn the_alt_key_alone_shows_the_digits_and_a_release_types_nothing() {
    let mut app = started();
    app.handle_event(key(KeyCode::Alt), KeyKind::Press, 0);
    assert!(app.alt_held());
    app.handle_event(key(KeyCode::Alt), KeyKind::Release, 0);
    assert!(!app.alt_held());
    app.handle_event(key(KeyCode::Char('q')), KeyKind::Release, 0);
    assert!(!app.is_quit_armed());
    app.handle_event(key(KeyCode::Char('q')), KeyKind::Repeat, 0);
    assert!(app.is_quit_armed());
}

#[test]
fn the_help_lists_the_keys_of_the_screen_in_front() {
    let mut app = started();
    assert_eq!(app.help_sections().len(), 1);
    assert_eq!(app.help_sections()[0].rows.len(), 5);
    app.switch_to(Tab::Memories);
    app.memories_mut().pane = busy();
    let sections = app.help_sections();
    assert_eq!(sections[1].title, "memories");
    assert_eq!(sections[1].rows[0].keys, "space");
}

#[test]
fn the_report_quotes_every_screens_own_paths() {
    let mut app = started().with_source_environment(
        "/a\nb".to_owned(),
        RunDefaults::resolve(Some("/out"), &Config::default(), "/a"),
        Environment::default(),
    );
    app.overview_mut().report = "parts=one\n".to_owned();
    assert_eq!(
        app.source_report(),
        "parts=one\nmemories-source=\"/a\\nb\"\nmemories-out=\"/out\"\nchat-source=\"/a\\nb\"\nchat-out=\"/out\"\nhistory-source=\"/a\\nb\"\nhistory-out=\"/out\"\naccount-source=\"/a\\nb\"\n"
    );
    assert_eq!(app.palette(), Tier::Full);
}

#[test]
fn a_path_in_the_report_is_escaped_as_paths_are_and_never_breaks_its_line() {
    let source = "/it's a \"dir\"\nparts=two\r";
    let mut app = started().with_source_environment(
        source.to_owned(),
        RunDefaults::resolve(Some("/out"), &Config::default(), source),
        Environment::default(),
    );
    app.overview_mut().report = String::new();
    let report = app.source_report();
    assert_eq!(report.lines().count(), 7);
    assert_eq!(report.lines().next(), Some(format!("memories-source={:?}", std::path::Path::new(source)).as_str()));
    assert!(report.contains("a \\\"dir\\\"\\nparts=two\\r\"\n"), "{report}");
    assert!(report.ends_with('\n'));
}
