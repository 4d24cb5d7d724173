//! What the shell knows of each screen: the values a run is started with, and what the screen
//! last said of itself.

use vstd::prelude::*;

use crate::config::{path_setting, Config, ConfigPath, ConfigPathView, ConfigView};
use crate::env::{opt_path, Environment, EnvironmentView};
use crate::export::chat_fix::OverlayMode;
use crate::export::local_fix::OUT_DIR;
use crate::paths::{path_of, FilePath, PathView};
use crate::text::{chars_of, join2, join3, opt_view};

verus! {

// ---- the values a run is started with ----

/// The text of a path a step below another.
pub open spec fn spelled_under(dir: Seq<char>, name: Seq<char>) -> Seq<char> {
    if dir.len() == 0 || dir.last() == '/' {
        dir + name
    } else {
        dir + "/"@ + name
    }
}

/// The text of a setting's path; the one it is known by where it has none.
pub open spec fn setting_text(path: ConfigPathView) -> Seq<char> {
    match path {
        ConfigPathView::Text(text) => text,
        ConfigPathView::NotUtf8 { shown: _, known_as } => known_as,
    }
}

pub open spec fn opt_setting_path(path: Option<ConfigPathView>) -> Option<PathView> {
    match path {
        Some(path) => Some(path_of(setting_text(path))),
        None => None,
    }
}

/// The values every run is started with until a form says otherwise.
#[derive(Debug, PartialEq, Eq)]
pub struct RunDefaults {
    /// Where every leg writes.
    pub out_root: String,
    /// The settings file's own ffmpeg, which beats the one that is found.
    pub ffmpeg: Option<FilePath>,
    pub transcode: bool,
    pub overlay_mode: OverlayMode,
}

#[verifier::ext_equal]
pub struct RunDefaultsView {
    pub out_root: Seq<char>,
    pub ffmpeg: Option<PathView>,
    pub transcode: bool,
    pub overlay_mode: OverlayMode,
}

impl View for RunDefaults {
    type V = RunDefaultsView;

    open spec fn view(&self) -> RunDefaultsView {
        RunDefaultsView {
            out_root: self.out_root@,
            ffmpeg: opt_path(self.ffmpeg),
            transcode: self.transcode,
            overlay_mode: self.overlay_mode,
        }
    }
}

/// The flag first, then the settings file, then what is derived from the source: the output root a
/// directory beside the export's own files, every video re-encoded, captions both burned in and
/// left off.
pub open spec fn defaults_of(cli_out: Option<Seq<char>>, config: ConfigView, source: Seq<char>) -> RunDefaultsView {
    RunDefaultsView {
        out_root: match cli_out {
            Some(out) => out,
            None => match config.out_dir {
                Some(out) => setting_text(out),
                None => spelled_under(source, OUT_DIR@),
            },
        },
        ffmpeg: opt_setting_path(config.ffmpeg_path),
        transcode: match config.transcode {
            Some(on) => on,
            None => true,
        },
        overlay_mode: match config.overlay_mode {
            Some(mode) => mode,
            None => OverlayMode::Both,
        },
    }
}

fn text_of_setting(path: &ConfigPath) -> (r: String)
    ensures
        r@ == setting_text(path@),
{
    match path {
        ConfigPath::Text(text) => text.clone(),
        ConfigPath::NotUtf8 { shown: _, known_as } => known_as.clone(),
    }
}

fn path_of_setting(path: &Option<ConfigPath>) -> (r: Option<FilePath>)
    ensures
        opt_path(r) == opt_setting_path(path_setting(*path)),
{
    match path {
        Some(path) => Some(FilePath::new(&text_of_setting(path))),
        None => None,
    }
}

fn text_under(dir: &str, name: &str) -> (r: String)
    ensures
        r@ == spelled_under(dir@, name@),
{
    let chars = chars_of(dir);
    if chars.len() == 0 || chars[chars.len() - 1] == '/' {
        join2(dir, name)
    } else {
        join3(dir, "/", name)
    }
}

impl RunDefaults {
    #[must_use]
    pub fn resolve(cli_out: Option<&str>, config: &Config, source: &str) -> (r: Self)
        ensures
            r@ == defaults_of(
                match cli_out {
                    Some(out) => Some(out@),
                    None => None,
                },
                config@,
                source@,
            ),
    {
        let out_root = match cli_out {
            Some(out) => out.to_owned(),
            None => match &config.out_dir {
                Some(out) => text_of_setting(out),
                None => text_under(source, OUT_DIR),
            },
        };
        RunDefaults {
            out_root,
            ffmpeg: path_of_setting(&config.ffmpeg_path),
            transcode: match config.transcode {
                Some(on) => on,
                None => true,
            },
            overlay_mode: match config.overlay_mode {
                Some(mode) => mode,
                None => OverlayMode::Both,
            },
        }
    }
}

// ---- what a screen says of itself ----

/// How a run that ended off screen colors its tab.
#[derive(Debug, Clone, Copy, PartialEq, Eq, Structural)]
pub enum TabActivity {
    Finished,
    Failed,
}

/// The line a finished run leaves in the footer until it is dismissed.
#[derive(Debug, PartialEq, Eq)]
pub struct RunAlert {
    pub text: String,
    pub kind: TabActivity,
}

impl RunAlert {
    #[must_use]
    pub fn activity(&self) -> (r: TabActivity)
        ensures
            r == self.kind,
    {
        self.kind
    }
}

/// A key and what it does, as the help lists it.
#[derive(Debug, Clone, Copy, PartialEq, Eq)]
pub struct HelpRow {
    pub keys: &'static str,
    pub what: &'static str,
}

/// What a screen that drives runs last said of itself.
#[derive(Debug, PartialEq, Eq)]
pub struct Pane {
    pub alert: Option<RunAlert>,
    /// Whether the caret stands in the pane below the form.
    pub descended: bool,
    /// What the screen can be asked to do, and the hotkey each was given.
    pub actions: Vec<&'static str>,
    pub hotkeys: Vec<Option<char>>,
    pub help_keys: Vec<HelpRow>,
    pub in_flight: bool,
}

#[verifier::ext_equal]
pub struct PaneView {
    pub alert: Option<RunAlert>,
    pub descended: bool,
    pub actions: Seq<&'static str>,
    pub hotkeys: Seq<Option<char>>,
    pub help_keys: Seq<HelpRow>,
    pub in_flight: bool,
}

impl View for Pane {
    type V = PaneView;

    open spec fn view(&self) -> PaneView {
        PaneView {
            alert: self.alert,
            descended: self.descended,
            actions: self.actions@,
            hotkeys: self.hotkeys@,
            help_keys: self.help_keys@,
            in_flight: self.in_flight,
        }
    }
}

/// The pane of a screen that has said nothing yet.
pub open spec fn silent() -> PaneView {
    PaneView {
        alert: None,
        descended: false,
        actions: Seq::empty(),
        hotkeys: Seq::empty(),
        help_keys: Seq::empty(),
        in_flight: false,
    }
}

impl Default for Pane {
    fn default() -> (r: Self)
        ensures
            r@ == silent(),
    {
        Pane { alert: None, descended: false, actions: Vec::new(), hotkeys: Vec::new(), help_keys: Vec::new(), in_flight: false }
    }
}

// ---- the screens ----

/// The first screen: the source and the machine.
#[derive(Debug, PartialEq, Eq)]
pub struct Overview {
    pub environment: Environment,
    pub editing: bool,
    /// What the screen reports of the source, line by line.
    pub report: String,
}

#[verifier::ext_equal]
pub struct OverviewView {
    pub environment: EnvironmentView,
    pub editing: bool,
    pub report: Seq<char>,
}

impl View for Overview {
    type V = OverviewView;

    open spec fn view(&self) -> OverviewView {
        OverviewView { environment: self.environment@, editing: self.editing, report: self.report@ }
    }
}

impl Overview {
    #[must_use]
    pub fn environment(&self) -> (r: &Environment)
        ensures
            *r == self.environment,
    {
        &self.environment
    }
}

/// The memories form. A value the form itself set stays when the defaults move.
#[derive(Debug, PartialEq, Eq)]
pub struct Memories {
    pub source: String,
    pub out_root: String,
    pub environment: Environment,
    pub transcode: bool,
    pub transcode_set: bool,
    pub pane: Pane,
}

#[verifier::ext_equal]
pub struct MemoriesView {
    pub source: Seq<char>,
    pub out_root: Seq<char>,
    pub environment: EnvironmentView,
    pub transcode: bool,
    pub transcode_set: bool,
    pub pane: PaneView,
}

impl View for Memories {
    type V = MemoriesView;

    open spec fn view(&self) -> MemoriesView {
        MemoriesView {
            source: self.source@,
            out_root: self.out_root@,
            environment: self.environment@,
            transcode: self.transcode,
            transcode_set: self.transcode_set,
            pane: self.pane@,
        }
    }
}

impl Memories {
    pub fn with_environment(source: String, out_root: String, environment: Environment, transcode: bool) -> (r: Self)
        ensures
            r@ == (MemoriesView {
                source: source@,
                out_root: out_root@,
                environment: environment@,
                transcode,
                transcode_set: false,
                pane: silent(),
            }),
    {
        Memories { source, out_root, environment, transcode, transcode_set: false, pane: Pane::default() }
    }

    #[must_use]
    pub fn environment(&self) -> (r: &Environment)
        ensures
            *r == self.environment,
    {
        &self.environment
    }

    /// The source and the output root the next run is given.
    #[must_use]
    pub fn run_paths(&self) -> (r: (&str, &str))
        ensures
            r.0@ == self.source@,
            r.1@ == self.out_root@,
    {
        (self.source.as_str(), self.out_root.as_str())
    }

    #[must_use]
    pub fn is_transcode_on(&self) -> (r: bool)
        ensures
            r == self.transcode,
    {
        self.transcode
    }

    /// Moves the form to new defaults, but for what it set itself.
    pub fn apply_run_defaults(&mut self, out_root: String, ffmpeg: Option<FilePath>, transcode: bool)
        ensures
            final(self)@ == old(self)@.moved_to(out_root@, opt_path(ffmpeg), transcode),
    {
        self.out_root = out_root;
        self.environment.ffmpeg = ffmpeg;
        if !self.transcode_set {
            self.transcode = transcode;
        }
    }
}

impl MemoriesView {
    pub open spec fn moved_to(self, out_root: Seq<char>, ffmpeg: Option<PathView>, transcode: bool) -> MemoriesView {
        MemoriesView {
            out_root,
            environment: EnvironmentView { ffmpeg, ..self.environment },
            transcode: if self.transcode_set {
                self.transcode
            } else {
                transcode
            },
            ..self
        }
    }
}

/// The chat media form. A value the form itself set stays when the defaults move.
#[derive(Debug, PartialEq, Eq)]
pub struct ChatMedia {
    pub source: String,
    pub out_root: String,
    pub environment: Environment,
    pub transcode: bool,
    pub transcode_set: bool,
    pub overlay_mode: OverlayMode,
    pub overlay_set: bool,
    pub pane: Pane,
}

#[verifier::ext_equal]
pub struct ChatMediaView {
    pub source: Seq<char>,
    pub out_root: Seq<char>,
    pub environment: EnvironmentView,
    pub transcode: bool,
    pub transcode_set: bool,
    pub overlay_mode: OverlayMode,
    pub overlay_set: bool,
    pub pane: PaneView,
}

impl View for ChatMedia {
    type V = ChatMediaView;

    open spec fn view(&self) -> ChatMediaView {
        ChatMediaView {
            source: self.source@,
            out_root: self.out_root@,
            environment: self.environment@,
            transcode: self.transcode,
            transcode_set: self.transcode_set,
            overlay_mode: self.overlay_mode,
            overlay_set: self.overlay_set,
            pane: self.pane@,
        }
    }
}

impl ChatMedia {
    pub fn with_environment(
        source: String,
        out_root: String,
        environment: Environment,
        transcode: bool,
        overlay_mode: OverlayMode,
    ) -> (r: Self)
        ensures
            r@ == (ChatMediaView {
                source: source@,
                out_root: out_root@,
                environment: environment@,
                transcode,
                transcode_set: false,
                overlay_mode,
                overlay_set: false,
                pane: silent(),
            }),
    {
        ChatMedia {
            source,
            out_root,
            environment,
            transcode,
            transcode_set: false,
            overlay_mode,
            overlay_set: false,
            pane: Pane::default(),
        }
    }

    #[must_use]
    pub fn environment(&self) -> (r: &Environment)
        ensures
            *r == self.environment,
    {
        &self.environment
    }

    /// The source and the output root the next run is given.
    #[must_use]
    pub fn run_paths(&self) -> (r: (&str, &str))
        ensures
            r.0@ == self.source@,
            r.1@ == self.out_root@,
    {
        (self.source.as_str(), self.out_root.as_str())
    }

    #[must_use]
    pub fn is_transcode_on(&self) -> (r: bool)
        ensures
            r == self.transcode,
    {
        self.transcode
    }

    #[must_use]
    pub fn overlay_mode(&self) -> (r: OverlayMode)
        ensures
            r == self.overlay_mode,
    {
        self.overlay_mode
    }

    /// Moves the form to new defaults, but for what it set itself.
    pub fn apply_run_defaults(&mut self, out_root: String, ffmpeg: Option<FilePath>, transcode: bool, overlay_mode: OverlayMode)
        ensures
            final(self)@ == old(self)@.moved_to(out_root@, opt_path(ffmpeg), transcode, overlay_mode),
    {
        self.out_root = out_root;
        self.environment.ffmpeg = ffmpeg;
        if !self.transcode_set {
            self.transcode = transcode;
        }
        if !self.overlay_set {
            self.overlay_mode = overlay_mode;
        }
    }
}

impl ChatMediaView {
    pub open spec fn moved_to(
        self,
        out_root: Seq<char>,
        ffmpeg: Option<PathView>,
        transcode: bool,
        overlay_mode: OverlayMode,
    ) -> ChatMediaView {
        ChatMediaView {
            out_root,
            environment: EnvironmentView { ffmpeg, ..self.environment },
            transcode: if self.transcode_set {
                self.transcode
            } else {
                transcode
            },
            overlay_mode: if self.overlay_set {
                self.overlay_mode
            } else {
                overlay_mode
            },
            ..self
        }
    }
}

/// The history form.
#[derive(Debug, PartialEq, Eq)]
pub struct History {
    pub source: String,
    pub out_root: String,
    pub pane: Pane,
}

#[verifier::ext_equal]
pub struct HistoryView {
    pub source: Seq<char>,
    pub out_root: Seq<char>,
    pub pane: PaneView,
}

impl View for History {
    type V = HistoryView;

    open spec fn view(&self) -> HistoryView {
        HistoryView { source: self.source@, out_root: self.out_root@, pane: self.pane@ }
    }
}

impl History {
    pub fn with_environment(source: String, out_root: String) -> (r: Self)
        ensures
            r@ == (HistoryView { source: source@, out_root: out_root@, pane: silent() }),
    {
        History { source, out_root, pane: Pane::default() }
    }

    /// The source and the output root the next run is given.
    #[must_use]
    pub fn run_paths(&self) -> (r: (&str, &str))
        ensures
            r.0@ == self.source@,
            r.1@ == self.out_root@,
    {
        (self.source.as_str(), self.out_root.as_str())
    }

    pub fn apply_out_root(&mut self, out_root: String)
        ensures
            final(self)@ == (HistoryView { out_root: out_root@, ..old(self)@ }),
    {
        self.out_root = out_root;
    }
}

/// The account screen, which only reads.
#[derive(Debug, PartialEq, Eq)]
pub struct Account {
    pub source: String,
    pub descended: bool,
    pub help_keys: Vec<HelpRow>,
}

#[verifier::ext_equal]
pub struct AccountView {
    pub source: Seq<char>,
    pub descended: bool,
    pub help_keys: Seq<HelpRow>,
}

impl View for Account {
    type V = AccountView;

    open spec fn view(&self) -> AccountView {
        AccountView { source: self.source@, descended: self.descended, help_keys: self.help_keys@ }
    }
}

impl Account {
    pub fn with_environment(source: String) -> (r: Self)
        ensures
            r@ == (AccountView { source: source@, descended: false, help_keys: Seq::empty() }),
    {
        Account { source, descended: false, help_keys: Vec::new() }
    }
}

/// What the settings screen is opened over: the command line's output root, and the file.
#[derive(Debug, PartialEq, Eq)]
pub struct SettingsLayers {
    pub cli_out: Option<String>,
    pub config: Config,
}

impl SettingsLayers {
    /// The layers of a run with no flag and no file.
    #[must_use]
    pub fn unset() -> (r: Self)
        ensures
            r.cli_out is None,
            r.config@ == crate::config::nothing_set(),
    {
        SettingsLayers { cli_out: None, config: Config::default() }
    }
}

/// The settings screen.
#[derive(Debug, PartialEq, Eq)]
pub struct Settings {
    pub cli_out: Option<String>,
    pub config: Config,
    pub source: String,
    /// The ffmpeg that was found, whatever the file says.
    pub detected_ffmpeg: Option<FilePath>,
    pub editing: bool,
    /// Whether the toast is up.
    pub toast: bool,
    pub help_keys: Vec<HelpRow>,
}

#[verifier::ext_equal]
pub struct SettingsView {
    pub cli_out: Option<Seq<char>>,
    pub config: ConfigView,
    pub source: Seq<char>,
    pub detected_ffmpeg: Option<PathView>,
    pub editing: bool,
    pub toast: bool,
    pub help_keys: Seq<HelpRow>,
}

impl View for Settings {
    type V = SettingsView;

    open spec fn view(&self) -> SettingsView {
        SettingsView {
            cli_out: opt_view(self.cli_out),
            config: self.config@,
            source: self.source@,
            detected_ffmpeg: opt_path(self.detected_ffmpeg),
            editing: self.editing,
            toast: self.toast,
            help_keys: self.help_keys@,
        }
    }
}

impl SettingsView {
    /// What a run is started with as the settings stand: the ffmpeg that was found where the file
    /// names none.
    pub open spec fn effective(self) -> RunDefaultsView {
        let defaults = defaults_of(self.cli_out, self.config, self.source);
        RunDefaultsView {
            ffmpeg: match defaults.ffmpeg {
                Some(ffmpeg) => Some(ffmpeg),
                None => self.detected_ffmpeg,
            },
            ..defaults
        }
    }
}

impl Settings {
    pub fn with_layers(layers: SettingsLayers) -> (r: Self)
        ensures
            r@ == (SettingsView {
                cli_out: opt_view(layers.cli_out),
                config: layers.config@,
                source: Seq::empty(),
                detected_ffmpeg: None,
                editing: false,
                toast: false,
                help_keys: Seq::empty(),
            }),
    {
        Settings {
            cli_out: layers.cli_out,
            config: layers.config,
            source: String::new(),
            detected_ffmpeg: None,
            editing: false,
            toast: false,
            help_keys: Vec::new(),
        }
    }

    /// What a run is started with as the settings stand.
    #[must_use]
    pub fn effective(&self) -> (r: RunDefaults)
        ensures
            r@ == self@.effective(),
    {
        let mut defaults = RunDefaults::resolve(
            match &self.cli_out {
                Some(out) => Some(out.as_str()),
                None => None,
            },
            &self.config,
            self.source.as_str(),
        );
        if defaults.ffmpeg.is_none() {
            defaults.ffmpeg = crate::env::copied_path(&self.detected_ffmpeg);
        }
        defaults
    }
}

// ---- laws ----

/// The flag beats the file, and the file beats what is derived: a directory beside the export's own
/// files, every video re-encoded, captions both burned in and left off. The ffmpeg is the file's.
pub proof fn law_the_flag_beats_the_file(cli_out: Option<Seq<char>>, config: ConfigView, source: Seq<char>)
    ensures
        ({
            let run = defaults_of(cli_out, config, source);
            &&& cli_out matches Some(out) ==> run.out_root == out
            &&& cli_out is None ==> (config.out_dir matches Some(ConfigPathView::Text(out)) ==> run.out_root == out)
            &&& cli_out is None ==> (config.out_dir matches Some(ConfigPathView::NotUtf8 { shown: _, known_as }) ==> run.out_root
                == known_as)
            &&& cli_out is None && config.out_dir is None && source.len() > 0 && source.last() != '/' ==> run.out_root == source
                + "/exportsnap-out"@
            &&& cli_out is None && config.out_dir is None && (source.len() == 0 || source.last() == '/') ==> run.out_root == source
                + "exportsnap-out"@
            &&& config.ffmpeg_path is None ==> run.ffmpeg is None
            &&& config.ffmpeg_path matches Some(ConfigPathView::Text(text)) ==> run.ffmpeg == Some(path_of(text))
            &&& config.transcode matches Some(on) ==> run.transcode == on
            &&& config.transcode is None ==> run.transcode
            &&& config.overlay_mode matches Some(mode) ==> run.overlay_mode == mode
            &&& config.overlay_mode is None ==> run.overlay_mode == OverlayMode::Both
        }),
{
    reveal_strlit("/");
    reveal_strlit("exportsnap-out");
    reveal_strlit("/exportsnap-out");
    assert("/"@ + "exportsnap-out"@ =~= "/exportsnap-out"@);
    assert(source + "/"@ + "exportsnap-out"@ =~= source + ("/"@ + "exportsnap-out"@));
}

/// A run takes the ffmpeg the file names, and the one that was found only where the file names none;
/// everything else is as the settings have it.
pub proof fn law_the_named_ffmpeg_beats_the_found(settings: SettingsView)
    ensures
        settings.config.ffmpeg_path is None ==> settings.effective().ffmpeg == settings.detected_ffmpeg,
        settings.config.ffmpeg_path matches Some(ConfigPathView::Text(text)) ==> settings.effective().ffmpeg == Some(path_of(text)),
        settings.effective().out_root == defaults_of(settings.cli_out, settings.config, settings.source).out_root,
        settings.effective().transcode == defaults_of(settings.cli_out, settings.config, settings.source).transcode,
        settings.effective().overlay_mode == defaults_of(settings.cli_out, settings.config, settings.source).overlay_mode,
{
}

/// New defaults move what a form did not set itself, leave what it did, and touch neither its source
/// nor what its screen said.
pub proof fn law_a_form_keeps_what_it_set(
    memories: MemoriesView,
    chats: ChatMediaView,
    out_root: Seq<char>,
    ffmpeg: Option<PathView>,
    transcode: bool,
    overlay_mode: OverlayMode,
)
    ensures
        ({
            let moved = memories.moved_to(out_root, ffmpeg, transcode);
            &&& moved.out_root == out_root
            &&& moved.environment.ffmpeg == ffmpeg
            &&& moved.environment.vlc == memories.environment.vlc
            &&& moved.environment.available_space == memories.environment.available_space
            &&& moved.environment.total_space == memories.environment.total_space
            &&& memories.transcode_set ==> moved.transcode == memories.transcode
            &&& !memories.transcode_set ==> moved.transcode == transcode
            &&& moved.transcode_set == memories.transcode_set
            &&& moved.source == memories.source
            &&& moved.pane == memories.pane
        }),
        ({
            let moved = chats.moved_to(out_root, ffmpeg, transcode, overlay_mode);
            &&& moved.out_root == out_root
            &&& moved.environment.ffmpeg == ffmpeg
            &&& moved.environment.vlc == chats.environment.vlc
            &&& moved.environment.available_space == chats.environment.available_space
            &&& moved.environment.total_space == chats.environment.total_space
            &&& chats.transcode_set ==> moved.transcode == chats.transcode
            &&& !chats.transcode_set ==> moved.transcode == transcode
            &&& chats.overlay_set ==> moved.overlay_mode == chats.overlay_mode
            &&& !chats.overlay_set ==> moved.overlay_mode == overlay_mode
            &&& moved.transcode_set == chats.transcode_set
            &&& moved.overlay_set == chats.overlay_set
            &&& moved.source == chats.source
            &&& moved.pane == chats.pane
        }),
{
}

} // verus!
