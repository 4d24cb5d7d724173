//! The settings file: what it may say, and what is wrong with one that says otherwise.

use vstd::prelude::*;

use crate::export::chat_fix::OverlayMode;
use crate::order::text_le;
use crate::text::{is_empty_text, opt_view, quoted, quoted_text, same};

verus! {

/// The file's name in the config directory.
pub const FILE_NAME: &'static str = "config.toml";

/// The name a new file is staged under beside it.
pub const TEMP_NAME: &'static str = "config.toml.tmp";

/// How rich a terminal the screens are drawn for.
#[derive(Debug, Clone, Copy, PartialEq, Eq, Structural)]
pub enum Tier {
    Full,
    Compatible,
}

impl Tier {
    pub open spec fn name(self) -> Seq<char> {
        match self {
            Tier::Full => "full"@,
            Tier::Compatible => "compatible"@,
        }
    }

    #[must_use]
    pub fn as_name(self) -> (r: &'static str)
        ensures
            r@ == self.name(),
    {
        match self {
            Tier::Full => "full",
            Tier::Compatible => "compatible",
        }
    }

    /// The tier a word names.
    #[must_use]
    pub fn from_name(name: &str) -> (r: Option<Self>)
        ensures
            r == tier_of(name@),
    {
        if same(name, "full") {
            Some(Tier::Full)
        } else if same(name, "compatible") {
            Some(Tier::Compatible)
        } else {
            None
        }
    }
}

pub open spec fn tier_of(name: Seq<char>) -> Option<Tier> {
    if name == "full"@ {
        Some(Tier::Full)
    } else if name == "compatible"@ {
        Some(Tier::Compatible)
    } else {
        None
    }
}

/// A path as a setting holds it: its text, or of one that has none what is shown of it and the
/// text whoever set it knows it by, which is carried in its place.
#[derive(Debug, PartialEq, Eq)]
pub enum ConfigPath {
    Text(String),
    NotUtf8 { shown: String, known_as: String },
}

pub enum ConfigPathView {
    Text(Seq<char>),
    NotUtf8 { shown: Seq<char>, known_as: Seq<char> },
}

impl View for ConfigPath {
    type V = ConfigPathView;

    open spec fn view(&self) -> ConfigPathView {
        match *self {
            ConfigPath::Text(text) => ConfigPathView::Text(text@),
            ConfigPath::NotUtf8 { shown, known_as } => ConfigPathView::NotUtf8 { shown: shown@, known_as: known_as@ },
        }
    }
}

/// What the file says. A key that is absent leaves the choice to whoever asks.
#[derive(Debug, PartialEq, Eq)]
pub struct Config {
    pub theme: Option<Tier>,
    pub out_dir: Option<ConfigPath>,
    pub ffmpeg_path: Option<ConfigPath>,
    pub transcode: Option<bool>,
    pub overlay_mode: Option<OverlayMode>,
}

#[verifier::ext_equal]
pub struct ConfigView {
    pub theme: Option<Tier>,
    pub out_dir: Option<ConfigPathView>,
    pub ffmpeg_path: Option<ConfigPathView>,
    pub transcode: Option<bool>,
    pub overlay_mode: Option<OverlayMode>,
}

pub open spec fn path_setting(path: Option<ConfigPath>) -> Option<ConfigPathView> {
    match path {
        Some(path) => Some(path@),
        None => None,
    }
}

impl View for Config {
    type V = ConfigView;

    open spec fn view(&self) -> ConfigView {
        ConfigView {
            theme: self.theme,
            out_dir: path_setting(self.out_dir),
            ffmpeg_path: path_setting(self.ffmpeg_path),
            transcode: self.transcode,
            overlay_mode: self.overlay_mode,
        }
    }
}

/// What an absent file says: nothing.
pub open spec fn nothing_set() -> ConfigView {
    ConfigView { theme: None, out_dir: None, ffmpeg_path: None, transcode: None, overlay_mode: None }
}

impl Default for Config {
    fn default() -> (r: Self)
        ensures
            r@ == nothing_set(),
    {
        Config { theme: None, out_dir: None, ffmpeg_path: None, transcode: None, overlay_mode: None }
    }
}

/// Why a file cannot be read or written. A path is spelled as it is shown, and a `source` as the
/// failure below puts it.
#[derive(Debug, PartialEq, Eq)]
pub enum ConfigError {
    Read { path: String, source: String },
    Toml { path: String, source: String },
    UnknownKey { path: String, key: String },
    UnknownThemeKey { path: String, key: String },
    MissingKey { path: String, key: String, expected: String },
    WrongType { path: String, key: String, expected: String, got: String },
    UnknownTheme { path: String, value: String },
    UnknownOverlayMode { path: String, value: String },
    EmptyPath { path: String, key: String },
    PathNotUtf8 { path: String, key: String, value: String },
    Serialize { path: String, source: String },
    Write { path: String, source: String },
}

/// The words of a [`ConfigError`].
pub open spec fn config_words(e: ConfigError) -> Seq<char> {
    match e {
        ConfigError::Read { path, source } => "could not read config "@ + path@ + ": "@ + source@ + "; the file must be valid utf-8 toml, or absent"@,
        ConfigError::Toml { path, source } => "config "@ + path@ + " is not valid toml: "@ + source@,
        ConfigError::UnknownKey { path, key } => "config "@ + path@ + ": unknown key "@ + quoted(key@) + "; expected one of [theme], out_dir, ffmpeg_path, transcode, overlay_mode"@,
        ConfigError::UnknownThemeKey { path, key } => "config "@ + path@ + ": unknown key "@ + quoted(key@) + " in [theme]; expected `name`"@,
        ConfigError::MissingKey { path, key, expected } => "config "@ + path@ + ": "@ + key@ + " is missing; expected "@ + expected@,
        ConfigError::WrongType { path, key, expected, got } => "config "@ + path@ + ": "@ + key@ + " must be "@ + expected@ + "; got "@ + got@,
        ConfigError::UnknownTheme { path, value } => "config "@ + path@ + ": [theme] name = "@ + quoted(value@) + " is not a theme; pass \"full\" or \"compatible\""@,
        ConfigError::UnknownOverlayMode { path, value } => "config "@ + path@ + ": overlay_mode = "@ + quoted(value@) + " is not an overlay mode; pass one of \"merged\", \"both\", \"originals\""@,
        ConfigError::EmptyPath { path, key } => "config "@ + path@ + ": "@ + key@ + " names no path; set it to a path or drop the key"@,
        ConfigError::PathNotUtf8 { path, key, value } => "could not write config "@ + path@ + ": "@ + key@ + " names a path that is not valid utf-8 ("@ + value@ + "), which no toml string can hold; rename it"@,
        ConfigError::Serialize { path, source } => "could not serialize config "@ + path@ + ": "@ + source@,
        ConfigError::Write { path, source } => "could not write config "@ + path@ + ": "@ + source@,
    }
}

impl ConfigError {
    /// The sentence a reader is shown.
    #[must_use]
    pub fn message(&self) -> (r: String)
        ensures
            r@ == config_words(*self),
    {
        match self {
            ConfigError::Read { path, source } => {
                let mut out = "could not read config ".to_owned();
                out.append(path);
                out.append(": ");
                out.append(source);
                out.append("; the file must be valid utf-8 toml, or absent");
                out
            },
            ConfigError::Toml { path, source } => {
                let mut out = "config ".to_owned();
                out.append(path);
                out.append(" is not valid toml: ");
                out.append(source);
                out
            },
            ConfigError::UnknownKey { path, key } => {
                let mut out = "config ".to_owned();
                out.append(path);
                out.append(": unknown key ");
                out.append(&quoted_text(key));
                out.append("; expected one of [theme], out_dir, ffmpeg_path, transcode, overlay_mode");
                out
            },
            ConfigError::UnknownThemeKey { path, key } => {
                let mut out = "config ".to_owned();
                out.append(path);
                out.append(": unknown key ");
                out.append(&quoted_text(key));
                out.append(" in [theme]; expected `name`");
                out
            },
            ConfigError::MissingKey { path, key, expected } => {
                let mut out = "config ".to_owned();
                out.append(path);
                out.append(": ");
                out.append(key);
                out.append(" is missing; expected ");
                out.append(expected);
                out
            },
            ConfigError::WrongType { path, key, expected, got } => {
                let mut out = "config ".to_owned();
                out.append(path);
                out.append(": ");
                out.append(key);
                out.append(" must be ");
                out.append(expected);
                out.append("; got ");
                out.append(got);
                out
            },
            ConfigError::UnknownTheme { path, value } => {
                let mut out = "config ".to_owned();
                out.append(path);
                out.append(": [theme] name = ");
                out.append(&quoted_text(value));
                out.append(" is not a theme; pass \"full\" or \"compatible\"");
                out
            },
            ConfigError::UnknownOverlayMode { path, value } => {
                let mut out = "config ".to_owned();
                out.append(path);
                out.append(": overlay_mode = ");
                out.append(&quoted_text(value));
                out.append(" is not an overlay mode; pass one of \"merged\", \"both\", \"originals\"");
                out
            },
            ConfigError::EmptyPath { path, key } => {
                let mut out = "config ".to_owned();
                out.append(path);
                out.append(": ");
                out.append(key);
                out.append(" names no path; set it to a path or drop the key");
                out
            },
            ConfigError::PathNotUtf8 { path, key, value } => {
                let mut out = "could not write config ".to_owned();
                out.append(path);
                out.append(": ");
                out.append(key);
                out.append(" names a path that is not valid utf-8 (");
                out.append(value);
                out.append("), which no toml string can hold; rename it");
                out
            },
            ConfigError::Serialize { path, source } => {
                let mut out = "could not serialize config ".to_owned();
                out.append(path);
                out.append(": ");
                out.append(source);
                out
            },
            ConfigError::Write { path, source } => {
                let mut out = "could not write config ".to_owned();
                out.append(path);
                out.append(": ");
                out.append(source);
                out
            },
        }
    }
}

// ---- toml ----

/// An entry of a table within the root: its type, and its text where it is a string.
#[derive(Debug, PartialEq, Eq)]
pub struct TomlLeaf {
    pub key: String,
    pub kind: &'static str,
    pub text: Option<String>,
}

#[derive(Debug, PartialEq, Eq)]
pub enum TomlValue {
    Text(String),
    Flag(bool),
    Table(Vec<TomlLeaf>),
    /// Any other value, by the name of its type.
    Other(&'static str),
}

/// An entry of the root.
#[derive(Debug, PartialEq, Eq)]
pub struct TomlEntry {
    pub key: String,
    pub value: TomlValue,
}

#[verifier::ext_equal]
pub struct LeafView {
    pub key: Seq<char>,
    pub kind: Seq<char>,
    pub text: Option<Seq<char>>,
}

pub enum ValueView {
    Text(Seq<char>),
    Flag(bool),
    Table(Seq<LeafView>),
    Other(Seq<char>),
}

pub struct EntryView {
    pub key: Seq<char>,
    pub value: ValueView,
}

impl View for TomlLeaf {
    type V = LeafView;

    open spec fn view(&self) -> LeafView {
        LeafView { key: self.key@, kind: self.kind@, text: opt_view(self.text) }
    }
}

pub open spec fn leaf_views(leaves: Seq<TomlLeaf>) -> Seq<LeafView> {
    leaves.map_values(|leaf: TomlLeaf| leaf@)
}

impl View for TomlEntry {
    type V = EntryView;

    open spec fn view(&self) -> EntryView {
        EntryView {
            key: self.key@,
            value: match self.value {
                TomlValue::Text(text) => ValueView::Text(text@),
                TomlValue::Flag(flag) => ValueView::Flag(flag),
                TomlValue::Table(leaves) => ValueView::Table(leaf_views(leaves@)),
                TomlValue::Other(kind) => ValueView::Other(kind@),
            },
        }
    }
}

pub open spec fn entry_views(entries: Seq<TomlEntry>) -> Seq<EntryView> {
    entries.map_values(|entry: TomlEntry| entry@)
}

/// The names toml has for the types of its values.
pub open spec fn is_kind(kind: Seq<char>) -> bool {
    kind == "string"@ || kind == "integer"@ || kind == "float"@ || kind == "boolean"@ || kind == "datetime"@ || kind == "array"@
        || kind == "table"@
}

/// Whether entries are ones a toml document can hold: every type is named, and a text is there
/// exactly where the type is a string.
pub open spec fn sound(root: Seq<EntryView>) -> bool {
    forall|i: int|
        0 <= i < root.len() ==> match (#[trigger] root[i]).value {
            ValueView::Other(kind) => is_kind(kind),
            ValueView::Table(leaves) => forall|j: int|
                0 <= j < leaves.len() ==> is_kind((#[trigger] leaves[j]).kind) && (leaves[j].text is Some <==> leaves[j].kind
                    == "string"@),
            _ => true,
        }
}

/// The entries of the document a text spells, in the order of their keys, or what is wrong with it.
pub uninterp spec fn toml_root(text: Seq<char>) -> Result<Seq<EntryView>, Seq<char>>;

/// The text a document of some entries is written as, or why it cannot be.
pub uninterp spec fn toml_text(root: Seq<EntryView>) -> Result<Seq<char>, Seq<char>>;

/// `toml::from_str` into a `toml::Table`. The contract names the entries and the error, which rest
/// on the text alone, rather than spelling the grammar out; and says that each entry's type is one
/// of toml's own.
#[verifier::external_body]
fn parse_toml(text: &str) -> (r: Result<Vec<TomlEntry>, String>)
    ensures
        match r {
            Ok(root) => toml_root(text@) == Ok::<Seq<EntryView>, Seq<char>>(entry_views(root@)) && sound(entry_views(root@)),
            Err(error) => toml_root(text@) == Err::<Seq<EntryView>, Seq<char>>(error@),
        },
{
    let root = toml::from_str::<toml::Table>(text).map_err(|error| error.to_string())?;
    let leaf = |(key, value): (String, toml::Value)| TomlLeaf { key, kind: value.type_str(), text: value.as_str().map(str::to_owned) };
    let plain = |value| match value {
        toml::Value::String(text) => TomlValue::Text(text),
        toml::Value::Boolean(flag) => TomlValue::Flag(flag),
        toml::Value::Table(table) => TomlValue::Table(table.into_iter().map(leaf).collect()),
        other => TomlValue::Other(other.type_str()),
    };
    Ok(root.into_iter().map(|(key, value)| TomlEntry { key, value: plain(value) }).collect())
}

/// A setting as it is written.
#[derive(Debug, PartialEq, Eq)]
pub enum Setting {
    Text(String),
    Flag(bool),
    /// A table of one text.
    Named { key: String, text: String },
}

/// A key and the setting it is written with.
#[derive(Debug, PartialEq, Eq)]
pub struct SettingEntry {
    pub key: String,
    pub value: Setting,
}

impl View for SettingEntry {
    type V = EntryView;

    open spec fn view(&self) -> EntryView {
        EntryView {
            key: self.key@,
            value: match self.value {
                Setting::Text(text) => ValueView::Text(text@),
                Setting::Flag(flag) => ValueView::Flag(flag),
                Setting::Named { key, text } => ValueView::Table(
                    seq![LeafView { key: key@, kind: "string"@, text: Some(text@) }],
                ),
            },
        }
    }
}

pub open spec fn setting_views(entries: Seq<SettingEntry>) -> Seq<EntryView> {
    entries.map_values(|entry: SettingEntry| entry@)
}

/// Whether every key comes before the next.
pub open spec fn keys_ascend(root: Seq<EntryView>) -> bool {
    forall|i: int, j: int|
        #![trigger root[i], root[j]]
        0 <= i < j < root.len() ==> text_le(root[i].key, root[j].key) && root[i].key != root[j].key
}

/// The key toml keeps for itself: it reads a table that opens with it as a date.
pub const DATE_MARKER: &'static str = "$__toml_private_datetime";

/// Whether a table would be read as a table.
pub open spec fn stays_table(leaves: Seq<LeafView>) -> bool {
    forall|i: int| 0 <= i < leaves.len() ==> (#[trigger] leaves[i]).key != DATE_MARKER@
}

/// Whether no table among some entries would be read as a date.
pub open spec fn tables_stay(root: Seq<EntryView>) -> bool {
    forall|i: int| 0 <= i < root.len() ==> ((#[trigger] root[i]).value matches ValueView::Table(leaves) ==> stays_table(leaves))
}

/// `toml::to_string` of a `toml::Table`. The contract names the text and the error, and says that a
/// text written for entries in the order of their keys is parsed back to them. It is asked only of
/// entries none of whose tables holds the key toml writes dates under: such a table is read back as
/// a date, or not at all.
#[verifier::external_body]
fn print_toml(root: &Vec<SettingEntry>) -> (r: Result<String, String>)
    requires
        keys_ascend(setting_views(root@)),
        tables_stay(setting_views(root@)),
    ensures
        match r {
            Ok(text) => toml_text(setting_views(root@)) == Ok::<Seq<char>, Seq<char>>(text@) && toml_root(text@) == Ok::<
                Seq<EntryView>,
                Seq<char>,
            >(setting_views(root@)),
            Err(error) => toml_text(setting_views(root@)) == Err::<Seq<char>, Seq<char>>(error@),
        },
{
    let plain = |value: &Setting| match value {
        Setting::Text(text) => toml::Value::String(text.clone()),
        Setting::Flag(flag) => toml::Value::Boolean(*flag),
        Setting::Named { key, text } => toml::Value::Table(toml::Table::from_iter([(key.clone(), toml::Value::String(text.clone()))])),
    };
    let root: toml::Table = root.iter().map(|entry| (entry.key.clone(), plain(&entry.value))).collect();
    toml::to_string(&root).map_err(|error| error.to_string())
}

// ---- reading ----

/// What is wrong with what a file says.
pub enum Fault {
    UnknownKey(Seq<char>),
    UnknownThemeKey(Seq<char>),
    MissingKey { key: Seq<char>, expected: Seq<char> },
    WrongType { key: Seq<char>, expected: Seq<char>, got: Seq<char> },
    UnknownTheme(Seq<char>),
    UnknownOverlayMode(Seq<char>),
    EmptyPath(Seq<char>),
}

/// Whether an error tells of a fault in the file at a path.
pub open spec fn tells(error: ConfigError, file: Seq<char>, fault: Fault) -> bool {
    match fault {
        Fault::UnknownKey(named) => error matches ConfigError::UnknownKey { path, key } && path@ == file && key@ == named,
        Fault::UnknownThemeKey(named) => error matches ConfigError::UnknownThemeKey { path, key } && path@ == file && key@ == named,
        Fault::MissingKey { key: named, expected: wanted } => error matches ConfigError::MissingKey { path, key, expected } && path@
            == file && key@ == named && expected@ == wanted,
        Fault::WrongType { key: named, expected: wanted, got: found } => error matches ConfigError::WrongType {
            path,
            key,
            expected,
            got,
        } && path@ == file && key@ == named && expected@ == wanted && got@ == found,
        Fault::UnknownTheme(word) => error matches ConfigError::UnknownTheme { path, value } && path@ == file && value@ == word,
        Fault::UnknownOverlayMode(word) => error matches ConfigError::UnknownOverlayMode { path, value } && path@ == file && value@
            == word,
        Fault::EmptyPath(named) => error matches ConfigError::EmptyPath { path, key } && path@ == file && key@ == named,
    }
}

/// A type, as a message names it.
pub open spec fn kind_words(kind: Seq<char>) -> Seq<char> {
    if kind == "string"@ {
        "a string"@
    } else if kind == "integer"@ {
        "an integer"@
    } else if kind == "float"@ {
        "a float"@
    } else if kind == "boolean"@ {
        "a boolean"@
    } else if kind == "datetime"@ {
        "a datetime"@
    } else if kind == "array"@ {
        "an array"@
    } else {
        "a table"@
    }
}

fn kind_name(kind: &str) -> (r: &'static str)
    ensures
        r@ == kind_words(kind@),
{
    if same(kind, "string") {
        "a string"
    } else if same(kind, "integer") {
        "an integer"
    } else if same(kind, "float") {
        "a float"
    } else if same(kind, "boolean") {
        "a boolean"
    } else if same(kind, "datetime") {
        "a datetime"
    } else if same(kind, "array") {
        "an array"
    } else {
        "a table"
    }
}

pub open spec fn kind_of(value: ValueView) -> Seq<char> {
    match value {
        ValueView::Text(_) => "string"@,
        ValueView::Flag(_) => "boolean"@,
        ValueView::Table(_) => "table"@,
        ValueView::Other(kind) => kind,
    }
}

/// The type a value is, for a message.
pub fn named_type(value: &TomlValue) -> (r: &'static str)
    ensures
        r@ == kind_words(kind_of(value_view(*value))),
{
    match value {
        TomlValue::Text(_) => kind_name("string"),
        TomlValue::Flag(_) => kind_name("boolean"),
        TomlValue::Table(_) => kind_name("table"),
        TomlValue::Other(kind) => kind_name(kind),
    }
}

pub open spec fn value_view(value: TomlValue) -> ValueView {
    match value {
        TomlValue::Text(text) => ValueView::Text(text@),
        TomlValue::Flag(flag) => ValueView::Flag(flag),
        TomlValue::Table(leaves) => ValueView::Table(leaf_views(leaves@)),
        TomlValue::Other(kind) => ValueView::Other(kind@),
    }
}

pub open spec fn wrong_type(key: Seq<char>, expected: Seq<char>, kind: Seq<char>) -> Fault {
    Fault::WrongType { key, expected, got: kind_words(kind) }
}

/// What the entries of `[theme]` come to so far: the tier, where it was named.
pub open spec fn theme_so_far(leaves: Seq<LeafView>) -> Result<Option<Tier>, Fault>
    decreases leaves.len(),
{
    if leaves.len() == 0 {
        Ok(None)
    } else {
        match theme_so_far(leaves.drop_last()) {
            Err(fault) => Err(fault),
            Ok(_) => if leaves.last().key != "name"@ {
                Err(Fault::UnknownThemeKey(leaves.last().key))
            } else {
                match leaves.last().text {
                    None => Err(wrong_type("theme.name"@, "a string"@, leaves.last().kind)),
                    Some(word) => match tier_of(word) {
                        Some(tier) => Ok(Some(tier)),
                        None => Err(Fault::UnknownTheme(word)),
                    },
                }
            },
        }
    }
}

/// What `[theme]` comes to.
pub open spec fn theme_read(value: ValueView) -> Result<Tier, Fault> {
    match value {
        ValueView::Table(leaves) => match theme_so_far(leaves) {
            Err(fault) => Err(fault),
            Ok(Some(tier)) => Ok(tier),
            Ok(None) => Err(Fault::MissingKey { key: "theme.name"@, expected: "\"full\" or \"compatible\""@ }),
        },
        _ => Err(wrong_type("theme"@, "a table"@, kind_of(value))),
    }
}

fn wrong(path: &str, key: &str, expected: &str, got: &str) -> (r: ConfigError)
    ensures
        tells(r, path@, Fault::WrongType { key: key@, expected: expected@, got: got@ }),
{
    ConfigError::WrongType { path: path.to_owned(), key: key.to_owned(), expected: expected.to_owned(), got: got.to_owned() }
}

fn theme_named(path: &str, table: &Vec<TomlLeaf>) -> (r: Result<Option<Tier>, ConfigError>)
    ensures
        match theme_so_far(leaf_views(table@)) {
            Ok(name) => r == Ok::<Option<Tier>, ConfigError>(name),
            Err(fault) => r matches Err(error) && tells(error, path@, fault),
        },
{
    let ghost leaves = leaf_views(table@);
    let mut name: Option<Tier> = None;
    let mut i: usize = 0;
    assert(leaves.take(0) =~= Seq::empty());
    while i < table.len()
        invariant
            i <= table@.len(),
            leaves == leaf_views(table@),
            theme_so_far(leaves.take(i as int)) == Ok::<Option<Tier>, Fault>(name),
        decreases table.len() - i,
    {
        let leaf = &table[i];
        let ghost now = leaves.take(i + 1);
        proof {
            assert(now.drop_last() =~= leaves.take(i as int));
            assert(now.last() == leaf@);
            if theme_so_far(now) is Err {
                lemma_theme_stays(leaves, i + 1);
            }
        }
        if !same(&leaf.key, "name") {
            return Err(ConfigError::UnknownThemeKey { path: path.to_owned(), key: leaf.key.clone() });
        }
        match &leaf.text {
            None => {
                return Err(wrong(path, "theme.name", "a string", kind_name(leaf.kind)));
            },
            Some(word) => match Tier::from_name(word) {
                Some(tier) => {
                    name = Some(tier);
                },
                None => {
                    return Err(ConfigError::UnknownTheme { path: path.to_owned(), value: word.clone() });
                },
            },
        }
        i += 1;
    }
    assert(leaves.take(i as int) =~= leaves);
    Ok(name)
}

pub fn parse_theme(path: &str, value: TomlValue) -> (r: Result<Tier, ConfigError>)
    ensures
        match theme_read(value_view(value)) {
            Ok(tier) => r == Ok::<Tier, ConfigError>(tier),
            Err(fault) => r matches Err(error) && tells(error, path@, fault),
        },
{
    let table = match value {
        TomlValue::Table(table) => table,
        other => {
            return Err(wrong(path, "theme", "a table", named_type(&other)));
        },
    };
    match theme_named(path, &table) {
        Err(error) => Err(error),
        Ok(Some(tier)) => Ok(tier),
        Ok(None) => Err(
            ConfigError::MissingKey {
                path: path.to_owned(),
                key: "theme.name".to_owned(),
                expected: "\"full\" or \"compatible\"".to_owned(),
            },
        ),
    }
}

proof fn lemma_theme_stays(leaves: Seq<LeafView>, at: int)
    requires
        0 <= at <= leaves.len(),
        theme_so_far(leaves.take(at)) is Err,
    ensures
        theme_so_far(leaves) == theme_so_far(leaves.take(at)),
    decreases leaves.len(),
{
    if at < leaves.len() {
        assert(leaves.drop_last().take(at) =~= leaves.take(at));
        lemma_theme_stays(leaves.drop_last(), at);
    } else {
        assert(leaves.take(at) =~= leaves);
    }
}

pub open spec fn path_read(key: Seq<char>, value: ValueView) -> Result<ConfigPathView, Fault> {
    match value {
        ValueView::Text(text) => if text.len() == 0 {
            Err(Fault::EmptyPath(key))
        } else {
            Ok(ConfigPathView::Text(text))
        },
        _ => Err(wrong_type(key, "a string path"@, kind_of(value))),
    }
}

pub fn parse_path(path: &str, key: &str, value: TomlValue) -> (r: Result<ConfigPath, ConfigError>)
    ensures
        match path_read(key@, value_view(value)) {
            Ok(read) => r matches Ok(found) && found@ == read,
            Err(fault) => r matches Err(error) && tells(error, path@, fault),
        },
{
    match value {
        TomlValue::Text(text) => {
            if is_empty_text(&text) {
                Err(ConfigError::EmptyPath { path: path.to_owned(), key: key.to_owned() })
            } else {
                Ok(ConfigPath::Text(text))
            }
        },
        other => Err(wrong(path, key, "a string path", named_type(&other))),
    }
}

pub open spec fn bool_read(key: Seq<char>, value: ValueView) -> Result<bool, Fault> {
    match value {
        ValueView::Flag(flag) => Ok(flag),
        _ => Err(wrong_type(key, "true or false"@, kind_of(value))),
    }
}

pub fn parse_bool(path: &str, key: &str, value: TomlValue) -> (r: Result<bool, ConfigError>)
    ensures
        match bool_read(key@, value_view(value)) {
            Ok(flag) => r == Ok::<bool, ConfigError>(flag),
            Err(fault) => r matches Err(error) && tells(error, path@, fault),
        },
{
    match value {
        TomlValue::Flag(flag) => Ok(flag),
        other => Err(wrong(path, key, "true or false", named_type(&other))),
    }
}

pub open spec fn mode_of(word: Seq<char>) -> Option<OverlayMode> {
    if word == "merged"@ {
        Some(OverlayMode::Merged)
    } else if word == "both"@ {
        Some(OverlayMode::Both)
    } else if word == "originals"@ {
        Some(OverlayMode::Originals)
    } else {
        None
    }
}

pub open spec fn mode_read(value: ValueView) -> Result<OverlayMode, Fault> {
    match value {
        ValueView::Text(word) => match mode_of(word) {
            Some(mode) => Ok(mode),
            None => Err(Fault::UnknownOverlayMode(word)),
        },
        _ => Err(wrong_type("overlay_mode"@, "a string"@, kind_of(value))),
    }
}

pub fn parse_overlay_mode(path: &str, value: TomlValue) -> (r: Result<OverlayMode, ConfigError>)
    ensures
        match mode_read(value_view(value)) {
            Ok(mode) => r == Ok::<OverlayMode, ConfigError>(mode),
            Err(fault) => r matches Err(error) && tells(error, path@, fault),
        },
{
    match value {
        TomlValue::Text(word) => {
            if same(&word, "merged") {
                Ok(OverlayMode::Merged)
            } else if same(&word, "both") {
                Ok(OverlayMode::Both)
            } else if same(&word, "originals") {
                Ok(OverlayMode::Originals)
            } else {
                Err(ConfigError::UnknownOverlayMode { path: path.to_owned(), value: word })
            }
        },
        other => Err(wrong(path, "overlay_mode", "a string", named_type(&other))),
    }
}

/// What one entry adds to what was read before it.
pub open spec fn entry_read(config: ConfigView, entry: EntryView) -> Result<ConfigView, Fault> {
    if entry.key == "theme"@ {
        match theme_read(entry.value) {
            Ok(tier) => Ok(ConfigView { theme: Some(tier), ..config }),
            Err(fault) => Err(fault),
        }
    } else if entry.key == "out_dir"@ {
        match path_read("out_dir"@, entry.value) {
            Ok(path) => Ok(ConfigView { out_dir: Some(path), ..config }),
            Err(fault) => Err(fault),
        }
    } else if entry.key == "ffmpeg_path"@ {
        match path_read("ffmpeg_path"@, entry.value) {
            Ok(path) => Ok(ConfigView { ffmpeg_path: Some(path), ..config }),
            Err(fault) => Err(fault),
        }
    } else if entry.key == "transcode"@ {
        match bool_read("transcode"@, entry.value) {
            Ok(flag) => Ok(ConfigView { transcode: Some(flag), ..config }),
            Err(fault) => Err(fault),
        }
    } else if entry.key == "overlay_mode"@ {
        match mode_read(entry.value) {
            Ok(mode) => Ok(ConfigView { overlay_mode: Some(mode), ..config }),
            Err(fault) => Err(fault),
        }
    } else {
        Err(Fault::UnknownKey(entry.key))
    }
}

/// What the entries of a file come to: every setting, or the first fault.
pub open spec fn root_read(root: Seq<EntryView>) -> Result<ConfigView, Fault>
    decreases root.len(),
{
    if root.len() == 0 {
        Ok(nothing_set())
    } else {
        match root_read(root.drop_last()) {
            Err(fault) => Err(fault),
            Ok(config) => entry_read(config, root.last()),
        }
    }
}

proof fn lemma_root_stays(root: Seq<EntryView>, at: int)
    requires
        0 <= at <= root.len(),
        root_read(root.take(at)) is Err,
    ensures
        root_read(root) == root_read(root.take(at)),
    decreases root.len(),
{
    if at < root.len() {
        assert(root.drop_last().take(at) =~= root.take(at));
        lemma_root_stays(root.drop_last(), at);
    } else {
        assert(root.take(at) =~= root);
    }
}

/// Reads the entries of a file. A key that is not one of the settings is refused.
pub fn parse_root(path: &str, root: Vec<TomlEntry>) -> (r: Result<Config, ConfigError>)
    ensures
        match root_read(entry_views(root@)) {
            Ok(read) => r matches Ok(config) && config@ == read,
            Err(fault) => r matches Err(error) && tells(error, path@, fault),
        },
{
    let ghost all = root@;
    let ghost entries = entry_views(root@);
    let mut config = Config::default();
    assert(entries.take(0) =~= Seq::empty());
    for entry in it: root
        invariant
            it.seq() == all,
            entries == entry_views(all),
            root_read(entries.take(it.index() as int)) == Ok::<ConfigView, Fault>(config@),
    {
        let ghost now = entries.take(it.index() + 1);
        let ghost before = config@;
        proof {
            assert(now.drop_last() =~= entries.take(it.index() as int));
            assert(now.last() == entry@);
            assert(entry@.value == value_view(entry.value));
            if root_read(now) is Err {
                lemma_root_stays(entries, it.index() + 1);
            }
        }
        if same(&entry.key, "theme") {
            match parse_theme(path, entry.value) {
                Ok(tier) => {
                    config.theme = Some(tier);
                },
                Err(error) => {
                    return Err(error);
                },
            }
        } else if same(&entry.key, "out_dir") {
            match parse_path(path, "out_dir", entry.value) {
                Ok(dir) => {
                    config.out_dir = Some(dir);
                },
                Err(error) => {
                    return Err(error);
                },
            }
        } else if same(&entry.key, "ffmpeg_path") {
            match parse_path(path, "ffmpeg_path", entry.value) {
                Ok(ffmpeg) => {
                    config.ffmpeg_path = Some(ffmpeg);
                },
                Err(error) => {
                    return Err(error);
                },
            }
        } else if same(&entry.key, "transcode") {
            match parse_bool(path, "transcode", entry.value) {
                Ok(flag) => {
                    config.transcode = Some(flag);
                },
                Err(error) => {
                    return Err(error);
                },
            }
        } else if same(&entry.key, "overlay_mode") {
            match parse_overlay_mode(path, entry.value) {
                Ok(mode) => {
                    config.overlay_mode = Some(mode);
                },
                Err(error) => {
                    return Err(error);
                },
            }
        } else {
            return Err(ConfigError::UnknownKey { path: path.to_owned(), key: entry.key });
        }
    }
    assert(entries.take(all.len() as int) =~= entries);
    Ok(config)
}

/// What reading the file gave.
#[derive(Debug, PartialEq, Eq)]
pub enum ConfigText {
    /// There is none.
    Absent,
    Unreadable { source: String },
    Text(String),
}

/// What a file's text comes to.
pub open spec fn loads(file: Seq<char>, text: Seq<char>, r: Result<Config, ConfigError>) -> bool {
    match toml_root(text) {
        Err(error) => r matches Err(ConfigError::Toml { path, source }) && path@ == file && source@ == error,
        Ok(root) => match root_read(root) {
            Ok(read) => r matches Ok(config) && config@ == read,
            Err(fault) => r matches Err(error) && tells(error, file, fault),
        },
    }
}

/// Loads the settings. No file sets nothing; one that cannot be read, or that says what it should
/// not, is an error.
pub fn load(path: &str, text: ConfigText) -> (r: Result<Config, ConfigError>)
    ensures
        match text {
            ConfigText::Absent => r matches Ok(config) && config@ == nothing_set(),
            ConfigText::Unreadable { source: why } => r matches Err(ConfigError::Read { path: shown, source }) && shown@ == path@
                && source == why,
            ConfigText::Text(text) => loads(path@, text@, r),
        },
{
    let text = match text {
        ConfigText::Absent => {
            return Ok(Config::default());
        },
        ConfigText::Unreadable { source } => {
            return Err(ConfigError::Read { path: path.to_owned(), source });
        },
        ConfigText::Text(text) => text,
    };
    match parse_toml(&text) {
        Ok(root) => parse_root(path, root),
        Err(source) => Err(ConfigError::Toml { path: path.to_owned(), source }),
    }
}

// ---- writing ----

/// What keeps a setting from being written.
pub open spec fn path_fault(error: ConfigError, file: Seq<char>, named: Seq<char>, value: ConfigPathView) -> bool {
    match value {
        ConfigPathView::Text(text) => text.len() == 0 && (error matches ConfigError::EmptyPath { path, key } && path@ == file && key@
            == named),
        ConfigPathView::NotUtf8 { shown, known_as: _ } => error matches ConfigError::PathNotUtf8 { path, key, value } && path@ == file && key@ == named
            && value@ == shown,
    }
}

pub open spec fn path_writable(value: Option<ConfigPathView>) -> bool {
    match value {
        Some(ConfigPathView::Text(text)) => text.len() > 0,
        Some(ConfigPathView::NotUtf8 { .. }) => false,
        None => true,
    }
}

/// Whether settings can be written: every path is one a toml string can hold.
pub open spec fn writable(config: ConfigView) -> bool {
    path_writable(config.out_dir) && path_writable(config.ffmpeg_path)
}

pub open spec fn path_entry(key: Seq<char>, value: Option<ConfigPathView>) -> Seq<EntryView> {
    match value {
        Some(ConfigPathView::Text(text)) => seq![EntryView { key, value: ValueView::Text(text) }],
        _ => seq![],
    }
}

pub open spec fn mode_entry(mode: Option<OverlayMode>) -> Seq<EntryView> {
    match mode {
        Some(mode) => seq![EntryView { key: "overlay_mode"@, value: ValueView::Text(mode.word()) }],
        None => seq![],
    }
}

pub open spec fn theme_entry(theme: Option<Tier>) -> Seq<EntryView> {
    match theme {
        Some(tier) => seq![
            EntryView {
                key: "theme"@,
                value: ValueView::Table(seq![LeafView { key: "name"@, kind: "string"@, text: Some(tier.name()) }]),
            },
        ],
        None => seq![],
    }
}

pub open spec fn flag_entry(flag: Option<bool>) -> Seq<EntryView> {
    match flag {
        Some(flag) => seq![EntryView { key: "transcode"@, value: ValueView::Flag(flag) }],
        None => seq![],
    }
}

/// The entries settings are written as, in the order of their keys: one for each that is set.
pub open spec fn root_of(config: ConfigView) -> Seq<EntryView> {
    path_entry("ffmpeg_path"@, config.ffmpeg_path) + path_entry("out_dir"@, config.out_dir) + mode_entry(config.overlay_mode)
        + theme_entry(config.theme) + flag_entry(config.transcode)
}

proof fn lemma_keys_differ()
    ensures
        "theme"@.len() == 5,
        "out_dir"@.len() == 7,
        "ffmpeg_path"@.len() == 11,
        "transcode"@.len() == 9,
        "overlay_mode"@.len() == 12,
{
    reveal_strlit("theme");
    reveal_strlit("out_dir");
    reveal_strlit("ffmpeg_path");
    reveal_strlit("transcode");
    reveal_strlit("overlay_mode");
}

proof fn lemma_read_more(base: Seq<EntryView>, entry: EntryView)
    ensures
        root_read(base + seq![entry]) == (match root_read(base) {
            Err(fault) => Err(fault),
            Ok(config) => entry_read(config, entry),
        }),
{
    let more = base + seq![entry];
    assert(more.drop_last() =~= base);
    assert(more.last() == entry);
}

/// What is written is read back: for all settings that can be written, the entries they are written
/// as come to those settings again.
pub proof fn law_what_is_written_is_read_back(config: ConfigView)
    requires
        writable(config),
    ensures
        root_read(root_of(config)) == Ok::<ConfigView, Fault>(config),
{
    lemma_keys_differ();
    let start = ConfigView { theme: None, out_dir: None, ffmpeg_path: None, transcode: None, overlay_mode: None };
    let one = path_entry("ffmpeg_path"@, config.ffmpeg_path);
    let first = ConfigView { ffmpeg_path: config.ffmpeg_path, ..start };
    assert(root_read(one) == Ok::<ConfigView, Fault>(first)) by {
        if config.ffmpeg_path is Some {
            lemma_read_more(Seq::empty(), one[0]);
            assert(Seq::<EntryView>::empty() + seq![one[0]] =~= one);
        }
    }
    let two = one + path_entry("out_dir"@, config.out_dir);
    let second = ConfigView { out_dir: config.out_dir, ..first };
    assert(root_read(two) == Ok::<ConfigView, Fault>(second)) by {
        if config.out_dir is Some {
            lemma_read_more(one, path_entry("out_dir"@, config.out_dir)[0]);
        } else {
            assert(two =~= one);
        }
    }
    let three = two + mode_entry(config.overlay_mode);
    let third = ConfigView { overlay_mode: config.overlay_mode, ..second };
    assert(root_read(three) == Ok::<ConfigView, Fault>(third)) by {
        match config.overlay_mode {
            Some(mode) => {
                reveal_strlit("merged");
                reveal_strlit("both");
                reveal_strlit("originals");
                lemma_read_more(two, mode_entry(config.overlay_mode)[0]);
            },
            None => {
                assert(three =~= two);
            },
        }
    }
    let four = three + theme_entry(config.theme);
    let fourth = ConfigView { theme: config.theme, ..third };
    assert(root_read(four) == Ok::<ConfigView, Fault>(fourth)) by {
        match config.theme {
            Some(tier) => {
                reveal_strlit("full");
                reveal_strlit("compatible");
                let leaf = LeafView { key: "name"@, kind: "string"@, text: Some(tier.name()) };
                let leaves = seq![leaf];
                assert("full"@.len() == 4 && "compatible"@.len() == 10);
                assert(tier_of(tier.name()) == Some(tier));
                assert(leaves.last() == leaf);
                assert(leaves.drop_last() =~= Seq::empty());
                assert(theme_so_far(leaves.drop_last()) == Ok::<Option<Tier>, Fault>(None));
                assert(theme_so_far(leaves) == Ok::<Option<Tier>, Fault>(Some(tier)));
                lemma_read_more(three, theme_entry(config.theme)[0]);
            },
            None => {
                assert(four =~= three);
            },
        }
    }
    let five = four + flag_entry(config.transcode);
    if config.transcode is Some {
        lemma_read_more(four, flag_entry(config.transcode)[0]);
    } else {
        assert(five =~= four);
    }
}

proof fn lemma_settings_print(config: ConfigView)
    ensures
        keys_ascend(root_of(config)),
        tables_stay(root_of(config)),
{
    lemma_keys_differ();
    reveal_strlit("theme");
    reveal_strlit("out_dir");
    reveal_strlit("ffmpeg_path");
    reveal_strlit("transcode");
    reveal_strlit("overlay_mode");
    reveal_with_fuel(text_le, 3);
    let (a, b, c, d, e) = ("ffmpeg_path"@, "out_dir"@, "overlay_mode"@, "theme"@, "transcode"@);
    assert(b.drop_first()[0] == 'u' && c.drop_first()[0] == 'v');
    assert(d.drop_first()[0] == 'h' && e.drop_first()[0] == 'r');
    assert(text_le(a, b) && text_le(a, c) && text_le(a, d) && text_le(a, e));
    assert(text_le(b, c) && text_le(b, d) && text_le(b, e));
    assert(text_le(c, d) && text_le(c, e) && text_le(d, e));
    let root = root_of(config);
    assert forall|i: int, j: int| #![trigger root[i], root[j]] 0 <= i < j < root.len() implies text_le(root[i].key, root[j].key)
        && root[i].key != root[j].key by {}
    reveal_strlit("name");
    reveal_strlit("$__toml_private_datetime");
    assert("name"@.len() != DATE_MARKER@.len());
}

fn add_setting(root: &mut Vec<SettingEntry>, key: &str, value: Setting)
    ensures
        ({
            let entry = SettingEntry { key: final(root)@.last().key, value };
            final(root)@.last().key@ == key@ && setting_views(final(root)@) == setting_views(old(root)@).push(entry@)
        }),
{
    let ghost before = root@;
    let entry = SettingEntry { key: key.to_owned(), value };
    root.push(entry);
    assert(setting_views(root@) =~= setting_views(before).push(entry@));
}

/// A path's text, where a toml string can hold it.
pub fn path_text(path: &str, key: &str, value: &ConfigPath) -> (r: Result<String, ConfigError>)
    ensures
        match r {
            Ok(text) => value@ == ConfigPathView::Text(text@) && text@.len() > 0,
            Err(error) => path_fault(error, path@, key@, value@),
        },
{
    match value {
        ConfigPath::Text(text) => {
            if is_empty_text(text) {
                Err(ConfigError::EmptyPath { path: path.to_owned(), key: key.to_owned() })
            } else {
                Ok(text.clone())
            }
        },
        ConfigPath::NotUtf8 { shown, known_as: _ } => Err(
            ConfigError::PathNotUtf8 { path: path.to_owned(), key: key.to_owned(), value: shown.clone() },
        ),
    }
}

/// What writing settings comes to.
pub open spec fn serializes(file: Seq<char>, config: ConfigView, r: Result<String, ConfigError>) -> bool {
    if !path_writable(config.out_dir) {
        r matches Err(error) && path_fault(error, file, "out_dir"@, config.out_dir.unwrap())
    } else if !path_writable(config.ffmpeg_path) {
        r matches Err(error) && path_fault(error, file, "ffmpeg_path"@, config.ffmpeg_path.unwrap())
    } else {
        match toml_text(root_of(config)) {
            Ok(text) => r matches Ok(written) && written@ == text,
            Err(why) => r matches Err(ConfigError::Serialize { path, source }) && path@ == file && source@ == why,
        }
    }
}

/// The path a text was taken from.
spec fn is_text_of(text: Option<String>, path: Option<ConfigPath>) -> bool {
    match (text, path) {
        (Some(text), Some(path)) => path@ == ConfigPathView::Text(text@) && text@.len() > 0,
        (None, None) => true,
        _ => false,
    }
}

#[verifier::rlimit(40)]
fn settings(config: &Config, out_dir: Option<String>, ffmpeg: Option<String>) -> (r: Vec<SettingEntry>)
    requires
        is_text_of(out_dir, config.out_dir),
        is_text_of(ffmpeg, config.ffmpeg_path),
    ensures
        setting_views(r@) == root_of(config@),
{
    let mut root: Vec<SettingEntry> = Vec::new();
    assert(setting_views(root@) =~= seq![]);
    if let Some(text) = ffmpeg {
        add_setting(&mut root, "ffmpeg_path", Setting::Text(text));
    }
    assert(setting_views(root@) =~= path_entry("ffmpeg_path"@, config@.ffmpeg_path));
    let ghost so_far = setting_views(root@);
    if let Some(text) = out_dir {
        add_setting(&mut root, "out_dir", Setting::Text(text));
    }
    assert(setting_views(root@) =~= so_far + path_entry("out_dir"@, config@.out_dir));
    let ghost so_far = setting_views(root@);
    if let Some(mode) = config.overlay_mode {
        add_setting(&mut root, "overlay_mode", Setting::Text(mode.as_word().to_owned()));
    }
    assert(setting_views(root@) =~= so_far + mode_entry(config.overlay_mode));
    let ghost so_far = setting_views(root@);
    if let Some(tier) = config.theme {
        add_setting(&mut root, "theme", Setting::Named { key: "name".to_owned(), text: tier.as_name().to_owned() });
    }
    assert(setting_views(root@) =~= so_far + theme_entry(config.theme));
    let ghost so_far = setting_views(root@);
    if let Some(transcode) = config.transcode {
        add_setting(&mut root, "transcode", Setting::Flag(transcode));
    }
    assert(setting_views(root@) =~= so_far + flag_entry(config.transcode));
    assert(setting_views(root@) =~= root_of(config@));
    root
}

proof fn lemma_loads_back(text: Seq<char>, config: ConfigView)
    requires
        writable(config),
        toml_root(text) == Ok::<Seq<EntryView>, Seq<char>>(root_of(config)),
    ensures
        forall|file: Seq<char>, loaded: Result<Config, ConfigError>| #[trigger]
            loads(file, text, loaded) ==> (loaded matches Ok(read) && read@ == config),
{
    law_what_is_written_is_read_back(config);
}

/// The text settings are written as: every one that is set, and none that is not. Loading that text
/// gives the same settings.
pub fn serialize(path: &str, config: &Config) -> (r: Result<String, ConfigError>)
    ensures
        serializes(path@, config@, r),
        r matches Ok(text) ==> forall|file: Seq<char>, loaded: Result<Config, ConfigError>| #[trigger]
            loads(file, text@, loaded) ==> (loaded matches Ok(read) && read@ == config@),
{
    let out_dir: Option<String> = match &config.out_dir {
        Some(out) => match path_text(path, "out_dir", out) {
            Ok(text) => Some(text),
            Err(error) => {
                return Err(error);
            },
        },
        None => None,
    };
    let ffmpeg: Option<String> = match &config.ffmpeg_path {
        Some(ffmpeg) => match path_text(path, "ffmpeg_path", ffmpeg) {
            Ok(text) => Some(text),
            Err(error) => {
                return Err(error);
            },
        },
        None => None,
    };
    let root = settings(config, out_dir, ffmpeg);
    proof {
        lemma_settings_print(config@);
    }
    match print_toml(&root) {
        Ok(text) => {
            proof {
                lemma_loads_back(text@, config@);
            }
            Ok(text)
        },
        Err(source) => Err(ConfigError::Serialize { path: path.to_owned(), source }),
    }
}

/// Whether some entry stands under a key.
pub open spec fn has_key(root: Seq<EntryView>, key: Seq<char>) -> bool {
    exists|i: int| 0 <= i < root.len() && (#[trigger] root[i]).key == key
}

/// Whether an entry is read into the setting of its own key.
pub open spec fn is_set_by(config: ConfigView, entry: EntryView) -> bool {
    &&& entry.key == "out_dir"@ ==> (entry.value matches ValueView::Text(text) && text.len() > 0 && config.out_dir == Some(
        ConfigPathView::Text(text),
    ))
    &&& entry.key == "ffmpeg_path"@ ==> (entry.value matches ValueView::Text(text) && text.len() > 0 && config.ffmpeg_path == Some(
        ConfigPathView::Text(text),
    ))
    &&& entry.key == "transcode"@ ==> (entry.value matches ValueView::Flag(flag) && config.transcode == Some(flag))
    &&& entry.key == "overlay_mode"@ ==> (entry.value matches ValueView::Text(word) && (word == "merged"@ || word == "both"@ || word
        == "originals"@) && (config.overlay_mode == Some(OverlayMode::Merged) <==> word == "merged"@) && (config.overlay_mode == Some(
        OverlayMode::Both,
    ) <==> word == "both"@) && (config.overlay_mode == Some(OverlayMode::Originals) <==> word == "originals"@))
    &&& entry.key == "theme"@ ==> (entry.value matches ValueView::Table(leaves) && leaves.len() > 0 && (leaves.last().text matches Some(
        word,
    ) && (word == "full"@ || word == "compatible"@) && (config.theme == Some(Tier::Full) <==> word == "full"@) && (config.theme
        == Some(Tier::Compatible) <==> word == "compatible"@)))
}

/// A setting is what the last entry under its own key says, is not set where no entry has the key,
/// and no entry stands under any other key.
pub proof fn law_a_setting_is_read_under_its_own_key(root: Seq<EntryView>)
    requires
        root_read(root) is Ok,
    ensures
        forall|i: int|
            0 <= i < root.len() && !has_key(root.skip(i + 1), (#[trigger] root[i]).key) ==> is_set_by(root_read(root)->Ok_0, root[i]),
        forall|i: int|
            0 <= i < root.len() ==> {
                let key = (#[trigger] root[i]).key;
                key == "theme"@ || key == "out_dir"@ || key == "ffmpeg_path"@ || key == "transcode"@ || key == "overlay_mode"@
            },
        !has_key(root, "theme"@) ==> root_read(root)->Ok_0.theme is None,
        !has_key(root, "out_dir"@) ==> root_read(root)->Ok_0.out_dir is None,
        !has_key(root, "ffmpeg_path"@) ==> root_read(root)->Ok_0.ffmpeg_path is None,
        !has_key(root, "transcode"@) ==> root_read(root)->Ok_0.transcode is None,
        !has_key(root, "overlay_mode"@) ==> root_read(root)->Ok_0.overlay_mode is None,
{
    lemma_unset(root);
    assert forall|i: int| 0 <= i < root.len() implies {
        let key = (#[trigger] root[i]).key;
        key == "theme"@ || key == "out_dir"@ || key == "ffmpeg_path"@ || key == "transcode"@ || key == "overlay_mode"@
    } by {
        lemma_known_key(root, i);
    }
    assert forall|i: int| 0 <= i < root.len() && !has_key(root.skip(i + 1), (#[trigger] root[i]).key) implies is_set_by(
        root_read(root)->Ok_0,
        root[i],
    ) by {
        lemma_last_sets(root, i);
    }
}

proof fn lemma_last_entry(root: Seq<EntryView>)
    requires
        root_read(root) is Ok,
        root.len() > 0,
    ensures
        root_read(root.drop_last()) is Ok,
        moves_only(root_read(root.drop_last())->Ok_0, root_read(root)->Ok_0, root.last().key),
        is_set_by(root_read(root)->Ok_0, root.last()),
        ({
            let key = root.last().key;
            key == "theme"@ || key == "out_dir"@ || key == "ffmpeg_path"@ || key == "transcode"@ || key == "overlay_mode"@
        }),
{
    lemma_one_entry(root_read(root.drop_last())->Ok_0, root.last());
}

proof fn lemma_known_key(root: Seq<EntryView>, at: int)
    requires
        root_read(root) is Ok,
        0 <= at < root.len(),
    ensures
        ({
            let key = root[at].key;
            key == "theme"@ || key == "out_dir"@ || key == "ffmpeg_path"@ || key == "transcode"@ || key == "overlay_mode"@
        }),
    decreases root.len(),
{
    lemma_last_entry(root);
    if at < root.len() - 1 {
        lemma_known_key(root.drop_last(), at);
    }
}

proof fn lemma_unset(root: Seq<EntryView>)
    requires
        root_read(root) is Ok,
    ensures
        !has_key(root, "theme"@) ==> root_read(root)->Ok_0.theme is None,
        !has_key(root, "out_dir"@) ==> root_read(root)->Ok_0.out_dir is None,
        !has_key(root, "ffmpeg_path"@) ==> root_read(root)->Ok_0.ffmpeg_path is None,
        !has_key(root, "transcode"@) ==> root_read(root)->Ok_0.transcode is None,
        !has_key(root, "overlay_mode"@) ==> root_read(root)->Ok_0.overlay_mode is None,
    decreases root.len(),
{
    if root.len() > 0 {
        let rest = root.drop_last();
        lemma_last_entry(root);
        lemma_unset(rest);
        assert(root[root.len() - 1].key == root.last().key);
        assert(has_key(root, root.last().key));
        assert forall|key: Seq<char>| #[trigger] has_key(rest, key) implies has_key(root, key) by {
            let i = choose|i: int| 0 <= i < rest.len() && (#[trigger] rest[i]).key == key;
            assert(root[i].key == key);
        }
    }
}

proof fn lemma_last_sets(root: Seq<EntryView>, at: int)
    requires
        root_read(root) is Ok,
        0 <= at < root.len(),
        !has_key(root.skip(at + 1), root[at].key),
    ensures
        is_set_by(root_read(root)->Ok_0, root[at]),
    decreases root.len(),
{
    lemma_last_entry(root);
    let rest = root.drop_last();
    if at < rest.len() {
        let (behind, shorter) = (root.skip(at + 1), rest.skip(at + 1));
        if has_key(shorter, root[at].key) {
            let j = choose|j: int| 0 <= j < shorter.len() && (#[trigger] shorter[j]).key == root[at].key;
            assert(behind[j].key == root[at].key);
        }
        assert(behind[behind.len() - 1].key == root.last().key);
        lemma_last_sets(rest, at);
        lemma_set_stays(root_read(rest)->Ok_0, root_read(root)->Ok_0, root.last().key, root[at]);
    }
}

/// Whether only the setting of one key moved.
spec fn moves_only(before: ConfigView, after: ConfigView, key: Seq<char>) -> bool {
    &&& key == "theme"@ || after.theme == before.theme
    &&& key == "out_dir"@ || after.out_dir == before.out_dir
    &&& key == "ffmpeg_path"@ || after.ffmpeg_path == before.ffmpeg_path
    &&& key == "transcode"@ || after.transcode == before.transcode
    &&& key == "overlay_mode"@ || after.overlay_mode == before.overlay_mode
}

proof fn lemma_one_entry(before: ConfigView, entry: EntryView)
    requires
        entry_read(before, entry) is Ok,
    ensures
        is_set_by(entry_read(before, entry)->Ok_0, entry),
        moves_only(before, entry_read(before, entry)->Ok_0, entry.key),
        entry.key == "theme"@ || entry.key == "out_dir"@ || entry.key == "ffmpeg_path"@ || entry.key == "transcode"@ || entry.key
            == "overlay_mode"@,
{
    lemma_keys_apart();
    lemma_words_apart();
}

proof fn lemma_set_stays(before: ConfigView, after: ConfigView, key: Seq<char>, entry: EntryView)
    requires
        is_set_by(before, entry),
        moves_only(before, after, key),
        entry.key != key,
    ensures
        is_set_by(after, entry),
{
}

proof fn lemma_keys_apart()
    ensures
        "theme"@ != "out_dir"@,
        "theme"@ != "ffmpeg_path"@,
        "theme"@ != "transcode"@,
        "theme"@ != "overlay_mode"@,
        "out_dir"@ != "ffmpeg_path"@,
        "out_dir"@ != "transcode"@,
        "out_dir"@ != "overlay_mode"@,
        "ffmpeg_path"@ != "transcode"@,
        "ffmpeg_path"@ != "overlay_mode"@,
        "transcode"@ != "overlay_mode"@,
{
    reveal_strlit("theme");
    reveal_strlit("out_dir");
    reveal_strlit("ffmpeg_path");
    reveal_strlit("transcode");
    reveal_strlit("overlay_mode");
    assert("theme"@.len() == 5 && "out_dir"@.len() == 7 && "ffmpeg_path"@.len() == 11 && "transcode"@.len() == 9
        && "overlay_mode"@.len() == 12);
}

proof fn lemma_words_apart()
    ensures
        "merged"@ != "both"@,
        "merged"@ != "originals"@,
        "both"@ != "originals"@,
        "full"@ != "compatible"@,
{
    reveal_strlit("merged");
    reveal_strlit("both");
    reveal_strlit("originals");
    reveal_strlit("full");
    reveal_strlit("compatible");
    assert("merged"@.len() == 6 && "both"@.len() == 4 && "originals"@.len() == 9 && "full"@.len() == 4 && "compatible"@.len() == 10);
}

} // verus!
