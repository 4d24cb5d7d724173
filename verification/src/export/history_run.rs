//! A run that writes conversations out as documents: what it takes in, where each document goes,
//! and what it reports.

use vstd::prelude::*;

use crate::export::chat_dirs::{
    after_asking, apart, dir_views, law_asking_keeps_apart, law_opened_is_apart, lemma_after_asking_is_asked,
    lemma_asked_is_after_asking, lemma_opened_finite, named_views, opened, Assignment, Conversations, CHAT_DIR,
};
use crate::export::chat_fix::{owned_by, recorded_in, RecordedDirs, TokenOwner};
use crate::export::fix_run::{native, native_of};
use crate::export::history::{merge, merges, thread_key, MergedHistory, Thread};
use crate::export::manifest::{error_words, names_export, DirectoryClaim, ExportId, ManifestError, RawItem};
use crate::export::model::{ChatHistory, ChatMessage, Conversation, ConversationId, Snap, SnapHistory};
use crate::export::out_root::{out_root_words, OutRootError};
use crate::export::outputs::{
    all_handed_back, fresh_path, given_apart, lemma_derived_is_fresh, lemma_fresh_below, lemma_given_fresh, lemma_nothing_given, no_outputs,
    output_name_of, record_views, with_path, Given, OutState, Outputs,
};
use crate::export::state::{claim_refused, claimable, claimed_all, law_every_claim_is_held, Manifest};
use crate::order::{
    in_order, keys_distinct, lemma_filter_distinct, lemma_filter_from, lemma_filter_holds, lemma_filter_in_order, Ranked,
};
use crate::paths::{joined, parent_of, FilePath, PathView};
use crate::text::{decimal, decimal_text, same};

verus! {

// ---- formats ----

/// What a conversation is written out as.
#[derive(Debug, Clone, Copy, PartialEq, Eq, PartialOrd, Ord, Hash, Structural)]
pub enum HistoryFormat {
    Html,
    Json,
    Text,
    Csv,
}

impl HistoryFormat {
    pub const ALL: [HistoryFormat; 4] = [HistoryFormat::Html, HistoryFormat::Json, HistoryFormat::Text, HistoryFormat::Csv];

    pub open spec fn word(self) -> Seq<char> {
        match self {
            HistoryFormat::Html => "html"@,
            HistoryFormat::Json => "json"@,
            HistoryFormat::Text => "text"@,
            HistoryFormat::Csv => "csv"@,
        }
    }

    #[must_use]
    pub fn label(self) -> (r: &'static str)
        ensures
            r@ == self.word(),
    {
        match self {
            HistoryFormat::Html => "html",
            HistoryFormat::Json => "json",
            HistoryFormat::Text => "text",
            HistoryFormat::Csv => "csv",
        }
    }
}

/// The formats a run was asked for.
#[derive(Debug, Clone, Copy, PartialEq, Eq, Structural)]
pub struct Formats {
    pub html: bool,
    pub json: bool,
    pub text: bool,
    pub csv: bool,
}

/// The formats asked for, in the order they are written.
pub open spec fn asked_for(formats: Formats) -> Seq<HistoryFormat> {
    (if formats.html {
        seq![HistoryFormat::Html]
    } else {
        seq![]
    }) + (if formats.json {
        seq![HistoryFormat::Json]
    } else {
        seq![]
    }) + (if formats.text {
        seq![HistoryFormat::Text]
    } else {
        seq![]
    }) + (if formats.csv {
        seq![HistoryFormat::Csv]
    } else {
        seq![]
    })
}

impl Formats {
    pub open spec fn has(self, format: HistoryFormat) -> bool {
        match format {
            HistoryFormat::Html => self.html,
            HistoryFormat::Json => self.json,
            HistoryFormat::Text => self.text,
            HistoryFormat::Csv => self.csv,
        }
    }

    pub fn contains(self, format: HistoryFormat) -> (r: bool)
        ensures
            r == self.has(format),
    {
        match format {
            HistoryFormat::Html => self.html,
            HistoryFormat::Json => self.json,
            HistoryFormat::Text => self.text,
            HistoryFormat::Csv => self.csv,
        }
    }

    /// The formats in the order they are written.
    pub fn listed(self) -> (r: Vec<HistoryFormat>)
        ensures
            r@ == asked_for(self),
    {
        let mut listed: Vec<HistoryFormat> = Vec::new();
        if self.html {
            listed.push(HistoryFormat::Html);
        }
        if self.json {
            listed.push(HistoryFormat::Json);
        }
        if self.text {
            listed.push(HistoryFormat::Text);
        }
        if self.csv {
            listed.push(HistoryFormat::Csv);
        }
        assert(listed@ =~= asked_for(self));
        listed
    }
}

/// A format is written exactly where it was asked for.
pub proof fn law_only_asked_formats_are_written(formats: Formats, format: HistoryFormat)
    ensures
        asked_for(formats).contains(format) <==> formats.has(format),
{
    let all = asked_for(formats);
    let html: int = if formats.html { 1 } else { 0 };
    let json: int = if formats.json { 1 } else { 0 };
    let text: int = if formats.text { 1 } else { 0 };
    if formats.has(format) {
        let at: int = match format {
            HistoryFormat::Html => 0,
            HistoryFormat::Json => html,
            HistoryFormat::Text => html + json,
            HistoryFormat::Csv => html + json + text,
        };
        assert(all[at] == format);
    }
}

/// What a run is asked to do.
#[derive(Debug, PartialEq, Eq)]
pub struct RunInputs {
    /// The directory an export lies in, as it was given.
    pub source: String,
    /// The directory to write to, as it was given.
    pub out_root: String,
    /// Where manifests are kept, where that is not the usual place.
    pub manifest_dir: Option<FilePath>,
    pub conversations: Vec<ConversationId>,
    pub formats: Formats,
}

// ---- errors ----

/// Why no plan could be made.
#[derive(Debug, PartialEq, Eq)]
pub enum PlanError {
    Manifest(ManifestError),
    OutRoot(OutRootError),
}

/// The words of a [`PlanError`].
pub open spec fn plan_words(e: PlanError) -> Seq<char> {
    match e {
        PlanError::Manifest(error) => error_words(error),
        PlanError::OutRoot(error) => out_root_words(error),
    }
}

impl PlanError {
    /// The sentence a reader is shown.
    #[must_use]
    pub fn message(&self) -> (r: String)
        ensures
            r@ == plan_words(*self),
    {
        match self {
            PlanError::Manifest(error) => {
                error.message()
            },
            PlanError::OutRoot(error) => {
                error.message()
            },
        }
    }
}

/// Why a run stopped. A source is spelled as it is shown, and a failure below as it puts itself.
#[derive(Debug, PartialEq, Eq)]
pub enum RunError {
    SeveralExports { source: String, count: usize },
    NoJsonDir(String),
    NoHistory(String),
    InvalidExportId(String),
    Json(String),
    Discover(String),
    Manifest(ManifestError),
    Plan(PlanError),
    NoSelection,
    NoFormats,
    Write(String),
    Panicked,
}

/// The words of a [`RunError`].
pub open spec fn run_words(e: RunError) -> Seq<char> {
    match e {
        RunError::SeveralExports { source, count } => decimal(count as nat) + " exports share "@ + source@ + "; point the source at the dir holding the one to export"@,
        RunError::NoJsonDir(source) => "no unpacked export part with a json/ dir under "@ + source@ + "; extract the export's zips first"@,
        RunError::NoHistory(source) => "no chat_history.json or snap_history.json under "@ + source@ + "; the chat category was not ticked when the export was requested"@,
        RunError::InvalidExportId(source) => "the export part under "@ + source@ + " names an id this build cannot keep a manifest for; rename the part dir"@,
        RunError::Json(error) => error@,
        RunError::Discover(error) => error@,
        RunError::Manifest(error) => error_words(error),
        RunError::Plan(error) => plan_words(error),
        RunError::NoSelection => "pick at least one conversation"@,
        RunError::NoFormats => "pick at least one format"@,
        RunError::Write(source) => "could not write a history document: "@ + source@,
        RunError::Panicked => "the run stopped unexpectedly; this is a bug in exportsnap, not in your data"@,
    }
}

impl RunError {
    /// The sentence a reader is shown.
    #[must_use]
    pub fn message(&self) -> (r: String)
        ensures
            r@ == run_words(*self),
    {
        match self {
            RunError::SeveralExports { source, count } => {
                let mut out = decimal_text(*count as u128);
                out.append(" exports share ");
                out.append(source);
                out.append("; point the source at the dir holding the one to export");
                out
            },
            RunError::NoJsonDir(source) => {
                let mut out = "no unpacked export part with a json/ dir under ".to_owned();
                out.append(source);
                out.append("; extract the export's zips first");
                out
            },
            RunError::NoHistory(source) => {
                let mut out = "no chat_history.json or snap_history.json under ".to_owned();
                out.append(source);
                out.append("; the chat category was not ticked when the export was requested");
                out
            },
            RunError::InvalidExportId(source) => {
                let mut out = "the export part under ".to_owned();
                out.append(source);
                out.append(" names an id this build cannot keep a manifest for; rename the part dir");
                out
            },
            RunError::Json(error) => {
                error.clone()
            },
            RunError::Discover(error) => {
                error.clone()
            },
            RunError::Manifest(error) => {
                error.message()
            },
            RunError::Plan(error) => {
                error.message()
            },
            RunError::NoSelection => {
                "pick at least one conversation".to_owned()
            },
            RunError::NoFormats => {
                "pick at least one format".to_owned()
            },
            RunError::Write(source) => {
                let mut out = "could not write a history document: ".to_owned();
                out.append(source);
                out
            },
            RunError::Panicked => {
                "the run stopped unexpectedly; this is a bug in exportsnap, not in your data".to_owned()
            },
        }
    }
}

// ---- the plan ----

/// Where one conversation's documents go.
#[derive(Debug, PartialEq, Eq)]
pub struct Documents {
    pub json: FilePath,
    pub text: FilePath,
    pub csv: FilePath,
    pub html: FilePath,
}

#[derive(Debug, PartialEq, Eq)]
pub struct HistoryEntry {
    pub key: ConversationId,
    pub directory: FilePath,
    pub documents: Documents,
}

/// Where every conversation's documents go, in the order of their keys.
#[derive(Debug, PartialEq, Eq)]
pub struct HistoryPlan {
    pub entries: Vec<HistoryEntry>,
}

pub struct EntryView {
    pub key: Seq<char>,
    pub directory: PathView,
    pub json: PathView,
    pub text: PathView,
    pub csv: PathView,
    pub html: PathView,
}

impl View for HistoryEntry {
    type V = EntryView;

    open spec fn view(&self) -> EntryView {
        EntryView {
            key: self.key.0@,
            directory: self.directory@,
            json: self.documents.json@,
            text: self.documents.text@,
            csv: self.documents.csv@,
            html: self.documents.html@,
        }
    }
}

pub open spec fn entry_views(entries: Seq<HistoryEntry>) -> Seq<EntryView> {
    entries.map_values(|entry: HistoryEntry| entry@)
}

/// How far a plan has come: the directories and paths given out, and the entries.
#[verifier::ext_equal]
pub struct HistoryState {
    pub homes: Assignment,
    pub out: OutState,
    pub entries: Seq<EntryView>,
}

pub open spec fn history_start(root: PathView, recorded: RecordedDirs) -> HistoryState {
    HistoryState {
        homes: opened(root, named_views(recorded.named@), dir_views(recorded.occupied@)),
        out: all_handed_back(no_outputs(), root, record_views(recorded.outputs.recorded@)),
        entries: Seq::empty(),
    }
}

/// What one conversation adds: its directory, and in it one fresh path for each document.
pub open spec fn history_step(state: HistoryState, root: PathView, key: Seq<char>) -> HistoryState {
    let homes = after_asking(state.homes, root, key);
    let directory = homes.assigned[key];
    let json = fresh_path(state.out, directory, "history"@, "json"@);
    let with_json = with_path(state.out, json);
    let text = fresh_path(with_json, directory, "history"@, "txt"@);
    let with_text = with_path(with_json, text);
    let csv = fresh_path(with_text, directory, "history"@, "csv"@);
    let with_csv = with_path(with_text, csv);
    let html = fresh_path(with_csv, directory, "history"@, "html"@);
    HistoryState {
        homes,
        out: with_path(with_csv, html),
        entries: state.entries.push(EntryView { key, directory, json, text, csv, html }),
    }
}

pub open spec fn history_plan(start: HistoryState, root: PathView, keys: Seq<ConversationId>) -> HistoryState
    decreases keys.len(),
{
    if keys.len() == 0 {
        start
    } else {
        history_step(history_plan(start, root, keys.drop_last()), root, keys.last().0@)
    }
}

pub open spec fn id_key() -> spec_fn(ConversationId) -> Seq<char> {
    |id: ConversationId| id.0@
}

/// Whether conversations stand in order, each once.
pub open spec fn keys_in_order(keys: Seq<ConversationId>) -> bool {
    in_order(keys) && keys_distinct(keys, id_key())
}

/// Plans from what was recorded.
fn plan_under(keys: &Vec<ConversationId>, root: &FilePath, recorded: &RecordedDirs) -> (r: HistoryPlan)
    ensures
        entry_views(r.entries@) == history_plan(history_start(root@, *recorded), root@, keys@).entries,
{
    let mut conversations = Conversations::new(root.clone(), &recorded.named, &recorded.occupied);
    let mut outputs = Outputs::new(root.clone(), &recorded.outputs);
    let ghost start = history_start(root@, *recorded);
    let mut entries: Vec<HistoryEntry> = Vec::new();
    assert(entry_views(entries@) =~= start.entries);
    assert(keys@.take(0) =~= Seq::empty());
    let mut i: usize = 0;
    while i < keys.len()
        invariant
            i <= keys@.len(),
            conversations.wf(),
            conversations.root() == root@,
            outputs.wf(),
            start == history_start(root@, *recorded),
            ({
                let state = history_plan(start, root@, keys@.take(i as int));
                &&& state.homes == conversations.state()
                &&& state.out == outputs.state()
                &&& state.entries == entry_views(entries@)
            }),
        decreases keys.len() - i,
    {
        let key = &keys[i];
        let ghost (homes, out) = (conversations.state(), outputs.state());
        let directory = conversations.dir(key);
        let json = outputs.reserve(&directory, "history", "json");
        let ghost with_json = outputs.state();
        let text = outputs.reserve(&directory, "history", "txt");
        let ghost with_text = outputs.state();
        let csv = outputs.reserve(&directory, "history", "csv");
        let ghost with_csv = outputs.state();
        let html = outputs.reserve(&directory, "history", "html");
        proof {
            let now = keys@.take(i + 1);
            assert(now.drop_last() =~= keys@.take(i as int));
            assert(now.last() == *key);
            lemma_asked_is_after_asking(homes, conversations.state(), root@, key.0@);
            lemma_derived_is_fresh(out, with_json, directory@, "history"@, "json"@, json@);
            lemma_derived_is_fresh(with_json, with_text, directory@, "history"@, "txt"@, text@);
            lemma_derived_is_fresh(with_text, with_csv, directory@, "history"@, "csv"@, csv@);
            lemma_derived_is_fresh(with_csv, outputs.state(), directory@, "history"@, "html"@, html@);
        }
        let entry = HistoryEntry { key: key.clone(), directory, documents: Documents { json, text, csv, html } };
        let ghost before = entries@;
        entries.push(entry);
        assert(entry_views(entries@) =~= entry_views(before).push(entry@));
        i += 1;
    }
    assert(keys@.take(i as int) =~= keys@);
    HistoryPlan { entries }
}

/// Plans the documents of some conversations: their directories as earlier runs recorded them, and
/// no document on a path anything else has. `out_root` is the resolved out root, or why it could
/// not be resolved.
pub fn plan(
    keys: &Vec<ConversationId>,
    attribution: &Vec<TokenOwner>,
    out_root: Result<FilePath, OutRootError>,
    manifest: Option<&Manifest>,
) -> (r: Result<HistoryPlan, PlanError>)
    requires
        keys_in_order(keys@),
    ensures
        plans(
            keys@,
            owned_by(attribution@),
            out_root,
            match manifest {
                Some(manifest) => Some(manifest.rows@),
                None => None,
            },
            r,
        ),
{
    let recorded = match manifest {
        Some(manifest) => match RecordedDirs::read_by_tokens(attribution, manifest) {
            Ok(recorded) => recorded,
            Err(error) => {
                return Err(PlanError::Manifest(error));
            },
        },
        None => RecordedDirs::empty(),
    };
    assert(manifest matches Some(manifest) ==> recorded_in(manifest.rows@, owned_by(attribution@), Ok(recorded)) && reads_back(
        manifest.rows@,
        owned_by(attribution@),
    ));
    let root = match out_root {
        Ok(root) => root,
        Err(error) => {
            return Err(PlanError::OutRoot(error));
        },
    };
    let chat_root = root.join(CHAT_DIR);
    let plan = plan_under(keys, &chat_root, &recorded);
    proof {
        assert(planned_from(plan, keys@, root@, recorded));
        match manifest {
            Some(manifest) => {
                assert(planned_again(plan, keys@, root@, manifest.rows@, owned_by(attribution@)));
            },
            None => {
                assert(planned_afresh(plan, keys@, root@));
            },
        }
    }
    Ok(plan)
}

/// Whether what the rows recorded can be read.
pub open spec fn reads_back(rows: Seq<RawItem>, conversations: Map<Seq<char>, Seq<char>>) -> bool {
    exists|recorded: RecordedDirs| #[trigger] recorded_in(rows, conversations, Ok(recorded))
}

/// What planning comes to, given the rows of the manifest where there is one: the rows are read
/// before the out root is asked for.
pub open spec fn plans(
    keys: Seq<ConversationId>,
    conversations: Map<Seq<char>, Seq<char>>,
    out_root: Result<FilePath, OutRootError>,
    rows: Option<Seq<RawItem>>,
    r: Result<HistoryPlan, PlanError>,
) -> bool {
    match rows {
        None => match out_root {
            Ok(root) => r matches Ok(plan) && planned_afresh(plan, keys, root@),
            Err(error) => r == Err::<HistoryPlan, PlanError>(PlanError::OutRoot(error)),
        },
        Some(rows) => match r {
            Err(PlanError::Manifest(error)) => recorded_in(rows, conversations, Err(error)),
            Err(PlanError::OutRoot(error)) => out_root == Err::<FilePath, OutRootError>(error) && reads_back(rows, conversations),
            Ok(plan) => out_root matches Ok(root) && planned_again(plan, keys, root@, rows, conversations),
        },
    }
}

/// Whether a plan is the one that nothing recorded leads to.
pub open spec fn planned_afresh(plan: HistoryPlan, keys: Seq<ConversationId>, out_root: PathView) -> bool {
    exists|recorded: RecordedDirs| #[trigger]
        planned_from(plan, keys, out_root, recorded) && recorded.named@.len() == 0 && recorded.occupied@.len() == 0
            && recorded.outputs.recorded@.len() == 0
}

/// Whether a plan is the one the rows of a table lead to.
pub open spec fn planned_again(
    plan: HistoryPlan,
    keys: Seq<ConversationId>,
    out_root: PathView,
    rows: Seq<RawItem>,
    conversations: Map<Seq<char>, Seq<char>>,
) -> bool {
    exists|recorded: RecordedDirs| #[trigger]
        planned_from(plan, keys, out_root, recorded) && recorded_in(rows, conversations, Ok(recorded))
}

/// Whether a plan is the one what was recorded leads to.
pub open spec fn planned_from(plan: HistoryPlan, keys: Seq<ConversationId>, out_root: PathView, recorded: RecordedDirs) -> bool {
    let root = joined(out_root, CHAT_DIR@);
    entry_views(plan.entries@) == history_plan(history_start(root, recorded), root, keys).entries
}

// ---- loading ----

/// One export found under a source: its id, and where each of its unpacked parts keeps its json.
#[derive(Debug, PartialEq, Eq)]
pub struct ExportGroup {
    pub id: String,
    pub json_dirs: Vec<Option<FilePath>>,
}

/// The two histories an export may hold.
#[derive(Debug, PartialEq, Eq)]
pub struct ExportHistories {
    pub chat: Option<ChatHistory>,
    pub snap: Option<SnapHistory>,
}

/// An export's conversations, merged.
#[derive(Debug, PartialEq, Eq)]
pub struct Loaded {
    pub merged: MergedHistory,
    /// What its manifest is filed under; nothing for a bare json directory.
    pub export_id: Option<ExportId>,
    pub chat: ChatHistory,
}

/// The json of the first part that has any.
pub open spec fn first_dir(dirs: Seq<Option<FilePath>>) -> Option<PathView>
    decreases dirs.len(),
{
    if dirs.len() == 0 {
        None
    } else {
        match first_dir(dirs.drop_last()) {
            Some(dir) => Some(dir),
            None => match dirs.last() {
                Some(dir) => Some(dir@),
                None => None,
            },
        }
    }
}

pub open spec fn chats_in(chat: Option<ChatHistory>) -> Seq<Conversation<ChatMessage>> {
    match chat {
        Some(history) => history.conversations@,
        None => Seq::empty(),
    }
}

pub open spec fn snaps_in(snap: Option<SnapHistory>) -> Seq<Conversation<Snap>> {
    match snap {
        Some(history) => history.conversations@,
        None => Seq::empty(),
    }
}

/// What the histories of an export come to.
pub open spec fn settles(source: Seq<char>, found: ExportHistories, id: Option<Seq<char>>, r: Result<Loaded, RunError>) -> bool {
    if found.chat is None && found.snap is None {
        r matches Err(RunError::NoHistory(shown)) && shown@ == source
    } else if id is Some && !names_export(id.unwrap()) {
        r matches Err(RunError::InvalidExportId(shown)) && shown@ == source
    } else {
        r matches Ok(loaded) && merges(loaded.merged, chats_in(found.chat), snaps_in(found.snap))
            && loaded.chat.conversations@ == chats_in(found.chat) && (match id {
            Some(id) => loaded.export_id matches Some(own) && own.0@ == id,
            None => loaded.export_id is None,
        })
    }
}

/// Merges what an export holds. An export with neither history has no chat in it.
pub fn settle(source: &str, found: ExportHistories, id: Option<&String>) -> (r: Result<Loaded, RunError>)
    ensures
        settles(
            source@,
            found,
            match id {
                Some(id) => Some(id@),
                None => None,
            },
            r,
        ),
{
    if found.chat.is_none() && found.snap.is_none() {
        return Err(RunError::NoHistory(source.to_owned()));
    }
    let chat = match found.chat {
        Some(chat) => chat,
        None => {
            let none: Vec<Conversation<ChatMessage>> = Vec::new();
            assert(none@ =~= Seq::empty());
            ChatHistory { conversations: none }
        },
    };
    let snap = match found.snap {
        Some(snap) => snap,
        None => {
            let none: Vec<Conversation<Snap>> = Vec::new();
            assert(none@ =~= Seq::empty());
            SnapHistory { conversations: none }
        },
    };
    let merged = merge(&chat, &snap);
    let export_id: Option<ExportId> = match id {
        Some(id) => match ExportId::new(id) {
            Some(export_id) => Some(export_id),
            None => {
                return Err(RunError::InvalidExportId(source.to_owned()));
            },
        },
        None => None,
    };
    Ok(Loaded { merged, export_id, chat })
}

/// The json directory of the first part that has one.
pub fn find_dir(dirs: &Vec<Option<FilePath>>) -> (r: Option<FilePath>)
    ensures
        match r {
            Some(dir) => first_dir(dirs@) == Some(dir@),
            None => first_dir(dirs@) is None,
        },
{
    let mut i: usize = 0;
    assert(dirs@.take(0) =~= Seq::empty());
    while i < dirs.len()
        invariant
            i <= dirs@.len(),
            first_dir(dirs@.take(i as int)) is None,
        decreases dirs.len() - i,
    {
        proof {
            let now = dirs@.take(i + 1);
            assert(now.drop_last() =~= dirs@.take(i as int));
            assert(now.last() == dirs@[i as int]);
        }
        match &dirs[i] {
            Some(dir) => {
                proof {
                    lemma_first_stays(dirs@, i + 1);
                }
                return Some(dir.clone());
            },
            None => {},
        }
        i += 1;
    }
    assert(dirs@.take(i as int) =~= dirs@);
    None
}

proof fn lemma_first_stays(dirs: Seq<Option<FilePath>>, at: int)
    requires
        0 <= at <= dirs.len(),
        first_dir(dirs.take(at)) is Some,
    ensures
        first_dir(dirs) == first_dir(dirs.take(at)),
    decreases dirs.len(),
{
    if at < dirs.len() {
        assert(dirs.drop_last().take(at) =~= dirs.take(at));
        lemma_first_stays(dirs.drop_last(), at);
    } else {
        assert(dirs.take(at) =~= dirs);
    }
}

/// Whether the answer to whether a path is a directory can be this one.
pub open spec fn said<D: Fn(&FilePath) -> bool>(is_dir: D, path: PathView, answer: bool) -> bool {
    exists|asked: FilePath| asked@ == path && #[trigger] call_ensures(is_dir, (&asked,), answer)
}

/// What loading the json of a directory, and merging it, comes to.
pub open spec fn loads_from<L: Fn(&FilePath) -> Result<ExportHistories, String>>(
    load: L,
    source: Seq<char>,
    dir: PathView,
    id: Option<Seq<char>>,
    r: Result<Loaded, RunError>,
) -> bool {
    exists|asked: FilePath, answer: Result<ExportHistories, String>|
        asked@ == dir && #[trigger] call_ensures(load, (&asked,), answer) && match answer {
            Err(error) => r == Err::<Loaded, RunError>(RunError::Json(error)),
            Ok(found) => settles(source, found, id, r),
        }
}

/// What the exports found under a source come to: one is loaded, from its first part that has json,
/// or the bare json directory where there is none; several are refused.
pub open spec fn threads_from<D: Fn(&FilePath) -> bool, L: Fn(&FilePath) -> Result<ExportHistories, String>>(
    is_dir: D,
    load: L,
    source: PathView,
    shown: Seq<char>,
    groups: Result<Vec<ExportGroup>, String>,
    r: Result<Loaded, RunError>,
) -> bool {
    match groups {
        Err(error) => r == Err::<Loaded, RunError>(RunError::Discover(error)),
        Ok(groups) => if groups@.len() > 1 {
            r matches Err(RunError::SeveralExports { source, count }) && source@ == shown && count == groups@.len()
        } else if groups@.len() == 1 {
            match first_dir(groups@[0].json_dirs@) {
                Some(dir) => loads_from(load, shown, dir, Some(groups@[0].id@), r),
                None => r matches Err(RunError::NoJsonDir(source)) && source@ == shown,
            }
        } else {
            let bare = joined(source, "json"@);
            ||| said(is_dir, bare, true) && loads_from(load, shown, bare, None, r)
            ||| said(is_dir, bare, false) && (r matches Err(RunError::NoJsonDir(source)) && source@ == shown)
        },
    }
}

/// Loads the conversations of the one export under a source, which is shown as `shown`. `groups` are
/// the exports found there, or why looking failed.
pub fn load_threads<D: Fn(&FilePath) -> bool, L: Fn(&FilePath) -> Result<ExportHistories, String>>(
    source: &FilePath,
    shown: &str,
    groups: Result<Vec<ExportGroup>, String>,
    is_dir: D,
    load: L,
) -> (r: Result<Loaded, RunError>)
    requires
        forall|asked: FilePath| #[trigger] call_requires(is_dir, (&asked,)),
        forall|asked: FilePath| #[trigger] call_requires(load, (&asked,)),
    ensures
        threads_from(is_dir, load, source@, shown@, groups, r),
{
    let groups = match groups {
        Ok(groups) => groups,
        Err(error) => {
            return Err(RunError::Discover(error));
        },
    };
    if groups.len() > 1 {
        return Err(RunError::SeveralExports { source: shown.to_owned(), count: groups.len() });
    }
    let json_dir = if groups.len() == 1 {
        match find_dir(&groups[0].json_dirs) {
            Some(dir) => dir,
            None => {
                return Err(RunError::NoJsonDir(shown.to_owned()));
            },
        }
    } else {
        let bare = source.join("json");
        if !is_dir(&bare) {
            assert(said(is_dir, bare@, false));
            return Err(RunError::NoJsonDir(shown.to_owned()));
        }
        assert(said(is_dir, bare@, true));
        bare
    };
    let answer = load(&json_dir);
    let ghost answer_was = answer;
    let r = match answer {
        Err(error) => Err(RunError::Json(error)),
        Ok(found) => {
            let id = if groups.len() == 1 {
                Some(&groups[0].id)
            } else {
                None
            };
            settle(shown, found, id)
        },
    };
    assert(call_ensures(load, (&json_dir,), answer_was));
    r
}

// ---- selecting ----

pub open spec fn picked(conversations: Seq<ConversationId>) -> spec_fn(Thread) -> bool {
    |thread: Thread| exists|i: int| 0 <= i < conversations.len() && (#[trigger] conversations[i]).0@ == thread.id.0@
}

fn is_picked(conversations: &Vec<ConversationId>, thread: &Thread) -> (r: bool)
    ensures
        r == picked(conversations@)(*thread),
{
    let mut i: usize = 0;
    while i < conversations.len()
        invariant
            i <= conversations@.len(),
            forall|j: int| 0 <= j < i ==> (#[trigger] conversations@[j]).0@ != thread.id.0@,
        decreases conversations.len() - i,
    {
        if same(conversations[i].as_str(), thread.id.as_str()) {
            return true;
        }
        i += 1;
    }
    false
}

/// What selecting threads comes to.
pub open spec fn selects(threads: Seq<Thread>, conversations: Seq<ConversationId>, r: Result<Vec<Thread>, RunError>) -> bool {
    let chosen = threads.filter(picked(conversations));
    if chosen.len() == 0 {
        r == Err::<Vec<Thread>, RunError>(RunError::NoSelection)
    } else {
        r matches Ok(threads) && threads@ == chosen
    }
}

/// The threads a run was asked for, in their order. A run that was asked for none, or for none
/// there is, is refused.
pub fn select(merged: MergedHistory, conversations: &Vec<ConversationId>) -> (r: Result<Vec<Thread>, RunError>)
    ensures
        selects(merged.threads@, conversations@, r),
        in_order(merged.threads@) && keys_distinct(merged.threads@, thread_key()) ==> (r matches Ok(threads) ==> in_order(threads@)
            && keys_distinct(threads@, thread_key())),
{
    let ghost all = merged.threads@;
    let ghost wanted = picked(conversations@);
    let mut chosen: Vec<Thread> = Vec::new();
    proof {
        reveal(Seq::filter);
        assert(all.take(0).filter(wanted) =~= Seq::empty());
    }
    for thread in it: merged.threads
        invariant
            it.seq() == all,
            wanted == picked(conversations@),
            chosen@ == all.take(it.index() as int).filter(wanted),
    {
        let ghost at = it.index() as int;
        proof {
            assert(all.take(at + 1) =~= all.take(at).push(thread));
            all.take(at).lemma_filter_push(thread, wanted);
        }
        if is_picked(conversations, &thread) {
            chosen.push(thread);
        }
    }
    assert(all.take(all.len() as int) =~= all);
    proof {
        if in_order(all) && keys_distinct(all, thread_key()) {
            lemma_filter_in_order(all, wanted);
            lemma_filter_distinct(all, wanted, thread_key());
        }
    }
    if chosen.len() == 0 {
        return Err(RunError::NoSelection);
    }
    Ok(chosen)
}

/// A run needs at least one format.
pub fn check_formats(formats: Formats) -> (r: Result<(), RunError>)
    ensures
        match r {
            Ok(()) => formats.html || formats.json || formats.text || formats.csv,
            Err(error) => error == RunError::NoFormats && !(formats.html || formats.json || formats.text || formats.csv),
        },
{
    if formats.html || formats.json || formats.text || formats.csv {
        Ok(())
    } else {
        Err(RunError::NoFormats)
    }
}

// ---- preparing ----

/// A run ready to write.
pub struct Prepared {
    pub snapshot: PlanSnapshot,
    pub manifest: Option<Manifest>,
    pub plan: HistoryPlan,
    /// The threads to write, in the order of the plan's entries.
    pub threads: Vec<Thread>,
    pub formats: Formats,
}

pub open spec fn rows_of(manifest: Option<Manifest>) -> Option<Seq<RawItem>> {
    match manifest {
        Some(manifest) => Some(manifest.rows@),
        None => None,
    }
}

pub open spec fn thread_ids(threads: Seq<Thread>) -> Seq<ConversationId> {
    threads.map_values(|thread: Thread| thread.id)
}

/// Whether claims name each conversation's directory, in order.
pub open spec fn claims_for(claims: Seq<DirectoryClaim>, entries: Seq<HistoryEntry>) -> bool {
    &&& claims.len() == entries.len()
    &&& forall|i: int|
        0 <= i < claims.len() ==> (#[trigger] claims[i]).source_id@ == entries[i].key.0@ && native(
            entries[i].directory,
            claims[i].directory,
        )
}

/// What a plan claims: its conversations' directories.
#[must_use]
pub fn claims_of(plan: &HistoryPlan) -> (r: Vec<DirectoryClaim>)
    ensures
        claims_for(r@, plan.entries@),
{
    let mut claims: Vec<DirectoryClaim> = Vec::new();
    let mut i: usize = 0;
    while i < plan.entries.len()
        invariant
            i <= plan.entries@.len(),
            claims_for(claims@, plan.entries@.take(i as int)),
        decreases plan.entries@.len() - i,
    {
        let entry = &plan.entries[i];
        let claim = DirectoryClaim { source_id: entry.key.as_str().to_owned(), directory: native_of(&entry.directory) };
        let ghost before = claims@;
        claims.push(claim);
        i += 1;
        assert forall|k: int| 0 <= k < claims@.len() implies (#[trigger] claims@[k]).source_id@ == plan.entries@.take(
            i as int,
        )[k].key.0@ && native(plan.entries@.take(i as int)[k].directory, claims@[k].directory) by {
            if k < before.len() {
                assert(claims@[k] == before[k]);
                assert(plan.entries@.take(i - 1)[k] == plan.entries@.take(i as int)[k]);
            }
        }
    }
    assert(plan.entries@.take(i as int) =~= plan.entries@);
    claims
}

/// Whether a claim among these was refused with an error.
pub open spec fn refused(manifest: Manifest, claims: Seq<DirectoryClaim>, error: ManifestError) -> bool {
    exists|at: int|
        0 <= at < claims.len() && claim_refused(manifest.table(), #[trigger] claims[at], error) && forall|i: int|
            0 <= i < at ==> claimable(manifest.table(), #[trigger] claims[i])
}

/// Whether a manifest is what recording claims made of another.
pub open spec fn claimed(before: Manifest, after: Manifest, claims: Seq<DirectoryClaim>, now: i64) -> bool {
    &&& after.wf()
    &&& after.path == before.path
    &&& forall|i: int| 0 <= i < claims.len() ==> claimable(before.table(), #[trigger] claims[i])
    &&& after.table() == claimed_all(before.table(), claims, now)
}

/// Whether a manifest is what recording a plan's directories made of another.
pub open spec fn keeps_claims(before: Manifest, after: Manifest, plan: HistoryPlan, now: i64) -> bool {
    exists|claims: Seq<DirectoryClaim>| claims_for(claims, plan.entries@) && #[trigger] claimed(before, after, claims, now)
}

/// What preparing comes to: the plan, and its directories recorded where there is a manifest.
pub open spec fn prepares(
    threads: Seq<Thread>,
    conversations: Map<Seq<char>, Seq<char>>,
    out_root: Result<FilePath, OutRootError>,
    manifest: Option<Manifest>,
    formats: Formats,
    now: i64,
    r: Result<Prepared, RunError>,
) -> bool {
    let rows = rows_of(manifest);
    match r {
        Ok(prepared) => {
            &&& plans(thread_ids(threads), conversations, out_root, rows, Ok(prepared.plan))
            &&& prepared.threads@ == threads
            &&& prepared.formats == formats
            &&& prepared.snapshot.conversations == prepared.plan.entries@.len()
            &&& match (manifest, prepared.manifest) {
                (Some(before), Some(after)) => keeps_claims(before, after, prepared.plan, now),
                (None, None) => true,
                _ => false,
            }
        },
        Err(RunError::Plan(error)) => plans(thread_ids(threads), conversations, out_root, rows, Err(error)),
        Err(RunError::Manifest(error)) => manifest matches Some(before) && exists|plan: HistoryPlan, claims: Seq<DirectoryClaim>|
            plans(thread_ids(threads), conversations, out_root, rows, Ok(plan)) && #[trigger] claims_for(claims, plan.entries@)
                && refused(before, claims, error),
        _ => false,
    }
}

fn ids_of(threads: &Vec<Thread>) -> (r: Vec<ConversationId>)
    ensures
        r@.len() == threads@.len(),
        forall|i: int| 0 <= i < r@.len() ==> (#[trigger] r@[i]).0@ == threads@[i].id.0@,
{
    let mut ids: Vec<ConversationId> = Vec::new();
    let mut i: usize = 0;
    while i < threads.len()
        invariant
            i <= threads@.len(),
            ids@.len() == i,
            forall|k: int| 0 <= k < i ==> (#[trigger] ids@[k]).0@ == threads@[k].id.0@,
        decreases threads@.len() - i,
    {
        ids.push(threads[i].id.clone());
        i += 1;
    }
    ids
}

proof fn lemma_history_plan_agrees(start: HistoryState, root: PathView, a: Seq<ConversationId>, b: Seq<ConversationId>)
    requires
        a.len() == b.len(),
        forall|i: int| 0 <= i < a.len() ==> (#[trigger] a[i]).0@ == b[i].0@,
    ensures
        history_plan(start, root, a) == history_plan(start, root, b),
    decreases a.len(),
{
    if a.len() > 0 {
        assert forall|i: int| 0 <= i < a.len() - 1 implies (#[trigger] a.drop_last()[i]).0@ == b.drop_last()[i].0@ by {
            assert(a[i].0@ == b[i].0@);
        }
        assert(a.last().0@ == b.last().0@);
        lemma_history_plan_agrees(start, root, a.drop_last(), b.drop_last());
    }
}

/// A plan goes by the texts of the keys.
proof fn lemma_plans_agree(
    a: Seq<ConversationId>,
    b: Seq<ConversationId>,
    conversations: Map<Seq<char>, Seq<char>>,
    out_root: Result<FilePath, OutRootError>,
    rows: Option<Seq<RawItem>>,
    r: Result<HistoryPlan, PlanError>,
)
    requires
        plans(a, conversations, out_root, rows, r),
        a.len() == b.len(),
        forall|i: int| 0 <= i < a.len() ==> (#[trigger] a[i]).0@ == b[i].0@,
    ensures
        plans(b, conversations, out_root, rows, r),
{
    match (out_root, r) {
        (Ok(root), Ok(plan)) => {
            let under = joined(root@, CHAT_DIR@);
            let recorded = match rows {
                None => choose|recorded: RecordedDirs| #[trigger]
                    planned_from(plan, a, root@, recorded) && recorded.named@.len() == 0 && recorded.occupied@.len() == 0
                        && recorded.outputs.recorded@.len() == 0,
                Some(rows) => choose|recorded: RecordedDirs| #[trigger]
                    planned_from(plan, a, root@, recorded) && recorded_in(rows, conversations, Ok(recorded)),
            };
            lemma_history_plan_agrees(history_start(under, recorded), under, a, b);
            assert(planned_from(plan, b, root@, recorded));
        },
        _ => {},
    }
}

/// Readies a run over the threads it was asked for: plans their documents, and records their
/// directories in the manifest where there is one. Nothing is recorded unless all of it can be.
pub fn prepare(
    threads: Vec<Thread>,
    attribution: &Vec<TokenOwner>,
    out_root: Result<FilePath, OutRootError>,
    manifest: Option<Manifest>,
    formats: Formats,
    now: i64,
) -> (r: Result<Prepared, RunError>)
    requires
        in_order(threads@),
        keys_distinct(threads@, thread_key()),
        manifest matches Some(manifest) ==> manifest.wf(),
    ensures
        prepares(threads@, owned_by(attribution@), out_root, manifest, formats, now, r),
{
    let keys = ids_of(&threads);
    let ghost (all, rows, conversations) = (threads@, rows_of(manifest), owned_by(attribution@));
    proof {
        assert forall|i: int, j: int| 0 <= i < j < keys@.len() implies (#[trigger] keys@[i]).le(#[trigger] keys@[j]) && id_key()(
            keys@[i],
        ) != id_key()(keys@[j]) by {
            assert(threads@[i].le(threads@[j]));
            assert(thread_key()(threads@[i]) != thread_key()(threads@[j]));
        }
    }
    let ghost asked = out_root;
    let planned = plan(
        &keys,
        attribution,
        out_root,
        match &manifest {
            Some(manifest) => Some(manifest),
            None => None,
        },
    );
    proof {
        lemma_plans_agree(keys@, thread_ids(all), conversations, asked, rows, planned);
    }
    let plan = match planned {
        Ok(plan) => plan,
        Err(error) => {
            return Err(RunError::Plan(error));
        },
    };
    let snapshot = PlanSnapshot { conversations: plan.entries.len() };
    match manifest {
        Some(manifest) => {
            let ghost before = manifest;
            let mut manifest = manifest;
            let claims = claims_of(&plan);
            match manifest.claim_directories(&claims, now) {
                Ok(()) => {
                    assert(claimed(before, manifest, claims@, now));
                    assert(keeps_claims(before, manifest, plan, now));
                    let prepared = Prepared { snapshot, manifest: Some(manifest), plan, threads, formats };
                    assert(prepares(all, conversations, asked, Some(before), formats, now, Ok(prepared)));
                    Ok(prepared)
                },
                Err(error) => {
                    assert(refused(before, claims@, error));
                    assert(claims_for(claims@, plan.entries@));
                    assert(plans(thread_ids(all), conversations, asked, rows, Ok(plan)));
                    assert(prepares(all, conversations, asked, Some(before), formats, now, Err(RunError::Manifest(error))));
                    Err(RunError::Manifest(error))
                },
            }
        },
        None => {
            let prepared = Prepared { snapshot, manifest: None, plan, threads, formats };
            assert(prepares(all, conversations, asked, None, formats, now, Ok(prepared)));
            Ok(prepared)
        },
    }
}

// ---- writing ----

/// A document to write.
#[derive(Debug, PartialEq, Eq)]
pub struct Target {
    pub format: HistoryFormat,
    pub path: FilePath,
}

pub open spec fn document_of(entry: EntryView, format: HistoryFormat) -> PathView {
    match format {
        HistoryFormat::Html => entry.html,
        HistoryFormat::Json => entry.json,
        HistoryFormat::Text => entry.text,
        HistoryFormat::Csv => entry.csv,
    }
}

/// Whether these are the documents a conversation is written out as, in the order they are written.
pub open spec fn targets_of(entry: HistoryEntry, formats: Formats, targets: Seq<Target>) -> bool {
    &&& targets.len() == asked_for(formats).len()
    &&& forall|i: int|
        0 <= i < targets.len() ==> (#[trigger] targets[i]).format == asked_for(formats)[i] && targets[i].path@ == document_of(
            entry@,
            asked_for(formats)[i],
        )
}

/// The documents a conversation is written out as, in the order they are written.
#[must_use]
pub fn targets(entry: &HistoryEntry, formats: Formats) -> (r: Vec<Target>)
    ensures
        targets_of(*entry, formats, r@),
{
    let listed = formats.listed();
    let mut out: Vec<Target> = Vec::new();
    let mut i: usize = 0;
    while i < listed.len()
        invariant
            i <= listed@.len(),
            listed@ == asked_for(formats),
            out@.len() == i,
            forall|k: int|
                0 <= k < i ==> (#[trigger] out@[k]).format == listed@[k] && out@[k].path@ == document_of(entry@, listed@[k]),
        decreases listed@.len() - i,
    {
        let format = listed[i];
        let path = match format {
            HistoryFormat::Html => entry.documents.html.clone(),
            HistoryFormat::Json => entry.documents.json.clone(),
            HistoryFormat::Text => entry.documents.text.clone(),
            HistoryFormat::Csv => entry.documents.csv.clone(),
        };
        out.push(Target { format, path });
        i += 1;
    }
    out
}

// ---- reporting ----

/// How the links of a page were worked out.
#[derive(Debug, Clone, Copy, PartialEq, Eq, Structural)]
pub enum HtmlLinks {
    Manifest,
    NoManifest,
}

#[derive(Debug, Clone, Copy, PartialEq, Eq, Structural)]
pub struct PlanSnapshot {
    pub conversations: usize,
}

/// What a run wrote.
#[derive(Debug, Clone, Copy, PartialEq, Eq, Structural)]
pub struct HistoryReport {
    pub conversations: usize,
    pub documents: usize,
    pub links: HtmlLinks,
    pub html_written: bool,
}

#[derive(Debug, PartialEq, Eq)]
pub enum RunEvent {
    Planned(PlanSnapshot),
    Written,
    Finished(RunOutcome),
}

#[derive(Debug, PartialEq, Eq)]
pub enum RunOutcome {
    Completed(HistoryReport),
    Failed(RunError),
}

/// Whether this is what a finished run reports.
pub open spec fn reports_on(
    plan: HistoryPlan,
    formats: Formats,
    links: Option<HtmlLinks>,
    has_manifest: bool,
    r: HistoryReport,
) -> bool {
    &&& r.conversations == plan.entries@.len()
    &&& r.documents == plan.entries@.len() * asked_for(formats).len()
    &&& r.html_written == (links is Some)
    &&& r.links == match links {
        Some(links) => links,
        None => if has_manifest {
            HtmlLinks::Manifest
        } else {
            HtmlLinks::NoManifest
        },
    }
}

/// What a finished run reports: one document per conversation and format, and the links of the last
/// page, or the ones a page would have had.
pub fn report(plan: &HistoryPlan, formats: Formats, links: Option<HtmlLinks>, has_manifest: bool) -> (r: HistoryReport)
    requires
        plan.entries@.len() * 4 <= usize::MAX,
    ensures
        reports_on(*plan, formats, links, has_manifest, r),
{
    let count: usize = plan.entries.len();
    let per: usize = formats.listed().len();
    proof {
        assert(count * per <= count * 4) by (nonlinear_arith)
            requires
                per <= 4,
        ;
    }
    HistoryReport {
        conversations: count,
        documents: count * per,
        links: match links {
            Some(links) => links,
            None => {
                if has_manifest {
                    HtmlLinks::Manifest
                } else {
                    HtmlLinks::NoManifest
                }
            },
        },
        html_written: links.is_some(),
    }
}

/// How a run ends.
pub fn outcome(finished: Result<HistoryReport, RunError>) -> (r: RunOutcome)
    ensures
        r == match finished {
            Ok(report) => RunOutcome::Completed(report),
            Err(error) => RunOutcome::Failed(error),
        },
{
    match finished {
        Ok(report) => RunOutcome::Completed(report),
        Err(error) => RunOutcome::Failed(error),
    }
}

// ---- laws ----

/// Every path a plan gives out.
pub open spec fn documents_of(entries: Seq<EntryView>) -> Seq<Given>
    decreases entries.len(),
{
    if entries.len() == 0 {
        Seq::empty()
    } else {
        let entry = entries.last();
        documents_of(entries.drop_last()).push(Given { id: None, path: entry.json }).push(Given { id: None, path: entry.text }).push(
            Given { id: None, path: entry.csv },
        ).push(Given { id: None, path: entry.html })
    }
}

/// Whatever earlier runs recorded, no two documents of a plan are one file and none is a path handed
/// back to an item, on a filesystem that folds case too; and each conversation has a directory of
/// its own.
pub proof fn law_documents_land_apart(root: PathView, recorded: RecordedDirs, keys: Seq<ConversationId>)
    ensures
        ({
            let end = history_plan(history_start(root, recorded), root, keys);
            &&& given_apart(end.out, documents_of(end.entries))
            &&& apart(end.homes, root)
            &&& end.homes.used.finite()
        }),
    decreases keys.len(),
{
    let start = history_start(root, recorded);
    if keys.len() == 0 {
        lemma_nothing_given(root, record_views(recorded.outputs.recorded@));
        law_opened_is_apart(root, named_views(recorded.named@), dir_views(recorded.occupied@));
        lemma_opened_finite(root, named_views(recorded.named@), dir_views(recorded.occupied@));
    } else {
        law_documents_land_apart(root, recorded, keys.drop_last());
        let before = history_plan(start, root, keys.drop_last());
        let end = history_plan(start, root, keys);
        let key = keys.last().0@;
        lemma_after_asking_is_asked(before.homes, root, key);
        law_asking_keeps_apart(before.homes, end.homes, root, key);
        let entry = end.entries.last();
        let given = documents_of(before.entries);
        let history = "history"@;
        lemma_given_fresh(before.out, given, None, entry.directory, history, "json"@);
        let given = given.push(Given { id: None, path: entry.json });
        let out = with_path(before.out, entry.json);
        lemma_given_fresh(out, given, None, entry.directory, history, "txt"@);
        let given = given.push(Given { id: None, path: entry.text });
        let out = with_path(out, entry.text);
        lemma_given_fresh(out, given, None, entry.directory, history, "csv"@);
        let given = given.push(Given { id: None, path: entry.csv });
        let out = with_path(out, entry.csv);
        lemma_given_fresh(out, given, None, entry.directory, history, "html"@);
        assert(end.entries.drop_last() =~= before.entries);
    }
}

/// Whether a path is a document of a directory: in it, under a name that opens with `history` and
/// ends in an extension.
pub open spec fn is_document(path: PathView, directory: PathView, extension: Seq<char>) -> bool {
    &&& parent_of(path) == Some(directory)
    &&& "history"@.is_prefix_of(path.parts.last())
    &&& ("."@ + extension).is_suffix_of(path.parts.last())
}

proof fn lemma_fresh_document(state: OutState, directory: PathView, extension: Seq<char>)
    ensures
        is_document(fresh_path(state, directory, "history"@, extension), directory, extension),
{
    let path = fresh_path(state, directory, "history"@, extension);
    lemma_fresh_below(state, directory, "history"@, extension);
    let ordinal = choose|ordinal: nat| path == joined(directory, #[trigger] output_name_of("history"@, extension, ordinal));
    let name = output_name_of("history"@, extension, ordinal);
    assert(path.parts.last() == name);
    assert("history"@ =~= name.subrange(0, "history"@.len() as int));
    let tail = "."@ + extension;
    assert(tail =~= name.subrange(name.len() - tail.len(), name.len() as int));
}

/// A plan has one entry for each conversation it was asked for, in order, and every document of an
/// entry lies in the entry's directory under the extension of its own format.
pub proof fn law_each_conversation_has_its_documents(
    plan: HistoryPlan,
    keys: Seq<ConversationId>,
    out_root: PathView,
    recorded: RecordedDirs,
)
    requires
        planned_from(plan, keys, out_root, recorded),
    ensures
        plan.entries@.len() == keys.len(),
        forall|i: int|
            0 <= i < keys.len() ==> {
                let entry = #[trigger] plan.entries@[i];
                &&& entry.key.0@ == keys[i].0@
                &&& is_document(entry.documents.json@, entry.directory@, "json"@)
                &&& is_document(entry.documents.text@, entry.directory@, "txt"@)
                &&& is_document(entry.documents.csv@, entry.directory@, "csv"@)
                &&& is_document(entry.documents.html@, entry.directory@, "html"@)
            },
{
    let root = joined(out_root, CHAT_DIR@);
    let start = history_start(root, recorded);
    lemma_entries(start, root, keys);
    let entries = history_plan(start, root, keys).entries;
    assert forall|i: int| 0 <= i < keys.len() implies {
        let entry = #[trigger] plan.entries@[i];
        &&& entry.key.0@ == keys[i].0@
        &&& is_document(entry.documents.json@, entry.directory@, "json"@)
        &&& is_document(entry.documents.text@, entry.directory@, "txt"@)
        &&& is_document(entry.documents.csv@, entry.directory@, "csv"@)
        &&& is_document(entry.documents.html@, entry.directory@, "html"@)
    } by {
        assert(entry_views(plan.entries@)[i] == plan.entries@[i]@);
        assert(entries[i] == plan.entries@[i]@);
    }
}

proof fn lemma_entries(start: HistoryState, root: PathView, keys: Seq<ConversationId>)
    requires
        start.entries.len() == 0,
    ensures
        history_plan(start, root, keys).entries.len() == keys.len(),
        forall|i: int|
            0 <= i < keys.len() ==> {
                let entry = #[trigger] history_plan(start, root, keys).entries[i];
                &&& entry.key == keys[i].0@
                &&& is_document(entry.json, entry.directory, "json"@)
                &&& is_document(entry.text, entry.directory, "txt"@)
                &&& is_document(entry.csv, entry.directory, "csv"@)
                &&& is_document(entry.html, entry.directory, "html"@)
            },
    decreases keys.len(),
{
    if keys.len() > 0 {
        let rest = keys.drop_last();
        lemma_entries(start, root, rest);
        let before = history_plan(start, root, rest);
        let after = history_plan(start, root, keys);
        let entry = after.entries.last();
        lemma_fresh_document(before.out, entry.directory, "json"@);
        let with_json = with_path(before.out, entry.json);
        lemma_fresh_document(with_json, entry.directory, "txt"@);
        let with_text = with_path(with_json, entry.text);
        lemma_fresh_document(with_text, entry.directory, "csv"@);
        lemma_fresh_document(with_path(with_text, entry.csv), entry.directory, "html"@);
        assert forall|i: int| 0 <= i < keys.len() implies {
            let entry = #[trigger] after.entries[i];
            &&& entry.key == keys[i].0@
            &&& is_document(entry.json, entry.directory, "json"@)
            &&& is_document(entry.text, entry.directory, "txt"@)
            &&& is_document(entry.csv, entry.directory, "csv"@)
            &&& is_document(entry.html, entry.directory, "html"@)
        } by {
            if i < rest.len() {
                assert(after.entries[i] == before.entries[i]);
                assert(rest[i] == keys[i]);
            }
        }
    }
}

/// Every format asked for is written once, to the document of that format, and no other is.
pub proof fn law_a_format_is_written_to_its_document(entry: HistoryEntry, formats: Formats, targets: Seq<Target>)
    requires
        targets_of(entry, formats, targets),
    ensures
        forall|i: int|
            0 <= i < targets.len() ==> {
                let target = #[trigger] targets[i];
                &&& target.format is Html ==> formats.html && target.path@ == entry.documents.html@
                &&& target.format is Json ==> formats.json && target.path@ == entry.documents.json@
                &&& target.format is Text ==> formats.text && target.path@ == entry.documents.text@
                &&& target.format is Csv ==> formats.csv && target.path@ == entry.documents.csv@
            },
        formats.html ==> exists|i: int| 0 <= i < targets.len() && (#[trigger] targets[i]).format is Html,
        formats.json ==> exists|i: int| 0 <= i < targets.len() && (#[trigger] targets[i]).format is Json,
        formats.text ==> exists|i: int| 0 <= i < targets.len() && (#[trigger] targets[i]).format is Text,
        formats.csv ==> exists|i: int| 0 <= i < targets.len() && (#[trigger] targets[i]).format is Csv,
        forall|i: int, j: int| 0 <= i < j < targets.len() ==> (#[trigger] targets[i]).format != (#[trigger] targets[j]).format,
        targets.len() == formats.html as int + formats.json as int + formats.text as int + formats.csv as int,
{
    let asked = asked_for(formats);
    assert forall|format: HistoryFormat| #[trigger] asked.contains(format) implies exists|i: int|
        0 <= i < targets.len() && (#[trigger] targets[i]).format == format by {
        let i = choose|i: int| 0 <= i < asked.len() && asked[i] == format;
        assert(targets[i].format == format);
    }
    law_only_asked_formats_are_written(formats, HistoryFormat::Html);
    law_only_asked_formats_are_written(formats, HistoryFormat::Json);
    law_only_asked_formats_are_written(formats, HistoryFormat::Text);
    law_only_asked_formats_are_written(formats, HistoryFormat::Csv);
    assert forall|i: int| 0 <= i < targets.len() implies asked.contains((#[trigger] targets[i]).format) by {
        assert(asked[i] == targets[i].format);
    }
}

/// Whether a thread is one of some conversations.
pub open spec fn is_asked_for(thread: Thread, conversations: Seq<ConversationId>) -> bool {
    exists|k: int| 0 <= k < conversations.len() && (#[trigger] conversations[k]).0@ == thread.id.0@
}

/// A selection holds exactly the threads that were asked for, in the order they stand, and is
/// refused exactly where there is none.
pub proof fn law_a_selection_holds_what_was_asked_for(
    threads: Seq<Thread>,
    conversations: Seq<ConversationId>,
    r: Result<Vec<Thread>, RunError>,
)
    requires
        selects(threads, conversations, r),
    ensures
        forall|i: int, k: int|
            0 <= i < threads.len() && 0 <= k < conversations.len() && (#[trigger] threads[i]).id.0@ == (#[trigger] conversations[k]).0@
                ==> (r matches Ok(chosen) && chosen@.contains(threads[i])),
        r matches Ok(chosen) ==> chosen@.len() > 0 && forall|j: int|
            0 <= j < chosen@.len() ==> threads.contains(#[trigger] chosen@[j]) && is_asked_for(chosen@[j], conversations),
        r matches Err(error) ==> error == RunError::NoSelection,
        in_order(threads) ==> (r matches Ok(chosen) ==> in_order(chosen@)),
{
    let wanted = picked(conversations);
    let chosen = threads.filter(wanted);
    lemma_filter_from(threads, wanted);
    assert forall|i: int, k: int|
        0 <= i < threads.len() && 0 <= k < conversations.len() && (#[trigger] threads[i]).id.0@ == (
        #[trigger] conversations[k]).0@ implies chosen.contains(threads[i]) by {
        assert(wanted(threads[i]));
        lemma_filter_holds(threads, wanted, i);
    }
    assert forall|j: int| 0 <= j < chosen.len() implies threads.contains(#[trigger] chosen[j]) && is_asked_for(
        chosen[j],
        conversations,
    ) by {
        assert(threads.filter(wanted)[j] == chosen[j]);
        assert(wanted(chosen[j]));
    }
    if in_order(threads) {
        lemma_filter_in_order(threads, wanted);
    }
}

/// A report counts one document for each conversation and each format asked for, and says of the
/// links what the last page had, or what one would have had.
pub proof fn law_a_report_counts_every_document(
    plan: HistoryPlan,
    formats: Formats,
    links: Option<HtmlLinks>,
    has_manifest: bool,
    r: HistoryReport,
)
    requires
        reports_on(plan, formats, links, has_manifest, r),
    ensures
        r.conversations == plan.entries@.len(),
        r.documents == plan.entries@.len() * (formats.html as int + formats.json as int + formats.text as int + formats.csv as int),
        r.html_written <==> links is Some,
        links matches Some(found) ==> r.links == found,
        links is None ==> (r.links is Manifest <==> has_manifest),
{
    assert(asked_for(formats).len() == formats.html as int + formats.json as int + formats.text as int + formats.csv as int);
}

/// The json that is read is that of the earliest part that has any.
pub proof fn law_the_first_part_with_json_is_read(dirs: Seq<Option<FilePath>>)
    ensures
        first_dir(dirs) is None <==> forall|i: int| 0 <= i < dirs.len() ==> (#[trigger] dirs[i]) is None,
        forall|i: int|
            0 <= i < dirs.len() && (#[trigger] dirs[i]) is Some && (forall|j: int| 0 <= j < i ==> (#[trigger] dirs[j]) is None)
                ==> first_dir(dirs) == Some(dirs[i].unwrap()@),
    decreases dirs.len(),
{
    if dirs.len() > 0 {
        let rest = dirs.drop_last();
        law_the_first_part_with_json_is_read(rest);
        assert forall|i: int| 0 <= i < rest.len() implies rest[i] == #[trigger] dirs[i] by {}
        assert(dirs[dirs.len() - 1] == dirs.last());
        if forall|i: int| 0 <= i < dirs.len() ==> (#[trigger] dirs[i]) is None {
            assert forall|i: int| 0 <= i < rest.len() implies (#[trigger] rest[i]) is None by {
                assert(dirs[i] is None);
            }
        }
        assert forall|i: int|
            0 <= i < dirs.len() && (#[trigger] dirs[i]) is Some && (forall|j: int|
                0 <= j < i ==> (#[trigger] dirs[j]) is None) implies first_dir(dirs) == Some(dirs[i].unwrap()@) by {
            if i < rest.len() {
                assert(rest[i] is Some);
                assert forall|j: int| 0 <= j < i implies (#[trigger] rest[j]) is None by {
                    assert(dirs[j] is None);
                }
            } else {
                assert forall|j: int| 0 <= j < rest.len() implies (#[trigger] rest[j]) is None by {
                    assert(dirs[j] is None);
                }
            }
        }
    }
}

/// A run that is prepared over a manifest leaves a claim there on every planned conversation's
/// directory, under the conversation's key.
pub proof fn law_a_plan_claims_its_directories(before: Manifest, after: Manifest, plan: HistoryPlan, now: i64, at: int)
    requires
        before.wf(),
        keeps_claims(before, after, plan, now),
        0 <= at < plan.entries@.len(),
        forall|i: int, j: int|
            0 <= i < j < plan.entries@.len() ==> (#[trigger] plan.entries@[i]).key.0@ != (#[trigger] plan.entries@[j]).key.0@,
    ensures
        exists|k: int|
            0 <= k < after.table().len() && {
                let row = #[trigger] after.table()[k];
                &&& row.kind == "history_export"@
                &&& row.source_id == plan.entries@[at].key.0@
                &&& row.status == "claimed"@
                &&& row.output_path == Some(crate::paths::path_text(plan.entries@[at].directory@))
            },
{
    let claims = choose|claims: Seq<DirectoryClaim>| claims_for(claims, plan.entries@) && #[trigger] claimed(before, after, claims, now);
    assert forall|i: int| at < i < claims.len() implies (#[trigger] claims[i]).source_id@ != claims[at].source_id@ by {
        assert(plan.entries@[at].key.0@ != plan.entries@[i].key.0@);
    }
    assert(native(plan.entries@[at].directory, claims[at].directory));
    law_every_claim_is_held(before.table(), claims, now, at);
}

} // verus!
