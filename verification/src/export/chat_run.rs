//! A run over an export's chat media: which export it takes up, what its history and files come to
//! together, and the plan it shows before it writes.

use vstd::prelude::*;

use crate::export::chat_enroll::{all_enrolled, gaps_apart, written};
use crate::export::chat_fix::{conversations_of, plan, plans_chats, recorded_in, OverlayMode, RecordedDirs};
use crate::export::chat_join::{reconcile, reconciled, ChatMediaItem, Reconciliation};
use crate::export::chat_media::Discovery;
use crate::export::chat_scan::{discover, discovered, law_a_walk_can_be_joined, ChatScanError, Walked};
use crate::export::fix_run::FixReport;
use crate::export::history_run::{chats_in, find_dir, first_dir, ExportGroup};
use crate::export::local_fix::{Embedded, Leg, Plan, PlannedItem, VideoOptions};
use crate::export::manifest::{error_words, names_export, ExportId, ManifestError, RowView};
use crate::export::model::{ChatHistory, ChatMessage, Conversation};
use crate::export::out_root::{out_root_words, OutRootError};
use crate::export::state::Manifest;
use crate::paths::{file_name_of, joined, FilePath, PathView};
use crate::text::{decimal, decimal_text};

verus! {

/// What a run is asked to do.
#[derive(Debug, PartialEq, Eq)]
pub struct RunInputs {
    /// The directory an export lies in, as it was given.
    pub source: String,
    /// The directory to write to, as it was given.
    pub out_root: String,
    /// Where manifests are kept, where that is not the usual place.
    pub manifest_dir: Option<FilePath>,
    pub video: VideoOptions,
    pub overlay: OverlayMode,
}

/// Why a run stopped. A source is spelled as it is shown, and a failure below as it puts itself.
#[derive(Debug, PartialEq, Eq)]
pub enum RunError {
    NoExportId(String),
    SeveralExports { source: String, count: usize },
    NoJsonDir(String),
    InvalidExportId(String),
    Json(String),
    NoChatMediaDir(String),
    Discover(String),
    Scan(ChatScanError),
    Manifest(ManifestError),
    OutRoot(OutRootError),
    Panicked,
}

/// The words of a [`RunError`].
pub open spec fn run_words(e: RunError) -> Seq<char> {
    match e {
        RunError::NoExportId(source) => "no mydata~ export part under "@ + source@ + "; point the source at the dir holding the export's parts"@,
        RunError::SeveralExports { source, count } => decimal(count as nat) + " exports share "@ + source@ + "; point the source at the dir holding the one to fix"@,
        RunError::NoJsonDir(source) => "no unpacked export part with a json/ dir under "@ + source@ + "; extract the export's zips first"@,
        RunError::InvalidExportId(source) => "the export part under "@ + source@ + " names an id this build cannot keep a manifest for; rename the part dir"@,
        RunError::Json(error) => error@,
        RunError::NoChatMediaDir(source) => "no chat media under "@ + source@ + "; extract the export's chat_media dirs first"@,
        RunError::Discover(error) => error@,
        RunError::Scan(error) => error.words(),
        RunError::Manifest(error) => error_words(error),
        RunError::OutRoot(error) => out_root_words(error),
        RunError::Panicked => "the run stopped unexpectedly; this is a bug in exportsnap, not in your data"@,
    }
}

impl RunError {
    /// The sentence a reader is shown.
    #[must_use]
    pub fn message(&self) -> (r: String)
        ensures
            r@ == run_words(*self),
    {
        match self {
            RunError::NoExportId(source) => {
                let mut out = "no mydata~ export part under ".to_owned();
                out.append(source);
                out.append("; point the source at the dir holding the export's parts");
                out
            },
            RunError::SeveralExports { source, count } => {
                let mut out = decimal_text(*count as u128);
                out.append(" exports share ");
                out.append(source);
                out.append("; point the source at the dir holding the one to fix");
                out
            },
            RunError::NoJsonDir(source) => {
                let mut out = "no unpacked export part with a json/ dir under ".to_owned();
                out.append(source);
                out.append("; extract the export's zips first");
                out
            },
            RunError::InvalidExportId(source) => {
                let mut out = "the export part under ".to_owned();
                out.append(source);
                out.append(" names an id this build cannot keep a manifest for; rename the part dir");
                out
            },
            RunError::Json(error) => {
                error.clone()
            },
            RunError::NoChatMediaDir(source) => {
                let mut out = "no chat media under ".to_owned();
                out.append(source);
                out.append("; extract the export's chat_media dirs first");
                out
            },
            RunError::Discover(error) => {
                error.clone()
            },
            RunError::Scan(error) => {
                error.message()
            },
            RunError::Manifest(error) => {
                error.message()
            },
            RunError::OutRoot(error) => {
                error.message()
            },
            RunError::Panicked => {
                "the run stopped unexpectedly; this is a bug in exportsnap, not in your data".to_owned()
            },
        }
    }
}

// ---- which export ----

/// The one export a run takes up, and where its json lies.
#[derive(Debug, PartialEq, Eq)]
pub struct ChosenExport {
    pub export_id: ExportId,
    pub json_dir: FilePath,
}

/// What the exports found under a source come to: exactly one, under an id a manifest can be kept
/// for, with json in one of its parts.
pub open spec fn chooses(shown: Seq<char>, groups: Result<Vec<ExportGroup>, String>, r: Result<ChosenExport, RunError>) -> bool {
    match groups {
        Err(error) => r == Err::<ChosenExport, RunError>(RunError::Discover(error)),
        Ok(groups) => if groups@.len() == 0 {
            r matches Err(RunError::NoExportId(source)) && source@ == shown
        } else if groups@.len() > 1 {
            r matches Err(RunError::SeveralExports { source, count }) && source@ == shown && count == groups@.len()
        } else if !names_export(groups@[0].id@) {
            r matches Err(RunError::InvalidExportId(source)) && source@ == shown
        } else {
            match first_dir(groups@[0].json_dirs@) {
                Some(dir) => r matches Ok(chosen) && chosen.export_id.0@ == groups@[0].id@ && chosen.json_dir@ == dir,
                None => r matches Err(RunError::NoJsonDir(source)) && source@ == shown,
            }
        },
    }
}

/// Takes up the one export under a source, which is shown as `shown`. `groups` are the exports found
/// there, or why looking failed.
pub fn choose_export(shown: &str, groups: Result<Vec<ExportGroup>, String>) -> (r: Result<ChosenExport, RunError>)
    ensures
        chooses(shown@, groups, r),
{
    let groups = match groups {
        Ok(groups) => groups,
        Err(error) => {
            return Err(RunError::Discover(error));
        },
    };
    if groups.len() == 0 {
        return Err(RunError::NoExportId(shown.to_owned()));
    }
    if groups.len() > 1 {
        return Err(RunError::SeveralExports { source: shown.to_owned(), count: groups.len() });
    }
    let export_id = match ExportId::new(&groups[0].id) {
        Some(export_id) => export_id,
        None => {
            return Err(RunError::InvalidExportId(shown.to_owned()));
        },
    };
    match find_dir(&groups[0].json_dirs) {
        Some(json_dir) => Ok(ChosenExport { export_id, json_dir }),
        None => Err(RunError::NoJsonDir(shown.to_owned())),
    }
}

// ---- history and files ----

/// An export's chat history and chat media, joined.
#[derive(Debug, PartialEq, Eq)]
pub struct JoinedExport {
    pub reconciliation: Reconciliation,
    pub had_history: bool,
}

/// Whether a scan came upon anything at all.
pub open spec fn has_anything(discovery: Discovery) -> bool {
    discovery.media@.len() > 0 || discovery.unmatched_overlays@.len() > 0 || discovery.unparsed@.len() > 0
        || discovery.duplicates@.len() > 0
}

/// Whether an export is joined as its history and a discovery lead to.
pub open spec fn joined_from(export: JoinedExport, chat: Option<ChatHistory>, discovery: Discovery) -> bool {
    &&& export.had_history == (chat is Some)
    &&& gaps_apart(export.reconciliation)
    &&& exists|history: ChatHistory|
        history.conversations@ == chats_in(chat) && #[trigger] reconciled(export.reconciliation, history, discovery)
}

/// What the history an export states and the files a walk came upon come to.
pub open spec fn joins(
    source: Seq<char>,
    chat: Result<Option<ChatHistory>, String>,
    walked: Result<Walked, ChatScanError>,
    r: Result<JoinedExport, RunError>,
) -> bool {
    match (chat, walked) {
        (Err(error), _) => r == Err::<JoinedExport, RunError>(RunError::Json(error)),
        (Ok(_), Err(error)) => r == Err::<JoinedExport, RunError>(RunError::Scan(error)),
        (Ok(chat), Ok(walked)) => exists|discovery: Discovery| #[trigger]
            discovered(discovery, walked) && if has_anything(discovery) {
                r matches Ok(export) && joined_from(export, chat, discovery)
            } else {
                r matches Err(RunError::NoChatMediaDir(shown)) && shown@ == source
            },
    }
}

/// Joins an export's chat history, where it has one, with its chat media. A source with no chat
/// media at all is refused, under the spelling it is shown in.
pub fn join_export(
    shown: &str,
    chat: Result<Option<ChatHistory>, String>,
    walked: Result<Walked, ChatScanError>,
) -> (r: Result<JoinedExport, RunError>)
    ensures
        joins(shown@, chat, walked, r),
{
    let ghost (chat_was, walked_was) = (chat, walked);
    let chat = match chat {
        Ok(chat) => chat,
        Err(error) => {
            return Err(RunError::Json(error));
        },
    };
    let walked = match walked {
        Ok(walked) => walked,
        Err(error) => {
            return Err(RunError::Scan(error));
        },
    };
    let had_history = chat.is_some();
    let history = match chat {
        Some(history) => history,
        None => {
            let none: Vec<Conversation<ChatMessage>> = Vec::new();
            assert(none@ =~= Seq::empty());
            ChatHistory { conversations: none }
        },
    };
    let discovery = discover(walked);
    let ghost found = discovery;
    proof {
        law_a_walk_can_be_joined(discovery, walked_was->Ok_0);
    }
    if discovery.media.len() == 0 && discovery.unmatched_overlays.len() == 0 && discovery.unparsed.len() == 0
        && discovery.duplicates.len() == 0 {
        assert(discovered(found, walked_was->Ok_0) && !has_anything(found));
        return Err(RunError::NoChatMediaDir(shown.to_owned()));
    }
    let reconciliation = reconcile(&history, discovery);
    let export = JoinedExport { reconciliation, had_history };
    assert(reconciled(export.reconciliation, history, found));
    assert(history.conversations@ == chats_in(chat_was->Ok_0));
    assert(joined_from(export, chat_was->Ok_0, found));
    assert(discovered(found, walked_was->Ok_0) && has_anything(found));
    Ok(export)
}

// ---- counts ----

/// What became of the chat history.
#[derive(Debug, Clone, Copy, PartialEq, Eq, PartialOrd, Ord, Hash, Structural)]
pub enum HistoryOutcome {
    /// The export has none.
    Absent,
    /// It was read, and names none of the files.
    JoinedNothing,
    Joined,
}

impl Default for HistoryOutcome {
    fn default() -> (r: Self)
        ensures
            r == HistoryOutcome::Absent,
    {
        HistoryOutcome::Absent
    }
}

/// What a plan leaves out, and how sure its counts are.
#[derive(Debug, Clone, Copy, PartialEq, Eq, Structural)]
pub struct PlanCounts {
    /// Caption layers with nothing to lie over.
    pub unmatched_overlays: usize,
    pub excluded: usize,
    pub deferred: usize,
    pub missing_tokens: usize,
    pub history: HistoryOutcome,
    /// Whether a directory could not be listed, so that the counts are lower bounds.
    pub partial: bool,
}

impl Default for PlanCounts {
    fn default() -> (r: Self)
        ensures
            r == (PlanCounts {
                unmatched_overlays: 0,
                excluded: 0,
                deferred: 0,
                missing_tokens: 0,
                history: HistoryOutcome::Absent,
                partial: false,
            }),
    {
        PlanCounts {
            unmatched_overlays: 0,
            excluded: 0,
            deferred: 0,
            missing_tokens: 0,
            history: HistoryOutcome::Absent,
            partial: false,
        }
    }
}

pub open spec fn is_lone_layer() -> spec_fn(ChatMediaItem) -> bool {
    |item: ChatMediaItem| item.media.file.token is Overlay
}

pub open spec fn any_named(items: Seq<ChatMediaItem>) -> bool {
    exists|i: int| 0 <= i < items.len() && (#[trigger] items[i]).join is Named
}

pub open spec fn counted(reconciliation: Reconciliation, plan: Plan, had_history: bool) -> PlanCounts {
    PlanCounts {
        unmatched_overlays: reconciliation.items@.filter(is_lone_layer()).len() as usize,
        excluded: plan.excluded@.len() as usize,
        deferred: plan.deferred@.len() as usize,
        missing_tokens: reconciliation.missing@.len() as usize,
        history: if !had_history {
            HistoryOutcome::Absent
        } else if any_named(reconciliation.items@) {
            HistoryOutcome::Joined
        } else {
            HistoryOutcome::JoinedNothing
        },
        partial: reconciliation.unreadable@.len() > 0,
    }
}

/// Counts what a plan leaves out.
pub fn counts(reconciliation: &Reconciliation, plan: &Plan, had_history: bool) -> (r: PlanCounts)
    ensures
        r == counted(*reconciliation, *plan, had_history),
{
    let items = &reconciliation.items;
    let mut joined = false;
    let mut layers: usize = 0;
    let mut i: usize = 0;
    proof {
        reveal(Seq::filter);
        assert(items@.take(0).filter(is_lone_layer()) =~= Seq::empty());
    }
    while i < items.len()
        invariant
            i <= items@.len(),
            layers == items@.take(i as int).filter(is_lone_layer()).len(),
            layers <= i,
            joined == any_named(items@.take(i as int)),
        decreases items.len() - i,
    {
        let item = &items[i];
        let ghost less = items@.take(i as int);
        let ghost more = items@.take(i + 1);
        proof {
            assert(more =~= less.push(*item));
            less.lemma_filter_push(*item, is_lone_layer());
            if any_named(less) {
                let k = choose|k: int| 0 <= k < less.len() && (#[trigger] less[k]).join is Named;
                assert(more[k].join is Named);
            }
            if any_named(more) {
                let k = choose|k: int| 0 <= k < more.len() && (#[trigger] more[k]).join is Named;
                if k < i {
                    assert(less[k].join is Named);
                }
            }
            assert(more[i as int] == *item);
        }
        if item.media.file.token.is_overlay() {
            layers += 1;
        }
        if item.message().is_some() {
            joined = true;
        }
        i += 1;
    }
    assert(items@.take(i as int) =~= items@);
    PlanCounts {
        unmatched_overlays: layers,
        excluded: plan.excluded.len(),
        deferred: plan.deferred.len(),
        missing_tokens: reconciliation.missing.len(),
        history: match (had_history, joined) {
            (false, _) => HistoryOutcome::Absent,
            (true, false) => HistoryOutcome::JoinedNothing,
            (true, true) => HistoryOutcome::Joined,
        },
        partial: reconciliation.unreadable.len() > 0,
    }
}

// ---- the plan ----

/// One line of the plan as it is shown.
#[derive(Debug, PartialEq, Eq)]
pub struct PlanRow {
    pub source_id: String,
    pub output_name: String,
    pub leg: Leg,
}

/// What a run shows before it writes.
#[derive(Debug, PartialEq, Eq)]
pub struct PlanSnapshot {
    pub export_id: ExportId,
    pub manifest_dir: FilePath,
    pub rows: Vec<PlanRow>,
    pub counts: PlanCounts,
}

#[derive(Debug, PartialEq, Eq)]
pub enum RunEvent {
    Planned(PlanSnapshot),
    Finished(RunOutcome),
}

#[derive(Debug, PartialEq, Eq)]
pub enum RunOutcome {
    Completed(FixReport),
    Failed(RunError),
}

/// Whether a row shows an item.
pub open spec fn shows(row: PlanRow, item: PlannedItem) -> bool {
    &&& row.source_id == item.source_id
    &&& row.leg == item.leg
    &&& row.output_name@ == (match file_name_of(item.output@) {
        Some(name) => name,
        None => "?"@,
    })
}

pub open spec fn rows_show(rows: Seq<PlanRow>, items: Seq<PlannedItem>) -> bool {
    rows.len() == items.len() && forall|i: int| 0 <= i < rows.len() ==> shows(#[trigger] rows[i], items[i])
}

/// The lines of a plan.
pub fn plan_rows(items: &Vec<PlannedItem>) -> (r: Vec<PlanRow>)
    ensures
        rows_show(r@, items@),
{
    let mut rows: Vec<PlanRow> = Vec::new();
    let mut i: usize = 0;
    while i < items.len()
        invariant
            i <= items@.len(),
            rows@.len() == i,
            forall|k: int| 0 <= k < rows@.len() ==> shows(#[trigger] rows@[k], items@[k]),
        decreases items.len() - i,
    {
        let item = &items[i];
        let output_name = match item.output.file_name() {
            Some(name) => name.clone(),
            None => "?".to_owned(),
        };
        rows.push(PlanRow { source_id: item.source_id.clone(), output_name, leg: item.leg });
        i += 1;
    }
    rows
}

/// A run that is ready to write.
#[derive(Debug, PartialEq, Eq)]
pub struct Prepared {
    pub snapshot: PlanSnapshot,
    pub plan: Plan,
}

/// Whether a plan is the one a join and what was recorded lead to.
pub open spec fn plans(
    planned: Plan,
    export: JoinedExport,
    readings: Seq<Option<Embedded>>,
    out_root: PathView,
    overlay: OverlayMode,
    recorded: RecordedDirs,
) -> bool {
    plans_chats(planned, export.reconciliation.items@, readings, out_root, overlay, recorded)
}

/// Enrolls what a join came to in the manifest and plans the run. `readings` are what each file
/// itself says of when it was taken.
pub fn prepare(
    export: &JoinedExport,
    export_id: ExportId,
    manifest_dir: FilePath,
    manifest: &mut Manifest,
    readings: &Vec<Option<Embedded>>,
    out_root: Result<FilePath, OutRootError>,
    overlay: OverlayMode,
    now: i64,
) -> (r: Result<Prepared, RunError>)
    requires
        old(manifest).wf(),
        gaps_apart(export.reconciliation),
        readings@.len() == export.reconciliation.items@.len(),
        forall|i: int| 0 <= i < readings@.len() ==> ((#[trigger] readings@[i]) matches Some(reading) ==> reading.wf()),
    ensures
        final(manifest).wf(),
        final(manifest).path == old(manifest).path,
        exists|enrolled: Seq<RowView>, result: Result<(), ManifestError>|
            #![trigger written(enrolled, final(manifest).table(), export.reconciliation, now, result)]
            all_enrolled(old(manifest).table(), enrolled, export.reconciliation, now) && written(
                enrolled,
                final(manifest).table(),
                export.reconciliation,
                now,
                result,
            ) && match result {
                Err(error) => r == Err::<Prepared, RunError>(RunError::Manifest(error)),
                Ok(()) => match r {
                    Err(RunError::Manifest(error)) => recorded_in(
                        final(manifest).rows@,
                        conversations_of(export.reconciliation.items@, export.reconciliation.missing@),
                        Err(error),
                    ),
                    Err(RunError::OutRoot(error)) => out_root == Err::<FilePath, OutRootError>(error) && exists|recorded: RecordedDirs| #[trigger]
                        recorded_in(
                            final(manifest).rows@,
                            conversations_of(export.reconciliation.items@, export.reconciliation.missing@),
                            Ok(recorded),
                        ),
                    Err(_) => false,
                    Ok(prepared) => {
                        &&& out_root is Ok
                        &&& prepared.snapshot.export_id == export_id
                        &&& prepared.snapshot.manifest_dir == manifest_dir
                        &&& prepared.snapshot.counts == counted(export.reconciliation, prepared.plan, export.had_history)
                        &&& rows_show(prepared.snapshot.rows@, prepared.plan.items@)
                        &&& exists|recorded: RecordedDirs| #[trigger]
                            plans(prepared.plan, *export, readings@, out_root->Ok_0@, overlay, recorded) && recorded_in(
                                final(manifest).rows@,
                                conversations_of(export.reconciliation.items@, export.reconciliation.missing@),
                                Ok(recorded),
                            )
                    },
                },
            },
{
    let result = export.reconciliation.enroll(manifest, now);
    let ghost result_was = result;
    let ghost enrolled = choose|enrolled: Seq<RowView>| #[trigger]
        all_enrolled(old(manifest).table(), enrolled, export.reconciliation, now) && written(
            enrolled,
            manifest.table(),
            export.reconciliation,
            now,
            result_was,
        );
    assert(written(enrolled, manifest.table(), export.reconciliation, now, result_was));
    match result {
        Ok(()) => {},
        Err(error) => {
            return Err(RunError::Manifest(error));
        },
    }
    let recorded = match RecordedDirs::read(&export.reconciliation, manifest) {
        Ok(recorded) => recorded,
        Err(error) => {
            return Err(RunError::Manifest(error));
        },
    };
    let ghost asked = out_root;
    let planned = match plan(&export.reconciliation, readings, out_root, overlay, &recorded) {
        Ok(planned) => planned,
        Err(error) => {
            return Err(RunError::OutRoot(error));
        },
    };
    assert(plans(planned, *export, readings@, asked->Ok_0@, overlay, recorded));
    let counts = counts(&export.reconciliation, &planned, export.had_history);
    let rows = plan_rows(&planned.items);
    Ok(Prepared { snapshot: PlanSnapshot { export_id, manifest_dir, rows, counts }, plan: planned })
}

/// How a run ends.
pub fn outcome(finished: Result<FixReport, RunError>) -> (r: RunOutcome)
    ensures
        r == match finished {
            Ok(report) => RunOutcome::Completed(report),
            Err(error) => RunOutcome::Failed(error),
        },
{
    match finished {
        Ok(report) => RunOutcome::Completed(report),
        Err(error) => RunOutcome::Failed(error),
    }
}

// ---- laws ----

/// What the counts of a plan say: how many layers lie alone, how many items are left out and put
/// off, how many tokens no file carries, whether a message names any file, and whether the whole
/// source was listed.
pub proof fn law_the_counts_tell_what_is_left_out(reconciliation: Reconciliation, plan: Plan, had_history: bool)
    ensures
        ({
            let r = counted(reconciliation, plan, had_history);
            &&& r.excluded == plan.excluded@.len()
            &&& r.deferred == plan.deferred@.len()
            &&& r.missing_tokens == reconciliation.missing@.len()
            &&& r.partial <==> reconciliation.unreadable@.len() > 0
            &&& r.history is Absent <==> !had_history
            &&& r.history is Joined <==> had_history && exists|i: int|
                0 <= i < reconciliation.items@.len() && (#[trigger] reconciliation.items@[i]).join is Named
            &&& r.unmatched_overlays == 0 <==> forall|i: int|
                0 <= i < reconciliation.items@.len() ==> !((#[trigger] reconciliation.items@[i]).media.file.token is Overlay)
            &&& r.unmatched_overlays == reconciliation.items@.len() <==> forall|i: int|
                0 <= i < reconciliation.items@.len() ==> (#[trigger] reconciliation.items@[i]).media.file.token is Overlay
            &&& r.unmatched_overlays == reconciliation.items@.filter(|item: ChatMediaItem| item.media.file.token is Overlay).len()
        }),
{
    let items = reconciliation.items@;
    let lone = is_lone_layer();
    assert(plan.excluded.len() == plan.excluded@.len());
    assert(plan.deferred.len() == plan.deferred@.len());
    assert(reconciliation.missing.len() == reconciliation.missing@.len());
    assert(reconciliation.items.len() == items.len());
    lemma_filter_len(items, lone);
    assert(lone =~= (|item: ChatMediaItem| item.media.file.token is Overlay));
}

/// A filter keeps at most everything, nothing exactly where nothing is wanted, and everything
/// exactly where everything is.
proof fn lemma_filter_len(items: Seq<ChatMediaItem>, wanted: spec_fn(ChatMediaItem) -> bool)
    ensures
        items.filter(wanted).len() <= items.len(),
        items.filter(wanted).len() == 0 <==> forall|i: int| 0 <= i < items.len() ==> !wanted(#[trigger] items[i]),
        items.filter(wanted).len() == items.len() <==> forall|i: int| 0 <= i < items.len() ==> wanted(#[trigger] items[i]),
    decreases items.len(),
{
    reveal(Seq::filter);
    if items.len() > 0 {
        let rest = items.drop_last();
        lemma_filter_len(rest, wanted);
        assert forall|i: int| 0 <= i < rest.len() implies #[trigger] rest[i] == items[i] by {}
        assert(items[items.len() - 1] == items.last());
        if forall|i: int| 0 <= i < items.len() ==> !wanted(#[trigger] items[i]) {
            assert forall|i: int| 0 <= i < rest.len() implies !wanted(#[trigger] rest[i]) by {
                assert(!wanted(items[i]));
            }
        }
        if forall|i: int| 0 <= i < items.len() ==> wanted(#[trigger] items[i]) {
            assert forall|i: int| 0 <= i < rest.len() implies wanted(#[trigger] rest[i]) by {
                assert(wanted(items[i]));
            }
        }
        if items.filter(wanted).len() == 0 {
            assert forall|i: int| 0 <= i < items.len() implies !wanted(#[trigger] items[i]) by {
                if i < rest.len() {
                    assert(!wanted(rest[i]));
                }
            }
        }
        if items.filter(wanted).len() == items.len() {
            assert forall|i: int| 0 <= i < items.len() implies wanted(#[trigger] items[i]) by {
                if i < rest.len() {
                    assert(wanted(rest[i]));
                }
            }
        }
    }
}

/// A run takes up an export exactly where there is one alone, under an id a manifest can be kept
/// for, with json in one of its parts; and takes it up under its own id.
pub proof fn law_one_export_is_taken_up(shown: Seq<char>, groups: Seq<ExportGroup>, found: Vec<ExportGroup>, r: Result<ChosenExport, RunError>)
    requires
        found@ == groups,
        chooses(shown, Ok(found), r),
    ensures
        r is Ok <==> groups.len() == 1 && names_export(groups[0].id@) && exists|i: int|
            0 <= i < groups[0].json_dirs@.len() && (#[trigger] groups[0].json_dirs@[i]) is Some,
        r matches Ok(chosen) ==> chosen.export_id.0@ == groups[0].id@ && exists|i: int|
            0 <= i < groups[0].json_dirs@.len() && ((#[trigger] groups[0].json_dirs@[i]) matches Some(dir) && chosen.json_dir@ == dir@),
{
    if groups.len() == 1 {
        lemma_first_is_one(groups[0].json_dirs@);
    }
}

proof fn lemma_first_is_one(dirs: Seq<Option<FilePath>>)
    ensures
        first_dir(dirs) is Some <==> exists|i: int| 0 <= i < dirs.len() && (#[trigger] dirs[i]) is Some,
        first_dir(dirs) matches Some(found) ==> exists|i: int|
            0 <= i < dirs.len() && ((#[trigger] dirs[i]) matches Some(dir) && found == dir@),
    decreases dirs.len(),
{
    if dirs.len() > 0 {
        let rest = dirs.drop_last();
        lemma_first_is_one(rest);
        assert(dirs[dirs.len() - 1] == dirs.last());
        assert forall|i: int| 0 <= i < rest.len() implies #[trigger] rest[i] == dirs[i] by {}
        if first_dir(rest) is Some {
            let found = first_dir(rest).unwrap();
            let i = choose|i: int| 0 <= i < rest.len() && ((#[trigger] rest[i]) matches Some(dir) && found == dir@);
            assert(dirs[i] == rest[i]);
        }
        if exists|i: int| 0 <= i < dirs.len() && (#[trigger] dirs[i]) is Some {
            let i = choose|i: int| 0 <= i < dirs.len() && (#[trigger] dirs[i]) is Some;
            if i < rest.len() {
                assert(rest[i] is Some);
            }
        }
    }
}

} // verus!
