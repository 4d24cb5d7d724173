//! Writing what a plan says: which way each item goes, what is noted of it, and what a run of the
//! whole plan comes to.

use vstd::hash_set::StringHashSet;
use vstd::prelude::*;

use crate::export::exif::{exif_words, ExifError};
use crate::export::ffmpeg::{ffmpeg_words, FfmpegError};
use crate::export::local_fix::{own_format, own_format_of, Leg, Plan, PlannedItem, TranscodeSkip, VideoOptions};
use crate::export::manifest::{read_back, reads_as, Item, ItemKind, ManifestError, RowView};
use crate::export::redact::{hidden_for, redacted};
use crate::export::state::{
    checked_in, excluded_all, failed_once, finished, has_row, law_a_failure_is_counted, law_a_finished_item_is_recorded,
    law_a_parked_record_is_not_offered, lemma_excluded_all, movable, moves_only, owed, parked, refused, resume_tells, resumed,
    rows_distinct, Manifest, Measured, Reading, ResumeReport,
};
use crate::paths::{file_name_of, is_all_text, joined, parent_of, path_text, FilePath, NativePath, PathView};
use crate::text::{fold, join2, same, views};

verus! {

// ---- notices ----

/// What is worth knowing of an item that was written.
#[derive(Debug, PartialEq, Eq)]
pub enum Notice {
    NotTranscoded(TranscodeSkip),
    OverlayNotBurned,
    /// It already carries a location, in the atom named.
    LocationShadowed(String),
    NotStamped,
}

/// The words of a [`Notice`].
pub open spec fn notice_words(e: Notice) -> Seq<char> {
    match e {
        Notice::NotTranscoded(TranscodeSkip::OptedOut) => "kept in its original codec, since transcoding is off"@,
        Notice::NotTranscoded(TranscodeSkip::NoFfmpeg) => "kept in its original codec, since ffmpeg is not installed; install it and re-run to transcode"@,
        Notice::OverlayNotBurned => "its caption layer was not drawn in, because burning one into a video needs the re-encode this run did not do"@,
        Notice::LocationShadowed(atom) => "its coordinates were left alone: it already carries a "@ + atom@ + " location atom, which every reader resolves ahead of anything this build can write, so a second one would be ignored"@,
        Notice::NotStamped => "kept in its own format, which is what preserves any transparency it carries, so the capture date reached only the file's own date and the sender and conversation reached nothing: this build writes that metadata into JPEG alone"@,
    }
}

impl Notice {
    /// The sentence a reader is shown.
    #[must_use]
    pub fn message(&self) -> (r: String)
        ensures
            r@ == notice_words(*self),
    {
        match self {
            Notice::NotTranscoded(TranscodeSkip::OptedOut) => {
                "kept in its original codec, since transcoding is off".to_owned()
            },
            Notice::NotTranscoded(TranscodeSkip::NoFfmpeg) => {
                "kept in its original codec, since ffmpeg is not installed; install it and re-run to transcode".to_owned()
            },
            Notice::OverlayNotBurned => {
                "its caption layer was not drawn in, because burning one into a video needs the re-encode this run did not do".to_owned()
            },
            Notice::LocationShadowed(atom) => {
                let mut out = "its coordinates were left alone: it already carries a ".to_owned();
                out.append(atom);
                out.append(" location atom, which every reader resolves ahead of anything this build can write, so a second one would be ignored");
                out
            },
            Notice::NotStamped => {
                "kept in its own format, which is what preserves any transparency it carries, so the capture date reached only the file's own date and the sender and conversation reached nothing: this build writes that metadata into JPEG alone".to_owned()
            },
        }
    }
}

// ---- errors ----

/// Why an item was not written. Paths are spelled as they are shown, and a failure below as it puts
/// itself.
#[derive(Debug, PartialEq, Eq)]
pub enum FixError {
    Read { path: String, source: String },
    Compose { source: String },
    NoEncoder { main: String, format: String },
    Metadata { source: ExifError },
    Container { source: String },
    Transcode { source: FfmpegError },
    /// The re-encode came out unreadable; `what` says how.
    Transcoded { main: String, what: String },
    Create { path: String, source: String },
    Copy { from: String, to: String, source: String },
    Touch { path: String, source: String },
}

/// The words of a [`FixError`].
pub open spec fn fix_words(e: FixError) -> Seq<char> {
    match e {
        FixError::Read { path, source } => "could not read "@ + path@ + ": "@ + source@,
        FixError::Compose { source } => source@,
        FixError::NoEncoder { main, format } => "could not composite "@ + main@ + ": it has to stay "@ + format@ + " so its transparency survives, and this build writes no "@ + format@ + "; drawing the caption in would mean putting another format under a ."@ + format@ + " name, so nothing was written and the export's own file is untouched"@,
        FixError::Metadata { source } => exif_words(source),
        FixError::Container { source } => source@,
        FixError::Transcode { source } => ffmpeg_words(source),
        FixError::Transcoded { main, what } => "re-encoding "@ + main@ + " produced a video this build cannot read ("@ + what@ + "); the memory itself is fine, so this is the transcode going wrong rather than the export — re-run with transcoding off to copy it instead"@,
        FixError::Create { path, source } => "could not create "@ + path@ + ": "@ + source@ + "; check the output directory is writable"@,
        FixError::Copy { from, to, source } => "could not keep a copy of "@ + from@ + " at "@ + to@ + ": "@ + source@ + "; check the source is readable and the output directory is writable"@,
        FixError::Touch { path, source } => "wrote "@ + path@ + " but could not set its date: "@ + source@,
    }
}

impl FixError {
    /// The sentence a reader is shown.
    #[must_use]
    pub fn message(&self) -> (r: String)
        ensures
            r@ == fix_words(*self),
    {
        match self {
            FixError::Read { path, source } => {
                let mut out = "could not read ".to_owned();
                out.append(path);
                out.append(": ");
                out.append(source);
                out
            },
            FixError::Compose { source } => {
                source.clone()
            },
            FixError::NoEncoder { main, format } => {
                let mut out = "could not composite ".to_owned();
                out.append(main);
                out.append(": it has to stay ");
                out.append(format);
                out.append(" so its transparency survives, and this build writes no ");
                out.append(format);
                out.append("; drawing the caption in would mean putting another format under a .");
                out.append(format);
                out.append(" name, so nothing was written and the export's own file is untouched");
                out
            },
            FixError::Metadata { source } => {
                source.message()
            },
            FixError::Container { source } => {
                source.clone()
            },
            FixError::Transcode { source } => {
                source.message()
            },
            FixError::Transcoded { main, what } => {
                let mut out = "re-encoding ".to_owned();
                out.append(main);
                out.append(" produced a video this build cannot read (");
                out.append(what);
                out.append("); the memory itself is fine, so this is the transcode going wrong rather than the export — re-run with transcoding off to copy it instead");
                out
            },
            FixError::Create { path, source } => {
                let mut out = "could not create ".to_owned();
                out.append(path);
                out.append(": ");
                out.append(source);
                out.append("; check the output directory is writable");
                out
            },
            FixError::Copy { from, to, source } => {
                let mut out = "could not keep a copy of ".to_owned();
                out.append(from);
                out.append(" at ");
                out.append(to);
                out.append(": ");
                out.append(source);
                out.append("; check the source is readable and the output directory is writable");
                out
            },
            FixError::Touch { path, source } => {
                let mut out = "wrote ".to_owned();
                out.append(path);
                out.append(" but could not set its date: ");
                out.append(source);
                out
            },
        }
    }
}

// ---- one item ----

/// How a picture is written.
#[derive(Debug, Clone, Copy, PartialEq, Eq, Structural)]
pub enum ImageRoute {
    /// Copied as it is, in its own format.
    Copied,
    /// Drawn over in its own format.
    Composed,
    /// Stamped, as it is.
    Stamped,
    /// Drawn over, and stamped.
    ComposedAndStamped,
}

/// A picture that keeps its own format is not stamped; one with a caption layer has it drawn in.
pub open spec fn image_route_of(leg: Leg, extension: Seq<char>, overlay: bool) -> ImageRoute {
    match (own_format_of(leg, extension) is Some, overlay) {
        (true, false) => ImageRoute::Copied,
        (true, true) => ImageRoute::Composed,
        (false, false) => ImageRoute::Stamped,
        (false, true) => ImageRoute::ComposedAndStamped,
    }
}

/// Whether this build can draw a caption into a format.
pub fn compose_own_format(format: &str, main: &FilePath) -> (r: Result<(), FixError>)
    ensures
        match r {
            Ok(()) => format@ == "png"@,
            Err(error) => format@ != "png"@ && (error matches FixError::NoEncoder { main: shown, format: named } && shown@
                == path_text(main@) && named@ == format@),
        },
{
    if same(format, "png") {
        Ok(())
    } else {
        Err(FixError::NoEncoder { main: main.text(), format: format.to_owned() })
    }
}

pub open spec fn image_notices(route: ImageRoute) -> Seq<Notice> {
    match route {
        ImageRoute::Copied => seq![Notice::NotStamped],
        ImageRoute::Composed => seq![Notice::NotStamped],
        ImageRoute::Stamped => seq![],
        ImageRoute::ComposedAndStamped => seq![],
    }
}

/// Whether a picture is written this way, and this is noted of it.
pub open spec fn fixes_image(item: PlannedItem, route: ImageRoute, notices: Seq<Notice>) -> bool {
    &&& route == image_route_of(item.leg, item.media.extension@, item.media.overlay is Some)
    &&& notices == image_notices(route)
}

/// How a picture is written, and what is noted of it.
pub fn fix_image(item: &PlannedItem) -> (r: (ImageRoute, Vec<Notice>))
    ensures
        fixes_image(*item, r.0, r.1@),
{
    let mut notices: Vec<Notice> = Vec::new();
    let drawn = item.media.overlay.is_some();
    let route = match own_format(item.leg, &item.media) {
        Some(_) => {
            notices.push(Notice::NotStamped);
            if drawn {
                ImageRoute::Composed
            } else {
                ImageRoute::Copied
            }
        },
        None => {
            if drawn {
                ImageRoute::ComposedAndStamped
            } else {
                ImageRoute::Stamped
            }
        },
    };
    assert(notices@ =~= image_notices(route));
    (route, notices)
}

/// What is noted of a video that was not re-encoded.
pub open spec fn skip_notices(options: VideoOptions, overlay: bool) -> Seq<Notice> {
    if options.transcode && options.ffmpeg is Some {
        seq![]
    } else {
        let skip = if options.transcode {
            TranscodeSkip::NoFfmpeg
        } else {
            TranscodeSkip::OptedOut
        };
        if overlay {
            seq![Notice::NotTranscoded(skip), Notice::OverlayNotBurned]
        } else {
            seq![Notice::NotTranscoded(skip)]
        }
    }
}

/// What is noted of a video whose location is known and which already carries one.
pub open spec fn shadow_notices(atom: Option<String>, located: bool) -> Seq<Notice> {
    match atom {
        Some(atom) => if located {
            seq![Notice::LocationShadowed(atom)]
        } else {
            seq![]
        },
        None => seq![],
    }
}

/// Whether this is what is noted of a video.
pub open spec fn notes_video(item: PlannedItem, options: VideoOptions, atom: Option<String>, notices: Seq<Notice>) -> bool {
    notices == skip_notices(options, item.media.overlay is Some) + shadow_notices(atom, item.location is Some)
}

/// What is noted of a video. `atom` names the location atom it carries, where it carries one.
pub fn fix_video(item: &PlannedItem, options: &VideoOptions, atom: Option<String>) -> (r: Vec<Notice>)
    ensures
        notes_video(*item, *options, atom, r@),
{
    let mut notices: Vec<Notice> = Vec::new();
    if let Err(skip) = options.transcoder() {
        notices.push(Notice::NotTranscoded(skip));
        if item.media.overlay.is_some() {
            notices.push(Notice::OverlayNotBurned);
        }
    }
    assert(notices@ =~= skip_notices(*options, item.media.overlay is Some));
    let ghost skipped = notices@;
    let ghost atom_was = atom;
    if item.location.is_some() {
        if let Some(atom) = atom {
            notices.push(Notice::LocationShadowed(atom));
        }
    }
    assert(notices@ =~= skipped + shadow_notices(atom_was, item.location is Some));
    notices
}

/// The name a re-encode is written under until it is whole.
pub const SCRATCH_PREFIX: &'static str = ".exportsnap-transcoding-";

/// Where a re-encode is written until it is whole: beside the output, under its name marked.
pub open spec fn scratch_of(output: PathView) -> Option<PathView> {
    match (parent_of(output), file_name_of(output)) {
        (Some(parent), Some(name)) => Some(joined(parent, SCRATCH_PREFIX@ + name)),
        _ => None,
    }
}

/// The scratch path beside an output.
pub fn scratch_beside(output: &FilePath) -> (r: Result<FilePath, FixError>)
    ensures
        match r {
            Ok(path) => scratch_of(output@) == Some(path@),
            Err(error) => scratch_of(output@) is None && (error matches FixError::Create { path, source } && path@ == path_text(
                output@,
            ) && source@ == "invalid input parameter"@),
        },
{
    match (output.parent(), output.file_name()) {
        (Some(parent), Some(name)) => Ok(parent.join(&join2(SCRATCH_PREFIX, name))),
        _ => Err(FixError::Create { path: output.text(), source: "invalid input parameter".to_owned() }),
    }
}

/// A copy to keep of one of the export's own files.
#[derive(Debug, PartialEq, Eq)]
pub struct KeptCopy {
    pub from: FilePath,
    pub to: FilePath,
}

/// Whether these are the copies an item keeps, in turn: of the file itself, then of its caption
/// layer.
pub open spec fn keeps(item: PlannedItem, copies: Seq<KeptCopy>) -> bool {
    match item.originals {
        Some(originals) => copies.len() == 2 && copies[0].from@ == item.media.main@ && copies[0].to@ == originals.main_copy@
            && copies[1].from@ == originals.overlay@ && copies[1].to@ == originals.overlay_copy@,
        None => copies.len() == 0,
    }
}

/// The copies an item keeps, in turn: the file itself, then its caption layer.
pub fn keep_originals(item: &PlannedItem) -> (r: Vec<KeptCopy>)
    ensures
        keeps(*item, r@),
{
    let mut copies: Vec<KeptCopy> = Vec::new();
    if let Some(originals) = &item.originals {
        copies.push(KeptCopy { from: item.media.main.clone(), to: originals.main_copy.clone() });
        copies.push(KeptCopy { from: originals.overlay.clone(), to: originals.overlay_copy.clone() });
    }
    copies
}

/// How far an instant lies from the epoch, and on which side.
#[derive(Debug, Clone, Copy, PartialEq, Eq, Structural)]
pub enum SinceEpoch {
    After(u64),
    Before(u64),
}

pub fn system_time(seconds: i64) -> (r: SinceEpoch)
    ensures
        r == (if seconds >= 0 {
            SinceEpoch::After(seconds as u64)
        } else {
            SinceEpoch::Before((-seconds) as u64)
        }),
{
    if seconds >= 0 {
        SinceEpoch::After(seconds as u64)
    } else {
        let size: i128 = -(seconds as i128);
        SinceEpoch::Before(size as u64)
    }
}

// ---- the run ----

#[derive(Debug, PartialEq, Eq)]
pub struct Failure {
    pub source_id: String,
    pub reason: String,
}

#[derive(Debug, PartialEq, Eq)]
pub struct ItemNotice {
    pub source_id: String,
    pub notice: Notice,
}

/// What a run of a whole plan came to.
#[derive(Debug, PartialEq, Eq)]
pub struct FixReport {
    pub resumed: ResumeReport,
    pub fixed: usize,
    pub failed: Vec<Failure>,
    /// Items of the plan that were not owed.
    pub skipped: usize,
    pub deferred: usize,
    pub excluded: usize,
    pub notices: Vec<ItemNotice>,
}

/// An item that was written: what is noted of it, and its output's measure.
pub struct Done {
    pub notices: Vec<Notice>,
    pub measured: Measured,
}

/// A run under way.
pub struct FixRun {
    owed: StringHashSet,
    report: FixReport,
    next: usize,
    open: bool,
}

/// Where the next owed item stands, or the end.
pub open spec fn next_owed(items: Seq<PlannedItem>, owed: Set<Seq<char>>, from: int) -> int
    decreases items.len() - from,
{
    if from < 0 || from >= items.len() || owed.contains(items[from].source_id@) {
        from
    } else {
        next_owed(items, owed, from + 1)
    }
}

/// The ids of some rows.
pub open spec fn ids_of(rows: Seq<Item>) -> Set<Seq<char>> {
    Set::new(|id: Seq<char>| exists|i: int| 0 <= i < rows.len() && (#[trigger] rows[i]).source_id@ == id)
}

pub open spec fn notes_of(id: String, notices: Seq<Notice>) -> Seq<ItemNotice> {
    notices.map_values(|notice: Notice| ItemNotice { source_id: id, notice })
}

/// A path as the filesystem takes it.
pub open spec fn native(path: FilePath, r: NativePath) -> bool {
    r.shown@ == path_text(path@) && r.absolute == path.rooted && r.utf8 == is_all_text(path@)
}

pub fn native_of(path: &FilePath) -> (r: NativePath)
    ensures
        native(*path, r),
{
    NativePath { shown: path.text(), absolute: path.rooted, utf8: path.is_text() }
}

/// What settling an item does to the manifest: a written one is checked in, a failed one is noted.
pub open spec fn settles(
    before: Seq<RowView>,
    after: Seq<RowView>,
    kind: ItemKind,
    item: PlannedItem,
    outcome: Result<Done, FixError>,
    now: i64,
    r: Result<(), ManifestError>,
) -> bool {
    match outcome {
        Ok(done) => exists|path: NativePath| #[trigger]
            native(item.output, path) && checked_in(before, after, kind, item.source_id@, path, done.measured, now, r),
        Err(error) => failed_once(before, after, kind, item.source_id@, fix_words(error), now, r),
    }
}

/// What settling an item does to the report.
pub open spec fn reports(before: FixReport, after: FixReport, item: PlannedItem, outcome: Result<Done, FixError>) -> bool {
    &&& after.resumed == before.resumed
    &&& after.skipped == before.skipped
    &&& after.deferred == before.deferred
    &&& after.excluded == before.excluded
    &&& match outcome {
        Ok(done) => {
            &&& after.fixed == before.fixed + 1
            &&& after.failed == before.failed
            &&& after.notices@ == before.notices@ + notes_of(item.source_id, done.notices@)
        },
        Err(error) => {
            &&& after.fixed == before.fixed
            &&& after.notices == before.notices
            &&& after.failed@.len() == before.failed@.len() + 1
            &&& after.failed@.drop_last() == before.failed@
            &&& after.failed@.last().source_id == item.source_id
            &&& after.failed@.last().reason@ == fix_words(error)
        },
    }
}

impl FixRun {
    /// The items the manifest says are owed.
    pub closed spec fn owed(self) -> Set<Seq<char>> {
        self.owed@
    }

    /// What the run has come to so far.
    pub closed spec fn told(self) -> FixReport {
        self.report
    }

    /// What the run came to.
    pub fn into_report(self) -> (r: FixReport)
        ensures
            r == self.told(),
    {
        self.report
    }

    /// How many items of the plan were taken up.
    pub closed spec fn taken(self) -> int {
        self.next as int
    }

    /// Whether the last item taken up is still to be settled.
    pub closed spec fn open(self) -> bool {
        self.open
    }

    /// Every item taken up is skipped, written, failed, or the one still open.
    pub closed spec fn wf(self) -> bool {
        self.report.skipped + self.report.fixed + self.report.failed@.len() + (if self.open {
            1int
        } else {
            0int
        }) == self.next
    }

    /// Opens a run: parks the items its plan leaves out. This comes before the finished items are
    /// read, so that the parked ones are counted as such and not as work.
    pub fn park(plan: &Plan, manifest: &mut Manifest, now: i64) -> (r: Result<(), ManifestError>)
        requires
            old(manifest).wf(),
        ensures
            final(manifest).wf(),
            final(manifest).path == old(manifest).path,
            match r {
                Ok(()) => {
                    &&& final(manifest).table() == excluded_all(old(manifest).table(), plan.kind, views(plan.excluded@), now)
                    &&& parked(final(manifest).table(), plan.kind, views(plan.excluded@))
                    &&& forall|i: int|
                        0 <= i < plan.excluded@.len() ==> movable(old(manifest).table(), plan.kind, #[trigger] views(plan.excluded@)[i])
                },
                Err(error) => {
                    &&& final(manifest).table() == old(manifest).table()
                    &&& exists|at: int|
                        0 <= at < plan.excluded@.len() && refused(
                            old(manifest).table(),
                            plan.kind,
                            #[trigger] views(plan.excluded@)[at],
                            error,
                        ) && forall|i: int|
                            0 <= i < at ==> movable(old(manifest).table(), plan.kind, #[trigger] views(plan.excluded@)[i])
                },
            },
    {
        let r = manifest.exclude(plan.kind, &plan.excluded, now);
        proof {
            lemma_excluded_all(old(manifest).table(), plan.kind, views(plan.excluded@), now);
        }
        r
    }

    /// Starts an opened run: checks finished items against their files, and asks what is still owed.
    /// What the plan leaves out is not.
    pub fn start(plan: &Plan, manifest: &mut Manifest, readings: &Vec<Reading>, max_attempts: u32, now: i64) -> (r: Result<
        Self,
        ManifestError,
    >)
        requires
            old(manifest).wf(),
            parked(old(manifest).table(), plan.kind, views(plan.excluded@)),
            readings@.len() == finished(old(manifest).rows@, plan.kind).len(),
        ensures
            final(manifest).wf(),
            final(manifest).table() == resumed(
                old(manifest).table(),
                plan.kind,
                finished(old(manifest).rows@, plan.kind),
                readings@,
                readings@.len(),
                now,
            ),
            ({
                let done = finished(old(manifest).rows@, plan.kind);
                let rows = final(manifest).table();
                match r {
                    Ok(run) => resume_tells(done, readings@, rows, plan.kind, Ok(run.told().resumed)),
                    Err(error) => resume_tells(done, readings@, rows, plan.kind, Err(error)) || read_back(
                        owed(final(manifest).rows@, plan.kind, max_attempts),
                        Err(error),
                    ),
                }
            }),
            r matches Ok(run) ==> {
                &&& run.wf()
                &&& run.taken() == 0
                &&& !run.open()
                &&& run.told().fixed == 0
                &&& run.told().failed@.len() == 0
                &&& run.told().skipped == 0
                &&& run.told().notices@.len() == 0
                &&& run.told().deferred == plan.deferred@.len()
                &&& run.told().excluded == plan.excluded@.len()
                &&& exists|items: Vec<Item>| #[trigger]
                    read_back(owed(final(manifest).rows@, plan.kind, max_attempts), Ok(items)) && run.owed() == ids_of(items@)
                &&& forall|i: int| 0 <= i < plan.excluded@.len() ==> !run.owed().contains(#[trigger] views(plan.excluded@)[i])
            },
    {
        let resumed = match manifest.resume(plan.kind, readings, now) {
            Ok(report) => report,
            Err(error) => {
                return Err(error);
            },
        };
        let items = match manifest.pending(plan.kind, max_attempts) {
            Ok(items) => items,
            Err(error) => {
                return Err(error);
            },
        };
        let mut owed = StringHashSet::new();
        let mut i: usize = 0;
        assert(owed@ =~= ids_of(items@.take(0)));
        while i < items.len()
            invariant
                i <= items@.len(),
                owed@ == ids_of(items@.take(i as int)),
            decreases items.len() - i,
        {
            let ghost before = owed@;
            owed.insert(items[i].source_id.clone());
            proof {
                let (less, more) = (items@.take(i as int), items@.take(i + 1));
                assert forall|id: Seq<char>| #[trigger] owed@.contains(id) == ids_of(more).contains(id) by {
                    if ids_of(more).contains(id) {
                        let k = choose|k: int| 0 <= k < more.len() && (#[trigger] more[k]).source_id@ == id;
                        if k < i {
                            assert(less[k].source_id@ == id);
                            assert(ids_of(less).contains(id));
                        }
                    }
                    if ids_of(less).contains(id) {
                        let k = choose|k: int| 0 <= k < less.len() && (#[trigger] less[k]).source_id@ == id;
                        assert(more[k].source_id@ == id);
                    }
                    if id == items@[i as int].source_id@ {
                        assert(more[i as int].source_id@ == id);
                    }
                }
                assert(owed@ =~= ids_of(more));
            }
            i += 1;
        }
        assert(items@.take(i as int) =~= items@);
        let report = FixReport {
            resumed,
            fixed: 0,
            failed: Vec::new(),
            skipped: 0,
            deferred: plan.deferred.len(),
            excluded: plan.excluded.len(),
            notices: Vec::new(),
        };
        let run = FixRun { owed, report, next: 0, open: false };
        assert(read_back(crate::export::state::owed(manifest.rows@, plan.kind, max_attempts), Ok(items)));
        assert forall|i: int| 0 <= i < plan.excluded@.len() implies !owed@.contains(#[trigger] views(plan.excluded@)[i]) by {
            let id = views(plan.excluded@)[i];
            if owed@.contains(id) {
                let k = choose|k: int| 0 <= k < items@.len() && (#[trigger] items@[k]).source_id@ == id;
                let offered = crate::export::state::owed(manifest.rows@, plan.kind, max_attempts);
                assert(reads_as(offered[k]@, items@[k]));
                law_a_parked_record_is_not_offered(
                    old(manifest).rows@,
                    manifest.rows@,
                    plan.kind,
                    readings@,
                    now,
                    max_attempts,
                    views(plan.excluded@),
                    i,
                    k,
                );
            }
        }
        Ok(run)
    }

    /// Takes up the next owed item, and passes over the ones before it that are not.
    pub fn step(&mut self, plan: &Plan) -> (r: Option<usize>)
        requires
            old(self).wf(),
            !old(self).open(),
            old(self).taken() <= plan.items@.len(),
        ensures
            final(self).wf(),
            final(self).owed() == old(self).owed(),
            final(self).taken() <= plan.items@.len(),
            final(self).told().fixed == old(self).told().fixed,
            final(self).told().failed == old(self).told().failed,
            final(self).told().notices == old(self).told().notices,
            final(self).told().resumed == old(self).told().resumed,
            final(self).told().deferred == old(self).told().deferred,
            final(self).told().excluded == old(self).told().excluded,
            ({
                let at = next_owed(plan.items@, old(self).owed(), old(self).taken());
                &&& final(self).told().skipped == old(self).told().skipped + (at - old(self).taken())
                &&& match r {
                    Some(found) => found == at && found < plan.items@.len() && final(self).open() && final(self).taken() == at + 1,
                    None => at == plan.items@.len() && !final(self).open() && final(self).taken() == at,
                }
            }),
    {
        let len: usize = plan.items.len();
        while self.next < len && !self.owed.contains(&plan.items[self.next].source_id)
            invariant
                len == plan.items@.len(),
                self.wf(),
                !self.open,
                old(self).next <= self.next <= len,
                self.owed == old(self).owed,
                self.report.fixed == old(self).told().fixed,
                self.report.failed == old(self).told().failed,
                self.report.notices == old(self).told().notices,
                self.report.resumed == old(self).told().resumed,
                self.report.deferred == old(self).told().deferred,
                self.report.excluded == old(self).told().excluded,
                self.report.skipped == old(self).told().skipped + (self.next - old(self).next),
                next_owed(plan.items@, self.owed@, self.next as int) == next_owed(plan.items@, self.owed@, old(self).next as int),
            decreases len - self.next,
        {
            self.report.skipped = self.report.skipped + 1;
            self.next = self.next + 1;
        }
        if self.next < len {
            let at: usize = self.next;
            self.next = at + 1;
            self.open = true;
            Some(at)
        } else {
            None
        }
    }

    /// Settles the item taken up last: a written one is checked in and its notices kept, a failed one
    /// is noted with the reason.
    pub fn settle(&mut self, plan: &Plan, outcome: Result<Done, FixError>, manifest: &mut Manifest, now: i64) -> (r: Result<
        (),
        ManifestError,
    >)
        requires
            old(self).wf(),
            old(self).open(),
            0 < old(self).taken() <= plan.items@.len(),
            old(manifest).wf(),
        ensures
            final(self).wf(),
            final(self).owed() == old(self).owed(),
            final(self).taken() == old(self).taken(),
            final(manifest).wf(),
            settles(
                old(manifest).table(),
                final(manifest).table(),
                plan.kind,
                plan.items@[old(self).taken() - 1],
                outcome,
                now,
                r,
            ),
            match r {
                Ok(()) => !final(self).open() && reports(
                    old(self).told(),
                    final(self).told(),
                    plan.items@[old(self).taken() - 1],
                    outcome,
                ),
                Err(_) => final(self).open() && final(self).told() == old(self).told(),
            },
    {
        let item = &plan.items[self.next - 1];
        let ghost outcome_was = outcome;
        match outcome {
            Ok(done) => {
                let path = native_of(&item.output);
                match manifest.mark_done(plan.kind, &item.source_id, &path, done.measured, now) {
                    Ok(()) => {},
                    Err(error) => {
                        return Err(error);
                    },
                }
                assert(native(item.output, path));
                let ghost before = self.report.notices@;
                let ghost noted = done.notices@;
                self.report.fixed = self.report.fixed + 1;
                for notice in it: done.notices
                    invariant
                        it.seq() == noted,
                        self.report.notices@ == before + notes_of(item.source_id, noted).take(it.index() as int),
                        self.owed == old(self).owed,
                        self.next == old(self).next,
                        self.open == old(self).open,
                        self.report.fixed == old(self).told().fixed + 1,
                        self.report.failed == old(self).told().failed,
                        self.report.skipped == old(self).told().skipped,
                        self.report.resumed == old(self).told().resumed,
                        self.report.deferred == old(self).told().deferred,
                        self.report.excluded == old(self).told().excluded,
                {
                    let note = ItemNotice { source_id: item.source_id.clone(), notice };
                    self.report.notices.push(note);
                    assert(self.report.notices@ =~= before + notes_of(item.source_id, noted).take(it.index() + 1));
                }
                assert(notes_of(item.source_id, noted).take(noted.len() as int) =~= notes_of(item.source_id, noted));
                self.open = false;
                Ok(())
            },
            Err(error) => {
                let reason = error.message();
                match manifest.mark_failed(plan.kind, &item.source_id, &reason, now) {
                    Ok(()) => {},
                    Err(error) => {
                        return Err(error);
                    },
                }
                self.report.failed.push(Failure { source_id: item.source_id.clone(), reason });
                assert(self.report.failed@.drop_last() =~= old(self).told().failed@);
                self.open = false;
                Ok(())
            },
        }
    }
}

/// Every item passed over was not owed, and the one taken up is.
pub proof fn law_only_owed_items_are_taken_up(items: Seq<PlannedItem>, owed: Set<Seq<char>>, from: int, at: int)
    requires
        0 <= from <= items.len(),
        at == next_owed(items, owed, from),
    ensures
        from <= at <= items.len(),
        at < items.len() ==> owed.contains(items[at].source_id@),
        forall|i: int| from <= i < at ==> !owed.contains((#[trigger] items[i]).source_id@),
    decreases items.len() - from,
{
    if from < items.len() && !owed.contains(items[from].source_id@) {
        law_only_owed_items_are_taken_up(items, owed, from + 1, at);
    }
}

/// A caption layer is drawn in exactly where there is one, and a picture is stamped exactly where
/// it is not a PNG; a picture that was not stamped is noted, and nothing else is.
pub proof fn law_a_picture_gets_its_layer_and_its_stamp(item: PlannedItem, route: ImageRoute, notices: Seq<Notice>)
    requires
        fixes_image(item, route, notices),
        item.leg == Leg::Image,
    ensures
        route is Composed || route is ComposedAndStamped <==> item.media.overlay is Some,
        route is Stamped || route is ComposedAndStamped <==> fold(item.media.extension@) != "png"@,
        route is Stamped || route is ComposedAndStamped <==> notices.len() == 0,
        forall|i: int| 0 <= i < notices.len() ==> #[trigger] notices[i] == Notice::NotStamped,
        notices.len() <= 1,
{
    reveal_strlit("png");
    assert(fold("png"@) =~= "png"@);
}

/// What a video's notices say, and of which video: that it was not re-encoded, and whether by
/// choice; that its layer was lost by that; that it carries a location this run knew and left.
pub proof fn law_a_video_is_told_what_it_missed(item: PlannedItem, options: VideoOptions, atom: Option<String>, notices: Seq<Notice>)
    requires
        notes_video(item, options, atom, notices),
    ensures
        notices.contains(Notice::NotTranscoded(TranscodeSkip::OptedOut)) <==> !options.transcode,
        notices.contains(Notice::NotTranscoded(TranscodeSkip::NoFfmpeg)) <==> options.transcode && options.ffmpeg is None,
        notices.contains(Notice::OverlayNotBurned) <==> item.media.overlay is Some && !(options.transcode && options.ffmpeg is Some),
        forall|named: String| #[trigger]
            notices.contains(Notice::LocationShadowed(named)) <==> atom == Some(named) && item.location is Some,
        !notices.contains(Notice::NotStamped),
        notices.no_duplicates(),
{
    let skips = skip_notices(options, item.media.overlay is Some);
    let shadows = shadow_notices(atom, item.location is Some);
    assert forall|notice: Notice| #[trigger] notices.contains(notice) <==> skips.contains(notice) || shadows.contains(notice) by {
        if notices.contains(notice) {
            let i = choose|i: int| 0 <= i < notices.len() && notices[i] == notice;
            if i < skips.len() {
                assert(skips[i] == notice);
            } else {
                assert(shadows[i - skips.len()] == notice);
            }
        }
        if skips.contains(notice) {
            let i = choose|i: int| 0 <= i < skips.len() && skips[i] == notice;
            assert(notices[i] == notice);
        }
        if shadows.contains(notice) {
            let i = choose|i: int| 0 <= i < shadows.len() && shadows[i] == notice;
            assert(notices[skips.len() + i] == notice);
        }
    }
    let skip = if options.transcode {
        TranscodeSkip::NoFfmpeg
    } else {
        TranscodeSkip::OptedOut
    };
    if !(options.transcode && options.ffmpeg is Some) {
        assert(skips[0] == Notice::NotTranscoded(skip));
        if item.media.overlay is Some {
            assert(skips[1] == Notice::OverlayNotBurned);
        }
    }
    if atom is Some && item.location is Some {
        assert(shadows[0] == Notice::LocationShadowed(atom.unwrap()));
    }
}

/// A re-encode is written in the directory of its output, under a hidden name that is its output's
/// name marked, and never over the output itself.
pub proof fn law_a_reencode_is_written_beside_its_output(output: PathView)
    ensures
        scratch_of(output) is Some <==> file_name_of(output) is Some,
        scratch_of(output) matches Some(scratch) ==> {
            &&& parent_of(scratch) == parent_of(output)
            &&& file_name_of(scratch) == Some(".exportsnap-transcoding-"@ + file_name_of(output).unwrap())
            &&& scratch != output
        },
{
    reveal_strlit(".exportsnap-transcoding-");
    match scratch_of(output) {
        Some(scratch) => {
            let name = file_name_of(output).unwrap();
            assert(scratch.parts.drop_last() =~= output.parts.drop_last());
            assert(scratch.parts.last() == SCRATCH_PREFIX@ + name);
            assert((SCRATCH_PREFIX@ + name).len() > name.len());
            assert((SCRATCH_PREFIX@ + name).len() > 2);
        },
        None => {},
    }
}

/// What is kept is a copy of each of the item's own files, each under the name planned for it, and
/// no file of the export is written to.
pub proof fn law_originals_are_copied_out(item: PlannedItem, copies: Seq<KeptCopy>)
    requires
        keeps(item, copies),
    ensures
        copies.len() > 0 <==> item.originals is Some,
        item.originals matches Some(originals) ==> {
            &&& exists|i: int|
                0 <= i < copies.len() && (#[trigger] copies[i]).from@ == item.media.main@ && copies[i].to@ == originals.main_copy@
            &&& exists|i: int|
                0 <= i < copies.len() && (#[trigger] copies[i]).from@ == originals.overlay@ && copies[i].to@ == originals.overlay_copy@
            &&& forall|i: int|
                0 <= i < copies.len() ==> (#[trigger] copies[i]).to@ == originals.main_copy@ || copies[i].to@ == originals.overlay_copy@
        },
{
    if item.originals is Some {
        assert(copies[0].from@ == item.media.main@);
        assert(copies[1].from@ == item.originals.unwrap().overlay@);
    }
}

/// A settled item is told once, as fixed or as failed, and its row says the same: done with its
/// output, or failed with the reason told.
pub proof fn law_a_settled_item_is_told_as_it_is_recorded(
    before: Seq<RowView>,
    after: Seq<RowView>,
    told: FixReport,
    tells: FixReport,
    kind: ItemKind,
    item: PlannedItem,
    outcome: Result<Done, FixError>,
    now: i64,
)
    requires
        rows_distinct(before),
        settles(before, after, kind, item, outcome, now, Ok(())),
        reports(told, tells, item, outcome),
    ensures
        moves_only(before, after, kind, item.source_id@),
        has_row(before, kind, item.source_id@),
        tells.fixed + tells.failed@.len() == told.fixed + told.failed@.len() + 1,
        tells.fixed == told.fixed + 1 <==> outcome is Ok,
        outcome is Ok ==> forall|i: int|
            0 <= i < before.len() && (#[trigger] before[i]).kind == kind.word() && before[i].source_id == item.source_id@ ==> after[i].status
                == "done"@ && after[i].output_path == Some(path_text(item.output@)) && after[i].retry_count == before[i].retry_count,
        outcome is Err ==> forall|i: int|
            0 <= i < before.len() && (#[trigger] before[i]).kind == kind.word() && before[i].source_id == item.source_id@ ==> after[i].status
                == "failed"@ && after[i].last_error == Some(redacted(tells.failed@.last().reason@, hidden_for(before[i].url))),
        outcome is Err ==> tells.failed@.last().source_id == item.source_id && tells.notices == told.notices,
        outcome matches Ok(done) ==> forall|notice: Notice| #[trigger]
            done.notices@.contains(notice) ==> tells.notices@.contains(ItemNotice { source_id: item.source_id, notice }),
{
    match outcome {
        Ok(done) => {
            let path = choose|path: NativePath| #[trigger]
                native(item.output, path) && checked_in(before, after, kind, item.source_id@, path, done.measured, now, Ok(()));
            law_a_finished_item_is_recorded(before, after, kind, item.source_id@, path, done.measured, now, Ok(()));
            assert forall|notice: Notice| #[trigger] done.notices@.contains(notice) implies tells.notices@.contains(
                ItemNotice { source_id: item.source_id, notice },
            ) by {
                let i = choose|i: int| 0 <= i < done.notices@.len() && done.notices@[i] == notice;
                assert(notes_of(item.source_id, done.notices@)[i] == ItemNotice { source_id: item.source_id, notice });
                assert(tells.notices@[told.notices@.len() + i] == ItemNotice { source_id: item.source_id, notice });
            }
        },
        Err(error) => {
            law_a_failure_is_counted(before, after, kind, item.source_id@, fix_words(error), now, Ok(()));
        },
    }
}

} // verus!
