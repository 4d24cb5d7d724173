//! What a run would write for each item: the leg it goes down, the time it is dated with, and the
//! path it lands at.

use vstd::prelude::*;

use crate::calendar::{
    in_calendar, lemma_reading_exists, lemma_unix_in_calendar, lemma_unix_injective, month_len, reading_ahead, two_digits, unix_seconds,
    year_text, LocalTime, FIRST_SECOND, LAST_SECOND,
};
use crate::export::manifest::ItemKind;
use crate::export::model::{reading_of, Attribution, Day, LocationPoint, Timestamp};
use crate::export::outputs::{all_handed_back, no_outputs, path_key, Originals, OriginalsView, OutState, RecordView};
use crate::paths::{joined, FilePath, PathView};
use crate::text::{fold, same_folded, views};

verus! {

/// The directory a run writes into when none is named.
pub const OUT_DIR: &'static str = "exportsnap-out";

/// How many attempts an item gets.
pub const DEFAULT_MAX_ATTEMPTS: u32 = 3;

/// The directory a run writes into when none is named: one beside the source's own files.
#[must_use]
pub fn default_out_root(source: &FilePath) -> (r: FilePath)
    ensures
        r@ == joined(source@, OUT_DIR@),
{
    source.join(OUT_DIR)
}

// ---- time ----

/// Where a capture time came from.
#[derive(Debug, Clone, Copy, PartialEq, Eq, PartialOrd, Ord, Hash, Structural)]
pub enum TimeSource {
    /// The memory's own entry.
    Entry,
    /// The message that sent it.
    Message,
    /// The file itself.
    Embedded,
    /// The day in the filename.
    Filename,
}

impl TimeSource {
    pub open spec fn words(self) -> Seq<char> {
        match self {
            TimeSource::Entry => "the memory's own entry"@,
            TimeSource::Message => "the message that sent it"@,
            TimeSource::Embedded => "the file's embedded timestamp"@,
            TimeSource::Filename => "the day in the filename"@,
        }
    }

    #[must_use]
    pub fn message(self) -> (r: &'static str)
        ensures
            r@ == self.words(),
    {
        match self {
            TimeSource::Entry => "the memory's own entry",
            TimeSource::Message => "the message that sent it",
            TimeSource::Embedded => "the file's embedded timestamp",
            TimeSource::Filename => "the day in the filename",
        }
    }
}

/// When a piece of media was taken: what a clock there showed, how far that clock is ahead of UTC
/// where it is known, and where both came from.
#[derive(Debug, Clone, Copy, PartialEq, Eq, Structural)]
pub struct Capture {
    pub local: LocalTime,
    pub offset: Option<i32>,
    pub source: TimeSource,
}

/// An offset a clock can have.
pub open spec fn is_offset(seconds: int) -> bool {
    -86400 < seconds < 86400
}

impl Capture {
    pub open spec fn wf(self) -> bool {
        &&& self.local.held()
        &&& self.offset matches Some(offset) ==> is_offset(offset as int)
    }

    /// The wall-clock time, which names and stamps the output.
    #[must_use]
    pub fn local(self) -> (r: LocalTime)
        ensures
            r == self.local,
    {
        self.local
    }

    #[must_use]
    pub fn offset(self) -> (r: Option<i32>)
        ensures
            r == self.offset,
    {
        self.offset
    }

    #[must_use]
    pub fn source(self) -> (r: TimeSource)
        ensures
            r == self.source,
    {
        self.source
    }

    /// The instant, in seconds since the epoch. A wall time with no offset is read as UTC, and so
    /// is one whose offset leads out of the calendar.
    #[must_use]
    pub fn instant(self) -> (r: i64)
        requires
            self.wf(),
        ensures
            r == instant_of(self),
    {
        let wall: i64 = self.local.unix();
        proof {
            lemma_unix_in_calendar(self.local);
        }
        match self.offset {
            Some(offset) => {
                let utc: i64 = wall - offset as i64;
                if FIRST_SECOND <= utc && utc <= LAST_SECOND {
                    utc
                } else {
                    wall
                }
            },
            None => wall,
        }
    }

    /// A UTC reading carried onto a clock `zone` ahead of it, or left in UTC where no zone is known.
    pub fn from_utc(utc: LocalTime, zone: Option<i32>, source: TimeSource) -> (r: Self)
        requires
            carries(utc, zone),
        ensures
            r.wf(),
            r == carried(utc, zone, source),
            unix_seconds(r.local) == unix_seconds(utc) + ahead_of(zone),
    {
        let offset: i32 = match zone {
            Some(seconds) => seconds,
            None => 0,
        };
        Capture { local: utc.ahead(offset), offset: Some(offset), source }
    }

    /// What a memory's own entry states.
    pub fn from_entry(utc: LocalTime, zone: Option<i32>) -> (r: Self)
        requires
            carries(utc, zone),
        ensures
            r.wf(),
            r == carried(utc, zone, TimeSource::Entry),
    {
        Self::from_utc(utc, zone, TimeSource::Entry)
    }

    /// What a message states, which knows no place.
    pub fn from_message(utc: LocalTime) -> (r: Self)
        requires
            utc.wf(),
        ensures
            r.wf(),
            r == (Capture { local: utc, offset: Some(0), source: TimeSource::Message }),
    {
        proof {
            lemma_unix_in_calendar(utc);
            lemma_kept_in_utc(utc);
        }
        Self::from_utc(utc, None, TimeSource::Message)
    }

    /// Midnight of the day a filename names, where the calendar has it.
    pub fn from_day(day: Day) -> (r: Option<Self>)
        ensures
            r == from_day_of(day),
            r matches Some(capture) ==> capture.wf(),
    {
        match midnight(day) {
            Some(local) => Some(Capture { local, offset: None, source: TimeSource::Filename }),
            None => None,
        }
    }
}

/// The instant of a capture.
pub open spec fn instant_of(capture: Capture) -> int {
    let wall = unix_seconds(capture.local);
    match capture.offset {
        Some(offset) => if in_calendar(wall - offset) {
            wall - offset
        } else {
            wall
        },
        None => wall,
    }
}

pub open spec fn ahead_of(zone: Option<i32>) -> int {
    match zone {
        Some(seconds) => seconds as int,
        None => 0,
    }
}

/// Whether a UTC reading has a wall time on a clock `zone` ahead.
pub open spec fn carries(utc: LocalTime, zone: Option<i32>) -> bool {
    utc.wf() && is_offset(ahead_of(zone)) && in_calendar(unix_seconds(utc) + ahead_of(zone))
}

/// A UTC reading carried onto a clock `zone` ahead of it.
pub open spec fn carried(utc: LocalTime, zone: Option<i32>, source: TimeSource) -> Capture {
    Capture { local: reading_ahead(utc, ahead_of(zone)), offset: Some(ahead_of(zone) as i32), source }
}

pub open spec fn from_day_of(day: Day) -> Option<Capture> {
    let local = midnight_of(day);
    if local.wf() {
        Some(Capture { local, offset: None, source: TimeSource::Filename })
    } else {
        None
    }
}

/// A reading left in UTC is itself.
pub proof fn lemma_kept_in_utc(utc: LocalTime)
    requires
        utc.wf(),
    ensures
        reading_ahead(utc, 0) == utc,
{
    assert(utc.wf() && unix_seconds(utc) == unix_seconds(utc) + 0);
    lemma_unix_injective(utc, reading_ahead(utc, 0));
}

/// A capture carried onto any clock resolves back to the instant it came from.
pub proof fn law_a_carried_capture_keeps_its_instant(utc: LocalTime, zone: Option<i32>, source: TimeSource)
    requires
        carries(utc, zone),
    ensures
        instant_of(carried(utc, zone, source)) == unix_seconds(utc),
{
    let local = lemma_reading_exists(unix_seconds(utc) + ahead_of(zone));
    assert(local.wf() && unix_seconds(local) == unix_seconds(utc) + ahead_of(zone));
    lemma_unix_in_calendar(utc);
}

/// The reading a timestamp spells, where the calendar has it.
pub fn calendar(timestamp: Timestamp) -> (r: Option<LocalTime>)
    ensures
        r == calendar_of(timestamp),
{
    LocalTime::new(
        timestamp.year as i32,
        timestamp.month as u32,
        timestamp.day as u32,
        timestamp.hour as u32,
        timestamp.minute as u32,
        timestamp.second as u32,
    )
}

pub open spec fn calendar_of(timestamp: Timestamp) -> Option<LocalTime> {
    if reading_of(timestamp).wf() {
        Some(reading_of(timestamp))
    } else {
        None
    }
}

pub open spec fn midnight_of(day: Day) -> LocalTime {
    LocalTime {
        year: day.year as i32,
        month: day.month as u32,
        day: day.day as u32,
        hour: 0,
        minute: 0,
        second: 0,
    }
}

fn midnight(day: Day) -> (r: Option<LocalTime>)
    ensures
        r == (if midnight_of(day).wf() {
            Some(midnight_of(day))
        } else {
            None
        }),
{
    LocalTime::new(day.year as i32, day.month as u32, day.day as u32, 0, 0, 0)
}

// ---- formats ----

/// The two ways an item is written.
#[derive(Debug, Clone, Copy, PartialEq, Eq, PartialOrd, Ord, Hash, Structural)]
pub enum Leg {
    Image,
    Video,
}

impl Leg {
    pub open spec fn format(self) -> Seq<char> {
        match self {
            Leg::Image => "jpg"@,
            Leg::Video => "mp4"@,
        }
    }

    /// The extension this leg writes.
    #[must_use]
    pub fn extension(self) -> (r: &'static str)
        ensures
            r@ == self.format(),
    {
        match self {
            Leg::Image => "jpg",
            Leg::Video => "mp4",
        }
    }

    pub open spec fn words(self) -> Seq<char> {
        match self {
            Leg::Image => "image"@,
            Leg::Video => "video"@,
        }
    }

    #[must_use]
    pub fn message(self) -> (r: &'static str)
        ensures
            r@ == self.words(),
    {
        match self {
            Leg::Image => "image",
            Leg::Video => "video",
        }
    }

    /// The leg a file's extension sends it down; nothing for a format this build does not read.
    pub fn of(extension: &str) -> (r: Option<Self>)
        ensures
            r == leg_of(extension@),
    {
        if same_folded(extension, "jpg") || same_folded(extension, "jpeg") || same_folded(extension, "png") {
            Some(Leg::Image)
        } else if same_folded(extension, "mp4") {
            Some(Leg::Video)
        } else {
            None
        }
    }
}

/// Whether an extension spells a format, whatever its case.
pub open spec fn spells(extension: Seq<char>, format: Seq<char>) -> bool {
    fold(extension) == fold(format)
}

pub open spec fn leg_of(extension: Seq<char>) -> Option<Leg> {
    if spells(extension, "jpg"@) || spells(extension, "jpeg"@) || spells(extension, "png"@) {
        Some(Leg::Image)
    } else if spells(extension, "mp4"@) {
        Some(Leg::Video)
    } else {
        None
    }
}

/// What is done with videos.
#[derive(Debug, PartialEq, Eq)]
pub struct VideoOptions {
    /// Whether to re-encode.
    pub transcode: bool,
    /// The ffmpeg to re-encode with, where one was found.
    pub ffmpeg: Option<FilePath>,
}

/// Why a video was not re-encoded.
#[derive(Debug, Clone, Copy, PartialEq, Eq, PartialOrd, Ord, Hash, Structural)]
pub enum TranscodeSkip {
    OptedOut,
    NoFfmpeg,
}

impl VideoOptions {
    /// The ffmpeg to re-encode with, or why there is no re-encode.
    pub fn transcoder(&self) -> (r: Result<&FilePath, TranscodeSkip>)
        ensures
            match r {
                Ok(ffmpeg) => self.transcode && self.ffmpeg == Some(*ffmpeg),
                Err(TranscodeSkip::OptedOut) => !self.transcode,
                Err(TranscodeSkip::NoFfmpeg) => self.transcode && self.ffmpeg is None,
            },
    {
        if !self.transcode {
            return Err(TranscodeSkip::OptedOut);
        }
        match &self.ffmpeg {
            Some(ffmpeg) => Ok(ffmpeg),
            None => Err(TranscodeSkip::NoFfmpeg),
        }
    }
}

/// The files an item is made from.
#[derive(Debug, PartialEq, Eq)]
pub struct SourceMedia {
    pub main: FilePath,
    /// The day in the main file's name.
    pub day: Day,
    /// The main file's extension, as it is spelled.
    pub extension: String,
    /// The caption layer, where there is one.
    pub overlay: Option<FilePath>,
}

pub struct SourceView {
    pub main: PathView,
    pub day: Day,
    pub extension: Seq<char>,
    pub overlay: Option<PathView>,
}

pub open spec fn path_view(path: Option<FilePath>) -> Option<PathView> {
    match path {
        Some(path) => Some(path@),
        None => None,
    }
}

impl View for SourceMedia {
    type V = SourceView;

    open spec fn view(&self) -> SourceView {
        SourceView { main: self.main@, day: self.day, extension: self.extension@, overlay: path_view(self.overlay) }
    }
}

/// The format an item is kept in so that its transparency survives.
pub open spec fn own_format_of(leg: Leg, extension: Seq<char>) -> Option<Seq<char>> {
    if leg == Leg::Image && spells(extension, "png"@) {
        Some("png"@)
    } else {
        None
    }
}

pub fn own_format(leg: Leg, media: &SourceMedia) -> (r: Option<&'static str>)
    ensures
        match r {
            Some(format) => own_format_of(leg, media.extension@) == Some(format@),
            None => own_format_of(leg, media.extension@) is None,
        },
{
    match leg {
        Leg::Image => {
            if same_folded(&media.extension, "png") {
                Some("png")
            } else {
                None
            }
        },
        Leg::Video => None,
    }
}

/// Whether an item keeps its own format rather than its leg's.
#[must_use]
pub fn needs_its_own_format(leg: Leg, media: &SourceMedia) -> (r: bool)
    ensures
        r == own_format_of(leg, media.extension@) is Some,
{
    own_format(leg, media).is_some()
}

/// The extension an item is written under.
pub open spec fn written_as(leg: Leg, extension: Seq<char>) -> Seq<char> {
    match own_format_of(leg, extension) {
        Some(format) => format,
        None => leg.format(),
    }
}

#[must_use]
pub fn output_extension(leg: Leg, media: &SourceMedia) -> (r: &'static str)
    ensures
        r@ == written_as(leg, media.extension@),
{
    match own_format(leg, media) {
        Some(format) => format,
        None => leg.extension(),
    }
}

/// The year and month a capture is filed under.
pub open spec fn month_dir(root: PathView, local: LocalTime) -> PathView {
    joined(joined(root, year_text(local.year as int)), two_digits(local.month as int))
}

pub fn output_dir(root: &FilePath, local: LocalTime) -> (r: FilePath)
    requires
        local.held(),
    ensures
        r@ == month_dir(root@, local),
{
    root.join(&local.year_text()).join(&local.month_text())
}

// ---- plans ----

/// One item, and all that is known of what to write for it.
#[derive(Debug, PartialEq, Eq)]
pub struct PlannedItem {
    pub source_id: String,
    pub media: SourceMedia,
    pub leg: Leg,
    pub capture: Capture,
    pub location: Option<LocationPoint>,
    pub attribution: Option<Attribution>,
    /// Where it is written.
    pub output: FilePath,
    /// Where copies of the export's own two files are kept, where they are.
    pub originals: Option<Originals>,
}

pub struct AttributionView {
    pub sender: Option<Seq<char>>,
    pub conversation: Option<Seq<char>>,
}

pub open spec fn attribution_view(attribution: Option<Attribution>) -> Option<AttributionView> {
    match attribution {
        Some(attribution) => Some(
            AttributionView {
                sender: match attribution.sender {
                    Some(name) => Some(name.0@),
                    None => None,
                },
                conversation: match attribution.conversation {
                    Some(id) => Some(id.0@),
                    None => None,
                },
            },
        ),
        None => None,
    }
}

pub open spec fn originals_view(originals: Option<Originals>) -> Option<OriginalsView> {
    match originals {
        Some(originals) => Some(originals@),
        None => None,
    }
}

pub struct PlannedView {
    pub source_id: Seq<char>,
    pub media: SourceView,
    pub leg: Leg,
    pub capture: Capture,
    pub location: Option<LocationPoint>,
    pub attribution: Option<AttributionView>,
    pub output: PathView,
    pub originals: Option<OriginalsView>,
}

impl View for PlannedItem {
    type V = PlannedView;

    open spec fn view(&self) -> PlannedView {
        PlannedView {
            source_id: self.source_id@,
            media: self.media@,
            leg: self.leg,
            capture: self.capture,
            location: self.location,
            attribution: attribution_view(self.attribution),
            output: self.output@,
            originals: originals_view(self.originals),
        }
    }
}

/// Why an item is left for another build.
#[derive(Debug, Clone, Copy, PartialEq, Eq, PartialOrd, Ord, Hash, Structural)]
pub enum DeferralReason {
    UnknownFormat,
    NoCalendarDate,
}

impl DeferralReason {
    pub open spec fn words(self) -> Seq<char> {
        match self {
            DeferralReason::UnknownFormat => "the memory's file is in a format this build does not decode"@,
            DeferralReason::NoCalendarDate =>
                "no real calendar date could be worked out for this memory, so it has no year and month to file under"@,
        }
    }

    #[must_use]
    pub fn message(self) -> (r: &'static str)
        ensures
            r@ == self.words(),
    {
        match self {
            DeferralReason::UnknownFormat => "the memory's file is in a format this build does not decode",
            DeferralReason::NoCalendarDate =>
                "no real calendar date could be worked out for this memory, so it has no year and month to file under",
        }
    }
}

/// An item that is left, and why.
#[derive(Debug, PartialEq, Eq)]
pub struct Deferred {
    pub source_id: String,
    pub reason: DeferralReason,
}

pub struct DeferredView {
    pub source_id: Seq<char>,
    pub reason: DeferralReason,
}

impl View for Deferred {
    type V = DeferredView;

    open spec fn view(&self) -> DeferredView {
        DeferredView { source_id: self.source_id@, reason: self.reason }
    }
}

/// What a run would write.
#[derive(Debug, PartialEq, Eq)]
pub struct Plan {
    pub kind: ItemKind,
    pub items: Vec<PlannedItem>,
    pub deferred: Vec<Deferred>,
    /// The items this run leaves out by choice.
    pub excluded: Vec<String>,
}

pub open spec fn planned_views(items: Seq<PlannedItem>) -> Seq<PlannedView> {
    items.map_values(|item: PlannedItem| item@)
}

pub open spec fn deferred_views(deferred: Seq<Deferred>) -> Seq<DeferredView> {
    deferred.map_values(|item: Deferred| item@)
}

pub proof fn lemma_planned_push(items: Seq<PlannedItem>, item: PlannedItem)
    ensures
        planned_views(items.push(item)) == planned_views(items).push(item@),
{
    assert(planned_views(items.push(item)) =~= planned_views(items).push(item@));
}

pub proof fn lemma_deferred_push(deferred: Seq<Deferred>, item: Deferred)
    ensures
        deferred_views(deferred.push(item)) == deferred_views(deferred).push(item@),
{
    assert(deferred_views(deferred.push(item)) =~= deferred_views(deferred).push(item@));
}

/// How far a plan has come.
#[verifier::ext_equal]
pub struct PlanState {
    pub out: OutState,
    pub items: Seq<PlannedView>,
    pub deferred: Seq<DeferredView>,
    pub excluded: Seq<Seq<char>>,
}

pub open spec fn nothing_planned(root: PathView, records: Seq<RecordView>) -> PlanState {
    PlanState {
        out: all_handed_back(no_outputs(), root, records),
        items: Seq::empty(),
        deferred: Seq::empty(),
        excluded: Seq::empty(),
    }
}

pub open spec fn with_deferred(state: PlanState, id: Seq<char>, reason: DeferralReason) -> PlanState {
    PlanState { deferred: state.deferred.push(DeferredView { source_id: id, reason }), ..state }
}

/// Whether a plan's lists are the ones a state came to.
pub open spec fn plan_is(plan: Plan, kind: ItemKind, state: PlanState) -> bool {
    &&& plan.kind == kind
    &&& planned_views(plan.items@) == state.items
    &&& deferred_views(plan.deferred@) == state.deferred
    &&& views(plan.excluded@) == state.excluded
}

/// What a file itself says of when it was taken.
#[derive(Debug, Clone, Copy, PartialEq, Eq, Structural)]
pub enum Embedded {
    /// A picture holds a wall time, and the offset where it states one.
    Wall { local: LocalTime, offset: Option<i32> },
    /// A video's header holds UTC; the zone is the one at the place known for it.
    Header { utc: LocalTime, zone: Option<i32> },
}

impl Embedded {
    pub open spec fn wf(self) -> bool {
        match self {
            Embedded::Wall { local, offset } => local.held() && is_offset(ahead_of(offset)),
            Embedded::Header { utc, zone } => carries(utc, zone),
        }
    }
}

/// The capture a file's own statement makes.
pub open spec fn embedded_of(reading: Embedded) -> Capture {
    match reading {
        Embedded::Wall { local, offset } => Capture { local, offset, source: TimeSource::Embedded },
        Embedded::Header { utc, zone } => carried(utc, zone, TimeSource::Embedded),
    }
}

pub fn embedded(reading: Embedded) -> (r: Capture)
    requires
        reading.wf(),
    ensures
        r == embedded_of(reading),
        r.wf(),
{
    match reading {
        Embedded::Wall { local, offset } => Capture { local, offset, source: TimeSource::Embedded },
        Embedded::Header { utc, zone } => Capture::from_utc(utc, zone, TimeSource::Embedded),
    }
}

// ---- laws ----

/// Whether the calendar and the clock have an instant that is spelled out.
pub open spec fn calendar_has(at: Timestamp) -> bool {
    &&& 1 <= at.month <= 12
    &&& 1 <= at.day <= month_len(at.year as int, at.month as int)
    &&& at.hour <= 23
    &&& at.minute <= 59
    &&& at.second <= 59
}

/// Whether the calendar has a day that is spelled out.
pub open spec fn calendar_has_day(day: Day) -> bool {
    1 <= day.month <= 12 && 1 <= day.day <= month_len(day.year as int, day.month as int)
}

/// Whether a clock shows an instant as it is spelled out.
pub open spec fn shows(local: LocalTime, at: Timestamp) -> bool {
    &&& local.year == at.year
    &&& local.month == at.month
    &&& local.day == at.day
    &&& local.hour == at.hour
    &&& local.minute == at.minute
    &&& local.second == at.second
}

/// Whether a capture is what a file says of itself: a picture's wall time as it stands, a video's
/// UTC carried onto the clock of its place.
pub open spec fn dated_by_file(capture: Capture, reading: Embedded) -> bool {
    &&& capture.source == TimeSource::Embedded
    &&& match reading {
        Embedded::Wall { local, offset } => capture.local == local && capture.offset == offset,
        Embedded::Header { utc, zone: Some(ahead) } => unix_seconds(capture.local) == unix_seconds(utc) + ahead && capture.offset == Some(
            ahead,
        ),
        Embedded::Header { utc, zone: None } => capture.local == utc && capture.offset == Some(0i32),
    }
}

/// Whether a capture is midnight of a day, on a clock nothing is known of.
pub open spec fn dated_by_day(capture: Capture, day: Day) -> bool {
    &&& capture.source == TimeSource::Filename
    &&& capture.offset is None
    &&& capture.local.year == day.year
    &&& capture.local.month == day.month
    &&& capture.local.day == day.day
    &&& capture.local.hour == 0 && capture.local.minute == 0 && capture.local.second == 0
}

/// A file's own word dates it: whatever it says is kept, to the second and with its offset.
pub proof fn law_a_file_dates_itself(reading: Embedded)
    requires
        reading.wf(),
    ensures
        dated_by_file(embedded_of(reading), reading),
{
    match reading {
        Embedded::Wall { .. } => {},
        Embedded::Header { utc, zone } => {
            let local = lemma_reading_exists(unix_seconds(utc) + ahead_of(zone));
            assert(local.wf() && unix_seconds(local) == unix_seconds(utc) + ahead_of(zone));
            if zone is None {
                lemma_kept_in_utc(utc);
            }
        },
    }
}

/// A filename's day dates a file by its midnight, exactly where the calendar has the day.
pub proof fn law_a_day_dates_by_its_midnight(day: Day)
    ensures
        match from_day_of(day) {
            Some(capture) => calendar_has_day(day) && dated_by_day(capture, day),
            None => !calendar_has_day(day),
        },
{
}

/// A stated instant is read as it is spelled, exactly where the calendar has it.
pub proof fn law_a_stated_instant_is_read_as_spelled(at: Timestamp)
    ensures
        match calendar_of(at) {
            Some(local) => calendar_has(at) && shows(local, at),
            None => !calendar_has(at),
        },
{
}

/// Whether an extension is of a format that is taken.
pub open spec fn is_taken(extension: Seq<char>) -> bool {
    fold(extension) == "jpg"@ || fold(extension) == "jpeg"@ || fold(extension) == "png"@ || fold(extension) == "mp4"@
}

/// The extension a file of a format that is taken comes out under.
pub open spec fn format_for(extension: Seq<char>) -> Seq<char> {
    if fold(extension) == "png"@ {
        "png"@
    } else if fold(extension) == "mp4"@ {
        "mp4"@
    } else {
        "jpg"@
    }
}

/// Which leg a file goes down and what it is written as, whatever the case of its extension: a
/// picture comes out a JPEG unless it is a PNG, a video an MP4, and nothing else is taken.
pub proof fn law_a_file_keeps_its_kind(extension: Seq<char>)
    ensures
        fold(extension) == "jpg"@ || fold(extension) == "jpeg"@ ==> leg_of(extension) == Some(Leg::Image) && written_as(
            Leg::Image,
            extension,
        ) == "jpg"@,
        fold(extension) == "png"@ ==> leg_of(extension) == Some(Leg::Image) && written_as(Leg::Image, extension) == "png"@,
        fold(extension) == "mp4"@ ==> leg_of(extension) == Some(Leg::Video) && written_as(Leg::Video, extension) == "mp4"@,
        leg_of(extension) is Some <==> is_taken(extension),
        leg_of(extension) matches Some(leg) ==> written_as(leg, extension) == format_for(extension),
{
    reveal_strlit("jpg");
    reveal_strlit("jpeg");
    reveal_strlit("png");
    reveal_strlit("mp4");
    assert(fold("jpg"@) =~= "jpg"@);
    assert(fold("jpeg"@) =~= "jpeg"@);
    assert(fold("png"@) =~= "png"@);
    assert(fold("mp4"@) =~= "mp4"@);
    assert("jpg"@[0] != "mp4"@[0] && "jpg"@[0] != "png"@[0] && "png"@[0] != "mp4"@[0] && "jpeg"@[0] != "png"@[0] && "jpeg"@[0] != "mp4"@[0]);
}

/// Whether a plan goes on from another: what is in its lists stays, and what earlier runs recorded
/// stays whose it is.
pub open spec fn goes_on(before: PlanState, after: PlanState) -> bool {
    &&& before.items.len() <= after.items.len()
    &&& before.deferred.len() <= after.deferred.len()
    &&& before.excluded.len() <= after.excluded.len()
    &&& forall|i: int| 0 <= i < before.items.len() ==> #[trigger] after.items[i] == before.items[i]
    &&& forall|i: int| 0 <= i < before.deferred.len() ==> #[trigger] after.deferred[i] == before.deferred[i]
    &&& forall|i: int| 0 <= i < before.excluded.len() ==> #[trigger] after.excluded[i] == before.excluded[i]
    &&& after.out.assigned == before.out.assigned
}

/// Nothing is handed back to an item no record names.
pub proof fn lemma_unrecorded(root: PathView, records: Seq<RecordView>, id: Seq<char>)
    requires
        forall|i: int| 0 <= i < records.len() ==> (#[trigger] records[i]).source_id != id,
    ensures
        !nothing_planned(root, records).out.assigned.contains_key(id),
    decreases records.len(),
{
    if records.len() > 0 {
        let less = records.drop_last();
        assert forall|i: int| 0 <= i < less.len() implies (#[trigger] less[i]).source_id != id by {
            assert(less[i] == records[i]);
        }
        lemma_unrecorded(root, less, id);
        assert(records.last() == records[records.len() - 1]);
    }
}

/// Whether no two of these items are written to, or keep a copy at, one file, whatever the case.
pub open spec fn outputs_differ(items: Seq<PlannedView>) -> bool {
    forall|i: int, j: int|
        #![trigger items[i], items[j]]
        0 <= i < j < items.len() ==> path_key(items[i].output) != path_key(items[j].output)
}

/// The instant of a capture is its wall time less how far its clock is ahead, and its wall time
/// where that is not known.
pub proof fn law_an_instant_is_the_wall_time_less_the_offset(capture: Capture)
    ensures
        capture.offset is None ==> instant_of(capture) == unix_seconds(capture.local),
        capture.offset matches Some(ahead) ==> in_calendar(unix_seconds(capture.local) - ahead) ==> instant_of(capture) + ahead
            == unix_seconds(capture.local),
        capture.offset matches Some(ahead) ==> !in_calendar(unix_seconds(capture.local) - ahead) ==> instant_of(capture)
            == unix_seconds(capture.local),
{
}

} // verus!
