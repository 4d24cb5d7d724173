//! What a run would write for the memories of an export.

use vstd::hash_map::StringHashMap;
use vstd::prelude::*;

use crate::calendar::{compact_text, lemma_reading_exists, lemma_unix_in_calendar, two_digits, unix_seconds, year_text};
use crate::export::local_fix::{
    ahead_of, calendar, calendar_has, calendar_has_day, calendar_of, carried, dated_by_day, dated_by_file, deferred_views, embedded,
    embedded_of, format_for, from_day_of, goes_on, is_offset, is_taken, law_a_day_dates_by_its_midnight, law_a_file_dates_itself,
    law_a_file_keeps_its_kind, law_a_stated_instant_is_read_as_spelled, leg_of, lemma_deferred_push, lemma_kept_in_utc,
    lemma_planned_push, lemma_unrecorded, month_dir, nothing_planned, output_dir, output_extension, outputs_differ, plan_is,
    planned_views, shows, with_deferred, written_as, Capture, Deferred, DeferralReason, Embedded, Leg, Plan, PlanState, PlannedItem,
    PlannedView, SourceMedia, SourceView, TimeSource,
};
use crate::export::manifest::ItemKind;
use crate::export::model::{reading_of, Day, LocationPoint, Timestamp};
use crate::export::out_root::OutRootError;
use crate::export::outputs::{
    after_path, given_apart, lemma_given_output, lemma_nothing_given, lemma_path_below, lemma_planned_is_path_for, output_name_of,
    path_for, path_key, record_views, Given, Outputs, RecordView, RecordedOutputs,
};
use crate::paths::{joined, parent_of, FilePath, PathView};
use crate::text::{fold, views};

verus! {

/// A file that holds a memory, or a layer of one.
#[derive(Debug, PartialEq, Eq)]
pub struct MemoryFile {
    pub path: FilePath,
    pub day: Day,
    pub extension: String,
}

#[derive(Debug, PartialEq, Eq)]
pub struct MemoryMedia {
    pub main: MemoryFile,
    pub overlay: Option<MemoryFile>,
}

/// How surely an entry's file was told.
#[derive(Debug, PartialEq, Eq)]
pub enum Pairing {
    Exact(MemoryMedia),
    /// One of the files its bucket shares, and no way to tell which entry is its own.
    Ambiguous(MemoryMedia),
    Missing,
}

#[derive(Debug, PartialEq, Eq)]
pub struct MemoryItem {
    pub source_id: String,
    /// Which of the entries it is.
    pub entry_index: usize,
    pub pairing: Pairing,
}

pub open spec fn media_of(pairing: Pairing) -> Option<MemoryMedia> {
    match pairing {
        Pairing::Exact(media) => Some(media),
        Pairing::Ambiguous(media) => Some(media),
        Pairing::Missing => None,
    }
}

impl MemoryItem {
    pub fn media(&self) -> (r: Option<&MemoryMedia>)
        ensures
            match r {
                Some(media) => media_of(self.pairing) == Some(*media),
                None => media_of(self.pairing) is None,
            },
    {
        match &self.pairing {
            Pairing::Exact(media) => Some(media),
            Pairing::Ambiguous(media) => Some(media),
            Pairing::Missing => None,
        }
    }
}

/// What entries that cannot be told apart share.
#[derive(Debug, PartialEq, Eq)]
pub struct Bucket(pub String);

/// One entry of the export.
#[derive(Debug, PartialEq, Eq)]
pub struct Memory {
    pub date: Option<Timestamp>,
    pub location: Option<LocationPoint>,
    pub bucket: Option<Bucket>,
}

// ---- places ----

/// What a bucket's entries say of where they were taken.
#[derive(Debug, Clone, Copy, PartialEq, Eq, Structural)]
pub enum Agreement {
    /// All in one place.
    On(LocationPoint),
    Split,
}

pub open spec fn in_bucket(memory: Memory, bucket: Seq<char>) -> bool {
    memory.bucket matches Some(own) && own.0@ == bucket
}

/// What the entries of a bucket come to, one after another.
pub open spec fn agreement_of(memories: Seq<Memory>, bucket: Seq<char>) -> Option<Agreement>
    decreases memories.len(),
{
    if memories.len() == 0 {
        None
    } else {
        let before = agreement_of(memories.drop_last(), bucket);
        if in_bucket(memories.last(), bucket) {
            match (before, memories.last().location) {
                (None, Some(location)) => Some(Agreement::On(location)),
                (Some(Agreement::On(seen)), Some(location)) => if seen == location {
                    Some(Agreement::On(location))
                } else {
                    Some(Agreement::Split)
                },
                _ => Some(Agreement::Split),
            }
        } else {
            before
        }
    }
}

/// Whether a bucket has an entry and every entry of it names one place.
pub open spec fn agrees_on(memories: Seq<Memory>, bucket: Seq<char>, location: LocationPoint) -> bool {
    &&& exists|i: int| 0 <= i < memories.len() && in_bucket(#[trigger] memories[i], bucket)
    &&& forall|i: int|
        0 <= i < memories.len() && in_bucket(#[trigger] memories[i], bucket) ==> memories[i].location == Some(location)
}

proof fn lemma_agreement_some(memories: Seq<Memory>, bucket: Seq<char>)
    ensures
        agreement_of(memories, bucket) is Some <==> exists|i: int|
            0 <= i < memories.len() && in_bucket(#[trigger] memories[i], bucket),
    decreases memories.len(),
{
    if memories.len() > 0 {
        let less = memories.drop_last();
        lemma_agreement_some(less, bucket);
        if agreement_of(memories, bucket) is Some {
            if in_bucket(memories.last(), bucket) {
                assert(in_bucket(memories[memories.len() - 1], bucket));
            } else {
                let i = choose|i: int| 0 <= i < less.len() && in_bucket(#[trigger] less[i], bucket);
                assert(in_bucket(memories[i], bucket));
            }
        }
        if exists|i: int| 0 <= i < memories.len() && in_bucket(#[trigger] memories[i], bucket) {
            let i = choose|i: int| 0 <= i < memories.len() && in_bucket(#[trigger] memories[i], bucket);
            if i < less.len() {
                assert(in_bucket(less[i], bucket));
            }
        }
    }
}

/// A bucket comes to a place exactly where it has an entry and every entry of it names that place.
pub proof fn law_an_agreed_place_is_every_entrys(memories: Seq<Memory>, bucket: Seq<char>, location: LocationPoint)
    ensures
        agreement_of(memories, bucket) == Some(Agreement::On(location)) <==> agrees_on(memories, bucket, location),
    decreases memories.len(),
{
    lemma_agreement_some(memories, bucket);
    if memories.len() > 0 {
        let less = memories.drop_last();
        law_an_agreed_place_is_every_entrys(less, bucket, location);
        lemma_agreement_some(less, bucket);
        if agreement_of(memories, bucket) == Some(Agreement::On(location)) {
            assert forall|i: int| 0 <= i < memories.len() && in_bucket(#[trigger] memories[i], bucket) implies memories[i].location
                == Some(location) by {
                if i < less.len() {
                    assert(in_bucket(less[i], bucket));
                }
            }
        }
        if agrees_on(memories, bucket, location) {
            assert forall|i: int| 0 <= i < less.len() && in_bucket(#[trigger] less[i], bucket) implies less[i].location == Some(
                location,
            ) by {
                assert(in_bucket(memories[i], bucket));
            }
            if in_bucket(memories.last(), bucket) {
                assert(in_bucket(memories[memories.len() - 1], bucket));
            }
            if agreement_of(less, bucket) is Some {
                assert(agrees_on(less, bucket, location));
            }
        }
    }
}

/// What every bucket of an export comes to.
pub struct Agreements {
    buckets: StringHashMap<Agreement>,
}

impl Agreements {
    pub closed spec fn of(self, memories: Seq<Memory>) -> bool {
        forall|bucket: Seq<char>| #[trigger]
            self.buckets@.contains_key(bucket) == (agreement_of(memories, bucket) is Some) && (self.buckets@.contains_key(bucket)
                ==> agreement_of(memories, bucket) == Some(self.buckets@[bucket]))
    }

    fn get(&self, bucket: &Bucket, Ghost(memories): Ghost<Seq<Memory>>) -> (r: Option<Agreement>)
        requires
            self.of(memories),
        ensures
            r == agreement_of(memories, bucket.0@),
    {
        match self.buckets.get(&bucket.0) {
            Some(agreement) => Some(*agreement),
            None => None,
        }
    }
}

pub fn agreements(memories: &Vec<Memory>) -> (r: Agreements)
    ensures
        r.of(memories@),
{
    let mut agreements = Agreements { buckets: StringHashMap::new() };
    let mut i: usize = 0;
    while i < memories.len()
        invariant
            i <= memories@.len(),
            agreements.of(memories@.take(i as int)),
        decreases memories.len() - i,
    {
        let memory = &memories[i];
        let ghost before = memories@.take(i as int);
        let ghost now = memories@.take(i + 1);
        assert(now.drop_last() =~= before);
        assert(now.last() == *memory);
        match &memory.bucket {
            Some(bucket) => {
                let seen: Option<Agreement> = match agreements.buckets.get(&bucket.0) {
                    Some(agreement) => Some(*agreement),
                    None => None,
                };
                assert(seen == agreement_of(before, bucket.0@)) by {
                    assert(agreements.buckets@.contains_key(bucket.0@) == (agreement_of(before, bucket.0@) is Some));
                }
                let next = match (seen, memory.location) {
                    (None, Some(location)) => Agreement::On(location),
                    (Some(Agreement::On(place)), Some(location)) => {
                        if place == location {
                            Agreement::On(location)
                        } else {
                            Agreement::Split
                        }
                    },
                    _ => Agreement::Split,
                };
                let ghost map = agreements.buckets@;
                agreements.buckets.insert(bucket.0.clone(), next);
                assert forall|other: Seq<char>| #[trigger]
                    agreements.buckets@.contains_key(other) == (agreement_of(now, other) is Some) && (
                    agreements.buckets@.contains_key(other) ==> agreement_of(now, other) == Some(
                        agreements.buckets@[other],
                    )) by {
                    assert(map.contains_key(other) == (agreement_of(before, other) is Some));
                }
            },
            None => {
                assert forall|other: Seq<char>| #[trigger]
                    agreements.buckets@.contains_key(other) == (agreement_of(now, other) is Some) && (
                    agreements.buckets@.contains_key(other) ==> agreement_of(now, other) == Some(
                        agreements.buckets@[other],
                    )) by {
                    assert(agreements.buckets@.contains_key(other) == (agreement_of(before, other) is Some));
                }
            },
        }
        i += 1;
    }
    assert(memories@.take(i as int) =~= memories@);
    agreements
}

/// The place an item may be stamped with: its own entry's where the pairing is sure, the one its
/// whole bucket agrees on where it is not.
pub open spec fn permitted(pairing: Pairing, memory: Memory, memories: Seq<Memory>) -> Option<LocationPoint> {
    match pairing {
        Pairing::Exact(_) => memory.location,
        Pairing::Ambiguous(_) => match memory.bucket {
            Some(bucket) => match agreement_of(memories, bucket.0@) {
                Some(Agreement::On(location)) => Some(location),
                _ => None,
            },
            None => None,
        },
        Pairing::Missing => None,
    }
}

fn permitted_in(pairing: &Pairing, memory: &Memory, agreements: &Agreements, Ghost(memories): Ghost<Seq<Memory>>) -> (r: Option<
    LocationPoint,
>)
    requires
        agreements.of(memories),
    ensures
        r == permitted(*pairing, *memory, memories),
{
    match pairing {
        Pairing::Exact(_) => memory.location,
        Pairing::Ambiguous(_) => match &memory.bucket {
            Some(bucket) => match agreements.get(bucket, Ghost(memories)) {
                Some(Agreement::On(location)) => Some(location),
                _ => None,
            },
            None => None,
        },
        Pairing::Missing => None,
    }
}

/// The place an item may be stamped with, given every entry of the export.
pub fn permitted_location(pairing: &Pairing, memory: &Memory, memories: &Vec<Memory>) -> (r: Option<LocationPoint>)
    ensures
        r == permitted(*pairing, *memory, memories@),
{
    permitted_in(pairing, memory, &agreements(memories), Ghost(memories@))
}

// ---- captures ----

/// What the place and the file of an item add to its entry.
#[derive(Debug, Clone, Copy, PartialEq, Eq, Structural)]
pub struct MemoryReading {
    /// How far the clocks at its permitted place are ahead of UTC at its entry's date.
    pub zone: Option<i32>,
    /// When the file itself says it was taken.
    pub embedded: Option<Embedded>,
}

impl MemoryReading {
    pub open spec fn wf(self) -> bool {
        &&& is_offset(ahead_of(self.zone))
        &&& self.embedded matches Some(reading) ==> reading.wf()
    }
}

/// When an item was taken: its entry where the pairing is sure and the calendar has the date, else
/// the file's own word, else the day in its name.
pub open spec fn captured(pairing: Pairing, memory: Memory, reading: MemoryReading, day: Day) -> Option<Capture> {
    let entry = match (pairing, memory.date) {
        (Pairing::Exact(_), Some(date)) => calendar_of(date),
        _ => None,
    };
    match (entry, reading.embedded) {
        (Some(utc), _) => Some(carried(utc, reading.zone, TimeSource::Entry)),
        (None, Some(reading)) => Some(embedded_of(reading)),
        (None, None) => from_day_of(day),
    }
}

pub fn capture_of(pairing: &Pairing, memory: &Memory, reading: MemoryReading, day: Day) -> (r: Option<Capture>)
    requires
        reading.wf(),
    ensures
        r == captured(*pairing, *memory, reading, day),
        r matches Some(capture) ==> capture.wf(),
{
    let entry = match pairing {
        Pairing::Exact(_) => match memory.date {
            Some(date) => calendar(date),
            None => None,
        },
        _ => None,
    };
    if let Some(utc) = entry {
        proof {
            lemma_unix_in_calendar(utc);
        }
        return Some(Capture::from_entry(utc, reading.zone));
    }
    match reading.embedded {
        Some(reading) => Some(embedded(reading)),
        None => Capture::from_day(day),
    }
}

// ---- the plan ----

pub open spec fn source_of(media: MemoryMedia) -> SourceView {
    SourceView {
        main: media.main.path@,
        day: media.main.day,
        extension: media.main.extension@,
        overlay: match media.overlay {
            Some(file) => Some(file.path@),
            None => None,
        },
    }
}

/// What one item adds to a plan: nothing where it has no file or no entry, a deferral where its
/// format or its date is not known, else the item and its output.
pub open spec fn memory_step(
    state: PlanState,
    item: MemoryItem,
    reading: MemoryReading,
    memories: Seq<Memory>,
    root: PathView,
) -> PlanState {
    if media_of(item.pairing) is None || item.entry_index >= memories.len() {
        state
    } else {
        let media = media_of(item.pairing).unwrap();
        let memory = memories[item.entry_index as int];
        let extension = media.main.extension@;
        match leg_of(extension) {
            None => with_deferred(state, item.source_id@, DeferralReason::UnknownFormat),
            Some(leg) => match captured(item.pairing, memory, reading, media.main.day) {
                None => with_deferred(state, item.source_id@, DeferralReason::NoCalendarDate),
                Some(capture) => {
                    let dir = month_dir(root, capture.local);
                    let stem = compact_text(capture.local);
                    let format = written_as(leg, extension);
                    PlanState {
                        out: after_path(state.out, item.source_id@, dir, stem, format),
                        items: state.items.push(
                            PlannedView {
                                source_id: item.source_id@,
                                media: source_of(media),
                                leg,
                                capture,
                                location: permitted(item.pairing, memory, memories),
                                attribution: None,
                                output: path_for(state.out, item.source_id@, dir, stem, format),
                                originals: None,
                            },
                        ),
                        ..state
                    }
                },
            },
        }
    }
}

/// A plan over the items in turn.
pub open spec fn memory_plan(
    start: PlanState,
    items: Seq<MemoryItem>,
    readings: Seq<MemoryReading>,
    memories: Seq<Memory>,
    root: PathView,
) -> PlanState
    decreases items.len(),
{
    if items.len() == 0 {
        start
    } else {
        memory_step(
            memory_plan(start, items.drop_last(), readings, memories, root),
            items.last(),
            readings[items.len() - 1],
            memories,
            root,
        )
    }
}

/// What planning the memories of an export comes to, over what it is given.
pub open spec fn plans_memories(
    plan: Plan,
    memories: Seq<Memory>,
    items: Seq<MemoryItem>,
    readings: Seq<MemoryReading>,
    root: PathView,
    recorded: RecordedOutputs,
) -> bool {
    plan_is(
        plan,
        ItemKind::Memory,
        memory_plan(nothing_planned(root, record_views(recorded.recorded@)), items, readings, memories, root),
    )
}

impl Plan {
    /// Plans the memories of an export: one reading for each item, the out root in its one spelling,
    /// and the outputs earlier runs recorded.
    pub fn build(
        memories: &Vec<Memory>,
        items: &Vec<MemoryItem>,
        readings: &Vec<MemoryReading>,
        out_root: Result<FilePath, OutRootError>,
        recorded: &RecordedOutputs,
    ) -> (r: Result<Self, OutRootError>)
        requires
            readings@.len() == items@.len(),
            forall|i: int| 0 <= i < readings@.len() ==> (#[trigger] readings@[i]).wf(),
        ensures
            match out_root {
                Err(error) => r == Err::<Self, OutRootError>(error),
                Ok(root) => r matches Ok(plan) && plans_memories(plan, memories@, items@, readings@, root@, *recorded),
            },
    {
        let out_root = match out_root {
            Ok(out_root) => out_root,
            Err(error) => {
                return Err(error);
            },
        };
        let ghost start = nothing_planned(out_root@, record_views(recorded.recorded@));
        let agreements = agreements(memories);
        let mut planned: Vec<PlannedItem> = Vec::new();
        let mut deferred: Vec<Deferred> = Vec::new();
        let mut outputs = Outputs::new(out_root.clone(), recorded);
        assert(planned_views(planned@) =~= start.items);
        assert(deferred_views(deferred@) =~= start.deferred);
        let mut i: usize = 0;
        while i < items.len()
            invariant
                i <= items@.len(),
                readings@.len() == items@.len(),
                forall|j: int| 0 <= j < readings@.len() ==> (#[trigger] readings@[j]).wf(),
                agreements.of(memories@),
                outputs.wf(),
                start == nothing_planned(out_root@, record_views(recorded.recorded@)),
                ({
                    let state = memory_plan(start, items@.take(i as int), readings@, memories@, out_root@);
                    &&& state.out == outputs.state()
                    &&& state.items == planned_views(planned@)
                    &&& state.deferred == deferred_views(deferred@)
                    &&& state.excluded == start.excluded
                }),
            decreases items.len() - i,
        {
            let item = &items[i];
            let ghost before = memory_plan(start, items@.take(i as int), readings@, memories@, out_root@);
            proof {
                let now = items@.take(i + 1);
                assert(now.drop_last() =~= items@.take(i as int));
                assert(now.last() == *item);
            }
            let reading = readings[i];
            i += 1;
            let media = match item.media() {
                Some(media) => media,
                None => {
                    continue;
                },
            };
            if item.entry_index >= memories.len() {
                continue;
            }
            let memory = &memories[item.entry_index];
            let leg = match Leg::of(&media.main.extension) {
                Some(leg) => leg,
                None => {
                    let left = Deferred { source_id: item.source_id.clone(), reason: DeferralReason::UnknownFormat };
                    proof {
                        lemma_deferred_push(deferred@, left);
                    }
                    deferred.push(left);
                    continue;
                },
            };
            let source = SourceMedia {
                main: media.main.path.clone(),
                day: media.main.day,
                extension: media.main.extension.clone(),
                overlay: match &media.overlay {
                    Some(file) => Some(file.path.clone()),
                    None => None,
                },
            };
            let location = permitted_in(&item.pairing, memory, &agreements, Ghost(memories@));
            let capture = match capture_of(&item.pairing, memory, reading, source.day) {
                Some(capture) => capture,
                None => {
                    let left = Deferred { source_id: item.source_id.clone(), reason: DeferralReason::NoCalendarDate };
                    proof {
                        lemma_deferred_push(deferred@, left);
                    }
                    deferred.push(left);
                    continue;
                },
            };
            let stem = capture.local.compact_text();
            let extension = output_extension(leg, &source);
            let dir = output_dir(&out_root, capture.local);
            let ghost out = outputs.state();
            let output = outputs.path(&item.source_id, &dir, &stem, extension);
            proof {
                lemma_planned_is_path_for(out, outputs.state(), item.source_id@, dir@, stem@, extension@, output@);
            }
            let one = PlannedItem {
                source_id: item.source_id.clone(),
                media: source,
                leg,
                capture,
                location,
                attribution: None,
                output,
                originals: None,
            };
            proof {
                lemma_planned_push(planned@, one);
                assert(one.media@ == source_of(media_of(item.pairing).unwrap()));
            }
            planned.push(one);
        }
        assert(items@.take(i as int) =~= items@);
        let plan = Plan { kind: ItemKind::Memory, items: planned, deferred, excluded: Vec::new() };
        assert(views(plan.excluded@) =~= start.excluded);
        Ok(plan)
    }
}

// ---- laws ----

pub open spec fn ids_distinct(items: Seq<MemoryItem>) -> bool {
    forall|i: int, j: int|
        #![trigger items[i], items[j]]
        0 <= i < j < items.len() ==> items[i].source_id@ != items[j].source_id@
}

/// The outputs of planned items, as paths given out.
pub open spec fn given_in(items: Seq<PlannedView>) -> Seq<Given> {
    items.map_values(|item: PlannedView| Given { id: Some(item.source_id), path: item.output })
}

proof fn lemma_memory_plan_apart(
    items: Seq<MemoryItem>,
    readings: Seq<MemoryReading>,
    memories: Seq<Memory>,
    root: PathView,
    records: Seq<RecordView>,
)
    requires
        ids_distinct(items),
    ensures
        ({
            let state = memory_plan(nothing_planned(root, records), items, readings, memories, root);
            &&& given_apart(state.out, given_in(state.items))
            &&& forall|i: int|
                0 <= i < state.items.len() ==> parent_of((#[trigger] state.items[i]).output) == Some(
                    month_dir(root, state.items[i].capture.local),
                )
            &&& forall|i: int|
                0 <= i < state.items.len() ==> exists|j: int|
                    0 <= j < items.len() && (#[trigger] state.items[i]).source_id == #[trigger] items[j].source_id@
        }),
    decreases items.len(),
{
    let start = nothing_planned(root, records);
    let state = memory_plan(start, items, readings, memories, root);
    if items.len() == 0 {
        lemma_nothing_given(root, records);
        assert(given_in(start.items) =~= Seq::empty());
    } else {
        let less = items.drop_last();
        assert(ids_distinct(less)) by {
            assert forall|i: int, j: int| #![trigger less[i], less[j]] 0 <= i < j < less.len() implies less[i].source_id@
                != less[j].source_id@ by {
                assert(items[i] == less[i] && items[j] == less[j]);
            }
        }
        lemma_memory_plan_apart(less, readings, memories, root, records);
        let before = memory_plan(start, less, readings, memories, root);
        let item = items.last();
        let given = given_in(before.items);
        assert forall|i: int| 0 <= i < before.items.len() implies exists|j: int|
            0 <= j < items.len() && (#[trigger] before.items[i]).source_id == #[trigger] items[j].source_id@ by {
            let j = choose|j: int| 0 <= j < less.len() && before.items[i].source_id == #[trigger] less[j].source_id@;
            assert(items[j] == less[j]);
        }
        if state.items != before.items {
            let media = media_of(item.pairing).unwrap();
            let memory = memories[item.entry_index as int];
            let capture = captured(item.pairing, memory, readings[items.len() - 1], media.main.day).unwrap();
            let leg = leg_of(media.main.extension@).unwrap();
            let dir = month_dir(root, capture.local);
            let stem = compact_text(capture.local);
            let format = written_as(leg, media.main.extension@);
            assert forall|i: int| 0 <= i < given.len() implies (#[trigger] given[i]).id != Some(item.source_id@) by {
                let j = choose|j: int| 0 <= j < less.len() && before.items[i].source_id == #[trigger] less[j].source_id@;
                assert(items[j] == less[j]);
                assert(items[j].source_id@ != items[items.len() - 1].source_id@);
            }
            lemma_given_output(before.out, given, item.source_id@, dir, stem, format);
            assert(given_in(state.items) =~= given.push(
                Given { id: Some(item.source_id@), path: path_for(before.out, item.source_id@, dir, stem, format) },
            ));
            assert forall|i: int| 0 <= i < state.items.len() implies parent_of((#[trigger] state.items[i]).output) == Some(
                month_dir(root, state.items[i].capture.local),
            ) by {
                if i < before.items.len() {
                    assert(state.items[i] == before.items[i]);
                }
            }
            assert forall|i: int| 0 <= i < state.items.len() implies exists|j: int|
                0 <= j < items.len() && (#[trigger] state.items[i]).source_id == #[trigger] items[j].source_id@ by {
                if i < before.items.len() {
                    assert(state.items[i] == before.items[i]);
                } else {
                    assert(items[items.len() - 1].source_id@ == state.items[i].source_id);
                }
            }
        }
    }
}

/// Whatever earlier runs recorded, no two memories are written to one file, on a filesystem that
/// folds case too, and each is filed under the year and month it was taken.
pub proof fn law_memories_land_apart(
    items: Seq<MemoryItem>,
    readings: Seq<MemoryReading>,
    memories: Seq<Memory>,
    root: PathView,
    records: Seq<RecordView>,
)
    requires
        ids_distinct(items),
    ensures
        ({
            let state = memory_plan(nothing_planned(root, records), items, readings, memories, root);
            &&& outputs_differ(state.items)
            &&& forall|i: int|
                0 <= i < state.items.len() ==> parent_of((#[trigger] state.items[i]).output) == Some(
                    month_dir(root, state.items[i].capture.local),
                )
        }),
{
    lemma_memory_plan_apart(items, readings, memories, root, records);
    let state = memory_plan(nothing_planned(root, records), items, readings, memories, root);
    let given = given_in(state.items);
    assert forall|i: int, j: int| #![trigger state.items[i], state.items[j]] 0 <= i < j < state.items.len() implies path_key(
        state.items[i].output,
    ) != path_key(state.items[j].output) by {
        assert(given[i].path == state.items[i].output);
        assert(given[j].path == state.items[j].output);
    }
}

/// A plan goes on from what it had come to at one of its items.
proof fn lemma_plan_goes_on(
    start: PlanState,
    items: Seq<MemoryItem>,
    readings: Seq<MemoryReading>,
    memories: Seq<Memory>,
    root: PathView,
    k: int,
)
    requires
        0 <= k <= items.len(),
    ensures
        goes_on(memory_plan(start, items.take(k), readings, memories, root), memory_plan(start, items, readings, memories, root)),
    decreases items.len(),
{
    if k == items.len() {
        assert(items.take(k) =~= items);
    } else {
        let less = items.drop_last();
        assert(less.take(k) =~= items.take(k));
        lemma_plan_goes_on(start, less, readings, memories, root, k);
        assert(goes_on(memory_plan(start, less, readings, memories, root), memory_plan(start, items, readings, memories, root)));
    }
}

/// What one item brought to a plan stays in it.
proof fn lemma_step_stays(
    start: PlanState,
    items: Seq<MemoryItem>,
    readings: Seq<MemoryReading>,
    memories: Seq<Memory>,
    root: PathView,
    k: int,
)
    requires
        0 <= k < items.len(),
    ensures
        ({
            let before = memory_plan(start, items.take(k), readings, memories, root);
            &&& goes_on(start, before)
            &&& goes_on(
                memory_step(before, items[k], readings[k], memories, root),
                memory_plan(start, items, readings, memories, root),
            )
        }),
{
    let taken = items.take(k + 1);
    assert(taken.drop_last() =~= items.take(k));
    assert(taken.last() == items[k]);
    lemma_plan_goes_on(start, items, readings, memories, root, k + 1);
    lemma_plan_goes_on(start, items.take(k), readings, memories, root, 0);
    assert(items.take(k).take(0) =~= Seq::empty());
}

/// Which item a planned one was made from.
proof fn lemma_made_from(
    start: PlanState,
    items: Seq<MemoryItem>,
    readings: Seq<MemoryReading>,
    memories: Seq<Memory>,
    root: PathView,
    p: int,
) -> (k: int)
    requires
        start.items.len() <= p < memory_plan(start, items, readings, memories, root).items.len(),
    ensures
        0 <= k < items.len(),
        ({
            let before = memory_plan(start, items.take(k), readings, memories, root);
            let after = memory_step(before, items[k], readings[k], memories, root);
            &&& after.items.len() == before.items.len() + 1
            &&& p == before.items.len()
            &&& after.items[p] == memory_plan(start, items, readings, memories, root).items[p]
        }),
    decreases items.len(),
{
    let less = items.drop_last();
    let middle = memory_plan(start, less, readings, memories, root);
    if p < middle.items.len() {
        let k = lemma_made_from(start, less, readings, memories, root, p);
        assert(less.take(k) =~= items.take(k));
        k
    } else {
        assert(items.take(items.len() - 1) =~= less);
        items.len() - 1
    }
}

/// The planned item and the item it was made from are one step of the plan.
proof fn lemma_of_one_id(
    plan: Plan,
    memories: Seq<Memory>,
    items: Seq<MemoryItem>,
    readings: Seq<MemoryReading>,
    root: PathView,
    recorded: RecordedOutputs,
    p: int,
    k: int,
) -> (before: PlanState)
    requires
        plans_memories(plan, memories, items, readings, root, recorded),
        ids_distinct(items),
        0 <= p < plan.items@.len(),
        0 <= k < items.len(),
        plan.items@[p].source_id@ == items[k].source_id@,
    ensures
        ({
            let after = memory_step(before, items[k], readings[k], memories, root);
            &&& after.items.len() == before.items.len() + 1
            &&& after.items.last() == plan.items@[p]@
            &&& before.out.assigned == nothing_planned(root, record_views(recorded.recorded@)).out.assigned
        }),
{
    let start = nothing_planned(root, record_views(recorded.recorded@));
    let end = memory_plan(start, items, readings, memories, root);
    assert(planned_views(plan.items@)[p] == plan.items@[p]@);
    let j = lemma_made_from(start, items, readings, memories, root, p);
    lemma_step_stays(start, items, readings, memories, root, j);
    let before = memory_plan(start, items.take(j), readings, memories, root);
    let after = memory_step(before, items[j], readings[j], memories, root);
    assert(after.items.last() == end.items[p]);
    if j < k {
        assert(items[j].source_id@ != items[k].source_id@);
    } else if k < j {
        assert(items[k].source_id@ != items[j].source_id@);
    }
    before
}

/// A memory is placed where it was taken: a planned item whose file is its own for sure carries the
/// place its entry names, or none where it names none, and one whose file is told only by its bucket
/// carries a place exactly where every entry of the bucket names that one place.
pub proof fn law_a_memory_is_placed_where_it_was_taken(
    plan: Plan,
    memories: Seq<Memory>,
    items: Seq<MemoryItem>,
    readings: Seq<MemoryReading>,
    root: PathView,
    recorded: RecordedOutputs,
    p: int,
    k: int,
)
    requires
        plans_memories(plan, memories, items, readings, root, recorded),
        ids_distinct(items),
        0 <= p < plan.items@.len(),
        0 <= k < items.len(),
        plan.items@[p].source_id@ == items[k].source_id@,
    ensures
        items[k].entry_index < memories.len(),
        ({
            let entry = memories[items[k].entry_index as int];
            &&& items[k].pairing is Exact ==> plan.items@[p].location == entry.location
            &&& items[k].pairing is Ambiguous ==> match entry.bucket {
                None => plan.items@[p].location is None,
                Some(bucket) => {
                    &&& forall|location: LocationPoint| #[trigger]
                        agrees_on(memories, bucket.0@, location) ==> plan.items@[p].location == Some(location)
                    &&& plan.items@[p].location matches Some(location) ==> agrees_on(memories, bucket.0@, location)
                },
            }
        }),
{
    let before = lemma_of_one_id(plan, memories, items, readings, root, recorded, p, k);
    let entry = memories[items[k].entry_index as int];
    match entry.bucket {
        Some(bucket) => {
            assert forall|location: LocationPoint| agreement_of(memories, bucket.0@) == Some(Agreement::On(location)) <==> #[trigger] agrees_on(
                memories,
                bucket.0@,
                location,
            ) by {
                law_an_agreed_place_is_every_entrys(memories, bucket.0@, location);
            }
            match agreement_of(memories, bucket.0@) {
                Some(Agreement::On(location)) => {
                    assert(agrees_on(memories, bucket.0@, location));
                },
                _ => {},
            }
        },
        None => {},
    }
}

/// Whether the entry of a memory dates it: its file is its own for sure, and the calendar has the
/// date the entry names.
pub open spec fn is_dated_by_entry(item: MemoryItem, entry: Memory) -> bool {
    item.pairing is Exact && (entry.date matches Some(at) && calendar_has(at))
}

/// A memory is dated by its entry where that is its own for sure and the calendar has its date: that
/// instant on the clock of its place, in UTC where the place is not known. Else the file's own word
/// dates it, and only where the file says nothing the day in its name.
pub proof fn law_a_memory_is_dated_by_its_entry(pairing: Pairing, entry: Memory, reading: MemoryReading, day: Day)
    requires
        reading.wf(),
    ensures
        ({
            let captured = captured(pairing, entry, reading, day);
            match (pairing, entry.date) {
                (Pairing::Exact(_), Some(at)) if calendar_has(at) => {
                    &&& captured is Some
                    &&& captured.unwrap().source == TimeSource::Entry
                    &&& match reading.zone {
                        None => shows(captured.unwrap().local, at) && captured.unwrap().offset == Some(0i32),
                        Some(ahead) => unix_seconds(captured.unwrap().local) == unix_seconds(reading_of(at)) + ahead
                            && captured.unwrap().offset == Some(ahead),
                    }
                },
                _ => match reading.embedded {
                    Some(own) => captured is Some && dated_by_file(captured.unwrap(), own),
                    None => captured is Some == calendar_has_day(day) && (captured is Some ==> dated_by_day(captured.unwrap(), day)),
                },
            }
        }),
{
    match reading.embedded {
        Some(own) => law_a_file_dates_itself(own),
        None => {},
    }
    law_a_day_dates_by_its_midnight(day);
    match (pairing, entry.date) {
        (Pairing::Exact(_), Some(at)) => {
            law_a_stated_instant_is_read_as_spelled(at);
            if calendar_has(at) {
                let utc = reading_of(at);
                assert(utc.wf());
                lemma_unix_in_calendar(utc);
                let local = lemma_reading_exists(unix_seconds(utc) + ahead_of(reading.zone));
                assert(local.wf() && unix_seconds(local) == unix_seconds(utc) + ahead_of(reading.zone));
                lemma_kept_in_utc(utc);
            }
        },
        _ => {},
    }
}

/// A plan dates each memory as [`law_a_memory_is_dated_by_its_entry`] says, and takes its files for
/// what they are: nobody is credited, and no copies are kept.
pub proof fn law_a_plan_dates_by_the_entry(
    plan: Plan,
    memories: Seq<Memory>,
    items: Seq<MemoryItem>,
    readings: Seq<MemoryReading>,
    root: PathView,
    recorded: RecordedOutputs,
    p: int,
    k: int,
)
    requires
        plans_memories(plan, memories, items, readings, root, recorded),
        ids_distinct(items),
        readings[k].wf(),
        0 <= p < plan.items@.len(),
        0 <= k < items.len(),
        plan.items@[p].source_id@ == items[k].source_id@,
    ensures
        media_of(items[k].pairing) is Some,
        ({
            let (planned, media) = (plan.items@[p]@, media_of(items[k].pairing).unwrap());
            let (capture, entry, reading) = (planned.capture, memories[items[k].entry_index as int], readings[k]);
            &&& is_dated_by_entry(items[k], entry) ==> capture.source == TimeSource::Entry && match reading.zone {
                None => shows(capture.local, entry.date.unwrap()) && capture.offset == Some(0i32),
                Some(ahead) => unix_seconds(capture.local) == unix_seconds(reading_of(entry.date.unwrap())) + ahead
                    && capture.offset == Some(ahead),
            }
            &&& !is_dated_by_entry(items[k], entry) ==> match reading.embedded {
                Some(own) => dated_by_file(capture, own),
                None => dated_by_day(capture, media.main.day),
            }
            &&& planned.media.main == media.main.path@
            &&& planned.media.day == media.main.day
            &&& planned.media.extension == media.main.extension@
            &&& planned.media.overlay == (match media.overlay {
                Some(layer) => Some(layer.path@),
                None => None,
            })
            &&& planned.leg == Leg::Video <==> fold(media.main.extension@) == "mp4"@
            &&& planned.attribution is None
            &&& planned.originals is None
        }),
{
    let before = lemma_of_one_id(plan, memories, items, readings, root, recorded, p, k);
    let media = media_of(items[k].pairing).unwrap();
    law_a_memory_is_dated_by_its_entry(items[k].pairing, memories[items[k].entry_index as int], readings[k], media.main.day);
    law_a_file_keeps_its_kind(media.main.extension@);
}

/// The path one item of a plan is written to.
proof fn lemma_step_output(before: PlanState, item: MemoryItem, reading: MemoryReading, memories: Seq<Memory>, root: PathView)
    ensures
        ({
            let after = memory_step(before, item, reading, memories, root);
            let one = after.items.last();
            after.items.len() > before.items.len() ==> one.source_id == item.source_id@ && one.output == path_for(
                before.out,
                one.source_id,
                month_dir(root, one.capture.local),
                compact_text(one.capture.local),
                format_for(one.media.extension),
            )
        }),
{
    match media_of(item.pairing) {
        Some(media) => law_a_file_keeps_its_kind(media.main.extension@),
        None => {},
    }
}

/// A memory lands under the year and month it was taken; and where no earlier run recorded it, under
/// the time it was taken and the extension of its format, counted up where that is taken.
pub proof fn law_a_memory_lands_under_its_month(
    plan: Plan,
    memories: Seq<Memory>,
    items: Seq<MemoryItem>,
    readings: Seq<MemoryReading>,
    root: PathView,
    recorded: RecordedOutputs,
    p: int,
    k: int,
)
    requires
        plans_memories(plan, memories, items, readings, root, recorded),
        ids_distinct(items),
        0 <= p < plan.items@.len(),
        0 <= k < items.len(),
        plan.items@[p].source_id@ == items[k].source_id@,
    ensures
        ({
            let planned = plan.items@[p]@;
            let local = planned.capture.local;
            &&& parent_of(planned.output) == Some(
                joined(joined(root, year_text(local.year as int)), two_digits(local.month as int)),
            )
            &&& (forall|i: int|
                0 <= i < recorded.recorded@.len() ==> (#[trigger] recorded.recorded@[i]).source_id@ != planned.source_id)
                ==> exists|ordinal: nat|
                planned.output.parts.last() == #[trigger] output_name_of(
                    compact_text(local),
                    format_for(planned.media.extension),
                    ordinal,
                )
        }),
{
    let before = lemma_of_one_id(plan, memories, items, readings, root, recorded, p, k);
    let planned = plan.items@[p]@;
    let dir = month_dir(root, planned.capture.local);
    let (stem, format) = (compact_text(planned.capture.local), format_for(planned.media.extension));
    lemma_step_output(before, items[k], readings[k], memories, root);
    lemma_path_below(before.out, planned.source_id, dir, stem, format);
    let records = record_views(recorded.recorded@);
    if forall|i: int| 0 <= i < recorded.recorded@.len() ==> (#[trigger] recorded.recorded@[i]).source_id@ != planned.source_id {
        assert forall|i: int| 0 <= i < records.len() implies (#[trigger] records[i]).source_id != planned.source_id by {
            assert(records[i] == recorded.recorded@[i]@);
        }
        lemma_unrecorded(root, records, planned.source_id);
        let ordinal = choose|ordinal: nat| planned.output == joined(dir, #[trigger] output_name_of(stem, format, ordinal));
        assert(planned.output.parts.last() == output_name_of(stem, format, ordinal));
    }
}

/// Which memories a plan writes: one without a file or without an entry is passed over; of the rest,
/// what is in a format that is not taken is deferred for that, what nothing dates is deferred for
/// that, and all others are planned.
pub proof fn law_every_memory_with_a_file_is_planned_or_deferred(
    plan: Plan,
    memories: Seq<Memory>,
    items: Seq<MemoryItem>,
    readings: Seq<MemoryReading>,
    root: PathView,
    recorded: RecordedOutputs,
    k: int,
)
    requires
        plans_memories(plan, memories, items, readings, root, recorded),
        readings[k].wf(),
        0 <= k < items.len(),
        !(items[k].pairing is Missing),
        items[k].entry_index < memories.len(),
    ensures
        ({
            let (id, media) = (items[k].source_id@, media_of(items[k].pairing).unwrap());
            let dated = is_dated_by_entry(items[k], memories[items[k].entry_index as int]) || readings[k].embedded is Some
                || calendar_has_day(media.main.day);
            if !is_taken(media.main.extension@) {
                exists|d: int|
                    0 <= d < plan.deferred@.len() && (#[trigger] plan.deferred@[d]).source_id@ == id && plan.deferred@[d].reason
                        == DeferralReason::UnknownFormat
            } else if !dated {
                exists|d: int|
                    0 <= d < plan.deferred@.len() && (#[trigger] plan.deferred@[d]).source_id@ == id && plan.deferred@[d].reason
                        == DeferralReason::NoCalendarDate
            } else {
                exists|p: int| 0 <= p < plan.items@.len() && (#[trigger] plan.items@[p]).source_id@ == id
            }
        }),
        plan.excluded@.len() == 0,
{
    let start = nothing_planned(root, record_views(recorded.recorded@));
    let end = memory_plan(start, items, readings, memories, root);
    let before = memory_plan(start, items.take(k), readings, memories, root);
    let after = memory_step(before, items[k], readings[k], memories, root);
    let media = media_of(items[k].pairing).unwrap();
    let entry = memories[items[k].entry_index as int];
    lemma_step_stays(start, items, readings, memories, root, k);
    law_a_memory_is_dated_by_its_entry(items[k].pairing, entry, readings[k], media.main.day);
    law_a_file_keeps_its_kind(media.main.extension@);
    lemma_nothing_excluded(start, items, readings, memories, root);
    assert(views(plan.excluded@).len() == plan.excluded@.len());
    if after.items.len() > before.items.len() {
        let p = before.items.len() as int;
        assert(end.items[p] == after.items[p]);
        assert(planned_views(plan.items@)[p] == plan.items@[p]@);
    } else {
        let d = before.deferred.len() as int;
        assert(end.deferred[d] == after.deferred[d]);
        assert(deferred_views(plan.deferred@)[d] == plan.deferred@[d]@);
    }
}

proof fn lemma_nothing_excluded(
    start: PlanState,
    items: Seq<MemoryItem>,
    readings: Seq<MemoryReading>,
    memories: Seq<Memory>,
    root: PathView,
)
    ensures
        memory_plan(start, items, readings, memories, root).excluded == start.excluded,
    decreases items.len(),
{
    if items.len() > 0 {
        lemma_nothing_excluded(start, items.drop_last(), readings, memories, root);
    }
}

} // verus!
