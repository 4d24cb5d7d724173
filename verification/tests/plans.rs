use exportsnap::calendar::LocalTime;
use exportsnap::export::fix_run::{fix_video, keep_originals, scratch_beside, system_time, Done, FixError, FixRun, Notice, SinceEpoch};
use exportsnap::export::history_run::{
    check_formats, claims_of, load_threads, outcome, plan, prepare, report, select, targets, ExportGroup, ExportHistories, Formats,
    HistoryFormat, HtmlLinks, PlanError, RunError, RunOutcome,
};
use exportsnap::export::local_fix::{Embedded, Leg, Plan, TimeSource, TranscodeSkip, VideoOptions};
use exportsnap::export::manifest::{ItemKind, ItemStatus, ManifestError, NewItem, PathProblem};
use exportsnap::export::memory_plan::{permitted_location, Bucket, Memory, MemoryFile, MemoryItem, MemoryMedia, MemoryReading, Pairing};
use exportsnap::export::model::{ChatHistory, ChatMessage, Conversation, ConversationId, Day, LocationPoint, MediaKind, Timestamp};
use exportsnap::export::out_root::{canonical_out_root, OutRootError};
use exportsnap::export::outputs::{Originals, RecordedOutput, RecordedOutputs};
use exportsnap::export::state::{Manifest, Measured};
use exportsnap::paths::FilePath;

fn place(latitude: f64, longitude: f64) -> LocationPoint {
    LocationPoint { latitude: latitude.to_bits(), longitude: longitude.to_bits() }
}

fn file(name: &str) -> MemoryFile {
    MemoryFile {
        path: FilePath::new("/x").join(name),
        day: Day::parse(&name[..10]).unwrap(),
        extension: name.rsplit('.').next().unwrap().to_owned(),
    }
}

fn media(name: &str) -> MemoryMedia {
    MemoryMedia { main: file(name), overlay: None }
}

fn item(id: &str, entry_index: usize, pairing: Pairing) -> MemoryItem {
    MemoryItem { source_id: id.to_owned(), entry_index, pairing }
}

const NO_READING: MemoryReading = MemoryReading { zone: None, embedded: None };

#[test]
fn memories_are_dated_by_entry_then_file_then_name() {
    let memory = |date: Option<&str>| Memory { date: date.and_then(Timestamp::parse), location: None, bucket: None };
    let memories = vec![memory(Some("2021-01-15 10:00:00 UTC")), memory(None), memory(None), memory(Some("2021-02-30 10:00:00 UTC"))];
    let items = vec![
        item("a", 0, Pairing::Exact(media("2021-01-15_a-main.jpg"))),
        item("b", 1, Pairing::Exact(media("2021-01-15_b-main.jpg"))),
        item("c", 2, Pairing::Exact(media("2021-01-15_c-main.heic"))),
        item("d", 3, Pairing::Exact(media("2021-02-30_d-main.mp4"))),
        item("e", 0, Pairing::Missing),
        item("f", 0, Pairing::Ambiguous(media("2021-01-15_f-main.mp4"))),
    ];
    let taken = LocalTime { year: 2020, month: 12, day: 31, hour: 23, minute: 0, second: 0 };
    let readings = vec![
        MemoryReading { zone: Some(7200), embedded: None },
        MemoryReading { zone: None, embedded: Some(Embedded::Wall { local: taken, offset: None }) },
        NO_READING,
        NO_READING,
        NO_READING,
        NO_READING,
    ];
    let planned = Plan::build(&memories, &items, &readings, Ok(FilePath::new("/out")), &RecordedOutputs::empty()).unwrap();
    let outputs: Vec<String> = planned.items.iter().map(|item| item.output.text()).collect();
    assert_eq!(
        outputs,
        vec!["/out/2021/01/20210115_120000.jpg", "/out/2020/12/20201231_230000.jpg", "/out/2021/01/20210115_000000.mp4"]
    );
    let sources: Vec<TimeSource> = planned.items.iter().map(|item| item.capture.source()).collect();
    assert_eq!(sources, vec![TimeSource::Entry, TimeSource::Embedded, TimeSource::Filename]);
    let deferred: Vec<&str> = planned.deferred.iter().map(|deferred| deferred.source_id.as_str()).collect();
    assert_eq!(deferred, vec!["c", "d"]);
    for deferred in &planned.deferred {
        assert!(!deferred.reason.message().is_empty());
    }
}

#[test]
fn a_shared_bucket_gives_a_place_only_where_its_entries_agree() {
    let memory = |bucket: &str, location| Memory { date: None, location, bucket: Some(Bucket(bucket.to_owned())) };
    let here = place(1.5, 2.5);
    let memories = vec![memory("m", Some(here)), memory("m", Some(here)), memory("n", Some(here)), memory("n", Some(place(3.0, 4.0)))];
    let shared = Pairing::Ambiguous(media("2021-01-15_a-main.jpg"));
    assert_eq!(permitted_location(&shared, &memories[0], &memories), Some(here));
    assert_eq!(permitted_location(&shared, &memories[2], &memories), None);
    let own = Pairing::Exact(media("2021-01-15_a-main.jpg"));
    assert_eq!(permitted_location(&own, &memories[3], &memories), Some(place(3.0, 4.0)));
}

fn single_plan(overlay: Option<&str>, recorded: &RecordedOutputs) -> Plan {
    let memories = vec![Memory { date: Timestamp::parse("2021-01-15 10:00:00 UTC"), location: None, bucket: None }];
    let main = MemoryMedia { main: file("2021-01-15_a-main.mp4"), overlay: overlay.map(file) };
    let items = vec![item("a", 0, Pairing::Exact(main)), item("b", 0, Pairing::Exact(media("2021-01-15_b-main.jpg")))];
    Plan::build(&memories, &items, &vec![NO_READING, NO_READING], Ok(FilePath::new("/out")), recorded).unwrap()
}

#[test]
fn a_plan_is_refused_where_its_root_cannot_be_resolved() {
    let unresolved = || OutRootError::Absolute { root: "o".to_owned() };
    let refused = Plan::build(&Vec::new(), &Vec::new(), &Vec::new(), Err(unresolved()), &RecordedOutputs::empty());
    assert_eq!(refused.err(), Some(unresolved()));
}

#[test]
fn a_recorded_output_is_kept_over_a_fresh_name() {
    let kept = RecordedOutputs {
        recorded: vec![RecordedOutput { source_id: "b".to_owned(), output: FilePath::new("/out/2021/01/20210115_100000_7.jpg") }],
    };
    assert_eq!(single_plan(None, &kept).items[1].output.text(), "/out/2021/01/20210115_100000_7.jpg");
}

#[test]
fn a_run_takes_up_what_is_owed_and_settles_each_item() {
    let mut planned = single_plan(None, &RecordedOutputs::empty());
    planned.excluded.push("a".to_owned());
    let mut manifest = Manifest::from_rows(Vec::new(), String::new()).unwrap();
    let enroll = |id: &str| NewItem { kind: ItemKind::Memory, source_id: id.to_owned(), url: None };
    let unknown = ManifestError::UnknownItem { kind: ItemKind::Memory, source_id: "a".to_owned() };
    assert_eq!(FixRun::park(&planned, &mut manifest, 1), Err(unknown), "nothing enrolled it");
    manifest.enroll(&vec![enroll("a"), enroll("b")], 1);
    assert_eq!(FixRun::park(&planned, &mut manifest, 1), Ok(()));
    let parked: Vec<ItemStatus> = manifest.items(ItemKind::Memory).ok().unwrap().iter().map(|item| item.status).collect();
    assert_eq!(parked, vec![ItemStatus::Excluded, ItemStatus::Pending]);
    let mut run = FixRun::start(&planned, &mut manifest, &Vec::new(), 3, 2).ok().unwrap();
    assert_eq!(run.step(&planned), Some(1), "the excluded item is passed over");
    let failed = FixError::Read { path: "/x".to_owned(), source: "gone".to_owned() };
    run.settle(&planned, Err(failed), &mut manifest, 3).unwrap();
    assert_eq!(run.step(&planned), None);
    let told = run.into_report();
    assert_eq!((told.fixed, told.skipped, told.failed.len(), told.excluded), (0, 1, 1, 1));
    assert_eq!(told.failed[0].reason, "could not read /x: gone");

    assert_eq!(FixRun::park(&planned, &mut manifest, 4), Ok(()), "parking again changes nothing");
    let mut again = FixRun::start(&planned, &mut manifest, &Vec::new(), 3, 4).ok().unwrap();
    assert_eq!(again.step(&planned), Some(1));
    let (checksum, bytes) = exportsnap::export::digest::Digester::new().finish();
    let done = Done { notices: vec![Notice::NotStamped], measured: Measured::Hashed { checksum, bytes } };
    again.settle(&planned, Ok(done), &mut manifest, 5).unwrap();
    let told = again.into_report();
    assert_eq!((told.fixed, told.notices.len()), (1, 1));
    assert!(manifest.pending(ItemKind::Memory, 3).ok().unwrap().is_empty());
}

#[test]
fn a_video_says_what_was_not_done_to_it() {
    let planned = single_plan(Some("2021-01-15_a-overlay.png"), &RecordedOutputs::empty());
    let off = VideoOptions { transcode: false, ffmpeg: None };
    let notices = fix_video(&planned.items[0], &off, None);
    assert_eq!(planned.items[0].leg, Leg::Video);
    assert!(notices.contains(&Notice::NotTranscoded(TranscodeSkip::OptedOut)), "{notices:?}");
    assert!(notices.contains(&Notice::OverlayNotBurned), "{notices:?}");
    for notice in &notices {
        assert!(!notice.message().is_empty());
    }
    let scratch = scratch_beside(&FilePath::new("/out/2021/01/a.mp4")).ok().unwrap();
    assert_eq!(scratch.text(), "/out/2021/01/.exportsnap-transcoding-a.mp4");
}

#[test]
fn originals_are_copied_beside_what_they_were_made_into() {
    let mut planned = single_plan(None, &RecordedOutputs::empty());
    assert!(keep_originals(&planned.items[0]).is_empty());
    planned.items[0].originals = Some(Originals {
        overlay: FilePath::new("/x/o.png"),
        main_copy: FilePath::new("/out/m.mp4"),
        overlay_copy: FilePath::new("/out/o.png"),
    });
    let copies = keep_originals(&planned.items[0]);
    assert_eq!(copies.len(), 2);
    assert_eq!(copies[0].to.text(), "/out/m.mp4");
    assert_eq!(system_time(-5), SinceEpoch::Before(5));
    assert_eq!(system_time(5), SinceEpoch::After(5));
}

#[test]
fn an_out_root_is_resolved_as_far_as_it_is_there() {
    let there = |path: &FilePath| path.text() == "/link" || path.text() == "/";
    let resolve = |path: &FilePath| {
        if path.text() == "/link" { Ok(FilePath::new("/real")) } else { Err("odd".to_owned()) }
    };
    let resolved = canonical_out_root("link/a/b", Some(FilePath::new("/link/a/b")), there, resolve);
    assert_eq!(resolved, Ok(FilePath::new("/real/a/b")));
    let refused = canonical_out_root("other", Some(FilePath::new("/other")), there, resolve);
    assert_eq!(refused, Err(OutRootError::Canonicalize { root: "other".to_owned(), source: "odd".to_owned() }));
    let none = canonical_out_root("odd", None, there, resolve).unwrap_err();
    assert_eq!(none, OutRootError::Absolute { root: "odd".to_owned() });
    assert!(none.message().contains("the out root odd"));
}

fn chat(keys: &[&str]) -> ChatHistory {
    let record = || ChatMessage {
        from: None,
        media_type: MediaKind::Text,
        created: None,
        created_epoch_ms: None,
        content: None,
        conversation_title: None,
        is_sender: false,
        is_saved: false,
        media_ids: None,
    };
    ChatHistory {
        conversations: keys.iter().map(|key| Conversation { id: ConversationId::new(key), records: vec![record()] }).collect(),
    }
}

fn group(id: &str, dirs: Vec<Option<FilePath>>) -> ExportGroup {
    ExportGroup { id: id.to_owned(), json_dirs: dirs }
}

#[test]
fn threads_are_loaded_from_the_one_export_there_is() {
    let source = FilePath::new("/x");
    let is_dir = |path: &FilePath| path.text() == "/x/json";
    let load = |_: &FilePath| Ok(ExportHistories { chat: Some(chat(&["b", "a"])), snap: None });
    let loaded = load_threads(&source, "/x", Ok(Vec::new()), is_dir, load).ok().unwrap();
    assert!(loaded.export_id.is_none(), "a bare json directory has no id");
    assert_eq!(loaded.merged.threads.len(), 2);
    let one = Ok(vec![group("mydata-1", vec![Some(FilePath::new("/x/p/json"))])]);
    let loaded = load_threads(&source, "/x", one, |_: &FilePath| false, load).ok().unwrap();
    assert_eq!(loaded.export_id.map(|id| id.as_str().to_owned()), Some("mydata-1".to_owned()));
    let error = |groups, load: Result<ExportHistories, String>| {
        let load = RefLoad(std::cell::RefCell::new(Some(load)));
        load_threads(&source, "/x/.", groups, |_: &FilePath| false, |_: &FilePath| load.take()).err().unwrap()
    };
    let none = || Ok(ExportHistories { chat: None, snap: None });
    assert_eq!(error(Err("zip".to_owned()), none()), RunError::Discover("zip".to_owned()));
    let two = Ok(vec![group("a", Vec::new()), group("b", Vec::new())]);
    assert_eq!(error(two, none()), RunError::SeveralExports { source: "/x/.".to_owned(), count: 2 });
    assert_eq!(error(Ok(Vec::new()), none()), RunError::NoJsonDir("/x/.".to_owned()));
    let one = || Ok(vec![group("mydata-1", vec![Some(FilePath::new("/x/p/json"))])]);
    assert_eq!(error(one(), none()), RunError::NoHistory("/x/.".to_owned()));
    assert_eq!(error(one(), Err("bad".to_owned())), RunError::Json("bad".to_owned()));
    let odd = Ok(vec![group("../up", vec![Some(FilePath::new("/x/p/json"))])]);
    let held = Ok(ExportHistories { chat: Some(chat(&["a"])), snap: None });
    assert_eq!(error(odd, held), RunError::InvalidExportId("/x/.".to_owned()));
}

struct RefLoad(std::cell::RefCell<Option<Result<ExportHistories, String>>>);

impl RefLoad {
    fn take(&self) -> Result<ExportHistories, String> {
        self.0.borrow_mut().take().unwrap()
    }
}

#[test]
fn documents_are_planned_claimed_and_reported() {
    let formats = Formats { html: true, json: false, text: false, csv: true };
    assert_eq!(check_formats(formats), Ok(()));
    let none = Formats { html: false, json: false, text: false, csv: false };
    assert_eq!(check_formats(none), Err(RunError::NoFormats));
    let load = |_: &FilePath| Ok(ExportHistories { chat: Some(chat(&["b", "a", "c"])), snap: None });
    let loaded = || load_threads(&FilePath::new("/x"), "/x", Ok(Vec::new()), |_: &FilePath| true, load).ok().unwrap();
    assert_eq!(select(loaded().merged, &Vec::new()).err(), Some(RunError::NoSelection));
    let wanted = vec![ConversationId::new("c"), ConversationId::new("a")];
    let threads = select(loaded().merged, &wanted).ok().unwrap();
    assert_eq!(threads.len(), 2);
    let manifest = Manifest::from_rows(Vec::new(), "/m".to_owned()).unwrap();
    let prepared = prepare(threads, &Vec::new(), Ok(FilePath::new("/out")), Some(manifest), formats, 5).ok().unwrap();
    let paths: Vec<String> = prepared.plan.entries.iter().map(|entry| entry.documents.html.text()).collect();
    assert_eq!(paths, vec!["/out/chat/a/history.html", "/out/chat/c/history.html"]);
    let claims = claims_of(&prepared.plan);
    assert_eq!(claims[1].directory.shown, "/out/chat/c");
    assert_eq!(prepared.manifest.unwrap().claims().unwrap().len(), 2);
    let written: Vec<HistoryFormat> = targets(&prepared.plan.entries[0], formats).iter().map(|target| target.format).collect();
    assert_eq!(written, vec![HistoryFormat::Html, HistoryFormat::Csv]);
    let told = report(&prepared.plan, formats, Some(HtmlLinks::Manifest), true);
    assert_eq!((told.conversations, told.documents, told.html_written), (2, 4, true));
    assert_eq!(outcome(Ok(told)), RunOutcome::Completed(told));
    let refused = plan(&Vec::new(), &Vec::new(), Err(OutRootError::Absolute { root: "o".to_owned() }), None);
    assert_eq!(refused.err(), Some(PlanError::OutRoot(OutRootError::Absolute { root: "o".to_owned() })));
}

#[test]
fn an_out_root_that_is_relative_or_not_text_claims_nothing() {
    let load = |_: &FilePath| Ok(ExportHistories { chat: Some(chat(&["a"])), snap: None });
    let formats = Formats { html: true, json: true, text: true, csv: true };
    for (root, wanted) in [("out", PathProblem::Relative), ("/o\0ff", PathProblem::NotUtf8)] {
        let loaded = load_threads(&FilePath::new("/x"), "/x", Ok(Vec::new()), |_: &FilePath| true, load).ok().unwrap();
        let threads = select(loaded.merged, &vec![ConversationId::new("a")]).ok().unwrap();
        let manifest = Manifest::from_rows(Vec::new(), "/m".to_owned()).unwrap();
        match prepare(threads, &Vec::new(), Ok(FilePath::new(root)), Some(manifest), formats, 5).err() {
            Some(RunError::Manifest(ManifestError::OutputPath { problem, .. })) => assert_eq!(problem, wanted),
            _ => panic!("{root} cannot be recorded"),
        }
    }
}

#[test]
fn every_reason_a_history_run_stops_is_put_in_words() {
    let word = || "/x".to_owned();
    for error in [
        RunError::SeveralExports { source: word(), count: 2 },
        RunError::NoJsonDir(word()),
        RunError::NoHistory(word()),
        RunError::InvalidExportId(word()),
        RunError::Json(word()),
        RunError::Discover(word()),
        RunError::Plan(PlanError::OutRoot(OutRootError::Absolute { root: word() })),
        RunError::Write(word()),
    ] {
        assert!(error.message().contains("/x"), "{}", error.message());
    }
    assert_eq!(RunError::NoSelection.message(), "pick at least one conversation");
    assert_eq!(RunError::NoFormats.message(), "pick at least one format");
    assert_eq!(RunError::Plan(PlanError::Manifest(ManifestError::NoDataDir)).message(), ManifestError::NoDataDir.message());
    assert!(RunError::Panicked.message().contains("bug"));
}
