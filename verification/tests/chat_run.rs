use exportsnap::export::chat_dirs::NO_CONVERSATION_DIR;
use exportsnap::export::chat_fix::OverlayMode;
use exportsnap::export::chat_join::{reconcile, ChatMediaItem, Join, MediaDate, Message, MessageRef, MissingReason, Reconciliation};
use exportsnap::export::chat_media::{ChatMedia, ChatMediaFile};
use exportsnap::export::chat_run::{choose_export, counts, join_export, outcome, prepare, HistoryOutcome, PlanCounts, RunError, RunOutcome};
use exportsnap::export::chat_scan::{discover, ChatScanError, Walked};
use exportsnap::export::history_run::ExportGroup;
use exportsnap::export::local_fix::{DeferralReason, Embedded, Leg, Plan};
use exportsnap::export::manifest::{ExportId, ItemKind, ItemStatus, ManifestError};
use exportsnap::export::model::{ChatHistory, ChatMessage, Conversation, ConversationId, MediaKind, Timestamp, UnreadableDir, Username};
use exportsnap::export::out_root::OutRootError;
use exportsnap::export::state::Manifest;
use exportsnap::paths::FilePath;

fn reconciliation(named: bool, unreadable: bool) -> Reconciliation {
    let file = ChatMediaFile::parse(&FilePath::new("/x/chat_media/2021-03-04_b~aB3xY9.jpg")).expect("the name parses");
    let join = if named {
        Join::Named(Message {
            at: MessageRef { conversation: 0, message: 0 },
            conversation: ConversationId::new("friend"),
            conversation_title: None,
            from: None,
            is_sender: false,
            created: None,
            created_epoch_ms: None,
        })
    } else {
        Join::Unnamed
    };
    Reconciliation {
        items: vec![ChatMediaItem { media: ChatMedia { file, overlay: None }, join }],
        missing: Vec::new(),
        unparsed_tokens: Vec::new(),
        unparsed: Vec::new(),
        duplicates: Vec::new(),
        unreadable: if unreadable {
            vec![UnreadableDir { dir: FilePath::new("/x/locked"), error: "permission denied".to_owned() }]
        } else {
            Vec::new()
        },
    }
}

fn empty_plan() -> Plan {
    Plan { kind: ItemKind::ChatMedia, items: Vec::new(), deferred: Vec::new(), excluded: Vec::new() }
}

#[test]
fn the_history_outcome_needs_both_inputs_and_collapses_neither() {
    let joined = counts(&reconciliation(true, false), &empty_plan(), true);
    assert_eq!(joined.history, HistoryOutcome::Joined);
    let read = counts(&reconciliation(false, false), &empty_plan(), true);
    assert_eq!(read.history, HistoryOutcome::JoinedNothing);
    let absent = counts(&reconciliation(false, false), &empty_plan(), false);
    assert_eq!(absent.history, HistoryOutcome::Absent);
    assert_eq!(counts(&reconciliation(true, false), &empty_plan(), false).history, HistoryOutcome::Absent);
}

#[test]
fn an_unreadable_dir_is_what_makes_the_counts_a_lower_bound() {
    assert!(!counts(&reconciliation(true, false), &empty_plan(), true).partial, "a complete scan reports exact counts");
    assert!(counts(&reconciliation(true, true), &empty_plan(), true).partial, "one unlistable dir qualifies the whole run");
}

fn message(media_ids: &str, created: &str) -> ChatMessage {
    ChatMessage {
        from: Some(Username::new("someone")),
        media_type: MediaKind::Media,
        created: Timestamp::parse(created),
        created_epoch_ms: None,
        content: None,
        conversation_title: None,
        is_sender: false,
        is_saved: false,
        media_ids: Some(media_ids.to_owned()),
    }
}

fn history() -> ChatHistory {
    ChatHistory {
        conversations: vec![Conversation {
            id: ConversationId::new("friend"),
            records: vec![message("b~aB3xY9", "2021-03-04 09:00:00 UTC"), message("b~gone1 | junk", "2021-03-05 09:00:00 UTC")],
        }],
    }
}

fn walked(names: &[&str], unreadable: bool) -> Walked {
    Walked {
        paths: names.iter().map(|name| FilePath::new("/x/chat_media").join(name)).collect(),
        unreadable: if unreadable {
            vec![UnreadableDir { dir: FilePath::new("/x/locked"), error: "permission denied".to_owned() }]
        } else {
            Vec::new()
        },
    }
}

const NAMES: [&str; 3] = ["2021-03-04_b~aB3xY9.jpg", "2021-03-06_b~other2.mp4", "notes.txt"];

#[test]
fn a_history_and_the_files_are_joined_by_token() {
    let joined = reconcile(&history(), discover(walked(&NAMES, false)));
    assert_eq!(joined.items.len(), 2);
    let named: Vec<bool> = joined.items.iter().map(|item| item.join.is_named()).collect();
    assert_eq!(named, vec![true, false]);
    assert_eq!(joined.items[0].date(), MediaDate::Message(Timestamp::parse("2021-03-04 09:00:00 UTC").unwrap()));
    assert_eq!(joined.items[0].message().map(|message| message.conversation.as_str()), Some("friend"));
    assert!(matches!(joined.items[1].date(), MediaDate::Filename(_)));
    assert_eq!(joined.missing.len(), 1);
    assert_eq!(joined.missing[0].reason, MissingReason::NoFile);
    assert_eq!(joined.unparsed_tokens.len(), 1);
    assert_eq!(joined.unparsed_tokens[0].token, "junk");
    assert_eq!(joined.unparsed, vec![FilePath::new("/x/chat_media/notes.txt")]);
    let partial = reconcile(&history(), discover(walked(&NAMES, true)));
    assert_eq!(partial.missing[0].reason, MissingReason::Unscanned, "absence is not known where a dir was not listed");
    for reason in MissingReason::ALL {
        assert!(!reason.message().is_empty());
    }
}

fn groups(ids: &[&str]) -> Result<Vec<ExportGroup>, String> {
    Ok(ids.iter().map(|id| ExportGroup { id: (*id).to_owned(), json_dirs: vec![None, Some(FilePath::new("/x/json"))] }).collect())
}

#[test]
fn one_export_is_chosen_or_the_reason_is_told() {
    let source = "/x";
    let chosen = choose_export(source, groups(&["mydata-1"])).unwrap();
    assert_eq!(chosen.json_dir, FilePath::new("/x/json"));
    assert_eq!(chosen.export_id.as_str(), "mydata-1");
    assert_eq!(choose_export(source, groups(&[])), Err(RunError::NoExportId("/x".to_owned())));
    assert_eq!(choose_export(source, groups(&["a", "b"])), Err(RunError::SeveralExports { source: "/x".to_owned(), count: 2 }));
    let given = "/x//y/./";
    assert_eq!(choose_export(given, groups(&[])).unwrap_err().message(), RunError::NoExportId(given.to_owned()).message());
    assert_eq!(choose_export(source, Err("no".to_owned())), Err(RunError::Discover("no".to_owned())));
    assert_eq!(choose_export(source, groups(&["../up"])), Err(RunError::InvalidExportId("/x".to_owned())));
    let bare = Ok(vec![ExportGroup { id: "mydata-1".to_owned(), json_dirs: vec![None] }]);
    assert_eq!(choose_export(source, bare), Err(RunError::NoJsonDir("/x".to_owned())));
}

#[test]
fn a_join_needs_chat_media_and_stops_at_the_first_failure() {
    let source = "/x";
    assert_eq!(join_export(source, Err("bad".to_owned()), Ok(walked(&[], false))), Err(RunError::Json("bad".to_owned())));
    assert_eq!(join_export(source, Ok(None), Ok(walked(&[], false))), Err(RunError::NoChatMediaDir("/x".to_owned())));
    let failed = || ChatScanError { dir: "/x".to_owned(), source: "gone".to_owned() };
    assert_eq!(join_export(source, Ok(None), Err(failed())), Err(RunError::Scan(failed())));
    assert!(failed().message().starts_with("could not list /x looking for"));
    let joined = join_export(source, Ok(None), Ok(walked(&NAMES, false))).unwrap();
    assert!(!joined.had_history);
    assert!(joined.reconciliation.missing.is_empty());
}

#[test]
fn a_run_is_enrolled_and_planned_under_its_conversations() {
    let source = "/x";
    let export = join_export(source, Ok(Some(history())), Ok(walked(&NAMES, false))).unwrap();
    let mut manifest = Manifest::from_rows(Vec::new(), "/state/m.sqlite".to_owned()).unwrap();
    let id = || ExportId::new("mydata-1").unwrap();
    let readings: Vec<Option<Embedded>> = vec![None, None];
    let out = || Ok(FilePath::new("/out"));
    let prepared =
        prepare(&export, id(), FilePath::new("/state"), &mut manifest, &readings, out(), OverlayMode::Both, 7).ok().unwrap();
    let outputs: Vec<String> = prepared.plan.items.iter().map(|item| item.output.text()).collect();
    assert_eq!(outputs[0], "/out/chat/friend/20210304_090000.jpg");
    assert!(outputs[1].starts_with(&format!("/out/chat/{NO_CONVERSATION_DIR}/2021/03/20210306_000000")), "{outputs:?}");
    assert_eq!(prepared.snapshot.rows[0].output_name, "20210304_090000.jpg");
    assert_eq!(prepared.snapshot.rows[1].leg, Leg::Video);
    assert_eq!(prepared.snapshot.counts, PlanCounts { history: HistoryOutcome::Joined, missing_tokens: 1, ..PlanCounts::default() });
    let pending = manifest.pending(ItemKind::ChatMedia, 3).ok().unwrap();
    assert_eq!(pending.len(), 2, "the two files are owed");
    let missing = manifest.items(ItemKind::ChatMedia).ok().unwrap();
    assert!(missing.iter().any(|item| item.status == ItemStatus::SourceMissing), "the token with no file is parked");

    let unresolved = || OutRootError::Absolute { root: "o".to_owned() };
    let refused =
        prepare(&export, id(), FilePath::new("/state"), &mut manifest, &readings, Err(unresolved()), OverlayMode::Both, 8).err();
    assert_eq!(refused, Some(RunError::OutRoot(unresolved())));
    assert_eq!(RunError::OutRoot(unresolved()).message(), unresolved().message());
    let again = prepare(&export, id(), FilePath::new("/state"), &mut manifest, &readings, out(), OverlayMode::Both, 8).ok().unwrap();
    let same: Vec<String> = again.plan.items.iter().map(|item| item.output.text()).collect();
    assert_eq!(same, outputs, "a second run plans what the first did");
    assert!(again.plan.deferred.iter().all(|deferred| deferred.reason != DeferralReason::UnknownFormat));
}

#[test]
fn every_reason_a_run_stops_is_put_in_words() {
    let source = || "/x".to_owned();
    for error in [
        RunError::NoExportId(source()),
        RunError::NoJsonDir(source()),
        RunError::InvalidExportId(source()),
        RunError::NoChatMediaDir(source()),
    ] {
        assert!(error.message().contains("/x"), "{}", error.message());
    }
    assert!(RunError::SeveralExports { source: source(), count: 12 }.message().starts_with("12 exports share /x"));
    assert_eq!(RunError::Json("json".to_owned()).message(), "json");
    assert_eq!(RunError::Discover("zip".to_owned()).message(), "zip");
    assert_eq!(RunError::Manifest(ManifestError::NoDataDir).message(), ManifestError::NoDataDir.message());
    assert!(RunError::Panicked.message().contains("bug"));
    assert_eq!(outcome(Err(RunError::Panicked)), RunOutcome::Failed(RunError::Panicked));
}
