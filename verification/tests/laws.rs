use exportsnap::app::{ActionMenuState, App, Choice, Key, KeyCode, Modifiers};
use exportsnap::config::Tier;
use exportsnap::env::Environment;
use exportsnap::export::chat_fix::{plan, OverlayMode, RecordedDirs};
use exportsnap::export::chat_join::reconcile;
use exportsnap::export::chat_scan::{discover, Walked};
use exportsnap::export::history::merge;
use exportsnap::export::history_run::{plan as plan_history, Formats};
use exportsnap::export::local_fix::{default_out_root, needs_its_own_format, Leg, SourceMedia};
use exportsnap::export::manifest::{DirectoryClaim, ItemKind, ItemStatus, NewItem, RawItem};
use exportsnap::export::model::{
    ChatHistory, ChatMessage, Conversation, ConversationId, Day, DownloadUrl, MediaKind, Snap, SnapHistory, Timestamp, Username,
};
use exportsnap::export::redact::redact_note;
use exportsnap::export::state::Manifest;
use exportsnap::paths::{FilePath, NativePath};
use exportsnap::screens::{Overview, Pane, RunAlert, TabActivity};
use exportsnap::tab::Tab;
use std::collections::BTreeSet;

fn owed(ids: &[&str]) -> Vec<NewItem> {
    ids.iter().map(|id| NewItem { kind: ItemKind::Memory, source_id: (*id).to_owned(), url: None }).collect()
}

fn manifest(ids: &[&str]) -> Manifest {
    let mut manifest = Manifest::from_rows(Vec::new(), "/m".to_owned()).unwrap();
    manifest.enroll(&owed(ids), 1);
    manifest
}

fn rows(manifest: &Manifest) -> Vec<(String, String, i64)> {
    manifest.rows.iter().map(|row| (row.source_id.clone(), row.status.clone(), row.updated_at)).collect()
}

#[test]
fn a_verdict_said_again_is_not_a_change() {
    let mut manifest = manifest(&["a", "b"]);
    manifest.mark_source_missing(ItemKind::Memory, "a", "no file", 2).unwrap();
    manifest.exclude(ItemKind::Memory, &vec!["b".to_owned()], 2).unwrap();
    let claim = || vec![DirectoryClaim {
        source_id: "c".to_owned(),
        directory: NativePath { shown: "/out/c".to_owned(), absolute: true, utf8: true },
    }];
    manifest.claim_directories(&claim(), 2).unwrap();
    let before = rows(&manifest);
    manifest.mark_source_missing(ItemKind::Memory, "a", "no file", 9).unwrap();
    manifest.exclude(ItemKind::Memory, &vec!["b".to_owned()], 9).unwrap();
    manifest.claim_directories(&claim(), 9).unwrap();
    assert_eq!(rows(&manifest), before);
    manifest.mark_source_missing(ItemKind::Memory, "a", "it moved", 9).unwrap();
    assert_eq!(manifest.rows[0].updated_at, 9);
}

#[test]
fn retiring_spares_what_is_named_finished_or_of_another_kind() {
    let row = |kind: ItemKind, id: &str, status: ItemStatus| RawItem {
        kind: kind.as_stored().to_owned(),
        source_id: id.to_owned(),
        status: status.as_stored().to_owned(),
        retry_count: 0,
        url: None,
        output_path: None,
        checksum: None,
        bytes: None,
        last_error: None,
        updated_at: 1,
    };
    let start = vec![
        row(ItemKind::Memory, "named", ItemStatus::Pending),
        row(ItemKind::Memory, "gone", ItemStatus::Failed),
        row(ItemKind::Memory, "done", ItemStatus::Done),
        row(ItemKind::ChatMedia, "gone", ItemStatus::Pending),
        row(ItemKind::Memory, "claim", ItemStatus::Claimed),
    ];
    let mut manifest = Manifest::from_rows(start, "/m".to_owned()).unwrap();
    let named = vec!["named".to_owned()];
    manifest.retire_absent(ItemKind::Memory, &named, &Vec::new(), 5).unwrap();
    let changed: Vec<i64> = manifest.rows.iter().map(|row| row.updated_at).collect();
    assert_eq!(changed, vec![1, 5, 1, 1, 1]);
    assert_eq!(manifest.rows[1].status, ItemStatus::Retired.as_stored());
    manifest.retire_absent(ItemKind::Memory, &named, &Vec::new(), 8).unwrap();
    let again: Vec<i64> = manifest.rows.iter().map(|row| row.updated_at).collect();
    assert_eq!(again, changed);
}

#[test]
fn enrolling_again_keeps_progress_and_adds_nothing() {
    let mut manifest = manifest(&["a", "b"]);
    manifest.mark_failed(ItemKind::Memory, "a", "it broke", 2).unwrap();
    let before = rows(&manifest);
    let mut again = owed(&["a", "b"]);
    again[0].url = Some(DownloadUrl::new("https://example.com/x".to_owned()));
    manifest.enroll(&again, 7);
    assert_eq!(rows(&manifest), before);
    assert_eq!(manifest.rows[0].url.as_deref(), Some("https://example.com/x"));
    manifest.enroll(&owed(&["a"]), 8);
    assert_eq!(manifest.rows[0].url.as_deref(), Some("https://example.com/x"), "an absent link does not erase the one there is");
}

#[test]
fn modes_come_round_and_none_loses_a_caption() {
    for mode in OverlayMode::ALL {
        assert_eq!(mode.next().next().next(), mode);
        assert_ne!(mode.next(), mode);
        assert!(mode.composites() || mode.keeps_originals());
    }
}

fn said(media_ids: &str, created: &str) -> ChatMessage {
    ChatMessage {
        from: Some(Username::new("someone")),
        media_type: MediaKind::Media,
        created: Timestamp::parse(created),
        created_epoch_ms: None,
        content: None,
        conversation_title: None,
        is_sender: false,
        is_saved: false,
        media_ids: Some(media_ids.to_owned()),
    }
}

fn chats(conversations: Vec<(&str, Vec<ChatMessage>)>) -> ChatHistory {
    ChatHistory {
        conversations: conversations
            .into_iter()
            .map(|(id, records)| Conversation { id: ConversationId::new(id), records })
            .collect(),
    }
}

#[test]
fn conversations_and_their_files_are_kept_apart() {
    let at = "2021-03-04 09:00:00 UTC";
    let history = chats(vec![
        ("Ann", vec![said("b~one1", at), said("b~two2", at)]),
        ("ann", vec![said("b~one1 | b~three3", at)]),
    ]);
    let names = ["2021-03-04_b~one1.jpg", "2021-03-04_b~two2.jpg", "2021-03-04_b~three3.jpg", "2021-03-04_b~four4.jpg", "2021-03-04_b~five5.txt"];
    let walked =
        Walked { paths: names.iter().map(|name| FilePath::new("/x/chat_media").join(name)).collect(), unreadable: Vec::new() };
    let joined = reconcile(&history, discover(walked));
    assert_eq!(joined.items.len(), names.len());
    let first = joined.items.iter().find(|item| item.source_id() == "one1" || item.source_id() == "b~one1").unwrap();
    assert_eq!(first.message().unwrap().conversation.as_str(), "Ann", "the first message to name a file has it");
    let readings: Vec<_> = joined.items.iter().map(|_| None).collect();
    let planned = plan(&joined, &readings, Ok(FilePath::new("/out")), OverlayMode::Both, &RecordedDirs::empty()).unwrap();
    assert_eq!(planned.items.len() + planned.deferred.len() + planned.excluded.len(), joined.items.len());
    let outputs: BTreeSet<String> = planned.items.iter().map(|item| item.output.folded_text()).collect();
    assert_eq!(outputs.len(), planned.items.len());
    let homes: BTreeSet<String> = planned
        .items
        .iter()
        .filter(|item| item.attribution.is_some())
        .map(|item| item.output.parent().unwrap().folded_text())
        .collect();
    assert_eq!(homes.len(), 2);
}

#[test]
fn merging_loses_no_record() {
    let chat = chats(vec![("b", vec![said("", "2021-03-04 09:00:00 UTC")]), ("a", vec![said("", "2021-03-04 08:00:00 UTC")])]);
    let snap = SnapHistory {
        conversations: vec![Conversation {
            id: ConversationId::new("b"),
            records: vec![Snap {
                from: None,
                media_type: MediaKind::Media,
                created: Timestamp::parse("2021-03-04 07:00:00 UTC"),
                created_epoch_ms: None,
                conversation_title: None,
                is_sender: true,
            }],
        }],
    };
    let merged = merge(&chat, &snap);
    let shape: Vec<(&str, usize)> = merged.threads.iter().map(|thread| (thread.id.as_str(), thread.records.len())).collect();
    assert_eq!(shape, vec![("a", 1), ("b", 2)]);
    assert!(merged.threads[1].records[0].is_sender(), "a thread runs forward");
}

#[test]
fn documents_of_like_named_conversations_land_apart() {
    let keys = vec![ConversationId::new("ANN"), ConversationId::new("ann")];
    let planned = plan_history(&keys, &Vec::new(), Ok(FilePath::new("/out")), None).ok().unwrap();
    let mut paths = BTreeSet::new();
    for entry in &planned.entries {
        for path in [&entry.documents.json, &entry.documents.text, &entry.documents.csv, &entry.documents.html] {
            assert!(path.starts_with(&entry.directory));
            paths.insert(path.folded_text());
        }
    }
    assert_eq!(paths.len(), 8);
    let asked = Formats { html: true, json: false, text: false, csv: true };
    assert_eq!(asked.listed().len(), 2);
}

#[test]
fn a_note_with_nothing_to_hide_is_kept() {
    let url = Some("https://example.com/d?sig=SECRETabcdef123456".to_owned());
    assert_eq!(redact_note("the file ended early", &url), "the file ended early");
    assert_eq!(redact_note("at SECRETabcdef123456 again", &url), "at <redacted> again");
    assert_eq!(redact_note("see https://other.example/x", &None), "see <redacted>");
}

#[test]
fn a_day_has_one_spelling() {
    let day = Day::parse("2021-03-04").unwrap();
    assert_eq!(day.text(), "2021-03-04");
    assert_eq!(Day::parse("2021-3-4"), None);
}

#[test]
fn up_takes_back_what_down_did() {
    let press = |code: KeyCode| Key { code, modifiers: Modifiers { shift: false, control: false, alt: false, rest: false } };
    let mut menu = ActionMenuState { labels: vec!["one", "two", "three"], hotkeys: vec![None, None, None], selected: 2 };
    assert!(matches!(menu.handle_key(press(KeyCode::Down)), Choice::Keep));
    assert_eq!(menu.selected, 0);
    assert!(matches!(menu.handle_key(press(KeyCode::Up)), Choice::Keep));
    assert_eq!(menu.selected, 2);
}

#[test]
fn a_source_has_its_output_beside_it() {
    assert_eq!(default_out_root(&FilePath::new("/export")).text(), "/export/exportsnap-out");
}

#[test]
fn only_a_picture_that_may_be_transparent_keeps_its_format() {
    let media = |extension: &str| SourceMedia {
        main: FilePath::new("/x/m").join(extension),
        day: Day::parse("2021-03-04").unwrap(),
        extension: extension.to_owned(),
        overlay: None,
    };
    assert!(needs_its_own_format(Leg::Image, &media("PNG")));
    assert!(!needs_its_own_format(Leg::Image, &media("jpg")));
    assert!(!needs_its_own_format(Leg::Video, &media("png")));
}

#[test]
fn an_overview_can_be_put_in_front() {
    let overview = Overview {
        environment: Environment { available_space: Some(3), ..Environment::default() },
        editing: true,
        report: "two parts".to_owned(),
    };
    let app = App::new(Tier::Full).with_overview(overview);
    assert_eq!(app.overview().report, "two parts");
    assert_eq!(app.overview().environment().available_space, Some(3));
    assert!(app.overview().editing);
}

#[test]
fn the_order_of_a_walk_never_shows() {
    let names = [
        "/x/chat_media/2021-03-04_b~one1.jpg",
        "/y/chat_media/2021-03-04_b~one1.jpg",
        "/x/chat_media/2021-03-05_overlay~two2.png",
        "/x/chat_media/2021-03-05_media~two2.mp4",
        "/x/chat_media/notes.txt",
        "/x/chat_media/more.txt",
    ];
    let told = |order: &[usize]| {
        let paths = order.iter().map(|at| FilePath::new(names[*at])).collect();
        let found = discover(Walked { paths, unreadable: Vec::new() });
        let media: Vec<(String, Option<String>)> = found
            .media
            .iter()
            .map(|media| (media.file.path.text(), media.overlay.as_ref().map(|overlay| overlay.path.text())))
            .collect();
        let duplicates: Vec<(String, usize)> =
            found.duplicates.iter().map(|duplicate| (duplicate.kept.text(), duplicate.ignored.len())).collect();
        let unparsed: Vec<String> = found.unparsed.iter().map(|path| path.text()).collect();
        (media, duplicates, unparsed)
    };
    let first = told(&[0, 1, 2, 3, 4, 5]);
    assert_eq!(first.1, vec![("/x/chat_media/2021-03-04_b~one1.jpg".to_owned(), 1)]);
    assert_eq!(told(&[5, 4, 3, 2, 1, 0]), first);
    assert_eq!(told(&[1, 5, 0, 4, 3, 2]), first);
}

#[test]
fn only_a_run_out_of_sight_is_marked() {
    let alert = || Pane { alert: Some(RunAlert { text: "done".to_owned(), kind: TabActivity::Finished }), ..Pane::default() };
    let mut app = App::new(Tier::Full);
    app.switch_to(Tab::Memories);
    app.tick(alert(), alert(), Pane::default(), false);
    for (tab, mark) in Tab::ALL.into_iter().zip(app.activity()) {
        assert_eq!(mark.is_some(), tab == Tab::ChatMedia, "{tab:?}");
    }
    app.switch_to(Tab::ChatMedia);
    assert!(app.activity().iter().all(Option::is_none));
}
