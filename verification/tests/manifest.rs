use exportsnap::export::digest::{Checksum, Digester};
use exportsnap::export::manifest::{
    manifest_dir, Column, DirectoryClaim, ExportId, ItemKind, ItemStatus, ManifestError, NewItem, PathProblem, RawItem, SCHEMA_VERSION,
};
use exportsnap::export::model::DownloadUrl;
use exportsnap::export::redact::redact_note;
use exportsnap::export::state::{
    check_export, migrate, DemotionReason, Manifest, Measured, Opening, Reading, EXCLUDED_NOTE, RETIRED_NOTE,
};
use exportsnap::paths::{FilePath, NativePath};

#[test]
fn no_manifest_error_tells_the_user_to_redo_a_download() {
    let path = || "/x".to_owned();
    let every = vec![
        ManifestError::NoDataDir,
        ManifestError::Create { path: path(), source: "x".to_owned() },
        ManifestError::Sqlite { op: "read".to_owned(), path: path(), source: "Query returned no rows".to_owned() },
        ManifestError::FutureSchema { path: path(), found: 9, supported: 1 },
        ManifestError::WrongExport { path: path(), found: "a".to_owned(), wanted: "b".to_owned() },
        ManifestError::MissingExportPin { path: path() },
        ManifestError::CorruptRow { column: Column::Status, value: "x".to_owned() },
        ManifestError::Output { path: path(), source: "x".to_owned() },
        ManifestError::OutputPath { path: path(), problem: PathProblem::Relative },
        ManifestError::UnknownItem { kind: ItemKind::Memory, source_id: "x".to_owned() },
    ];
    for error in &every {
        match error {
            ManifestError::NoDataDir
            | ManifestError::Create { .. }
            | ManifestError::Sqlite { .. }
            | ManifestError::FutureSchema { .. }
            | ManifestError::WrongExport { .. }
            | ManifestError::MissingExportPin { .. }
            | ManifestError::CorruptRow { .. }
            | ManifestError::Output { .. }
            | ManifestError::OutputPath { .. }
            | ManifestError::UnknownItem { .. } => {}
        }
        let rendered = error.message();
        assert!(
            !rendered.to_ascii_lowercase().contains("download"),
            "this build downloads nothing, so no error may name one: {rendered:?}"
        );
    }
}

fn enrolled(ids: &[&str]) -> Manifest {
    let mut manifest = Manifest::from_rows(Vec::new(), "/state/m.sqlite".to_owned()).unwrap();
    let items: Vec<NewItem> =
        ids.iter().map(|id| NewItem { kind: ItemKind::Memory, source_id: (*id).to_owned(), url: None }).collect();
    manifest.enroll(&items, 1);
    manifest
}

fn native(text: &str) -> NativePath {
    NativePath { shown: text.to_owned(), absolute: text.starts_with('/'), utf8: true }
}

fn hashed(bytes: &[u8]) -> (Checksum, u64) {
    let mut digester = Digester::new();
    assert!(digester.add_piece(bytes));
    digester.finish()
}

fn status(manifest: &Manifest, id: &str) -> ItemStatus {
    manifest.item(ItemKind::Memory, id).ok().unwrap().unwrap().status
}

#[test]
fn a_digest_is_the_plain_hash_of_the_bytes_whatever_the_pieces() {
    let (whole, count) = hashed(b"abc");
    assert_eq!(count, 3);
    assert_eq!(whole.to_hex(), "6437b3ac38465133ffb63b75273a8db548c558465d79db03fd359c6cd5bd9d85");
    let mut digester = Digester::new();
    assert!(digester.add_piece(b"a"));
    assert!(digester.add_piece(b"bc"));
    let (pieces, _) = digester.finish();
    assert!(pieces.same_as(&whole));
    assert!(Checksum::from_hex(&whole.to_hex()).unwrap().same_as(&whole));
    assert!(Checksum::from_hex(&whole.to_hex().to_uppercase()).unwrap().same_as(&whole));
    assert!(Checksum::from_hex("abc").is_none());
    assert!(Checksum::from_hex(&"g".repeat(64)).is_none());
}

#[test]
fn an_item_goes_from_owed_to_done_and_back() {
    let mut manifest = enrolled(&["a", "b"]);
    assert_eq!(manifest.pending(ItemKind::Memory, 3).ok().unwrap().len(), 2);
    let (checksum, bytes) = hashed(b"abc");
    let measured = Measured::Hashed { checksum, bytes };
    assert_eq!(manifest.mark_done(ItemKind::Memory, "a", &native("/out/a.jpg"), measured, 2), Ok(()));
    assert_eq!(status(&manifest, "a"), ItemStatus::Done);
    assert_eq!(manifest.pending(ItemKind::Memory, 3).ok().unwrap().len(), 1);
    let report = manifest.resume(ItemKind::Memory, &vec![Reading::Hashed { checksum, bytes }], 3).unwrap();
    assert_eq!((report.verified, report.pending, report.demoted.len()), (1, 1, 0));
    let report = manifest.resume(ItemKind::Memory, &vec![Reading::NotFound], 4).unwrap();
    assert_eq!(report.demoted[0].reason, DemotionReason::Vanished);
    assert_eq!(status(&manifest, "a"), ItemStatus::Pending);
}

#[test]
fn a_changed_or_unreadable_output_is_owed_again() {
    for (reading, reason) in [
        (Reading::Unreadable, DemotionReason::Unreadable),
        (Reading::Hashed { checksum: hashed(b"abd").0, bytes: 3 }, DemotionReason::Changed),
        (Reading::Hashed { checksum: hashed(b"abc").0, bytes: 4 }, DemotionReason::Changed),
    ] {
        let mut manifest = enrolled(&["a"]);
        let (checksum, bytes) = hashed(b"abc");
        manifest.mark_done(ItemKind::Memory, "a", &native("/out/a.jpg"), Measured::Hashed { checksum, bytes }, 2).unwrap();
        let report = manifest.resume(ItemKind::Memory, &vec![reading], 3).unwrap();
        assert_eq!(report.demoted[0].reason, reason);
        assert!(!reason.message().is_empty());
    }
}

#[test]
fn a_failed_item_is_tried_until_its_attempts_are_spent() {
    let mut manifest = enrolled(&["a"]);
    for attempt in 1..=3 {
        assert_eq!(manifest.pending(ItemKind::Memory, 3).ok().unwrap().len(), 1, "before attempt {attempt}");
        manifest.mark_failed(ItemKind::Memory, "a", "it broke", 2).unwrap();
    }
    assert_eq!(manifest.pending(ItemKind::Memory, 3).ok().unwrap().len(), 0);
    assert_eq!(manifest.item(ItemKind::Memory, "a").ok().unwrap().unwrap().retry_count, 3);
    manifest.reset(ItemKind::Memory, "a", 3).unwrap();
    assert_eq!(manifest.pending(ItemKind::Memory, 3).ok().unwrap().len(), 1);
}

#[test]
fn work_on_a_row_nothing_enrolled_is_refused() {
    let mut manifest = enrolled(&["a"]);
    let unknown = ManifestError::UnknownItem { kind: ItemKind::Memory, source_id: "z".to_owned() };
    assert_eq!(manifest.mark_failed(ItemKind::Memory, "z", "x", 2), Err(unknown));
    assert!(manifest.item(ItemKind::Memory, "z").ok().unwrap().is_none());
}

#[test]
fn an_output_path_has_to_be_absolute_text() {
    let mut manifest = enrolled(&["a"]);
    let (checksum, bytes) = hashed(b"abc");
    let mut done = |output: NativePath| manifest.mark_done(ItemKind::Memory, "a", &output, Measured::Hashed { checksum, bytes }, 2);
    let refused = |problem| Err(ManifestError::OutputPath { path: "out/a.jpg".to_owned(), problem });
    assert_eq!(done(native("out/a.jpg")), refused(PathProblem::Relative));
    let strange = NativePath { shown: "/out/\u{fffd}".to_owned(), absolute: true, utf8: false };
    assert_eq!(done(strange), Err(ManifestError::OutputPath { path: "/out/\u{fffd}".to_owned(), problem: PathProblem::NotUtf8 }));
}

#[test]
fn parked_items_are_not_owed_and_say_why() {
    let mut manifest = enrolled(&["a", "b", "c"]);
    manifest.exclude(ItemKind::Memory, &vec!["a".to_owned()], 2).unwrap();
    manifest.mark_source_missing(ItemKind::Memory, "b", "no file", 2).unwrap();
    assert_eq!(status(&manifest, "a"), ItemStatus::Excluded);
    assert_eq!(manifest.item(ItemKind::Memory, "a").ok().unwrap().unwrap().last_error.as_deref(), Some(EXCLUDED_NOTE));
    assert_eq!(status(&manifest, "b"), ItemStatus::SourceMissing);
    let owed: Vec<String> = manifest.pending(ItemKind::Memory, 3).ok().unwrap().into_iter().map(|item| item.source_id).collect();
    assert_eq!(owed, vec!["c".to_owned()]);
    manifest.retire_absent(ItemKind::Memory, &vec!["a".to_owned(), "b".to_owned()], &Vec::new(), 3).unwrap();
    assert_eq!(status(&manifest, "c"), ItemStatus::Retired);
    assert_eq!(manifest.item(ItemKind::Memory, "c").ok().unwrap().unwrap().last_error.as_deref(), Some(RETIRED_NOTE));
}

#[test]
fn claimed_directories_are_recorded_all_or_none() {
    let mut manifest = enrolled(&[]);
    let claim = |id: &str, directory: &str| DirectoryClaim { source_id: id.to_owned(), directory: native(directory) };
    let refused = manifest.claim_directories(&vec![claim("b", "/out/b"), claim("a", "out/a")], 2);
    assert!(matches!(refused, Err(ManifestError::OutputPath { .. })));
    assert!(manifest.claims().unwrap().is_empty());
    manifest.claim_directories(&vec![claim("b", "/out/b"), claim("a", "/out/a")], 2).unwrap();
    let claims: Vec<(String, String)> =
        manifest.claims().unwrap().into_iter().map(|claim| (claim.source_id, claim.directory.text())).collect();
    assert_eq!(claims, vec![("a".to_owned(), "/out/a".to_owned()), ("b".to_owned(), "/out/b".to_owned())]);
}

fn raw(kind: &str, status: &str) -> RawItem {
    RawItem {
        kind: kind.to_owned(),
        source_id: "a".to_owned(),
        status: status.to_owned(),
        retry_count: 0,
        url: None,
        output_path: None,
        checksum: None,
        bytes: None,
        last_error: None,
        updated_at: 1,
    }
}

#[test]
fn a_row_that_cannot_be_read_back_names_the_column() {
    let corrupt = |row: RawItem| match Manifest::from_rows(vec![row], String::new()).unwrap().items(ItemKind::Memory) {
        Err(ManifestError::CorruptRow { column, value }) => (column, value),
        _ => panic!("the row reads back"),
    };
    let memory = ItemKind::Memory.as_stored();
    assert_eq!(corrupt(raw(memory, "odd")), (Column::Status, "odd".to_owned()));
    let done = ItemStatus::Done.as_stored();
    assert_eq!(corrupt(RawItem { retry_count: -1, ..raw(memory, done) }), (Column::RetryCount, "-1".to_owned()));
    assert_eq!(corrupt(RawItem { bytes: Some(-5), ..raw(memory, done) }), (Column::Bytes, "-5".to_owned()));
    assert_eq!(corrupt(RawItem { checksum: Some("x".to_owned()), ..raw(memory, done) }), (Column::Checksum, "x".to_owned()));
    assert!(Manifest::from_rows(vec![raw(memory, done), raw(memory, done)], String::new()).is_none(), "two rows for one record");
    let said = ManifestError::CorruptRow { column: Column::Status, value: "a\"b".to_owned() }.message();
    assert!(said.contains("status column holds \"a\\\"b\""), "{said}");
}

#[test]
fn stored_words_read_back() {
    for kind in ItemKind::ALL {
        assert_eq!(ItemKind::from_stored(kind.as_stored()), Ok(kind));
    }
    for status in ItemStatus::ALL {
        assert_eq!(ItemStatus::from_stored(status.as_stored()), Ok(status));
    }
    assert!(ItemKind::from_stored("odd").is_err());
}

#[test]
fn a_database_is_opened_only_by_a_build_that_knows_it_and_for_its_own_export() {
    assert_eq!(migrate(0, "/m"), Ok(Opening::Install));
    assert_eq!(migrate(SCHEMA_VERSION, "/m"), Ok(Opening::Check));
    assert_eq!(migrate(9, "/m"), Err(ManifestError::FutureSchema { path: "/m".to_owned(), found: 9, supported: 1 }));
    let export = ExportId::new("mydata-1").unwrap();
    assert_eq!(check_export(Some("mydata-1".to_owned()), &export, "/m"), Ok(()));
    assert!(matches!(check_export(Some("other".to_owned()), &export, "/m"), Err(ManifestError::WrongExport { .. })));
    assert_eq!(check_export(None, &export, "/m"), Err(ManifestError::MissingExportPin { path: "/m".to_owned() }));
    assert!(ExportId::new("").is_none());
    assert!(ExportId::new("a/b").is_none());
    assert_eq!(manifest_dir(None), Err(ManifestError::NoDataDir));
    assert_eq!(manifest_dir(Some(FilePath::new("/data"))), Ok(FilePath::new("/data/manifests")));
}

#[test]
fn a_note_never_carries_what_its_items_link_is_guarded_by() {
    let url = "https://host.example/get?sid=s3cr3tvalue0123&mid=abc";
    let note = format!("fetching {url} failed: s3cr3tvalue0123 refused");
    let kept = redact_note(&note, &Some(url.to_owned()));
    assert!(!kept.contains("s3cr3tvalue0123"), "{kept}");
    assert!(kept.contains("failed"), "{kept}");
    assert_eq!(redact_note("it broke", &None), "it broke");
    let mut manifest = Manifest::from_rows(Vec::new(), String::new()).unwrap();
    let item = NewItem { kind: ItemKind::Memory, source_id: "a".to_owned(), url: Some(DownloadUrl::new(url.to_owned())) };
    manifest.enroll(&vec![item], 1);
    manifest.mark_failed(ItemKind::Memory, "a", &note, 2).unwrap();
    let stored = manifest.item(ItemKind::Memory, "a").ok().unwrap().unwrap().last_error.unwrap();
    assert!(!stored.contains("s3cr3tvalue0123"), "{stored}");
}
