use exportsnap::calendar::LocalTime;
use exportsnap::export::fix_run::{compose_own_format, fix_image, FixError, ImageRoute, Notice};
use exportsnap::export::local_fix::{output_dir, output_extension, Capture, Leg, PlannedItem, SourceMedia, TimeSource, TranscodeSkip, VideoOptions};
use exportsnap::export::model::Day;
use exportsnap::export::outputs::{output_name, Outputs, RecordedOutput, RecordedOutputs};
use exportsnap::paths::FilePath;

fn at(year: i32, month: u32, day: u32, hour: u32, minute: u32, second: u32) -> LocalTime {
    LocalTime { year, month, day, hour, minute, second }
}

fn output_path(root: &str, local: LocalTime, stem: &str, extension: &str, ordinal: u128) -> FilePath {
    output_dir(&FilePath::new(root), local).join(&output_name(stem, extension, ordinal))
}

fn bucket_path(root: &str, stem: &str, extension: &str, ordinal: u128) -> FilePath {
    output_path(root, at(2021, 1, 15, 0, 0, 0), stem, extension, ordinal)
}

#[test]
fn an_output_path_is_year_month_and_the_local_wall_time() {
    let local = at(2021, 1, 15, 14, 30, 5);
    assert_eq!(
        output_path("/out", local, "20210115_143005", Leg::Image.extension(), 0),
        FilePath::new("/out/2021/01/20210115_143005.jpg")
    );
    assert_eq!(
        output_path("/out", local, "20210115_143005", Leg::Video.extension(), 0),
        FilePath::new("/out/2021/01/20210115_143005.mp4")
    );
}

#[test]
fn a_name_a_previous_item_already_claimed_gets_a_counted_suffix() {
    let local = at(2021, 1, 15, 0, 0, 0);
    let named = |ordinal| output_path("/out", local, "20210115_000000", Leg::Image.extension(), ordinal);
    assert_eq!(named(1), FilePath::new("/out/2021/01/20210115_000000_2.jpg"));
    assert_eq!(named(2), FilePath::new("/out/2021/01/20210115_000000_3.jpg"));
    assert_eq!(
        output_path("/out", local, "20210115_000000", Leg::Video.extension(), 1),
        FilePath::new("/out/2021/01/20210115_000000_2.mp4")
    );
}

fn recorded(rows: &[(&str, FilePath)]) -> RecordedOutputs {
    RecordedOutputs {
        recorded: rows
            .iter()
            .map(|(source_id, output)| RecordedOutput { source_id: (*source_id).to_owned(), output: output.clone() })
            .collect(),
    }
}

fn planned(recorded: &RecordedOutputs, source_ids: &[&str]) -> Vec<FilePath> {
    let dir = output_dir(&FilePath::new("/out"), at(2021, 1, 15, 0, 0, 0));
    let mut outputs = Outputs::new(FilePath::new("/out"), recorded);
    source_ids.iter().map(|source_id| outputs.path(source_id, &dir, "20210115_000000", "jpg")).collect()
}

#[test]
fn a_first_run_hands_out_positions_in_the_plan() {
    assert_eq!(
        planned(&RecordedOutputs::empty(), &["a", "b", "c"]),
        [
            FilePath::new("/out/2021/01/20210115_000000.jpg"),
            FilePath::new("/out/2021/01/20210115_000000_2.jpg"),
            FilePath::new("/out/2021/01/20210115_000000_3.jpg"),
        ]
    );
}

#[test]
fn a_recorded_path_is_handed_back_to_the_item_that_recorded_it() {
    let kept =
        recorded(&[("a", bucket_path("/out", "20210115_000000", "jpg", 0)), ("b", bucket_path("/out", "20210115_000000", "jpg", 1))]);
    assert_eq!(planned(&kept, &["b"]), [bucket_path("/out", "20210115_000000", "jpg", 1)]);
}

#[test]
fn a_departed_items_recorded_path_is_not_handed_to_another_item() {
    let left_behind = recorded(&[("a", bucket_path("/out", "20210115_000000", "jpg", 0))]);
    assert_eq!(planned(&left_behind, &["b"]), [bucket_path("/out", "20210115_000000", "jpg", 1)]);
}

#[test]
fn two_rows_recorded_on_one_path_do_not_both_adopt_it() {
    let doubled =
        recorded(&[("a", bucket_path("/out", "20210115_000000", "jpg", 0)), ("b", bucket_path("/out", "20210115_000000", "jpg", 0))]);
    assert_eq!(
        planned(&doubled, &["a", "b"]),
        [bucket_path("/out", "20210115_000000", "jpg", 0), bucket_path("/out", "20210115_000000", "jpg", 1)]
    );
}

#[test]
fn a_path_recorded_under_another_out_root_is_neither_adopted_nor_reserved() {
    let elsewhere = recorded(&[("a", bucket_path("/OUT", "20210115_000000", "jpg", 0))]);
    assert_eq!(planned(&elsewhere, &["b"]), [bucket_path("/out", "20210115_000000", "jpg", 0)]);
    let here = recorded(&[("a", bucket_path("/out", "20210115_000000", "jpg", 0))]);
    assert_eq!(planned(&here, &["b"]), [bucket_path("/out", "20210115_000000", "jpg", 1)]);
}

#[test]
fn a_record_in_a_directory_this_run_did_not_plan_is_not_handed_back() {
    let moved = recorded(&[("a", output_path("/out", at(2020, 12, 15, 0, 0, 0), "20210115_000000", "jpg", 0))]);
    assert_eq!(planned(&moved, &["a"]), [bucket_path("/out", "20210115_000000", "jpg", 0)]);
}

#[test]
fn a_recorded_path_differing_only_in_case_still_reserves_its_file() {
    let shouted = recorded(&[("a", bucket_path("/out", "20210115_000000", "JPG", 0))]);
    assert_eq!(planned(&shouted, &["b"]), [bucket_path("/out", "20210115_000000", "jpg", 1)]);
}

#[test]
fn a_run_with_no_ffmpeg_reads_as_degraded_rather_than_as_transcoding() {
    let ffmpeg = || Some(FilePath::new("/usr/bin/ffmpeg"));
    assert_eq!(VideoOptions { transcode: true, ffmpeg: None }.transcoder(), Err(TranscodeSkip::NoFfmpeg));
    assert_eq!(VideoOptions { transcode: false, ffmpeg: ffmpeg() }.transcoder(), Err(TranscodeSkip::OptedOut));
    assert_eq!(VideoOptions { transcode: false, ffmpeg: None }.transcoder(), Err(TranscodeSkip::OptedOut));
    assert_eq!(VideoOptions { transcode: true, ffmpeg: ffmpeg() }.transcoder(), Ok(&FilePath::new("/usr/bin/ffmpeg")));
}

#[test]
fn a_transcode_that_produced_rubbish_blames_the_re_encode_rather_than_the_memory() {
    let what = "starts with \"\\x89PNG\"".to_owned();
    let transcoded = FixError::Transcoded { main: "/x/2021-01-15_a-main.mp4".to_owned(), what }.message();
    assert!(transcoded.contains("re-encoding /x/2021-01-15_a-main.mp4 produced"), "{transcoded}");
    assert!(transcoded.contains("the memory itself is fine"), "{transcoded}");
    assert!(transcoded.contains("transcoding off"), "{transcoded}");

    let source = "/x/2021-01-15_a-main.mp4: not an mp4; it needs converting first".to_owned();
    let unreadable = FixError::Container { source }.message();
    assert!(unreadable.contains("needs converting first"), "{unreadable}");
    assert!(!transcoded.contains("needs converting first"), "the two must not give the same advice: {transcoded}");
}

#[test]
fn every_extension_the_export_carries_lands_on_a_leg() {
    for (extension, leg) in [
        ("jpg", Some(Leg::Image)),
        ("JPEG", Some(Leg::Image)),
        ("png", Some(Leg::Image)),
        ("mp4", Some(Leg::Video)),
        ("MP4", Some(Leg::Video)),
    ] {
        assert_eq!(Leg::of(extension), leg, "{extension}");
    }
    assert_eq!(Leg::of("heic"), None, "an unknown format is deferred rather than guessed at");
    assert_eq!(Leg::of("mov"), None);
}

fn image_item(extension: &str, overlay: Option<&str>) -> PlannedItem {
    PlannedItem {
        source_id: "a".to_owned(),
        media: SourceMedia {
            main: FilePath::new("/work").join(&format!("2021-01-15_a-main.{extension}")),
            day: Day::parse("2021-01-15").unwrap(),
            extension: extension.to_owned(),
            overlay: overlay.map(|name| FilePath::new("/work").join(name)),
        },
        leg: Leg::Image,
        capture: Capture::from_day(Day::parse("2021-01-15").unwrap()).unwrap(),
        location: None,
        attribution: None,
        output: FilePath::new("/work/out/2021/01").join(&format!("20210115_000000.{}", extension.to_ascii_lowercase())),
        originals: None,
    }
}

#[test]
fn an_alpha_capable_format_with_no_encoder_is_refused_by_name() {
    let item = image_item("WEBP", Some("caption.png"));
    let error = compose_own_format("webp", &item.media.main).unwrap_err();
    match &error {
        FixError::NoEncoder { main, format } => {
            assert_eq!(format, "webp");
            assert_eq!(main, "/work/2021-01-15_a-main.WEBP", "the failure names the export's file, not the output");
        }
        other => panic!("a format with no encoder must be its own failure, not another one's: {other:?}"),
    }
    assert!(error.message().contains("this build writes no webp"), "{}", error.message());
    assert_eq!(compose_own_format("png", &item.media.main), Ok(()));
}

#[test]
fn a_format_that_may_be_transparent_is_kept_and_not_stamped() {
    let item = image_item("PNG", None);
    assert_eq!(output_extension(item.leg, &item.media), "png", "the plan commits to the member's own name");
    assert_eq!(fix_image(&item), (ImageRoute::Copied, vec![Notice::NotStamped]));
    assert_eq!(fix_image(&image_item("png", Some("caption.png"))).0, ImageRoute::Composed);
    assert_eq!(fix_image(&image_item("jpeg", None)), (ImageRoute::Stamped, Vec::new()));
    assert_eq!(fix_image(&image_item("jpg", Some("caption.png"))).0, ImageRoute::ComposedAndStamped);
}

#[test]
fn a_capture_with_no_offset_reads_its_wall_time_as_utc() {
    let capture = Capture { local: at(2021, 6, 1, 12, 0, 0), offset: None, source: TimeSource::Filename };
    let instant = chrono::DateTime::from_timestamp(capture.instant(), 0).unwrap();
    assert_eq!(instant.to_rfc3339(), "2021-06-01T12:00:00+00:00");
}

#[test]
fn a_capture_with_an_offset_resolves_back_to_the_instant_it_came_from() {
    let utc = at(2021, 6, 1, 10, 0, 0);
    let capture = Capture::from_entry(utc, None);
    assert_eq!(capture.source(), TimeSource::Entry);
    assert_eq!(capture.local(), utc);
    assert_eq!(capture.offset(), Some(0));
    assert_eq!(LocalTime::of_epoch_ms(capture.instant() * 1000), Some(utc));
    let ahead = Capture::from_entry(utc, Some(7200));
    assert_eq!(ahead.local(), at(2021, 6, 1, 12, 0, 0));
    assert_eq!(ahead.instant(), capture.instant());
}
