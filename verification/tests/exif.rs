use exportsnap::calendar::LocalTime;
use exportsnap::export::exif::{
    bounded, format_offset, hemisphere, parse_offset, walk, ExifError, Jpeg, NotJpeg, Place, Ratio, Stamp, Structure, MAX_TAG_TEXT, TOO_LARGE,
    UNREADABLE,
};
use exportsnap::export::exif_block::{is_bearable, is_readable, is_searchable, ReadTag};
use exportsnap::export::model::{Attribution, ConversationId, LocationPoint, Username};

fn exif(bytes: &[u8]) -> bool {
    matches!(walk(bytes), Structure::Walkable { exif: true })
}

fn without_exif() -> Vec<u8> {
    let mut bytes = vec![0xff, 0xd8, 0xff, 0xe0, 0x00, 0x10];
    bytes.extend(b"JFIF\0");
    bytes.extend([0x01, 0x02, 0x00, 0x00, 0x01, 0x00, 0x01, 0x00, 0x00]);
    bytes.extend([0xff, 0xda, 0x00, 0x02, 0xff, 0xd9]);
    bytes
}

fn with_exif() -> Vec<u8> {
    let mut bytes = vec![0xff, 0xd8, 0xff, 0xe1, 0x00, 0x0a];
    bytes.extend(b"Exif\0\0");
    bytes.extend([0x49, 0x49]);
    bytes.extend([0xff, 0xda, 0x00, 0x02, 0xff, 0xd9]);
    bytes
}

#[test]
fn an_app1_holding_exif_is_told_apart_from_one_that_is_absent() {
    assert!(exif(&with_exif()));
    assert!(!exif(&without_exif()));
    assert_eq!(walk(&without_exif()), Structure::Walkable { exif: false });
}

#[test]
fn an_app1_that_is_not_exif_does_not_count_as_one() {
    let mut bytes = vec![0xff, 0xd8, 0xff, 0xe1, 0x00, 0x1f];
    bytes.extend(b"http://ns.adobe.com/xap/1.0/\0");
    bytes.extend([0xff, 0xda, 0x00, 0x02, 0xff, 0xd9]);
    assert_eq!(walk(&bytes), Structure::Walkable { exif: false });
}

#[test]
fn an_exif_app1_standing_behind_another_segment_is_still_found() {
    let mut bytes = vec![0xff, 0xd8, 0xff, 0xe1, 0x00, 0x1f];
    bytes.extend(b"http://ns.adobe.com/xap/1.0/\0");
    bytes.extend([0xff, 0xe1, 0x00, 0x0a]);
    bytes.extend(b"Exif\0\0");
    bytes.extend([0x49, 0x49]);
    bytes.extend([0xff, 0xda, 0x00, 0x02, 0xff, 0xd9]);
    assert_eq!(walk(&bytes), Structure::Walkable { exif: true });
}

#[test]
fn the_scan_stops_at_the_start_of_scan_rather_than_walking_pixel_data() {
    let mut bytes = vec![0xff, 0xd8, 0xff, 0xda, 0x00, 0x02];
    bytes.extend([0xff, 0xe1, 0x00, 0x0a]);
    bytes.extend(b"Exif\0\0");
    assert_eq!(walk(&bytes), Structure::Walkable { exif: false });
}

#[test]
fn fill_bytes_before_a_marker_do_not_shift_which_segment_is_read() {
    let mut bytes = vec![0xff, 0xd8, 0xff, 0xff, 0xff, 0xe1, 0x00, 0x0a];
    bytes.extend(b"Exif\0\0");
    bytes.extend([0x49, 0x49]);
    bytes.extend([0xff, 0xda, 0x00, 0x02]);
    assert_eq!(walk(&bytes), Structure::Walkable { exif: true });
}

#[test]
fn a_chain_that_does_not_hold_together_is_broken_rather_than_walkable() {
    assert_eq!(walk(&[0xff, 0xd8, 0xff, 0xe0, 0xff, 0xff]), Structure::Broken);
    assert_eq!(walk(&[0xff, 0xd8, 0xff, 0xe1]), Structure::Broken);
    assert_eq!(walk(&[0xff, 0xd8, 0xff, 0xe0, 0x00, 0x01]), Structure::Broken);
    assert_eq!(walk(&[0xff, 0xd8]), Structure::Broken);
    assert_eq!(walk(&[]), Structure::NoSignature);
    assert_eq!(walk(b"\x89PNG\r\n\x1a\n"), Structure::NoSignature);
}

#[test]
fn an_offset_is_written_as_six_characters_whatever_it_holds() {
    assert_eq!(format_offset(2 * 3600), "+02:00");
    assert_eq!(format_offset(-(5 * 3600 + 1800)), "-05:30");
    assert_eq!(format_offset(0), "+00:00");
    assert_eq!(format_offset(3600 + 30), "+01:00");
}

#[test]
fn an_offset_round_trips_through_the_form_exif_spells_it_in() {
    assert_eq!(parse_offset("+02:00"), Some(7200));
    assert_eq!(parse_offset("-05:30"), Some(-19800));
    assert_eq!(parse_offset("+00:00"), Some(0));
    assert_eq!(parse_offset("02:00"), None, "the sign is not optional");
    assert_eq!(parse_offset(""), None);
}

fn taken() -> LocalTime {
    LocalTime { year: 2021, month: 1, day: 15, hour: 14, minute: 30, second: 5 }
}

fn plain(offset: Option<i32>) -> Stamp {
    Stamp { local: taken(), offset, location: None, width: 8, height: 6, attribution: None }
}

#[test]
fn what_is_stamped_into_a_bare_file_is_read_back() {
    let mut jpeg = Jpeg::new(without_exif()).ok().unwrap();
    assert_eq!(jpeg.embedded_time(), None);
    assert_eq!(jpeg.embedded_offset(), None);
    assert_eq!(jpeg.stamp(&plain(Some(-19800))), Ok(()));
    assert_eq!(jpeg.embedded_time(), Some(taken()));
    assert_eq!(jpeg.embedded_offset(), Some(-19800));
    assert!(exif(jpeg.as_bytes()));
    assert!(is_readable(&jpeg.as_bytes().to_vec()));
    assert!(jpeg.as_bytes().ends_with(&without_exif()[2..]), "what was there stands behind the new segment");
    assert_eq!(&jpeg.as_bytes()[..4], &[0xff, 0xd8, 0xff, 0xe1]);
}

#[test]
fn a_leap_second_is_stamped_and_read_back() {
    let mut jpeg = Jpeg::new(without_exif()).ok().unwrap();
    let leap = LocalTime { second: 60, ..taken() };
    assert_eq!(jpeg.stamp(&Stamp { local: leap, ..plain(None) }), Ok(()));
    assert_eq!(jpeg.embedded_time(), Some(leap));
}

#[test]
fn a_stamp_without_an_offset_leaves_none_to_read() {
    let mut jpeg = Jpeg::new(without_exif()).ok().unwrap();
    assert_eq!(jpeg.stamp(&plain(None)), Ok(()));
    assert_eq!(jpeg.embedded_time(), Some(taken()));
    assert_eq!(jpeg.embedded_offset(), None);
}

#[test]
fn a_second_stamp_builds_on_the_first() {
    let mut jpeg = Jpeg::new(without_exif()).ok().unwrap();
    assert_eq!(jpeg.stamp(&plain(Some(3600))), Ok(()));
    let later = LocalTime { second: 59, ..taken() };
    assert_eq!(jpeg.stamp(&Stamp { local: later, ..plain(None) }), Ok(()));
    assert_eq!(jpeg.embedded_time(), Some(later));
    assert_eq!(jpeg.embedded_offset(), Some(3600), "a tag the second stamp leaves alone stays");
    let blocks = jpeg.as_bytes().windows(6).filter(|window| *window == b"Exif\0\0").count();
    assert_eq!(blocks, 1, "the segment is replaced rather than added");
}

/// A file whose Exif, in the other byte order, names its maker and an older time.
fn foreign() -> Vec<u8> {
    let mut block = b"Exif\0\0MM\0\x2a\0\0\0\x08".to_vec();
    block.extend([0, 2]);
    block.extend([0x01, 0x0f, 0, 2, 0, 0, 0, 5, 0, 0, 0, 38]);
    block.extend([0x87, 0x69, 0, 4, 0, 0, 0, 1, 0, 0, 0, 44]);
    block.extend([0, 0, 0, 0]);
    block.extend(b"ACME\0\0");
    block.extend([0, 1]);
    block.extend([0x90, 0x03, 0, 2, 0, 0, 0, 20, 0, 0, 0, 62]);
    block.extend([0, 0, 0, 0]);
    block.extend(b"2001:02:03 04:05:06\0");
    let mut bytes = vec![0xff, 0xd8, 0xff, 0xe1, 0];
    bytes.push(u8::try_from(block.len() + 2).unwrap());
    bytes.extend(block);
    bytes.extend(&without_exif()[2..]);
    bytes
}

/// A file whose Exif holds one entry: a tag of its own directory, with the bytes it points at.
fn with_entry(tag: u16, format: u16, count: u32, values: &[u8]) -> Vec<u8> {
    let mut block = b"Exif\0\0MM\0\x2a\0\0\0\x08".to_vec();
    block.extend([0, 1]);
    block.extend([0x87, 0x69, 0, 4, 0, 0, 0, 1, 0, 0, 0, 26]);
    block.extend([0, 0, 0, 0]);
    block.extend([0, 1]);
    block.extend(tag.to_be_bytes());
    block.extend(format.to_be_bytes());
    block.extend(count.to_be_bytes());
    block.extend(44u32.to_be_bytes());
    block.extend([0, 0, 0, 0]);
    block.extend(values);
    let mut bytes = vec![0xff, 0xd8, 0xff, 0xe1];
    bytes.extend(u16::try_from(block.len() + 2).unwrap().to_be_bytes());
    bytes.extend(block);
    bytes.extend(&without_exif()[2..]);
    bytes
}

#[test]
fn a_ratio_is_read_unless_it_cannot_be_told() {
    let ratio = |upper: u32, lower: u32| [upper.to_be_bytes(), lower.to_be_bytes()].concat();
    for (upper, lower) in [(6_643_857, 1_000_000), (1, 4_000_000_000), (46_368, 28_657), (4_294_967_295, 65_537), (4_294_967_295, 4_294_967_291), (1_618_033, 1_000_000), (5, 0)] {
        let mut jpeg = Jpeg::new(with_entry(0x9201, 5, 1, &ratio(upper, lower))).ok().unwrap();
        assert!(is_readable(&jpeg.as_bytes().to_vec()), "{upper}/{lower}");
        assert_eq!(jpeg.stamp(&plain(None)), Ok(()), "{upper}/{lower}");
        assert_eq!(jpeg.embedded_time(), Some(taken()));
    }
    let golden = with_entry(0x9201, 5, 1, &ratio(2_971_215_073, 1_836_311_903));
    assert!(!is_readable(&golden));
    assert!(matches!(Jpeg::new(golden).ok().unwrap().stamp(&plain(None)), Err(ExifError::Decode { .. })));
}

#[test]
fn a_block_too_long_for_its_segment_states_what_is_left_over() {
    let notes = vec![7u8; 65_400];
    let before = with_entry(0x927c, 7, 65_400, &notes);
    let mut jpeg = Jpeg::new(before).ok().unwrap();
    assert_eq!(jpeg.stamp(&plain(Some(3600))), Ok(()));
    let bytes = jpeg.as_bytes();
    let block = bytes.len() - 12 - (without_exif().len() - 2);
    assert!(block > 65_535, "{block}");
    let stated = usize::from(bytes[4]) * 256 + usize::from(bytes[5]);
    assert_eq!(stated, block % 65_536 + 8);
    assert!(bytes.windows(19).any(|window| window == b"2021:01:15 14:30:05"));
}

#[test]
fn a_coordinate_of_zero_lies_north_and_east() {
    assert_eq!(hemisphere((-0.0f64).to_bits(), 'N', 'S'), "N");
    assert_eq!(hemisphere(0.0f64.to_bits(), 'E', 'W'), "E");
    assert_eq!(hemisphere((-0.5f64).to_bits(), 'N', 'S'), "S");
    assert_eq!(hemisphere(f64::MIN_POSITIVE.to_bits(), 'N', 'S'), "N");
    assert_eq!(hemisphere((-f64::MIN_POSITIVE).to_bits(), 'N', 'S'), "S");
}

#[test]
fn a_stamp_is_set_over_what_another_program_wrote() {
    let mut jpeg = Jpeg::new(foreign()).ok().unwrap();
    assert!(exif(jpeg.as_bytes()));
    assert_eq!(jpeg.embedded_time(), Some(LocalTime { year: 2001, month: 2, day: 3, hour: 4, minute: 5, second: 6 }));
    assert_eq!(jpeg.stamp(&plain(Some(3600))), Ok(()));
    assert_eq!(jpeg.embedded_time(), Some(taken()));
    assert_eq!(jpeg.embedded_offset(), Some(3600));
    assert!(jpeg.as_bytes().windows(5).any(|window| window == b"ACME\0"), "the maker is kept");
    assert!(!jpeg.as_bytes().windows(10).any(|window| window == b"2001:02:03"), "the older time is gone");
}

#[test]
fn what_a_stamp_does_not_state_stays_what_the_file_stated() {
    let mut jpeg = Jpeg::new(foreign()).ok().unwrap();
    let named = |sender: &str, conversation: Option<&str>| Stamp {
        attribution: Some(Attribution { sender: Some(Username::new(sender)), conversation: conversation.map(ConversationId::new) }),
        ..plain(None)
    };
    let said = |jpeg: &Jpeg, tag| jpeg.embedded_text(tag);
    assert_eq!(said(&jpeg, ReadTag::Make).as_deref(), Some("ACME"));
    assert_eq!(said(&jpeg, ReadTag::Artist), None);
    assert_eq!(jpeg.stamp(&named("first", Some("thread"))), Ok(()));
    assert_eq!(jpeg.stamp(&plain(None)), Ok(()));
    assert_eq!(said(&jpeg, ReadTag::Artist).as_deref(), Some("first"));
    assert_eq!(said(&jpeg, ReadTag::ImageDescription).as_deref(), Some("thread"));
    assert_eq!(jpeg.stamp(&named("second", None)), Ok(()));
    assert_eq!(said(&jpeg, ReadTag::Artist).as_deref(), Some("second"));
    assert_eq!(said(&jpeg, ReadTag::ImageDescription).as_deref(), Some("thread"));
    assert_eq!(said(&jpeg, ReadTag::Make).as_deref(), Some("ACME"));
    assert_eq!(said(&jpeg, ReadTag::OffsetTime), None);
    assert_eq!(said(&jpeg, ReadTag::CreateDate).as_deref(), Some("2021:01:15 14:30:05"));
}

#[test]
fn directories_that_share_their_values_over_and_over_are_read_and_not_written() {
    let shared = |entries: u8| {
        let mut block = vec![0x49, 0x49, 0x2a, 0, 8, 0, 0, 0, entries, 0];
        for _ in 0..entries {
            block.extend([0x11, 0x01, 4, 0, 0x10, 0x27, 0, 0, 0, 1, 0, 0]);
        }
        block.extend([0, 0, 0, 0]);
        block.resize(256 + 40_000, 0);
        around(&block)
    };
    assert!(is_readable(&shared(1)) && is_bearable(&shared(1)));
    let mut jpeg = Jpeg::new(shared(1)).ok().unwrap();
    assert_eq!(jpeg.stamp(&plain(None)), Ok(()));
    assert_eq!(jpeg.embedded_time(), Some(taken()));
    assert!(is_readable(&shared(7)) && !is_bearable(&shared(7)));
    let mut jpeg = Jpeg::new(shared(7)).ok().unwrap();
    assert_eq!(jpeg.embedded_text(ReadTag::Make), None);
    assert_eq!(jpeg.stamp(&plain(None)), Err(ExifError::Encode { source: TOO_LARGE.to_owned() }));
    assert_eq!(jpeg.as_bytes(), shared(7));
}

#[test]
fn every_tag_of_a_full_stamp_reaches_the_file() {
    let mut jpeg = Jpeg::new(without_exif()).ok().unwrap();
    let ratio = |nominator, denominator| Ratio { nominator, denominator };
    let stamp = Stamp {
        location: Some(Place {
            point: LocationPoint { latitude: 48.858_844f64.to_bits(), longitude: (-2.25f64).to_bits() },
            latitude: vec![ratio(48, 1), ratio(51, 1), ratio(318_384, 10_000)],
            longitude: vec![ratio(2, 1), ratio(15, 1), ratio(0, 10_000)],
        }),
        attribution: Some(Attribution {
            sender: Some(Username::new("a-sender")),
            conversation: Some(ConversationId::new("a-conversation")),
        }),
        ..plain(Some(0))
    };
    assert_eq!(jpeg.stamp(&stamp), Ok(()));
    let bytes = jpeg.as_bytes();
    for text in ["a-sender", "a-conversation", "2021:01:15 14:30:05", "+00:00", "0232", "0100"] {
        assert!(bytes.windows(text.len()).any(|window| window == text.as_bytes()), "{text}");
    }
    let seconds = [318_384u32.to_le_bytes(), 10_000u32.to_le_bytes()].concat();
    assert!(bytes.windows(8).any(|window| window == seconds), "the parts of a second");
    let width = [0x02, 0xa0, 0x04, 0x00, 0x01, 0x00, 0x00, 0x00, 0x08, 0x00, 0x00, 0x00];
    assert!(bytes.windows(12).any(|window| window == width), "the width");
    let unit = [0x28, 0x01, 0x03, 0x00, 0x01, 0x00, 0x00, 0x00, 0x02, 0x00];
    assert!(bytes.windows(10).any(|window| window == unit), "the resolution unit");
}

#[test]
fn metadata_that_cannot_be_followed_is_left_alone() {
    let mut jpeg = Jpeg::new(with_exif()).ok().unwrap();
    assert_eq!(jpeg.embedded_time(), None);
    let refused = jpeg.stamp(&plain(None));
    assert_eq!(refused, Err(ExifError::Decode { source: UNREADABLE.to_owned() }));
    assert_eq!(jpeg.as_bytes(), with_exif());
    assert!(refused.unwrap_err().message().contains("it is left alone rather than replaced"));
}

fn around(block: &[u8]) -> Vec<u8> {
    let length = (block.len() + 8) as u16;
    let mut bytes = vec![0xff, 0xd8, 0xff, 0xe1];
    bytes.extend(length.to_be_bytes());
    bytes.extend(b"Exif\0\0");
    bytes.extend(block);
    bytes.extend([0xff, 0xda, 0x00, 0x02, 0xff, 0xd9]);
    bytes
}

#[test]
fn directories_that_lead_back_to_themselves_are_not_read() {
    let once = [0x49, 0x49, 0x2a, 0, 8, 0, 0, 0, 0, 0, 0, 0, 0, 0];
    assert!(is_readable(&around(&once)));
    let looped = [0x49, 0x49, 0x2a, 0, 8, 0, 0, 0, 0, 0, 8, 0, 0, 0];
    assert!(!is_readable(&around(&looped)));
    assert!(!is_readable(&around(&[0x4d, 0x4d, 0x2a, 0, 8, 0, 0, 0])), "the mark is in the other order");
}

#[test]
fn a_directory_named_twice_is_not_read() {
    let entry = [0x69, 0x87, 4, 0, 1, 0, 0, 0, 38, 0, 0, 0];
    let mut block = vec![0x49, 0x49, 0x2a, 0, 8, 0, 0, 0, 2, 0];
    block.extend(entry);
    block.extend(entry);
    block.extend([0, 0, 0, 0]);
    block.extend([0, 0, 0, 0, 0, 0]);
    assert!(!is_readable(&around(&block)));
}

#[test]
fn a_segment_shorter_than_its_own_length_stops_the_search() {
    let mut bytes = vec![0xff, 0xd8, 0xff, 0xda, 0x00, 0x02, 0x12, 0xff, 0xfe, 0x00, 0x01];
    assert_eq!(walk(&bytes), Structure::Walkable { exif: false });
    assert!(!is_searchable(&bytes));
    let mut jpeg = Jpeg::new(bytes.clone()).ok().unwrap();
    assert!(matches!(jpeg.stamp(&plain(None)), Err(ExifError::Encode { .. })));
    assert_eq!(jpeg.as_bytes(), bytes);
    bytes[10] = 0x02;
    assert!(is_searchable(&bytes));
}

#[test]
fn bytes_that_are_no_jpeg_are_told_why() {
    match Jpeg::new(b"\x89PNG".to_vec()) {
        Err(NotJpeg::Signature { found }) => assert_eq!(found, vec![0x89, 0x50]),
        _ => panic!("a png is no jpeg"),
    }
    let said = NotJpeg::Signature { found: vec![0x89, 0x50] }.message();
    assert!(said.starts_with("not a jpeg: starts with 89 50 rather than"), "{said}");
    assert!(NotJpeg::Signature { found: Vec::new() }.message().contains("starts with nothing"));
    assert!(matches!(Jpeg::new(vec![0xff, 0xd8]), Err(NotJpeg::Structure)));
    assert!(NotJpeg::Structure.message().contains("segment chain breaks"));
}

#[test]
fn every_failure_says_what_it_is_about() {
    let path = || "/x.jpg".to_owned();
    let source = || "why".to_owned();
    assert_eq!(ExifError::Read { path: path(), source: source() }.message(), "could not read /x.jpg to stamp it: why");
    assert!(ExifError::NotJpeg { path: path(), source: NotJpeg::Structure }.message().starts_with("/x.jpg: not a usable jpeg"));
    assert_eq!(ExifError::Encode { source: source() }.message(), "could not write the capture metadata into the image: why");
    assert!(ExifError::Write { path: path(), source: source() }.message().starts_with("could not write /x.jpg: why"));
}

#[test]
fn a_name_is_cut_between_characters() {
    let long = "é".repeat(200);
    let kept = bounded(&long);
    assert_eq!(kept.len(), MAX_TAG_TEXT);
    assert_eq!(kept, "é".repeat(128));
    let odd = format!("a{long}");
    assert_eq!(bounded(&odd).len(), 255);
    assert_eq!(bounded("short"), "short");
}
