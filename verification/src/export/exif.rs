//! The metadata of a JPEG: how its segments hang together, the tags a stamp writes, and when and
//! where the file itself says it was taken.

use vstd::prelude::*;

use crate::calendar::{exif_text, number_in, push_two, tag_time, two_digits, LocalTime};
use crate::export::digest::{hex, hex_char};
use crate::export::exif_block::{
    bearable, cleared, encode_metadata, exif_encoded, exif_fault, exif_segment, exif_text_in, filled, fresh_metadata, is_bearable, is_readable,
    is_searchable, last_set, last_text, origin_of, ratios_filled, read_metadata, readable, reads_back, reads_over, room, searchable, set_bytes, set_long, set_ratios, set_short, set_text, tag_size, tags_in,
    text_tag, with_block, without_nulls, write_metadata, ReadTag, MAX_ENCODED,
};
use crate::export::model::{Attribution, LocationPoint};
use crate::order::items_copied;
use crate::text::{chars_of, integer_of, lemma_first_at_is, number_of, opt_view, parse_i32, split_first, split_first_text, string_of};

verus! {

// ---- segments ----

/// How the bytes of a file hang together as a JPEG.
#[derive(Debug, Clone, Copy, PartialEq, Eq, Structural)]
pub enum Structure {
    /// Its segments lead to the scan; and whether one of them holds Exif.
    Walkable { exif: bool },
    /// It does not open as a JPEG does.
    NoSignature,
    /// It opens as one, and its segments lead nowhere.
    Broken,
}

/// The bytes an Exif segment opens with.
pub open spec fn exif_header() -> Seq<u8> {
    seq![0x45u8, 0x78, 0x69, 0x66, 0, 0]
}

/// Where the marker stands, past any fill bytes.
pub open spec fn past_fill(bytes: Seq<u8>, at: int) -> int
    decreases bytes.len() - at,
{
    if 0 <= at && at + 1 < bytes.len() && bytes[at] == 0xff && bytes[at + 1] == 0xff {
        past_fill(bytes, at + 1)
    } else {
        at
    }
}

/// A marker with no segment behind it.
pub open spec fn stands_alone(marker: u8) -> bool {
    marker == 0x01 || 0xd0 <= marker <= 0xd7
}

/// The length a segment states, its own two bytes among it.
pub open spec fn stated_length(bytes: Seq<u8>, at: int) -> int {
    bytes[at] as int * 256 + bytes[at + 1] as int
}

pub open spec fn opens_exif(bytes: Seq<u8>, at: int) -> bool {
    at + 6 <= bytes.len() && bytes.subrange(at, at + 6) == exif_header()
}

/// What the segments from `at` on come to, where `exif` says whether one before held Exif.
pub open spec fn structure_from(bytes: Seq<u8>, at: int, exif: bool) -> Structure
    decreases bytes.len() - at,
    when 0 <= at
    via structure_decreases
{
    let here = past_fill(bytes, at);
    if here + 1 >= bytes.len() || bytes[here] != 0xff {
        Structure::Broken
    } else {
        let marker = bytes[here + 1];
        if marker == 0xda || marker == 0xd9 {
            Structure::Walkable { exif }
        } else if stands_alone(marker) {
            structure_from(bytes, here + 2, exif)
        } else if here + 4 > bytes.len() {
            Structure::Broken
        } else {
            let length = stated_length(bytes, here + 2);
            if length < 2 || bytes.len() < here + 2 + length {
                Structure::Broken
            } else {
                structure_from(bytes, here + 2 + length, exif || (marker == 0xe1 && opens_exif(bytes, here + 4)))
            }
        }
    }
}

#[via_fn]
proof fn structure_decreases(bytes: Seq<u8>, at: int, exif: bool) {
    lemma_past_fill(bytes, at);
}

proof fn lemma_past_fill(bytes: Seq<u8>, at: int)
    ensures
        past_fill(bytes, at) >= at,
        at < bytes.len() ==> past_fill(bytes, at) < bytes.len(),
    decreases bytes.len() - at,
{
    if 0 <= at && at + 1 < bytes.len() && bytes[at] == 0xff && bytes[at + 1] == 0xff {
        lemma_past_fill(bytes, at + 1);
    }
}

/// What a file's bytes come to.
pub open spec fn structure_of(bytes: Seq<u8>) -> Structure {
    if bytes.len() >= 2 && bytes[0] == 0xff && bytes[1] == 0xd8 {
        structure_from(bytes, 2, false)
    } else {
        Structure::NoSignature
    }
}

/// Walks a JPEG's segments up to the scan.
pub fn walk(bytes: &[u8]) -> (r: Structure)
    ensures
        r == structure_of(bytes@),
{
    let len: usize = bytes.len();
    if len < 2 || bytes[0] != 0xff || bytes[1] != 0xd8 {
        return Structure::NoSignature;
    }
    let mut exif = false;
    let mut at: usize = 2;
    loop
        invariant
            len == bytes@.len(),
            2 <= at <= len,
            structure_from(bytes@, at as int, exif) == structure_of(bytes@),
        decreases len - at,
    {
        let ghost start = at as int;
        while len - at > 1 && bytes[at] == 0xff && bytes[at + 1] == 0xff
            invariant
                len == bytes@.len(),
                2 <= start <= at <= len,
                past_fill(bytes@, at as int) == past_fill(bytes@, start),
            decreases len - at,
        {
            at += 1;
        }
        if len - at < 2 || bytes[at] != 0xff {
            return Structure::Broken;
        }
        let marker: u8 = bytes[at + 1];
        if marker == 0xda || marker == 0xd9 {
            return Structure::Walkable { exif };
        }
        if marker == 0x01 || (0xd0 <= marker && marker <= 0xd7) {
            at += 2;
            continue;
        }
        if len - at < 4 {
            return Structure::Broken;
        }
        let length: usize = bytes[at + 2] as usize * 256 + bytes[at + 3] as usize;
        if length < 2 || len - at - 2 < length {
            return Structure::Broken;
        }
        if marker == 0xe1 && is_exif(bytes, at + 4) {
            exif = true;
        }
        at += 2 + length;
    }
}

/// Whether the bytes at a place open an Exif block.
pub fn is_exif(bytes: &[u8], at: usize) -> (r: bool)
    requires
        at <= bytes@.len(),
    ensures
        r == opens_exif(bytes@, at as int),
{
    if bytes.len() - at < 6 {
        return false;
    }
    let r = bytes[at] == 0x45 && bytes[at + 1] == 0x78 && bytes[at + 2] == 0x69 && bytes[at + 3] == 0x66 && bytes[at + 4] == 0
        && bytes[at + 5] == 0;
    proof {
        let found = bytes@.subrange(at as int, at + 6);
        if r {
            assert(found =~= exif_header());
        } else {
            assert(found[0] == bytes@[at as int]);
            assert(found[1] == bytes@[at + 1]);
            assert(found[2] == bytes@[at + 2]);
            assert(found[3] == bytes@[at + 3]);
            assert(found[4] == bytes@[at + 4]);
            assert(found[5] == bytes@[at + 5]);
        }
    }
    r
}

/// Why bytes are no JPEG.
#[derive(Debug, PartialEq, Eq)]
pub enum NotJpeg {
    /// They open otherwise; these are the bytes they open with, two at most.
    Signature { found: Vec<u8> },
    /// They open as one, and the segments lead nowhere.
    Structure,
}

/// A file whose segments lead to its scan.
#[derive(PartialEq, Eq)]
pub struct Jpeg(Vec<u8>);

impl View for Jpeg {
    type V = Seq<u8>;

    closed spec fn view(&self) -> Seq<u8> {
        self.0@
    }
}

impl Jpeg {
    /// Takes bytes that are a JPEG.
    pub fn new(bytes: Vec<u8>) -> (r: Result<Self, NotJpeg>)
        ensures
            match r {
                Ok(jpeg) => jpeg@ == bytes@ && structure_of(bytes@) is Walkable,
                Err(NotJpeg::Signature { found }) => structure_of(bytes@) is NoSignature && found@ == (if bytes@.len() < 2 {
                    bytes@
                } else {
                    bytes@.take(2)
                }),
                Err(NotJpeg::Structure) => structure_of(bytes@) is Broken,
            },
    {
        match walk(&bytes) {
            Structure::Walkable { .. } => Ok(Jpeg(bytes)),
            Structure::NoSignature => {
                let mut found: Vec<u8> = Vec::new();
                if bytes.len() > 0 {
                    found.push(bytes[0]);
                }
                if bytes.len() > 1 {
                    found.push(bytes[1]);
                }
                assert(found@ =~= if bytes@.len() < 2 {
                    bytes@
                } else {
                    bytes@.take(2)
                });
                Err(NotJpeg::Signature { found })
            },
            Structure::Broken => Err(NotJpeg::Structure),
        }
    }

    #[must_use]
    pub fn as_bytes(&self) -> (r: &[u8])
        ensures
            r@ == self@,
    {
        self.0.as_slice()
    }
}

// ---- texts ----

/// How many bytes a character takes.
pub open spec fn char_size(c: char) -> nat {
    let n = c as u32;
    if n < 0x80 {
        1
    } else if n < 0x800 {
        2
    } else if n < 0x10000 {
        3
    } else {
        4
    }
}

/// How many bytes a text takes.
pub open spec fn text_size(s: Seq<char>) -> nat
    decreases s.len(),
{
    if s.len() == 0 {
        0
    } else {
        text_size(s.drop_last()) + char_size(s.last())
    }
}

/// The most bytes of a name a tag holds.
pub const MAX_TAG_TEXT: usize = 256;

/// Whether `kept` is the longest opening of a text that fits a tag.
pub open spec fn fits_tag(kept: Seq<char>, text: Seq<char>) -> bool {
    &&& kept.len() <= text.len()
    &&& kept == text.take(kept.len() as int)
    &&& text_size(kept) <= MAX_TAG_TEXT
    &&& kept.len() < text.len() ==> text_size(text.take(kept.len() as int + 1)) > MAX_TAG_TEXT
}

/// The longest opening of a text that fits a tag, cut between characters.
pub fn bounded(text: &str) -> (r: String)
    ensures
        fits_tag(r@, text@),
{
    let chars = chars_of(text);
    let mut i: usize = 0;
    let mut size: usize = 0;
    assert(text@.take(0) =~= Seq::empty());
    while i < chars.len()
        invariant
            chars@ == text@,
            i <= text@.len(),
            size == text_size(text@.take(i as int)),
            size <= MAX_TAG_TEXT,
        ensures
            i <= text@.len(),
            size == text_size(text@.take(i as int)),
            size <= MAX_TAG_TEXT,
            i < text@.len() ==> text_size(text@.take(i + 1)) > MAX_TAG_TEXT,
        decreases chars.len() - i,
    {
        let c: u32 = chars[i] as u32;
        let more: usize = if c < 0x80 {
            1
        } else if c < 0x800 {
            2
        } else if c < 0x10000 {
            3
        } else {
            4
        };
        proof {
            let now = text@.take(i + 1);
            assert(now.drop_last() =~= text@.take(i as int));
            assert(now.last() == text@[i as int]);
        }
        if size + more > MAX_TAG_TEXT {
            break;
        }
        size += more;
        i += 1;
    }
    let kept = string_of(&chars, 0, i);
    assert(kept@ =~= text@.take(i as int));
    kept
}

/// Only one opening of a text is the longest that fits.
pub proof fn law_a_cut_is_the_longest(a: Seq<char>, b: Seq<char>, text: Seq<char>)
    requires
        fits_tag(a, text),
        fits_tag(b, text),
    ensures
        a == b,
{
    if a.len() < b.len() {
        lemma_size_grows(text, a.len() as int + 1, b.len() as int);
    } else if b.len() < a.len() {
        lemma_size_grows(text, b.len() as int + 1, a.len() as int);
    }
}

proof fn lemma_size_grows(text: Seq<char>, low: int, high: int)
    requires
        0 <= low <= high <= text.len(),
    ensures
        text_size(text.take(low)) <= text_size(text.take(high)),
    decreases high - low,
{
    if low < high {
        lemma_size_grows(text, low, high - 1);
        assert(text.take(high).drop_last() =~= text.take(high - 1));
    }
}

// ---- offsets ----

/// `+02:00`: the sign, the hours and the minutes, any seconds dropped.
pub open spec fn offset_text(seconds: int) -> Seq<char> {
    let size = if seconds < 0 {
        -seconds
    } else {
        seconds
    };
    seq![
        if seconds < 0 {
            '-'
        } else {
            '+'
        },
    ] + two_digits(size / 60 / 60) + seq![':'] + two_digits(size / 60 % 60)
}

pub fn format_offset(seconds: i32) -> (r: String)
    requires
        -86400 < seconds < 86400,
    ensures
        r@ == offset_text(seconds as int),
{
    let size: u32 = if seconds < 0 {
        (0 - seconds) as u32
    } else {
        seconds as u32
    };
    let minutes: u32 = size / 60;
    let mut out = String::new();
    out.push(if seconds < 0 {
        '-'
    } else {
        '+'
    });
    push_two(&mut out, minutes / 60);
    out.push(':');
    push_two(&mut out, minutes % 60);
    assert(out@ =~= offset_text(seconds as int));
    out
}

pub open spec fn in_i32(n: int) -> bool {
    i32::MIN <= n <= i32::MAX
}

/// The offset a text spells: a sign, whole hours, a colon and whole minutes, less than a day.
pub open spec fn offset_of(text: Seq<char>) -> Option<int> {
    if text.len() == 0 || (text[0] != '+' && text[0] != '-') {
        None
    } else {
        match split_first(text.skip(1), ':') {
            None => None,
            Some((hours, minutes)) => match (integer_of(hours), integer_of(minutes)) {
                (Some(h), Some(m)) => if in_i32(h * 3600) && in_i32(m * 60) && -86400 < h * 3600 + m * 60 < 86400 {
                    Some(
                        if text[0] == '+' {
                            h * 3600 + m * 60
                        } else {
                            -(h * 3600 + m * 60)
                        },
                    )
                } else {
                    None
                },
                _ => None,
            },
        }
    }
}

pub fn parse_offset(text: &str) -> (r: Option<i32>)
    ensures
        match r {
            Some(seconds) => offset_of(text@) == Some(seconds as int) && -86400 < seconds < 86400,
            None => offset_of(text@) is None,
        },
{
    let chars = chars_of(text);
    if chars.len() == 0 || (chars[0] != '+' && chars[0] != '-') {
        return None;
    }
    let rest = string_of(&chars, 1, chars.len());
    assert(rest@ =~= text@.skip(1));
    let (hours, minutes) = match split_first_text(&rest, ':') {
        Some(cut) => cut,
        None => {
            return None;
        },
    };
    match (parse_i32(&hours), parse_i32(&minutes)) {
        (Some(h), Some(m)) => {
            let by_hours: i64 = h as i64 * 3600;
            let by_minutes: i64 = m as i64 * 60;
            if by_hours < -0x8000_0000 || by_hours > 0x7fff_ffff || by_minutes < -0x8000_0000 || by_minutes > 0x7fff_ffff {
                return None;
            }
            let seconds: i64 = by_hours + by_minutes;
            if seconds <= -86400 || seconds >= 86400 {
                None
            } else if chars[0] == '+' {
                Some(seconds as i32)
            } else {
                Some((0 - seconds) as i32)
            }
        },
        _ => None,
    }
}

proof fn lemma_two_digits_read(n: int)
    requires
        0 <= n < 100,
    ensures
        integer_of(two_digits(n)) == Some(n),
        forall|i: int| 0 <= i < 2 ==> #[trigger] two_digits(n)[i] != ':',
{
    let s = two_digits(n);
    let (tens, ones) = (n / 10, n % 10);
    assert(s[0] as u32 == 48 + tens);
    assert(s[1] as u32 == 48 + ones);
    assert(s.drop_last() =~= seq![s[0]]);
    assert(seq![s[0]].drop_last() =~= Seq::<char>::empty());
    reveal_with_fuel(number_of, 3);
    assert(number_of(seq![s[0]]) == tens);
    assert(number_of(s) == n);
}

/// An offset written and read back is itself, to the minute.
pub proof fn law_an_offset_is_read_back(seconds: int)
    requires
        -86400 < seconds < 86400,
    ensures
        offset_of(offset_text(seconds)) == Some(
            if seconds < 0 {
                -(-seconds / 60 * 60)
            } else {
                seconds / 60 * 60
            },
        ),
{
    let size = if seconds < 0 {
        -seconds
    } else {
        seconds
    };
    let (h, m) = (size / 60 / 60, size / 60 % 60);
    let text = offset_text(seconds);
    let rest = text.skip(1);
    lemma_two_digits_read(h);
    lemma_two_digits_read(m);
    assert(rest =~= two_digits(h) + seq![':'] + two_digits(m));
    assert(rest[0] == two_digits(h)[0] && rest[1] == two_digits(h)[1] && rest[2] == ':');
    lemma_first_at_is(rest, ':', 2);
    assert(rest.take(2) =~= two_digits(h));
    assert(rest.skip(3) =~= two_digits(m));
    assert(size == 60 * (size / 60) + size % 60);
    assert(size / 60 == 60 * h + m);
}

// ---- errors ----

/// Bytes in hexadecimal, a space between each.
pub open spec fn spaced_hex(bytes: Seq<u8>) -> Seq<char>
    decreases bytes.len(),
{
    if bytes.len() == 0 {
        Seq::empty()
    } else {
        let last = hex(seq![bytes.last()]);
        if bytes.len() == 1 {
            last
        } else {
            spaced_hex(bytes.drop_last()) + " "@ + last
        }
    }
}

fn hex_digit(n: u8) -> (r: char)
    requires
        n < 16,
    ensures
        r == hex_char(n as int),
{
    if n < 10 {
        (48 + n) as char
    } else {
        (87 + n) as char
    }
}

fn opening_text(found: &Vec<u8>) -> (r: String)
    ensures
        r@ == (if found@.len() == 0 {
            "nothing"@
        } else {
            spaced_hex(found@)
        }),
{
    if found.len() == 0 {
        return "nothing".to_owned();
    }
    let mut out = String::new();
    let mut i: usize = 0;
    assert(out@ =~= Seq::empty());
    assert(found@.take(0) =~= Seq::empty());
    while i < found.len()
        invariant
            i <= found@.len(),
            out@ == spaced_hex(found@.take(i as int)),
        decreases found.len() - i,
    {
        let byte: u8 = found[i];
        let ghost now = found@.take(i + 1);
        let ghost before = out@;
        if i > 0 {
            out.append(" ");
        }
        out.push(hex_digit(byte / 16));
        out.push(hex_digit(byte % 16));
        proof {
            assert(now.drop_last() =~= found@.take(i as int));
            assert(now.last() == byte);
            let last = hex(seq![byte]);
            assert(last =~= seq![hex_char(byte as int / 16), hex_char(byte as int % 16)]);
            if i > 0 {
                assert(out@ =~= before + " "@ + last);
            } else {
                assert(out@ =~= last);
            }
        }
        i += 1;
    }
    assert(found@.take(i as int) =~= found@);
    out
}

/// The words of a [`NotJpeg`].
pub open spec fn not_jpeg_words(e: NotJpeg) -> Seq<char> {
    match e {
        NotJpeg::Signature { found } => "not a jpeg: starts with "@ + (if found@.len() == 0 { "nothing"@ } else { spaced_hex(found@) }) + " rather than the ff d8 start-of-image marker; only jpeg output is stamped, so composite or transcode it first"@,
        NotJpeg::Structure => "not a usable jpeg: it opens with the start-of-image marker and its segment chain breaks before the scan does; the file is truncated or corrupt, so re-extract the export part holding it"@,
    }
}

impl NotJpeg {
    /// The sentence a reader is shown.
    #[must_use]
    pub fn message(&self) -> (r: String)
        ensures
            r@ == not_jpeg_words(*self),
    {
        match self {
            NotJpeg::Signature { found } => {
                let mut out = "not a jpeg: starts with ".to_owned();
                out.append(&opening_text(found));
                out.append(" rather than the ff d8 start-of-image marker; only jpeg output is stamped, so composite or transcode it first");
                out
            },
            NotJpeg::Structure => {
                "not a usable jpeg: it opens with the start-of-image marker and its segment chain breaks before the scan does; the file is truncated or corrupt, so re-extract the export part holding it".to_owned()
            },
        }
    }
}

/// Why a picture could not be stamped. A `path` is spelled as it is shown, and a `source` as the
/// failure below puts it.
#[derive(Debug, PartialEq, Eq)]
pub enum ExifError {
    Read { path: String, source: String },
    NotJpeg { path: String, source: NotJpeg },
    /// The metadata it carries cannot be read.
    Decode { source: String },
    Encode { source: String },
    Write { path: String, source: String },
}

/// The words of an [`ExifError`].
pub open spec fn exif_words(e: ExifError) -> Seq<char> {
    match e {
        ExifError::Read { path, source } => "could not read "@ + path@ + " to stamp it: "@ + source@,
        ExifError::NotJpeg { path, source } => path@ + ": "@ + not_jpeg_words(source),
        ExifError::Decode { source } => "the image carries metadata this build cannot read ("@ + source@ + "); it is left alone rather than replaced, since overwriting it would throw away what is there"@,
        ExifError::Encode { source } => "could not write the capture metadata into the image: "@ + source@,
        ExifError::Write { path, source } => "could not write "@ + path@ + ": "@ + source@ + "; check the output directory is writable and has room"@,
    }
}

impl ExifError {
    /// The sentence a reader is shown.
    #[must_use]
    pub fn message(&self) -> (r: String)
        ensures
            r@ == exif_words(*self),
    {
        match self {
            ExifError::Read { path, source } => {
                let mut out = "could not read ".to_owned();
                out.append(path);
                out.append(" to stamp it: ");
                out.append(source);
                out
            },
            ExifError::NotJpeg { path, source } => {
                let mut out = path.clone();
                out.append(": ");
                out.append(&source.message());
                out
            },
            ExifError::Decode { source } => {
                let mut out = "the image carries metadata this build cannot read (".to_owned();
                out.append(source);
                out.append("); it is left alone rather than replaced, since overwriting it would throw away what is there");
                out
            },
            ExifError::Encode { source } => {
                let mut out = "could not write the capture metadata into the image: ".to_owned();
                out.append(source);
                out
            },
            ExifError::Write { path, source } => {
                let mut out = "could not write ".to_owned();
                out.append(path);
                out.append(": ");
                out.append(source);
                out.append("; check the output directory is writable and has room");
                out
            },
        }
    }
}

// ---- tags ----

/// One whole number over another.
#[derive(Debug, Clone, Copy, PartialEq, Eq, Structural)]
pub struct Ratio {
    pub nominator: u32,
    pub denominator: u32,
}

#[derive(Debug, Clone, Copy, PartialEq, Eq, Structural)]
pub enum BytesTag {
    ExifVersion,
    ComponentsConfiguration,
    FlashpixVersion,
    GPSVersionID,
}

#[derive(Debug, Clone, Copy, PartialEq, Eq, Structural)]
pub enum ShortTag {
    ColorSpace,
    YCbCrPositioning,
    ResolutionUnit,
}

#[derive(Debug, Clone, Copy, PartialEq, Eq, Structural)]
pub enum LongTag {
    ExifImageWidth,
    ExifImageHeight,
}

#[derive(Debug, Clone, Copy, PartialEq, Eq, Structural)]
pub enum RatioTag {
    XResolution,
    YResolution,
    GPSLatitude,
    GPSLongitude,
}

#[derive(Debug, Clone, Copy, PartialEq, Eq, Structural)]
pub enum TextTag {
    DateTimeOriginal,
    CreateDate,
    ModifyDate,
    OffsetTime,
    OffsetTimeOriginal,
    OffsetTimeDigitized,
    GPSLatitudeRef,
    GPSLongitudeRef,
    Artist,
    ImageDescription,
}

/// A tag and the value it is set to.
#[derive(Debug, PartialEq, Eq)]
pub enum Tag {
    Bytes(BytesTag, Vec<u8>),
    Short(ShortTag, u16),
    Long(LongTag, u32),
    Ratios(RatioTag, Vec<Ratio>),
    Text(TextTag, String),
}

pub enum TagView {
    Bytes(BytesTag, Seq<u8>),
    Short(ShortTag, u16),
    Long(LongTag, u32),
    Ratios(RatioTag, Seq<Ratio>),
    Text(TextTag, Seq<char>),
}

impl View for Tag {
    type V = TagView;

    open spec fn view(&self) -> TagView {
        match *self {
            Tag::Bytes(tag, value) => TagView::Bytes(tag, value@),
            Tag::Short(tag, value) => TagView::Short(tag, value),
            Tag::Long(tag, value) => TagView::Long(tag, value),
            Tag::Ratios(tag, value) => TagView::Ratios(tag, value@),
            Tag::Text(tag, value) => TagView::Text(tag, value@),
        }
    }
}

pub open spec fn tag_views(tags: Seq<Tag>) -> Seq<TagView> {
    tags.map_values(|tag: Tag| tag@)
}

/// A place, and its two coordinates as whole degrees, minutes and parts of a second.
#[derive(Debug, PartialEq, Eq)]
pub struct Place {
    pub point: LocationPoint,
    pub latitude: Vec<Ratio>,
    pub longitude: Vec<Ratio>,
}

/// What is stamped into a picture.
#[derive(Debug, PartialEq, Eq)]
pub struct Stamp {
    pub local: LocalTime,
    pub offset: Option<i32>,
    pub location: Option<Place>,
    pub width: u32,
    pub height: u32,
    pub attribution: Option<Attribution>,
}

impl Stamp {
    pub open spec fn wf(self) -> bool {
        &&& self.local.held()
        &&& self.offset matches Some(seconds) ==> -86400 < seconds < 86400
        &&& self.location matches Some(place) ==> place.latitude@.len() == 3 && place.longitude@.len() == 3
    }
}

/// Whether a coordinate, told by its bits, lies below zero: its sign is set and it is neither zero
/// nor no number at all.
pub open spec fn is_negative(degrees: u64) -> bool {
    0x8000_0000_0000_0000 < degrees <= 0xfff0_0000_0000_0000
}

/// The letter of the half of the globe a coordinate lies in.
pub fn hemisphere(degrees: u64, positive: char, negative: char) -> (r: String)
    ensures
        r@ == seq![
            if is_negative(degrees) {
                negative
            } else {
                positive
            },
        ],
{
    let mut out = String::new();
    out.push(if 0x8000_0000_0000_0000 < degrees && degrees <= 0xfff0_0000_0000_0000 {
        negative
    } else {
        positive
    });
    assert(out@.len() == 1);
    out
}

/// The tags every stamp sets: what a conforming file declares of itself, and its size.
pub open spec fn plain_tags(width: u32, height: u32) -> Seq<TagView> {
    let inches = seq![Ratio { nominator: 72, denominator: 1 }];
    seq![
        TagView::Bytes(BytesTag::ExifVersion, seq![0x30u8, 0x32, 0x33, 0x32]),
        TagView::Bytes(BytesTag::ComponentsConfiguration, seq![1u8, 2, 3, 0]),
        TagView::Short(ShortTag::ColorSpace, 1),
        TagView::Long(LongTag::ExifImageWidth, width),
        TagView::Long(LongTag::ExifImageHeight, height),
        TagView::Short(ShortTag::YCbCrPositioning, 1),
        TagView::Ratios(RatioTag::XResolution, inches),
        TagView::Ratios(RatioTag::YResolution, inches),
        TagView::Short(ShortTag::ResolutionUnit, 2),
        TagView::Bytes(BytesTag::FlashpixVersion, seq![0x30u8, 0x31, 0x30, 0x30]),
        TagView::Bytes(BytesTag::GPSVersionID, seq![2u8, 3, 0, 0]),
    ]
}

pub open spec fn time_tags(local: LocalTime) -> Seq<TagView> {
    seq![
        TagView::Text(TextTag::DateTimeOriginal, exif_text(local)),
        TagView::Text(TextTag::CreateDate, exif_text(local)),
        TagView::Text(TextTag::ModifyDate, exif_text(local)),
    ]
}

pub open spec fn offset_tags(offset: Option<i32>) -> Seq<TagView> {
    match offset {
        Some(seconds) => seq![
            TagView::Text(TextTag::OffsetTime, offset_text(seconds as int)),
            TagView::Text(TextTag::OffsetTimeOriginal, offset_text(seconds as int)),
            TagView::Text(TextTag::OffsetTimeDigitized, offset_text(seconds as int)),
        ],
        None => seq![],
    }
}

pub open spec fn place_tags(location: Option<Place>) -> Seq<TagView> {
    match location {
        Some(place) => seq![
            TagView::Text(
                TextTag::GPSLatitudeRef,
                seq![
                    if is_negative(place.point.latitude) {
                        'S'
                    } else {
                        'N'
                    },
                ],
            ),
            TagView::Ratios(RatioTag::GPSLatitude, place.latitude@),
            TagView::Text(
                TextTag::GPSLongitudeRef,
                seq![
                    if is_negative(place.point.longitude) {
                        'W'
                    } else {
                        'E'
                    },
                ],
            ),
            TagView::Ratios(RatioTag::GPSLongitude, place.longitude@),
        ],
        None => seq![],
    }
}

/// The longest opening of a text that fits a tag.
pub open spec fn cut(text: Seq<char>) -> Seq<char> {
    choose|kept: Seq<char>| fits_tag(kept, text)
}

pub open spec fn sender_tags(attribution: Option<Attribution>) -> Seq<TagView> {
    match attribution {
        Some(attribution) => match attribution.sender {
            Some(sender) => seq![TagView::Text(TextTag::Artist, cut(sender.0@))],
            None => seq![],
        },
        None => seq![],
    }
}

pub open spec fn conversation_tags(attribution: Option<Attribution>) -> Seq<TagView> {
    match attribution {
        Some(attribution) => match attribution.conversation {
            Some(conversation) => seq![TagView::Text(TextTag::ImageDescription, cut(conversation.0@))],
            None => seq![],
        },
        None => seq![],
    }
}

/// Every tag a stamp sets, in turn.
pub open spec fn tags_of(stamp: Stamp) -> Seq<TagView> {
    plain_tags(stamp.width, stamp.height) + time_tags(stamp.local) + offset_tags(stamp.offset) + place_tags(stamp.location)
        + sender_tags(stamp.attribution) + conversation_tags(stamp.attribution)
}

proof fn lemma_tags_push(tags: Seq<Tag>, tag: Tag)
    ensures
        tag_views(tags.push(tag)) == tag_views(tags).push(tag@),
{
    assert(tag_views(tags.push(tag)) =~= tag_views(tags).push(tag@));
}

fn add_tag(tags: &mut Vec<Tag>, tag: Tag)
    ensures
        tag_views(final(tags)@) == tag_views(old(tags)@).push(tag@),
{
    proof {
        lemma_tags_push(tags@, tag);
    }
    tags.push(tag);
}

fn inches() -> (r: Vec<Ratio>)
    ensures
        r@ == seq![Ratio { nominator: 72, denominator: 1 }],
{
    let mut r: Vec<Ratio> = Vec::new();
    r.push(Ratio { nominator: 72, denominator: 1 });
    r
}

fn four(a: u8, b: u8, c: u8, d: u8) -> (r: Vec<u8>)
    ensures
        r@ == seq![a, b, c, d],
{
    let mut r: Vec<u8> = Vec::new();
    r.push(a);
    r.push(b);
    r.push(c);
    r.push(d);
    r
}

fn cut_text(text: &str) -> (r: String)
    ensures
        r@ == cut(text@),
{
    let r = bounded(text);
    proof {
        law_a_cut_is_the_longest(r@, cut(text@), text@);
    }
    r
}

/// Every tag a stamp sets, in turn.
pub fn stamp_tags(stamp: &Stamp) -> (r: Vec<Tag>)
    requires
        stamp.wf(),
    ensures
        tag_views(r@) == tags_of(*stamp),
{
    let mut tags: Vec<Tag> = Vec::new();
    assert(tag_views(tags@) =~= seq![]);
    add_tag(&mut tags, Tag::Bytes(BytesTag::ExifVersion, four(0x30, 0x32, 0x33, 0x32)));
    add_tag(&mut tags, Tag::Bytes(BytesTag::ComponentsConfiguration, four(1, 2, 3, 0)));
    add_tag(&mut tags, Tag::Short(ShortTag::ColorSpace, 1));
    add_tag(&mut tags, Tag::Long(LongTag::ExifImageWidth, stamp.width));
    add_tag(&mut tags, Tag::Long(LongTag::ExifImageHeight, stamp.height));
    add_tag(&mut tags, Tag::Short(ShortTag::YCbCrPositioning, 1));
    add_tag(&mut tags, Tag::Ratios(RatioTag::XResolution, inches()));
    add_tag(&mut tags, Tag::Ratios(RatioTag::YResolution, inches()));
    add_tag(&mut tags, Tag::Short(ShortTag::ResolutionUnit, 2));
    add_tag(&mut tags, Tag::Bytes(BytesTag::FlashpixVersion, four(0x30, 0x31, 0x30, 0x30)));
    add_tag(&mut tags, Tag::Bytes(BytesTag::GPSVersionID, four(2, 3, 0, 0)));
    assert(tag_views(tags@) =~= plain_tags(stamp.width, stamp.height));
    let ghost so_far = tag_views(tags@);
    add_tag(&mut tags, Tag::Text(TextTag::DateTimeOriginal, stamp.local.exif_text()));
    add_tag(&mut tags, Tag::Text(TextTag::CreateDate, stamp.local.exif_text()));
    add_tag(&mut tags, Tag::Text(TextTag::ModifyDate, stamp.local.exif_text()));
    assert(tag_views(tags@) =~= so_far + time_tags(stamp.local));
    let ghost so_far = tag_views(tags@);
    if let Some(offset) = stamp.offset {
        add_tag(&mut tags, Tag::Text(TextTag::OffsetTime, format_offset(offset)));
        add_tag(&mut tags, Tag::Text(TextTag::OffsetTimeOriginal, format_offset(offset)));
        add_tag(&mut tags, Tag::Text(TextTag::OffsetTimeDigitized, format_offset(offset)));
    }
    assert(tag_views(tags@) =~= so_far + offset_tags(stamp.offset));
    let ghost so_far = tag_views(tags@);
    if let Some(place) = &stamp.location {
        add_tag(&mut tags, Tag::Text(TextTag::GPSLatitudeRef, hemisphere(place.point.latitude, 'N', 'S')));
        add_tag(&mut tags, Tag::Ratios(RatioTag::GPSLatitude, items_copied(&place.latitude)));
        add_tag(&mut tags, Tag::Text(TextTag::GPSLongitudeRef, hemisphere(place.point.longitude, 'E', 'W')));
        add_tag(&mut tags, Tag::Ratios(RatioTag::GPSLongitude, items_copied(&place.longitude)));
    }
    assert(tag_views(tags@) =~= so_far + place_tags(stamp.location));
    let ghost so_far = tag_views(tags@);
    if let Some(attribution) = &stamp.attribution {
        if let Some(sender) = &attribution.sender {
            add_tag(&mut tags, Tag::Text(TextTag::Artist, cut_text(sender.as_str())));
        }
    }
    assert(tag_views(tags@) =~= so_far + sender_tags(stamp.attribution));
    let ghost so_far = tag_views(tags@);
    if let Some(attribution) = &stamp.attribution {
        if let Some(conversation) = &attribution.conversation {
            add_tag(&mut tags, Tag::Text(TextTag::ImageDescription, cut_text(conversation.as_str())));
        }
    }
    assert(tag_views(tags@) =~= so_far + conversation_tags(stamp.attribution));
    tags
}

// ---- reading and stamping ----

/// Whether bytes open as a JPEG does.
pub open spec fn opens_jpeg(bytes: Seq<u8>) -> bool {
    bytes.len() >= 2 && bytes[0] == 0xff && bytes[1] == 0xd8
}

/// The text of the first of some tags that a file's Exif has.
pub open spec fn first_text(bytes: Seq<u8>, tags: Seq<ReadTag>) -> Option<Seq<char>>
    decreases tags.len(),
{
    if tags.len() == 0 {
        None
    } else {
        match exif_text_in(bytes, tags[0]) {
            Some(text) => Some(text),
            None => first_text(bytes, tags.drop_first()),
        }
    }
}

/// The text of the first of some tags, where a file's Exif can be read.
pub open spec fn carried_text(bytes: Seq<u8>, tags: Seq<ReadTag>) -> Option<Seq<char>> {
    if readable(bytes) && exif_fault(bytes) is None {
        match first_text(bytes, tags) {
            Some(text) => Some(without_nulls(text)),
            None => None,
        }
    } else {
        None
    }
}

/// The tags that say when a picture was taken, the truest first.
pub open spec fn time_order() -> Seq<ReadTag> {
    seq![ReadTag::DateTimeOriginal, ReadTag::CreateDate, ReadTag::ModifyDate]
}

pub open spec fn offset_order() -> Seq<ReadTag> {
    seq![ReadTag::OffsetTimeOriginal, ReadTag::OffsetTime]
}

/// The bytes a stamp builds on: the file's own where it carries Exif.
pub open spec fn built_on(bytes: Seq<u8>) -> Option<Seq<u8>> {
    if structure_of(bytes) == (Structure::Walkable { exif: true }) {
        Some(bytes)
    } else {
        None
    }
}

/// What is said of metadata whose directories cannot be followed.
pub const UNREADABLE: &'static str = "its directories cannot be followed";

/// What is said of a file whose segments cannot be searched for the metadata to replace.
pub const UNSEARCHABLE: &'static str = "its segments cannot be searched to the end";

/// What is said of metadata whose length no segment can state.
pub const TOO_LONG: &'static str = "a segment cannot state its length";

/// What is said of metadata too large to be encoded again.
pub const TOO_LARGE: &'static str = "its directories hold too much to be written again";

/// Whether a tag has the same text in the Exif of two files.
pub open spec fn keeps(before: Seq<u8>, after: Seq<u8>, tag: ReadTag) -> bool {
    carried_text(after, seq![tag]) == carried_text(before, seq![tag])
}

/// Whether what is written for a stamp fits one segment.
pub open spec fn fits_segment(before: Seq<u8>, stamp: Stamp) -> bool {
    exif_encoded(built_on(before), tags_of(stamp)) matches Ok(encoded) && encoded.len() <= MAX_ENCODED
}

/// What stamping comes to: the tags are set over the ones there are and written back, or nothing
/// is changed.
pub open spec fn stamps(before: Seq<u8>, stamp: Stamp, after: Seq<u8>, r: Result<(), ExifError>) -> bool {
    let origin = built_on(before);
    if origin is Some && !readable(before) {
        after == before && (r matches Err(ExifError::Decode { source }) && source@ == UNREADABLE@)
    } else if origin is Some && exif_fault(before) is Some {
        after == before && (r matches Err(ExifError::Decode { source }) && exif_fault(before) == Some(source@))
    } else if origin is Some && !bearable(before) {
        after == before && (r matches Err(ExifError::Encode { source }) && source@ == TOO_LARGE@)
    } else {
        match exif_encoded(origin, tags_of(stamp)) {
            Err(error) => after == before && (r matches Err(ExifError::Encode { source }) && source@ == error),
            Ok(encoded) => if encoded.len() % 0x10000 > MAX_ENCODED {
                after == before && (r matches Err(ExifError::Encode { source }) && source@ == TOO_LONG@)
            } else if !searchable(before, 2) {
                after == before && (r matches Err(ExifError::Encode { source }) && source@ == UNSEARCHABLE@)
            } else {
                r is Ok && after == with_block(before, encoded)
            },
        }
    }
}

fn trimmed_of_nulls(text: &str) -> (r: String)
    ensures
        r@ == without_nulls(text@),
{
    let chars = chars_of(text);
    let mut to: usize = chars.len();
    assert(text@.take(to as int) =~= text@);
    while to > 0 && chars[to - 1] == '\0'
        invariant
            chars@ == text@,
            to <= text@.len(),
            without_nulls(text@.take(to as int)) == without_nulls(text@),
        decreases to,
    {
        assert(text@.take(to as int).drop_last() =~= text@.take(to - 1));
        to -= 1;
    }
    let kept = string_of(&chars, 0, to);
    assert(kept@ =~= text@.take(to as int));
    assert(to > 0 ==> kept@.last() == text@[to - 1]);
    kept
}

fn set_tags(metadata: &mut little_exif::metadata::Metadata, tags: Vec<Tag>)
    ensures
        origin_of(*final(metadata)) == origin_of(*old(metadata)),
        tags_in(*final(metadata)) == tags_in(*old(metadata)) + tag_views(tags@),
{
    let ghost all = tags@;
    let ghost before = tags_in(*metadata);
    let ghost origin = origin_of(*metadata);
    assert(before + tag_views(all.take(0)) =~= before);
    for tag in it: tags
        invariant
            it.seq() == all,
            origin_of(*metadata) == origin,
            tags_in(*metadata) == before + tag_views(all.take(it.index() as int)),
    {
        let ghost at = it.index() as int;
        proof {
            assert(all.take(at + 1) =~= all.take(at).push(tag));
            lemma_tags_push(all.take(at), tag);
            assert((before + tag_views(all.take(at))).push(tag@) =~= before + tag_views(all.take(at + 1)));
        }
        match tag {
            Tag::Bytes(tag, value) => set_bytes(metadata, tag, value),
            Tag::Short(tag, value) => set_short(metadata, tag, value),
            Tag::Long(tag, value) => set_long(metadata, tag, value),
            Tag::Ratios(tag, value) => set_ratios(metadata, tag, value),
            Tag::Text(tag, value) => set_text(metadata, tag, value),
        }
    }
    assert(all.take(all.len() as int) =~= all);
}

proof fn lemma_last_text_sum(a: Seq<TagView>, b: Seq<TagView>, wanted: TextTag)
    ensures
        last_text(a + b, wanted) == match last_text(b, wanted) {
            Some(text) => Some(text),
            None => last_text(a, wanted),
        },
    decreases b.len(),
{
    if b.len() == 0 {
        assert(a + b =~= a);
    } else {
        assert((a + b).drop_last() =~= a + b.drop_last());
        assert((a + b).last() == b.last());
        lemma_last_text_sum(a, b.drop_last(), wanted);
    }
}

/// The last text of a tag among few tags.
proof fn lemma_last_text_is(tags: Seq<TagView>, at: int, wanted: TextTag)
    requires
        0 <= at < tags.len(),
        tags[at] matches TagView::Text(tag, _) && tag == wanted,
        forall|i: int| at < i < tags.len() ==> !((#[trigger] tags[i]) matches TagView::Text(tag, _) && tag == wanted),
    ensures
        last_text(tags, wanted) == Some(tags[at]->Text_1),
    decreases tags.len(),
{
    if at + 1 < tags.len() {
        assert(tags.last() == tags[tags.len() - 1]);
        lemma_last_text_is(tags.drop_last(), at, wanted);
    }
}

proof fn lemma_no_last_text(tags: Seq<TagView>, wanted: TextTag)
    requires
        forall|i: int| 0 <= i < tags.len() ==> !((#[trigger] tags[i]) matches TagView::Text(tag, _) && tag == wanted),
    ensures
        last_text(tags, wanted) is None,
    decreases tags.len(),
{
    if tags.len() > 0 {
        assert(tags.last() == tags[tags.len() - 1]);
        assert forall|i: int| 0 <= i < tags.drop_last().len() implies !((#[trigger] tags.drop_last()[i]) matches TagView::Text(tag, _)
            && tag == wanted) by {
            assert(tags.drop_last()[i] == tags[i]);
        }
        lemma_no_last_text(tags.drop_last(), wanted);
    }
}

/// What a stamp sets the tags that are read back to, and that none of it ends in nulls.
proof fn lemma_stamp_texts(stamp: Stamp)
    requires
        stamp.wf(),
    ensures
        ratios_filled(tags_of(stamp)),
        last_text(tags_of(stamp), TextTag::DateTimeOriginal) == Some(exif_text(stamp.local)),
        without_nulls(exif_text(stamp.local)) == exif_text(stamp.local),
        forall|wanted: TextTag|
            wanted == TextTag::OffsetTime || wanted == TextTag::OffsetTimeOriginal ==> #[trigger] last_text(tags_of(stamp), wanted) == match stamp.offset {
                Some(seconds) => Some(offset_text(seconds as int)),
                None => None,
            },
        stamp.offset matches Some(seconds) ==> without_nulls(offset_text(seconds as int)) == offset_text(seconds as int),
        !(stamp.attribution matches Some(attribution) && attribution.sender is Some) ==> last_text(tags_of(stamp), TextTag::Artist) is None,
        !(stamp.attribution matches Some(attribution) && attribution.conversation is Some) ==> last_text(
            tags_of(stamp),
            TextTag::ImageDescription,
        ) is None,
{
    let plain = plain_tags(stamp.width, stamp.height);
    let time = time_tags(stamp.local);
    let offset = offset_tags(stamp.offset);
    let place = place_tags(stamp.location);
    let sender = sender_tags(stamp.attribution);
    let conversation = conversation_tags(stamp.attribution);
    assert forall|wanted: TextTag|
        wanted == TextTag::DateTimeOriginal || wanted == TextTag::OffsetTime || wanted == TextTag::OffsetTimeOriginal implies #[trigger] last_text(
        tags_of(stamp),
        wanted,
    ) == match last_text(offset, wanted) {
        Some(text) => Some(text),
        None => last_text(time, wanted),
    } by {
        lemma_last_text_sum(plain, time, wanted);
        lemma_last_text_sum(plain + time, offset, wanted);
        lemma_last_text_sum(plain + time + offset, place, wanted);
        lemma_last_text_sum(plain + time + offset + place, sender, wanted);
        lemma_last_text_sum(plain + time + offset + place + sender, conversation, wanted);
        lemma_no_last_text(plain, wanted);
        lemma_no_last_text(place, wanted);
        lemma_no_last_text(sender, wanted);
        lemma_no_last_text(conversation, wanted);
    }
    assert forall|wanted: TextTag| wanted == TextTag::Artist || wanted == TextTag::ImageDescription implies #[trigger] last_text(
        tags_of(stamp),
        wanted,
    ) == match last_text(conversation, wanted) {
        Some(text) => Some(text),
        None => last_text(sender, wanted),
    } by {
        lemma_last_text_sum(plain, time, wanted);
        lemma_last_text_sum(plain + time, offset, wanted);
        lemma_last_text_sum(plain + time + offset, place, wanted);
        lemma_last_text_sum(plain + time + offset + place, sender, wanted);
        lemma_last_text_sum(plain + time + offset + place + sender, conversation, wanted);
        lemma_no_last_text(plain, wanted);
        lemma_no_last_text(time, wanted);
        lemma_no_last_text(offset, wanted);
        lemma_no_last_text(place, wanted);
    }
    lemma_no_last_text(sender, TextTag::ImageDescription);
    lemma_no_last_text(conversation, TextTag::Artist);
    lemma_last_text_is(time, 0, TextTag::DateTimeOriginal);
    lemma_no_last_text(time, TextTag::OffsetTime);
    lemma_no_last_text(time, TextTag::OffsetTimeOriginal);
    lemma_no_last_text(offset, TextTag::DateTimeOriginal);
    match stamp.offset {
        Some(seconds) => {
            lemma_last_text_is(offset, 0, TextTag::OffsetTime);
            lemma_last_text_is(offset, 1, TextTag::OffsetTimeOriginal);
            let text = offset_text(seconds as int);
            assert(text.last() == two_digits(
                (if seconds < 0 {
                    -seconds
                } else {
                    seconds as int
                }) / 60 % 60,
            )[1]);
            assert(text.last() as u32 >= 48);
        },
        None => {
            lemma_no_last_text(offset, TextTag::OffsetTime);
            lemma_no_last_text(offset, TextTag::OffsetTimeOriginal);
        },
    }
    let text = exif_text(stamp.local);
    assert(text.last() == two_digits(stamp.local.second as int)[1]);
    assert(text.last() as u32 >= 48);
    assert forall|i: int| 0 <= i < tags_of(stamp).len() implies ((#[trigger] tags_of(stamp)[i]) matches TagView::Ratios(_, ratios)
        ==> ratios.len() > 0) by {
        lemma_filled_sum(plain, time);
        lemma_filled_sum(plain + time, offset);
        lemma_filled_sum(plain + time + offset, place);
        lemma_filled_sum(plain + time + offset + place, sender);
        lemma_filled_sum(plain + time + offset + place + sender, conversation);
    }
}

proof fn lemma_filled_sum(a: Seq<TagView>, b: Seq<TagView>)
    requires
        ratios_filled(a),
        ratios_filled(b),
    ensures
        ratios_filled(a + b),
{
    assert forall|i: int| 0 <= i < (a + b).len() implies ((#[trigger] (a + b)[i]) matches TagView::Ratios(_, ratios) ==> ratios.len() > 0) by {
        if i < a.len() {
            assert((a + b)[i] == a[i]);
        } else {
            assert((a + b)[i] == b[i - a.len()]);
        }
    }
}

/// Whether every tag's value is encoded in so many bytes at most.
pub open spec fn sizes_within(tags: Seq<TagView>, most: int) -> bool {
    forall|i: int| 0 <= i < tags.len() ==> tag_size(#[trigger] tags[i]) <= most
}

proof fn lemma_sizes_sum(a: Seq<TagView>, b: Seq<TagView>, most: int)
    requires
        sizes_within(a, most),
        sizes_within(b, most),
    ensures
        sizes_within(a + b, most),
{
    assert forall|i: int| 0 <= i < (a + b).len() implies tag_size(#[trigger] (a + b)[i]) <= most by {
        if i < a.len() {
            assert((a + b)[i] == a[i]);
        } else {
            assert((a + b)[i] == b[i - a.len()]);
        }
    }
}

proof fn lemma_room_within(tags: Seq<TagView>, most: int)
    requires
        sizes_within(tags, most),
    ensures
        room(tags) <= 128 + tags.len() * (20 + most),
    decreases tags.len(),
{
    if tags.len() > 0 {
        let fewer = tags.drop_last();
        assert forall|i: int| 0 <= i < fewer.len() implies tag_size(#[trigger] fewer[i]) <= most by {
            assert(fewer[i] == tags[i]);
        }
        lemma_room_within(fewer, most);
        assert(tag_size(tags[tags.len() - 1]) <= most);
        assert(tags.len() * (20 + most) == fewer.len() * (20 + most) + 20 + most) by (nonlinear_arith)
            requires
                tags.len() == fewer.len() + 1,
        ;
    }
}

proof fn lemma_text_size(text: Seq<char>)
    ensures
        text_size(text) <= 4 * text.len(),
    decreases text.len(),
{
    if text.len() > 0 {
        lemma_text_size(text.drop_last());
    }
}

/// What a stamp sets fits a segment by far.
proof fn lemma_stamp_room(stamp: Stamp)
    requires
        stamp.wf(),
    ensures
        room(tags_of(stamp)) <= MAX_ENCODED,
{
    let plain = plain_tags(stamp.width, stamp.height);
    let time = time_tags(stamp.local);
    let offset = offset_tags(stamp.offset);
    let place = place_tags(stamp.location);
    let sender = sender_tags(stamp.attribution);
    let conversation = conversation_tags(stamp.attribution);
    let most: int = 257;
    assert(exif_text(stamp.local).len() <= 22) by {
        reveal_with_fuel(crate::text::decimal, 7);
    }
    lemma_text_size(exif_text(stamp.local));
    match stamp.offset {
        Some(seconds) => lemma_text_size(offset_text(seconds as int)),
        None => {},
    }
    match stamp.location {
        Some(place) => {
            lemma_text_size(place_tags(stamp.location)[0]->Text_1);
            lemma_text_size(place_tags(stamp.location)[2]->Text_1);
        },
        None => {},
    }
    match stamp.attribution {
        Some(attribution) => {
            match attribution.sender {
                Some(sender) => lemma_cut_fits(sender.0@),
                None => {},
            }
            match attribution.conversation {
                Some(conversation) => lemma_cut_fits(conversation.0@),
                None => {},
            }
        },
        None => {},
    }
    assert(sizes_within(plain, most));
    assert(sizes_within(time, most));
    assert(sizes_within(offset, most));
    assert(sizes_within(place, most));
    assert(sizes_within(sender, most));
    assert(sizes_within(conversation, most));
    lemma_sizes_sum(plain, time, most);
    lemma_sizes_sum(plain + time, offset, most);
    lemma_sizes_sum(plain + time + offset, place, most);
    lemma_sizes_sum(plain + time + offset + place, sender, most);
    lemma_sizes_sum(plain + time + offset + place + sender, conversation, most);
    lemma_room_within(tags_of(stamp), most);
    assert(tags_of(stamp).len() <= 23);
}

/// A text has a longest opening that fits a tag.
proof fn lemma_cut_fits(text: Seq<char>)
    ensures
        fits_tag(cut(text), text),
{
    lemma_cut_exists(text, 0);
}

proof fn lemma_cut_exists(text: Seq<char>, taken: nat)
    requires
        taken <= text.len(),
        text_size(text.take(taken as int)) <= MAX_TAG_TEXT,
    ensures
        exists|kept: Seq<char>| fits_tag(kept, text),
    decreases text.len() - taken,
{
    let kept = text.take(taken as int);
    if taken < text.len() && text_size(text.take(taken as int + 1)) <= MAX_TAG_TEXT {
        lemma_cut_exists(text, taken + 1);
    } else {
        assert(fits_tag(kept, text));
    }
}

impl Jpeg {
    /// Whether the bytes open as a JPEG does.
    pub open spec fn wf(self) -> bool {
        opens_jpeg(self@)
    }

    fn carried(&self) -> (r: Option<little_exif::metadata::Metadata>)
        ensures
            match r {
                Some(metadata) => readable(self@) && exif_fault(self@) is None && origin_of(metadata) == Some(self@) && tags_in(metadata)
                    == Seq::<TagView>::empty(),
                None => !readable(self@) || exif_fault(self@) is Some,
            },
    {
        if !is_readable(&self.0) {
            return None;
        }
        match read_metadata(&self.0) {
            Ok(metadata) => Some(metadata),
            Err(_) => None,
        }
    }

    /// When the file itself says it was taken. Metadata that cannot be read says nothing.
    #[must_use]
    pub fn embedded_time(&self) -> (r: Option<LocalTime>)
        ensures
            match carried_text(self@, time_order()) {
                Some(text) => r == tag_time(text),
                None => r is None,
            },
            r matches Some(t) ==> t.held(),
            forall|t: LocalTime|
                t.held() && 0 <= t.year <= 9999 && carried_text(self@, time_order()) == Some(#[trigger] exif_text(t)) ==> r == Some(t),
    {
        let metadata = match self.carried() {
            Some(metadata) => metadata,
            None => {
                return None;
            },
        };
        proof {
            reveal_with_fuel(first_text, 4);
            assert(time_order().drop_first() =~= seq![ReadTag::CreateDate, ReadTag::ModifyDate]);
            assert(time_order().drop_first().drop_first() =~= seq![ReadTag::ModifyDate]);
        }
        let text = match text_tag(&metadata, ReadTag::DateTimeOriginal) {
            Some(text) => text,
            None => match text_tag(&metadata, ReadTag::CreateDate) {
                Some(text) => text,
                None => match text_tag(&metadata, ReadTag::ModifyDate) {
                    Some(text) => text,
                    None => {
                        return None;
                    },
                },
            },
        };
        LocalTime::of_tag(&trimmed_of_nulls(&text))
    }

    /// How far from UTC the file itself says its clock was, in seconds.
    #[must_use]
    pub fn embedded_offset(&self) -> (r: Option<i32>)
        ensures
            match carried_text(self@, offset_order()) {
                Some(text) => match r {
                    Some(seconds) => offset_of(text) == Some(seconds as int),
                    None => offset_of(text) is None,
                },
                None => r is None,
            },
            r matches Some(seconds) ==> -86400 < seconds < 86400,
    {
        let metadata = match self.carried() {
            Some(metadata) => metadata,
            None => {
                return None;
            },
        };
        proof {
            reveal_with_fuel(first_text, 3);
            assert(offset_order().drop_first() =~= seq![ReadTag::OffsetTime]);
        }
        let text = match text_tag(&metadata, ReadTag::OffsetTimeOriginal) {
            Some(text) => text,
            None => match text_tag(&metadata, ReadTag::OffsetTime) {
                Some(text) => text,
                None => {
                    return None;
                },
            },
        };
        parse_offset(&trimmed_of_nulls(&text))
    }

    /// What the file itself says in one of its tags of text. Metadata that cannot be read says
    /// nothing.
    #[must_use]
    pub fn embedded_text(&self, tag: ReadTag) -> (r: Option<String>)
        ensures
            opt_view(r) == carried_text(self@, seq![tag]),
    {
        proof {
            reveal_with_fuel(first_text, 2);
        }
        match self.carried() {
            Some(metadata) => match text_tag(&metadata, tag) {
                Some(text) => Some(trimmed_of_nulls(&text)),
                None => None,
            },
            None => None,
        }
    }

    /// Writes a stamp into the file's Exif, over the tags it carries. What is written is read back,
    /// and what the stamp does not state stays what the file stated: its maker always, its offset,
    /// its artist and its description where the stamp has none.
    pub fn stamp(&mut self, stamp: &Stamp) -> (r: Result<(), ExifError>)
        requires
            old(self).wf(),
            stamp.wf(),
        ensures
            final(self).wf(),
            stamps(old(self)@, *stamp, final(self)@, r),
            r is Ok && built_on(old(self)@) is None ==> fits_segment(old(self)@, *stamp),
            r is Ok && fits_segment(old(self)@, *stamp) && (built_on(old(self)@) is Some ==> filled(old(self)@)) ==> ({
                &&& match built_on(old(self)@) {
                    Some(origin) => reads_over(final(self)@, origin, tags_of(*stamp)),
                    None => reads_back(final(self)@, tags_of(*stamp)),
                }
                &&& carried_text(final(self)@, time_order()) == Some(exif_text(stamp.local))
                &&& carried_text(final(self)@, offset_order()) == match stamp.offset {
                    Some(seconds) => Some(offset_text(seconds as int)),
                    None => if built_on(old(self)@) is Some {
                        carried_text(old(self)@, offset_order())
                    } else {
                        None
                    },
                }
                &&& built_on(old(self)@) is Some ==> keeps(old(self)@, final(self)@, ReadTag::Make)
                &&& built_on(old(self)@) is Some && !(stamp.attribution matches Some(attribution) && attribution.sender is Some) ==> keeps(
                    old(self)@,
                    final(self)@,
                    ReadTag::Artist,
                )
                &&& built_on(old(self)@) is Some && !(stamp.attribution matches Some(attribution) && attribution.conversation is Some) ==> keeps(
                    old(self)@,
                    final(self)@,
                    ReadTag::ImageDescription,
                )
            }),
    {
        let ghost before = self@;
        let carries = match walk(&self.0) {
            Structure::Walkable { exif } => exif,
            _ => false,
        };
        let mut metadata = if carries {
            if !is_readable(&self.0) {
                return Err(ExifError::Decode { source: UNREADABLE.to_owned() });
            }
            let metadata = match read_metadata(&self.0) {
                Ok(metadata) => metadata,
                Err(source) => {
                    return Err(ExifError::Decode { source });
                },
            };
            if !is_bearable(&self.0) {
                return Err(ExifError::Encode { source: TOO_LARGE.to_owned() });
            }
            metadata
        } else {
            fresh_metadata()
        };
        set_tags(&mut metadata, stamp_tags(stamp));
        assert(tags_in(metadata) =~= tags_of(*stamp));
        proof {
            lemma_stamp_room(*stamp);
        }
        match encode_metadata(&metadata) {
            Ok(encoded) => {
                if encoded.len() % 0x10000 > MAX_ENCODED {
                    return Err(ExifError::Encode { source: TOO_LONG.to_owned() });
                }
            },
            Err(source) => {
                return Err(ExifError::Encode { source });
            },
        }
        if !is_searchable(&self.0) {
            return Err(ExifError::Encode { source: UNSEARCHABLE.to_owned() });
        }
        proof {
            lemma_stamp_texts(*stamp);
        }
        match write_metadata(&metadata, &mut self.0) {
            Ok(()) => {
                proof {
                    reveal_with_fuel(first_text, 3);
                    assert(offset_order().drop_first() =~= seq![ReadTag::OffsetTime]);
                    if built_on(before) is None {
                        assert(reads_back(self@, tags_of(*stamp)));
                        assert(exif_text_in(self@, ReadTag::DateTimeOriginal) is Some);
                        assert(exif_text_in(self@, ReadTag::OffsetTimeOriginal) is Some == stamp.offset is Some);
                        assert(exif_text_in(self@, ReadTag::OffsetTime) is Some == stamp.offset is Some);
                    } else if filled(before) && fits_segment(before, *stamp) {
                        assert(reads_over(self@, before, tags_of(*stamp)));
                        assert(exif_text_in(self@, ReadTag::DateTimeOriginal) is Some);
                        assert(stamp.offset is None ==> exif_text_in(self@, ReadTag::OffsetTimeOriginal) == exif_text_in(
                            before,
                            ReadTag::OffsetTimeOriginal,
                        ));
                        assert(stamp.offset is None ==> exif_text_in(self@, ReadTag::OffsetTime) == exif_text_in(before, ReadTag::OffsetTime));
                        assert forall|tag: ReadTag| last_set(tags_of(*stamp), tag) is None implies keeps(before, self@, tag) by {
                            assert(exif_text_in(self@, tag) == exif_text_in(before, tag));
                            assert(seq![tag].drop_first() =~= seq![]);
                        }
                    }
                }
                Ok(())
            },
            Err(source) => Err(ExifError::Encode { source }),
        }
    }
}

// ---- laws ----

proof fn lemma_fill_shifts(front: Seq<u8>, back: Seq<u8>, at: int)
    requires
        0 <= at,
    ensures
        past_fill(front + back, front.len() + at) == front.len() + past_fill(back, at),
    decreases back.len() - at,
{
    let all = front + back;
    if at + 1 < back.len() {
        assert(all[front.len() + at] == back[at] && all[front.len() + at + 1] == back[at + 1]);
        if back[at] == 0xff && back[at + 1] == 0xff {
            lemma_fill_shifts(front, back, at + 1);
        }
    }
}

/// Segments come to the same behind other bytes.
proof fn lemma_structure_shifts(front: Seq<u8>, back: Seq<u8>, at: int, exif: bool)
    requires
        0 <= at,
    ensures
        structure_from(front + back, front.len() + at, exif) == structure_from(back, at, exif),
    decreases back.len() - at,
{
    let all = front + back;
    let shift = front.len() as int;
    lemma_fill_shifts(front, back, at);
    lemma_past_fill(back, at);
    lemma_past_fill(all, shift + at);
    let here = past_fill(back, at);
    if here + 1 < back.len() {
        assert(all[shift + here] == back[here] && all[shift + here + 1] == back[here + 1]);
        if back[here] == 0xff {
            let marker = back[here + 1];
            if marker == 0xda || marker == 0xd9 {
            } else if stands_alone(marker) {
                lemma_structure_shifts(front, back, here + 2, exif);
            } else if here + 4 <= back.len() {
                assert(all[shift + here + 2] == back[here + 2] && all[shift + here + 3] == back[here + 3]);
                let length = stated_length(back, here + 2);
                if length >= 2 && here + 2 + length <= back.len() {
                    if here + 10 <= back.len() {
                        assert(all.subrange(shift + here + 4, shift + here + 10) =~= back.subrange(here + 4, here + 10));
                    }
                    lemma_structure_shifts(
                        front,
                        back,
                        here + 2 + length,
                        exif || (marker == 0xe1 && opens_exif(back, here + 4)),
                    );
                }
            }
        }
    }
}

proof fn lemma_exif_is_kept(bytes: Seq<u8>, at: int, exif: bool)
    requires
        0 <= at,
        structure_from(bytes, at, exif) is Walkable,
    ensures
        structure_from(bytes, at, true) == (Structure::Walkable { exif: true }),
    decreases bytes.len() - at,
{
    lemma_past_fill(bytes, at);
    let here = past_fill(bytes, at);
    let marker = bytes[here + 1];
    if marker == 0xda || marker == 0xd9 {
    } else if stands_alone(marker) {
        lemma_exif_is_kept(bytes, here + 2, exif);
    } else {
        let length = stated_length(bytes, here + 2);
        lemma_exif_is_kept(bytes, here + 2 + length, exif || (marker == 0xe1 && opens_exif(bytes, here + 4)));
    }
}

/// A picture whose segments lead to its scan, and hold no Exif to take out, still does once a block
/// is written into it, and carries Exif from then on.
pub proof fn law_a_stamped_file_carries_exif(bytes: Seq<u8>, encoded: Seq<u8>)
    requires
        structure_of(bytes) is Walkable,
        cleared(bytes, 2) == bytes.skip(2),
        encoded.len() <= MAX_ENCODED,
    ensures
        structure_of(with_block(bytes, encoded)) == (Structure::Walkable { exif: true }),
{
    let after = with_block(bytes, encoded);
    let segment = exif_segment(encoded);
    let front = bytes.take(2) + segment;
    let rest = bytes.skip(2);
    let length = encoded.len() as int + 8;
    assert(after =~= front + rest);
    assert(after[2] == segment[0] && after[3] == segment[1] && after[4] == segment[2] && after[5] == segment[3]);
    assert(stated_length(after, 4) == length);
    assert(past_fill(after, 2) == 2);
    assert(after.subrange(6, 12) =~= exif_header());
    assert(after[0] == bytes[0] && after[1] == bytes[1]);
    assert(front.len() == 4 + length);
    assert(structure_of(after) == structure_from(after, 4 + length, true));
    lemma_structure_shifts(front, rest, 0, true);
    assert(bytes =~= bytes.take(2) + rest);
    lemma_structure_shifts(bytes.take(2), rest, 0, false);
    lemma_exif_is_kept(rest, 0, false);
}

// ---- what a stamp says ----

/// Whether two tags are one, whatever they are set to.
pub open spec fn same_tag(a: TagView, b: TagView) -> bool {
    match (a, b) {
        (TagView::Bytes(x, _), TagView::Bytes(y, _)) => x == y,
        (TagView::Short(x, _), TagView::Short(y, _)) => x == y,
        (TagView::Long(x, _), TagView::Long(y, _)) => x == y,
        (TagView::Ratios(x, _), TagView::Ratios(y, _)) => x == y,
        (TagView::Text(x, _), TagView::Text(y, _)) => x == y,
        _ => false,
    }
}

/// Whether tags leave a tag as it is.
pub open spec fn leaves(tags: Seq<TagView>, one: TagView) -> bool {
    forall|i: int| 0 <= i < tags.len() ==> !same_tag(#[trigger] tags[i], one)
}

/// Whether tags set a tag to a value, and to no other.
pub open spec fn sets(tags: Seq<TagView>, one: TagView) -> bool {
    &&& exists|i: int| 0 <= i < tags.len() && #[trigger] tags[i] == one
    &&& forall|i: int| 0 <= i < tags.len() && same_tag(#[trigger] tags[i], one) ==> tags[i] == one
}

proof fn lemma_sets_sum(a: Seq<TagView>, b: Seq<TagView>, one: TagView)
    requires
        sets(a, one) || leaves(a, one),
        sets(b, one) || leaves(b, one),
    ensures
        sets(a, one) || sets(b, one) ==> sets(a + b, one),
        leaves(a, one) && leaves(b, one) ==> leaves(a + b, one),
{
    let all = a + b;
    assert forall|i: int| 0 <= i < all.len() && same_tag(#[trigger] all[i], one) implies all[i] == one && (sets(a, one) || sets(b, one)) by {
        if i < a.len() {
            assert(all[i] == a[i]);
        } else {
            assert(all[i] == b[i - a.len()]);
        }
    }
    if sets(a, one) {
        let i = choose|i: int| 0 <= i < a.len() && #[trigger] a[i] == one;
        assert(all[i] == one);
    }
    if sets(b, one) {
        let i = choose|i: int| 0 <= i < b.len() && #[trigger] b[i] == one;
        assert(all[a.len() + i] == one);
    }
}

/// What one part of a stamp's tags sets and the others leave, the stamp sets.
proof fn lemma_stamp_sets(stamp: Stamp, one: TagView)
    requires
        ({
            let plain = plain_tags(stamp.width, stamp.height);
            let (time, offset, place) = (time_tags(stamp.local), offset_tags(stamp.offset), place_tags(stamp.location));
            let (sender, conversation) = (sender_tags(stamp.attribution), conversation_tags(stamp.attribution));
            &&& sets(plain, one) || leaves(plain, one)
            &&& sets(time, one) || leaves(time, one)
            &&& sets(offset, one) || leaves(offset, one)
            &&& sets(place, one) || leaves(place, one)
            &&& sets(sender, one) || leaves(sender, one)
            &&& sets(conversation, one) || leaves(conversation, one)
        }),
    ensures
        sets(plain_tags(stamp.width, stamp.height), one) || sets(time_tags(stamp.local), one) || sets(offset_tags(stamp.offset), one)
            || sets(place_tags(stamp.location), one) || sets(sender_tags(stamp.attribution), one) || sets(
            conversation_tags(stamp.attribution),
            one,
        ) ==> sets(tags_of(stamp), one),
        leaves(plain_tags(stamp.width, stamp.height), one) && leaves(time_tags(stamp.local), one) && leaves(
            offset_tags(stamp.offset),
            one,
        ) && leaves(place_tags(stamp.location), one) && leaves(sender_tags(stamp.attribution), one) && leaves(
            conversation_tags(stamp.attribution),
            one,
        ) ==> leaves(tags_of(stamp), one),
{
    let plain = plain_tags(stamp.width, stamp.height);
    let (time, offset, place) = (time_tags(stamp.local), offset_tags(stamp.offset), place_tags(stamp.location));
    let (sender, conversation) = (sender_tags(stamp.attribution), conversation_tags(stamp.attribution));
    lemma_sets_sum(plain, time, one);
    lemma_sets_sum(plain + time, offset, one);
    lemma_sets_sum(plain + time + offset, place, one);
    lemma_sets_sum(plain + time + offset + place, sender, one);
    lemma_sets_sum(plain + time + offset + place + sender, conversation, one);
}

/// The bits of a coordinate without its sign.
pub open spec fn size_bits(degrees: u64) -> int {
    if degrees >= 0x8000_0000_0000_0000 {
        degrees - 0x8000_0000_0000_0000
    } else {
        degrees as int
    }
}

/// Whether a coordinate is a number below zero: its sign is set, and what is left of it without the
/// sign is neither zero nor past the largest there is.
pub open spec fn below_zero(degrees: u64) -> bool {
    degrees >= 0x8000_0000_0000_0000 && 0 < size_bits(degrees) <= 0x7ff0_0000_0000_0000
}

/// A stamp with a place says where it lies: south exactly where the latitude is below zero and north
/// everywhere else, west exactly where the longitude is and east everywhere else, each with its own
/// degrees. The letters and the coordinates without their signs give the coordinates back.
pub proof fn law_a_stamp_says_where(stamp: Stamp, place: Place)
    requires
        stamp.wf(),
        stamp.location == Some(place),
    ensures
        below_zero(place.point.latitude) ==> sets(tags_of(stamp), TagView::Text(TextTag::GPSLatitudeRef, seq!['S'])),
        !below_zero(place.point.latitude) ==> sets(tags_of(stamp), TagView::Text(TextTag::GPSLatitudeRef, seq!['N'])),
        below_zero(place.point.longitude) ==> sets(tags_of(stamp), TagView::Text(TextTag::GPSLongitudeRef, seq!['W'])),
        !below_zero(place.point.longitude) ==> sets(tags_of(stamp), TagView::Text(TextTag::GPSLongitudeRef, seq!['E'])),
        sets(tags_of(stamp), TagView::Ratios(RatioTag::GPSLatitude, place.latitude@)),
        sets(tags_of(stamp), TagView::Ratios(RatioTag::GPSLongitude, place.longitude@)),
        0 < size_bits(place.point.latitude) <= 0x7ff0_0000_0000_0000 ==> place.point.latitude == size_bits(place.point.latitude) + (if sets(
            tags_of(stamp),
            TagView::Text(TextTag::GPSLatitudeRef, seq!['S']),
        ) {
            0x8000_0000_0000_0000
        } else {
            0int
        }),
        0 < size_bits(place.point.longitude) <= 0x7ff0_0000_0000_0000 ==> place.point.longitude == size_bits(place.point.longitude) + (
        if sets(tags_of(stamp), TagView::Text(TextTag::GPSLongitudeRef, seq!['W'])) {
            0x8000_0000_0000_0000
        } else {
            0int
        }),
{
    let tags = place_tags(stamp.location);
    let north = tags[0]->Text_1;
    let east = tags[2]->Text_1;
    assert(tags[0] == TagView::Text(TextTag::GPSLatitudeRef, north));
    assert(tags[1] == TagView::Ratios(RatioTag::GPSLatitude, place.latitude@));
    assert(tags[2] == TagView::Text(TextTag::GPSLongitudeRef, east));
    assert(tags[3] == TagView::Ratios(RatioTag::GPSLongitude, place.longitude@));
    assert(sets(tags, tags[0]) && sets(tags, tags[1]) && sets(tags, tags[2]) && sets(tags, tags[3]));
    lemma_stamp_sets(stamp, tags[0]);
    lemma_stamp_sets(stamp, tags[1]);
    lemma_stamp_sets(stamp, tags[2]);
    lemma_stamp_sets(stamp, tags[3]);
    assert(below_zero(place.point.latitude) ==> north == seq!['S']);
    assert(!below_zero(place.point.latitude) ==> north == seq!['N']);
    assert(below_zero(place.point.longitude) ==> east == seq!['W']);
    assert(!below_zero(place.point.longitude) ==> east == seq!['E']);
    assert(seq!['S'][0] != seq!['N'][0] && seq!['W'][0] != seq!['E'][0]);
    lemma_sets_once(tags_of(stamp), TextTag::GPSLatitudeRef, seq!['S'], seq!['N']);
    lemma_sets_once(tags_of(stamp), TextTag::GPSLongitudeRef, seq!['W'], seq!['E']);
}

/// Tags do not set one tag to two texts.
proof fn lemma_sets_once(tags: Seq<TagView>, tag: TextTag, a: Seq<char>, b: Seq<char>)
    requires
        a != b,
    ensures
        !(sets(tags, TagView::Text(tag, a)) && sets(tags, TagView::Text(tag, b))),
{
    if sets(tags, TagView::Text(tag, a)) && sets(tags, TagView::Text(tag, b)) {
        let i = choose|i: int| 0 <= i < tags.len() && #[trigger] tags[i] == TagView::Text(tag, a);
        assert(same_tag(tags[i], TagView::Text(tag, b)));
    }
}

/// A stamp without a place says nothing of one.
pub proof fn law_a_stamp_without_a_place_says_none(stamp: Stamp, text: Seq<char>, ratios: Seq<Ratio>)
    requires
        stamp.wf(),
        stamp.location is None,
    ensures
        leaves(tags_of(stamp), TagView::Text(TextTag::GPSLatitudeRef, text)),
        leaves(tags_of(stamp), TagView::Text(TextTag::GPSLongitudeRef, text)),
        leaves(tags_of(stamp), TagView::Ratios(RatioTag::GPSLatitude, ratios)),
        leaves(tags_of(stamp), TagView::Ratios(RatioTag::GPSLongitude, ratios)),
{
    lemma_stamp_sets(stamp, TagView::Text(TextTag::GPSLatitudeRef, text));
    lemma_stamp_sets(stamp, TagView::Text(TextTag::GPSLongitudeRef, text));
    lemma_stamp_sets(stamp, TagView::Ratios(RatioTag::GPSLatitude, ratios));
    lemma_stamp_sets(stamp, TagView::Ratios(RatioTag::GPSLongitude, ratios));
}

/// A stamp says when: the wall time in all three of the tags that hold one, and its offset in all
/// three that go with them, or in none where it is not known.
pub proof fn law_a_stamp_says_when(stamp: Stamp)
    requires
        stamp.wf(),
    ensures
        sets(tags_of(stamp), TagView::Text(TextTag::DateTimeOriginal, exif_text(stamp.local))),
        sets(tags_of(stamp), TagView::Text(TextTag::CreateDate, exif_text(stamp.local))),
        sets(tags_of(stamp), TagView::Text(TextTag::ModifyDate, exif_text(stamp.local))),
        stamp.offset matches Some(seconds) ==> sets(tags_of(stamp), TagView::Text(TextTag::OffsetTime, offset_text(seconds as int)))
            && sets(tags_of(stamp), TagView::Text(TextTag::OffsetTimeOriginal, offset_text(seconds as int))) && sets(
            tags_of(stamp),
            TagView::Text(TextTag::OffsetTimeDigitized, offset_text(seconds as int)),
        ),
        stamp.offset is None ==> forall|text: Seq<char>|
            #[trigger] leaves(tags_of(stamp), TagView::Text(TextTag::OffsetTime, text)) && leaves(
                tags_of(stamp),
                TagView::Text(TextTag::OffsetTimeOriginal, text),
            ) && leaves(tags_of(stamp), TagView::Text(TextTag::OffsetTimeDigitized, text)),
{
    let time = time_tags(stamp.local);
    let offset = offset_tags(stamp.offset);
    assert(sets(time, time[0]) && sets(time, time[1]) && sets(time, time[2]));
    lemma_stamp_sets(stamp, time[0]);
    lemma_stamp_sets(stamp, time[1]);
    lemma_stamp_sets(stamp, time[2]);
    match stamp.offset {
        Some(_) => {
            assert(sets(offset, offset[0]) && sets(offset, offset[1]) && sets(offset, offset[2]));
            lemma_stamp_sets(stamp, offset[0]);
            lemma_stamp_sets(stamp, offset[1]);
            lemma_stamp_sets(stamp, offset[2]);
        },
        None => {
            assert forall|text: Seq<char>| #[trigger] leaves(tags_of(stamp), TagView::Text(TextTag::OffsetTime, text)) && leaves(
                tags_of(stamp),
                TagView::Text(TextTag::OffsetTimeOriginal, text),
            ) && leaves(tags_of(stamp), TagView::Text(TextTag::OffsetTimeDigitized, text)) by {
                lemma_stamp_sets(stamp, TagView::Text(TextTag::OffsetTime, text));
                lemma_stamp_sets(stamp, TagView::Text(TextTag::OffsetTimeOriginal, text));
                lemma_stamp_sets(stamp, TagView::Text(TextTag::OffsetTimeDigitized, text));
            }
        },
    }
}

/// A stamp says who and where it was sent: the sender as the artist, the conversation as the
/// description, each whole where it fits a tag and cut between characters where it does not, and
/// neither where it is not known.
pub proof fn law_a_stamp_says_who(stamp: Stamp)
    requires
        stamp.wf(),
    ensures
        match stamp.attribution {
            Some(attribution) => {
                &&& attribution.sender matches Some(sender) ==> exists|kept: Seq<char>|
                    fits_tag(kept, sender.0@) && #[trigger] sets(tags_of(stamp), TagView::Text(TextTag::Artist, kept))
                &&& attribution.conversation matches Some(conversation) ==> exists|kept: Seq<char>|
                    fits_tag(kept, conversation.0@) && #[trigger] sets(tags_of(stamp), TagView::Text(TextTag::ImageDescription, kept))
                &&& attribution.sender is None ==> forall|text: Seq<char>|
                    #[trigger] leaves(tags_of(stamp), TagView::Text(TextTag::Artist, text))
                &&& attribution.conversation is None ==> forall|text: Seq<char>|
                    #[trigger] leaves(tags_of(stamp), TagView::Text(TextTag::ImageDescription, text))
            },
            None => forall|text: Seq<char>|
                #[trigger] leaves(tags_of(stamp), TagView::Text(TextTag::Artist, text)) && leaves(
                    tags_of(stamp),
                    TagView::Text(TextTag::ImageDescription, text),
                ),
        },
{
    let sender = sender_tags(stamp.attribution);
    let conversation = conversation_tags(stamp.attribution);
    if sender.len() > 0 {
        let name = stamp.attribution.unwrap().sender.unwrap().0@;
        lemma_cut_fits(name);
        assert(fits_tag(cut(name), name));
        assert(sender[0] == TagView::Text(TextTag::Artist, cut(name)));
        assert(sets(sender, sender[0]));
        lemma_stamp_sets(stamp, sender[0]);
    } else {
        assert forall|text: Seq<char>| #[trigger] leaves(tags_of(stamp), TagView::Text(TextTag::Artist, text)) by {
            lemma_stamp_sets(stamp, TagView::Text(TextTag::Artist, text));
        }
    }
    if conversation.len() > 0 {
        let name = stamp.attribution.unwrap().conversation.unwrap().0@;
        lemma_cut_fits(name);
        assert(fits_tag(cut(name), name));
        assert(conversation[0] == TagView::Text(TextTag::ImageDescription, cut(name)));
        assert(sets(conversation, conversation[0]));
        lemma_stamp_sets(stamp, conversation[0]);
    } else {
        assert forall|text: Seq<char>| #[trigger] leaves(tags_of(stamp), TagView::Text(TextTag::ImageDescription, text)) by {
            lemma_stamp_sets(stamp, TagView::Text(TextTag::ImageDescription, text));
        }
    }
}

/// A name that fits a tag is kept whole.
pub proof fn law_a_name_that_fits_is_kept_whole(kept: Seq<char>, text: Seq<char>)
    requires
        fits_tag(kept, text),
        text_size(text) <= 256,
    ensures
        kept == text,
{
    if kept.len() < text.len() {
        lemma_size_grows(text, kept.len() as int + 1, text.len() as int);
    }
    assert(text.take(text.len() as int) =~= text);
}

/// A stamp says how large the picture is, and declares what a conforming file declares: Exif 2.32
/// in sRGB, the components in the order of luma and the two chromas, 72 dots to the inch both ways.
pub proof fn law_a_stamp_says_how_large(stamp: Stamp)
    requires
        stamp.wf(),
    ensures
        sets(tags_of(stamp), TagView::Long(LongTag::ExifImageWidth, stamp.width)),
        sets(tags_of(stamp), TagView::Long(LongTag::ExifImageHeight, stamp.height)),
        sets(tags_of(stamp), TagView::Bytes(BytesTag::ExifVersion, seq![0x30u8, 0x32, 0x33, 0x32])),
        sets(tags_of(stamp), TagView::Bytes(BytesTag::ComponentsConfiguration, seq![1u8, 2, 3, 0])),
        sets(tags_of(stamp), TagView::Bytes(BytesTag::FlashpixVersion, seq![0x30u8, 0x31, 0x30, 0x30])),
        sets(tags_of(stamp), TagView::Bytes(BytesTag::GPSVersionID, seq![2u8, 3, 0, 0])),
        sets(tags_of(stamp), TagView::Short(ShortTag::ColorSpace, 1)),
        sets(tags_of(stamp), TagView::Short(ShortTag::YCbCrPositioning, 1)),
        sets(tags_of(stamp), TagView::Short(ShortTag::ResolutionUnit, 2)),
        sets(tags_of(stamp), TagView::Ratios(RatioTag::XResolution, seq![Ratio { nominator: 72, denominator: 1 }])),
        sets(tags_of(stamp), TagView::Ratios(RatioTag::YResolution, seq![Ratio { nominator: 72, denominator: 1 }])),
{
    let plain = plain_tags(stamp.width, stamp.height);
    assert forall|k: int| 0 <= k < 11 implies sets(tags_of(stamp), #[trigger] plain[k]) by {
        assert(sets(plain, plain[k]));
        lemma_stamp_sets(stamp, plain[k]);
    }
    assert(plain[3] == TagView::Long(LongTag::ExifImageWidth, stamp.width));
    assert(plain[4] == TagView::Long(LongTag::ExifImageHeight, stamp.height));
    assert(plain[0] == TagView::Bytes(BytesTag::ExifVersion, seq![0x30u8, 0x32, 0x33, 0x32]));
    assert(plain[1] == TagView::Bytes(BytesTag::ComponentsConfiguration, seq![1u8, 2, 3, 0]));
    assert(plain[9] == TagView::Bytes(BytesTag::FlashpixVersion, seq![0x30u8, 0x31, 0x30, 0x30]));
    assert(plain[10] == TagView::Bytes(BytesTag::GPSVersionID, seq![2u8, 3, 0, 0]));
    assert(plain[2] == TagView::Short(ShortTag::ColorSpace, 1));
    assert(plain[5] == TagView::Short(ShortTag::YCbCrPositioning, 1));
    assert(plain[8] == TagView::Short(ShortTag::ResolutionUnit, 2));
    assert(plain[6] == TagView::Ratios(RatioTag::XResolution, seq![Ratio { nominator: 72, denominator: 1 }]));
    assert(plain[7] == TagView::Ratios(RatioTag::YResolution, seq![Ratio { nominator: 72, denominator: 1 }]));
}

/// An offset is spelled with its sign, then its hours and its minutes, any seconds dropped.
pub proof fn law_an_offset_spells_hours_and_minutes(seconds: int)
    requires
        -86400 < seconds < 86400,
    ensures
        ({
            let s = offset_text(seconds);
            &&& s.len() == 6
            &&& s[0] == (if seconds < 0 { '-' } else { '+' })
            &&& s[3] == ':'
            &&& number_in(s, 4) < 60
            &&& seconds >= 0 ==> seconds - 60 < 3600 * number_in(s, 1) + 60 * number_in(s, 4) <= seconds
            &&& seconds < 0 ==> -seconds - 60 < 3600 * number_in(s, 1) + 60 * number_in(s, 4) <= -seconds
        }),
{
    let size = if seconds < 0 { -seconds } else { seconds };
    let s = offset_text(seconds);
    let (h, m) = (size / 60 / 60, size / 60 % 60);
    assert(0 <= h < 24 && 0 <= m < 60);
    assert(s[1] == two_digits(h)[0] && s[2] == two_digits(h)[1]);
    assert(s[4] == two_digits(m)[0] && s[5] == two_digits(m)[1]);
    assert(number_in(s, 1) == h);
    assert(number_in(s, 4) == m);
    assert(size == 60 * (size / 60) + size % 60);
    assert(size / 60 == 60 * h + m);
}

/// The truest tag wins: the time a picture was taken comes before the time it was made a file and
/// the time it was last changed, and the offset of the first before any other.
pub proof fn law_the_truest_tag_wins(bytes: Seq<u8>)
    requires
        readable(bytes),
        exif_fault(bytes) is None,
    ensures
        match (
            exif_text_in(bytes, ReadTag::DateTimeOriginal),
            exif_text_in(bytes, ReadTag::CreateDate),
            exif_text_in(bytes, ReadTag::ModifyDate),
        ) {
            (Some(taken), _, _) => carried_text(bytes, time_order()) == Some(without_nulls(taken)),
            (None, Some(made), _) => carried_text(bytes, time_order()) == Some(without_nulls(made)),
            (None, None, Some(changed)) => carried_text(bytes, time_order()) == Some(without_nulls(changed)),
            (None, None, None) => carried_text(bytes, time_order()) is None,
        },
        match (exif_text_in(bytes, ReadTag::OffsetTimeOriginal), exif_text_in(bytes, ReadTag::OffsetTime)) {
            (Some(taken), _) => carried_text(bytes, offset_order()) == Some(without_nulls(taken)),
            (None, Some(other)) => carried_text(bytes, offset_order()) == Some(without_nulls(other)),
            (None, None) => carried_text(bytes, offset_order()) is None,
        },
{
    reveal_with_fuel(first_text, 4);
    assert(time_order().drop_first() =~= seq![ReadTag::CreateDate, ReadTag::ModifyDate]);
    assert(time_order().drop_first().drop_first() =~= seq![ReadTag::ModifyDate]);
    assert(offset_order().drop_first() =~= seq![ReadTag::OffsetTime]);
}

/// How segments are walked from a place: a marker's fill bytes are passed over; a marker that stands
/// alone is stepped over; any other segment is stepped over by the length it states, high byte
/// first, where that is there, and the walk knows from then on whether it held Exif. The walk ends
/// well at the scan or the end of the image, and nowhere else.
pub proof fn law_segments_are_walked_by_their_lengths(bytes: Seq<u8>, at: int, exif: bool)
    requires
        0 <= at,
        at + 1 < bytes.len(),
    ensures
        bytes[at] != 0xff ==> structure_from(bytes, at, exif) is Broken,
        bytes[at] == 0xff && bytes[at + 1] == 0xff ==> structure_from(bytes, at, exif) == structure_from(bytes, at + 1, exif),
        bytes[at] == 0xff && (bytes[at + 1] == 0xda || bytes[at + 1] == 0xd9) ==> structure_from(bytes, at, exif) == (
        Structure::Walkable { exif }),
        bytes[at] == 0xff && (bytes[at + 1] == 0x01 || 0xd0 <= bytes[at + 1] <= 0xd7) ==> structure_from(bytes, at, exif)
            == structure_from(bytes, at + 2, exif),
        bytes[at] == 0xff && holds_segment(bytes[at + 1]) && (at + 3 >= bytes.len() || bytes[at + 2] * 256 + bytes[at + 3] < 2 || at + 2
            + bytes[at + 2] * 256 + bytes[at + 3] > bytes.len()) ==> structure_from(bytes, at, exif) is Broken,
        bytes[at] == 0xff && holds_segment(bytes[at + 1]) && at + 3 < bytes.len() && 2 <= bytes[at + 2] * 256 + bytes[at + 3] && at + 2
            + bytes[at + 2] * 256 + bytes[at + 3] <= bytes.len() ==> structure_from(bytes, at, exif) == structure_from(
            bytes,
            at + 2 + bytes[at + 2] * 256 + bytes[at + 3],
            exif || (bytes[at + 1] == 0xe1 && at + 9 < bytes.len() && bytes[at + 4] == 0x45 && bytes[at + 5] == 0x78 && bytes[at + 6] == 0x69
                && bytes[at + 7] == 0x66 && bytes[at + 8] == 0 && bytes[at + 9] == 0),
        ),
{
    reveal_with_fuel(past_fill, 2);
    if bytes[at] == 0xff && bytes[at + 1] == 0xff {
        lemma_past_fill(bytes, at + 1);
        assert(past_fill(bytes, at) == past_fill(bytes, at + 1));
    } else {
        assert(past_fill(bytes, at) == at);
        if at + 10 <= bytes.len() {
            let opening = bytes.subrange(at + 4, at + 10);
            let header = exif_header();
            assert(opening =~= header <==> bytes[at + 4] == 0x45 && bytes[at + 5] == 0x78 && bytes[at + 6] == 0x69 && bytes[at + 7]
                == 0x66 && bytes[at + 8] == 0 && bytes[at + 9] == 0) by {
                assert(opening[0] == bytes[at + 4] && opening[1] == bytes[at + 5] && opening[2] == bytes[at + 6]);
                assert(opening[3] == bytes[at + 7] && opening[4] == bytes[at + 8] && opening[5] == bytes[at + 9]);
                if opening =~= header {
                    assert(opening[0] == header[0] && opening[1] == header[1] && opening[2] == header[2]);
                    assert(opening[3] == header[3] && opening[4] == header[4] && opening[5] == header[5]);
                }
            }
        }
    }
}

/// Whether a marker opens a segment that states a length.
pub open spec fn holds_segment(marker: u8) -> bool {
    marker != 0xff && marker != 0xda && marker != 0xd9 && marker != 0x01 && !(0xd0 <= marker <= 0xd7)
}

/// A file is a picture only where it opens with the marker of one; what follows decides the rest.
pub proof fn law_a_picture_opens_as_one(bytes: Seq<u8>)
    ensures
        structure_of(bytes) is NoSignature <==> bytes.len() < 2 || bytes[0] != 0xff || bytes[1] != 0xd8,
        !(structure_of(bytes) is NoSignature) ==> structure_of(bytes) == structure_from(bytes, 2, false),
{
    if bytes.len() >= 2 {
        lemma_walk_has_opened(bytes, 2, false);
    }
}

proof fn lemma_walk_has_opened(bytes: Seq<u8>, at: int, exif: bool)
    requires
        0 <= at,
    ensures
        !(structure_from(bytes, at, exif) is NoSignature),
    decreases bytes.len() - at,
{
    let here = past_fill(bytes, at);
    lemma_past_fill(bytes, at);
    if !(here + 1 >= bytes.len() || bytes[here] != 0xff) {
        let marker = bytes[here + 1];
        if marker == 0xda || marker == 0xd9 {
        } else if stands_alone(marker) {
            lemma_walk_has_opened(bytes, here + 2, exif);
        } else if here + 4 <= bytes.len() {
            let length = stated_length(bytes, here + 2);
            if length >= 2 && bytes.len() >= here + 2 + length {
                lemma_walk_has_opened(bytes, here + 2 + length, exif || (marker == 0xe1 && opens_exif(bytes, here + 4)));
            }
        }
    }
}

/// A stamp that fails leaves every byte of the picture as it was.
pub proof fn law_a_failed_stamp_changes_nothing(before: Seq<u8>, stamp: Stamp, after: Seq<u8>, r: Result<(), ExifError>)
    requires
        stamps(before, stamp, after, r),
        r is Err,
    ensures
        after == before,
        !(r matches Err(ExifError::Read { .. })) && !(r matches Err(ExifError::Write { .. })) && !(r matches Err(ExifError::NotJpeg { .. })),
{
}

} // verus!
