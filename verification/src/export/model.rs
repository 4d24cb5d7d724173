//! The records an export is made of, as plain values.

use vstd::prelude::*;

use crate::calendar::{four_digits, push_four, push_two, two_digits, unix_seconds, LocalTime, lemma_unix_injective};
use crate::order::{lemma_text_le_total, lemma_text_le_transitive, text_le, text_not_after, Ranked};
use crate::paths::FilePath;
use crate::text::{chars_of, digit, digit_char, is_digit};

verus! {

// ---- names ----

/// The key the export files a conversation under.
#[derive(Debug, PartialEq, Eq)]
pub struct ConversationId(pub String);

impl ConversationId {
    pub fn new(raw: &str) -> (r: Self)
        ensures
            r.0@ == raw@,
    {
        ConversationId(raw.to_owned())
    }

    pub fn as_str(&self) -> (r: &str)
        ensures
            r@ == self.0@,
    {
        self.0.as_str()
    }
}

impl Clone for ConversationId {
    fn clone(&self) -> (r: Self)
        ensures
            r == *self,
    {
        ConversationId(self.0.clone())
    }
}

impl Ranked for ConversationId {
    open spec fn le(self, other: Self) -> bool {
        text_le(self.0@, other.0@)
    }

    proof fn total(a: Self, b: Self) {
        lemma_text_le_total(a.0@, b.0@);
    }

    proof fn transitive(a: Self, b: Self, c: Self) {
        lemma_text_le_transitive(a.0@, b.0@, c.0@);
    }

    fn not_after(&self, other: &Self) -> (r: bool) {
        text_not_after(&self.0, &other.0)
    }
}

/// The account name a record was sent from.
#[derive(Debug, PartialEq, Eq)]
pub struct Username(pub String);

impl Username {
    pub fn new(raw: &str) -> (r: Self)
        ensures
            r.0@ == raw@,
    {
        Username(raw.to_owned())
    }

    pub fn as_str(&self) -> (r: &str)
        ensures
            r@ == self.0@,
    {
        self.0.as_str()
    }
}

impl Clone for Username {
    fn clone(&self) -> (r: Self)
        ensures
            r == *self,
    {
        Username(self.0.clone())
    }
}

/// The text of a message.
#[derive(Debug, PartialEq, Eq)]
pub struct MessageText(pub String);

impl Clone for MessageText {
    fn clone(&self) -> (r: Self)
        ensures
            r == *self,
    {
        MessageText(self.0.clone())
    }
}

/// A signed download url. It is a secret, so it has no debug spelling.
#[derive(PartialEq, Eq)]
pub struct DownloadUrl(pub String);

impl DownloadUrl {
    pub fn new(raw: String) -> (r: Self)
        ensures
            r.0 == raw,
    {
        DownloadUrl(raw)
    }

    /// The url itself, for the column that stores it.
    pub fn expose(&self) -> (r: &String)
        ensures
            *r == self.0,
    {
        &self.0
    }
}

impl Clone for DownloadUrl {
    fn clone(&self) -> (r: Self)
        ensures
            r == *self,
    {
        DownloadUrl(self.0.clone())
    }
}

/// What a record says it carries.
#[derive(Debug, PartialEq, Eq)]
pub enum MediaKind {
    Text,
    Media,
    Other(String),
}

impl Clone for MediaKind {
    fn clone(&self) -> (r: Self)
        ensures
            r == *self,
    {
        match self {
            MediaKind::Text => MediaKind::Text,
            MediaKind::Media => MediaKind::Media,
            MediaKind::Other(word) => MediaKind::Other(word.clone()),
        }
    }
}

/// An optional text, copied.
pub fn copy_text(text: &Option<String>) -> (r: Option<String>)
    ensures
        r == *text,
{
    match text {
        Some(text) => Some(text.clone()),
        None => None,
    }
}

/// An optional sender, copied.
pub fn copy_sender(from: &Option<Username>) -> (r: Option<Username>)
    ensures
        r == *from,
{
    match from {
        Some(from) => Some(from.clone()),
        None => None,
    }
}

// ---- days and instants ----

pub open spec fn digit_value(c: char) -> int {
    c as int - 48
}

pub open spec fn two_at(s: Seq<char>, at: int) -> int {
    10 * digit_value(s[at]) + digit_value(s[at + 1])
}

pub open spec fn four_at(s: Seq<char>, at: int) -> int {
    100 * two_at(s, at) + two_at(s, at + 2)
}

pub open spec fn digits_at(s: Seq<char>, from: int, to: int) -> bool {
    forall|i: int| from <= i < to ==> is_digit(#[trigger] s[i])
}

/// A day as a filename spells one. It need not be one the calendar has.
#[derive(Debug, Clone, Copy, PartialEq, Eq, Structural)]
pub struct Day {
    pub year: u16,
    pub month: u8,
    pub day: u8,
}

impl Day {
    pub open spec fn wf(self) -> bool {
        self.year <= 9999 && 1 <= self.month <= 12 && 1 <= self.day <= 31
    }
}

/// `2021-01-15`.
pub open spec fn day_text(day: Day) -> Seq<char> {
    four_digits(day.year as int) + seq!['-'] + two_digits(day.month as int) + seq!['-'] + two_digits(
        day.day as int,
    )
}

pub open spec fn day_shaped(s: Seq<char>) -> bool {
    &&& s.len() == 10
    &&& digits_at(s, 0, 4)
    &&& s[4] == '-'
    &&& digits_at(s, 5, 7)
    &&& s[7] == '-'
    &&& digits_at(s, 8, 10)
    &&& 1 <= two_at(s, 5) <= 12
    &&& 1 <= two_at(s, 8) <= 31
}

/// The day a text spells.
pub open spec fn day_of(s: Seq<char>) -> Option<Day> {
    if day_shaped(s) {
        Some(Day { year: four_at(s, 0) as u16, month: two_at(s, 5) as u8, day: two_at(s, 8) as u8 })
    } else {
        None
    }
}

fn read_two(v: &Vec<char>, at: usize) -> (r: Option<u8>)
    requires
        at + 2 <= v@.len(),
    ensures
        match r {
            Some(n) => digits_at(v@, at as int, at + 2) && n == two_at(v@, at as int) && n < 100,
            None => !digits_at(v@, at as int, at + 2),
        },
{
    let len: usize = v.len();
    if digit(v[at]) && digit(v[at + 1]) {
        let high: u8 = v[at] as u8 - 48;
        let low: u8 = v[at + 1] as u8 - 48;
        Some(10 * high + low)
    } else {
        assert(!is_digit(v@[at as int]) || !is_digit(v@[at + 1]));
        None
    }
}

impl Day {
    /// The day a text spells, or nothing where it spells none.
    pub fn parse(raw: &str) -> (r: Option<Self>)
        ensures
            r == day_of(raw@),
            r matches Some(day) ==> day.wf(),
    {
        let v = chars_of(raw);
        if v.len() != 10 || v[4] != '-' || v[7] != '-' {
            return None;
        }
        match (read_two(&v, 0), read_two(&v, 2), read_two(&v, 5), read_two(&v, 8)) {
            (Some(century), Some(rest), Some(month), Some(day)) => {
                if 1 <= month && month <= 12 && 1 <= day && day <= 31 {
                    let year: u16 = 100 * (century as u16) + rest as u16;
                    Some(Day { year, month, day })
                } else {
                    None
                }
            },
            _ => {
                assert(!day_shaped(raw@)) by {
                    if day_shaped(raw@) {
                        assert(digits_at(v@, 0, 2));
                        assert(digits_at(v@, 2, 4));
                    }
                }
                None
            },
        }
    }

    /// The text that spells this day.
    pub fn text(self) -> (r: String)
        requires
            self.wf(),
        ensures
            r@ == day_text(self),
    {
        let mut out = String::new();
        push_four(&mut out, self.year as u32);
        out.push('-');
        push_two(&mut out, self.month as u32);
        out.push('-');
        push_two(&mut out, self.day as u32);
        assert(out@ =~= day_text(self));
        out
    }
}

/// A day survives being written out and read back.
pub proof fn law_a_day_is_read_back(day: Day)
    requires
        day.wf(),
    ensures
        day_of(day_text(day)) == Some(day),
{
    let s = day_text(day);
    let (y, m, d) = (day.year as int, day.month as int, day.day as int);
    assert(s =~= seq![
        digit_char((y / 100 / 10) as nat),
        digit_char((y / 100 % 10) as nat),
        digit_char((y % 100 / 10) as nat),
        digit_char((y % 100 % 10) as nat),
        '-',
        digit_char((m / 10) as nat),
        digit_char((m % 10) as nat),
        '-',
        digit_char((d / 10) as nat),
        digit_char((d % 10) as nat),
    ]);
}

/// A spelled day is spelled one way.
pub proof fn law_a_day_is_spelled_one_way(s: Seq<char>)
    requires
        day_shaped(s),
    ensures
        day_text(day_of(s).unwrap()) == s,
{
    assert(is_digit(s[0]) && is_digit(s[1]) && is_digit(s[2]) && is_digit(s[3]));
    assert(is_digit(s[5]) && is_digit(s[6]) && is_digit(s[8]) && is_digit(s[9]));
    assert(day_text(day_of(s).unwrap()) =~= s);
}

/// An instant as a record states one, in UTC. It need not be one the calendar has.
#[derive(Debug, Clone, Copy, PartialEq, Eq, Structural)]
pub struct Timestamp {
    pub year: u16,
    pub month: u8,
    pub day: u8,
    pub hour: u8,
    pub minute: u8,
    pub second: u8,
}

/// `2021-03-04 09:00:00 UTC`.
pub open spec fn stamp_shaped(s: Seq<char>) -> bool {
    &&& s.len() == 23
    &&& day_shaped(s.take(10))
    &&& s[10] == ' '
    &&& digits_at(s, 11, 13)
    &&& s[13] == ':'
    &&& digits_at(s, 14, 16)
    &&& s[16] == ':'
    &&& digits_at(s, 17, 19)
    &&& s.skip(19) == seq![' ', 'U', 'T', 'C']
    &&& two_at(s, 11) < 24
    &&& two_at(s, 14) < 60
    &&& two_at(s, 17) < 60
}

/// The instant a text states.
pub open spec fn stamp_of(s: Seq<char>) -> Option<Timestamp> {
    if stamp_shaped(s) {
        let day = day_of(s.take(10)).unwrap();
        Some(
            Timestamp {
                year: day.year,
                month: day.month,
                day: day.day,
                hour: two_at(s, 11) as u8,
                minute: two_at(s, 14) as u8,
                second: two_at(s, 17) as u8,
            },
        )
    } else {
        None
    }
}

/// The reading a timestamp spells, field for field.
pub open spec fn reading_of(at: Timestamp) -> LocalTime {
    LocalTime {
        year: at.year as i32,
        month: at.month as u32,
        day: at.day as u32,
        hour: at.hour as u32,
        minute: at.minute as u32,
        second: at.second as u32,
    }
}

/// Whether `a` is no later than `b`, field by field.
pub open spec fn stamp_le(a: Timestamp, b: Timestamp) -> bool {
    if a.year != b.year {
        a.year < b.year
    } else if a.month != b.month {
        a.month < b.month
    } else if a.day != b.day {
        a.day < b.day
    } else if a.hour != b.hour {
        a.hour < b.hour
    } else if a.minute != b.minute {
        a.minute < b.minute
    } else {
        a.second <= b.second
    }
}

/// Whether an epoch in milliseconds falls in the second a timestamp names.
pub open spec fn names_epoch(at: Timestamp, ms: int) -> bool {
    at.year <= 9999 && reading_of(at).wf() && unix_seconds(reading_of(at)) == ms / 1000
}

/// The timestamp of an epoch in milliseconds, or nothing where none names its second.
pub open spec fn stamp_of_epoch(ms: int) -> Option<Timestamp> {
    if exists|at: Timestamp| names_epoch(at, ms) {
        Some(choose|at: Timestamp| names_epoch(at, ms))
    } else {
        None
    }
}

/// At most one timestamp names a second.
pub proof fn lemma_epoch_named_once(a: Timestamp, b: Timestamp, ms: int)
    requires
        names_epoch(a, ms),
        names_epoch(b, ms),
    ensures
        a == b,
{
    lemma_unix_injective(reading_of(a), reading_of(b));
}

impl Timestamp {
    /// The instant a text states, or nothing where it states none.
    pub fn parse(raw: &str) -> (r: Option<Self>)
        ensures
            r == stamp_of(raw@),
    {
        let v = chars_of(raw);
        if v.len() != 23 {
            return None;
        }
        let head = crate::text::string_of(&v, 0, 10);
        assert(head@ =~= raw@.take(10));
        assert(raw@.skip(19) =~= seq![v@[19], v@[20], v@[21], v@[22]]);
        assert(stamp_shaped(raw@) ==> raw@.skip(19)[0] == ' ' && raw@.skip(19)[1] == 'U' && raw@.skip(19)[2] == 'T'
            && raw@.skip(19)[3] == 'C');
        if v[10] != ' ' || v[13] != ':' || v[16] != ':' || v[19] != ' ' || v[20] != 'U' || v[21] != 'T' || v[22]
            != 'C' {
            return None;
        }
        match (Day::parse(&head), read_two(&v, 11), read_two(&v, 14), read_two(&v, 17)) {
            (Some(day), Some(hour), Some(minute), Some(second)) => {
                if hour < 24 && minute < 60 && second < 60 {
                    Some(Timestamp { year: day.year, month: day.month, day: day.day, hour, minute, second })
                } else {
                    None
                }
            },
            _ => None,
        }
    }

    /// The instant of an epoch in milliseconds, to the second it falls in; nothing for one whose
    /// year does not fit the four digits a record states.
    pub fn from_epoch_ms(ms: i64) -> (r: Option<Self>)
        ensures
            r == stamp_of_epoch(ms as int),
            r matches Some(at) ==> names_epoch(at, ms as int),
    {
        match LocalTime::of_epoch_ms(ms) {
            Some(t) => {
                if 0 <= t.year && t.year <= 9999 {
                    let at = Timestamp {
                        year: t.year as u16,
                        month: t.month as u8,
                        day: t.day as u8,
                        hour: t.hour as u8,
                        minute: t.minute as u8,
                        second: t.second as u8,
                    };
                    proof {
                        assert(reading_of(at) == t);
                        assert(names_epoch(at, ms as int));
                        lemma_epoch_named_once(at, stamp_of_epoch(ms as int).unwrap(), ms as int);
                    }
                    Some(at)
                } else {
                    proof {
                        assert forall|at: Timestamp| !names_epoch(at, ms as int) by {
                            if names_epoch(at, ms as int) {
                                lemma_unix_injective(reading_of(at), t);
                            }
                        }
                    }
                    None
                }
            },
            None => {
                proof {
                    assert forall|at: Timestamp| !names_epoch(at, ms as int) by {
                        if names_epoch(at, ms as int) {
                            assert(reading_of(at).wf());
                        }
                    }
                }
                None
            },
        }
    }

    pub fn not_after(self, other: Self) -> (r: bool)
        ensures
            r == stamp_le(self, other),
    {
        if self.year != other.year {
            self.year < other.year
        } else if self.month != other.month {
            self.month < other.month
        } else if self.day != other.day {
            self.day < other.day
        } else if self.hour != other.hour {
            self.hour < other.hour
        } else if self.minute != other.minute {
            self.minute < other.minute
        } else {
            self.second <= other.second
        }
    }
}

// ---- records ----

/// One chat record.
#[derive(Debug, PartialEq, Eq)]
pub struct ChatMessage {
    pub from: Option<Username>,
    pub media_type: MediaKind,
    pub created: Option<Timestamp>,
    pub created_epoch_ms: Option<i64>,
    pub content: Option<MessageText>,
    pub conversation_title: Option<String>,
    pub is_sender: bool,
    pub is_saved: bool,
    pub media_ids: Option<String>,
}

impl Clone for ChatMessage {
    fn clone(&self) -> (r: Self)
        ensures
            r == *self,
    {
        ChatMessage {
            from: copy_sender(&self.from),
            media_type: self.media_type.clone(),
            created: self.created,
            created_epoch_ms: self.created_epoch_ms,
            content: match &self.content {
                Some(content) => Some(content.clone()),
                None => None,
            },
            conversation_title: copy_text(&self.conversation_title),
            is_sender: self.is_sender,
            is_saved: self.is_saved,
            media_ids: copy_text(&self.media_ids),
        }
    }
}

/// One snap record.
#[derive(Debug, PartialEq, Eq)]
pub struct Snap {
    pub from: Option<Username>,
    pub media_type: MediaKind,
    pub created: Option<Timestamp>,
    pub created_epoch_ms: Option<i64>,
    pub conversation_title: Option<String>,
    pub is_sender: bool,
}

impl Clone for Snap {
    fn clone(&self) -> (r: Self)
        ensures
            r == *self,
    {
        Snap {
            from: copy_sender(&self.from),
            media_type: self.media_type.clone(),
            created: self.created,
            created_epoch_ms: self.created_epoch_ms,
            conversation_title: copy_text(&self.conversation_title),
            is_sender: self.is_sender,
        }
    }
}

/// The records of one conversation, in the order the export lists them.
#[derive(Debug, PartialEq, Eq)]
pub struct Conversation<R> {
    pub id: ConversationId,
    pub records: Vec<R>,
}

#[derive(Debug, PartialEq, Eq)]
pub struct ChatHistory {
    pub conversations: Vec<Conversation<ChatMessage>>,
}

#[derive(Debug, PartialEq, Eq)]
pub struct SnapHistory {
    pub conversations: Vec<Conversation<Snap>>,
}

/// Who sent a piece of media, and where.
#[derive(Debug, PartialEq, Eq)]
pub struct Attribution {
    pub sender: Option<Username>,
    pub conversation: Option<ConversationId>,
}

/// A place, told apart from another by the bits of its two coordinates in degrees. Zero carries no
/// sign.
#[derive(Debug, Clone, Copy, PartialEq, Eq, Structural)]
pub struct LocationPoint {
    pub latitude: u64,
    pub longitude: u64,
}

/// A directory a scan could not list, and why.
#[derive(Debug, PartialEq, Eq)]
pub struct UnreadableDir {
    pub dir: FilePath,
    pub error: String,
}

/// The two digits a text holds at a place, as a number.
pub open spec fn pair_in(s: Seq<char>, at: int) -> int {
    10 * (s[at] as int - '0' as int) + (s[at + 1] as int - '0' as int)
}

/// A day is spelled year first, in four digits, then the month and the day in two each, with a
/// hyphen between; and a text is read as a day exactly where it is spelled so.
pub proof fn law_a_day_is_spelled_year_first(s: Seq<char>)
    ensures
        day_of(s) matches Some(day) ==> {
            &&& s.len() == 10 && s[4] == '-' && s[7] == '-'
            &&& day.year == 100 * pair_in(s, 0) + pair_in(s, 2)
            &&& day.month == pair_in(s, 5)
            &&& day.day == pair_in(s, 8)
            &&& 1 <= day.month <= 12 && 1 <= day.day <= 31
        },
        s.len() == 10 && s[4] == '-' && s[7] == '-' && (forall|i: int|
            0 <= i < 10 && i != 4 && i != 7 ==> '0' <= #[trigger] s[i] <= '9') && 1 <= pair_in(s, 5) <= 12 && 1 <= pair_in(s, 8) <= 31
            ==> day_of(s) is Some,
{
    if day_shaped(s) {
        assert(is_digit(s[0]) && is_digit(s[1]) && is_digit(s[2]) && is_digit(s[3]));
        assert(is_digit(s[5]) && is_digit(s[6]) && is_digit(s[8]) && is_digit(s[9]));
    }
}

/// An instant is spelled as a day, a space, the hour, minute and second in two digits each with a
/// colon between, and ` UTC`; and a text is read as one exactly where it is spelled so.
pub proof fn law_an_instant_is_spelled_day_first(s: Seq<char>)
    ensures
        stamp_of(s) matches Some(at) ==> {
            &&& s.len() == 23 && s[10] == ' ' && s[13] == ':' && s[16] == ':'
            &&& s[19] == ' ' && s[20] == 'U' && s[21] == 'T' && s[22] == 'C'
            &&& day_of(s.take(10)) == Some(Day { year: at.year, month: at.month, day: at.day })
            &&& at.hour == pair_in(s, 11) && at.hour <= 23
            &&& at.minute == pair_in(s, 14) && at.minute <= 59
            &&& at.second == pair_in(s, 17) && at.second <= 59
        },
        s.len() == 23 && day_of(s.take(10)) is Some && s[10] == ' ' && s[13] == ':' && s[16] == ':' && s[19] == ' ' && s[20] == 'U'
            && s[21] == 'T' && s[22] == 'C' && (forall|i: int|
            11 <= i < 19 && i != 13 && i != 16 ==> '0' <= #[trigger] s[i] <= '9') && pair_in(s, 11) <= 23 && pair_in(s, 14) <= 59
            && pair_in(s, 17) <= 59 ==> stamp_of(s) is Some,
{
    if s.len() == 23 {
        let tail = s.skip(19);
        assert(tail.len() == 4 && tail[0] == s[19] && tail[1] == s[20] && tail[2] == s[21] && tail[3] == s[22]);
        assert(tail =~= seq![' ', 'U', 'T', 'C'] <==> s[19] == ' ' && s[20] == 'U' && s[21] == 'T' && s[22] == 'C') by {
            if tail =~= seq![' ', 'U', 'T', 'C'] {
                assert(tail[0] == ' ' && tail[1] == 'U' && tail[2] == 'T' && tail[3] == 'C');
            }
        }
        if stamp_shaped(s) {
            assert(is_digit(s[11]) && is_digit(s[12]) && is_digit(s[14]) && is_digit(s[15]) && is_digit(s[17]) && is_digit(s[18]));
        }
    }
}

} // verus!
