//! Calendar time: a wall-clock reading, the second it names, and the texts it is filed under.

use chrono::{Datelike, Timelike};
use vstd::prelude::*;

use crate::text::{decimal, decimal_text, digit_char};

verus! {

// ---- the Gregorian calendar ----

pub open spec fn is_leap(year: int) -> bool {
    year % 4 == 0 && (year % 100 != 0 || year % 400 == 0)
}

pub open spec fn month_len(year: int, month: int) -> int {
    if month == 2 {
        if is_leap(year) {
            29
        } else {
            28
        }
    } else if month == 4 || month == 6 || month == 9 || month == 11 {
        30
    } else {
        31
    }
}

/// Whether a calendar holds this day.
pub open spec fn real_date(year: int, month: int, day: int) -> bool {
    1 <= month <= 12 && 1 <= day <= month_len(year, month)
}

/// How many leap years lie in `0..year`.
pub open spec fn leaps_before(year: int) -> int {
    (year + 3) / 4 - (year + 99) / 100 + (year + 399) / 400
}

/// How many days of `year` lie before `month`.
pub open spec fn days_before(year: int, month: int) -> int
    decreases month,
{
    if month <= 1 {
        0
    } else {
        days_before(year, month - 1) + month_len(year, month - 1)
    }
}

/// Days from 1970-01-01 to this one.
pub open spec fn day_number(year: int, month: int, day: int) -> int {
    365 * year + leaps_before(year) + days_before(year, month) + day - 1 - 719528
}

/// The years a reading may name.
pub open spec fn year_held(year: int) -> bool {
    -262143 <= year <= 262142
}

/// A reading of a wall clock and the calendar beside it, to the second.
#[derive(Debug, Clone, Copy, PartialEq, Eq, Structural)]
pub struct LocalTime {
    pub year: i32,
    pub month: u32,
    pub day: u32,
    pub hour: u32,
    pub minute: u32,
    pub second: u32,
}

impl LocalTime {
    pub open spec fn wf(self) -> bool {
        &&& year_held(self.year as int)
        &&& real_date(self.year as int, self.month as int, self.day as int)
        &&& self.hour < 24
        &&& self.minute < 60
        &&& self.second < 60
    }

    /// The reading with a leap second, which is shown as a sixtieth, told as the second before it.
    pub open spec fn plain(self) -> LocalTime {
        if self.second == 60 {
            LocalTime { second: 59, ..self }
        } else {
            self
        }
    }

    /// Whether a clock can show this, leap seconds included.
    pub open spec fn held(self) -> bool {
        self.plain().wf()
    }
}

/// Seconds from 1970-01-01 00:00:00 to a reading taken in UTC. A leap second counts as the one
/// before it.
pub open spec fn unix_seconds(t: LocalTime) -> int {
    86400 * day_number(t.year as int, t.month as int, t.day as int) + 3600 * t.hour + 60 * t.minute
        + t.plain().second
}

// ---- one second, one reading ----

proof fn lemma_leap_step(year: int)
    ensures
        leaps_before(year + 1) == leaps_before(year) + if is_leap(year) { 1int } else { 0int },
{
    assert((year + 4) / 4 == (year + 3) / 4 + if year % 4 == 0 { 1int } else { 0int });
    assert((year + 100) / 100 == (year + 99) / 100 + if year % 100 == 0 { 1int } else { 0int });
    assert((year + 400) / 400 == (year + 399) / 400 + if year % 400 == 0 { 1int } else { 0int });
    assert(year % 100 == 0 ==> year % 4 == 0);
    assert(year % 400 == 0 ==> year % 100 == 0);
}

proof fn lemma_year_len(year: int)
    ensures
        days_before(year, 12) + month_len(year, 12) == 365 + if is_leap(year) { 1int } else { 0int },
{
    let february = month_len(year, 2);
    assert(days_before(year, 1) == 0);
    assert(days_before(year, 2) == 31);
    assert(days_before(year, 3) == 31 + february);
    assert(days_before(year, 4) == 62 + february);
    assert(days_before(year, 5) == 92 + february);
    assert(days_before(year, 6) == 123 + february);
    assert(days_before(year, 7) == 153 + february);
    assert(days_before(year, 8) == 184 + february);
    assert(days_before(year, 9) == 215 + february);
    assert(days_before(year, 10) == 245 + february);
    assert(days_before(year, 11) == 276 + february);
    assert(days_before(year, 12) == 306 + february);
}

proof fn lemma_year_step(year: int)
    ensures
        leaps_before(year + 1) == leaps_before(year) + if is_leap(year) { 1int } else { 0int },
        days_before(year, 12) + month_len(year, 12) == 365 + if is_leap(year) { 1int } else { 0int },
{
    lemma_leap_step(year);
    lemma_year_len(year);
}

proof fn lemma_month_grows(year: int, low: int, high: int)
    requires
        1 <= low < high <= 13,
    ensures
        days_before(year, low) + month_len(year, low) <= days_before(year, high),
    decreases high - low,
{
    if low < high - 1 {
        lemma_month_grows(year, low, high - 1);
    }
}

proof fn lemma_year_grows(low: int, high: int)
    requires
        low < high,
    ensures
        365 * low + leaps_before(low) + 365 + (if is_leap(low) { 1int } else { 0int }) <= 365 * high
            + leaps_before(high),
    decreases high - low,
{
    lemma_year_step(low);
    if low < high - 1 {
        lemma_year_grows(low, high - 1);
        lemma_year_step(high - 1);
    }
}

proof fn lemma_day_in_year(year: int, month: int, day: int)
    requires
        real_date(year, month, day),
    ensures
        0 <= days_before(year, month) + day - 1 < 365 + if is_leap(year) { 1int } else { 0int },
{
    lemma_year_step(year);
    if month > 1 {
        lemma_month_grows(year, 1, month);
    }
    lemma_month_grows(year, month, 13);
}

/// A later reading names a later second.
pub proof fn lemma_unix_grows(a: LocalTime, b: LocalTime)
    requires
        a.wf(),
        b.wf(),
        a.year < b.year || (a.year == b.year && (a.month < b.month || (a.month == b.month && a.day < b.day))),
    ensures
        unix_seconds(a) < unix_seconds(b),
{
    let (y, m, d) = (a.year as int, a.month as int, a.day as int);
    let (v, n, e) = (b.year as int, b.month as int, b.day as int);
    lemma_day_in_year(y, m, d);
    lemma_day_in_year(v, n, e);
    if y < v {
        lemma_year_grows(y, v);
    } else if m < n {
        lemma_month_grows(y, m, n);
    }
    assert(day_number(y, m, d) + 1 <= day_number(v, n, e));
}

/// Two readings of one second are one reading.
pub proof fn lemma_unix_injective(a: LocalTime, b: LocalTime)
    requires
        a.wf(),
        b.wf(),
        unix_seconds(a) == unix_seconds(b),
    ensures
        a == b,
{
    if a.year == b.year && a.month == b.month && a.day == b.day {
        assert(3600 * a.hour + 60 * a.minute + a.second == 3600 * b.hour + 60 * b.minute + b.second);
    } else if a.year < b.year || (a.year == b.year && (a.month < b.month || (a.month == b.month && a.day
        < b.day))) {
        lemma_unix_grows(a, b);
    } else {
        lemma_unix_grows(b, a);
    }
}

/// The second of the earliest reading there is.
pub const FIRST_SECOND: i64 = -8334601228800;

/// The second of the latest reading there is.
pub const LAST_SECOND: i64 = 8210266876799;

/// The seconds some reading names.
pub open spec fn in_calendar(seconds: int) -> bool {
    FIRST_SECOND <= seconds <= LAST_SECOND
}

/// Every reading names a second between the first and the last.
pub proof fn lemma_unix_in_calendar(t: LocalTime)
    requires
        t.held(),
    ensures
        in_calendar(unix_seconds(t)),
        -262143 < t.year < 262142 ==> FIRST_SECOND + 86400 <= unix_seconds(t) <= LAST_SECOND - 86400,
{
    let y = t.year as int;
    lemma_day_in_year(y, t.month as int, t.day as int);
    assert(-262143 <= y <= 262142);
    assert(leaps_before(y) == (y + 3) / 4 - (y + 99) / 100 + (y + 399) / 400);
}

/// What a clock `seconds` ahead shows when a clock shows `t`.
pub open spec fn reading_ahead(t: LocalTime, seconds: int) -> LocalTime {
    choose|r: LocalTime| r.wf() && unix_seconds(r) == unix_seconds(t) + seconds
}

/// The reading one second on.
pub open spec fn ticked(t: LocalTime) -> LocalTime {
    let (y, m) = (t.year as int, t.month as int);
    if t.second < 59 {
        LocalTime { second: (t.second + 1) as u32, ..t }
    } else if t.minute < 59 {
        LocalTime { minute: (t.minute + 1) as u32, second: 0, ..t }
    } else if t.hour < 23 {
        LocalTime { hour: (t.hour + 1) as u32, minute: 0, second: 0, ..t }
    } else if t.day < month_len(y, m) {
        LocalTime { day: (t.day + 1) as u32, hour: 0, minute: 0, second: 0, ..t }
    } else if t.month < 12 {
        LocalTime { month: (t.month + 1) as u32, day: 1, hour: 0, minute: 0, second: 0, ..t }
    } else {
        LocalTime { year: (t.year + 1) as i32, month: 1, day: 1, hour: 0, minute: 0, second: 0 }
    }
}

proof fn lemma_ticked(t: LocalTime)
    requires
        t.wf(),
        unix_seconds(t) < LAST_SECOND,
    ensures
        ticked(t).wf(),
        unix_seconds(ticked(t)) == unix_seconds(t) + 1,
{
    let (y, m, d) = (t.year as int, t.month as int, t.day as int);
    if t.second == 59 && t.minute == 59 && t.hour == 23 && d == month_len(y, m) {
        if m < 12 {
            assert(days_before(y, m + 1) == days_before(y, m) + month_len(y, m));
        } else {
            lemma_year_step(y);
            assert(days_before(y, 13) == days_before(y, 12) + month_len(y, 12));
            if y == 262142 {
                lemma_year_len(y);
            }
        }
    }
}

/// Some reading names every second from the first to the last.
pub proof fn lemma_reading_exists(seconds: int) -> (t: LocalTime)
    requires
        in_calendar(seconds),
    ensures
        t.wf(),
        unix_seconds(t) == seconds,
    decreases seconds - FIRST_SECOND,
{
    if seconds == FIRST_SECOND {
        LocalTime { year: (-262143int) as i32, month: 1, day: 1, hour: 0, minute: 0, second: 0 }
    } else {
        let before = lemma_reading_exists(seconds - 1);
        lemma_ticked(before);
        ticked(before)
    }
}

// ---- chrono ----

/// `chrono::NaiveDate::from_ymd_opt`: gives a date exactly where the year is one chrono holds
/// and the calendar has the day.
#[verifier::external_body]
fn date_exists(year: i32, month: u32, day: u32) -> (r: bool)
    ensures
        r == (year_held(year as int) && real_date(year as int, month as int, day as int)),
{
    chrono::NaiveDate::from_ymd_opt(year, month, day).is_some()
}

/// `chrono::DateTime::timestamp` of a reading taken in UTC: the seconds since the epoch.
#[verifier::external_body]
fn timestamp(t: LocalTime) -> (r: i64)
    requires
        t.wf(),
    ensures
        r == unix_seconds(t),
{
    let date = chrono::NaiveDate::from_ymd_opt(t.year, t.month, t.day).unwrap();
    date.and_hms_opt(t.hour, t.minute, t.second).unwrap().and_utc().timestamp()
}

/// How many nanoseconds into the second before it a leap second begins.
pub const LEAP_NANOS: u32 = 1_000_000_000;

/// The reading a picture's date tag spells, to the second, and the nanoseconds behind it.
pub uninterp spec fn tag_reading(text: Seq<char>) -> Option<(LocalTime, u32)>;

/// What a clock shows at a reading and the nanoseconds behind it: a leap second is its sixtieth.
pub open spec fn shown_at(at: (LocalTime, u32)) -> LocalTime {
    if at.1 >= LEAP_NANOS {
        LocalTime { second: 60, ..at.0 }
    } else {
        at.0
    }
}

/// The reading a picture's date tag spells.
pub open spec fn tag_time(text: Seq<char>) -> Option<LocalTime> {
    match tag_reading(text) {
        Some(at) => Some(shown_at(at)),
        None => None,
    }
}

/// `chrono::NaiveDateTime::parse_from_str` with the format of a picture's date tag. The contract
/// names the reading rather than spelling out what chrono accepts, and says that what is written
/// for a year of four digits is read back. chrono reads a sixtieth second as the fifty-ninth and a
/// billion nanoseconds; the format states no other fraction.
#[verifier::external_body]
fn parse_tag(text: &str) -> (r: Option<(LocalTime, u32)>)
    ensures
        r == tag_reading(text@),
        r matches Some((t, nanos)) ==> t.wf() && (nanos == 0 || (nanos == LEAP_NANOS && t.second == 59)),
        forall|t: LocalTime|
            t.held() && 0 <= t.year <= 9999 && text@ == #[trigger] exif_text(t) ==> r == Some(
                (t.plain(), if t.second == 60 { LEAP_NANOS } else { 0 }),
            ),
{
    let read = chrono::NaiveDateTime::parse_from_str(text, "%Y:%m:%d %H:%M:%S").ok();
    read.map(|at| {
        let (year, month, day) = (at.year(), at.month(), at.day());
        (LocalTime { year, month, day, hour: at.hour(), minute: at.minute(), second: at.second() }, at.nanosecond())
    })
}

/// `chrono::DateTime::from_timestamp_millis`: the reading in UTC of the second an epoch in
/// milliseconds falls in, or nothing where no reading chrono holds names that second.
#[verifier::external_body]
fn from_millis(ms: i64) -> (r: Option<LocalTime>)
    ensures
        match r {
            Some(t) => t.wf() && unix_seconds(t) == ms as int / 1000,
            None => forall|t: LocalTime| #[trigger] t.wf() ==> unix_seconds(t) != ms as int / 1000,
        },
{
    chrono::DateTime::from_timestamp_millis(ms).map(|at| LocalTime {
        year: at.year(),
        month: at.month(),
        day: at.day(),
        hour: at.hour(),
        minute: at.minute(),
        second: at.second(),
    })
}

/// `chrono::DateTime::naive_local` of a UTC reading carried into a fixed offset: the reading a
/// clock that many seconds ahead shows at the same instant. chrono panics where that reading
/// would leave the years it holds, so the second has to be one some reading names.
#[verifier::external_body]
fn clock_ahead(t: LocalTime, seconds: i32) -> (r: LocalTime)
    requires
        t.wf(),
        -86400 < seconds < 86400,
        in_calendar(unix_seconds(t) + seconds),
    ensures
        r.wf(),
        unix_seconds(r) == unix_seconds(t) + seconds,
{
    let date = chrono::NaiveDate::from_ymd_opt(t.year, t.month, t.day).unwrap();
    let utc = date.and_hms_opt(t.hour, t.minute, t.second).unwrap().and_utc();
    let at = utc.with_timezone(&chrono::FixedOffset::east_opt(seconds).unwrap()).naive_local();
    LocalTime {
        year: at.year(),
        month: at.month(),
        day: at.day(),
        hour: at.hour(),
        minute: at.minute(),
        second: at.second(),
    }
}

// ---- readings ----

impl LocalTime {
    /// The reading these fields spell, where the calendar and the clock have it.
    pub fn new(year: i32, month: u32, day: u32, hour: u32, minute: u32, second: u32) -> (r: Option<Self>)
        ensures
            match r {
                Some(t) => t == (LocalTime { year, month, day, hour, minute, second }) && t.wf(),
                None => !(LocalTime { year, month, day, hour, minute, second }).wf(),
            },
    {
        if date_exists(year, month, day) && hour < 24 && minute < 60 && second < 60 {
            Some(LocalTime { year, month, day, hour, minute, second })
        } else {
            None
        }
    }

    /// The second this reading names when it was taken in UTC.
    pub fn unix(self) -> (r: i64)
        requires
            self.held(),
        ensures
            r == unix_seconds(self),
    {
        if self.second == 60 {
            timestamp(LocalTime { second: 59, ..self })
        } else {
            timestamp(self)
        }
    }

    /// What a clock `seconds` ahead of UTC shows when UTC shows this.
    pub fn ahead(self, seconds: i32) -> (r: Self)
        requires
            self.wf(),
            -86400 < seconds < 86400,
            in_calendar(unix_seconds(self) + seconds),
        ensures
            r.wf(),
            unix_seconds(r) == unix_seconds(self) + seconds,
            r == reading_ahead(self, seconds as int),
            seconds == 0 ==> r == self,
    {
        let r = clock_ahead(self, seconds);
        proof {
            if seconds == 0 {
                lemma_unix_injective(r, self);
            }
            lemma_unix_injective(r, reading_ahead(self, seconds as int));
        }
        r
    }

    /// The reading a picture's date tag spells.
    pub fn of_tag(text: &str) -> (r: Option<Self>)
        ensures
            r == tag_time(text@),
            r matches Some(t) ==> t.held(),
            forall|t: LocalTime| t.held() && 0 <= t.year <= 9999 && text@ == #[trigger] exif_text(t) ==> r == Some(t),
    {
        match parse_tag(text) {
            Some((t, nanos)) => {
                if nanos >= LEAP_NANOS {
                    Some(LocalTime { second: 60, ..t })
                } else {
                    Some(t)
                }
            },
            None => None,
        }
    }

    /// The UTC reading of an epoch in milliseconds, to the second it falls in.
    pub fn of_epoch_ms(ms: i64) -> (r: Option<Self>)
        ensures
            match r {
                Some(t) => t.wf() && unix_seconds(t) == ms as int / 1000,
                None => forall|t: LocalTime| #[trigger] t.wf() ==> unix_seconds(t) != ms as int / 1000,
            },
    {
        from_millis(ms)
    }
}

// ---- texts ----

pub open spec fn two_digits(n: int) -> Seq<char> {
    seq![digit_char((n / 10) as nat), digit_char((n % 10) as nat)]
}

pub open spec fn four_digits(n: int) -> Seq<char> {
    two_digits(n / 100) + two_digits(n % 100)
}

/// A year in four digits; one that needs more, or lies before year zero, carries its sign.
pub open spec fn year_text(year: int) -> Seq<char> {
    if 0 <= year <= 9999 {
        four_digits(year)
    } else {
        let size = if year < 0 { -year } else { year };
        seq![if year < 0 { '-' } else { '+' }] + if size <= 9999 {
            four_digits(size)
        } else {
            decimal(size as nat)
        }
    }
}

/// `20210115_143005`: what an output file is named after.
pub open spec fn compact_text(t: LocalTime) -> Seq<char> {
    year_text(t.year as int) + two_digits(t.month as int) + two_digits(t.day as int) + seq!['_']
        + two_digits(t.hour as int) + two_digits(t.minute as int) + two_digits(t.second as int)
}

/// `2021:01:15 14:30:05`: how exif spells a time.
pub open spec fn exif_text(t: LocalTime) -> Seq<char> {
    year_text(t.year as int) + seq![':'] + two_digits(t.month as int) + seq![':'] + two_digits(
        t.day as int,
    ) + seq![' '] + two_digits(t.hour as int) + seq![':'] + two_digits(t.minute as int) + seq![':']
        + two_digits(t.second as int)
}

pub fn push_two(out: &mut String, n: u32)
    requires
        n < 100,
    ensures
        final(out)@ == old(out)@ + two_digits(n as int),
{
    out.push((((n / 10) as u8) + 48) as char);
    out.push((((n % 10) as u8) + 48) as char);
    assert(out@ =~= old(out)@ + two_digits(n as int));
}

pub fn push_four(out: &mut String, n: u32)
    requires
        n < 10000,
    ensures
        final(out)@ == old(out)@ + four_digits(n as int),
{
    push_two(out, n / 100);
    push_two(out, n % 100);
    assert(out@ =~= old(out)@ + four_digits(n as int));
}

pub fn push_year(out: &mut String, year: i32)
    requires
        year_held(year as int),
    ensures
        final(out)@ == old(out)@ + year_text(year as int),
{
    if 0 <= year && year <= 9999 {
        push_four(out, year as u32);
        return ;
    }
    let size: u32 = if year < 0 {
        (-year) as u32
    } else {
        year as u32
    };
    out.push(if year < 0 { '-' } else { '+' });
    if size <= 9999 {
        push_four(out, size);
    } else {
        out.append(&decimal_text(size as u128));
    }
    assert(out@ =~= old(out)@ + year_text(year as int));
}

impl LocalTime {
    /// The year, as the directory of that year is named.
    pub fn year_text(self) -> (r: String)
        requires
            self.held(),
        ensures
            r@ == year_text(self.year as int),
    {
        let mut out = String::new();
        push_year(&mut out, self.year);
        assert(out@ =~= year_text(self.year as int));
        out
    }

    /// The month, as the directory of that month is named.
    pub fn month_text(self) -> (r: String)
        requires
            self.held(),
        ensures
            r@ == two_digits(self.month as int),
    {
        let mut out = String::new();
        push_two(&mut out, self.month);
        assert(out@ =~= two_digits(self.month as int));
        out
    }

    pub fn compact_text(self) -> (r: String)
        requires
            self.held(),
        ensures
            r@ == compact_text(self),
    {
        let mut out = String::new();
        push_year(&mut out, self.year);
        push_two(&mut out, self.month);
        push_two(&mut out, self.day);
        out.push('_');
        push_two(&mut out, self.hour);
        push_two(&mut out, self.minute);
        push_two(&mut out, self.second);
        assert(out@ =~= compact_text(self));
        out
    }

    pub fn exif_text(self) -> (r: String)
        requires
            self.held(),
        ensures
            r@ == exif_text(self),
    {
        let mut out = String::new();
        push_year(&mut out, self.year);
        out.push(':');
        push_two(&mut out, self.month);
        out.push(':');
        push_two(&mut out, self.day);
        out.push(' ');
        push_two(&mut out, self.hour);
        out.push(':');
        push_two(&mut out, self.minute);
        out.push(':');
        push_two(&mut out, self.second);
        assert(out@ =~= exif_text(self));
        out
    }
}

// ---- laws ----

/// The number two digits in a row spell.
pub open spec fn number_in(s: Seq<char>, at: int) -> int {
    10 * (s[at] as int - '0' as int) + (s[at + 1] as int - '0' as int)
}

proof fn lemma_number_in(s: Seq<char>, at: int, n: int)
    requires
        0 <= n < 100,
        0 <= at,
        at + 1 < s.len(),
        s[at] == two_digits(n)[0],
        s[at + 1] == two_digits(n)[1],
    ensures
        number_in(s, at) == n,
{
}

/// The years of four digits are spelled in four digits, largest place first.
pub proof fn law_a_year_is_spelled_in_four_digits(year: int)
    requires
        0 <= year <= 9999,
    ensures
        year_text(year).len() == 4,
        100 * number_in(year_text(year), 0) + number_in(year_text(year), 2) == year,
{
    let s = year_text(year);
    lemma_number_in(s, 0, year / 100);
    lemma_number_in(s, 2, year % 100);
}

/// An output is named year first, then month, day, hour, minute and second, so that names sort as
/// the times do.
pub proof fn law_a_name_spells_its_time(t: LocalTime)
    requires
        t.held(),
        0 <= t.year <= 9999,
    ensures
        ({
            let s = compact_text(t);
            &&& s.len() == 15
            &&& 100 * number_in(s, 0) + number_in(s, 2) == t.year
            &&& number_in(s, 4) == t.month
            &&& number_in(s, 6) == t.day
            &&& s[8] == '_'
            &&& number_in(s, 9) == t.hour
            &&& number_in(s, 11) == t.minute
            &&& number_in(s, 13) == t.second
        }),
{
    let s = compact_text(t);
    lemma_number_in(s, 0, t.year as int / 100);
    lemma_number_in(s, 2, t.year as int % 100);
    lemma_number_in(s, 4, t.month as int);
    lemma_number_in(s, 6, t.day as int);
    lemma_number_in(s, 9, t.hour as int);
    lemma_number_in(s, 11, t.minute as int);
    lemma_number_in(s, 13, t.second as int);
}

/// A picture's date tag spells the year, month and day, then the hour, minute and second.
pub proof fn law_a_tag_spells_its_time(t: LocalTime)
    requires
        t.held(),
        0 <= t.year <= 9999,
    ensures
        ({
            let s = exif_text(t);
            &&& s.len() == 19
            &&& 100 * number_in(s, 0) + number_in(s, 2) == t.year
            &&& s[4] == ':'
            &&& number_in(s, 5) == t.month
            &&& s[7] == ':'
            &&& number_in(s, 8) == t.day
            &&& s[10] == ' '
            &&& number_in(s, 11) == t.hour
            &&& s[13] == ':'
            &&& number_in(s, 14) == t.minute
            &&& s[16] == ':'
            &&& number_in(s, 17) == t.second
        }),
{
    let s = exif_text(t);
    lemma_number_in(s, 0, t.year as int / 100);
    lemma_number_in(s, 2, t.year as int % 100);
    lemma_number_in(s, 5, t.month as int);
    lemma_number_in(s, 8, t.day as int);
    lemma_number_in(s, 11, t.hour as int);
    lemma_number_in(s, 14, t.minute as int);
    lemma_number_in(s, 17, t.second as int);
}

/// The seconds of a reading count on with the clock and the calendar: one second on, the next
/// reading names the next second, from the epoch's own midnight.
pub proof fn law_seconds_count_on(t: LocalTime)
    requires
        t.wf(),
        unix_seconds(t) < LAST_SECOND,
    ensures
        t.second < 59 ==> unix_seconds(LocalTime { second: (t.second + 1) as u32, ..t }) == unix_seconds(t) + 1,
        t.second == 59 && t.minute < 59 ==> unix_seconds(LocalTime { minute: (t.minute + 1) as u32, second: 0, ..t }) == unix_seconds(t) + 1,
        t.second == 59 && t.minute == 59 && t.hour < 23 ==> unix_seconds(
            LocalTime { hour: (t.hour + 1) as u32, minute: 0, second: 0, ..t },
        ) == unix_seconds(t) + 1,
        t.second == 59 && t.minute == 59 && t.hour == 23 && real_date(t.year as int, t.month as int, t.day + 1) ==> unix_seconds(
            LocalTime { day: (t.day + 1) as u32, hour: 0, minute: 0, second: 0, ..t },
        ) == unix_seconds(t) + 1,
        t.second == 59 && t.minute == 59 && t.hour == 23 && !real_date(t.year as int, t.month as int, t.day + 1) && t.month < 12 ==> unix_seconds(
            LocalTime { month: (t.month + 1) as u32, day: 1, hour: 0, minute: 0, second: 0, ..t },
        ) == unix_seconds(t) + 1,
        t.second == 59 && t.minute == 59 && t.hour == 23 && t.month == 12 && t.day == 31 ==> unix_seconds(
            LocalTime { year: (t.year + 1) as i32, month: 1, day: 1, hour: 0, minute: 0, second: 0 },
        ) == unix_seconds(t) + 1,
        unix_seconds(LocalTime { year: 1970, month: 1, day: 1, hour: 0, minute: 0, second: 0 }) == 0,
{
    lemma_ticked(t);
    reveal_with_fuel(days_before, 2);
}

/// Thirty days have April, June, September and November; February has twenty-eight, and
/// twenty-nine in the years four divides, but for those a hundred divides and four hundred does
/// not; all the rest have thirty-one. A year has as many days as its months.
pub proof fn law_the_months_have_their_days(year: int)
    ensures
        month_len(year, 1) == 31 && month_len(year, 3) == 31 && month_len(year, 5) == 31 && month_len(year, 7) == 31,
        month_len(year, 8) == 31 && month_len(year, 10) == 31 && month_len(year, 12) == 31,
        month_len(year, 4) == 30 && month_len(year, 6) == 30 && month_len(year, 9) == 30 && month_len(year, 11) == 30,
        year % 4 != 0 ==> month_len(year, 2) == 28,
        year % 4 == 0 && year % 100 != 0 ==> month_len(year, 2) == 29,
        year % 100 == 0 && year % 400 != 0 ==> month_len(year, 2) == 28,
        year % 400 == 0 ==> month_len(year, 2) == 29,
        day_number(year + 1, 1, 1) - day_number(year, 1, 1) == 337 + month_len(year, 2),
{
    lemma_year_step(year);
}

/// A leap second is read as the second before it counts, and every other reading counts as itself.
pub proof fn law_a_leap_second_counts_as_the_one_before(t: LocalTime)
    requires
        t.held(),
    ensures
        t.second == 60 ==> unix_seconds(t) == unix_seconds(LocalTime { second: 59, ..t }),
        t.second <= 60,
        t.wf() <==> t.second < 60,
{
}

} // verus!
