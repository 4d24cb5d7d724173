//! The chat and snap histories of an export, merged into one thread per conversation.

use vstd::prelude::*;

use crate::calendar::{lemma_unix_grows, unix_seconds};
use crate::export::local_fix::{calendar_has, law_a_stated_instant_is_read_as_spelled};
use crate::export::model::{
    names_epoch, reading_of, stamp_le, stamp_of_epoch, ChatHistory, ChatMessage, Conversation, ConversationId, MediaKind, MessageText, Snap, SnapHistory,
    Timestamp, Username,
};
use crate::order::{
    in_order, keys_distinct, law_sorting_keeps_the_order_of_equals, lemma_sorted, lemma_sorted_contains, lemma_sorted_distinct, lemma_text_le_total,
    lemma_text_le_transitive, level_with, sort, sorted, text_le, text_not_after, Ranked,
};
use crate::text::same;

verus! {

/// Which of the two histories a record came from.
#[derive(Debug, Clone, Copy, PartialEq, Eq, Structural)]
pub enum RecordKind {
    Chat,
    Snap,
}

/// One record of either history.
#[derive(Debug, PartialEq, Eq)]
pub enum Record {
    Chat(ChatMessage),
    Snap(Snap),
}

impl Clone for Record {
    fn clone(&self) -> (r: Self)
        ensures
            r == *self,
    {
        match self {
            Record::Chat(record) => Record::Chat(record.clone()),
            Record::Snap(record) => Record::Snap(record.clone()),
        }
    }
}

impl Record {
    pub open spec fn kind_of(self) -> RecordKind {
        match self {
            Record::Chat(_) => RecordKind::Chat,
            Record::Snap(_) => RecordKind::Snap,
        }
    }

    #[must_use]
    pub fn kind(&self) -> (r: RecordKind)
        ensures
            r == self.kind_of(),
    {
        match self {
            Record::Chat(_) => RecordKind::Chat,
            Record::Snap(_) => RecordKind::Snap,
        }
    }

    /// Who sent it.
    #[must_use]
    pub fn from(&self) -> (r: Option<&Username>)
        ensures
            match *self {
                Record::Chat(record) => same_ref(r, record.from),
                Record::Snap(record) => same_ref(r, record.from),
            },
    {
        match self {
            Record::Chat(record) => record.from.as_ref(),
            Record::Snap(record) => record.from.as_ref(),
        }
    }

    /// Whether the owner of the export sent it.
    #[must_use]
    pub fn is_sender(&self) -> (r: bool)
        ensures
            r == match *self {
                Record::Chat(record) => record.is_sender,
                Record::Snap(record) => record.is_sender,
            },
    {
        match self {
            Record::Chat(record) => record.is_sender,
            Record::Snap(record) => record.is_sender,
        }
    }

    #[must_use]
    pub fn media_type(&self) -> (r: &MediaKind)
        ensures
            *r == match *self {
                Record::Chat(record) => record.media_type,
                Record::Snap(record) => record.media_type,
            },
    {
        match self {
            Record::Chat(record) => &record.media_type,
            Record::Snap(record) => &record.media_type,
        }
    }

    pub open spec fn stated(self) -> Option<Timestamp> {
        match self {
            Record::Chat(record) => record.created,
            Record::Snap(record) => record.created,
        }
    }

    pub open spec fn epoch(self) -> Option<i64> {
        match self {
            Record::Chat(record) => record.created_epoch_ms,
            Record::Snap(record) => record.created_epoch_ms,
        }
    }

    /// The time it spells out.
    #[must_use]
    pub fn created(&self) -> (r: Option<Timestamp>)
        ensures
            r == self.stated(),
    {
        match self {
            Record::Chat(record) => record.created,
            Record::Snap(record) => record.created,
        }
    }

    /// The time it counts from the epoch.
    #[must_use]
    pub fn created_epoch_ms(&self) -> (r: Option<i64>)
        ensures
            r == self.epoch(),
    {
        match self {
            Record::Chat(record) => record.created_epoch_ms,
            Record::Snap(record) => record.created_epoch_ms,
        }
    }

    #[must_use]
    pub fn conversation_title(&self) -> (r: Option<&String>)
        ensures
            match *self {
                Record::Chat(record) => same_ref(r, record.conversation_title),
                Record::Snap(record) => same_ref(r, record.conversation_title),
            },
    {
        match self {
            Record::Chat(record) => record.conversation_title.as_ref(),
            Record::Snap(record) => record.conversation_title.as_ref(),
        }
    }

    /// The time it spells out, else the one it counts.
    pub open spec fn resolved(self) -> Option<Timestamp> {
        match (self.stated(), self.epoch()) {
            (Some(at), _) => Some(at),
            (None, Some(ms)) => stamp_of_epoch(ms as int),
            (None, None) => None,
        }
    }

    #[must_use]
    pub fn resolved_created(&self) -> (r: Option<Timestamp>)
        ensures
            r == self.resolved(),
    {
        match (self.created(), self.created_epoch_ms()) {
            (Some(at), _) => Some(at),
            (None, Some(ms)) => Timestamp::from_epoch_ms(ms),
            (None, None) => None,
        }
    }

    /// What a chat record says; a snap says nothing.
    #[must_use]
    pub fn content(&self) -> (r: Option<&MessageText>)
        ensures
            match *self {
                Record::Chat(record) => same_ref(r, record.content),
                Record::Snap(_) => r is None,
            },
    {
        match self {
            Record::Chat(record) => record.content.as_ref(),
            Record::Snap(_) => None,
        }
    }

    /// The media a chat record names; a snap names none.
    #[must_use]
    pub fn media_ids(&self) -> (r: Option<&String>)
        ensures
            match *self {
                Record::Chat(record) => same_ref(r, record.media_ids),
                Record::Snap(_) => r is None,
            },
    {
        match self {
            Record::Chat(record) => record.media_ids.as_ref(),
            Record::Snap(_) => None,
        }
    }
}

/// Whether a reference is to what an option holds.
pub open spec fn same_ref<T>(r: Option<&T>, held: Option<T>) -> bool {
    match r {
        Some(value) => held == Some(*value),
        None => held is None,
    }
}

// ---- order ----

/// A timestamp as one number, later ones larger.
pub open spec fn stamp_rank(at: Timestamp) -> int {
    ((((at.year * 256 + at.month) * 256 + at.day) * 256 + at.hour) * 256 + at.minute) * 256 + at.second
}

/// A timestamp's number orders as its fields do.
pub proof fn lemma_rank_orders(a: Timestamp, b: Timestamp)
    ensures
        stamp_rank(a) <= stamp_rank(b) <==> stamp_le(a, b),
{
}

fn rank(at: Timestamp) -> (r: u64)
    ensures
        r == stamp_rank(at),
{
    ((((at.year as u64 * 256 + at.month as u64) * 256 + at.day as u64) * 256 + at.hour as u64) * 256 + at.minute as u64) * 256
        + at.second as u64
}

/// Where a record with no time stands: after every one with a time.
pub open spec fn time_rank(record: Record) -> int {
    match record.resolved() {
        Some(at) => stamp_rank(at),
        None => 0x1_0000_0000_0000_0000,
    }
}

/// Where a record with no count stands: before every one with a count.
pub open spec fn epoch_rank(record: Record) -> int {
    match record.epoch() {
        Some(ms) => ms as int,
        None => i64::MIN - 1,
    }
}

pub open spec fn kind_rank(record: Record) -> int {
    match record.kind_of() {
        RecordKind::Chat => 0,
        RecordKind::Snap => 1,
    }
}

impl Ranked for Record {
    /// By time, one with none last; then by count, one with none first; then chats before snaps.
    open spec fn le(self, other: Self) -> bool {
        if time_rank(self) != time_rank(other) {
            time_rank(self) < time_rank(other)
        } else if epoch_rank(self) != epoch_rank(other) {
            epoch_rank(self) < epoch_rank(other)
        } else {
            kind_rank(self) <= kind_rank(other)
        }
    }

    proof fn total(a: Self, b: Self) {
    }

    proof fn transitive(a: Self, b: Self, c: Self) {
    }

    fn not_after(&self, other: &Self) -> (r: bool) {
        let (a, b) = (SortKey::of(self), SortKey::of(other));
        if a.time != b.time {
            a.time < b.time
        } else if a.epoch != b.epoch {
            a.epoch < b.epoch
        } else {
            a.kind <= b.kind
        }
    }
}

/// What records are put in order by.
struct SortKey {
    time: u128,
    epoch: i128,
    kind: u8,
}

impl SortKey {
    fn of(record: &Record) -> (r: Self)
        ensures
            r.time == time_rank(*record),
            r.epoch == epoch_rank(*record),
            r.kind == kind_rank(*record),
    {
        SortKey {
            time: match record.resolved_created() {
                Some(at) => rank(at) as u128,
                None => 0x1_0000_0000_0000_0000,
            },
            epoch: match record.created_epoch_ms() {
                Some(ms) => ms as i128,
                None => -0x8000_0000_0000_0001,
            },
            kind: match record.kind() {
                RecordKind::Chat => 0,
                RecordKind::Snap => 1,
            },
        }
    }
}

// ---- threads ----

/// One conversation's records from both histories, in order.
#[derive(Debug, PartialEq, Eq)]
pub struct Thread {
    pub id: ConversationId,
    pub records: Vec<Record>,
}

/// Every conversation, in the order of their keys.
#[derive(Debug, PartialEq, Eq)]
pub struct MergedHistory {
    pub threads: Vec<Thread>,
}

impl Ranked for Thread {
    open spec fn le(self, other: Self) -> bool {
        text_le(self.id.0@, other.id.0@)
    }

    proof fn total(a: Self, b: Self) {
        lemma_text_le_total(a.id.0@, b.id.0@);
    }

    proof fn transitive(a: Self, b: Self, c: Self) {
        lemma_text_le_transitive(a.id.0@, b.id.0@, c.id.0@);
    }

    fn not_after(&self, other: &Self) -> (r: bool) {
        text_not_after(self.id.as_str(), other.id.as_str())
    }
}

pub open spec fn thread_key() -> spec_fn(Thread) -> Seq<char> {
    |thread: Thread| thread.id.0@
}

pub open spec fn as_chats(records: Seq<ChatMessage>) -> Seq<Record> {
    records.map_values(|record: ChatMessage| Record::Chat(record))
}

pub open spec fn as_snaps(records: Seq<Snap>) -> Seq<Record> {
    records.map_values(|record: Snap| Record::Snap(record))
}

/// The chat records of one conversation, as the export lists them.
pub open spec fn chats_of(chat: Seq<Conversation<ChatMessage>>, id: Seq<char>) -> Seq<Record>
    decreases chat.len(),
{
    if chat.len() == 0 {
        Seq::empty()
    } else {
        let before = chats_of(chat.drop_last(), id);
        if chat.last().id.0@ == id {
            before + as_chats(chat.last().records@)
        } else {
            before
        }
    }
}

/// The snap records of one conversation, as the export lists them.
pub open spec fn snaps_of(snap: Seq<Conversation<Snap>>, id: Seq<char>) -> Seq<Record>
    decreases snap.len(),
{
    if snap.len() == 0 {
        Seq::empty()
    } else {
        let before = snaps_of(snap.drop_last(), id);
        if snap.last().id.0@ == id {
            before + as_snaps(snap.last().records@)
        } else {
            before
        }
    }
}

pub open spec fn names_id<R>(history: Seq<Conversation<R>>, id: Seq<char>) -> bool {
    exists|i: int| 0 <= i < history.len() && (#[trigger] history[i]).id.0@ == id
}

pub open spec fn has_thread(threads: Seq<Thread>, id: Seq<char>) -> bool {
    exists|i: int| 0 <= i < threads.len() && (#[trigger] threads[i]).id.0@ == id
}

/// What merging two histories comes to: a thread for each conversation either names and for no
/// other, in the order of their keys, each with its records from both in order.
pub open spec fn merges(
    merged: MergedHistory,
    chat: Seq<Conversation<ChatMessage>>,
    snap: Seq<Conversation<Snap>>,
) -> bool {
    &&& in_order(merged.threads@)
    &&& keys_distinct(merged.threads@, thread_key())
    &&& forall|id: Seq<char>| #[trigger]
        has_thread(merged.threads@, id) <==> names_id(chat, id) || names_id(snap, id)
    &&& forall|i: int|
        0 <= i < merged.threads@.len() ==> (#[trigger] merged.threads@[i]).records@ == sorted(
            chats_of(chat, merged.threads@[i].id.0@) + snaps_of(snap, merged.threads@[i].id.0@),
        )
}

/// How far gathering has come: one thread for each conversation seen, with its records so far.
spec fn gathered(threads: Seq<Thread>, chat: Seq<Conversation<ChatMessage>>, snap: Seq<Conversation<Snap>>) -> bool {
    &&& keys_distinct(threads, thread_key())
    &&& forall|id: Seq<char>| #[trigger] has_thread(threads, id) <==> names_id(chat, id) || names_id(snap, id)
    &&& forall|i: int|
        0 <= i < threads.len() ==> (#[trigger] threads[i]).records@ == chats_of(chat, threads[i].id.0@) + snaps_of(
            snap,
            threads[i].id.0@,
        )
}

/// What filing records under a conversation does.
spec fn filed(before: Seq<Thread>, after: Seq<Thread>, id: Seq<char>, records: Seq<Record>) -> bool {
    &&& keys_distinct(after, thread_key())
    &&& forall|other: Seq<char>| #[trigger] has_thread(after, other) <==> has_thread(before, other) || other == id
    &&& if has_thread(before, id) {
        &&& after.len() == before.len()
        &&& forall|i: int|
            0 <= i < after.len() ==> (#[trigger] after[i]).id == before[i].id && after[i].records@ == (if before[i].id.0@ == id {
                before[i].records@ + records
            } else {
                before[i].records@
            })
    } else {
        &&& after.len() == before.len() + 1
        &&& forall|i: int| 0 <= i < before.len() ==> #[trigger] after[i] == before[i]
        &&& after.last().id.0@ == id
        &&& after.last().records@ == records
    }
}

/// Where a conversation's thread stands.
fn find_thread(threads: &Vec<Thread>, id: &ConversationId) -> (r: Option<usize>)
    ensures
        match r {
            Some(at) => at < threads@.len() && threads@[at as int].id.0@ == id.0@,
            None => !has_thread(threads@, id.0@),
        },
{
    let mut i: usize = 0;
    while i < threads.len()
        invariant
            i <= threads@.len(),
            forall|j: int| 0 <= j < i ==> (#[trigger] threads@[j]).id.0@ != id.0@,
        decreases threads.len() - i,
    {
        if same(threads[i].id.as_str(), id.as_str()) {
            return Some(i);
        }
        i += 1;
    }
    None
}

/// Files records under a conversation, behind the ones it has.
fn file_under(threads: &mut Vec<Thread>, id: &ConversationId, records: Vec<Record>)
    requires
        keys_distinct(old(threads)@, thread_key()),
    ensures
        filed(old(threads)@, final(threads)@, id.0@, records@),
{
    let ghost before = threads@;
    let ghost more = records@;
    if let Some(i) = find_thread(threads, id) {
        let mut records = records;
        let mut thread = threads.remove(i);
        let ghost was = thread.records@;
        thread.records.append(&mut records);
        assert(thread.records@ == was + more);
        threads.insert(i, thread);
        proof {
            assert(before[i as int].id.0@ == id.0@);
            assert(has_thread(before, id.0@));
            assert forall|k: int| 0 <= k < threads@.len() implies (#[trigger] threads@[k]).id == before[k].id && threads@[k].records@
                == (if before[k].id.0@ == id.0@ {
                before[k].records@ + more
            } else {
                before[k].records@
            }) by {
                if k != i {
                    assert(thread_key()(before[k]) != thread_key()(before[i as int]));
                }
            }
            assert forall|a: int, b: int| 0 <= a < b < threads@.len() implies thread_key()(#[trigger] threads@[a]) != thread_key()(
                #[trigger] threads@[b],
            ) by {
                assert(thread_key()(before[a]) != thread_key()(before[b]));
            }
            assert forall|other: Seq<char>| #[trigger] has_thread(threads@, other) <==> has_thread(before, other) || other
                == id.0@ by {
                if has_thread(threads@, other) {
                    let k = choose|k: int| 0 <= k < threads@.len() && (#[trigger] threads@[k]).id.0@ == other;
                    assert(before[k].id.0@ == other);
                }
                if has_thread(before, other) {
                    let k = choose|k: int| 0 <= k < before.len() && (#[trigger] before[k]).id.0@ == other;
                    assert(threads@[k].id.0@ == other);
                }
                if other == id.0@ {
                    assert(threads@[i as int].id.0@ == other);
                }
            }
        }
        return ;
    }
    let thread = Thread { id: id.clone(), records };
    threads.push(thread);
    proof {
        assert(!has_thread(before, id.0@));
        assert forall|a: int, b: int| 0 <= a < b < threads@.len() implies thread_key()(#[trigger] threads@[a]) != thread_key()(
            #[trigger] threads@[b],
        ) by {
            if b < before.len() {
                assert(thread_key()(before[a]) != thread_key()(before[b]));
            }
        }
        assert forall|other: Seq<char>| #[trigger] has_thread(threads@, other) <==> has_thread(before, other) || other == id.0@ by {
            if has_thread(threads@, other) {
                let k = choose|k: int| 0 <= k < threads@.len() && (#[trigger] threads@[k]).id.0@ == other;
                if k < before.len() {
                    assert(before[k].id.0@ == other);
                }
            }
            if has_thread(before, other) {
                let k = choose|k: int| 0 <= k < before.len() && (#[trigger] before[k]).id.0@ == other;
                assert(threads@[k].id.0@ == other);
            }
            if other == id.0@ {
                assert(threads@[before.len() as int].id.0@ == other);
            }
        }
    }
}

proof fn lemma_no_chats(chat: Seq<Conversation<ChatMessage>>, id: Seq<char>)
    requires
        !names_id(chat, id),
    ensures
        chats_of(chat, id) == Seq::<Record>::empty(),
    decreases chat.len(),
{
    if chat.len() > 0 {
        let less = chat.drop_last();
        if names_id(less, id) {
            let i = choose|i: int| 0 <= i < less.len() && (#[trigger] less[i]).id.0@ == id;
            assert(chat[i].id.0@ == id);
        }
        assert(chat[chat.len() - 1].id.0@ != id);
        lemma_no_chats(less, id);
    }
}

proof fn lemma_no_snaps(snap: Seq<Conversation<Snap>>, id: Seq<char>)
    requires
        !names_id(snap, id),
    ensures
        snaps_of(snap, id) == Seq::<Record>::empty(),
    decreases snap.len(),
{
    if snap.len() > 0 {
        let less = snap.drop_last();
        if names_id(less, id) {
            let i = choose|i: int| 0 <= i < less.len() && (#[trigger] less[i]).id.0@ == id;
            assert(snap[i].id.0@ == id);
        }
        assert(snap[snap.len() - 1].id.0@ != id);
        lemma_no_snaps(less, id);
    }
}

proof fn lemma_names_more<R>(history: Seq<Conversation<R>>, at: int)
    requires
        0 <= at < history.len(),
    ensures
        forall|id: Seq<char>| #[trigger]
            names_id(history.take(at + 1), id) <==> names_id(history.take(at), id) || history[at].id.0@ == id,
{
    let (less, more) = (history.take(at), history.take(at + 1));
    assert forall|id: Seq<char>| #[trigger] names_id(more, id) <==> names_id(less, id) || history[at].id.0@ == id by {
        if names_id(more, id) {
            let i = choose|i: int| 0 <= i < more.len() && (#[trigger] more[i]).id.0@ == id;
            if i < at {
                assert(less[i].id.0@ == id);
            }
        }
        if names_id(less, id) {
            let i = choose|i: int| 0 <= i < less.len() && (#[trigger] less[i]).id.0@ == id;
            assert(more[i].id.0@ == id);
        }
        if history[at].id.0@ == id {
            assert(more[at].id.0@ == id);
        }
    }
}

fn chat_records(records: &Vec<ChatMessage>) -> (r: Vec<Record>)
    ensures
        r@ == as_chats(records@),
{
    let mut out: Vec<Record> = Vec::new();
    let mut i: usize = 0;
    while i < records.len()
        invariant
            i <= records@.len(),
            out@ == as_chats(records@).take(i as int),
        decreases records.len() - i,
    {
        out.push(Record::Chat(records[i].clone()));
        assert(out@ =~= as_chats(records@).take(i + 1));
        i += 1;
    }
    assert(out@ =~= as_chats(records@));
    out
}

fn snap_records(records: &Vec<Snap>) -> (r: Vec<Record>)
    ensures
        r@ == as_snaps(records@),
{
    let mut out: Vec<Record> = Vec::new();
    let mut i: usize = 0;
    while i < records.len()
        invariant
            i <= records@.len(),
            out@ == as_snaps(records@).take(i as int),
        decreases records.len() - i,
    {
        out.push(Record::Snap(records[i].clone()));
        assert(out@ =~= as_snaps(records@).take(i + 1));
        i += 1;
    }
    assert(out@ =~= as_snaps(records@));
    out
}

/// Gathers every conversation's records, chats before snaps.
fn gather(chat: &Vec<Conversation<ChatMessage>>, snap: &Vec<Conversation<Snap>>) -> (r: Vec<Thread>)
    ensures
        gathered(r@, chat@, snap@),
{
    let mut threads: Vec<Thread> = Vec::new();
    let ghost none = snap@.take(0);
    assert(none =~= Seq::empty());
    assert(chat@.take(0) =~= Seq::empty());
    let mut i: usize = 0;
    while i < chat.len()
        invariant
            i <= chat@.len(),
            none == Seq::<Conversation<Snap>>::empty(),
            gathered(threads@, chat@.take(i as int), none),
        decreases chat.len() - i,
    {
        let ghost before = threads@;
        let conversation = &chat[i];
        let records = chat_records(&conversation.records);
        file_under(&mut threads, &conversation.id, records);
        proof {
            let (less, more) = (chat@.take(i as int), chat@.take(i + 1));
            let id = conversation.id.0@;
            assert(more.drop_last() =~= less);
            assert(more.last() == *conversation);
            lemma_names_more(chat@, i as int);
            if !has_thread(before, id) {
                lemma_no_chats(less, id);
                assert(!names_id(less, id));
            }
            assert forall|k: int| 0 <= k < threads@.len() implies (#[trigger] threads@[k]).records@ == chats_of(
                more,
                threads@[k].id.0@,
            ) + snaps_of(none, threads@[k].id.0@) by {
                if k < before.len() {
                    let own = before[k].id.0@;
                    assert(chats_of(less, own) + snaps_of(none, own) =~= chats_of(less, own));
                    assert(threads@[k].id.0@ == own);
                    if !has_thread(before, id) {
                        assert(has_thread(before, own));
                    }
                    assert(chats_of(more, own) + snaps_of(none, own) =~= chats_of(more, own));
                } else {
                    assert(chats_of(more, id) + snaps_of(none, id) =~= as_chats(conversation.records@));
                }
            }
        }
        i += 1;
    }
    assert(chat@.take(i as int) =~= chat@);
    let mut j: usize = 0;
    while j < snap.len()
        invariant
            j <= snap@.len(),
            gathered(threads@, chat@, snap@.take(j as int)),
        decreases snap.len() - j,
    {
        let ghost before = threads@;
        let conversation = &snap[j];
        let records = snap_records(&conversation.records);
        file_under(&mut threads, &conversation.id, records);
        proof {
            let (less, more) = (snap@.take(j as int), snap@.take(j + 1));
            let id = conversation.id.0@;
            assert(more.drop_last() =~= less);
            assert(more.last() == *conversation);
            lemma_names_more(snap@, j as int);
            if !has_thread(before, id) {
                lemma_no_chats(chat@, id);
                lemma_no_snaps(less, id);
            }
            assert forall|k: int| 0 <= k < threads@.len() implies (#[trigger] threads@[k]).records@ == chats_of(
                chat@,
                threads@[k].id.0@,
            ) + snaps_of(more, threads@[k].id.0@) by {
                if k < before.len() {
                    let own = before[k].id.0@;
                    assert(threads@[k].id.0@ == own);
                    if !has_thread(before, id) {
                        assert(has_thread(before, own));
                    }
                    if own == id {
                        assert(chats_of(chat@, own) + snaps_of(less, own) + as_snaps(conversation.records@) =~= chats_of(chat@, own)
                            + (snaps_of(less, own) + as_snaps(conversation.records@)));
                    }
                } else {
                    assert(chats_of(chat@, id) + snaps_of(more, id) =~= as_snaps(conversation.records@));
                }
            }
        }
        j += 1;
    }
    assert(snap@.take(j as int) =~= snap@);
    threads
}

/// Merges the two histories of an export.
#[must_use]
pub fn merge(chat: &ChatHistory, snap: &SnapHistory) -> (r: MergedHistory)
    ensures
        merges(r, chat.conversations@, snap.conversations@),
{
    let threads = gather(&chat.conversations, &snap.conversations);
    let ghost all = threads@;
    let mut ordered: Vec<Thread> = Vec::new();
    for thread in it: threads
        invariant
            it.seq() == all,
            ordered@.len() == it.index(),
            forall|k: int|
                0 <= k < ordered@.len() ==> (#[trigger] ordered@[k]).id == all[k].id && ordered@[k].records@ == sorted(all[k].records@),
    {
        let records = sort(thread.records);
        ordered.push(Thread { id: thread.id, records });
    }
    let ghost put = ordered@;
    proof {
        assert forall|a: int, b: int| 0 <= a < b < put.len() implies thread_key()(#[trigger] put[a]) != thread_key()(
            #[trigger] put[b],
        ) by {
            assert(thread_key()(all[a]) != thread_key()(all[b]));
        }
        lemma_sorted(put);
        lemma_sorted_distinct(put, thread_key());
    }
    let threads = sort(ordered);
    let merged = MergedHistory { threads };
    proof {
        let done = merged.threads@;
        assert forall|id: Seq<char>| #[trigger] has_thread(done, id) <==> names_id(chat.conversations@, id) || names_id(
            snap.conversations@,
            id,
        ) by {
            assert(has_thread(all, id) <==> names_id(chat.conversations@, id) || names_id(snap.conversations@, id));
            if has_thread(done, id) {
                let k = choose|k: int| 0 <= k < done.len() && (#[trigger] done[k]).id.0@ == id;
                lemma_sorted_contains(put, done[k]);
                assert(done.contains(done[k]));
                let m = choose|m: int| 0 <= m < put.len() && put[m] == done[k];
                assert(all[m].id.0@ == id);
            }
            if has_thread(all, id) {
                let m = choose|m: int| 0 <= m < all.len() && (#[trigger] all[m]).id.0@ == id;
                assert(put[m].id == all[m].id);
                lemma_sorted_contains(put, put[m]);
                assert(put.contains(put[m]));
                let k = choose|k: int| 0 <= k < done.len() && done[k] == put[m];
                assert(done[k].id.0@ == id);
            }
        }
        assert forall|k: int| 0 <= k < done.len() implies (#[trigger] done[k]).records@ == sorted(
            chats_of(chat.conversations@, done[k].id.0@) + snaps_of(snap.conversations@, done[k].id.0@),
        ) by {
            lemma_sorted_contains(put, done[k]);
            assert(done.contains(done[k]));
            let m = choose|m: int| 0 <= m < put.len() && put[m] == done[k];
            assert(all[m].records@ == chats_of(chat.conversations@, all[m].id.0@) + snaps_of(snap.conversations@, all[m].id.0@));
        }
    }
    merged
}

// ---- laws ----

/// A thread loses no record and invents none.
pub proof fn law_merging_keeps_every_record(
    merged: MergedHistory,
    chat: Seq<Conversation<ChatMessage>>,
    snap: Seq<Conversation<Snap>>,
    at: int,
)
    requires
        merges(merged, chat, snap),
        0 <= at < merged.threads@.len(),
    ensures
        ({
            let thread = merged.threads@[at];
            thread.records@.to_multiset() == (chats_of(chat, thread.id.0@) + snaps_of(snap, thread.id.0@)).to_multiset()
        }),
{
    let thread = merged.threads@[at];
    lemma_sorted(chats_of(chat, thread.id.0@) + snaps_of(snap, thread.id.0@));
}

/// Within a thread time does not run backwards, and a record with no time comes after every one
/// with a time.
pub proof fn law_a_thread_runs_forward(
    merged: MergedHistory,
    chat: Seq<Conversation<ChatMessage>>,
    snap: Seq<Conversation<Snap>>,
    at: int,
    i: int,
    j: int,
)
    requires
        merges(merged, chat, snap),
        0 <= at < merged.threads@.len(),
        0 <= i < j < merged.threads@[at].records@.len(),
    ensures
        ({
            let records = merged.threads@[at].records@;
            match (records[i].resolved(), records[j].resolved()) {
                (Some(a), Some(b)) => stamp_le(a, b),
                (None, Some(_)) => false,
                _ => true,
            }
        }),
{
    let thread = merged.threads@[at];
    lemma_sorted(chats_of(chat, thread.id.0@) + snaps_of(snap, thread.id.0@));
    let (a, b) = (thread.records@[i], thread.records@[j]);
    assert(a.le(b));
    match (a.resolved(), b.resolved()) {
        (Some(x), Some(y)) => {
            lemma_rank_orders(x, y);
        },
        _ => {},
    }
}

/// A record resolves to the time it spells out; where it spells none, to the second its count falls
/// in, where a year of four digits names that second; and else to nothing.
pub proof fn law_a_record_resolves_to_what_it_states(record: Record)
    ensures
        record.stated() matches Some(at) ==> record.resolved() == Some(at),
        record.stated() is None && record.epoch() is None ==> record.resolved() is None,
        record.stated() is None ==> (record.epoch() matches Some(ms) ==> match record.resolved() {
            Some(at) => at.year <= 9999 && calendar_has(at) && unix_seconds(reading_of(at)) == ms as int / 1000,
            None => forall|at: Timestamp| at.year <= 9999 && #[trigger] calendar_has(at) ==> unix_seconds(reading_of(at)) != ms as int / 1000,
        }),
        record matches Record::Chat(message) ==> record.stated() == message.created && record.epoch() == message.created_epoch_ms,
        record matches Record::Snap(snap) ==> record.stated() == snap.created && record.epoch() == snap.created_epoch_ms,
{
    match (record.stated(), record.epoch()) {
        (None, Some(ms)) => {
            assert forall|at: Timestamp| at.year <= 9999 && #[trigger] calendar_has(at) && unix_seconds(reading_of(at)) == ms as int
                / 1000 implies names_epoch(at, ms as int) by {
                law_a_stated_instant_is_read_as_spelled(at);
            }
        },
        _ => {},
    }
}

/// Times stand as they follow each other: where the calendar has both, one is no later than another
/// exactly where it names no later second.
pub proof fn law_times_stand_as_they_follow(a: Timestamp, b: Timestamp)
    requires
        calendar_has(a),
        calendar_has(b),
    ensures
        stamp_le(a, b) <==> unix_seconds(reading_of(a)) <= unix_seconds(reading_of(b)),
{
    let (x, y) = (reading_of(a), reading_of(b));
    if x.year == y.year && x.month == y.month && x.day == y.day {
    } else if x.year < y.year || (x.year == y.year && (x.month < y.month || (x.month == y.month && x.day < y.day))) {
        lemma_unix_grows(x, y);
    } else {
        lemma_unix_grows(y, x);
    }
}

/// Within one instant the counts decide: of two records of a thread that resolve to the same time,
/// or both to none, the one with the smaller count stands first, and one without a count before any
/// with one. Where the counts are the same too, chats stand before snaps.
pub proof fn law_the_count_orders_an_instant(
    merged: MergedHistory,
    chat: Seq<Conversation<ChatMessage>>,
    snap: Seq<Conversation<Snap>>,
    at: int,
    i: int,
    j: int,
)
    requires
        merges(merged, chat, snap),
        0 <= at < merged.threads@.len(),
        0 <= i < j < merged.threads@[at].records@.len(),
        merged.threads@[at].records@[i].resolved() == merged.threads@[at].records@[j].resolved(),
    ensures
        ({
            let (a, b) = (merged.threads@[at].records@[i], merged.threads@[at].records@[j]);
            match (a.epoch(), b.epoch()) {
                (Some(first), Some(second)) => first <= second && (first == second ==> !(a is Snap && b is Chat)),
                (Some(_), None) => false,
                (None, Some(_)) => true,
                (None, None) => !(a is Snap && b is Chat),
            }
        }),
{
    let thread = merged.threads@[at];
    lemma_sorted(chats_of(chat, thread.id.0@) + snaps_of(snap, thread.id.0@));
    assert(thread.records@[i].le(thread.records@[j]));
}

/// Time decides first: of two records of a thread that spell or count times the calendar has, the
/// one that names the earlier second stands first, whatever else they say.
pub proof fn law_the_earlier_second_stands_first(
    merged: MergedHistory,
    chat: Seq<Conversation<ChatMessage>>,
    snap: Seq<Conversation<Snap>>,
    at: int,
    i: int,
    j: int,
    first: Timestamp,
    second: Timestamp,
)
    requires
        merges(merged, chat, snap),
        0 <= at < merged.threads@.len(),
        0 <= i < j < merged.threads@[at].records@.len(),
        merged.threads@[at].records@[i].resolved() == Some(first),
        merged.threads@[at].records@[j].resolved() == Some(second),
        calendar_has(first),
        calendar_has(second),
    ensures
        unix_seconds(reading_of(first)) <= unix_seconds(reading_of(second)),
{
    law_a_thread_runs_forward(merged, chat, snap, at, i, j);
    law_times_stand_as_they_follow(first, second);
}

/// Records nothing tells apart stand as the export lists them, chats before snaps.
pub proof fn law_level_records_stand_as_listed(
    merged: MergedHistory,
    chat: Seq<Conversation<ChatMessage>>,
    snap: Seq<Conversation<Snap>>,
    at: int,
    one: Record,
)
    requires
        merges(merged, chat, snap),
        0 <= at < merged.threads@.len(),
    ensures
        ({
            let thread = merged.threads@[at];
            thread.records@.filter(level_with(one)) == (chats_of(chat, thread.id.0@) + snaps_of(snap, thread.id.0@)).filter(level_with(one))
        }),
{
    let thread = merged.threads@[at];
    law_sorting_keeps_the_order_of_equals(chats_of(chat, thread.id.0@) + snaps_of(snap, thread.id.0@), one);
}

/// Whether a history lists a chat record under a conversation.
pub open spec fn lists_chat(chat: Seq<Conversation<ChatMessage>>, id: Seq<char>, message: ChatMessage) -> bool {
    exists|c: int, r: int|
        0 <= c < chat.len() && 0 <= r < chat[c].records@.len() && chat[c].id.0@ == id && #[trigger] chat[c].records@[r] == message
}

/// Whether a history lists a snap record under a conversation.
pub open spec fn lists_snap(snap: Seq<Conversation<Snap>>, id: Seq<char>, record: Snap) -> bool {
    exists|c: int, r: int|
        0 <= c < snap.len() && 0 <= r < snap[c].records@.len() && snap[c].id.0@ == id && #[trigger] snap[c].records@[r] == record
}

proof fn lemma_chats_listed(chat: Seq<Conversation<ChatMessage>>, id: Seq<char>, record: Record)
    ensures
        chats_of(chat, id).contains(record) <==> (record matches Record::Chat(message) && lists_chat(chat, id, message)),
    decreases chat.len(),
{
    let all = chats_of(chat, id);
    if chat.len() > 0 {
        let less = chat.drop_last();
        let before = chats_of(less, id);
        let own = as_chats(chat.last().records@);
        lemma_chats_listed(less, id, record);
        if all.contains(record) {
            let i = choose|i: int| 0 <= i < all.len() && all[i] == record;
            if i < before.len() {
                assert(before[i] == record);
                assert(before.contains(record));
                let message = record->Chat_0;
                let (c, r) = choose|c: int, r: int|
                    0 <= c < less.len() && 0 <= r < less[c].records@.len() && less[c].id.0@ == id && #[trigger] less[c].records@[r]
                        == message;
                assert(chat[c].records@[r] == message);
            } else {
                assert(own[i - before.len()] == record);
                assert(chat[chat.len() - 1].records@[i - before.len()] == record->Chat_0);
            }
        }
        if record matches Record::Chat(message) && lists_chat(chat, id, message) {
            let message = record->Chat_0;
            let (c, r) = choose|c: int, r: int|
                0 <= c < chat.len() && 0 <= r < chat[c].records@.len() && chat[c].id.0@ == id && #[trigger] chat[c].records@[r] == message;
            if c < less.len() {
                assert(less[c].records@[r] == message);
                let i = choose|i: int| 0 <= i < before.len() && before[i] == record;
                assert(all[i] == record);
            } else {
                assert(own[r] == record);
                assert(all[before.len() + r] == record);
            }
        }
    }
}

proof fn lemma_snaps_listed(snap: Seq<Conversation<Snap>>, id: Seq<char>, record: Record)
    ensures
        snaps_of(snap, id).contains(record) <==> (record matches Record::Snap(own) && lists_snap(snap, id, own)),
    decreases snap.len(),
{
    let all = snaps_of(snap, id);
    if snap.len() > 0 {
        let less = snap.drop_last();
        let before = snaps_of(less, id);
        let own = as_snaps(snap.last().records@);
        lemma_snaps_listed(less, id, record);
        if all.contains(record) {
            let i = choose|i: int| 0 <= i < all.len() && all[i] == record;
            if i < before.len() {
                assert(before[i] == record);
                assert(before.contains(record));
                let inner = record->Snap_0;
                let (c, r) = choose|c: int, r: int|
                    0 <= c < less.len() && 0 <= r < less[c].records@.len() && less[c].id.0@ == id && #[trigger] less[c].records@[r]
                        == inner;
                assert(snap[c].records@[r] == inner);
            } else {
                assert(own[i - before.len()] == record);
                assert(snap[snap.len() - 1].records@[i - before.len()] == record->Snap_0);
            }
        }
        if record matches Record::Snap(inner) && lists_snap(snap, id, inner) {
            let inner = record->Snap_0;
            let (c, r) = choose|c: int, r: int|
                0 <= c < snap.len() && 0 <= r < snap[c].records@.len() && snap[c].id.0@ == id && #[trigger] snap[c].records@[r] == inner;
            if c < less.len() {
                assert(less[c].records@[r] == inner);
                let i = choose|i: int| 0 <= i < before.len() && before[i] == record;
                assert(all[i] == record);
            } else {
                assert(own[r] == record);
                assert(all[before.len() + r] == record);
            }
        }
    }
}

/// A thread holds the records of its own conversation: every chat and every snap listed under its
/// key, and no record that is listed under another.
pub proof fn law_a_thread_holds_its_own_records(
    merged: MergedHistory,
    chat: Seq<Conversation<ChatMessage>>,
    snap: Seq<Conversation<Snap>>,
    at: int,
    record: Record,
)
    requires
        merges(merged, chat, snap),
        0 <= at < merged.threads@.len(),
    ensures
        merged.threads@[at].records@.contains(record) <==> match record {
            Record::Chat(message) => lists_chat(chat, merged.threads@[at].id.0@, message),
            Record::Snap(inner) => lists_snap(snap, merged.threads@[at].id.0@, inner),
        },
{
    let id = merged.threads@[at].id.0@;
    let (chats, snaps) = (chats_of(chat, id), snaps_of(snap, id));
    lemma_chats_listed(chat, id, record);
    lemma_snaps_listed(snap, id, record);
    lemma_sorted_contains(chats + snaps, record);
    if chats.contains(record) {
        let i = choose|i: int| 0 <= i < chats.len() && chats[i] == record;
        assert((chats + snaps)[i] == record);
    }
    if snaps.contains(record) {
        let i = choose|i: int| 0 <= i < snaps.len() && snaps[i] == record;
        assert((chats + snaps)[chats.len() + i] == record);
    }
    if (chats + snaps).contains(record) {
        let i = choose|i: int| 0 <= i < (chats + snaps).len() && (chats + snaps)[i] == record;
        if i < chats.len() {
            assert(chats[i] == record);
        } else {
            assert(snaps[i - chats.len()] == record);
        }
    }
}

/// Threads stand by their keys, one for each.
pub proof fn law_threads_stand_by_their_keys(
    merged: MergedHistory,
    chat: Seq<Conversation<ChatMessage>>,
    snap: Seq<Conversation<Snap>>,
    i: int,
    j: int,
)
    requires
        merges(merged, chat, snap),
        0 <= i < j < merged.threads@.len(),
    ensures
        text_le(merged.threads@[i].id.0@, merged.threads@[j].id.0@),
        merged.threads@[i].id.0@ != merged.threads@[j].id.0@,
{
    assert(merged.threads@[i].le(merged.threads@[j]));
    assert(thread_key()(merged.threads@[i]) != thread_key()(merged.threads@[j]));
}

} // verus!
