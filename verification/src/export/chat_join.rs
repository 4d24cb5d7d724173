//! The join between chat media and the messages that name it.
//!
//! A message names media by token. Every file with a token is joined to the first message that
//! names it; a token no file carries is a gap, and text that is no token at all is reported as
//! it stands.

use vstd::hash_map::StringHashMap;
use vstd::hash_set::StringHashSet;
use vstd::prelude::*;

use crate::calendar::{four_digits, two_digits};
use crate::export::chat_media::{
    file_of, found, heads, is_stray, leaders, lemma_heads, lemma_leader_at, lemma_leaders_distinct, lemma_strays_distinct,
    media_with, stray_layers, Family, Token, history_token_at, history_token_of, media_tokens, parse_history_token, tokens_of, ChatMedia, ChatMediaFile, Discovery,
    Duplicate,
};
use crate::export::model::{
    copy_sender, copy_text, ChatHistory, ChatMessage, Conversation, ConversationId, Day, Timestamp, UnreadableDir, Username,
    day_text, stamp_of_epoch,
};
use crate::order::{
    first_where, in_order, keys_distinct, lemma_filter_from, lemma_first_where, lemma_sorted, lemma_sorted_contains, lemma_sorted_distinct,
    lemma_text_le_total, lemma_text_le_transitive, sort, sorted, text_le, text_not_after, Ranked,
};
use crate::paths::FilePath;
use crate::text::{is_digit, split_first, views};

verus! {

// ---- messages ----

/// Where a message stands in the history: which conversation, and which record of it.
#[derive(Debug, Clone, Copy, PartialEq, Eq, PartialOrd, Ord, Hash, Structural)]
pub struct MessageRef {
    pub conversation: usize,
    pub message: usize,
}

/// What a joined file takes from the message that names it.
#[derive(Debug, PartialEq, Eq)]
pub struct Message {
    pub at: MessageRef,
    pub conversation: ConversationId,
    pub conversation_title: Option<String>,
    pub from: Option<Username>,
    pub is_sender: bool,
    pub created: Option<Timestamp>,
    pub created_epoch_ms: Option<i64>,
}

/// How a file stands to the history.
#[derive(Debug, PartialEq, Eq)]
pub enum Join {
    /// A message names it; this is the first that does.
    Named(Message),
    /// It has a token and no message names it.
    Unnamed,
    /// It has no token a message could name it by.
    NoToken,
}

impl Join {
    #[must_use]
    pub fn is_named(&self) -> (r: bool)
        ensures
            r == (self is Named),
    {
        matches!(self, Join::Named(_))
    }
}

/// The date a file is filed under.
#[derive(Debug, Clone, Copy, PartialEq, Eq, Structural)]
pub enum MediaDate {
    /// What its message states.
    Message(Timestamp),
    /// The day its filename opens with.
    Filename(Day),
}

/// One file, joined.
#[derive(Debug, PartialEq, Eq)]
pub struct ChatMediaItem {
    pub media: ChatMedia,
    pub join: Join,
}

/// The instant a message states: in full, or as an epoch that names one.
pub open spec fn stated(created: Option<Timestamp>, epoch_ms: Option<i64>) -> Option<Timestamp> {
    match (created, epoch_ms) {
        (Some(at), _) => Some(at),
        (None, Some(ms)) => stamp_of_epoch(ms as int),
        (None, None) => None,
    }
}

impl ChatMediaItem {
    #[must_use]
    pub fn source_id(&self) -> (r: &str)
        ensures
            r@ == self.media.file.id@,
    {
        self.media.source_id()
    }

    #[must_use]
    pub fn message(&self) -> (r: Option<&Message>)
        ensures
            match self.join {
                Join::Named(message) => r == Some(&message),
                _ => r is None,
            },
    {
        match &self.join {
            Join::Named(message) => Some(message),
            Join::Unnamed => None,
            Join::NoToken => None,
        }
    }

    /// The instant the message states where there is one, else the day in the filename.
    #[must_use]
    pub fn date(&self) -> (r: MediaDate)
        ensures
            r == item_date(*self),
    {
        let at: Option<Timestamp> = match self.message() {
            Some(message) => match (message.created, message.created_epoch_ms) {
                (Some(at), _) => Some(at),
                (None, Some(ms)) => Timestamp::from_epoch_ms(ms),
                (None, None) => None,
            },
            None => None,
        };
        match at {
            Some(at) => MediaDate::Message(at),
            None => MediaDate::Filename(self.media.file.day),
        }
    }
}

pub open spec fn item_date(item: ChatMediaItem) -> MediaDate {
    let at = match item.join {
        Join::Named(message) => stated(message.created, message.created_epoch_ms),
        _ => None,
    };
    match at {
        Some(at) => MediaDate::Message(at),
        None => MediaDate::Filename(item.media.file.day),
    }
}

// ---- gaps ----

/// Why a token has no file.
#[derive(Debug, Clone, Copy, PartialEq, Eq, Structural)]
pub enum MissingReason {
    /// The whole source was listed, and no file carries it.
    NoFile,
    /// Part of the source could not be listed, so absence is not known.
    Unscanned,
}

impl MissingReason {
    pub const ALL: [Self; 2] = [Self::NoFile, Self::Unscanned];

    pub open spec fn words(self) -> Seq<char> {
        match self {
            MissingReason::NoFile => "no chat media file in the export carries the id this message names"@,
            MissingReason::Unscanned =>
                "part of the source could not be listed, so the file this message names may exist but was never seen"@,
        }
    }

    /// The reason, as a manifest row records it.
    #[must_use]
    pub fn message(self) -> (r: &'static str)
        ensures
            r@ == self.words(),
    {
        match self {
            MissingReason::NoFile => "no chat media file in the export carries the id this message names",
            MissingReason::Unscanned =>
                "part of the source could not be listed, so the file this message names may exist but was never seen",
        }
    }
}

/// Text in a message's media ids that is no token, and the first message holding it.
#[derive(Debug, PartialEq, Eq)]
pub struct UnparsedToken {
    pub token: String,
    pub message: MessageRef,
}

/// A token no file carries, and the first message naming it.
#[derive(Debug, PartialEq, Eq)]
pub struct MissingMedia {
    pub token: String,
    pub message: MessageRef,
    pub conversation: ConversationId,
    pub reason: MissingReason,
}

impl Ranked for UnparsedToken {
    open spec fn le(self, other: Self) -> bool {
        text_le(self.token@, other.token@)
    }

    proof fn total(a: Self, b: Self) {
        lemma_text_le_total(a.token@, b.token@);
    }

    proof fn transitive(a: Self, b: Self, c: Self) {
        lemma_text_le_transitive(a.token@, b.token@, c.token@);
    }

    fn not_after(&self, other: &Self) -> (r: bool) {
        text_not_after(&self.token, &other.token)
    }
}

impl Ranked for MissingMedia {
    open spec fn le(self, other: Self) -> bool {
        text_le(self.token@, other.token@)
    }

    proof fn total(a: Self, b: Self) {
        lemma_text_le_total(a.token@, b.token@);
    }

    proof fn transitive(a: Self, b: Self, c: Self) {
        lemma_text_le_transitive(a.token@, b.token@, c.token@);
    }

    fn not_after(&self, other: &Self) -> (r: bool) {
        text_not_after(&self.token, &other.token)
    }
}

impl Ranked for ChatMedia {
    open spec fn le(self, other: Self) -> bool {
        text_le(self.file.id@, other.file.id@)
    }

    proof fn total(a: Self, b: Self) {
        lemma_text_le_total(a.file.id@, b.file.id@);
    }

    proof fn transitive(a: Self, b: Self, c: Self) {
        lemma_text_le_transitive(a.file.id@, b.file.id@, c.file.id@);
    }

    fn not_after(&self, other: &Self) -> (r: bool) {
        text_not_after(&self.file.id, &other.file.id)
    }
}

/// Everything the join decided.
#[derive(Debug, PartialEq, Eq)]
pub struct Reconciliation {
    pub items: Vec<ChatMediaItem>,
    pub missing: Vec<MissingMedia>,
    pub unparsed_tokens: Vec<UnparsedToken>,
    pub unparsed: Vec<FilePath>,
    pub duplicates: Vec<Duplicate>,
    pub unreadable: Vec<UnreadableDir>,
}

// ---- mentions ----

/// A token a message spells, and where.
pub struct Mention {
    pub at: MessageRef,
    pub raw: String,
}

pub struct MentionView {
    pub at: MessageRef,
    pub raw: Seq<char>,
}

impl View for Mention {
    type V = MentionView;

    open spec fn view(&self) -> MentionView {
        MentionView { at: self.at, raw: self.raw@ }
    }
}

pub open spec fn mention_views(s: Seq<Mention>) -> Seq<MentionView> {
    s.map_values(|mention: Mention| mention@)
}

/// The tokens one record spells.
pub open spec fn record_mentions(at: MessageRef, media_ids: Option<String>) -> Seq<MentionView> {
    match media_ids {
        Some(ids) => tokens_of(ids@).map_values(|raw: Seq<char>| MentionView { at, raw }),
        None => seq![],
    }
}

/// The tokens the records of one conversation spell, in order.
pub open spec fn thread_mentions(conversation: usize, records: Seq<ChatMessage>) -> Seq<MentionView>
    decreases records.len(),
{
    if records.len() == 0 {
        seq![]
    } else {
        thread_mentions(conversation, records.drop_last()) + record_mentions(
            MessageRef { conversation, message: (records.len() - 1) as usize },
            records.last().media_ids,
        )
    }
}

/// The tokens a history spells, in order.
pub open spec fn mentions_of(threads: Seq<Conversation<ChatMessage>>) -> Seq<MentionView>
    decreases threads.len(),
{
    if threads.len() == 0 {
        seq![]
    } else {
        mentions_of(threads.drop_last()) + thread_mentions((threads.len() - 1) as usize, threads.last().records@)
    }
}

/// [`mentions_of`], each token as text.
pub fn mentions(history: &ChatHistory) -> (r: Vec<Mention>)
    ensures
        mention_views(r@) == mentions_of(history.conversations@),
{
    let mut out: Vec<Mention> = Vec::new();
    let mut c: usize = 0;
    assert(mention_views(out@) =~= seq![]);
    while c < history.conversations.len()
        invariant
            c <= history.conversations@.len(),
            mention_views(out@) == mentions_of(history.conversations@.take(c as int)),
        decreases history.conversations.len() - c,
    {
        let thread = &history.conversations[c];
        let ghost threads = history.conversations@.take(c + 1);
        let ghost before = mention_views(out@);
        assert(threads.drop_last() =~= history.conversations@.take(c as int));
        assert(threads.last() == *thread);
        let mut m: usize = 0;
        assert(before + thread_mentions(c, thread.records@.take(0)) =~= before);
        while m < thread.records.len()
            invariant
                m <= thread.records@.len(),
                mention_views(out@) == before + thread_mentions(c, thread.records@.take(m as int)),
            decreases thread.records.len() - m,
        {
            let ghost records = thread.records@.take(m + 1);
            assert(records.drop_last() =~= thread.records@.take(m as int));
            assert(records.last() == thread.records@[m as int]);
            let at = MessageRef { conversation: c, message: m };
            let ghost so_far = mention_views(out@);
            match &thread.records[m].media_ids {
                Some(ids) => {
                    let tokens = media_tokens(ids);
                    let mut t: usize = 0;
                    let ghost spelled = record_mentions(at, thread.records@[m as int].media_ids);
                    assert(so_far + spelled.take(0) =~= so_far);
                    while t < tokens.len()
                        invariant
                            t <= tokens@.len(),
                            spelled.len() == tokens@.len(),
                            forall|i: int| 0 <= i < spelled.len() ==> (#[trigger] spelled[i]) == (MentionView { at, raw: views(tokens@)[i] }),
                            mention_views(out@) == so_far + spelled.take(t as int),
                        decreases tokens.len() - t,
                    {
                        let ghost prior = out@;
                        out.push(Mention { at, raw: tokens[t].clone() });
                        assert(mention_views(out@) =~= mention_views(prior).push(spelled[t as int]));
                        assert(so_far + spelled.take(t + 1) =~= (so_far + spelled.take(t as int)).push(spelled[t as int]));
                        t += 1;
                    }
                    assert(spelled.take(t as int) =~= spelled);
                },
                None => {
                    assert(so_far + record_mentions(at, thread.records@[m as int].media_ids) =~= so_far);
                },
            }
            assert(mention_views(out@) =~= before + thread_mentions(c, records));
            m += 1;
        }
        assert(thread.records@.take(m as int) =~= thread.records@);
        c += 1;
    }
    assert(history.conversations@.take(c as int) =~= history.conversations@);
    out
}

// ---- the join ----

pub open spec fn in_history(threads: Seq<Conversation<ChatMessage>>, at: MessageRef) -> bool {
    at.conversation < threads.len() && at.message < threads[at.conversation as int].records@.len()
}

proof fn lemma_thread_mentions_in(conversation: usize, records: Seq<ChatMessage>)
    requires
        records.len() <= usize::MAX,
    ensures
        forall|i: int|
            0 <= i < thread_mentions(conversation, records).len() ==> {
                let at = (#[trigger] thread_mentions(conversation, records)[i]).at;
                at.conversation == conversation && at.message < records.len()
            },
    decreases records.len(),
{
    if records.len() > 0 {
        let rest = thread_mentions(conversation, records.drop_last());
        let all = thread_mentions(conversation, records);
        lemma_thread_mentions_in(conversation, records.drop_last());
        assert forall|i: int| 0 <= i < all.len() implies {
            let at = (#[trigger] all[i]).at;
            at.conversation == conversation && at.message < records.len()
        } by {
            if i < rest.len() {
                assert(all[i] == rest[i]);
            }
        }
    }
}

/// Every mention stands somewhere in the history.
proof fn lemma_mentions_in(threads: Seq<Conversation<ChatMessage>>)
    requires
        threads.len() <= usize::MAX,
        forall|c: int| 0 <= c < threads.len() ==> (#[trigger] threads[c]).records@.len() <= usize::MAX,
    ensures
        forall|i: int| 0 <= i < mentions_of(threads).len() ==> in_history(threads, (#[trigger] mentions_of(threads)[i]).at),
    decreases threads.len(),
{
    if threads.len() > 0 {
        let rest = threads.drop_last();
        assert forall|c: int| 0 <= c < rest.len() implies (#[trigger] rest[c]).records@.len() <= usize::MAX by {
            assert(rest[c] == threads[c]);
        }
        lemma_mentions_in(rest);
        lemma_thread_mentions_in((threads.len() - 1) as usize, threads.last().records@);
        let all = mentions_of(threads);
        let before = mentions_of(rest);
        assert forall|i: int| 0 <= i < all.len() implies in_history(threads, (#[trigger] all[i]).at) by {
            if i < before.len() {
                assert(all[i] == before[i]);
                assert(in_history(rest, before[i].at));
                assert(rest[before[i].at.conversation as int] == threads[before[i].at.conversation as int]);
            } else {
                let last = thread_mentions((threads.len() - 1) as usize, threads.last().records@);
                assert(all[i] == last[i - before.len()]);
            }
        }
    }
}

/// Everything a scan found that may be joined: media with its layer, and each stray layer alone.
pub open spec fn all_media(discovery: Discovery) -> Seq<ChatMedia> {
    discovery.media@ + discovery.unmatched_overlays@.map_values(|file: ChatMediaFile| ChatMedia { file, overlay: None })
}

/// Whether no two files could be named by one token.
pub open spec fn tokens_distinct(media: Seq<ChatMedia>) -> bool {
    forall|i: int, j: int|
        0 <= i < j < media.len() && history_token_at((#[trigger] media[i]).file) is Some ==> history_token_at(media[i].file)
            != history_token_at((#[trigger] media[j]).file)
}

/// Whether some file carries this token.
pub open spec fn carried(media: Seq<ChatMedia>, token: Seq<char>) -> bool {
    exists|i: int| 0 <= i < media.len() && history_token_at((#[trigger] media[i]).file) == Some(token)
}

pub open spec fn names_token(token: Seq<char>) -> spec_fn(MentionView) -> bool {
    |mention: MentionView| history_token_of(mention.raw) == Some(token)
}

pub open spec fn spells(raw: Seq<char>) -> spec_fn(MentionView) -> bool {
    |mention: MentionView| mention.raw == raw
}

/// What a file takes from the message at `at`.
pub open spec fn message_at(threads: Seq<Conversation<ChatMessage>>, at: MessageRef) -> Message {
    let thread = threads[at.conversation as int];
    let record = thread.records@[at.message as int];
    Message {
        at,
        conversation: thread.id,
        conversation_title: record.conversation_title,
        from: record.from,
        is_sender: record.is_sender,
        created: record.created,
        created_epoch_ms: record.created_epoch_ms,
    }
}

/// Whether a file is joined as `mentions` has it: to the first message that names it.
pub open spec fn item_joined(
    item: ChatMediaItem,
    threads: Seq<Conversation<ChatMessage>>,
    mentions: Seq<MentionView>,
) -> bool {
    match history_token_at(item.media.file) {
        None => item.join is NoToken,
        Some(token) => match first_where(mentions, names_token(token)) {
            Some(k) => item.join == Join::Named(message_at(threads, mentions[k].at)),
            None => item.join is Unnamed,
        },
    }
}

/// Whether a gap tells of the first message that names its token.
pub open spec fn gap_told(
    gap: MissingMedia,
    threads: Seq<Conversation<ChatMessage>>,
    mentions: Seq<MentionView>,
    reason: MissingReason,
) -> bool {
    match first_where(mentions, names_token(gap.token@)) {
        Some(k) => {
            &&& gap.message == mentions[k].at
            &&& gap.conversation == threads[mentions[k].at.conversation as int].id
            &&& gap.reason == reason
        },
        None => false,
    }
}

/// Whether an unparsed token tells of the first message that holds it.
pub open spec fn odd_told(odd: UnparsedToken, mentions: Seq<MentionView>) -> bool {
    &&& history_token_of(odd.token@) is None
    &&& match first_where(mentions, spells(odd.token@)) {
        Some(k) => odd.message == mentions[k].at,
        None => false,
    }
}

pub open spec fn gap_key() -> spec_fn(MissingMedia) -> Seq<char> {
    |gap: MissingMedia| gap.token@
}

pub open spec fn odd_key() -> spec_fn(UnparsedToken) -> Seq<char> {
    |odd: UnparsedToken| odd.token@
}

pub open spec fn has_gap(gaps: Seq<MissingMedia>, token: Seq<char>) -> bool {
    exists|i: int| 0 <= i < gaps.len() && (#[trigger] gaps[i]).token@ == token
}

pub open spec fn has_odd(odds: Seq<UnparsedToken>, raw: Seq<char>) -> bool {
    exists|i: int| 0 <= i < odds.len() && (#[trigger] odds[i]).token@ == raw
}

/// Whether `gaps` are exactly the tokens no file carries, each once.
pub open spec fn gaps_told(
    gaps: Seq<MissingMedia>,
    media: Seq<ChatMedia>,
    threads: Seq<Conversation<ChatMessage>>,
    mentions: Seq<MentionView>,
    reason: MissingReason,
) -> bool {
    &&& keys_distinct(gaps, gap_key())
    &&& forall|i: int| 0 <= i < gaps.len() ==> gap_told(#[trigger] gaps[i], threads, mentions, reason) && !carried(media, gaps[i].token@)
    &&& forall|k: int|
        0 <= k < mentions.len() ==> match history_token_of((#[trigger] mentions[k]).raw) {
            Some(token) => carried(media, token) || has_gap(gaps, token),
            None => true,
        }
}

/// Whether `odds` are exactly the texts that are no token, each once.
pub open spec fn odds_told(odds: Seq<UnparsedToken>, mentions: Seq<MentionView>) -> bool {
    &&& keys_distinct(odds, odd_key())
    &&& forall|i: int| 0 <= i < odds.len() ==> odd_told(#[trigger] odds[i], mentions)
    &&& forall|k: int|
        0 <= k < mentions.len() && history_token_of((#[trigger] mentions[k]).raw) is None ==> has_odd(odds, mentions[k].raw)
}

pub open spec fn reason_for(unreadable: Seq<UnreadableDir>) -> MissingReason {
    if unreadable.len() == 0 {
        MissingReason::NoFile
    } else {
        MissingReason::Unscanned
    }
}

/// What a history and a scan come to.
pub open spec fn reconciled(r: Reconciliation, history: ChatHistory, discovery: Discovery) -> bool {
    let threads = history.conversations@;
    let mentions = mentions_of(threads);
    let media = sorted(all_media(discovery));
    &&& r.items@.len() == media.len()
    &&& forall|i: int| 0 <= i < media.len() ==> (#[trigger] r.items@[i]).media == media[i] && item_joined(r.items@[i], threads, mentions)
    &&& in_order(r.missing@)
    &&& gaps_told(r.missing@, media, threads, mentions, reason_for(discovery.unreadable@))
    &&& in_order(r.unparsed_tokens@)
    &&& odds_told(r.unparsed_tokens@, mentions)
    &&& r.unparsed == discovery.unparsed
    &&& r.duplicates == discovery.duplicates
    &&& r.unreadable == discovery.unreadable
}

/// One more mention leaves a first mention where it was, and is the first only where there was none.
proof fn lemma_first_step(all: Seq<MentionView>, k: int, wanted: spec_fn(MentionView) -> bool)
    requires
        0 <= k < all.len(),
    ensures
        first_where(all.take(k + 1), wanted) == match first_where(all.take(k), wanted) {
            Some(at) => Some(at),
            None => if wanted(all[k]) {
                Some(k)
            } else {
                None
            },
        },
        first_where(all.take(k), wanted) matches Some(at) ==> 0 <= at < k && all.take(k + 1)[at] == all.take(k)[at],
        all.take(k + 1)[k] == all[k],
{
    assert(all.take(k + 1).drop_last() =~= all.take(k));
    lemma_first_where(all.take(k), wanted);
}

/// One more mention leaves told gaps told.
proof fn lemma_gap_step(
    gap: MissingMedia,
    threads: Seq<Conversation<ChatMessage>>,
    all: Seq<MentionView>,
    k: int,
    reason: MissingReason,
)
    requires
        0 <= k < all.len(),
        gap_told(gap, threads, all.take(k), reason),
    ensures
        gap_told(gap, threads, all.take(k + 1), reason),
{
    lemma_first_step(all, k, names_token(gap.token@));
}

proof fn lemma_odd_step(odd: UnparsedToken, all: Seq<MentionView>, k: int)
    requires
        0 <= k < all.len(),
        odd_told(odd, all.take(k)),
    ensures
        odd_told(odd, all.take(k + 1)),
{
    lemma_first_step(all, k, spells(odd.token@));
}

proof fn lemma_item_step(item: ChatMediaItem, threads: Seq<Conversation<ChatMessage>>, all: Seq<MentionView>, k: int)
    requires
        0 <= k < all.len(),
        item_joined(item, threads, all.take(k)),
        item.join is Named || history_token_at(item.media.file) is None || history_token_at(item.media.file)
            != history_token_of(all[k].raw),
    ensures
        item_joined(item, threads, all.take(k + 1)),
{
    match history_token_at(item.media.file) {
        Some(token) => {
            lemma_first_step(all, k, names_token(token));
        },
        None => {},
    }
}

/// Sorting told gaps keeps them told.
proof fn lemma_gaps_sorted(
    gaps: Seq<MissingMedia>,
    media: Seq<ChatMedia>,
    threads: Seq<Conversation<ChatMessage>>,
    mentions: Seq<MentionView>,
    reason: MissingReason,
)
    requires
        gaps_told(gaps, media, threads, mentions, reason),
    ensures
        gaps_told(sorted(gaps), media, threads, mentions, reason),
        in_order(sorted(gaps)),
{
    let r = sorted(gaps);
    lemma_sorted(gaps);
    lemma_sorted_distinct(gaps, gap_key());
    assert forall|i: int| 0 <= i < r.len() implies gap_told(#[trigger] r[i], threads, mentions, reason) && !carried(
        media,
        r[i].token@,
    ) by {
        lemma_sorted_contains(gaps, r[i]);
        assert(r.contains(r[i]));
        let j = choose|j: int| 0 <= j < gaps.len() && gaps[j] == r[i];
        assert(gap_told(gaps[j], threads, mentions, reason));
    }
    assert forall|token: Seq<char>| has_gap(gaps, token) implies #[trigger] has_gap(r, token) by {
        let i = choose|i: int| 0 <= i < gaps.len() && (#[trigger] gaps[i]).token@ == token;
        lemma_sorted_contains(gaps, gaps[i]);
        assert(gaps.contains(gaps[i]));
        let j = choose|j: int| 0 <= j < r.len() && r[j] == gaps[i];
        assert(r[j].token@ == token);
    }
}

/// Sorting told texts keeps them told.
proof fn lemma_odds_sorted(odds: Seq<UnparsedToken>, mentions: Seq<MentionView>)
    requires
        odds_told(odds, mentions),
    ensures
        odds_told(sorted(odds), mentions),
        in_order(sorted(odds)),
{
    let r = sorted(odds);
    lemma_sorted(odds);
    lemma_sorted_distinct(odds, odd_key());
    assert forall|i: int| 0 <= i < r.len() implies odd_told(#[trigger] r[i], mentions) by {
        lemma_sorted_contains(odds, r[i]);
        assert(r.contains(r[i]));
        let j = choose|j: int| 0 <= j < odds.len() && odds[j] == r[i];
        assert(odd_told(odds[j], mentions));
    }
    assert forall|raw: Seq<char>| has_odd(odds, raw) implies #[trigger] has_odd(r, raw) by {
        let i = choose|i: int| 0 <= i < odds.len() && (#[trigger] odds[i]).token@ == raw;
        lemma_sorted_contains(odds, odds[i]);
        assert(odds.contains(odds[i]));
        let j = choose|j: int| 0 <= j < r.len() && r[j] == odds[i];
        assert(r[j].token@ == raw);
    }
}

/// Sorting keeps tokens apart.
proof fn lemma_tokens_sorted(media: Seq<ChatMedia>)
    requires
        tokens_distinct(media),
    ensures
        tokens_distinct(sorted(media)),
    decreases media.len(),
{
    if media.len() > 0 {
        let rest = media.drop_first();
        assert forall|i: int, j: int|
            0 <= i < j < rest.len() && history_token_at((#[trigger] rest[i]).file) is Some implies history_token_at(rest[i].file)
            != history_token_at((#[trigger] rest[j]).file) by {
            assert(rest[i] == media[i + 1] && rest[j] == media[j + 1]);
        }
        lemma_tokens_sorted(rest);
        let t = sorted(rest);
        let x = media[0];
        lemma_sorted(rest);
        let at = crate::order::lemma_place(t, x);
        crate::order::lemma_placed_at(t, x, at);
        let p = t.insert(at, x);
        assert forall|i: int| 0 <= i < t.len() && history_token_at(x.file) is Some implies history_token_at((#[trigger] t[i]).file)
            != history_token_at(x.file) by {
            lemma_sorted_contains(rest, t[i]);
            assert(t.contains(t[i]));
            let k = choose|k: int| 0 <= k < rest.len() && rest[k] == t[i];
            assert(rest[k] == media[k + 1]);
            assert(history_token_at(media[0].file) != history_token_at(media[k + 1].file));
        }
        assert forall|i: int, j: int|
            0 <= i < j < p.len() && history_token_at((#[trigger] p[i]).file) is Some implies history_token_at(p[i].file)
            != history_token_at((#[trigger] p[j]).file) by {
            let a = if i < at { i } else { i - 1 };
            let b = if j < at { j } else { j - 1 };
            if i == at {
                assert(p[j] == t[b]);
            } else if j == at {
                assert(p[i] == t[a]);
            } else {
                assert(p[i] == t[a] && p[j] == t[b]);
            }
        }
    }
}

fn index_tokens(items: &Vec<ChatMediaItem>, Ghost(media): Ghost<Seq<ChatMedia>>) -> (r: StringHashMap<usize>)
    requires
        items@.len() == media.len(),
        forall|i: int| 0 <= i < media.len() ==> (#[trigger] items@[i]).media == media[i],
        tokens_distinct(media),
    ensures
        forall|token: Seq<char>| #[trigger] r@.contains_key(token) <==> carried(media, token),
        forall|token: Seq<char>| #[trigger]
            r@.contains_key(token) ==> r@[token] < media.len() && history_token_at(media[r@[token] as int].file) == Some(token),
{
    let mut by_token: StringHashMap<usize> = StringHashMap::new();
    let mut i: usize = 0;
    while i < items.len()
        invariant
            i <= items@.len(),
            items@.len() == media.len(),
            forall|j: int| 0 <= j < media.len() ==> (#[trigger] items@[j]).media == media[j],
            tokens_distinct(media),
            forall|token: Seq<char>| #[trigger] by_token@.contains_key(token) <==> carried(media.take(i as int), token),
            forall|token: Seq<char>| #[trigger]
                by_token@.contains_key(token) ==> by_token@[token] < media.len() && history_token_at(
                    media[by_token@[token] as int].file,
                ) == Some(token),
        decreases items.len() - i,
    {
        let ghost before = by_token@;
        assert(items@[i as int].media == media[i as int]);
        let held = items[i].media.file.history_token();
        match held {
            Some(token) => {
                by_token.insert(token.clone(), i);
            },
            None => {},
        }
        assert forall|token: Seq<char>| #[trigger] by_token@.contains_key(token) <==> carried(media.take(i + 1), token) by {
            let p = media.take(i as int);
            let q = media.take(i + 1);
            if carried(p, token) {
                let j = choose|j: int| 0 <= j < p.len() && history_token_at((#[trigger] p[j]).file) == Some(token);
                assert(q[j] == p[j]);
            }
            if carried(q, token) {
                let j = choose|j: int| 0 <= j < q.len() && history_token_at((#[trigger] q[j]).file) == Some(token);
                if j < i {
                    assert(q[j] == p[j]);
                }
            }
            assert(q[i as int] == media[i as int]);
            assert(before.contains_key(token) <==> carried(p, token));
        }
        i += 1;
    }
    assert(media.take(i as int) =~= media);
    by_token
}

/// Joins a scan to the history: each file with a token to the first message that names it.
#[must_use]
#[verifier::rlimit(60)]
pub fn reconcile(history: &ChatHistory, discovery: Discovery) -> (r: Reconciliation)
    requires
        tokens_distinct(all_media(discovery)),
    ensures
        reconciled(r, *history, discovery),
{
    let ghost found = discovery;
    let Discovery { media, unmatched_overlays, unparsed, duplicates, unreadable } = discovery;
    let mut all: Vec<ChatMedia> = media;
    let ghost strays = unmatched_overlays@;
    let ghost led = all@;
    for file in it: unmatched_overlays
        invariant
            it.seq() == strays,
            all@ == led + strays.take(it.index()).map_values(|file: ChatMediaFile| ChatMedia { file, overlay: None }),
    {
        let ghost before = all@;
        all.push(ChatMedia { file, overlay: None });
        assert(all@ =~= led + strays.take(it.index() + 1).map_values(
            |file: ChatMediaFile| ChatMedia { file, overlay: None },
        ));
    }
    assert(strays.take(strays.len() as int) =~= strays);
    assert(all@ =~= all_media(found));
    let ordered = sort(all);
    let ghost listed = ordered@;
    proof {
        lemma_tokens_sorted(all_media(found));
    }
    let ghost threads = history.conversations@;
    let mut items: Vec<ChatMediaItem> = Vec::new();
    for media in it: ordered
        invariant
            it.seq() == listed,
            items@.len() == it.index(),
            forall|i: int| 0 <= i < items@.len() ==> (#[trigger] items@[i]).media == listed[i] && item_joined(
                items@[i],
                threads,
                Seq::empty(),
            ),
    {
        let has_token = media.file.history_token().is_some();
        let join = if has_token {
            Join::Unnamed
        } else {
            Join::NoToken
        };
        items.push(ChatMediaItem { media, join });
    }
    let spelled = mentions(history);
    let ghost ms = mention_views(spelled@);
    proof {
        assert forall|c: int| 0 <= c < threads.len() implies (#[trigger] threads[c]).records@.len() <= usize::MAX by {
            assert(threads[c].records.len() == threads[c].records@.len());
        }
        assert(history.conversations.len() == threads.len());
        lemma_mentions_in(threads);
    }
    let by_token = index_tokens(&items, Ghost(listed));
    let reason = if unreadable.len() == 0 {
        MissingReason::NoFile
    } else {
        MissingReason::Unscanned
    };
    let mut gaps: Vec<MissingMedia> = Vec::new();
    let mut gap_seen = StringHashSet::new();
    let mut odds: Vec<UnparsedToken> = Vec::new();
    let mut odd_seen = StringHashSet::new();
    let mut k: usize = 0;
    assert(ms.take(0) =~= Seq::empty());
    while k < spelled.len()
        invariant
            k <= spelled@.len(),
            ms == mention_views(spelled@),
            ms == mentions_of(threads),
            threads == history.conversations@,
            forall|i: int| 0 <= i < ms.len() ==> in_history(threads, (#[trigger] ms[i]).at),
            tokens_distinct(listed),
            forall|token: Seq<char>| #[trigger] by_token@.contains_key(token) <==> carried(listed, token),
            forall|token: Seq<char>| #[trigger]
                by_token@.contains_key(token) ==> by_token@[token] < listed.len() && history_token_at(
                    listed[by_token@[token] as int].file,
                ) == Some(token),
            items@.len() == listed.len(),
            forall|i: int| 0 <= i < items@.len() ==> (#[trigger] items@[i]).media == listed[i] && item_joined(
                items@[i],
                threads,
                ms.take(k as int),
            ),
            gaps_told(gaps@, listed, threads, ms.take(k as int), reason),
            forall|token: Seq<char>| #[trigger] gap_seen@.contains(token) <==> has_gap(gaps@, token),
            odds_told(odds@, ms.take(k as int)),
            forall|raw: Seq<char>| #[trigger] odd_seen@.contains(raw) <==> has_odd(odds@, raw),
        decreases spelled.len() - k,
    {
        let at = spelled[k].at;
        let ghost p = ms.take(k as int);
        let ghost q = ms.take(k + 1);
        let ghost raw = spelled@[k as int].raw@;
        assert(ms[k as int] == spelled@[k as int]@);
        assert(in_history(threads, ms[k as int].at));
        assert(q[k as int] == ms[k as int]);
        let ghost items_before = items@;
        let ghost gaps_before = gaps@;
        let ghost odds_before = odds@;
        let parsed = parse_history_token(&spelled[k].raw);
        match parsed {
            None => {
                let fresh = odd_seen.insert(spelled[k].raw.clone());
                proof {
                    lemma_first_step(ms, k as int, spells(raw));
                    lemma_first_where(p, spells(raw));
                    if fresh {
                        assert forall|i: int| 0 <= i < p.len() implies !spells(raw)(#[trigger] p[i]) by {
                            assert(history_token_of(p[i].raw) is None ==> has_odd(odds@, p[i].raw));
                        }
                    }
                }
                if fresh {
                    odds.push(UnparsedToken { token: spelled[k].raw.clone(), message: at });
                }
                proof {
                    assert(has_odd(odds@, raw)) by {
                        if fresh {
                            assert(odds@[odds@.len() - 1].token@ == raw);
                        }
                    }
                    assert forall|r: Seq<char>| has_odd(odds_before, r) implies #[trigger] has_odd(odds@, r) by {
                        let i = choose|i: int| 0 <= i < odds_before.len() && (#[trigger] odds_before[i]).token@ == r;
                        assert(odds@[i].token@ == r);
                    }
                    assert forall|r: Seq<char>| #[trigger] odd_seen@.contains(r) <==> has_odd(odds@, r) by {
                        if has_odd(odds@, r) {
                            let i = choose|i: int| 0 <= i < odds@.len() && (#[trigger] odds@[i]).token@ == r;
                            if i < odds_before.len() {
                                assert(odds_before[i].token@ == r);
                            }
                        }
                    }
                    assert forall|i: int| 0 <= i < odds@.len() implies odd_told(#[trigger] odds@[i], q) by {
                        if i < odds_before.len() {
                            assert(odds@[i] == odds_before[i]);
                            lemma_odd_step(odds_before[i], ms, k as int);
                        }
                    }
                    assert(keys_distinct(odds@, odd_key())) by {
                        assert forall|i: int, j: int| 0 <= i < j < odds@.len() implies odd_key()(#[trigger] odds@[i]) != odd_key()(
                            #[trigger] odds@[j],
                        ) by {
                            if j < odds_before.len() {
                                assert(odds@[i] == odds_before[i] && odds@[j] == odds_before[j]);
                            } else {
                                assert(odds@[i] == odds_before[i]);
                                assert(has_odd(odds_before, odds_before[i].token@));
                            }
                        }
                    }
                    assert forall|x: int| 0 <= x < q.len() && history_token_of((#[trigger] q[x]).raw) is None implies has_odd(
                        odds@,
                        q[x].raw,
                    ) by {
                        if x < k {
                            assert(q[x] == p[x]);
                        }
                    }
                }
            },
            Some(token) => {
                let slot: Option<usize> = match by_token.get(&token) {
                    Some(index) => Some(*index),
                    None => None,
                };
                match slot {
                    Some(index) => {
                        let unnamed = matches!(items[index].join, Join::Unnamed);
                        if unnamed {
                            let thread = &history.conversations[at.conversation];
                            let record = &thread.records[at.message];
                            let message = Message {
                                at,
                                conversation: thread.id.clone(),
                                conversation_title: copy_text(&record.conversation_title),
                                from: copy_sender(&record.from),
                                is_sender: record.is_sender,
                                created: record.created,
                                created_epoch_ms: record.created_epoch_ms,
                            };
                            assert(message == message_at(threads, at));
                            items[index].join = Join::Named(message);
                        }
                        proof {
                            lemma_first_step(ms, k as int, names_token(token@));
                            assert(items_before[index as int].media == listed[index as int]);
                        }
                    },
                    None => {
                        let fresh = gap_seen.insert(token.clone());
                        proof {
                            lemma_first_step(ms, k as int, names_token(token@));
                            lemma_first_where(p, names_token(token@));
                            if fresh {
                                assert forall|i: int| 0 <= i < p.len() implies !names_token(token@)(#[trigger] p[i]) by {
                                    assert(match history_token_of(p[i].raw) {
                                        Some(other) => carried(listed, other) || has_gap(gaps@, other),
                                        None => true,
                                    });
                                }
                            }
                        }
                        if fresh {
                            let conversation = history.conversations[at.conversation].id.clone();
                            gaps.push(MissingMedia { token: token.clone(), message: at, conversation, reason });
                        }
                        proof {
                            assert(has_gap(gaps@, token@)) by {
                                if fresh {
                                    assert(gaps@[gaps@.len() - 1].token@ == token@);
                                }
                            }
                        }
                    },
                }
            },
        }
        proof {
            assert forall|t: Seq<char>| has_gap(gaps_before, t) implies #[trigger] has_gap(gaps@, t) by {
                let i = choose|i: int| 0 <= i < gaps_before.len() && (#[trigger] gaps_before[i]).token@ == t;
                assert(gaps@[i].token@ == t);
            }
            assert forall|t: Seq<char>| #[trigger] gap_seen@.contains(t) <==> has_gap(gaps@, t) by {
                if has_gap(gaps@, t) {
                    let i = choose|i: int| 0 <= i < gaps@.len() && (#[trigger] gaps@[i]).token@ == t;
                    if i < gaps_before.len() {
                        assert(gaps_before[i].token@ == t);
                    }
                }
            }
            assert forall|i: int| 0 <= i < gaps@.len() implies gap_told(#[trigger] gaps@[i], threads, q, reason) && !carried(
                listed,
                gaps@[i].token@,
            ) by {
                if i < gaps_before.len() {
                    assert(gaps@[i] == gaps_before[i]);
                    lemma_gap_step(gaps_before[i], threads, ms, k as int, reason);
                }
            }
            assert(keys_distinct(gaps@, gap_key())) by {
                assert forall|i: int, j: int| 0 <= i < j < gaps@.len() implies gap_key()(#[trigger] gaps@[i]) != gap_key()(
                    #[trigger] gaps@[j],
                ) by {
                    if j < gaps_before.len() {
                        assert(gaps@[i] == gaps_before[i] && gaps@[j] == gaps_before[j]);
                    } else {
                        assert(gaps@[i] == gaps_before[i]);
                        assert(has_gap(gaps_before, gaps_before[i].token@));
                    }
                }
            }
            assert forall|x: int| 0 <= x < q.len() implies match history_token_of((#[trigger] q[x]).raw) {
                Some(token) => carried(listed, token) || has_gap(gaps@, token),
                None => true,
            } by {
                if x < k {
                    assert(q[x] == p[x]);
                }
            }
            if parsed is Some {
                assert forall|i: int| 0 <= i < odds@.len() implies odd_told(#[trigger] odds@[i], q) by {
                    lemma_odd_step(odds@[i], ms, k as int);
                }
                assert forall|x: int| 0 <= x < q.len() && history_token_of((#[trigger] q[x]).raw) is None implies has_odd(
                    odds@,
                    q[x].raw,
                ) by {
                    if x < k {
                        assert(q[x] == p[x]);
                    }
                }
            }
            assert forall|i: int| 0 <= i < items@.len() implies (#[trigger] items@[i]).media == listed[i] && item_joined(
                items@[i],
                threads,
                q,
            ) by {
                assert(items_before[i].media == listed[i]);
                assert(item_joined(items_before[i], threads, p));
                if items@[i] == items_before[i] {
                    if history_token_at(listed[i].file) is Some && history_token_at(listed[i].file) == history_token_of(raw) {
                        let token = history_token_of(raw).unwrap();
                        assert(carried(listed, token));
                        let x = by_token@[token] as int;
                        if x != i {
                            assert(history_token_at(listed[x].file) == Some(token));
                            if x < i {
                                assert(history_token_at(listed[x].file) != history_token_at(listed[i].file));
                            } else {
                                assert(history_token_at(listed[i].file) != history_token_at(listed[x].file));
                            }
                        }
                    }
                    lemma_item_step(items_before[i], threads, ms, k as int);
                }
            }
        }
        k += 1;
    }
    assert(ms.take(k as int) =~= ms);
    proof {
        lemma_gaps_sorted(gaps@, listed, threads, ms, reason);
        lemma_odds_sorted(odds@, ms);
    }
    Reconciliation {
        items,
        missing: sort(gaps),
        unparsed_tokens: sort(odds),
        unparsed,
        duplicates,
        unreadable,
    }
}

// ---- laws ----

/// Whether no two files are told apart by one id.
pub open spec fn ids_distinct(media: Seq<ChatMedia>) -> bool {
    forall|i: int, j: int| 0 <= i < j < media.len() ==> (#[trigger] media[i]).file.id@ != (#[trigger] media[j]).file.id@
}

/// A scan tells every file it keeps apart by its id, so no token can name two of them.
pub proof fn law_kept_files_have_distinct_ids(
    discovery: Discovery,
    files: Seq<ChatMediaFile>,
    unparsed: Seq<FilePath>,
    unreadable: Seq<UnreadableDir>,
)
    requires
        found(discovery, files, unparsed, unreadable),
    ensures
        ids_distinct(all_media(discovery)),
        tokens_distinct(all_media(discovery)),
{
    let s = sorted(files);
    let h = heads(s);
    let media = all_media(discovery);
    let led = discovery.media@;
    let stray = discovery.unmatched_overlays@;
    lemma_heads(s);
    lemma_leaders_distinct(h);
    lemma_strays_distinct(s, h);
    lemma_filter_from(h, is_stray(s));
    assert forall|i: int, j: int| 0 <= i < j < media.len() implies (#[trigger] media[i]).file.id@ != (#[trigger] media[j]).file.id@ by {
        assert(i < led.len() ==> leaders(s)[i] == led[i].file);
        assert(j < led.len() ==> leaders(s)[j] == led[j].file);
        if i < led.len() && j >= led.len() {
            let layer = stray[j - led.len()];
            assert(is_stray(s)(stray_layers(s)[j - led.len()]));
            let m = lemma_leader_at(s, i);
            assert(!media_with(s, layer.id@));
        } else if i >= led.len() {
            assert(stray_layers(s)[i - led.len()].id@ != stray_layers(s)[j - led.len()].id@);
        }
    }
}

/// Whether a file is one a path was parsed into.
pub open spec fn parsed(file: ChatMediaFile) -> bool {
    file_of(file.path@) == Some(file@)
}

proof fn lemma_gap_spells_no_other_id(file: ChatMediaFile, raw: Seq<char>)
    requires
        parsed(file),
        history_token_of(raw) == Some(file.id@),
    ensures
        history_token_at(file) == Some(file.id@),
{
    reveal_strlit("b");
    reveal_strlit("media");
    reveal_strlit("overlay");
    reveal_strlit("thumbnail");
    let id = split_first(raw, '~').unwrap().1;
    let token = "b"@ + "~"@ + id;
    assert(token[0] == 'b');
    match file.family {
        Family::Plain { id } => {
            assert(file.id@ == file.token.word() + "~"@ + id@);
            match file.token {
                Token::B => {},
                Token::Media => {
                    assert(file.id@[0] == 'm');
                },
                Token::Overlay => {
                    assert(file.id@[0] == 'o');
                },
                Token::Thumbnail => {
                    assert(file.id@[0] == 't');
                },
            }
        },
        Family::Zip { mid, hash } => {
            assert(file.id@ == day_text(file.day) + "_"@ + mid@ + ".zip."@ + hash@);
            assert(file.id@[0] == day_text(file.day)[0]);
            assert(day_text(file.day)[0] == four_digits(file.day.year as int)[0]);
            assert(four_digits(file.day.year as int)[0] == two_digits(file.day.year as int / 100)[0]);
            assert(file.day.year <= 9999);
            assert(is_digit(file.id@[0]));
        },
    }
}

/// A gap never spells the id of a file the scan kept: a row cannot be both missing and present.
pub proof fn law_gaps_and_items_are_apart(
    r: Reconciliation,
    history: ChatHistory,
    discovery: Discovery,
    gap: int,
    item: int,
)
    requires
        reconciled(r, history, discovery),
        forall|i: int| 0 <= i < all_media(discovery).len() ==> parsed((#[trigger] all_media(discovery)[i]).file),
        0 <= gap < r.missing@.len(),
        0 <= item < r.items@.len(),
    ensures
        r.missing@[gap].token@ != r.items@[item].media.file.id@,
{
    let threads = history.conversations@;
    let ms = mentions_of(threads);
    let media = sorted(all_media(discovery));
    let token = r.missing@[gap].token@;
    let file = r.items@[item].media.file;
    assert(r.items@[item].media == media[item]);
    lemma_sorted_contains(all_media(discovery), media[item]);
    assert(media.contains(media[item]));
    let k = choose|k: int| 0 <= k < all_media(discovery).len() && all_media(discovery)[k] == media[item];
    assert(parsed(all_media(discovery)[k].file));
    assert(gap_told(r.missing@[gap], threads, ms, reason_for(discovery.unreadable@)));
    lemma_first_where(ms, names_token(token));
    if token == file.id@ {
        lemma_gap_spells_no_other_id(file, ms[first_where(ms, names_token(token)).unwrap()].raw);
        assert(carried(media, token));
    }
}

/// A token several messages name goes to the first of them, whichever the file.
pub proof fn law_first_message_wins(
    r: Reconciliation,
    history: ChatHistory,
    discovery: Discovery,
    item: int,
    early: int,
)
    requires
        reconciled(r, history, discovery),
        0 <= item < r.items@.len(),
        0 <= early < mentions_of(history.conversations@).len(),
        history_token_at(r.items@[item].media.file) is Some,
        history_token_of(mentions_of(history.conversations@)[early].raw) == history_token_at(r.items@[item].media.file),
        forall|k: int|
            0 <= k < early ==> history_token_of((#[trigger] mentions_of(history.conversations@)[k]).raw) != history_token_at(
                r.items@[item].media.file,
            ),
    ensures
        r.items@[item].join == Join::Named(
            message_at(history.conversations@, mentions_of(history.conversations@)[early].at),
        ),
{
    let ms = mentions_of(history.conversations@);
    let token = history_token_at(r.items@[item].media.file).unwrap();
    lemma_first_where(ms, names_token(token));
    assert(names_token(token)(ms[early]));
    let k = first_where(ms, names_token(token)).unwrap();
    if k < early {
        assert(names_token(token)(ms[k]));
    } else if early < k {
        assert(!names_token(token)(ms[early]));
    }
}

/// Every file with a token is joined or known to be unnamed, and every file without one is
/// neither: joining drops nothing.
pub proof fn law_joining_keeps_every_file(r: Reconciliation, history: ChatHistory, discovery: Discovery, media: ChatMedia)
    requires
        reconciled(r, history, discovery),
        all_media(discovery).contains(media),
    ensures
        exists|i: int| 0 <= i < r.items@.len() && (#[trigger] r.items@[i]).media == media,
{
    let listed = sorted(all_media(discovery));
    lemma_sorted_contains(all_media(discovery), media);
    let i = choose|i: int| 0 <= i < listed.len() && listed[i] == media;
    assert(r.items@[i].media == media);
}

/// Whether the records of a conversation hold, at a place, a text among their media ids.
pub open spec fn holds_text(records: Seq<ChatMessage>, message: int, raw: Seq<char>) -> bool {
    &&& 0 <= message < records.len()
    &&& records[message].media_ids matches Some(ids) && tokens_of(ids@).contains(raw)
}

/// Whether a history holds, at a place, a text among the media ids of a record.
pub open spec fn history_holds(history: ChatHistory, conversation: int, message: int, raw: Seq<char>) -> bool {
    &&& 0 <= conversation < history.conversations@.len()
    &&& holds_text(history.conversations@[conversation].records@, message, raw)
}

/// Whether a history names a token at a place.
pub open spec fn history_names(history: ChatHistory, conversation: int, message: int, token: Seq<char>) -> bool {
    exists|raw: Seq<char>| #[trigger] history_holds(history, conversation, message, raw) && history_token_of(raw) == Some(token)
}

/// Whether one place in a history comes before another: in an earlier conversation, or earlier in
/// the same one.
pub open spec fn comes_before(conversation: int, message: int, at: MessageRef) -> bool {
    conversation < at.conversation || (conversation == at.conversation && message < at.message)
}

proof fn lemma_thread_mentioned(conversation: usize, records: Seq<ChatMessage>)
    requires
        records.len() <= usize::MAX,
    ensures
        forall|i: int|
            0 <= i < thread_mentions(conversation, records).len() ==> {
                let mention = #[trigger] thread_mentions(conversation, records)[i];
                mention.at.conversation == conversation && holds_text(records, mention.at.message as int, mention.raw)
            },
        forall|i: int, j: int|
            0 <= i < j < thread_mentions(conversation, records).len() ==> (#[trigger] thread_mentions(conversation, records)[i]).at.message
                <= (#[trigger] thread_mentions(conversation, records)[j]).at.message,
        forall|message: int, raw: Seq<char>| #[trigger]
            holds_text(records, message, raw) ==> thread_mentions(conversation, records).contains(
                MentionView { at: MessageRef { conversation, message: message as usize }, raw },
            ),
    decreases records.len(),
{
    if records.len() > 0 {
        let rest = records.drop_last();
        lemma_thread_mentioned(conversation, rest);
        let before = thread_mentions(conversation, rest);
        let at = MessageRef { conversation, message: (records.len() - 1) as usize };
        let last = record_mentions(at, records.last().media_ids);
        let all = thread_mentions(conversation, records);
        assert(all == before + last);
        assert forall|i: int| 0 <= i < last.len() implies {
            let mention = #[trigger] last[i];
            mention.at == at && holds_text(records, records.len() - 1, mention.raw)
        } by {
            let ids = records.last().media_ids.unwrap();
            assert(last[i].raw == tokens_of(ids@)[i]);
            assert(tokens_of(ids@).contains(last[i].raw));
        }
        assert forall|i: int| 0 <= i < all.len() implies {
            let mention = #[trigger] all[i];
            mention.at.conversation == conversation && holds_text(records, mention.at.message as int, mention.raw)
        } by {
            if i < before.len() {
                assert(all[i] == before[i]);
                assert(holds_text(rest, before[i].at.message as int, before[i].raw));
            } else {
                assert(all[i] == last[i - before.len()]);
            }
        }
        assert forall|i: int, j: int| 0 <= i < j < all.len() implies (#[trigger] all[i]).at.message <= (#[trigger] all[j]).at.message by {
            if j < before.len() {
                assert(all[i] == before[i] && all[j] == before[j]);
            } else {
                assert(all[j] == last[j - before.len()]);
                assert(holds_text(records, all[i].at.message as int, all[i].raw));
            }
        }
        assert forall|message: int, raw: Seq<char>| #[trigger] holds_text(records, message, raw) implies all.contains(
            MentionView { at: MessageRef { conversation, message: message as usize }, raw },
        ) by {
            let mention = MentionView { at: MessageRef { conversation, message: message as usize }, raw };
            if message < records.len() - 1 {
                assert(holds_text(rest, message, raw));
                let k = choose|k: int| 0 <= k < before.len() && before[k] == mention;
                assert(before.contains(mention));
                assert(all[k] == mention);
            } else {
                let ids = records.last().media_ids.unwrap();
                let k = choose|k: int| 0 <= k < tokens_of(ids@).len() && tokens_of(ids@)[k] == raw;
                assert(last[k] == mention);
                assert(all[before.len() + k] == mention);
            }
        }
    }
}

proof fn lemma_mentioned(threads: Seq<Conversation<ChatMessage>>)
    requires
        threads.len() <= usize::MAX,
        forall|c: int| 0 <= c < threads.len() ==> (#[trigger] threads[c]).records@.len() <= usize::MAX,
    ensures
        forall|i: int|
            0 <= i < mentions_of(threads).len() ==> {
                let mention = #[trigger] mentions_of(threads)[i];
                mention.at.conversation < threads.len() && holds_text(
                    threads[mention.at.conversation as int].records@,
                    mention.at.message as int,
                    mention.raw,
                )
            },
        forall|i: int, j: int|
            0 <= i < j < mentions_of(threads).len() ==> !comes_before(
                (#[trigger] mentions_of(threads)[j]).at.conversation as int,
                mentions_of(threads)[j].at.message as int,
                (#[trigger] mentions_of(threads)[i]).at,
            ),
        forall|c: int, message: int, raw: Seq<char>|
            0 <= c < threads.len() && #[trigger] holds_text(threads[c].records@, message, raw) ==> mentions_of(threads).contains(
                MentionView { at: MessageRef { conversation: c as usize, message: message as usize }, raw },
            ),
    decreases threads.len(),
{
    if threads.len() > 0 {
        let rest = threads.drop_last();
        assert forall|c: int| 0 <= c < rest.len() implies (#[trigger] rest[c]).records@.len() <= usize::MAX by {
            assert(rest[c] == threads[c]);
        }
        lemma_mentioned(rest);
        let here = (threads.len() - 1) as usize;
        let records = threads.last().records@;
        lemma_thread_mentioned(here, records);
        let before = mentions_of(rest);
        let last = thread_mentions(here, records);
        let all = mentions_of(threads);
        assert(all == before + last);
        assert forall|i: int| 0 <= i < all.len() implies {
            let mention = #[trigger] all[i];
            mention.at.conversation < threads.len() && holds_text(
                threads[mention.at.conversation as int].records@,
                mention.at.message as int,
                mention.raw,
            )
        } by {
            if i < before.len() {
                assert(all[i] == before[i]);
                assert(rest[before[i].at.conversation as int] == threads[before[i].at.conversation as int]);
            } else {
                assert(all[i] == last[i - before.len()]);
            }
        }
        assert forall|i: int, j: int| 0 <= i < j < all.len() implies !comes_before(
            (#[trigger] all[j]).at.conversation as int,
            all[j].at.message as int,
            (#[trigger] all[i]).at,
        ) by {
            if j < before.len() {
                assert(all[i] == before[i] && all[j] == before[j]);
            } else {
                assert(all[j] == last[j - before.len()]);
                if i < before.len() {
                    assert(all[i] == before[i]);
                } else {
                    assert(all[i] == last[i - before.len()]);
                }
            }
        }
        assert forall|c: int, message: int, raw: Seq<char>|
            0 <= c < threads.len() && #[trigger] holds_text(threads[c].records@, message, raw) implies all.contains(
            MentionView { at: MessageRef { conversation: c as usize, message: message as usize }, raw },
        ) by {
            let mention = MentionView { at: MessageRef { conversation: c as usize, message: message as usize }, raw };
            if c < threads.len() - 1 {
                assert(rest[c] == threads[c]);
                assert(holds_text(rest[c].records@, message, raw));
                assert(before.contains(mention));
                let k = choose|k: int| 0 <= k < before.len() && before[k] == mention;
                assert(all[k] == mention);
            } else {
                assert(last.contains(mention));
                let k = choose|k: int| 0 <= k < last.len() && last[k] == mention;
                assert(all[before.len() + k] == mention);
            }
        }
    }
}

proof fn lemma_history_mentioned(history: ChatHistory)
    ensures
        history.conversations@.len() <= usize::MAX,
        forall|i: int|
            0 <= i < mentions_of(history.conversations@).len() ==> {
                let mention = #[trigger] mentions_of(history.conversations@)[i];
                history_holds(history, mention.at.conversation as int, mention.at.message as int, mention.raw)
            },
        forall|i: int, j: int|
            0 <= i < j < mentions_of(history.conversations@).len() ==> !comes_before(
                (#[trigger] mentions_of(history.conversations@)[j]).at.conversation as int,
                mentions_of(history.conversations@)[j].at.message as int,
                (#[trigger] mentions_of(history.conversations@)[i]).at,
            ),
        forall|c: int, message: int, raw: Seq<char>| #[trigger]
            history_holds(history, c, message, raw) ==> exists|i: int|
                0 <= i < mentions_of(history.conversations@).len() && (#[trigger] mentions_of(history.conversations@)[i]).raw == raw
                    && mentions_of(history.conversations@)[i].at.conversation == c && mentions_of(history.conversations@)[i].at.message
                    == message,
{
    let threads = history.conversations@;
    assert forall|c: int| 0 <= c < threads.len() implies (#[trigger] threads[c]).records@.len() <= usize::MAX by {
        assert(threads[c].records.len() == threads[c].records@.len());
    }
    assert(history.conversations.len() == threads.len());
    lemma_mentioned(threads);
    assert forall|c: int, message: int, raw: Seq<char>| #[trigger] history_holds(history, c, message, raw) implies exists|i: int|
        0 <= i < mentions_of(threads).len() && (#[trigger] mentions_of(threads)[i]).raw == raw && mentions_of(threads)[i].at.conversation
            == c && mentions_of(threads)[i].at.message == message by {
        let mention = MentionView { at: MessageRef { conversation: c as usize, message: message as usize }, raw };
        assert(holds_text(threads[c].records@, message, raw));
        assert(mentions_of(threads).contains(mention));
        let i = choose|i: int| 0 <= i < mentions_of(threads).len() && mentions_of(threads)[i] == mention;
        assert(mentions_of(threads)[i].raw == raw);
        assert(threads[c].records@.len() <= usize::MAX);
    }
}

/// The first mention of a token stands where the history names it, and nothing before it does.
proof fn lemma_first_named(history: ChatHistory, token: Seq<char>)
    ensures
        match first_where(mentions_of(history.conversations@), names_token(token)) {
            Some(k) => {
                let at = mentions_of(history.conversations@)[k].at;
                &&& 0 <= k < mentions_of(history.conversations@).len()
                &&& history_names(history, at.conversation as int, at.message as int, token)
                &&& forall|c: int, message: int|
                    comes_before(c, message, at) ==> !#[trigger] history_names(history, c, message, token)
            },
            None => forall|c: int, message: int| !#[trigger] history_names(history, c, message, token),
        },
{
    let threads = history.conversations@;
    let all = mentions_of(threads);
    lemma_history_mentioned(history);
    lemma_first_where(all, names_token(token));
    let first = first_where(all, names_token(token));
    assert forall|c: int, message: int| #[trigger] history_names(history, c, message, token) implies first is Some && !comes_before(
        c,
        message,
        all[first.unwrap()].at,
    ) by {
        let raw = choose|raw: Seq<char>| #[trigger] history_holds(history, c, message, raw) && history_token_of(raw) == Some(token);
        let i = choose|i: int|
            0 <= i < all.len() && (#[trigger] all[i]).raw == raw && all[i].at.conversation == c && all[i].at.message == message;
        assert(names_token(token)(all[i]));
    }
}

/// A file is joined to the first message of the history that names its token, and takes from it
/// what that record says; it goes unnamed only where no message names its token, and no file
/// without a token is joined.
pub proof fn law_a_file_is_joined_to_the_message_that_names_it(
    r: Reconciliation,
    history: ChatHistory,
    discovery: Discovery,
    item: int,
)
    requires
        reconciled(r, history, discovery),
        0 <= item < r.items@.len(),
    ensures
        r.items@[item].join is NoToken <==> history_token_at(r.items@[item].media.file) is None,
        r.items@[item].join is Unnamed ==> forall|c: int, message: int|
            !#[trigger] history_names(history, c, message, history_token_at(r.items@[item].media.file).unwrap()),
        r.items@[item].join matches Join::Named(found) ==> {
            let token = history_token_at(r.items@[item].media.file).unwrap();
            let thread = history.conversations@[found.at.conversation as int];
            let record = thread.records@[found.at.message as int];
            &&& history_names(history, found.at.conversation as int, found.at.message as int, token)
            &&& forall|c: int, message: int|
                comes_before(c, message, found.at) ==> !#[trigger] history_names(history, c, message, token)
            &&& found.conversation == thread.id
            &&& found.conversation_title == record.conversation_title
            &&& found.from == record.from
            &&& found.is_sender == record.is_sender
            &&& found.created == record.created
            &&& found.created_epoch_ms == record.created_epoch_ms
        },
{
    let media = sorted(all_media(discovery));
    assert(r.items@[item].media == media[item]);
    match history_token_at(r.items@[item].media.file) {
        Some(token) => {
            lemma_first_named(history, token);
        },
        None => {},
    }
}

/// A gap is a token that no joined file carries, told of the first message that names it, and
/// called absent only where the whole source was listed. Every token the history names is carried
/// by a file or is a gap.
pub proof fn law_a_gap_is_a_token_without_a_file(r: Reconciliation, history: ChatHistory, discovery: Discovery)
    requires
        reconciled(r, history, discovery),
    ensures
        forall|i: int|
            0 <= i < r.missing@.len() ==> {
                let gap = #[trigger] r.missing@[i];
                &&& history_names(history, gap.message.conversation as int, gap.message.message as int, gap.token@)
                &&& forall|c: int, message: int|
                    comes_before(c, message, gap.message) ==> !#[trigger] history_names(history, c, message, gap.token@)
                &&& gap.conversation == history.conversations@[gap.message.conversation as int].id
                &&& (gap.reason is NoFile <==> discovery.unreadable@.len() == 0)
                &&& forall|j: int|
                    0 <= j < r.items@.len() ==> history_token_at((#[trigger] r.items@[j]).media.file) != Some(gap.token@)
            },
        forall|c: int, message: int, token: Seq<char>| #[trigger]
            history_names(history, c, message, token) ==> (exists|i: int|
                0 <= i < r.missing@.len() && (#[trigger] r.missing@[i]).token@ == token) || (exists|j: int|
                0 <= j < r.items@.len() && history_token_at((#[trigger] r.items@[j]).media.file) == Some(token)),
{
    let media = sorted(all_media(discovery));
    let all = mentions_of(history.conversations@);
    assert forall|i: int| 0 <= i < r.missing@.len() implies {
        let gap = #[trigger] r.missing@[i];
        &&& history_names(history, gap.message.conversation as int, gap.message.message as int, gap.token@)
        &&& forall|c: int, message: int|
            comes_before(c, message, gap.message) ==> !#[trigger] history_names(history, c, message, gap.token@)
        &&& gap.conversation == history.conversations@[gap.message.conversation as int].id
        &&& (gap.reason is NoFile <==> discovery.unreadable@.len() == 0)
        &&& forall|j: int| 0 <= j < r.items@.len() ==> history_token_at((#[trigger] r.items@[j]).media.file) != Some(gap.token@)
    } by {
        let gap = r.missing@[i];
        lemma_first_named(history, gap.token@);
        assert(gap_told(gap, history.conversations@, all, reason_for(discovery.unreadable@)));
        assert forall|j: int| 0 <= j < r.items@.len() implies history_token_at((#[trigger] r.items@[j]).media.file) != Some(
            gap.token@,
        ) by {
            assert(r.items@[j].media == media[j]);
        }
    }
    assert forall|c: int, message: int, token: Seq<char>| #[trigger] history_names(history, c, message, token) implies (exists|i: int|
        0 <= i < r.missing@.len() && (#[trigger] r.missing@[i]).token@ == token) || (exists|j: int|
        0 <= j < r.items@.len() && history_token_at((#[trigger] r.items@[j]).media.file) == Some(token)) by {
        lemma_history_mentioned(history);
        let raw = choose|raw: Seq<char>| #[trigger] history_holds(history, c, message, raw) && history_token_of(raw) == Some(token);
        let k = choose|k: int|
            0 <= k < all.len() && (#[trigger] all[k]).raw == raw && all[k].at.conversation == c && all[k].at.message == message;
        assert(history_token_of(all[k].raw) == Some(token));
        if carried(media, token) {
            let j = choose|j: int| 0 <= j < media.len() && history_token_at((#[trigger] media[j]).file) == Some(token);
            assert(r.items@[j].media == media[j]);
        }
    }
}

/// Text that is no token is told of the first record that holds it, and every such text is told.
pub proof fn law_text_that_is_no_token_is_told(r: Reconciliation, history: ChatHistory, discovery: Discovery)
    requires
        reconciled(r, history, discovery),
    ensures
        forall|i: int|
            0 <= i < r.unparsed_tokens@.len() ==> {
                let odd = #[trigger] r.unparsed_tokens@[i];
                &&& history_token_of(odd.token@) is None
                &&& history_holds(history, odd.message.conversation as int, odd.message.message as int, odd.token@)
                &&& forall|c: int, message: int|
                    comes_before(c, message, odd.message) ==> !#[trigger] history_holds(history, c, message, odd.token@)
            },
        forall|c: int, message: int, raw: Seq<char>| #[trigger]
            history_holds(history, c, message, raw) && history_token_of(raw) is None ==> exists|i: int|
                0 <= i < r.unparsed_tokens@.len() && (#[trigger] r.unparsed_tokens@[i]).token@ == raw,
{
    let all = mentions_of(history.conversations@);
    lemma_history_mentioned(history);
    assert forall|i: int| 0 <= i < r.unparsed_tokens@.len() implies {
        let odd = #[trigger] r.unparsed_tokens@[i];
        &&& history_token_of(odd.token@) is None
        &&& history_holds(history, odd.message.conversation as int, odd.message.message as int, odd.token@)
        &&& forall|c: int, message: int|
            comes_before(c, message, odd.message) ==> !#[trigger] history_holds(history, c, message, odd.token@)
    } by {
        let odd = r.unparsed_tokens@[i];
        assert(odd_told(odd, all));
        lemma_first_where(all, spells(odd.token@));
        let first = first_where(all, spells(odd.token@)).unwrap();
        assert forall|c: int, message: int| comes_before(c, message, odd.message) implies !#[trigger] history_holds(
            history,
            c,
            message,
            odd.token@,
        ) by {
            if history_holds(history, c, message, odd.token@) {
                let k = choose|k: int|
                    0 <= k < all.len() && (#[trigger] all[k]).raw == odd.token@ && all[k].at.conversation == c && all[k].at.message
                        == message;
                assert(spells(odd.token@)(all[k]));
            }
        }
    }
    assert forall|c: int, message: int, raw: Seq<char>| #[trigger]
        history_holds(history, c, message, raw) && history_token_of(raw) is None implies exists|i: int|
        0 <= i < r.unparsed_tokens@.len() && (#[trigger] r.unparsed_tokens@[i]).token@ == raw by {
        let k = choose|k: int|
            0 <= k < all.len() && (#[trigger] all[k]).raw == raw && all[k].at.conversation == c && all[k].at.message == message;
        assert(has_odd(r.unparsed_tokens@, all[k].raw));
    }
}

} // verus!
