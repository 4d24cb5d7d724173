//! What a run would write for the chat media of an export: one directory per conversation, the
//! caption layer drawn in or kept beside it, and what no message names filed by date.

use vstd::hash_map::StringHashMap;
use vstd::prelude::*;

use crate::calendar::{compact_text, two_digits, unix_seconds, year_text};
use crate::export::chat_dirs::{
    add_dir, after_asking, apart, dir_views, dirs_in_order, has_dir, law_asking_keeps_apart, law_opened_is_apart,
    lemma_after_asking_is_asked, lemma_asked_is_after_asking, lemma_opened_finite, name_dir, named_in_order, named_views, names_dir,
    opened, Assignment, Conversations, NamedDirs, CHAT_DIR, NO_CONVERSATION_DIR, ORIGINALS_DIR,
};
use crate::export::chat_join::{item_date, ChatMediaItem, Join, MediaDate, Message, MissingMedia, Reconciliation};
use crate::export::chat_media::Token;
use crate::export::local_fix::{
    attribution_view, calendar, calendar_has, calendar_has_day, calendar_of, dated_by_day, dated_by_file, deferred_views, embedded,
    embedded_of, format_for, from_day_of, goes_on, is_taken, law_a_day_dates_by_its_midnight, law_a_file_dates_itself, law_a_file_keeps_its_kind,
    law_a_stated_instant_is_read_as_spelled, leg_of, lemma_deferred_push, lemma_planned_push,
    lemma_unrecorded, month_dir, shows, nothing_planned, output_dir, output_extension, plan_is, planned_views,
    with_deferred, written_as, AttributionView, Capture, Deferred, DeferralReason, Embedded, Leg, Plan, PlanState, PlannedItem,
    PlannedView, SourceMedia, SourceView, TimeSource,
};
use crate::export::manifest::{read_back, Item, ItemKind, ManifestError, RawItem};
use crate::export::model::{
    lemma_epoch_named_once, names_epoch, reading_of, stamp_of_epoch, Attribution, ConversationId, Timestamp, Username,
};
use crate::export::out_root::OutRootError;
use crate::export::outputs::{
    after_originals, after_path, given_apart, kept_name_of, lemma_fresh_below, lemma_given_fresh, lemma_given_output, lemma_kept_is_originals_for,
    lemma_nothing_given, lemma_path_below, lemma_planned_is_path_for, originals_for, output_name_of, path_for, path_key, record_views, records_in, with_path,
    Given, Originals, Outputs, RecordView, RecordedOutputs,
};
use crate::export::state::{listed, Manifest};
use crate::order::{
    law_sorting_forgets_the_order, lemma_sorted_contains, lemma_text_le_antisymmetric, ranked_by, sort, sorted, Ranked,
};
use crate::paths::{joined, parent_of, FilePath, PathView};
use crate::text::{fold, is_empty_text, lemma_views_push, views};

verus! {

// ---- overlay modes ----

/// What becomes of a picture's caption layer.
#[derive(Debug, Clone, Copy, PartialEq, Eq, PartialOrd, Ord, Hash, Structural)]
pub enum OverlayMode {
    /// Drawn in, and the two files behind it left in the export.
    Merged,
    /// Drawn in, and copies of the two files kept.
    Both,
    /// Left off, and copies of the two files kept.
    Originals,
}

impl Default for OverlayMode {
    fn default() -> (r: Self)
        ensures
            r == OverlayMode::Both,
    {
        OverlayMode::Both
    }
}

impl OverlayMode {
    pub const ALL: [OverlayMode; 3] = [OverlayMode::Merged, OverlayMode::Both, OverlayMode::Originals];

    pub open spec fn word(self) -> Seq<char> {
        match self {
            OverlayMode::Merged => "merged"@,
            OverlayMode::Both => "both"@,
            OverlayMode::Originals => "originals"@,
        }
    }

    #[must_use]
    pub fn as_word(self) -> (r: &'static str)
        ensures
            r@ == self.word(),
    {
        match self {
            OverlayMode::Merged => "merged",
            OverlayMode::Both => "both",
            OverlayMode::Originals => "originals",
        }
    }

    pub open spec fn draws(self) -> bool {
        self == OverlayMode::Merged || self == OverlayMode::Both
    }

    pub open spec fn keeps(self) -> bool {
        self == OverlayMode::Both || self == OverlayMode::Originals
    }

    /// Whether the caption layer is drawn in.
    #[must_use]
    pub fn composites(self) -> (r: bool)
        ensures
            r == self.draws(),
    {
        matches!(self, OverlayMode::Merged | OverlayMode::Both)
    }

    /// Whether the export's own two files are copied.
    #[must_use]
    pub fn keeps_originals(self) -> (r: bool)
        ensures
            r == self.keeps(),
    {
        matches!(self, OverlayMode::Both | OverlayMode::Originals)
    }

    pub open spec fn after(self) -> OverlayMode {
        match self {
            OverlayMode::Merged => OverlayMode::Both,
            OverlayMode::Both => OverlayMode::Originals,
            OverlayMode::Originals => OverlayMode::Merged,
        }
    }

    /// The mode a toggle moves on to.
    #[must_use]
    pub fn next(self) -> (r: Self)
        ensures
            r == self.after(),
    {
        match self {
            OverlayMode::Merged => OverlayMode::Both,
            OverlayMode::Both => OverlayMode::Originals,
            OverlayMode::Originals => OverlayMode::Merged,
        }
    }
}

/// Whatever the mode, a caption layer is not lost: it is drawn in or kept.
pub proof fn law_no_mode_loses_a_caption(mode: OverlayMode)
    ensures
        mode.draws() || mode.keeps(),
{
}

/// Toggling reaches every mode and comes back after the third.
pub proof fn law_modes_cycle(mode: OverlayMode)
    ensures
        mode.after() != mode,
        mode.after().after() != mode,
        mode.after().after().after() == mode,
{
}

// ---- what earlier runs recorded ----

/// Which conversation each file belongs to: the one whose message names it, and for a token with
/// no file, the one that names the token.
pub open spec fn named_by_items(items: Seq<ChatMediaItem>) -> Map<Seq<char>, Seq<char>>
    decreases items.len(),
{
    if items.len() == 0 {
        Map::empty()
    } else {
        let before = named_by_items(items.drop_last());
        match items.last().join {
            Join::Named(message) => before.insert(items.last().media.file.id@, message.conversation.0@),
            _ => before,
        }
    }
}

pub open spec fn named_by_gaps(start: Map<Seq<char>, Seq<char>>, gaps: Seq<MissingMedia>) -> Map<Seq<char>, Seq<char>>
    decreases gaps.len(),
{
    if gaps.len() == 0 {
        start
    } else {
        named_by_gaps(start, gaps.drop_last()).insert(gaps.last().token@, gaps.last().conversation.0@)
    }
}

/// Every file's conversation. Where a token names both, the gap's holds.
pub open spec fn conversations_of(items: Seq<ChatMediaItem>, gaps: Seq<MissingMedia>) -> Map<Seq<char>, Seq<char>> {
    named_by_gaps(named_by_items(items), gaps)
}

pub open spec fn id_views(map: Map<Seq<char>, ConversationId>) -> Map<Seq<char>, Seq<char>> {
    map.map_values(|id: ConversationId| id.0@)
}

fn attributed(reconciliation: &Reconciliation) -> (r: StringHashMap<ConversationId>)
    ensures
        id_views(r@) == conversations_of(reconciliation.items@, reconciliation.missing@),
{
    let mut conversations: StringHashMap<ConversationId> = StringHashMap::new();
    let items = &reconciliation.items;
    let missing = &reconciliation.missing;
    assert(id_views(conversations@) =~= Map::empty());
    let mut i: usize = 0;
    while i < items.len()
        invariant
            i <= items@.len(),
            id_views(conversations@) == named_by_items(items@.take(i as int)),
        decreases items.len() - i,
    {
        let item = &items[i];
        proof {
            let now = items@.take(i + 1);
            assert(now.drop_last() =~= items@.take(i as int));
            assert(now.last() == *item);
        }
        match item.message() {
            Some(message) => {
                let ghost before = conversations@;
                let id = message.conversation.clone();
                conversations.insert(item.source_id().to_owned(), id);
                assert(id_views(conversations@) =~= id_views(before).insert(item.media.file.id@, message.conversation.0@));
            },
            None => {},
        }
        i += 1;
    }
    assert(items@.take(i as int) =~= items@);
    let ghost start = id_views(conversations@);
    let mut j: usize = 0;
    assert(missing@.take(0) =~= Seq::empty());
    while j < missing.len()
        invariant
            j <= missing@.len(),
            id_views(conversations@) == named_by_gaps(start, missing@.take(j as int)),
        decreases missing.len() - j,
    {
        let gap = &missing[j];
        proof {
            let now = missing@.take(j + 1);
            assert(now.drop_last() =~= missing@.take(j as int));
            assert(now.last() == *gap);
        }
        let ghost before = conversations@;
        let id = gap.conversation.clone();
        conversations.insert(gap.token.clone(), id);
        assert(id_views(conversations@) =~= id_views(before).insert(gap.token@, gap.conversation.0@));
        j += 1;
    }
    assert(missing@.take(j as int) =~= missing@);
    conversations
}

/// The directory a row's output lies in.
pub open spec fn row_dir(row: Item) -> Option<PathView> {
    match row.output_path {
        Some(path) => parent_of(path@),
        None => None,
    }
}

/// Whether a row's output lies in a directory.
pub open spec fn some_row_in(rows: Seq<Item>, dir: PathView) -> bool {
    exists|i: int| 0 <= i < rows.len() && row_dir(#[trigger] rows[i]) == Some(dir)
}

/// Whether a row of a conversation's has its output in a directory.
pub open spec fn own_row_in(rows: Seq<Item>, conversations: Map<Seq<char>, Seq<char>>, key: Seq<char>, dir: PathView) -> bool {
    exists|i: int|
        0 <= i < rows.len() && row_dir(#[trigger] rows[i]) == Some(dir) && conversations.contains_key(rows[i].source_id@)
            && conversations[rows[i].source_id@] == key
}

/// What earlier runs recorded of where chat media lies.
#[derive(Debug)]
pub struct RecordedDirs {
    /// Each conversation with the directories its own rows name.
    pub named: Vec<NamedDirs>,
    /// Every directory any row names.
    pub occupied: Vec<FilePath>,
    /// Every output any row names.
    pub outputs: RecordedOutputs,
}

impl RecordedDirs {
    pub open spec fn wf(self) -> bool {
        named_in_order(self.named@) && dirs_in_order(self.occupied@)
    }

    /// What the rows of a manifest come to.
    pub open spec fn tells(self, rows: Seq<Item>, conversations: Map<Seq<char>, Seq<char>>) -> bool {
        &&& record_views(self.outputs.recorded@) == records_in(rows)
        &&& forall|dir: PathView| #[trigger] has_dir(self.occupied@, dir) <==> some_row_in(rows, dir)
        &&& forall|key: Seq<char>, dir: PathView| #[trigger]
            names_dir(self.named@, key, dir) <==> own_row_in(rows, conversations, key, dir)
    }

    /// Nothing recorded.
    pub fn empty() -> (r: Self)
        ensures
            r.wf(),
            r.named@.len() == 0,
            r.occupied@.len() == 0,
            r.outputs.recorded@.len() == 0,
    {
        RecordedDirs { named: Vec::new(), occupied: Vec::new(), outputs: RecordedOutputs::empty() }
    }

    /// Reads the directories the chat rows name, each under the conversation the join gives its file.
    pub fn read(reconciliation: &Reconciliation, manifest: &Manifest) -> (r: Result<Self, ManifestError>)
        ensures
            recorded_in(manifest.rows@, conversations_of(reconciliation.items@, reconciliation.missing@), r),
    {
        Self::read_under(&attributed(reconciliation), manifest)
    }

    /// Reads the directories the chat rows name, each under the conversation its token is listed
    /// with.
    pub fn read_by_tokens(owners: &Vec<TokenOwner>, manifest: &Manifest) -> (r: Result<Self, ManifestError>)
        ensures
            recorded_in(manifest.rows@, owned_by(owners@), r),
    {
        let mut conversations: StringHashMap<ConversationId> = StringHashMap::new();
        assert(id_views(conversations@) =~= Map::empty());
        let mut i: usize = 0;
        while i < owners.len()
            invariant
                i <= owners@.len(),
                id_views(conversations@) == owned_by(owners@.take(i as int)),
            decreases owners.len() - i,
        {
            let owner = &owners[i];
            proof {
                let now = owners@.take(i + 1);
                assert(now.drop_last() =~= owners@.take(i as int));
                assert(now.last() == *owner);
            }
            let ghost before = conversations@;
            let id = owner.conversation.clone();
            conversations.insert(owner.token.clone(), id);
            assert(id_views(conversations@) =~= id_views(before).insert(owner.token@, owner.conversation.0@));
            i += 1;
        }
        assert(owners@.take(i as int) =~= owners@);
        Self::read_under(&conversations, manifest)
    }

    fn read_under(conversations: &StringHashMap<ConversationId>, manifest: &Manifest) -> (r: Result<Self, ManifestError>)
        ensures
            recorded_in(manifest.rows@, id_views(conversations@), r),
    {
        let ghost ids = id_views(conversations@);
        let rows = match manifest.items(ItemKind::ChatMedia) {
            Ok(rows) => rows,
            Err(error) => {
                return Err(error);
            },
        };
        let mut named: Vec<NamedDirs> = Vec::new();
        let mut occupied: Vec<FilePath> = Vec::new();
        let mut i: usize = 0;
        while i < rows.len()
            invariant
                i <= rows@.len(),
                ids == id_views(conversations@),
                named_in_order(named@),
                dirs_in_order(occupied@),
                forall|dir: PathView| #[trigger] has_dir(occupied@, dir) <==> some_row_in(rows@.take(i as int), dir),
                forall|key: Seq<char>, dir: PathView| #[trigger]
                    names_dir(named@, key, dir) <==> own_row_in(rows@.take(i as int), ids, key, dir),
            decreases rows.len() - i,
        {
            let row = &rows[i];
            let ghost before = rows@.take(i as int);
            let ghost now = rows@.take(i + 1);
            proof {
                lemma_more_rows(before, *row, ids);
                assert(now =~= before.push(*row));
            }
            let dir = match &row.output_path {
                Some(path) => path.parent(),
                None => None,
            };
            match dir {
                Some(dir) => {
                    match conversations.get(&row.source_id) {
                        Some(conversation) => {
                            name_dir(&mut named, conversation, dir.clone());
                        },
                        None => {},
                    }
                    add_dir(&mut occupied, dir);
                },
                None => {},
            }
            i += 1;
        }
        assert(rows@.take(i as int) =~= rows@);
        let outputs = RecordedOutputs::of(&rows);
        let recorded = RecordedDirs { named, occupied, outputs };
        assert(recorded.tells(rows@, ids));
        assert(read_back(listed(manifest.rows@, ItemKind::ChatMedia), Ok(rows)));
        Ok(recorded)
    }
}

/// A media token and the conversation whose message names it.
#[derive(Debug, PartialEq, Eq)]
pub struct TokenOwner {
    pub token: String,
    pub conversation: ConversationId,
}

/// Every listed token's conversation; the last where a token is listed again.
pub open spec fn owned_by(owners: Seq<TokenOwner>) -> Map<Seq<char>, Seq<char>>
    decreases owners.len(),
{
    if owners.len() == 0 {
        Map::empty()
    } else {
        owned_by(owners.drop_last()).insert(owners.last().token@, owners.last().conversation.0@)
    }
}

/// What reading the recorded directories of a table comes to, where each file's conversation is
/// the one given.
pub open spec fn recorded_in(
    rows: Seq<RawItem>,
    conversations: Map<Seq<char>, Seq<char>>,
    r: Result<RecordedDirs, ManifestError>,
) -> bool {
    match r {
        Ok(recorded) => recorded.wf() && exists|items: Vec<Item>| #[trigger]
            read_back(listed(rows, ItemKind::ChatMedia), Ok(items)) && recorded.tells(items@, conversations),
        Err(error) => read_back(listed(rows, ItemKind::ChatMedia), Err(error)),
    }
}

proof fn lemma_more_rows(rows: Seq<Item>, row: Item, conversations: Map<Seq<char>, Seq<char>>)
    ensures
        forall|dir: PathView| #[trigger] some_row_in(rows.push(row), dir) <==> some_row_in(rows, dir) || row_dir(row) == Some(dir),
        forall|key: Seq<char>, dir: PathView| #[trigger]
            own_row_in(rows.push(row), conversations, key, dir) <==> own_row_in(rows, conversations, key, dir) || (row_dir(row)
                == Some(dir) && conversations.contains_key(row.source_id@) && conversations[row.source_id@] == key),
{
    let more = rows.push(row);
    assert(more[rows.len() as int] == row);
    assert forall|dir: PathView| #[trigger] some_row_in(more, dir) <==> some_row_in(rows, dir) || row_dir(row) == Some(dir) by {
        if some_row_in(more, dir) {
            let i = choose|i: int| 0 <= i < more.len() && row_dir(#[trigger] more[i]) == Some(dir);
            if i < rows.len() {
                assert(rows[i] == more[i]);
            }
        }
        if some_row_in(rows, dir) {
            let i = choose|i: int| 0 <= i < rows.len() && row_dir(#[trigger] rows[i]) == Some(dir);
            assert(rows[i] == more[i]);
        }
        if row_dir(row) == Some(dir) {
            assert(row_dir(more[rows.len() as int]) == Some(dir));
        }
    }
    assert forall|key: Seq<char>, dir: PathView| #[trigger]
        own_row_in(more, conversations, key, dir) <==> own_row_in(rows, conversations, key, dir) || (row_dir(row) == Some(dir)
            && conversations.contains_key(row.source_id@) && conversations[row.source_id@] == key) by {
        if own_row_in(more, conversations, key, dir) {
            let i = choose|i: int|
                0 <= i < more.len() && row_dir(#[trigger] more[i]) == Some(dir) && conversations.contains_key(more[i].source_id@)
                    && conversations[more[i].source_id@] == key;
            if i < rows.len() {
                assert(rows[i] == more[i]);
            }
        }
        if own_row_in(rows, conversations, key, dir) {
            let i = choose|i: int|
                0 <= i < rows.len() && row_dir(#[trigger] rows[i]) == Some(dir) && conversations.contains_key(rows[i].source_id@)
                    && conversations[rows[i].source_id@] == key;
            assert(rows[i] == more[i]);
        }
        if row_dir(row) == Some(dir) && conversations.contains_key(row.source_id@) && conversations[row.source_id@] == key {
            assert(row_dir(more[rows.len() as int]) == Some(dir));
        }
    }
}

// ---- one item ----

/// When a file was taken: what its message states where the calendar has it, else the file's own
/// word, else the day in its name.
pub open spec fn captured(item: ChatMediaItem, reading: Option<Embedded>) -> Option<Capture> {
    let sent = match item_date(item) {
        MediaDate::Message(created) => calendar_of(created),
        MediaDate::Filename(_) => None,
    };
    match (sent, reading) {
        (Some(utc), _) => Some(Capture { local: utc, offset: Some(0), source: TimeSource::Message }),
        (None, Some(reading)) => Some(embedded_of(reading)),
        (None, None) => from_day_of(item.media.file.day),
    }
}

pub fn capture_of(item: &ChatMediaItem, reading: Option<Embedded>) -> (r: Option<Capture>)
    requires
        reading matches Some(reading) ==> reading.wf(),
    ensures
        r == captured(*item, reading),
        r matches Some(capture) ==> capture.wf(),
{
    if let MediaDate::Message(created) = item.date() {
        if let Some(utc) = calendar(created) {
            return Some(Capture::from_message(utc));
        }
    }
    match reading {
        Some(reading) => Some(embedded(reading)),
        None => Capture::from_day(item.media.file.day),
    }
}

/// Who sent a file and where. A conversation with no key is none.
pub open spec fn credited(message: Message) -> AttributionView {
    AttributionView {
        sender: match message.from {
            Some(name) => Some(name.0@),
            None => None,
        },
        conversation: if message.conversation.0@.len() == 0 {
            None
        } else {
            Some(message.conversation.0@)
        },
    }
}

pub fn attribution(message: &Message) -> (r: Attribution)
    ensures
        attribution_view(Some(r)) == Some(credited(*message)),
{
    let sender: Option<Username> = match &message.from {
        Some(name) => Some(name.clone()),
        None => None,
    };
    let conversation: Option<ConversationId> = if is_empty_text(message.conversation.as_str()) {
        None
    } else {
        Some(message.conversation.clone())
    };
    Attribution { sender, conversation }
}

// ---- the plan ----

/// The conversations messages name, item by item.
pub open spec fn named_ids(items: Seq<ChatMediaItem>) -> Seq<ConversationId>
    decreases items.len(),
{
    if items.len() == 0 {
        Seq::empty()
    } else {
        let before = named_ids(items.drop_last());
        match items.last().join {
            Join::Named(message) => before.push(message.conversation),
            _ => before,
        }
    }
}

/// What is assigned once every conversation of a list was asked for, in turn.
pub open spec fn all_asked(start: Assignment, root: PathView, ids: Seq<ConversationId>) -> Assignment
    decreases ids.len(),
{
    if ids.len() == 0 {
        start
    } else {
        after_asking(all_asked(start, root, ids.drop_last()), root, ids.last().0@)
    }
}

/// Each conversation's directory: asked for in the order of their keys, whatever the order of the
/// items, so that a name does not move when the export lists its files otherwise.
pub open spec fn homes(recorded: RecordedDirs, root: PathView, items: Seq<ChatMediaItem>) -> Assignment {
    all_asked(opened(root, named_views(recorded.named@), dir_views(recorded.occupied@)), root, sorted(named_ids(items)))
}

proof fn lemma_asked_all(start: Assignment, root: PathView, ids: Seq<ConversationId>, at: int)
    requires
        0 <= at < ids.len(),
    ensures
        all_asked(start, root, ids).assigned.contains_key(ids[at].0@),
    decreases ids.len(),
{
    if at < ids.len() - 1 {
        assert(ids.drop_last()[at] == ids[at]);
        lemma_asked_all(start, root, ids.drop_last(), at);
    }
}

proof fn lemma_named_id(items: Seq<ChatMediaItem>, at: int)
    requires
        0 <= at < items.len(),
        items[at].join is Named,
    ensures
        named_ids(items).contains(items[at].join->Named_0.conversation),
    decreases items.len(),
{
    let id = items[at].join->Named_0.conversation;
    if at < items.len() - 1 {
        assert(items.drop_last()[at] == items[at]);
        lemma_named_id(items.drop_last(), at);
        let before = named_ids(items.drop_last());
        let k = choose|k: int| 0 <= k < before.len() && before[k] == id;
        assert(named_ids(items)[k] == id);
    } else {
        assert(named_ids(items).last() == id);
        assert(named_ids(items)[named_ids(items).len() - 1] == id);
    }
}

/// Every conversation a message names has a directory.
proof fn lemma_homed(recorded: RecordedDirs, root: PathView, items: Seq<ChatMediaItem>, at: int)
    requires
        0 <= at < items.len(),
        items[at].join is Named,
    ensures
        homes(recorded, root, items).assigned.contains_key(items[at].join->Named_0.conversation.0@),
{
    let id = items[at].join->Named_0.conversation;
    lemma_named_id(items, at);
    lemma_sorted_contains(named_ids(items), id);
    let ids = sorted(named_ids(items));
    let k = choose|k: int| 0 <= k < ids.len() && ids[k] == id;
    lemma_asked_all(opened(root, named_views(recorded.named@), dir_views(recorded.occupied@)), root, ids, k);
}

/// The directory an item lands in: its conversation's, or by date where it has none.
pub open spec fn item_dir(homes: Assignment, root: PathView, item: ChatMediaItem, capture: Capture) -> PathView {
    match item.join {
        Join::Named(message) => homes.assigned[message.conversation.0@],
        _ => month_dir(joined(root, NO_CONVERSATION_DIR@), capture.local),
    }
}

pub open spec fn overlay_of(item: ChatMediaItem) -> Option<PathView> {
    match item.media.overlay {
        Some(file) => Some(file.path@),
        None => None,
    }
}

/// What one item adds to a plan: a thumbnail is left out, a format or a date that is not known is
/// deferred, and all else is planned.
pub open spec fn chat_step(
    state: PlanState,
    item: ChatMediaItem,
    reading: Option<Embedded>,
    mode: OverlayMode,
    homes: Assignment,
    root: PathView,
) -> PlanState {
    let id = item.media.file.id@;
    let extension = item.media.file.extension@;
    if item.media.file.token == Token::Thumbnail {
        PlanState { excluded: state.excluded.push(id), ..state }
    } else {
        match leg_of(extension) {
            None => with_deferred(state, id, DeferralReason::UnknownFormat),
            Some(leg) => match captured(item, reading) {
                None => with_deferred(state, id, DeferralReason::NoCalendarDate),
                Some(capture) => {
                    let dir = item_dir(homes, root, item, capture);
                    let stem = compact_text(capture.local);
                    let format = written_as(leg, extension);
                    let written = after_path(state.out, id, dir, stem, format);
                    let beside = joined(dir, ORIGINALS_DIR@);
                    let main = item.media.file.path@;
                    let overlay = overlay_of(item);
                    let kept = mode.keeps() && overlay is Some;
                    PlanState {
                        out: if kept {
                            after_originals(written, beside, main, overlay.unwrap())
                        } else {
                            written
                        },
                        items: state.items.push(
                            PlannedView {
                                source_id: id,
                                media: SourceView {
                                    main,
                                    day: item.media.file.day,
                                    extension,
                                    overlay: if mode.draws() {
                                        overlay
                                    } else {
                                        None
                                    },
                                },
                                leg,
                                capture,
                                location: None,
                                attribution: match item.join {
                                    Join::Named(message) => Some(credited(message)),
                                    _ => None,
                                },
                                output: path_for(state.out, id, dir, stem, format),
                                originals: if kept {
                                    originals_for(written, beside, main, overlay.unwrap())
                                } else {
                                    None
                                },
                            },
                        ),
                        ..state
                    }
                },
            },
        }
    }
}

/// A plan over the items in turn.
pub open spec fn chat_plan(
    start: PlanState,
    items: Seq<ChatMediaItem>,
    readings: Seq<Option<Embedded>>,
    mode: OverlayMode,
    homes: Assignment,
    root: PathView,
) -> PlanState
    decreases items.len(),
{
    if items.len() == 0 {
        start
    } else {
        chat_step(
            chat_plan(start, items.drop_last(), readings, mode, homes, root),
            items.last(),
            readings[items.len() - 1],
            mode,
            homes,
            root,
        )
    }
}

fn ids_of(items: &Vec<ChatMediaItem>) -> (r: Vec<ConversationId>)
    ensures
        r@ == named_ids(items@),
{
    let mut ids: Vec<ConversationId> = Vec::new();
    let mut i: usize = 0;
    while i < items.len()
        invariant
            i <= items@.len(),
            ids@ == named_ids(items@.take(i as int)),
        decreases items.len() - i,
    {
        proof {
            let now = items@.take(i + 1);
            assert(now.drop_last() =~= items@.take(i as int));
            assert(now.last() == items@[i as int]);
        }
        match items[i].message() {
            Some(message) => {
                ids.push(message.conversation.clone());
            },
            None => {},
        }
        i += 1;
    }
    assert(items@.take(i as int) =~= items@);
    ids
}

fn homed(root: &FilePath, recorded: &RecordedDirs, items: &Vec<ChatMediaItem>) -> (r: Conversations)
    ensures
        r.wf(),
        r.root() == root@,
        r.state() == homes(*recorded, root@, items@),
{
    let mut conversations = Conversations::new(root.clone(), &recorded.named, &recorded.occupied);
    let ghost start = conversations.state();
    let ids = sort(ids_of(items));
    let mut i: usize = 0;
    assert(ids@.take(0) =~= Seq::empty());
    while i < ids.len()
        invariant
            i <= ids@.len(),
            conversations.wf(),
            conversations.root() == root@,
            conversations.state() == all_asked(start, root@, ids@.take(i as int)),
        decreases ids.len() - i,
    {
        let ghost before = conversations.state();
        let dir = conversations.dir(&ids[i]);
        proof {
            let now = ids@.take(i + 1);
            assert(now.drop_last() =~= ids@.take(i as int));
            assert(now.last() == ids@[i as int]);
            lemma_asked_is_after_asking(before, conversations.state(), root@, ids@[i as int].0@);
        }
        i += 1;
    }
    assert(ids@.take(i as int) =~= ids@);
    conversations
}

/// What planning the chat media of an export comes to, over what it is given.
pub open spec fn plans_chats(
    plan: Plan,
    items: Seq<ChatMediaItem>,
    readings: Seq<Option<Embedded>>,
    out_root: PathView,
    mode: OverlayMode,
    recorded: RecordedDirs,
) -> bool {
    let root = joined(out_root, CHAT_DIR@);
    plan_is(
        plan,
        ItemKind::ChatMedia,
        chat_plan(
            nothing_planned(root, record_views(recorded.outputs.recorded@)),
            items,
            readings,
            mode,
            homes(recorded, root, items),
            root,
        ),
    )
}

/// Plans the chat media of an export: one reading of the file itself for each item, and the out
/// root in its one spelling.
#[verifier::rlimit(60)]
pub fn plan(
    reconciliation: &Reconciliation,
    readings: &Vec<Option<Embedded>>,
    out_root: Result<FilePath, OutRootError>,
    mode: OverlayMode,
    recorded: &RecordedDirs,
) -> (r: Result<Plan, OutRootError>)
    requires
        readings@.len() == reconciliation.items@.len(),
        forall|i: int| 0 <= i < readings@.len() ==> ((#[trigger] readings@[i]) matches Some(reading) ==> reading.wf()),
    ensures
        match out_root {
            Err(error) => r == Err::<Plan, OutRootError>(error),
            Ok(out_root) => r matches Ok(plan) && plans_chats(plan, reconciliation.items@, readings@, out_root@, mode, *recorded),
        },
{
    let out_root = match out_root {
        Ok(out_root) => out_root,
        Err(error) => {
            return Err(error);
        },
    };
    let items = &reconciliation.items;
    let chat_root = out_root.join(CHAT_DIR);
    let no_conversation = chat_root.join(NO_CONVERSATION_DIR);
    let mut outputs = Outputs::new(chat_root.clone(), &recorded.outputs);
    let mut conversations = homed(&chat_root, recorded, items);
    let ghost root = chat_root@;
    let ghost homes_now = homes(*recorded, root, items@);
    let ghost start = nothing_planned(root, record_views(recorded.outputs.recorded@));
    let mut planned: Vec<PlannedItem> = Vec::new();
    let mut deferred: Vec<Deferred> = Vec::new();
    let mut excluded: Vec<String> = Vec::new();
    assert(planned_views(planned@) =~= start.items);
    assert(deferred_views(deferred@) =~= start.deferred);
    assert(views(excluded@) =~= start.excluded);
    let mut i: usize = 0;
    while i < items.len()
        invariant
            i <= items@.len(),
            items == reconciliation.items,
            readings@.len() == items@.len(),
            forall|j: int| 0 <= j < readings@.len() ==> ((#[trigger] readings@[j]) matches Some(reading) ==> reading.wf()),
            outputs.wf(),
            conversations.wf(),
            conversations.root() == root,
            conversations.state() == homes_now,
            homes_now == homes(*recorded, root, items@),
            no_conversation@ == joined(root, NO_CONVERSATION_DIR@),
            ({
                let state = chat_plan(start, items@.take(i as int), readings@, mode, homes_now, root);
                &&& state.out == outputs.state()
                &&& state.items == planned_views(planned@)
                &&& state.deferred == deferred_views(deferred@)
                &&& state.excluded == views(excluded@)
            }),
        decreases items.len() - i,
    {
        let item = &items[i];
        let ghost at = i as int;
        proof {
            let now = items@.take(i + 1);
            assert(now.drop_last() =~= items@.take(i as int));
            assert(now.last() == *item);
        }
        let reading = readings[i];
        i += 1;
        if item.media.file.token == Token::Thumbnail {
            let id = item.source_id().to_owned();
            proof {
                lemma_views_push(excluded@, id);
            }
            excluded.push(id);
            continue;
        }
        let leg = match Leg::of(&item.media.file.extension) {
            Some(leg) => leg,
            None => {
                let left = Deferred { source_id: item.source_id().to_owned(), reason: DeferralReason::UnknownFormat };
                proof {
                    lemma_deferred_push(deferred@, left);
                }
                deferred.push(left);
                continue;
            },
        };
        let overlay: Option<FilePath> = match &item.media.overlay {
            Some(file) => Some(file.path.clone()),
            None => None,
        };
        let drawn: Option<FilePath> = if mode.composites() {
            match &overlay {
                Some(path) => Some(path.clone()),
                None => None,
            }
        } else {
            None
        };
        let media = SourceMedia {
            main: item.media.file.path.clone(),
            day: item.media.file.day,
            extension: item.media.file.extension.clone(),
            overlay: drawn,
        };
        let capture = match capture_of(item, reading) {
            Some(capture) => capture,
            None => {
                let left = Deferred { source_id: item.source_id().to_owned(), reason: DeferralReason::NoCalendarDate };
                proof {
                    lemma_deferred_push(deferred@, left);
                }
                deferred.push(left);
                continue;
            },
        };
        let dir = match item.message() {
            Some(message) => {
                proof {
                    lemma_homed(*recorded, root, items@, at);
                }
                conversations.dir(&message.conversation)
            },
            None => output_dir(&no_conversation, capture.local),
        };
        let stem = capture.local.compact_text();
        let extension = output_extension(leg, &media);
        let ghost out = outputs.state();
        let output = outputs.path(item.source_id(), &dir, &stem, extension);
        proof {
            lemma_planned_is_path_for(out, outputs.state(), item.media.file.id@, dir@, stem@, extension@, output@);
        }
        let ghost written = outputs.state();
        let originals: Option<Originals> = match (mode.keeps_originals(), overlay) {
            (true, Some(overlay)) => {
                let beside = dir.join(ORIGINALS_DIR);
                let kept = outputs.kept(&beside, &media.main, overlay);
                proof {
                    lemma_kept_is_originals_for(written, outputs.state(), beside@, media.main@, overlay@, kept);
                }
                kept
            },
            _ => None,
        };
        let credit: Option<Attribution> = match item.message() {
            Some(message) => Some(attribution(message)),
            None => None,
        };
        let one = PlannedItem {
            source_id: item.source_id().to_owned(),
            media,
            leg,
            capture,
            location: None,
            attribution: credit,
            output,
            originals,
        };
        proof {
            lemma_planned_push(planned@, one);
        }
        planned.push(one);
    }
    assert(items@.take(i as int) =~= items@);
    Ok(Plan { kind: ItemKind::ChatMedia, items: planned, deferred, excluded })
}

// ---- laws ----

/// Whatever earlier runs recorded, each conversation a plan files under has a directory of its own
/// directly below the root, none of them the bucket for files no message names.
pub proof fn law_each_conversation_has_its_own_home(recorded: RecordedDirs, root: PathView, items: Seq<ChatMediaItem>)
    ensures
        apart(homes(recorded, root, items), root),
        forall|i: int|
            0 <= i < items.len() && (#[trigger] items[i]).join is Named ==> homes(recorded, root, items).assigned.contains_key(
                items[i].join->Named_0.conversation.0@,
            ),
{
    let (named, occupied) = (named_views(recorded.named@), dir_views(recorded.occupied@));
    law_opened_is_apart(root, named, occupied);
    lemma_opened_finite(root, named, occupied);
    lemma_all_asked_apart(opened(root, named, occupied), root, sorted(named_ids(items)));
    assert forall|i: int| 0 <= i < items.len() && (#[trigger] items[i]).join is Named implies homes(
        recorded,
        root,
        items,
    ).assigned.contains_key(items[i].join->Named_0.conversation.0@) by {
        lemma_homed(recorded, root, items, i);
    }
}

proof fn lemma_all_asked_apart(start: Assignment, root: PathView, ids: Seq<ConversationId>)
    requires
        apart(start, root),
        start.used.finite(),
    ensures
        apart(all_asked(start, root, ids), root),
        all_asked(start, root, ids).used.finite(),
    decreases ids.len(),
{
    if ids.len() > 0 {
        lemma_all_asked_apart(start, root, ids.drop_last());
        let before = all_asked(start, root, ids.drop_last());
        let key = ids.last().0@;
        lemma_after_asking_is_asked(before, root, key);
        law_asking_keeps_apart(before, after_asking(before, root, key), root, key);
    }
}

/// Every file of an export is planned, deferred or left out, and only one of these.
pub proof fn law_every_file_is_accounted_for(
    start: PlanState,
    items: Seq<ChatMediaItem>,
    readings: Seq<Option<Embedded>>,
    mode: OverlayMode,
    homes: Assignment,
    root: PathView,
)
    ensures
        ({
            let end = chat_plan(start, items, readings, mode, homes, root);
            end.items.len() + end.deferred.len() + end.excluded.len() == start.items.len() + start.deferred.len()
                + start.excluded.len() + items.len()
        }),
    decreases items.len(),
{
    if items.len() > 0 {
        law_every_file_is_accounted_for(start, items.drop_last(), readings, mode, homes, root);
    }
}

pub open spec fn ids_distinct(items: Seq<ChatMediaItem>) -> bool {
    forall|i: int, j: int|
        #![trigger items[i], items[j]]
        0 <= i < j < items.len() ==> items[i].media.file.id@ != items[j].media.file.id@
}

/// Every path a plan writes to: each output, and the copies kept beside it.
pub open spec fn given_all(items: Seq<PlannedView>) -> Seq<Given>
    decreases items.len(),
{
    if items.len() == 0 {
        Seq::empty()
    } else {
        let item = items.last();
        let output = given_all(items.drop_last()).push(Given { id: Some(item.source_id), path: item.output });
        match item.originals {
            Some(originals) => output.push(Given { id: None, path: originals.main_copy }).push(
                Given { id: None, path: originals.overlay_copy },
            ),
            None => output,
        }
    }
}

/// Whether no two of these paths are one file, on a filesystem that folds case too.
pub open spec fn files_differ(given: Seq<Given>) -> bool {
    forall|i: int, j: int|
        #![trigger given[i], given[j]]
        0 <= i < j < given.len() ==> path_key(given[i].path) != path_key(given[j].path)
}

/// Whether every path that is an item's output is the output of one of these.
spec fn given_to(given: Seq<Given>, items: Seq<ChatMediaItem>) -> bool {
    forall|i: int|
        #![trigger given[i]]
        0 <= i < given.len() ==> (given[i].id matches Some(id) ==> exists|j: int|
            0 <= j < items.len() && (#[trigger] items[j]).media.file.id@ == id)
}

proof fn lemma_chat_plan_apart(
    items: Seq<ChatMediaItem>,
    readings: Seq<Option<Embedded>>,
    mode: OverlayMode,
    homes: Assignment,
    root: PathView,
    records: Seq<RecordView>,
)
    requires
        ids_distinct(items),
    ensures
        ({
            let state = chat_plan(nothing_planned(root, records), items, readings, mode, homes, root);
            given_apart(state.out, given_all(state.items)) && given_to(given_all(state.items), items)
        }),
    decreases items.len(),
{
    let start = nothing_planned(root, records);
    let state = chat_plan(start, items, readings, mode, homes, root);
    if items.len() == 0 {
        lemma_nothing_given(root, records);
    } else {
        let less = items.drop_last();
        assert forall|i: int, j: int| #![trigger less[i], less[j]] 0 <= i < j < less.len() implies less[i].media.file.id@
            != less[j].media.file.id@ by {
            assert(items[i] == less[i] && items[j] == less[j]);
        }
        lemma_chat_plan_apart(less, readings, mode, homes, root, records);
        let before = chat_plan(start, less, readings, mode, homes, root);
        let given = given_all(before.items);
        let item = items.last();
        let id = item.media.file.id@;
        assert(items[items.len() - 1] == item);
        assert forall|i: int| #![trigger given[i]] 0 <= i < given.len() implies (given[i].id matches Some(id) ==> exists|j: int|
            0 <= j < items.len() && (#[trigger] items[j]).media.file.id@ == id) && given[i].id != Some(id) by {
            if given[i].id is Some {
                let other = given[i].id.unwrap();
                let j = choose|j: int| 0 <= j < less.len() && (#[trigger] less[j]).media.file.id@ == other;
                assert(items[j] == less[j]);
                assert(items[j].media.file.id@ != items[items.len() - 1].media.file.id@);
            }
        }
        if state.items != before.items {
            let one = state.items.last();
            let dir = item_dir(homes, root, item, one.capture);
            let stem = compact_text(one.capture.local);
            let format = written_as(one.leg, item.media.file.extension@);
            let written = after_path(before.out, id, dir, stem, format);
            let beside = joined(dir, ORIGINALS_DIR@);
            lemma_given_output(before.out, given, id, dir, stem, format);
            let output = given.push(Given { id: Some(id), path: one.output });
            assert(state.items.drop_last() =~= before.items);
            match one.originals {
                Some(originals) => {
                    let (main, overlay) = (item.media.file.path@, overlay_of(item).unwrap());
                    let first = kept_name_of(main).unwrap();
                    let second = kept_name_of(overlay).unwrap();
                    lemma_given_fresh(written, output, None, beside, first.0, first.1);
                    let copied = output.push(Given { id: None, path: originals.main_copy });
                    let middle = with_path(written, originals.main_copy);
                    lemma_given_fresh(middle, copied, None, beside, second.0, second.1);
                    assert(given_all(state.items) == copied.push(Given { id: None, path: originals.overlay_copy }));
                },
                None => {
                    assert(given_all(state.items) == output);
                },
            }
            let all = given_all(state.items);
            assert forall|i: int| #![trigger all[i]] 0 <= i < all.len() implies (all[i].id matches Some(id) ==> exists|j: int|
                0 <= j < items.len() && (#[trigger] items[j]).media.file.id@ == id) by {
                if i < given.len() {
                    assert(all[i] == given[i]);
                } else if i == given.len() {
                    assert(all[i] == output[i]);
                }
            }
        }
    }
}

/// Whatever earlier runs recorded, no two files of a plan land on one, outputs and kept copies
/// alike, on a filesystem that folds case too.
pub proof fn law_chat_files_land_apart(
    items: Seq<ChatMediaItem>,
    readings: Seq<Option<Embedded>>,
    mode: OverlayMode,
    homes: Assignment,
    root: PathView,
    records: Seq<RecordView>,
)
    requires
        ids_distinct(items),
    ensures
        files_differ(given_all(chat_plan(nothing_planned(root, records), items, readings, mode, homes, root).items)),
{
    lemma_chat_plan_apart(items, readings, mode, homes, root, records);
}

/// Whether the message that names a file states an instant: in full, or where it does not, as an
/// epoch that falls in that second.
pub open spec fn states(item: ChatMediaItem, at: Timestamp) -> bool {
    item.join matches Join::Named(message) && (message.created == Some(at) || (message.created is None && (
    message.created_epoch_ms matches Some(ms) && at.year <= 9999 && calendar_has(at) && unix_seconds(reading_of(at)) == ms as int / 1000)))
}

/// Whether a file's message states an instant the calendar has.
pub open spec fn is_dated_by_message(item: ChatMediaItem) -> bool {
    exists|at: Timestamp| #[trigger] states(item, at) && calendar_has(at)
}

/// Whether anything dates a file.
pub open spec fn is_dated(item: ChatMediaItem, reading: Option<Embedded>) -> bool {
    is_dated_by_message(item) || reading is Some || calendar_has_day(item.media.file.day)
}

/// The message comes first: a file is dated by the instant its message states, in UTC, wherever the
/// calendar has it, whatever the file says of itself; the file's own word counts only where no
/// message dates it, and the day in its name only where the file says nothing.
pub proof fn law_the_message_dates_its_file(item: ChatMediaItem, reading: Option<Embedded>)
    requires
        reading matches Some(reading) ==> reading.wf(),
    ensures
        forall|at: Timestamp| #[trigger]
            states(item, at) && calendar_has(at) ==> (captured(item, reading) matches Some(capture) && capture.source
                == TimeSource::Message && capture.offset == Some(0i32) && shows(capture.local, at)),
        !is_dated_by_message(item) ==> match (captured(item, reading), reading) {
            (Some(capture), Some(reading)) => dated_by_file(capture, reading),
            (Some(capture), None) => calendar_has_day(item.media.file.day) && dated_by_day(capture, item.media.file.day),
            (None, Some(_)) => false,
            (None, None) => !calendar_has_day(item.media.file.day),
        },
        captured(item, reading) is Some <==> is_dated(item, reading),
{
    match reading {
        Some(reading) => law_a_file_dates_itself(reading),
        None => {},
    }
    law_a_day_dates_by_its_midnight(item.media.file.day);
    match item.join {
        Join::Named(message) => {
            assert forall|at: Timestamp| #[trigger] states(item, at) implies item_date(item) == MediaDate::Message(at) by {
                if message.created is None {
                    let ms = message.created_epoch_ms.unwrap() as int;
                    assert(names_epoch(at, ms));
                    lemma_epoch_named_once(at, stamp_of_epoch(ms).unwrap(), ms);
                }
            }
            match item_date(item) {
                MediaDate::Message(created) => {
                    law_a_stated_instant_is_read_as_spelled(created);
                    if message.created is None {
                        assert(names_epoch(created, message.created_epoch_ms.unwrap() as int));
                    }
                    assert(states(item, created));
                },
                MediaDate::Filename(_) => {},
            }
        },
        _ => {},
    }
}

/// A plan goes on from what it had come to at one of its items.
proof fn lemma_plan_goes_on(
    start: PlanState,
    items: Seq<ChatMediaItem>,
    readings: Seq<Option<Embedded>>,
    mode: OverlayMode,
    homes: Assignment,
    root: PathView,
    k: int,
)
    requires
        0 <= k <= items.len(),
    ensures
        goes_on(
            chat_plan(start, items.take(k), readings, mode, homes, root),
            chat_plan(start, items, readings, mode, homes, root),
        ),
    decreases items.len(),
{
    if k == items.len() {
        assert(items.take(k) =~= items);
    } else {
        let less = items.drop_last();
        assert(less.take(k) =~= items.take(k));
        lemma_plan_goes_on(start, less, readings, mode, homes, root, k);
        assert(goes_on(
            chat_plan(start, less, readings, mode, homes, root),
            chat_plan(start, items, readings, mode, homes, root),
        ));
    }
}

/// What one item brought to a plan stays in it.
proof fn lemma_step_stays(
    start: PlanState,
    items: Seq<ChatMediaItem>,
    readings: Seq<Option<Embedded>>,
    mode: OverlayMode,
    homes: Assignment,
    root: PathView,
    k: int,
)
    requires
        0 <= k < items.len(),
    ensures
        ({
            let before = chat_plan(start, items.take(k), readings, mode, homes, root);
            &&& goes_on(start, before)
            &&& goes_on(
                chat_step(before, items[k], readings[k], mode, homes, root),
                chat_plan(start, items, readings, mode, homes, root),
            )
        }),
{
    let taken = items.take(k + 1);
    assert(taken.drop_last() =~= items.take(k));
    assert(taken.last() == items[k]);
    lemma_plan_goes_on(start, items, readings, mode, homes, root, k + 1);
    lemma_plan_goes_on(start, items.take(k), readings, mode, homes, root, 0);
    assert(items.take(k).take(0) =~= Seq::empty());
}

/// Which item of the export a planned one was made from.
proof fn lemma_made_from(
    start: PlanState,
    items: Seq<ChatMediaItem>,
    readings: Seq<Option<Embedded>>,
    mode: OverlayMode,
    homes: Assignment,
    root: PathView,
    p: int,
) -> (k: int)
    requires
        start.items.len() <= p < chat_plan(start, items, readings, mode, homes, root).items.len(),
    ensures
        0 <= k < items.len(),
        ({
            let before = chat_plan(start, items.take(k), readings, mode, homes, root);
            let after = chat_step(before, items[k], readings[k], mode, homes, root);
            &&& after.items.len() == before.items.len() + 1
            &&& p == before.items.len()
            &&& after.items[p] == chat_plan(start, items, readings, mode, homes, root).items[p]
        }),
    decreases items.len(),
{
    let less = items.drop_last();
    let middle = chat_plan(start, less, readings, mode, homes, root);
    if p < middle.items.len() {
        let k = lemma_made_from(start, less, readings, mode, homes, root, p);
        assert(less.take(k) =~= items.take(k));
        k
    } else {
        assert(items.take(items.len() - 1) =~= less);
        items.len() - 1
    }
}

/// The planned item and the item of the export that share an id are one step of the plan.
proof fn lemma_of_one_id(
    plan: Plan,
    items: Seq<ChatMediaItem>,
    readings: Seq<Option<Embedded>>,
    out_root: PathView,
    mode: OverlayMode,
    recorded: RecordedDirs,
    p: int,
    k: int,
) -> (before: PlanState)
    requires
        plans_chats(plan, items, readings, out_root, mode, recorded),
        ids_distinct(items),
        0 <= p < plan.items@.len(),
        0 <= k < items.len(),
        plan.items@[p].source_id@ == items[k].media.file.id@,
    ensures
        ({
            let root = joined(out_root, CHAT_DIR@);
            let after = chat_step(before, items[k], readings[k], mode, homes(recorded, root, items), root);
            &&& after.items.len() == before.items.len() + 1
            &&& after.items.last() == plan.items@[p]@
            &&& before.out.assigned == nothing_planned(root, record_views(recorded.outputs.recorded@)).out.assigned
        }),
{
    let root = joined(out_root, CHAT_DIR@);
    let start = nothing_planned(root, record_views(recorded.outputs.recorded@));
    let own = homes(recorded, root, items);
    let end = chat_plan(start, items, readings, mode, own, root);
    assert(planned_views(plan.items@)[p] == plan.items@[p]@);
    let j = lemma_made_from(start, items, readings, mode, own, root, p);
    lemma_step_stays(start, items, readings, mode, own, root, j);
    let before = chat_plan(start, items.take(j), readings, mode, own, root);
    let after = chat_step(before, items[j], readings[j], mode, own, root);
    assert(after.items.last() == end.items[p]);
    if j < k {
        assert(items[j].media.file.id@ != items[k].media.file.id@);
    } else if k < j {
        assert(items[k].media.file.id@ != items[j].media.file.id@);
    }
    before
}

/// A plan dates every file as [`law_the_message_dates_its_file`] says: by its message where that
/// states an instant the calendar has, then by the file's own word, then by the day in its name.
pub proof fn law_a_plan_dates_by_the_message(
    plan: Plan,
    items: Seq<ChatMediaItem>,
    readings: Seq<Option<Embedded>>,
    out_root: PathView,
    mode: OverlayMode,
    recorded: RecordedDirs,
    p: int,
    k: int,
)
    requires
        plans_chats(plan, items, readings, out_root, mode, recorded),
        ids_distinct(items),
        readings[k] matches Some(reading) ==> reading.wf(),
        0 <= p < plan.items@.len(),
        0 <= k < items.len(),
        plan.items@[p].source_id@ == items[k].media.file.id@,
    ensures
        ({
            let capture = plan.items@[p].capture;
            &&& forall|at: Timestamp| #[trigger]
                states(items[k], at) && calendar_has(at) ==> capture.source == TimeSource::Message && capture.offset == Some(0i32) && shows(
                    capture.local,
                    at,
                )
            &&& !is_dated_by_message(items[k]) ==> match readings[k] {
                Some(reading) => dated_by_file(capture, reading),
                None => dated_by_day(capture, items[k].media.file.day),
            }
        }),
{
    let before = lemma_of_one_id(plan, items, readings, out_root, mode, recorded, p, k);
    law_the_message_dates_its_file(items[k], readings[k]);
}

/// A plan takes each file for what it is: its own path, day and extension, down the leg of its
/// format, with no place, and credited to the sender and the conversation of its message and to
/// nobody where no message names it.
pub proof fn law_a_plan_takes_each_file_for_what_it_is(
    plan: Plan,
    items: Seq<ChatMediaItem>,
    readings: Seq<Option<Embedded>>,
    out_root: PathView,
    mode: OverlayMode,
    recorded: RecordedDirs,
    p: int,
    k: int,
)
    requires
        plans_chats(plan, items, readings, out_root, mode, recorded),
        ids_distinct(items),
        0 <= p < plan.items@.len(),
        0 <= k < items.len(),
        plan.items@[p].source_id@ == items[k].media.file.id@,
    ensures
        ({
            let (planned, file) = (plan.items@[p]@, items[k].media.file);
            &&& planned.media.main == file.path@
            &&& planned.media.day == file.day
            &&& planned.media.extension == file.extension@
            &&& is_taken(file.extension@)
            &&& planned.leg == Leg::Video <==> fold(file.extension@) == "mp4"@
            &&& planned.location is None
            &&& match items[k].join {
                Join::Named(message) => planned.attribution matches Some(credit) && credit.sender == (match message.from {
                    Some(name) => Some(name.0@),
                    None => None,
                }) && (message.conversation.0@.len() > 0 ==> credit.conversation == Some(message.conversation.0@)) && (
                message.conversation.0@.len() == 0 ==> credit.conversation is None),
                _ => planned.attribution is None,
            }
        }),
{
    let before = lemma_of_one_id(plan, items, readings, out_root, mode, recorded, p, k);
    law_a_file_keeps_its_kind(items[k].media.file.extension@);
}

/// What becomes of a caption is what was asked: it is drawn in unless only the originals are asked
/// for, and copies of the two files are kept beside the output unless only the merged file is, each
/// under its own name.
pub proof fn law_a_caption_goes_where_it_was_asked(
    plan: Plan,
    items: Seq<ChatMediaItem>,
    readings: Seq<Option<Embedded>>,
    out_root: PathView,
    mode: OverlayMode,
    recorded: RecordedDirs,
    p: int,
    k: int,
)
    requires
        plans_chats(plan, items, readings, out_root, mode, recorded),
        ids_distinct(items),
        0 <= p < plan.items@.len(),
        0 <= k < items.len(),
        plan.items@[p].source_id@ == items[k].media.file.id@,
    ensures
        ({
            let (planned, media) = (plan.items@[p]@, items[k].media);
            match media.overlay {
                None => planned.media.overlay is None && planned.originals is None,
                Some(layer) => {
                    &&& planned.media.overlay == (if mode == OverlayMode::Originals {
                        None
                    } else {
                        Some(layer.path@)
                    })
                    &&& mode == OverlayMode::Merged ==> planned.originals is None
                    &&& mode != OverlayMode::Merged && kept_name_of(media.file.path@) is Some && kept_name_of(layer.path@) is Some
                        ==> planned.originals is Some
                    &&& planned.originals matches Some(kept) ==> {
                        &&& kept.overlay == layer.path@
                        &&& copies(kept.main_copy, media.file.path@, planned.output)
                        &&& copies(kept.overlay_copy, layer.path@, planned.output)
                    }
                },
            }
        }),
{
    let before = lemma_of_one_id(plan, items, readings, out_root, mode, recorded, p, k);
    let root = joined(out_root, CHAT_DIR@);
    let own = homes(recorded, root, items);
    let (planned, media) = (plan.items@[p]@, items[k].media);
    let dir = item_dir(own, root, items[k], planned.capture);
    let stem = compact_text(planned.capture.local);
    let format = written_as(planned.leg, media.file.extension@);
    let written = after_path(before.out, media.file.id@, dir, stem, format);
    let beside = joined(dir, ORIGINALS_DIR@);
    lemma_path_below(before.out, media.file.id@, dir, stem, format);
    match (media.overlay, planned.originals) {
        (Some(layer), Some(kept)) => {
            let first = kept_name_of(media.file.path@).unwrap();
            let second = kept_name_of(layer.path@).unwrap();
            lemma_fresh_below(written, beside, first.0, first.1);
            lemma_fresh_below(with_path(written, kept.main_copy), beside, second.0, second.1);
            assert(copies(kept.main_copy, media.file.path@, planned.output));
            assert(copies(kept.overlay_copy, layer.path@, planned.output));
        },
        _ => {},
    }
}

/// Whether a path is a copy of a file kept beside an output: in the directory of originals below
/// the output's own, under the file's own name, counted up where that is taken.
pub open spec fn copies(copy: PathView, source: PathView, output: PathView) -> bool {
    parent_of(output) is Some && kept_name_of(source) is Some && exists|ordinal: nat|
        copy == joined(
            joined(parent_of(output).unwrap(), "originals"@),
            #[trigger] output_name_of(kept_name_of(source).unwrap().0, kept_name_of(source).unwrap().1, ordinal),
        )
}

/// Where a file lands: in the directory of its conversation, or by year and month in the bucket of
/// files no message names; and where no earlier run recorded it, under the time it was taken and the
/// extension of its format, counted up where that is taken.
pub proof fn law_a_file_lands_in_its_conversation(
    plan: Plan,
    items: Seq<ChatMediaItem>,
    readings: Seq<Option<Embedded>>,
    out_root: PathView,
    mode: OverlayMode,
    recorded: RecordedDirs,
    p: int,
    k: int,
)
    requires
        plans_chats(plan, items, readings, out_root, mode, recorded),
        ids_distinct(items),
        0 <= p < plan.items@.len(),
        0 <= k < items.len(),
        plan.items@[p].source_id@ == items[k].media.file.id@,
    ensures
        ({
            let planned = plan.items@[p]@;
            let local = planned.capture.local;
            let root = joined(out_root, "chat"@);
            let dir = match items[k].join {
                Join::Named(message) => homes(recorded, root, items).assigned[message.conversation.0@],
                _ => joined(joined(joined(root, "_no-conversation"@), year_text(local.year as int)), two_digits(local.month as int)),
            };
            &&& parent_of(planned.output) == Some(dir)
            &&& (forall|i: int|
                0 <= i < recorded.outputs.recorded@.len() ==> (#[trigger] recorded.outputs.recorded@[i]).source_id@
                    != planned.source_id) ==> exists|ordinal: nat|
                planned.output.parts.last() == #[trigger] output_name_of(
                    compact_text(local),
                    format_for(items[k].media.file.extension@),
                    ordinal,
                )
        }),
{
    let before = lemma_of_one_id(plan, items, readings, out_root, mode, recorded, p, k);
    let root = joined(out_root, CHAT_DIR@);
    let own = homes(recorded, root, items);
    let (planned, media) = (plan.items@[p]@, items[k].media);
    let dir = item_dir(own, root, items[k], planned.capture);
    let format = written_as(planned.leg, media.file.extension@);
    law_a_file_keeps_its_kind(media.file.extension@);
    lemma_path_below(before.out, media.file.id@, dir, compact_text(planned.capture.local), format);
    let records = record_views(recorded.outputs.recorded@);
    if forall|i: int|
        0 <= i < recorded.outputs.recorded@.len() ==> (#[trigger] recorded.outputs.recorded@[i]).source_id@ != planned.source_id {
        assert forall|i: int| 0 <= i < records.len() implies (#[trigger] records[i]).source_id != planned.source_id by {
            assert(records[i] == recorded.outputs.recorded@[i]@);
        }
        lemma_unrecorded(root, records, planned.source_id);
        let ordinal = choose|ordinal: nat| planned.output == joined(
            dir,
            #[trigger] output_name_of(compact_text(planned.capture.local), format, ordinal),
        );
        assert(planned.output.parts.last() == output_name_of(compact_text(planned.capture.local), format, ordinal));
    }
}

/// Which files a plan writes: a thumbnail is left out and nothing else is; of the rest, what is in a
/// format that is not taken is deferred for that, what nothing dates is deferred for that, and all
/// others are planned.
pub proof fn law_only_thumbnails_are_left_out(
    plan: Plan,
    items: Seq<ChatMediaItem>,
    readings: Seq<Option<Embedded>>,
    out_root: PathView,
    mode: OverlayMode,
    recorded: RecordedDirs,
    k: int,
)
    requires
        plans_chats(plan, items, readings, out_root, mode, recorded),
        readings[k] matches Some(reading) ==> reading.wf(),
        0 <= k < items.len(),
    ensures
        ({
            let (id, file) = (items[k].media.file.id@, items[k].media.file);
            if file.token == Token::Thumbnail {
                exists|e: int| 0 <= e < plan.excluded@.len() && (#[trigger] plan.excluded@[e])@ == id
            } else if !is_taken(file.extension@) {
                exists|d: int|
                    0 <= d < plan.deferred@.len() && (#[trigger] plan.deferred@[d]).source_id@ == id && plan.deferred@[d].reason
                        == DeferralReason::UnknownFormat
            } else if !is_dated(items[k], readings[k]) {
                exists|d: int|
                    0 <= d < plan.deferred@.len() && (#[trigger] plan.deferred@[d]).source_id@ == id && plan.deferred@[d].reason
                        == DeferralReason::NoCalendarDate
            } else {
                exists|p: int| 0 <= p < plan.items@.len() && (#[trigger] plan.items@[p]).source_id@ == id
            }
        }),
{
    let root = joined(out_root, CHAT_DIR@);
    let start = nothing_planned(root, record_views(recorded.outputs.recorded@));
    let own = homes(recorded, root, items);
    let end = chat_plan(start, items, readings, mode, own, root);
    let before = chat_plan(start, items.take(k), readings, mode, own, root);
    let after = chat_step(before, items[k], readings[k], mode, own, root);
    let file = items[k].media.file;
    lemma_step_stays(start, items, readings, mode, own, root, k);
    law_the_message_dates_its_file(items[k], readings[k]);
    law_a_file_keeps_its_kind(file.extension@);
    if file.token == Token::Thumbnail {
        let e = before.excluded.len() as int;
        assert(end.excluded[e] == after.excluded[e]);
        assert(views(plan.excluded@)[e] == plan.excluded@[e]@);
    } else if !is_taken(file.extension@) || !is_dated(items[k], readings[k]) {
        let d = before.deferred.len() as int;
        assert(end.deferred[d] == after.deferred[d]);
        assert(deferred_views(plan.deferred@)[d] == plan.deferred@[d]@);
    } else {
        let p = before.items.len() as int;
        assert(end.items[p] == after.items[p]);
        assert(planned_views(plan.items@)[p] == plan.items@[p]@);
    }
}

/// A file is filed under the instant its message states, and under the day in its name only where
/// its message states none.
pub proof fn law_a_file_is_filed_under_its_message(item: ChatMediaItem)
    ensures
        forall|at: Timestamp| #[trigger] states(item, at) ==> item_date(item) == MediaDate::Message(at),
        (forall|at: Timestamp| !#[trigger] states(item, at)) ==> item_date(item) == MediaDate::Filename(item.media.file.day),
{
    match item.join {
        Join::Named(message) => match (message.created, message.created_epoch_ms) {
            (Some(at), _) => {
                assert(states(item, at));
            },
            (None, Some(ms)) => {
                assert forall|at: Timestamp| #[trigger] states(item, at) implies names_epoch(at, ms as int) by {}
                if exists|at: Timestamp| names_epoch(at, ms as int) {
                    let named = choose|at: Timestamp| names_epoch(at, ms as int);
                    assert(names_epoch(named, ms as int));
                    assert(states(item, named));
                    assert forall|at: Timestamp| #[trigger] states(item, at) implies at == named by {
                        lemma_epoch_named_once(at, named, ms as int);
                    }
                }
            },
            (None, None) => {},
        },
        _ => {},
    }
}

/// A file belongs to the conversation of the message that names it, and a token without a file to
/// the one whose message names the token; a file no message names belongs to none.
pub proof fn law_a_file_belongs_to_its_conversation(items: Seq<ChatMediaItem>, gaps: Seq<MissingMedia>, at: int)
    ensures
        0 <= at < gaps.len() && (forall|i: int| at < i < gaps.len() ==> (#[trigger] gaps[i]).token@ != gaps[at].token@) ==> {
            &&& conversations_of(items, gaps).contains_key(gaps[at].token@)
            &&& conversations_of(items, gaps)[gaps[at].token@] == gaps[at].conversation.0@
        },
        0 <= at < items.len() && (forall|i: int| at < i < items.len() ==> (#[trigger] items[i]).media.file.id@ != items[at].media.file.id@)
            && (forall|g: int| 0 <= g < gaps.len() ==> (#[trigger] gaps[g]).token@ != items[at].media.file.id@) ==> (
        items[at].join matches Join::Named(message) ==> conversations_of(items, gaps).contains_key(items[at].media.file.id@)
            && conversations_of(items, gaps)[items[at].media.file.id@] == message.conversation.0@),
        forall|id: Seq<char>| #[trigger]
            conversations_of(items, gaps).contains_key(id) ==> (exists|g: int| 0 <= g < gaps.len() && (#[trigger] gaps[g]).token@ == id) || (
            exists|i: int| 0 <= i < items.len() && (#[trigger] items[i]).media.file.id@ == id && items[i].join is Named),
{
    let named = named_by_items(items);
    if 0 <= at < gaps.len() && (forall|i: int| at < i < gaps.len() ==> (#[trigger] gaps[i]).token@ != gaps[at].token@) {
        lemma_gap_owner(named, gaps, at);
    }
    if 0 <= at < items.len() && (forall|i: int| at < i < items.len() ==> (#[trigger] items[i]).media.file.id@ != items[at].media.file.id@) && (
    forall|g: int| 0 <= g < gaps.len() ==> (#[trigger] gaps[g]).token@ != items[at].media.file.id@) && items[at].join is Named {
        lemma_item_owner(items, at);
        lemma_gaps_leave(named, gaps, items[at].media.file.id@);
    }
    assert forall|id: Seq<char>| #[trigger] conversations_of(items, gaps).contains_key(id) implies (exists|g: int|
        0 <= g < gaps.len() && (#[trigger] gaps[g]).token@ == id) || (exists|i: int|
        0 <= i < items.len() && (#[trigger] items[i]).media.file.id@ == id && items[i].join is Named) by {
        if !(exists|g: int| 0 <= g < gaps.len() && (#[trigger] gaps[g]).token@ == id) {
            lemma_gaps_leave(named, gaps, id);
            lemma_only_named(items, id);
        }
    }
}

proof fn lemma_gap_owner(start: Map<Seq<char>, Seq<char>>, gaps: Seq<MissingMedia>, at: int)
    requires
        0 <= at < gaps.len(),
        forall|i: int| at < i < gaps.len() ==> (#[trigger] gaps[i]).token@ != gaps[at].token@,
    ensures
        named_by_gaps(start, gaps).contains_key(gaps[at].token@),
        named_by_gaps(start, gaps)[gaps[at].token@] == gaps[at].conversation.0@,
    decreases gaps.len(),
{
    let rest = gaps.drop_last();
    if at < rest.len() {
        assert forall|i: int| at < i < rest.len() implies (#[trigger] rest[i]).token@ != rest[at].token@ by {
            assert(rest[i] == gaps[i]);
        }
        lemma_gap_owner(start, rest, at);
        assert(gaps[gaps.len() - 1].token@ != gaps[at].token@);
    }
}

proof fn lemma_gaps_leave(start: Map<Seq<char>, Seq<char>>, gaps: Seq<MissingMedia>, id: Seq<char>)
    requires
        forall|g: int| 0 <= g < gaps.len() ==> (#[trigger] gaps[g]).token@ != id,
    ensures
        named_by_gaps(start, gaps).contains_key(id) == start.contains_key(id),
        start.contains_key(id) ==> named_by_gaps(start, gaps)[id] == start[id],
    decreases gaps.len(),
{
    if gaps.len() > 0 {
        let rest = gaps.drop_last();
        assert forall|g: int| 0 <= g < rest.len() implies (#[trigger] rest[g]).token@ != id by {
            assert(rest[g] == gaps[g]);
        }
        lemma_gaps_leave(start, rest, id);
        assert(gaps[gaps.len() - 1].token@ != id);
    }
}

proof fn lemma_item_owner(items: Seq<ChatMediaItem>, at: int)
    requires
        0 <= at < items.len(),
        items[at].join is Named,
        forall|i: int| at < i < items.len() ==> (#[trigger] items[i]).media.file.id@ != items[at].media.file.id@,
    ensures
        named_by_items(items).contains_key(items[at].media.file.id@),
        named_by_items(items)[items[at].media.file.id@] == items[at].join->Named_0.conversation.0@,
    decreases items.len(),
{
    let rest = items.drop_last();
    if at < rest.len() {
        assert forall|i: int| at < i < rest.len() implies (#[trigger] rest[i]).media.file.id@ != rest[at].media.file.id@ by {
            assert(rest[i] == items[i]);
        }
        lemma_item_owner(rest, at);
        assert(items[items.len() - 1].media.file.id@ != items[at].media.file.id@);
    }
}

proof fn lemma_only_named(items: Seq<ChatMediaItem>, id: Seq<char>)
    requires
        named_by_items(items).contains_key(id),
    ensures
        exists|i: int| 0 <= i < items.len() && (#[trigger] items[i]).media.file.id@ == id && items[i].join is Named,
    decreases items.len(),
{
    let rest = items.drop_last();
    if named_by_items(rest).contains_key(id) {
        lemma_only_named(rest, id);
        let i = choose|i: int| 0 <= i < rest.len() && (#[trigger] rest[i]).media.file.id@ == id && rest[i].join is Named;
        assert(items[i] == rest[i]);
    } else {
        assert(items[items.len() - 1] == items.last());
    }
}

/// A token belongs to the conversation it was last listed with.
pub proof fn law_the_last_listing_of_a_token_holds(owners: Seq<TokenOwner>, at: int)
    requires
        0 <= at < owners.len(),
        forall|i: int| at < i < owners.len() ==> (#[trigger] owners[i]).token@ != owners[at].token@,
    ensures
        owned_by(owners).contains_key(owners[at].token@),
        owned_by(owners)[owners[at].token@] == owners[at].conversation.0@,
    decreases owners.len(),
{
    let rest = owners.drop_last();
    if at < rest.len() {
        assert forall|i: int| at < i < rest.len() implies (#[trigger] rest[i]).token@ != rest[at].token@ by {
            assert(rest[i] == owners[i]);
        }
        law_the_last_listing_of_a_token_holds(rest, at);
        assert(owners[owners.len() - 1].token@ != owners[at].token@);
    }
}

/// A file is credited to the name its message is from and to the conversation it stands in, but for
/// a conversation without a key.
pub proof fn law_a_file_is_credited_to_its_sender(message: Message)
    ensures
        message.from is None ==> credited(message).sender is None,
        message.from matches Some(name) ==> credited(message).sender == Some(name.0@),
        message.conversation.0@.len() > 0 ==> credited(message).conversation == Some(message.conversation.0@),
        message.conversation.0@.len() == 0 ==> credited(message).conversation is None,
{
}

/// What each mode does with a caption, and which a toggle moves on to.
pub proof fn law_each_mode_does_what_it_says()
    ensures
        OverlayMode::Merged.draws() && !OverlayMode::Merged.keeps(),
        OverlayMode::Both.draws() && OverlayMode::Both.keeps(),
        !OverlayMode::Originals.draws() && OverlayMode::Originals.keeps(),
        OverlayMode::Merged.after() == OverlayMode::Both,
        OverlayMode::Both.after() == OverlayMode::Originals,
{
}

/// A conversation's directory does not move when the export lists its files otherwise.
pub proof fn law_a_home_does_not_move_with_the_listing(
    recorded: RecordedDirs,
    root: PathView,
    a: Seq<ChatMediaItem>,
    b: Seq<ChatMediaItem>,
)
    requires
        named_ids(a).to_multiset() == named_ids(b).to_multiset(),
    ensures
        homes(recorded, root, a) == homes(recorded, root, b),
{
    let key = |id: ConversationId| id.0@;
    assert(ranked_by(key)) by {
        assert forall|x: ConversationId, y: ConversationId| #[trigger] x.le(y) && y.le(x) implies key(x) == key(y) by {
            lemma_text_le_antisymmetric(x.0@, y.0@);
        }
    }
    law_sorting_forgets_the_order(named_ids(a), named_ids(b), key);
    let start = opened(root, named_views(recorded.named@), dir_views(recorded.occupied@));
    lemma_asked_by_text(start, root, sorted(named_ids(a)), sorted(named_ids(b)), key);
}

proof fn lemma_asked_by_text(
    start: Assignment,
    root: PathView,
    a: Seq<ConversationId>,
    b: Seq<ConversationId>,
    key: spec_fn(ConversationId) -> Seq<char>,
)
    requires
        a.map_values(key) == b.map_values(key),
        forall|id: ConversationId| #[trigger] key(id) == id.0@,
    ensures
        all_asked(start, root, a) == all_asked(start, root, b),
    decreases a.len(),
{
    assert(a.map_values(key).len() == a.len());
    assert(b.map_values(key).len() == b.len());
    if a.len() > 0 {
        let (x, y) = (a.drop_last(), b.drop_last());
        assert(x.map_values(key) =~= a.map_values(key).drop_last());
        assert(y.map_values(key) =~= b.map_values(key).drop_last());
        lemma_asked_by_text(start, root, x, y, key);
        assert(a.map_values(key).last() == key(a.last()));
        assert(b.map_values(key).last() == key(b.last()));
        assert(a.last().0@ == b.last().0@);
    }
}

} // verus!
