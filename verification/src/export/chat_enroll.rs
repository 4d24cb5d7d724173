//! The join, written into the manifest.

use vstd::hash_set::StringHashSet;
use vstd::prelude::*;

use crate::export::chat_join::{gap_key, ChatMediaItem, MissingMedia, Reconciliation};
use crate::export::manifest::{
    corrupt, fault_in, read_back, reads_as, row_views, status_of, Item, ItemKind, ItemStatus, ManifestError, NewItem, RawItem,
    RowView,
};
use crate::export::redact::{hidden_for, redacted};
use crate::export::state::{
    brings_url, enrolled, find_row, has_row, is_item, is_row, law_a_new_row_is_pending, law_enrolled_records_have_rows,
    law_enrolling_keeps_progress, law_the_latest_url_is_kept, lemma_find_same, lemma_found, lemma_found_once, listed, missing_row,
    note_for, record_of, reset_row, retired_all, row_key, rows_distinct, Manifest,
};
use crate::order::{keys_distinct, lemma_filter_from, lemma_filter_holds, lemma_sorted_contains};
use crate::text::{lemma_views_push, views};

verus! {

/// The ids of the files the join kept.
pub open spec fn item_ids(r: Reconciliation) -> Seq<Seq<char>> {
    r.items@.map_values(|item: ChatMediaItem| item.media.file.id@)
}

/// The tokens no file carries.
pub open spec fn gap_tokens(r: Reconciliation) -> Seq<Seq<char>> {
    r.missing@.map_values(|gap: MissingMedia| gap.token@)
}

/// Everything this run can name.
pub open spec fn named_ids(r: Reconciliation) -> Seq<Seq<char>> {
    item_ids(r) + gap_tokens(r)
}

/// Whether no gap spells the id of a file.
pub open spec fn gaps_apart(r: Reconciliation) -> bool {
    forall|gap: int, item: int|
        0 <= gap < r.missing@.len() && 0 <= item < r.items@.len() ==> (#[trigger] r.missing@[gap]).token@
            != (#[trigger] r.items@[item]).media.file.id@
}

/// The record a named id enrolls.
pub open spec fn record_for(item: NewItem, id: Seq<char>) -> bool {
    item.kind is ChatMedia && item.source_id@ == id && item.url is None
}

/// The table with a row for everything this run can name.
pub open spec fn all_enrolled(before: Seq<RowView>, after: Seq<RowView>, r: Reconciliation, now: i64) -> bool {
    exists|records: Seq<NewItem>|
        records.len() == named_ids(r).len() && (forall|i: int| 0 <= i < records.len() ==> record_for(#[trigger] records[i], named_ids(r)[i]))
            && after == #[trigger] enrolled(before, records, now)
}

/// The table with the first `count` gaps parked.
pub open spec fn gaps_parked(rows: Seq<RowView>, gaps: Seq<MissingMedia>, count: nat, now: i64) -> Seq<RowView>
    decreases count,
{
    if count == 0 {
        rows
    } else {
        let before = gaps_parked(rows, gaps, (count - 1) as nat, now);
        let gap = gaps[count - 1];
        match find_row(before, ItemKind::ChatMedia, gap.token@) {
            Some(at) => before.update(at, missing_row(before[at], note_for(before[at], gap.reason.words()), now)),
            None => before,
        }
    }
}

/// Whether the row of an id stood parked as gone or missing.
pub open spec fn stood_parked(rows: Seq<RowView>, id: Seq<char>) -> bool {
    find_row(rows, ItemKind::ChatMedia, id) matches Some(at) && (rows[at].status == ItemStatus::SourceMissing.word()
        || rows[at].status == ItemStatus::Retired.word())
}

/// The table with the first `count` files that stood parked put back on the work list.
pub open spec fn found_reset(
    rows: Seq<RowView>,
    enrolled: Seq<RowView>,
    ids: Seq<Seq<char>>,
    count: nat,
    now: i64,
) -> Seq<RowView>
    decreases count,
{
    if count == 0 {
        rows
    } else {
        let before = found_reset(rows, enrolled, ids, (count - 1) as nat, now);
        let id = ids[count - 1];
        match find_row(before, ItemKind::ChatMedia, id) {
            Some(at) => if stood_parked(enrolled, id) {
                before.update(at, reset_row(before[at], now))
            } else {
                before
            },
            None => before,
        }
    }
}

/// Whether a row of the table is a chat media item that does not read back.
pub open spec fn faulty_at(rows: Seq<RowView>, at: int) -> bool {
    &&& rows[at].kind == ItemKind::ChatMedia.word()
    &&& rows[at].status != ItemStatus::Claimed.word()
    &&& fault_in(rows[at]) is Some
}

/// Whether every chat media item of the table reads back.
pub open spec fn all_read(rows: Seq<RowView>) -> bool {
    forall|i: int| 0 <= i < rows.len() ==> !#[trigger] faulty_at(rows, i)
}

/// Whether an error tells of a chat media item that does not read back.
pub open spec fn tells_fault(rows: Seq<RowView>, error: ManifestError) -> bool {
    exists|i: int|
        0 <= i < rows.len() && #[trigger] faulty_at(rows, i) && corrupt(
            error,
            fault_in(rows[i]).unwrap().0,
            fault_in(rows[i]).unwrap().1,
        )
}

/// The table with gaps parked and found files back on the work list.
pub open spec fn settled(enrolled: Seq<RowView>, r: Reconciliation, now: i64) -> Seq<RowView> {
    found_reset(
        gaps_parked(enrolled, r.missing@, r.missing@.len(), now),
        enrolled,
        item_ids(r),
        r.items@.len(),
        now,
    )
}

/// What writing the join into the manifest comes to, from the table with everything enrolled.
pub open spec fn written(
    enrolled: Seq<RowView>,
    after: Seq<RowView>,
    r: Reconciliation,
    now: i64,
    result: Result<(), ManifestError>,
) -> bool {
    match result {
        Ok(_) => {
            &&& all_read(enrolled)
            &&& if r.unreadable@.len() > 0 {
                after == settled(enrolled, r, now)
            } else {
                all_read(settled(enrolled, r, now)) && after == retired_all(
                    settled(enrolled, r, now),
                    ItemKind::ChatMedia,
                    named_ids(r),
                    now,
                )
            }
        },
        Err(error) => {
            ||| after == enrolled && tells_fault(enrolled, error)
            ||| all_read(enrolled) && r.unreadable@.len() == 0 && after == settled(enrolled, r, now) && tells_fault(after, error)
        },
    }
}

/// What writing the join into the manifest comes to.
pub open spec fn enrolls(
    before: Seq<RowView>,
    after: Seq<RowView>,
    r: Reconciliation,
    now: i64,
    result: Result<(), ManifestError>,
) -> bool {
    exists|enrolled: Seq<RowView>| #[trigger]
        all_enrolled(before, enrolled, r, now) && written(enrolled, after, r, now, result)
}

/// A listing with no fault comes of a table with none.
proof fn lemma_listing_clean(rows: Seq<RawItem>)
    requires
        forall|i: int| 0 <= i < listed(rows, ItemKind::ChatMedia).len() ==> fault_in(
            (#[trigger] listed(rows, ItemKind::ChatMedia)[i])@,
        ) is None,
    ensures
        all_read(row_views(rows)),
{
    let kind = ItemKind::ChatMedia;
    let all = listed(rows, kind);
    let table = row_views(rows);
    assert forall|i: int| 0 <= i < table.len() implies !#[trigger] faulty_at(table, i) by {
        if faulty_at(table, i) {
            lemma_filter_holds(rows, is_item(kind), i);
            lemma_sorted_contains(rows.filter(is_item(kind)), rows[i]);
            let j = choose|j: int| 0 <= j < all.len() && all[j] == rows[i];
            assert(fault_in(all[j]@) is None);
        }
    }
}

/// A listing's fault is a fault of the table.
proof fn lemma_listing_fault(rows: Seq<RawItem>, error: ManifestError)
    requires
        read_back(listed(rows, ItemKind::ChatMedia), Err(error)),
    ensures
        tells_fault(row_views(rows), error),
{
    let kind = ItemKind::ChatMedia;
    let all = listed(rows, kind);
    let f = rows.filter(is_item(kind));
    let at = choose|at: int|
        0 <= at < all.len() && (#[trigger] fault_in(all[at]@)) is Some && corrupt(
            error,
            fault_in(all[at]@).unwrap().0,
            fault_in(all[at]@).unwrap().1,
        ) && forall|i: int| 0 <= i < at ==> fault_in(#[trigger] all[i]@) is None;
    lemma_sorted_contains(f, all[at]);
    assert(all.contains(all[at]));
    lemma_filter_from(rows, is_item(kind));
    let j = choose|j: int| 0 <= j < f.len() && f[j] == all[at];
    assert(rows.contains(f[j]) && is_item(kind)(f[j]));
    let k = choose|k: int| 0 <= k < rows.len() && rows[k] == f[j];
    assert(faulty_at(row_views(rows), k));
}

/// Whether two tables hold rows of the same records in the same places.
spec fn same_records(a: Seq<RowView>, b: Seq<RowView>) -> bool {
    a.len() == b.len() && forall|i: int| 0 <= i < a.len() ==> (#[trigger] a[i]).kind == b[i].kind && a[i].source_id
        == b[i].source_id
}

/// Whether every chat media row of a table has a status this build knows.
spec fn statuses_known(rows: Seq<RowView>) -> bool {
    forall|i: int| 0 <= i < rows.len() && (#[trigger] rows[i]).kind == ItemKind::ChatMedia.word() ==> status_of(rows[i].status) is Some
}

proof fn lemma_all_read_known(rows: Seq<RowView>)
    requires
        all_read(rows),
    ensures
        statuses_known(rows),
{
    crate::export::manifest::law_status_round_trip(ItemStatus::Claimed);
    assert forall|i: int| 0 <= i < rows.len() && (#[trigger] rows[i]).kind == ItemKind::ChatMedia.word() implies status_of(
        rows[i].status,
    ) is Some by {
        assert(!faulty_at(rows, i));
    }
}

/// The ids of the rows that stood parked, off the items read back.
fn parked_ids(items: &Vec<Item>, Ghost(rows): Ghost<Seq<RawItem>>) -> (r: StringHashSet)
    requires
        rows_distinct(row_views(rows)),
        items@.len() == listed(rows, ItemKind::ChatMedia).len(),
        forall|i: int| 0 <= i < items@.len() ==> reads_as(listed(rows, ItemKind::ChatMedia)[i]@, #[trigger] items@[i]),
    ensures
        forall|id: Seq<char>| #[trigger] r@.contains(id) <==> stood_parked(row_views(rows), id),
{
    let ghost kind = ItemKind::ChatMedia;
    let ghost all = listed(rows, kind);
    let ghost table = row_views(rows);
    let ghost parked = |i: int| items@[i].status is SourceMissing || items@[i].status is Retired;
    let mut out = StringHashSet::new();
    let mut k: usize = 0;
    while k < items.len()
        invariant
            k <= items@.len(),
            parked == (|i: int| items@[i].status is SourceMissing || items@[i].status is Retired),
            forall|id: Seq<char>| #[trigger] out@.contains(id) ==> exists|i: int|
                0 <= i < items@.len() && (#[trigger] items@[i]).source_id@ == id && parked(i),
            forall|i: int| 0 <= i < k && parked(i) ==> out@.contains((#[trigger] items@[i]).source_id@),
        decreases items.len() - k,
    {
        let gone = matches!(items[k].status, ItemStatus::SourceMissing) || matches!(items[k].status, ItemStatus::Retired);
        if gone {
            let ghost prior = out@;
            out.insert(items[k].source_id.clone());
            assert(parked(k as int));
            assert forall|id: Seq<char>| #[trigger] out@.contains(id) implies exists|i: int|
                0 <= i < items@.len() && (#[trigger] items@[i]).source_id@ == id && parked(i) by {
                if prior.contains(id) {
                } else {
                    assert(items@[k as int].source_id@ == id);
                }
            }
        }
        k += 1;
    }
    proof {
        crate::export::manifest::lemma_status_words();
        let f = rows.filter(is_item(kind));
        assert forall|id: Seq<char>| #[trigger] out@.contains(id) <==> stood_parked(table, id) by {
            lemma_found(table, kind, id);
            if out@.contains(id) {
                let i = choose|i: int| 0 <= i < items@.len() && (#[trigger] items@[i]).source_id@ == id && parked(i);
                assert(reads_as(all[i]@, items@[i]));
                lemma_sorted_contains(f, all[i]);
                assert(all.contains(all[i]));
                lemma_filter_from(rows, is_item(kind));
                let j = choose|j: int| 0 <= j < f.len() && f[j] == all[i];
                assert(rows.contains(f[j]) && is_item(kind)(f[j]));
                let x = choose|x: int| 0 <= x < rows.len() && rows[x] == f[j];
                assert(is_row(kind, id)(table[x]));
                let y = find_row(table, kind, id).unwrap();
                if x < y {
                    assert(row_key()(table[x]) != row_key()(table[y]));
                } else if y < x {
                    assert(row_key()(table[y]) != row_key()(table[x]));
                }
                assert(status_of(table[y].status) == Some(items@[i].status));
            }
            if stood_parked(table, id) {
                let y = find_row(table, kind, id).unwrap();
                assert(ItemStatus::Claimed.word() != ItemStatus::SourceMissing.word());
                assert(ItemStatus::Claimed.word() != ItemStatus::Retired.word());
                lemma_filter_holds(rows, is_item(kind), y);
                lemma_sorted_contains(f, rows[y]);
                let j = choose|j: int| 0 <= j < all.len() && all[j] == rows[y];
                assert(reads_as(all[j]@, items@[j]));
                assert(status_of(ItemStatus::SourceMissing.word()) == Some(ItemStatus::SourceMissing));
                assert(status_of(ItemStatus::Retired.word()) == Some(ItemStatus::Retired));
                assert(parked(j));
                assert(out@.contains(items@[j].source_id@));
            }
        }
    }
    out
}

impl Reconciliation {
    /// Writes the join into the manifest: a row for everything this run can name, each gap parked,
    /// each file that stood parked put back on the work list, and each row nothing names retired.
    #[verifier::rlimit(60)]
    pub fn enroll(&self, manifest: &mut Manifest, now: i64) -> (result: Result<(), ManifestError>)
        requires
            old(manifest).wf(),
            gaps_apart(*self),
        ensures
            final(manifest).wf(),
            final(manifest).path == old(manifest).path,
            enrolls(old(manifest).table(), final(manifest).table(), *self, now, result),
    {
        let ghost before = manifest.table();
        let ghost ids = item_ids(*self);
        let ghost tokens = gap_tokens(*self);
        let ghost all = named_ids(*self);
        let mut records: Vec<NewItem> = Vec::new();
        let mut named: Vec<String> = Vec::new();
        let mut i: usize = 0;
        assert(views(named@) =~= all.take(0));
        while i < self.items.len()
            invariant
                i <= self.items@.len(),
                ids == item_ids(*self),
                all == ids + gap_tokens(*self),
                records@.len() == i,
                views(named@) == all.take(i as int),
                forall|j: int| 0 <= j < records@.len() ==> record_for(#[trigger] records@[j], all[j]),
            decreases self.items.len() - i,
        {
            let id = self.items[i].media.file.id.clone();
            proof {
                lemma_views_push(named@, id);
                assert(all[i as int] == id@);
                assert(all.take(i + 1) =~= all.take(i as int).push(id@));
            }
            named.push(id.clone());
            records.push(NewItem { kind: ItemKind::ChatMedia, source_id: id, url: None });
            i += 1;
        }
        let count: usize = self.items.len();
        let mut g: usize = 0;
        while g < self.missing.len()
            invariant
                g <= self.missing@.len(),
                count == ids.len(),
                ids == item_ids(*self),
                all == ids + gap_tokens(*self),
                records@.len() == count + g,
                views(named@) == all.take(count + g),
                forall|j: int| 0 <= j < records@.len() ==> record_for(#[trigger] records@[j], all[j]),
            decreases self.missing.len() - g,
        {
            let token = self.missing[g].token.clone();
            proof {
                lemma_views_push(named@, token);
                assert(all[count + g] == token@);
                assert(all.take(count + g + 1) =~= all.take(count + g).push(token@));
            }
            named.push(token.clone());
            records.push(NewItem { kind: ItemKind::ChatMedia, source_id: token, url: None });
            g += 1;
        }
        assert(all.take(count + g) =~= all);
        manifest.enroll(&records, now);
        let ghost start = manifest.table();
        let ghost start_rows = manifest.rows@;
        assert(all_enrolled(before, start, *self, now)) by {
            assert(start == enrolled(before, records@, now));
        }
        let listed_items = match manifest.items(ItemKind::ChatMedia) {
            Ok(items) => items,
            Err(error) => {
                proof {
                    lemma_listing_fault(start_rows, error);
                    assert(written(start, manifest.table(), *self, now, Err(error)));
                }
                return Err(error);
            },
        };
        proof {
            assert forall|k: int| 0 <= k < listed(start_rows, ItemKind::ChatMedia).len() implies fault_in(
                (#[trigger] listed(start_rows, ItemKind::ChatMedia)[k])@,
            ) is None by {
                assert(reads_as(listed(start_rows, ItemKind::ChatMedia)[k]@, listed_items@[k]));
            }
            lemma_listing_clean(start_rows);
            lemma_all_read_known(start);
            crate::export::manifest::law_status_round_trip(ItemStatus::SourceMissing);
            crate::export::manifest::law_status_round_trip(ItemStatus::Pending);
            assert forall|k: int| 0 <= k < all.len() implies find_row(start, ItemKind::ChatMedia, #[trigger] all[k]) is Some by {
                assert(record_for(records@[k], all[k]));
                law_enrolled_records_have_rows(before, records@, now, k);
            }
        }
        let parked = parked_ids(&listed_items, Ghost(start_rows));
        let mut m: usize = 0;
        while m < self.missing.len()
            invariant
                m <= self.missing@.len(),
                manifest.wf(),
                manifest.path == old(manifest).path,
                ids == item_ids(*self),
                tokens == gap_tokens(*self),
                all == ids + tokens,
                all == named_ids(*self),
                all_enrolled(before, start, *self, now),
                before == old(manifest).table(),
                all_read(start),
                same_records(manifest.table(), start),
                statuses_known(manifest.table()),
                status_of(ItemStatus::SourceMissing.word()) is Some,
                forall|k: int| 0 <= k < all.len() ==> find_row(start, ItemKind::ChatMedia, #[trigger] all[k]) is Some,
                manifest.table() == gaps_parked(start, self.missing@, m as nat, now),
            decreases self.missing.len() - m,
        {
            let ghost table = manifest.table();
            let gap = &self.missing[m];
            proof {
                assert(all[ids.len() + m] == tokens[m as int]);
                assert(tokens[m as int] == gap.token@);
                lemma_find_same(table, start, ItemKind::ChatMedia, gap.token@);
                lemma_found(table, ItemKind::ChatMedia, gap.token@);
            }
            let done = manifest.mark_source_missing(ItemKind::ChatMedia, &gap.token, gap.reason.message(), now);
            assert(done is Ok);
            match done {
                Ok(_) => {},
                Err(error) => {
                    return Err(error);
                },
            }
            m += 1;
        }
        let mut n: usize = 0;
        while n < self.items.len()
            invariant
                n <= self.items@.len(),
                manifest.wf(),
                manifest.path == old(manifest).path,
                ids == item_ids(*self),
                tokens == gap_tokens(*self),
                all == ids + tokens,
                all == named_ids(*self),
                all_enrolled(before, start, *self, now),
                before == old(manifest).table(),
                all_read(start),
                start == row_views(start_rows),
                forall|id: Seq<char>| #[trigger] parked@.contains(id) <==> stood_parked(row_views(start_rows), id),
                same_records(manifest.table(), start),
                forall|k: int| 0 <= k < all.len() ==> find_row(start, ItemKind::ChatMedia, #[trigger] all[k]) is Some,
                manifest.table() == found_reset(
                    gaps_parked(start, self.missing@, self.missing@.len(), now),
                    start,
                    ids,
                    n as nat,
                    now,
                ),
            decreases self.items.len() - n,
        {
            let ghost table = manifest.table();
            let id = &self.items[n].media.file.id;
            proof {
                assert(all[n as int] == ids[n as int]);
                assert(ids[n as int] == id@);
                lemma_find_same(table, start, ItemKind::ChatMedia, id@);
                lemma_found(table, ItemKind::ChatMedia, id@);
                assert(parked@.contains(id@) <==> stood_parked(row_views(start_rows), id@));
            }
            if parked.contains(id) {
                let done = manifest.reset(ItemKind::ChatMedia, id, now);
                assert(done is Ok);
                match done {
                    Ok(_) => {},
                    Err(error) => {
                        return Err(error);
                    },
                }
            }
            n += 1;
        }
        let ghost end = manifest.table();
        let ghost end_rows = manifest.rows@;
        assert(end == settled(start, *self, now));
        let result = manifest.retire_absent(ItemKind::ChatMedia, &named, &self.unreadable, now);
        proof {
            if result is Err {
                lemma_listing_fault(end_rows, result->Err_0);
            } else if self.unreadable@.len() == 0 {
                lemma_listing_clean(end_rows);
            }
            assert(written(start, manifest.table(), *self, now, result));
        }
        result
    }
}

// ---- laws ----

/// What parking gaps makes of one row: missing where a gap is its record's, else what it was.
proof fn lemma_gap_rows(rows: Seq<RowView>, gaps: Seq<MissingMedia>, count: nat, now: i64, at: int)
    requires
        rows_distinct(rows),
        keys_distinct(gaps, gap_key()),
        count <= gaps.len(),
        0 <= at < rows.len(),
    ensures
        same_records(gaps_parked(rows, gaps, count, now), rows),
        rows[at].kind != ItemKind::ChatMedia.word() || (forall|g: int|
            0 <= g < count ==> (#[trigger] gaps[g]).token@ != rows[at].source_id) ==> gaps_parked(rows, gaps, count, now)[at] == rows[at],
        forall|g: int|
            0 <= g < count && rows[at].kind == ItemKind::ChatMedia.word() && (#[trigger] gaps[g]).token@ == rows[at].source_id ==> gaps_parked(
                rows,
                gaps,
                count,
                now,
            )[at] == missing_row(rows[at], note_for(rows[at], gaps[g].reason.words()), now),
    decreases count,
{
    if count > 0 {
        let less = (count - 1) as nat;
        lemma_gap_rows(rows, gaps, less, now, at);
        let before = gaps_parked(rows, gaps, less, now);
        let gap = gaps[less as int];
        lemma_find_same(before, rows, ItemKind::ChatMedia, gap.token@);
        lemma_found_once(rows, ItemKind::ChatMedia, gap.token@);
        assert forall|g: int|
            0 <= g < count && rows[at].kind == ItemKind::ChatMedia.word() && (#[trigger] gaps[g]).token@ == rows[at].source_id implies gaps_parked(
            rows,
            gaps,
            count,
            now,
        )[at] == missing_row(rows[at], note_for(rows[at], gaps[g].reason.words()), now) by {
            if g < less {
                assert(gap_key()(gaps[g]) != gap_key()(gap));
            } else {
                assert forall|h: int| 0 <= h < less implies (#[trigger] gaps[h]).token@ != rows[at].source_id by {
                    assert(gap_key()(gaps[h]) != gap_key()(gap));
                }
                assert(has_row(rows, ItemKind::ChatMedia, gap.token@));
            }
        }
    }
}

/// What putting found files back makes of one row: what it was, unless its record is a file's and
/// its row stood parked.
proof fn lemma_found_rows(rows: Seq<RowView>, enrolled: Seq<RowView>, ids: Seq<Seq<char>>, count: nat, now: i64, at: int)
    requires
        rows_distinct(rows),
        count <= ids.len(),
        0 <= at < rows.len(),
    ensures
        same_records(found_reset(rows, enrolled, ids, count, now), rows),
        rows[at].kind == ItemKind::ChatMedia.word() && ids.take(count as int).contains(rows[at].source_id) && stood_parked(
            enrolled,
            rows[at].source_id,
        ) ==> found_reset(rows, enrolled, ids, count, now)[at] == reset_row(rows[at], now),
        rows[at].kind != ItemKind::ChatMedia.word() || !ids.take(count as int).contains(rows[at].source_id) || !stood_parked(
            enrolled,
            rows[at].source_id,
        ) ==> found_reset(rows, enrolled, ids, count, now)[at] == rows[at],
    decreases count,
{
    if count > 0 {
        let less = (count - 1) as nat;
        lemma_found_rows(rows, enrolled, ids, less, now, at);
        let before = found_reset(rows, enrolled, ids, less, now);
        let id = ids[less as int];
        lemma_find_same(before, rows, ItemKind::ChatMedia, id);
        lemma_found_once(rows, ItemKind::ChatMedia, id);
        let own = rows[at].source_id;
        let (some, fewer) = (ids.take(count as int), ids.take(less as int));
        assert(some =~= fewer.push(id));
        assert(some.contains(own) <==> fewer.contains(own) || own == id) by {
            if fewer.contains(own) {
                let k = choose|k: int| 0 <= k < fewer.len() && fewer[k] == own;
                assert(some[k] == own);
            }
            if own == id {
                assert(some[less as int] == own);
            }
            if some.contains(own) {
                let k = choose|k: int| 0 <= k < some.len() && some[k] == own;
                if k < less {
                    assert(fewer[k] == own);
                }
            }
        }
        if rows[at].kind == ItemKind::ChatMedia.word() && own == id {
            assert(has_row(rows, ItemKind::ChatMedia, id));
        }
    } else {
        assert(ids.take(0).len() == 0);
    }
}

/// Whether a join tells of a file under an id.
pub open spec fn tells_file(r: Reconciliation, id: Seq<char>) -> bool {
    exists|i: int| 0 <= i < r.items@.len() && (#[trigger] r.items@[i]).media.file.id@ == id
}

/// Whether a join tells of a gap under an id.
pub open spec fn tells_gap(r: Reconciliation, id: Seq<char>) -> bool {
    exists|i: int| 0 <= i < r.missing@.len() && (#[trigger] r.missing@[i]).token@ == id
}

/// What one row of the table with everything enrolled becomes.
proof fn lemma_written_row(enrolled: Seq<RowView>, after: Seq<RowView>, r: Reconciliation, now: i64, at: int)
    requires
        rows_distinct(enrolled),
        gaps_apart(r),
        keys_distinct(r.missing@, gap_key()),
        written(enrolled, after, r, now, Ok(())),
        0 <= at < enrolled.len(),
    ensures
        after.len() == enrolled.len(),
        settles_row(enrolled[at], after[at], r),
{
    let row = enrolled[at];
    let parked = gaps_parked(enrolled, r.missing@, r.missing@.len(), now);
    let ids = item_ids(r);
    lemma_gap_rows(enrolled, r.missing@, r.missing@.len(), now, at);
    assert(rows_distinct(parked)) by {
        assert forall|i: int, j: int| 0 <= i < j < parked.len() implies row_key()(#[trigger] parked[i]) != row_key()(
            #[trigger] parked[j],
        ) by {
            assert(row_key()(enrolled[i]) != row_key()(enrolled[j]));
        }
    }
    lemma_found_rows(parked, enrolled, ids, r.items@.len(), now, at);
    let back = settled(enrolled, r, now);
    assert(ids.take(ids.len() as int) =~= ids);
    lemma_found_once(enrolled, ItemKind::ChatMedia, row.source_id);
    assert(ids.contains(row.source_id) <==> tells_file(r, row.source_id)) by {
        if ids.contains(row.source_id) {
            let k = choose|k: int| 0 <= k < ids.len() && ids[k] == row.source_id;
            assert(r.items@[k].media.file.id@ == row.source_id);
        }
        if tells_file(r, row.source_id) {
            let k = choose|k: int| 0 <= k < r.items@.len() && (#[trigger] r.items@[k]).media.file.id@ == row.source_id;
            assert(ids[k] == row.source_id);
        }
    }
    assert(named_ids(r).contains(row.source_id) <==> tells_file(r, row.source_id) || tells_gap(r, row.source_id)) by {
        let named = named_ids(r);
        if named.contains(row.source_id) {
            let k = choose|k: int| 0 <= k < named.len() && named[k] == row.source_id;
            if k < ids.len() {
                assert(ids[k] == row.source_id);
            } else {
                assert(r.missing@[k - ids.len()].token@ == row.source_id);
            }
        }
        if tells_file(r, row.source_id) {
            let k = choose|k: int| 0 <= k < ids.len() && ids[k] == row.source_id;
            assert(named[k] == row.source_id);
        }
        if tells_gap(r, row.source_id) {
            let k = choose|k: int| 0 <= k < r.missing@.len() && (#[trigger] r.missing@[k]).token@ == row.source_id;
            assert(named[ids.len() + k] == row.source_id);
        }
    }
    if row.kind == ItemKind::ChatMedia.word() {
        assert(has_row(enrolled, ItemKind::ChatMedia, row.source_id));
        if tells_gap(r, row.source_id) {
            let g = choose|g: int| 0 <= g < r.missing@.len() && (#[trigger] r.missing@[g]).token@ == row.source_id;
            assert(!tells_file(r, row.source_id));
            assert(back[at] == parked[at]);
        } else {
            assert(parked[at] == row);
        }
    }
    assert(after.len() == back.len());
}

/// Whether a row is settled as the join has it. A row of another kind stays. Under a gap's token it
/// is missing, for the reason the gap gives, its attempts and record kept. Under a file's id it
/// starts over where it stood missing or retired, and stays else. Under neither it is retired where
/// the whole source was listed and it was neither finished nor a claim, and stays else.
pub open spec fn settles_row(was: RowView, is: RowView, r: Reconciliation) -> bool {
    &&& is.kind == was.kind && is.source_id == was.source_id && is.url == was.url
    &&& was.kind != ItemKind::ChatMedia.word() ==> is == was
    &&& was.kind == ItemKind::ChatMedia.word() ==> {
        &&& forall|g: int|
            0 <= g < r.missing@.len() && (#[trigger] r.missing@[g]).token@ == was.source_id ==> {
                &&& is.status == "source_missing"@
                &&& is.last_error == Some(redacted(r.missing@[g].reason.words(), hidden_for(was.url)))
                &&& is.retry_count == was.retry_count
                &&& record_of(is) == record_of(was)
            }
        &&& tells_file(r, was.source_id) ==> if was.status == "source_missing"@ || was.status == "retired"@ {
            &&& is.status == "pending"@
            &&& is.retry_count == 0
            &&& is.last_error is None
            &&& record_of(is) == (None::<Seq<char>>, None::<Seq<char>>, None::<i64>)
        } else {
            is == was
        }
        &&& !tells_file(r, was.source_id) && !tells_gap(r, was.source_id) ==> if r.unreadable@.len() > 0 || was.status == "done"@
            || was.status == "claimed"@ || was.status == "retired"@ {
            is == was
        } else {
            &&& is.status == "retired"@
            &&& is.retry_count == was.retry_count
            &&& record_of(is) == record_of(was)
        }
    }
}

/// Writing the join into the manifest settles every row there was, and adds one, pending for a file
/// and missing for a gap, for every record that had none.
pub proof fn law_the_join_settles_every_row(before: Seq<RowView>, after: Seq<RowView>, r: Reconciliation, now: i64)
    requires
        rows_distinct(before),
        gaps_apart(r),
        keys_distinct(r.missing@, gap_key()),
        enrolls(before, after, r, now, Ok(())),
    ensures
        before.len() <= after.len(),
        forall|i: int| 0 <= i < before.len() ==> settles_row(#[trigger] before[i], after[i], r),
        forall|i: int|
            before.len() <= i < after.len() ==> {
                let row = #[trigger] after[i];
                &&& row.kind == ItemKind::ChatMedia.word()
                &&& row.retry_count == 0
                &&& row.url is None
                &&& record_of(row) == (None::<Seq<char>>, None::<Seq<char>>, None::<i64>)
                &&& tells_file(r, row.source_id) || tells_gap(r, row.source_id)
                &&& tells_file(r, row.source_id) ==> row.status == "pending"@
                &&& tells_gap(r, row.source_id) ==> row.status == "source_missing"@
            },
        forall|id: Seq<char>|
            tells_file(r, id) || tells_gap(r, id) ==> #[trigger] has_row(after, ItemKind::ChatMedia, id),
{
    let enrolled_rows = choose|rows: Seq<RowView>| #[trigger] all_enrolled(before, rows, r, now) && written(rows, after, r, now, Ok(()));
    let records = choose|records: Seq<NewItem>|
        records.len() == named_ids(r).len() && (forall|i: int| 0 <= i < records.len() ==> record_for(#[trigger] records[i], named_ids(r)[i]))
            && enrolled_rows == #[trigger] enrolled(before, records, now);
    lemma_distinct_enrolled(before, records, now);
    assert forall|i: int| 0 <= i < enrolled_rows.len() implies after.len() == enrolled_rows.len() && settles_row(
        #[trigger] enrolled_rows[i],
        after[i],
        r,
    ) by {
        lemma_written_row(enrolled_rows, after, r, now, i);
    }
    if enrolled_rows.len() == 0 {
        lemma_nothing_settled(r, now);
        assert(enrolled_rows =~= Seq::<RowView>::empty());
        assert(after.len() == 0);
    }
    lemma_nothing_dropped(before, records, now);
    assert forall|i: int| 0 <= i < before.len() implies settles_row(#[trigger] before[i], after[i], r) by {
        law_enrolling_keeps_progress(before, records, now, i);
        law_the_latest_url_is_kept(before, records, now, i);
        assert forall|j: int| 0 <= j < records.len() implies !brings_url(#[trigger] records[j], before[i]) by {
            assert(record_for(records[j], named_ids(r)[j]));
        }
        assert(enrolled_rows[i] == before[i]);
    }
    assert forall|i: int| before.len() <= i < after.len() implies {
        let row = #[trigger] after[i];
        &&& row.kind == ItemKind::ChatMedia.word()
        &&& row.retry_count == 0
        &&& row.url is None
        &&& record_of(row) == (None::<Seq<char>>, None::<Seq<char>>, None::<i64>)
        &&& tells_file(r, row.source_id) || tells_gap(r, row.source_id)
        &&& tells_file(r, row.source_id) ==> row.status == "pending"@
        &&& tells_gap(r, row.source_id) ==> row.status == "source_missing"@
    } by {
        law_a_new_row_is_pending(before, records, now, i);
        lemma_new_row_has_no_url(before, records, now, i);
        lemma_status_words();
        assert(settles_row(enrolled_rows[i], after[i], r));
        let k = choose|k: int|
            0 <= k < records.len() && (#[trigger] records[k]).kind.word() == enrolled_rows[i].kind && records[k].source_id@
                == enrolled_rows[i].source_id;
        assert(record_for(records[k], named_ids(r)[k]));
        if k < r.items@.len() {
            assert(r.items@[k].media.file.id@ == enrolled_rows[i].source_id);
        } else {
            assert(r.missing@[k - r.items@.len()].token@ == enrolled_rows[i].source_id);
        }
    }
    assert forall|id: Seq<char>| tells_file(r, id) || tells_gap(r, id) implies #[trigger] has_row(after, ItemKind::ChatMedia, id) by {
        let k = if tells_file(r, id) {
            choose|k: int| 0 <= k < r.items@.len() && (#[trigger] r.items@[k]).media.file.id@ == id
        } else {
            r.items@.len() + choose|k: int| 0 <= k < r.missing@.len() && (#[trigger] r.missing@[k]).token@ == id
        };
        assert(named_ids(r)[k] == id);
        assert(record_for(records[k], named_ids(r)[k]));
        law_enrolled_records_have_rows(before, records, now, k);
        lemma_found(enrolled_rows, ItemKind::ChatMedia, id);
        let at = find_row(enrolled_rows, ItemKind::ChatMedia, id).unwrap();
        assert(settles_row(enrolled_rows[at], after[at], r));
        assert(after[at].kind == ItemKind::ChatMedia.word() && after[at].source_id == id);
    }
}

proof fn lemma_status_words()
    ensures
        "pending"@ != "source_missing"@,
        "pending"@ != "retired"@,
{
    reveal_strlit("pending");
    reveal_strlit("source_missing");
    reveal_strlit("retired");
    assert("pending"@[0] != "source_missing"@[0]);
    assert("pending"@[0] != "retired"@[0]);
}

proof fn lemma_nothing_dropped(rows: Seq<RowView>, items: Seq<NewItem>, now: i64)
    ensures
        rows.len() <= enrolled(rows, items, now).len(),
    decreases items.len(),
{
    if items.len() > 0 {
        lemma_nothing_dropped(rows, items.drop_last(), now);
        lemma_found(enrolled(rows, items.drop_last(), now), items.last().kind, items.last().source_id@);
    }
}

proof fn lemma_distinct_enrolled(rows: Seq<RowView>, items: Seq<NewItem>, now: i64)
    requires
        rows_distinct(rows),
    ensures
        rows_distinct(enrolled(rows, items, now)),
    decreases items.len(),
{
    if items.len() > 0 {
        let before = enrolled(rows, items.drop_last(), now);
        let after = enrolled(rows, items, now);
        let item = items.last();
        lemma_distinct_enrolled(rows, items.drop_last(), now);
        lemma_found_once(before, item.kind, item.source_id@);
        assert forall|i: int, j: int| 0 <= i < j < after.len() implies row_key()(#[trigger] after[i]) != row_key()(
            #[trigger] after[j],
        ) by {
            if j < before.len() {
                assert(row_key()(before[i]) != row_key()(before[j]));
            } else {
                assert(before[i].kind != item.kind.word() || before[i].source_id != item.source_id@);
            }
        }
    }
}

proof fn lemma_new_row_has_no_url(rows: Seq<RowView>, items: Seq<NewItem>, now: i64, at: int)
    requires
        rows.len() <= at < enrolled(rows, items, now).len(),
        forall|k: int| 0 <= k < items.len() ==> (#[trigger] items[k]).url is None,
    ensures
        enrolled(rows, items, now)[at].url is None,
    decreases items.len(),
{
    if items.len() > 0 {
        let rest = items.drop_last();
        let before = enrolled(rows, rest, now);
        lemma_found(before, items.last().kind, items.last().source_id@);
        assert(items[items.len() - 1].url is None);
        if at < before.len() {
            assert forall|k: int| 0 <= k < rest.len() implies (#[trigger] rest[k]).url is None by {
                assert(rest[k] == items[k]);
            }
            lemma_new_row_has_no_url(rows, rest, now, at);
        }
    }
}

proof fn lemma_nothing_settled(r: Reconciliation, now: i64)
    ensures
        settled(Seq::empty(), r, now).len() == 0,
{
    lemma_empty_parked(r.missing@, r.missing@.len(), now);
    lemma_empty_reset(gaps_parked(Seq::empty(), r.missing@, r.missing@.len(), now), item_ids(r), r.items@.len(), now);
}

proof fn lemma_empty_parked(gaps: Seq<MissingMedia>, count: nat, now: i64)
    ensures
        gaps_parked(Seq::empty(), gaps, count, now).len() == 0,
    decreases count,
{
    if count > 0 {
        lemma_empty_parked(gaps, (count - 1) as nat, now);
    }
}

proof fn lemma_empty_reset(rows: Seq<RowView>, ids: Seq<Seq<char>>, count: nat, now: i64)
    requires
        rows.len() == 0,
    ensures
        found_reset(rows, Seq::empty(), ids, count, now).len() == 0,
    decreases count,
{
    if count > 0 {
        lemma_empty_reset(rows, ids, (count - 1) as nat, now);
    }
}

} // verus!
