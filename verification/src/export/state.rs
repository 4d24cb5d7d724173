//! The manifest: every row, and the transitions between them.

use vstd::hash_set::StringHashSet;
use vstd::prelude::*;

use crate::export::digest::{hex, spells_digest, unhex, Checksum};
use crate::export::manifest::{
    corrupt, fault_in, kind_of, path_problem, read_all, read_back, reads_as, row_views, status_of, stored_path, unknown, Claim,
    Column, DirectoryClaim, ExportId, Item, ItemKind, ItemStatus, ManifestError, NewItem, RawItem, RowView, SCHEMA_VERSION,
};
use crate::export::model::{DownloadUrl, UnreadableDir};
use crate::export::redact::{hidden_for, redact_note, redacted};
use crate::order::{first_where, keys_distinct, lemma_first_where, lemma_sorted, sort, sorted, text_le};
use crate::paths::{path_of, FilePath, NativePath};
use crate::text::{opt_view, same, views};

verus! {

/// What an excluded row's note says.
pub const EXCLUDED_NOTE: &'static str = "this build writes no output for this item";

/// What a retired row's note says.
pub const RETIRED_NOTE: &'static str = "the export no longer holds a source for this item";

/// One export's rows, and the database that backs them.
pub struct Manifest {
    pub rows: Vec<RawItem>,
    pub path: String,
}

// ---- finding a row ----

pub open spec fn is_row(kind: ItemKind, id: Seq<char>) -> spec_fn(RowView) -> bool {
    |row: RowView| row.kind == kind.word() && row.source_id == id
}

/// Where the row of a record stands.
pub open spec fn find_row(rows: Seq<RowView>, kind: ItemKind, id: Seq<char>) -> Option<int> {
    first_where(rows, is_row(kind, id))
}

pub open spec fn row_key() -> spec_fn(RowView) -> (Seq<char>, Seq<char>) {
    |row: RowView| (row.kind, row.source_id)
}

/// Whether no two rows stand for one record.
pub open spec fn rows_distinct(rows: Seq<RowView>) -> bool {
    keys_distinct(rows, row_key())
}

impl Manifest {
    pub open spec fn table(self) -> Seq<RowView> {
        row_views(self.rows@)
    }

    pub open spec fn wf(self) -> bool {
        rows_distinct(self.table())
    }

    /// The manifest a database's rows spell, where no two of them stand for one record.
    pub fn from_rows(rows: Vec<RawItem>, path: String) -> (r: Option<Self>)
        ensures
            r is Some <==> rows_distinct(row_views(rows@)),
            r matches Some(manifest) ==> manifest.rows == rows && manifest.path == path && manifest.wf(),
    {
        let mut i: usize = 0;
        let ghost table = row_views(rows@);
        while i < rows.len()
            invariant
                i <= rows@.len(),
                table == row_views(rows@),
                forall|a: int, b: int| 0 <= a < b < i ==> row_key()(#[trigger] table[a]) != row_key()(#[trigger] table[b]),
            decreases rows.len() - i,
        {
            let mut j: usize = 0;
            while j < i
                invariant
                    j <= i < rows@.len(),
                    table == row_views(rows@),
                    forall|a: int| 0 <= a < j ==> row_key()(#[trigger] table[a]) != row_key()(table[i as int]),
                decreases i - j,
            {
                if rows[j].kind == rows[i].kind && rows[j].source_id == rows[i].source_id {
                    assert(row_key()(table[j as int]) == row_key()(table[i as int]));
                    return None;
                }
                j += 1;
            }
            i += 1;
        }
        Some(Manifest { rows, path })
    }

    /// The database file backing this manifest.
    #[must_use]
    pub fn path(&self) -> (r: &String)
        ensures
            *r == self.path,
    {
        &self.path
    }

    fn find(&self, kind: ItemKind, source_id: &str) -> (r: Option<usize>)
        ensures
            match r {
                Some(at) => at < self.rows@.len() && find_row(self.table(), kind, source_id@) == Some(at as int) && is_row(
                    kind,
                    source_id@,
                )(self.table()[at as int]),
                None => find_row(self.table(), kind, source_id@) is None,
            },
    {
        let word = kind.as_stored();
        let ghost table = self.table();
        let mut i: usize = 0;
        while i < self.rows.len()
            invariant
                i <= self.rows@.len(),
                table == self.table(),
                word@ == kind.word(),
                forall|j: int| 0 <= j < i ==> !is_row(kind, source_id@)(#[trigger] table[j]),
            decreases self.rows.len() - i,
        {
            if same(&self.rows[i].kind, word) && same(&self.rows[i].source_id, source_id) {
                proof {
                    lemma_first_where(table, is_row(kind, source_id@));
                    assert(is_row(kind, source_id@)(table[i as int]));
                }
                return Some(i);
            }
            assert(!is_row(kind, source_id@)(table[i as int]));
            i += 1;
        }
        proof {
            lemma_first_where(table, is_row(kind, source_id@));
        }
        None
    }

    /// Puts a row in place of another that stands for the same record.
    fn put(&mut self, at: usize, row: RawItem)
        requires
            old(self).wf(),
            at < old(self).rows@.len(),
            row@.kind == old(self).table()[at as int].kind,
            row@.source_id == old(self).table()[at as int].source_id,
        ensures
            final(self).wf(),
            final(self).path == old(self).path,
            final(self).table() == old(self).table().update(at as int, row@),
    {
        let ghost before = self.table();
        self.rows[at] = row;
        assert(self.table() =~= before.update(at as int, row@));
        assert forall|a: int, b: int| 0 <= a < b < self.table().len() implies row_key()(#[trigger] self.table()[a]) != row_key()(
            #[trigger] self.table()[b],
        ) by {
            assert(row_key()(before[a]) != row_key()(before[b]));
        }
    }

    /// Adds a row no other stands for the record of.
    fn append(&mut self, row: RawItem)
        requires
            old(self).wf(),
            first_where(old(self).table(), |other: RowView| other.kind == row@.kind && other.source_id == row@.source_id) is None,
        ensures
            final(self).wf(),
            final(self).path == old(self).path,
            final(self).table() == old(self).table().push(row@),
    {
        let ghost before = self.table();
        proof {
            lemma_first_where(before, |other: RowView| other.kind == row@.kind && other.source_id == row@.source_id);
        }
        self.rows.push(row);
        assert(self.table() =~= before.push(row@));
        assert forall|a: int, b: int| 0 <= a < b < self.table().len() implies row_key()(#[trigger] self.table()[a]) != row_key()(
            #[trigger] self.table()[b],
        ) by {
            if b < before.len() {
                assert(row_key()(before[a]) != row_key()(before[b]));
            } else {
                assert(self.table()[a] == before[a]);
            }
        }
    }
}

// ---- what each transition makes of a row ----

/// Enrolled and owed.
pub open spec fn new_row(kind: ItemKind, id: Seq<char>, url: Option<Seq<char>>, now: i64) -> RowView {
    RowView {
        kind: kind.word(),
        source_id: id,
        status: ItemStatus::Pending.word(),
        retry_count: 0,
        url,
        output_path: None,
        checksum: None,
        bytes: None,
        last_error: None,
        updated_at: now,
    }
}

/// Enumerated again: a new url replaces the old, and nothing else moves.
pub open spec fn renamed_row(row: RowView, url: Option<Seq<char>>) -> RowView {
    RowView {
        url: if url is Some {
            url
        } else {
            row.url
        },
        ..row
    }
}

pub open spec fn done_row(row: RowView, output: Seq<char>, checksum: Seq<char>, bytes: i64, now: i64) -> RowView {
    RowView {
        status: ItemStatus::Done.word(),
        output_path: Some(output),
        checksum: Some(checksum),
        bytes: Some(bytes),
        last_error: None,
        updated_at: now,
        ..row
    }
}

pub open spec fn failed_row(row: RowView, note: Seq<char>, now: i64) -> RowView {
    RowView {
        status: ItemStatus::Failed.word(),
        retry_count: if row.retry_count < i64::MAX {
            row.retry_count + 1
        } else {
            row.retry_count
        },
        output_path: None,
        checksum: None,
        bytes: None,
        last_error: Some(note),
        updated_at: now,
        ..row
    }
}

/// Parked for want of a source. Saying so again changes nothing.
pub open spec fn missing_row(row: RowView, reason: Seq<char>, now: i64) -> RowView {
    if row.status == ItemStatus::SourceMissing.word() && row.last_error == Some(reason) {
        row
    } else {
        RowView { status: ItemStatus::SourceMissing.word(), last_error: Some(reason), updated_at: now, ..row }
    }
}

/// Parked because nothing is written for it. Saying so again changes nothing.
pub open spec fn excluded_row(row: RowView, now: i64) -> RowView {
    if row.status == ItemStatus::Excluded.word() {
        row
    } else {
        RowView { status: ItemStatus::Excluded.word(), last_error: Some(EXCLUDED_NOTE@), updated_at: now, ..row }
    }
}

pub open spec fn retired_row(row: RowView, now: i64) -> RowView {
    RowView { status: ItemStatus::Retired.word(), last_error: Some(RETIRED_NOTE@), updated_at: now, ..row }
}

pub open spec fn reset_row(row: RowView, now: i64) -> RowView {
    RowView {
        status: ItemStatus::Pending.word(),
        retry_count: 0,
        output_path: None,
        checksum: None,
        bytes: None,
        last_error: None,
        updated_at: now,
        ..row
    }
}

pub open spec fn demoted_row(row: RowView, note: Seq<char>, now: i64) -> RowView {
    RowView {
        status: ItemStatus::Pending.word(),
        output_path: None,
        checksum: None,
        bytes: None,
        last_error: Some(note),
        updated_at: now,
        ..row
    }
}

/// A directory claim. Claiming the same directory again changes nothing.
pub open spec fn claimed_row(row: RowView, directory: Seq<char>, now: i64) -> RowView {
    if row.status == ItemStatus::Claimed.word() && row.output_path == Some(directory) {
        row
    } else {
        RowView {
            status: ItemStatus::Claimed.word(),
            output_path: Some(directory),
            url: None,
            checksum: None,
            bytes: None,
            retry_count: 0,
            last_error: None,
            updated_at: now,
            ..row
        }
    }
}

pub open spec fn new_claim_row(id: Seq<char>, directory: Seq<char>, now: i64) -> RowView {
    RowView {
        kind: ItemKind::HistoryExport.word(),
        source_id: id,
        status: ItemStatus::Claimed.word(),
        retry_count: 0,
        url: None,
        output_path: Some(directory),
        checksum: None,
        bytes: None,
        last_error: None,
        updated_at: now,
    }
}

// ---- enrolling ----

pub open spec fn url_view(url: Option<DownloadUrl>) -> Option<Seq<char>> {
    match url {
        Some(url) => Some(url.0@),
        None => None,
    }
}

/// One record enrolled: a new row, or a new url on the row it has.
pub open spec fn enrolled_one(rows: Seq<RowView>, item: NewItem, now: i64) -> Seq<RowView> {
    match find_row(rows, item.kind, item.source_id@) {
        Some(at) => rows.update(at, renamed_row(rows[at], url_view(item.url))),
        None => rows.push(new_row(item.kind, item.source_id@, url_view(item.url), now)),
    }
}

/// Records enrolled one after another.
pub open spec fn enrolled(rows: Seq<RowView>, items: Seq<NewItem>, now: i64) -> Seq<RowView>
    decreases items.len(),
{
    if items.len() == 0 {
        rows
    } else {
        enrolled_one(enrolled(rows, items.drop_last(), now), items.last(), now)
    }
}

fn copy_url(url: &Option<DownloadUrl>) -> (r: Option<String>)
    ensures
        opt_view(r) == url_view(*url),
{
    match url {
        Some(url) => Some(url.expose().clone()),
        None => None,
    }
}

impl Manifest {
    /// Records items, leaving whatever progress an earlier run made against them intact.
    pub fn enroll(&mut self, items: &Vec<NewItem>, now: i64)
        requires
            old(self).wf(),
        ensures
            final(self).wf(),
            final(self).path == old(self).path,
            final(self).table() == enrolled(old(self).table(), items@, now),
    {
        let ghost before = self.table();
        let mut i: usize = 0;
        assert(items@.take(0) =~= Seq::empty());
        while i < items.len()
            invariant
                i <= items@.len(),
                self.wf(),
                self.path == old(self).path,
                self.table() == enrolled(before, items@.take(i as int), now),
            decreases items.len() - i,
        {
            let item = &items[i];
            let ghost some = items@.take(i + 1);
            assert(some.drop_last() =~= items@.take(i as int));
            assert(some.last() == *item);
            let url = copy_url(&item.url);
            match self.find(item.kind, &item.source_id) {
                Some(at) => {
                    let mut row = self.rows[at].clone();
                    if url.is_some() {
                        row.url = url;
                    }
                    assert(row@ == renamed_row(self.table()[at as int], url_view(item.url)));
                    self.put(at, row);
                },
                None => {
                    let row = RawItem {
                        kind: item.kind.as_stored().to_owned(),
                        source_id: item.source_id.clone(),
                        status: ItemStatus::Pending.as_stored().to_owned(),
                        retry_count: 0,
                        url,
                        output_path: None,
                        checksum: None,
                        bytes: None,
                        last_error: None,
                        updated_at: now,
                    };
                    proof {
                        lemma_first_where(self.table(), is_row(item.kind, item.source_id@));
                        lemma_first_where(
                            self.table(),
                            |other: RowView| other.kind == row@.kind && other.source_id == row@.source_id,
                        );
                        assert(row@ == new_row(item.kind, item.source_id@, url_view(item.url), now));
                        let wanted = |other: RowView| other.kind == row@.kind && other.source_id == row@.source_id;
                        if first_where(self.table(), wanted) is Some {
                            let k = first_where(self.table(), wanted).unwrap();
                            assert(is_row(item.kind, item.source_id@)(self.table()[k]));
                        }
                    }
                    self.append(row);
                },
            }
            i += 1;
        }
        assert(items@.take(i as int) =~= items@);
    }
}

// ---- transitions of one row ----

/// Why an output could not be measured: a length past what a row can record.
pub const TOO_LONG: &'static str = "larger than the manifest can record a length for";

/// What measuring a finished output gave: its digest and length, or why it could not be read.
pub enum Measured {
    Hashed { checksum: Checksum, bytes: u64 },
    Failed { source: String },
}

/// What checking a finished row in comes to.
pub open spec fn checked_in(
    before: Seq<RowView>,
    after: Seq<RowView>,
    kind: ItemKind,
    id: Seq<char>,
    output: NativePath,
    measured: Measured,
    now: i64,
    r: Result<(), ManifestError>,
) -> bool {
    if path_problem(output) is Some {
        &&& after == before
        &&& r matches Err(ManifestError::OutputPath { path, problem })
        &&& path == output.shown && Some(problem) == path_problem(output)
    } else {
        match measured {
            Measured::Failed { source } => {
                &&& after == before
                &&& r matches Err(ManifestError::Output { path, source: why })
                &&& path == output.shown && why == source
            },
            Measured::Hashed { checksum, bytes } => if bytes > i64::MAX {
                &&& after == before
                &&& r matches Err(ManifestError::Output { path, source: why })
                &&& path == output.shown && why@ == TOO_LONG@
            } else {
                match find_row(before, kind, id) {
                    Some(at) => {
                        &&& r is Ok
                        &&& after == before.update(at, done_row(before[at], output.shown@, hex(checksum@), bytes as i64, now))
                    },
                    None => {
                        &&& after == before
                        &&& r matches Err(error) && unknown(error, kind, id)
                    },
                }
            },
        }
    }
}

/// What moving one enrolled row comes to: the row as `becomes` has it, or the complaint that there
/// is none.
pub open spec fn moved_one(
    before: Seq<RowView>,
    after: Seq<RowView>,
    kind: ItemKind,
    id: Seq<char>,
    becomes: spec_fn(RowView) -> RowView,
    r: Result<(), ManifestError>,
) -> bool {
    match find_row(before, kind, id) {
        Some(at) => r is Ok && after == before.update(at, becomes(before[at])),
        None => after == before && (r matches Err(error) && unknown(error, kind, id)),
    }
}

/// A note as the row of a record stores it.
pub open spec fn note_for(row: RowView, note: Seq<char>) -> Seq<char> {
    redacted(note, hidden_for(row.url))
}

/// What noting a failed attempt comes to.
pub open spec fn failed_once(
    before: Seq<RowView>,
    after: Seq<RowView>,
    kind: ItemKind,
    id: Seq<char>,
    note: Seq<char>,
    now: i64,
    r: Result<(), ManifestError>,
) -> bool {
    moved_one(before, after, kind, id, |row: RowView| failed_row(row, note_for(row, note), now), r)
}

/// What putting an item back on the work list comes to.
pub open spec fn reset_once(
    before: Seq<RowView>,
    after: Seq<RowView>,
    kind: ItemKind,
    id: Seq<char>,
    now: i64,
    r: Result<(), ManifestError>,
) -> bool {
    moved_one(before, after, kind, id, |row: RowView| reset_row(row, now), r)
}

impl Manifest {
    /// Checks a finished item in: its output's path, digest and length.
    pub fn mark_done(
        &mut self,
        kind: ItemKind,
        source_id: &str,
        output: &NativePath,
        measured: Measured,
        now: i64,
    ) -> (r: Result<(), ManifestError>)
        requires
            old(self).wf(),
        ensures
            final(self).wf(),
            final(self).path == old(self).path,
            checked_in(old(self).table(), final(self).table(), kind, source_id@, *output, measured, now, r),
    {
        let stored = match stored_path(output) {
            Ok(stored) => stored,
            Err(error) => {
                return Err(error);
            },
        };
        let (checksum, bytes) = match measured {
            Measured::Hashed { checksum, bytes } => (checksum, bytes),
            Measured::Failed { source } => {
                return Err(ManifestError::Output { path: output.shown.clone(), source });
            },
        };
        if bytes > i64::MAX as u64 {
            return Err(ManifestError::Output { path: output.shown.clone(), source: TOO_LONG.to_owned() });
        }
        match self.find(kind, source_id) {
            Some(at) => {
                let mut row = self.rows[at].clone();
                row.status = ItemStatus::Done.as_stored().to_owned();
                row.output_path = Some(stored);
                row.checksum = Some(checksum.to_hex());
                row.bytes = Some(bytes as i64);
                row.last_error = None;
                row.updated_at = now;
                assert(row@ == done_row(self.table()[at as int], output.shown@, hex(checksum@), bytes as i64, now));
                self.put(at, row);
                Ok(())
            },
            None => Err(ManifestError::UnknownItem { kind, source_id: source_id.to_owned() }),
        }
    }

    /// Records a failed attempt and counts it. The output record goes: the next attempt overwrites
    /// what it describes.
    pub fn mark_failed(&mut self, kind: ItemKind, source_id: &str, note: &str, now: i64) -> (r: Result<(), ManifestError>)
        requires
            old(self).wf(),
        ensures
            final(self).wf(),
            final(self).path == old(self).path,
            failed_once(old(self).table(), final(self).table(), kind, source_id@, note@, now, r),
    {
        match self.find(kind, source_id) {
            Some(at) => {
                let mut row = self.rows[at].clone();
                let note = redact_note(note, &row.url);
                row.status = ItemStatus::Failed.as_stored().to_owned();
                if row.retry_count < i64::MAX {
                    row.retry_count = row.retry_count + 1;
                }
                row.output_path = None;
                row.checksum = None;
                row.bytes = None;
                row.last_error = Some(note);
                row.updated_at = now;
                self.put(at, row);
                Ok(())
            },
            None => Err(ManifestError::UnknownItem { kind, source_id: source_id.to_owned() }),
        }
    }

    /// Puts an item back on the work list as if no run had touched it.
    pub fn reset(&mut self, kind: ItemKind, source_id: &str, now: i64) -> (r: Result<(), ManifestError>)
        requires
            old(self).wf(),
        ensures
            final(self).wf(),
            final(self).path == old(self).path,
            reset_once(old(self).table(), final(self).table(), kind, source_id@, now, r),
    {
        match self.find(kind, source_id) {
            Some(at) => {
                let mut row = self.rows[at].clone();
                row.status = ItemStatus::Pending.as_stored().to_owned();
                row.retry_count = 0;
                row.output_path = None;
                row.checksum = None;
                row.bytes = None;
                row.last_error = None;
                row.updated_at = now;
                self.put(at, row);
                Ok(())
            },
            None => Err(ManifestError::UnknownItem { kind, source_id: source_id.to_owned() }),
        }
    }

    /// Parks an item the export names and holds no media for. Its output record stays.
    pub fn mark_source_missing(
        &mut self,
        kind: ItemKind,
        source_id: &str,
        reason: &str,
        now: i64,
    ) -> (r: Result<(), ManifestError>)
        requires
            old(self).wf(),
        ensures
            final(self).wf(),
            final(self).path == old(self).path,
            parked_missing(old(self).table(), final(self).table(), kind, source_id@, reason@, now, r),
    {
        match self.find(kind, source_id) {
            Some(at) => {
                let mut row = self.rows[at].clone();
                match ItemStatus::from_stored(&row.status) {
                    Ok(_) => {},
                    Err(error) => {
                        return Err(error);
                    },
                }
                let reason = redact_note(reason, &row.url);
                let standing = same(&row.status, ItemStatus::SourceMissing.as_stored()) && match &row.last_error {
                    Some(noted) => same(noted, &reason),
                    None => false,
                };
                if standing {
                    assert(self.table().update(at as int, self.table()[at as int]) =~= self.table());
                    return Ok(());
                }
                row.status = ItemStatus::SourceMissing.as_stored().to_owned();
                row.last_error = Some(reason);
                row.updated_at = now;
                self.put(at, row);
                Ok(())
            },
            None => Err(ManifestError::UnknownItem { kind, source_id: source_id.to_owned() }),
        }
    }
}

/// What parking a gap comes to.
pub open spec fn parked_missing(
    before: Seq<RowView>,
    after: Seq<RowView>,
    kind: ItemKind,
    id: Seq<char>,
    reason: Seq<char>,
    now: i64,
    r: Result<(), ManifestError>,
) -> bool {
    match find_row(before, kind, id) {
        Some(at) => if status_of(before[at].status) is Some {
            &&& r is Ok
            &&& after == before.update(at, missing_row(before[at], note_for(before[at], reason), now))
        } else {
            &&& after == before
            &&& r matches Err(error) && corrupt(error, Column::Status, before[at].status)
        },
        None => {
            &&& after == before
            &&& r matches Err(error) && unknown(error, kind, id)
        },
    }
}

// ---- transitions of many rows ----

/// Whether a batch may move this record's row: it is enrolled, and its status reads back.
pub open spec fn movable(rows: Seq<RowView>, kind: ItemKind, id: Seq<char>) -> bool {
    find_row(rows, kind, id) matches Some(at) && status_of(rows[at].status) is Some
}

/// What a batch is refused with where one of its rows may not move.
pub open spec fn refused(rows: Seq<RowView>, kind: ItemKind, id: Seq<char>, error: ManifestError) -> bool {
    match find_row(rows, kind, id) {
        Some(at) => status_of(rows[at].status) is None && corrupt(error, Column::Status, rows[at].status),
        None => unknown(error, kind, id),
    }
}

pub open spec fn excluded_all(rows: Seq<RowView>, kind: ItemKind, ids: Seq<Seq<char>>, now: i64) -> Seq<RowView>
    decreases ids.len(),
{
    if ids.len() == 0 {
        rows
    } else {
        let before = excluded_all(rows, kind, ids.drop_last(), now);
        match find_row(before, kind, ids.last()) {
            Some(at) => before.update(at, excluded_row(before[at], now)),
            None => before,
        }
    }
}

/// Whether every one of some records has a row, and each is parked.
pub open spec fn parked(rows: Seq<RowView>, kind: ItemKind, ids: Seq<Seq<char>>) -> bool {
    forall|i: int|
        0 <= i < ids.len() ==> (find_row(rows, kind, #[trigger] ids[i]) matches Some(at) && rows[at].status
            == ItemStatus::Excluded.word())
}

/// Excluding moves no row, and parks every record that has one.
pub proof fn lemma_excluded_all(rows: Seq<RowView>, kind: ItemKind, ids: Seq<Seq<char>>, now: i64)
    ensures
        excluded_all(rows, kind, ids, now).len() == rows.len(),
        forall|i: int|
            0 <= i < rows.len() ==> (#[trigger] excluded_all(rows, kind, ids, now)[i]).kind == rows[i].kind && excluded_all(
                rows,
                kind,
                ids,
                now,
            )[i].source_id == rows[i].source_id,
        forall|i: int|
            0 <= i < rows.len() && (#[trigger] rows[i]).status == ItemStatus::Excluded.word() ==> excluded_all(rows, kind, ids, now)[i].status
                == ItemStatus::Excluded.word(),
        (forall|i: int| 0 <= i < ids.len() ==> find_row(rows, kind, #[trigger] ids[i]) is Some) ==> parked(
            excluded_all(rows, kind, ids, now),
            kind,
            ids,
        ),
    decreases ids.len(),
{
    if ids.len() > 0 {
        let fewer = ids.drop_last();
        let before = excluded_all(rows, kind, fewer, now);
        let after = excluded_all(rows, kind, ids, now);
        lemma_excluded_all(rows, kind, fewer, now);
        lemma_found(before, kind, ids.last());
        if forall|i: int| 0 <= i < ids.len() ==> find_row(rows, kind, #[trigger] ids[i]) is Some {
            assert forall|i: int| 0 <= i < fewer.len() implies find_row(rows, kind, #[trigger] fewer[i]) is Some by {
                assert(fewer[i] == ids[i]);
            }
            assert forall|i: int| 0 <= i < ids.len() implies (find_row(after, kind, #[trigger] ids[i]) matches Some(at)
                && after[at].status == ItemStatus::Excluded.word()) by {
                lemma_find_same(before, rows, kind, ids[i]);
                lemma_find_same(after, rows, kind, ids[i]);
                lemma_found(after, kind, ids[i]);
                if i < fewer.len() {
                    assert(fewer[i] == ids[i]);
                }
            }
        }
    }
}

/// Rows that stand for the same records in the same places are found at the same places.
pub proof fn lemma_find_same(a: Seq<RowView>, b: Seq<RowView>, kind: ItemKind, id: Seq<char>)
    requires
        a.len() == b.len(),
        forall|i: int| 0 <= i < a.len() ==> (#[trigger] a[i]).kind == b[i].kind && a[i].source_id == b[i].source_id,
    ensures
        find_row(a, kind, id) == find_row(b, kind, id),
    decreases a.len(),
{
    if a.len() > 0 {
        let (x, y) = (a.drop_last(), b.drop_last());
        assert forall|i: int| 0 <= i < x.len() implies (#[trigger] x[i]).kind == y[i].kind && x[i].source_id == y[i].source_id by {
            assert(a[i].kind == b[i].kind);
        }
        lemma_find_same(x, y, kind, id);
        assert(a[a.len() - 1].kind == b[b.len() - 1].kind);
    }
}

pub proof fn lemma_found(rows: Seq<RowView>, kind: ItemKind, id: Seq<char>)
    ensures
        match find_row(rows, kind, id) {
            Some(at) => 0 <= at < rows.len() && rows[at].kind == kind.word() && rows[at].source_id == id,
            None => forall|i: int| 0 <= i < rows.len() ==> !is_row(kind, id)(#[trigger] rows[i]),
        },
{
    lemma_first_where(rows, is_row(kind, id));
}

/// Whether retiring takes this row: of this kind, an item, neither finished nor already retired,
/// and no longer named.
pub open spec fn retires(row: RowView, kind: ItemKind, named: Seq<Seq<char>>) -> bool {
    &&& row.kind == kind.word()
    &&& row.status != ItemStatus::Claimed.word()
    &&& row.status != ItemStatus::Done.word()
    &&& row.status != ItemStatus::Retired.word()
    &&& !named.contains(row.source_id)
}

pub open spec fn retired_all(rows: Seq<RowView>, kind: ItemKind, named: Seq<Seq<char>>, now: i64) -> Seq<RowView> {
    rows.map_values(
        |row: RowView|
            if retires(row, kind, named) {
                retired_row(row, now)
            } else {
                row
            },
    )
}

/// The rows of one kind that are items, in order.
pub open spec fn listed(rows: Seq<RawItem>, kind: ItemKind) -> Seq<RawItem> {
    sorted(rows.filter(is_item(kind)))
}

pub open spec fn is_item(kind: ItemKind) -> spec_fn(RawItem) -> bool {
    |row: RawItem| row.kind@ == kind.word() && row.status@ != ItemStatus::Claimed.word()
}

/// The rows of one kind still owed, in order.
pub open spec fn owed(rows: Seq<RawItem>, kind: ItemKind, max_attempts: u32) -> Seq<RawItem> {
    sorted(rows.filter(is_owed(kind, max_attempts)))
}

pub open spec fn is_owed(kind: ItemKind, max_attempts: u32) -> spec_fn(RawItem) -> bool {
    |row: RawItem|
        row.kind@ == kind.word() && (row.status@ == ItemStatus::Pending.word() || row.status@ == ItemStatus::Failed.word())
            && row.retry_count < max_attempts
}

/// The finished rows of one kind, in order.
pub open spec fn finished(rows: Seq<RawItem>, kind: ItemKind) -> Seq<RawItem> {
    sorted(rows.filter(is_finished(kind)))
}

pub open spec fn is_finished(kind: ItemKind) -> spec_fn(RawItem) -> bool {
    |row: RawItem| row.kind@ == kind.word() && row.status@ == ItemStatus::Done.word()
}

/// The directory claims, in order.
pub open spec fn claim_rows(rows: Seq<RawItem>) -> Seq<RawItem> {
    sorted(rows.filter(is_claim()))
}

pub open spec fn is_claim() -> spec_fn(RawItem) -> bool {
    |row: RawItem| row.status@ == ItemStatus::Claimed.word() && row.output_path is Some
}

/// Which rows a listing takes.
enum Wanted {
    Item,
    Owed { max_attempts: u32 },
    Finished,
}

impl Wanted {
    spec fn of(self, kind: ItemKind) -> spec_fn(RawItem) -> bool {
        match self {
            Wanted::Item => is_item(kind),
            Wanted::Owed { max_attempts } => is_owed(kind, max_attempts),
            Wanted::Finished => is_finished(kind),
        }
    }

    fn takes(&self, row: &RawItem, kind: ItemKind) -> (r: bool)
        ensures
            r == self.of(kind)(*row),
    {
        if !same(&row.kind, kind.as_stored()) {
            return false;
        }
        match self {
            Wanted::Item => !same(&row.status, ItemStatus::Claimed.as_stored()),
            Wanted::Owed { max_attempts } => {
                (same(&row.status, ItemStatus::Pending.as_stored()) || same(&row.status, ItemStatus::Failed.as_stored()))
                    && row.retry_count < *max_attempts as i64
            },
            Wanted::Finished => same(&row.status, ItemStatus::Done.as_stored()),
        }
    }
}

impl Manifest {
    fn pick(&self, kind: ItemKind, wanted: Wanted) -> (r: Vec<RawItem>)
        ensures
            r@ == sorted(self.rows@.filter(wanted.of(kind))),
    {
        let mut out: Vec<RawItem> = Vec::new();
        let mut i: usize = 0;
        let ghost keep = wanted.of(kind);
        proof {
            reveal(Seq::filter);
            assert(self.rows@.take(0) =~= Seq::empty());
            assert(out@ =~= self.rows@.take(0).filter(keep));
        }
        while i < self.rows.len()
            invariant
                i <= self.rows@.len(),
                keep == wanted.of(kind),
                out@ == self.rows@.take(i as int).filter(keep),
            decreases self.rows.len() - i,
        {
            proof {
                assert(self.rows@.take(i + 1) =~= self.rows@.take(i as int).push(self.rows@[i as int]));
                self.rows@.take(i as int).lemma_filter_push(self.rows@[i as int], keep);
            }
            if wanted.takes(&self.rows[i], kind) {
                out.push(self.rows[i].clone());
            }
            i += 1;
        }
        assert(self.rows@.take(i as int) =~= self.rows@);
        sort(out)
    }

    /// Every item of a kind, in order of source id. A directory claim is not an item.
    pub fn items(&self, kind: ItemKind) -> (r: Result<Vec<Item>, ManifestError>)
        ensures
            read_back(listed(self.rows@, kind), r),
    {
        read_all(self.pick(kind, Wanted::Item))
    }

    /// The items of a kind this run still owes, in order of source id: pending or failed, and
    /// attempted fewer than `max_attempts` times.
    pub fn pending(&self, kind: ItemKind, max_attempts: u32) -> (r: Result<Vec<Item>, ManifestError>)
        ensures
            read_back(owed(self.rows@, kind, max_attempts), r),
    {
        read_all(self.pick(kind, Wanted::Owed { max_attempts }))
    }

    /// One row, read back; nothing where no record was enrolled under it.
    pub fn item(&self, kind: ItemKind, source_id: &str) -> (r: Result<Option<Item>, ManifestError>)
        ensures
            match find_row(self.table(), kind, source_id@) {
                None => r matches Ok(found) && found is None,
                Some(at) => match r {
                    Ok(Some(item)) => reads_as(self.table()[at], item),
                    Ok(None) => false,
                    Err(error) => fault_in(self.table()[at]) matches Some(fault) && corrupt(error, fault.0, fault.1),
                },
            },
    {
        match self.find(kind, source_id) {
            Some(at) => match Item::try_from(self.rows[at].clone()) {
                Ok(item) => Ok(Some(item)),
                Err(error) => Err(error),
            },
            None => Ok(None),
        }
    }

    /// Parks rows this build writes nothing for. All of them move or none does.
    pub fn exclude(&mut self, kind: ItemKind, source_ids: &Vec<String>, now: i64) -> (r: Result<(), ManifestError>)
        requires
            old(self).wf(),
        ensures
            final(self).wf(),
            final(self).path == old(self).path,
            match r {
                Ok(_) => {
                    &&& forall|i: int| 0 <= i < source_ids@.len() ==> movable(old(self).table(), kind, #[trigger] views(source_ids@)[i])
                    &&& final(self).table() == excluded_all(old(self).table(), kind, views(source_ids@), now)
                },
                Err(error) => {
                    &&& final(self).table() == old(self).table()
                    &&& exists|at: int|
                        0 <= at < source_ids@.len() && refused(
                            old(self).table(),
                            kind,
                            #[trigger] views(source_ids@)[at],
                            error,
                        ) && forall|i: int| 0 <= i < at ==> movable(old(self).table(), kind, #[trigger] views(source_ids@)[i])
                },
            },
    {
        let ghost before = self.table();
        let ghost ids = views(source_ids@);
        let mut i: usize = 0;
        while i < source_ids.len()
            invariant
                i <= source_ids@.len(),
                ids == views(source_ids@),
                self.table() == before,
                before == old(self).table(),
                self.wf(),
                self.path == old(self).path,
                forall|j: int| 0 <= j < i ==> movable(before, kind, #[trigger] ids[j]),
            decreases source_ids.len() - i,
        {
            assert(ids[i as int] == source_ids@[i as int]@);
            match self.find(kind, &source_ids[i]) {
                Some(at) => match ItemStatus::from_stored(&self.rows[at].status) {
                    Ok(_) => {},
                    Err(error) => {
                        assert(refused(before, kind, ids[i as int], error));
                        return Err(error);
                    },
                },
                None => {
                    let error = ManifestError::UnknownItem { kind, source_id: source_ids[i].clone() };
                    assert(refused(before, kind, ids[i as int], error));
                    return Err(error);
                },
            }
            assert(movable(before, kind, ids[i as int]));
            i += 1;
        }
        let mut k: usize = 0;
        assert(ids.take(0) =~= Seq::empty());
        while k < source_ids.len()
            invariant
                k <= source_ids@.len(),
                ids == views(source_ids@),
                self.wf(),
                self.path == old(self).path,
                self.table() == excluded_all(before, kind, ids.take(k as int), now),
            decreases source_ids.len() - k,
        {
            let ghost some = ids.take(k + 1);
            assert(some.drop_last() =~= ids.take(k as int));
            assert(some.last() == source_ids@[k as int]@);
            match self.find(kind, &source_ids[k]) {
                Some(at) => {
                    let mut row = self.rows[at].clone();
                    if !same(&row.status, ItemStatus::Excluded.as_stored()) {
                        row.status = ItemStatus::Excluded.as_stored().to_owned();
                        row.last_error = Some(EXCLUDED_NOTE.to_owned());
                        row.updated_at = now;
                    }
                    assert(row@ == excluded_row(self.table()[at as int], now));
                    self.put(at, row);
                },
                None => {},
            }
            k += 1;
        }
        assert(ids.take(k as int) =~= ids);
        Ok(())
    }

    /// Retires every row of a kind this enumeration cannot name, the finished ones left alone. A
    /// scan that could not list everything retires nothing.
    pub fn retire_absent(
        &mut self,
        kind: ItemKind,
        named: &Vec<String>,
        unreadable: &Vec<UnreadableDir>,
        now: i64,
    ) -> (r: Result<(), ManifestError>)
        requires
            old(self).wf(),
        ensures
            final(self).wf(),
            final(self).path == old(self).path,
            if unreadable@.len() > 0 {
                r is Ok && final(self).table() == old(self).table()
            } else {
                match r {
                    Ok(_) => {
                        &&& forall|i: int| 0 <= i < listed(old(self).rows@, kind).len() ==> fault_in(
                            (#[trigger] listed(old(self).rows@, kind)[i])@,
                        ) is None
                        &&& final(self).table() == retired_all(old(self).table(), kind, views(named@), now)
                    },
                    Err(error) => {
                        &&& final(self).table() == old(self).table()
                        &&& read_back(listed(old(self).rows@, kind), Err(error))
                    },
                }
            },
    {
        if unreadable.len() > 0 {
            return Ok(());
        }
        match self.items(kind) {
            Ok(items) => {
                assert forall|i: int| 0 <= i < listed(self.rows@, kind).len() implies fault_in(
                    (#[trigger] listed(self.rows@, kind)[i])@,
                ) is None by {
                    assert(reads_as(listed(self.rows@, kind)[i]@, items@[i]));
                }
            },
            Err(error) => {
                return Err(error);
            },
        }
        let ghost names = views(named@);
        let mut known = StringHashSet::new();
        let mut n: usize = 0;
        while n < named.len()
            invariant
                n <= named@.len(),
                names == views(named@),
                forall|id: Seq<char>| #[trigger] known@.contains(id) <==> names.take(n as int).contains(id),
            decreases named.len() - n,
        {
            let ghost prior = known@;
            known.insert(named[n].clone());
            proof {
                let less = names.take(n as int);
                let more = names.take(n + 1);
                let id_now = names[n as int];
                assert(more =~= less.push(id_now));
                assert forall|id: Seq<char>| #[trigger] known@.contains(id) <==> more.contains(id) by {
                    assert(prior.contains(id) <==> less.contains(id));
                    if less.contains(id) {
                        let j = choose|j: int| 0 <= j < less.len() && less[j] == id;
                        assert(more[j] == id);
                    }
                    if id == id_now {
                        assert(more[n as int] == id);
                    }
                    if more.contains(id) {
                        let j = choose|j: int| 0 <= j < more.len() && more[j] == id;
                        if j < n {
                            assert(less[j] == id);
                        }
                    }
                }
            }
            n += 1;
        }
        assert(names.take(n as int) =~= names);
        let ghost before = self.table();
        let ghost after = retired_all(before, kind, names, now);
        let mut i: usize = 0;
        assert(after.take(0) + before.skip(0) =~= before);
        while i < self.rows.len()
            invariant
                i <= self.rows@.len(),
                self.rows@.len() == before.len(),
                self.wf(),
                self.path == old(self).path,
                before == old(self).table(),
                after == retired_all(before, kind, names, now),
                forall|id: Seq<char>| #[trigger] known@.contains(id) <==> names.contains(id),
                self.table() == after.take(i as int) + before.skip(i as int),
            decreases self.rows.len() - i,
        {
            let ghost now_rows = self.table();
            assert(now_rows[i as int] == before[i as int]);
            let mut row = self.rows[i].clone();
            let takes = same(&row.kind, kind.as_stored()) && !same(&row.status, ItemStatus::Claimed.as_stored()) && !same(
                &row.status,
                ItemStatus::Done.as_stored(),
            ) && !same(&row.status, ItemStatus::Retired.as_stored()) && !known.contains(&row.source_id);
            if takes {
                row.status = ItemStatus::Retired.as_stored().to_owned();
                row.last_error = Some(RETIRED_NOTE.to_owned());
                row.updated_at = now;
            }
            assert(row@ == after[i as int]);
            self.put(i, row);
            assert(self.table() =~= after.take(i + 1) + before.skip(i + 1));
            i += 1;
        }
        assert(after.take(i as int) + before.skip(i as int) =~= after);
        Ok(())
    }
}

// ---- directory claims ----

/// What reading the claims back gives: every claim in order, or the kind of the first that no kind
/// is stored under.
pub open spec fn claims_read(rows: Seq<RawItem>, r: Result<Vec<Claim>, ManifestError>) -> bool {
    match r {
        Ok(claims) => {
            &&& claims@.len() == rows.len()
            &&& forall|i: int|
                0 <= i < rows.len() ==> {
                    let claim = #[trigger] claims@[i];
                    &&& kind_of(rows[i].kind@) == Some(claim.kind)
                    &&& claim.source_id@ == rows[i].source_id@
                    &&& claim.directory@ == path_of(opt_view(rows[i].output_path).unwrap())
                }
        },
        Err(error) => exists|at: int|
            0 <= at < rows.len() && kind_of((#[trigger] rows[at]).kind@) is None && corrupt(error, Column::Kind, rows[at].kind@)
                && forall|i: int| 0 <= i < at ==> kind_of((#[trigger] rows[i]).kind@) is Some,
    }
}

/// One claim recorded: a new row, or the directory of the row it has.
pub open spec fn claimed_one(rows: Seq<RowView>, claim: DirectoryClaim, now: i64) -> Seq<RowView> {
    match find_row(rows, ItemKind::HistoryExport, claim.source_id@) {
        Some(at) => rows.update(at, claimed_row(rows[at], claim.directory.shown@, now)),
        None => rows.push(new_claim_row(claim.source_id@, claim.directory.shown@, now)),
    }
}

pub open spec fn claimed_all(rows: Seq<RowView>, claims: Seq<DirectoryClaim>, now: i64) -> Seq<RowView>
    decreases claims.len(),
{
    if claims.len() == 0 {
        rows
    } else {
        claimed_one(claimed_all(rows, claims.drop_last(), now), claims.last(), now)
    }
}

/// Whether a claim may be recorded: its directory can be stored, and the row it has, if any, reads
/// back.
pub open spec fn claimable(rows: Seq<RowView>, claim: DirectoryClaim) -> bool {
    &&& path_problem(claim.directory) is None
    &&& find_row(rows, ItemKind::HistoryExport, claim.source_id@) matches Some(at) ==> status_of(rows[at].status) is Some
}

/// What claims are refused with where one may not be recorded.
pub open spec fn claim_refused(rows: Seq<RowView>, claim: DirectoryClaim, error: ManifestError) -> bool {
    match path_problem(claim.directory) {
        Some(found) => error matches ManifestError::OutputPath { path, problem } && path == claim.directory.shown && problem == found,
        None => match find_row(rows, ItemKind::HistoryExport, claim.source_id@) {
            Some(at) => status_of(rows[at].status) is None && corrupt(error, Column::Status, rows[at].status),
            None => false,
        },
    }
}

impl Manifest {
    /// The claimed directories, in order of kind and then of source id.
    pub fn claims(&self) -> (r: Result<Vec<Claim>, ManifestError>)
        ensures
            claims_read(claim_rows(self.rows@), r),
    {
        let mut picked: Vec<RawItem> = Vec::new();
        let mut i: usize = 0;
        proof {
            reveal(Seq::filter);
            assert(self.rows@.take(0) =~= Seq::empty());
            assert(picked@ =~= self.rows@.take(0).filter(is_claim()));
        }
        while i < self.rows.len()
            invariant
                i <= self.rows@.len(),
                picked@ == self.rows@.take(i as int).filter(is_claim()),
            decreases self.rows.len() - i,
        {
            proof {
                assert(self.rows@.take(i + 1) =~= self.rows@.take(i as int).push(self.rows@[i as int]));
                self.rows@.take(i as int).lemma_filter_push(self.rows@[i as int], is_claim());
            }
            if same(&self.rows[i].status, ItemStatus::Claimed.as_stored()) && self.rows[i].output_path.is_some() {
                picked.push(self.rows[i].clone());
            }
            i += 1;
        }
        assert(self.rows@.take(i as int) =~= self.rows@);
        let ordered = sort(picked);
        let ghost all = ordered@;
        proof {
            assert forall|k: int| 0 <= k < all.len() implies (#[trigger] all[k]).output_path is Some by {
                crate::order::lemma_sorted_contains(self.rows@.filter(is_claim()), all[k]);
                assert(all.contains(all[k]));
                crate::order::lemma_filter_from(self.rows@, is_claim());
                let f = self.rows@.filter(is_claim());
                let j = choose|j: int| 0 <= j < f.len() && f[j] == all[k];
                assert(is_claim()(f[j]));
            }
        }
        let mut out: Vec<Claim> = Vec::new();
        for row in it: ordered
            invariant
                it.seq() == all,
                all == claim_rows(self.rows@),
                forall|k: int| 0 <= k < all.len() ==> (#[trigger] all[k]).output_path is Some,
                out@.len() == it.index(),
                forall|k: int|
                    0 <= k < out@.len() ==> {
                        let claim = #[trigger] out@[k];
                        &&& kind_of(all[k].kind@) == Some(claim.kind)
                        &&& claim.source_id@ == all[k].source_id@
                        &&& claim.directory@ == path_of(opt_view(all[k].output_path).unwrap())
                    },
        {
            let ghost at = it.index();
            assert(all[at] == row);
            let kind = match ItemKind::from_stored(&row.kind) {
                Ok(kind) => kind,
                Err(error) => {
                    proof {
                        assert forall|k: int| 0 <= k < at implies kind_of((#[trigger] all[k]).kind@) is Some by {
                            assert(kind_of(all[k].kind@) == Some(out@[k].kind));
                        }
                        assert(kind_of(all[at].kind@) is None);
                    }
                    return Err(error);
                },
            };
            match row.output_path {
                Some(text) => {
                    out.push(Claim { kind, source_id: row.source_id, directory: FilePath::new(&text) });
                },
                None => {},
            }
        }
        Ok(out)
    }

    /// Records the directories a history run claims. All of them are recorded or none is.
    #[verifier::rlimit(40)]
    pub fn claim_directories(&mut self, claims: &Vec<DirectoryClaim>, now: i64) -> (r: Result<(), ManifestError>)
        requires
            old(self).wf(),
        ensures
            final(self).wf(),
            final(self).path == old(self).path,
            match r {
                Ok(_) => {
                    &&& forall|i: int| 0 <= i < claims@.len() ==> claimable(old(self).table(), #[trigger] claims@[i])
                    &&& final(self).table() == claimed_all(old(self).table(), claims@, now)
                },
                Err(error) => {
                    &&& final(self).table() == old(self).table()
                    &&& exists|at: int|
                        0 <= at < claims@.len() && claim_refused(old(self).table(), #[trigger] claims@[at], error)
                            && forall|i: int| 0 <= i < at ==> claimable(old(self).table(), #[trigger] claims@[i])
                },
            },
    {
        let ghost before = self.table();
        let mut i: usize = 0;
        while i < claims.len()
            invariant
                i <= claims@.len(),
                self.table() == before,
                before == old(self).table(),
                self.wf(),
                self.path == old(self).path,
                forall|j: int| 0 <= j < i ==> claimable(before, #[trigger] claims@[j]),
            decreases claims.len() - i,
        {
            let claim = &claims[i];
            match stored_path(&claim.directory) {
                Ok(_) => {},
                Err(error) => {
                    assert(claim_refused(before, claims@[i as int], error));
                    return Err(error);
                },
            }
            match self.find(ItemKind::HistoryExport, &claim.source_id) {
                Some(at) => match ItemStatus::from_stored(&self.rows[at].status) {
                    Ok(_) => {},
                    Err(error) => {
                        assert(claim_refused(before, claims@[i as int], error));
                        return Err(error);
                    },
                },
                None => {},
            }
            assert(claimable(before, claims@[i as int]));
            i += 1;
        }
        let mut k: usize = 0;
        assert(claims@.take(0) =~= Seq::empty());
        while k < claims.len()
            invariant
                k <= claims@.len(),
                self.wf(),
                self.path == old(self).path,
                self.table() == claimed_all(before, claims@.take(k as int), now),
            decreases claims.len() - k,
        {
            let claim = &claims[k];
            let ghost some = claims@.take(k + 1);
            assert(some.drop_last() =~= claims@.take(k as int));
            assert(some.last() == *claim);
            let directory = claim.directory.shown.clone();
            match self.find(ItemKind::HistoryExport, &claim.source_id) {
                Some(at) => {
                    let mut row = self.rows[at].clone();
                    let standing = same(&row.status, ItemStatus::Claimed.as_stored()) && match &row.output_path {
                        Some(recorded) => same(recorded, &directory),
                        None => false,
                    };
                    if !standing {
                        row.status = ItemStatus::Claimed.as_stored().to_owned();
                        row.output_path = Some(directory);
                        row.url = None;
                        row.checksum = None;
                        row.bytes = None;
                        row.retry_count = 0;
                        row.last_error = None;
                        row.updated_at = now;
                    }
                    assert(row@ == claimed_row(self.table()[at as int], claim.directory.shown@, now));
                    self.put(at, row);
                },
                None => {
                    let row = RawItem {
                        kind: ItemKind::HistoryExport.as_stored().to_owned(),
                        source_id: claim.source_id.clone(),
                        status: ItemStatus::Claimed.as_stored().to_owned(),
                        retry_count: 0,
                        url: None,
                        output_path: Some(directory),
                        checksum: None,
                        bytes: None,
                        last_error: None,
                        updated_at: now,
                    };
                    proof {
                        let wanted = |other: RowView| other.kind == row@.kind && other.source_id == row@.source_id;
                        lemma_found(self.table(), ItemKind::HistoryExport, claim.source_id@);
                        lemma_first_where(self.table(), wanted);
                        if first_where(self.table(), wanted) is Some {
                            let at = first_where(self.table(), wanted).unwrap();
                            assert(is_row(ItemKind::HistoryExport, claim.source_id@)(self.table()[at]));
                        }
                        assert(row@ == new_claim_row(claim.source_id@, claim.directory.shown@, now));
                    }
                    self.append(row);
                },
            }
            k += 1;
        }
        assert(claims@.take(k as int) =~= claims@);
        Ok(())
    }
}

// ---- resuming ----

/// Why a finished row is owed again.
#[derive(Debug, Clone, Copy, PartialEq, Eq, Structural)]
pub enum DemotionReason {
    /// Its output is not there.
    Vanished,
    /// Its output is not what was recorded.
    Changed,
    /// Its output could not be read.
    Unreadable,
    /// It was recorded finished without a whole record.
    Incomplete,
}

impl DemotionReason {
    pub open spec fn words(self) -> Seq<char> {
        match self {
            DemotionReason::Vanished => "its output file is gone"@,
            DemotionReason::Changed => "its output file no longer matches the recorded checksum"@,
            DemotionReason::Unreadable => "its output file could not be read"@,
            DemotionReason::Incomplete => "the manifest recorded it finished without a checksum"@,
        }
    }

    /// The reason, as the row records it.
    #[must_use]
    pub fn message(self) -> (r: &'static str)
        ensures
            r@ == self.words(),
    {
        match self {
            DemotionReason::Vanished => "its output file is gone",
            DemotionReason::Changed => "its output file no longer matches the recorded checksum",
            DemotionReason::Unreadable => "its output file could not be read",
            DemotionReason::Incomplete => "the manifest recorded it finished without a checksum",
        }
    }
}

/// One row a resume took off the finished pile.
#[derive(Debug, PartialEq, Eq)]
pub struct Demotion {
    pub kind: ItemKind,
    pub source_id: String,
    pub reason: DemotionReason,
}

/// What one kind looked like after a resume.
#[derive(Debug, PartialEq, Eq)]
pub struct ResumeReport {
    pub demoted: Vec<Demotion>,
    pub verified: u64,
    pub pending: u64,
    pub failed: u64,
    pub source_missing: u64,
    pub retired: u64,
    pub excluded: u64,
}

/// What a finished row says its output is.
#[derive(Debug, PartialEq, Eq)]
pub struct Completed {
    pub source_id: String,
    pub output_path: Option<String>,
    pub checksum: Option<String>,
    pub bytes: Option<i64>,
}

/// What reading a finished row's output gave.
#[derive(Debug)]
pub enum Reading {
    Hashed { checksum: Checksum, bytes: u64 },
    NotFound,
    Unreadable,
}

/// Whether a finished row still stands, and if not why.
pub open spec fn demotion(row: RowView, reading: Reading) -> Option<DemotionReason> {
    if row.output_path is None || row.checksum is None || row.bytes is None || !spells_digest(row.checksum.unwrap()) {
        Some(DemotionReason::Incomplete)
    } else {
        match reading {
            Reading::Hashed { checksum, bytes } => if checksum@ == unhex(row.checksum.unwrap()) && bytes == row.bytes.unwrap() {
                None
            } else {
                Some(DemotionReason::Changed)
            },
            Reading::NotFound => Some(DemotionReason::Vanished),
            Reading::Unreadable => Some(DemotionReason::Unreadable),
        }
    }
}

/// Whether a completed item tells what a row records.
pub open spec fn tells_row(completed: Completed, row: RowView) -> bool {
    &&& completed.source_id@ == row.source_id
    &&& opt_view(completed.output_path) == row.output_path
    &&& opt_view(completed.checksum) == row.checksum
    &&& completed.bytes == row.bytes
}

impl Completed {
    /// The file whose reading decides, where the record is whole enough for one to.
    pub fn wants_reading(&self) -> (r: Option<&String>)
        ensures
            r is Some <==> self.output_path is Some && self.checksum is Some && self.bytes is Some && spells_digest(
                self.checksum.unwrap()@,
            ),
            r matches Some(path) ==> self.output_path == Some(*path),
    {
        match (&self.output_path, &self.checksum, self.bytes) {
            (Some(path), Some(text), Some(_)) => {
                if Checksum::from_hex(text).is_some() {
                    Some(path)
                } else {
                    None
                }
            },
            _ => None,
        }
    }

    /// Nothing where the output is exactly what was recorded.
    pub fn demotion_reason(&self, reading: &Reading) -> (r: Option<DemotionReason>)
        ensures
            forall|row: RowView| #[trigger] tells_row(*self, row) ==> r == demotion(row, *reading),
    {
        let (text, bytes) = match (&self.output_path, &self.checksum, self.bytes) {
            (Some(_), Some(text), Some(bytes)) => (text, bytes),
            _ => {
                return Some(DemotionReason::Incomplete);
            },
        };
        let expected = match Checksum::from_hex(text) {
            Some(expected) => expected,
            None => {
                return Some(DemotionReason::Incomplete);
            },
        };
        match reading {
            Reading::Hashed { checksum, bytes: count } => {
                if checksum.same_as(&expected) && bytes >= 0 && *count == bytes as u64 {
                    None
                } else {
                    Some(DemotionReason::Changed)
                }
            },
            Reading::NotFound => Some(DemotionReason::Vanished),
            Reading::Unreadable => Some(DemotionReason::Unreadable),
        }
    }
}

/// The table after the first `count` finished rows were held against what was read.
pub open spec fn resumed(
    rows: Seq<RowView>,
    kind: ItemKind,
    done: Seq<RawItem>,
    readings: Seq<Reading>,
    count: nat,
    now: i64,
) -> Seq<RowView>
    decreases count,
{
    if count == 0 {
        rows
    } else {
        let before = resumed(rows, kind, done, readings, (count - 1) as nat, now);
        let row = done[count - 1]@;
        match demotion(row, readings[count - 1]) {
            Some(reason) => match find_row(before, kind, row.source_id) {
                Some(at) => before.update(at, demoted_row(before[at], reason.words(), now)),
                None => before,
            },
            None => before,
        }
    }
}

pub struct DemotionView {
    pub source_id: Seq<char>,
    pub reason: DemotionReason,
}

/// The demotions among the first `count` finished rows, in order.
pub open spec fn demotions(done: Seq<RawItem>, readings: Seq<Reading>, count: nat) -> Seq<DemotionView>
    decreases count,
{
    if count == 0 {
        seq![]
    } else {
        let before = demotions(done, readings, (count - 1) as nat);
        let row = done[count - 1]@;
        match demotion(row, readings[count - 1]) {
            Some(reason) => before.push(DemotionView { source_id: row.source_id, reason }),
            None => before,
        }
    }
}

pub open spec fn demotion_views(demoted: Seq<Demotion>) -> Seq<DemotionView> {
    demoted.map_values(|demotion: Demotion| DemotionView { source_id: demotion.source_id@, reason: demotion.reason })
}

pub open spec fn stands_at_status(kind: ItemKind, status: ItemStatus) -> spec_fn(RowView) -> bool {
    |row: RowView| row.kind == kind.word() && row.status == status.word()
}

/// How many rows of a kind stand at a status.
pub open spec fn count_at(rows: Seq<RowView>, kind: ItemKind, status: ItemStatus) -> nat {
    rows.filter(stands_at_status(kind, status)).len()
}

/// Whether every status of a kind reads back.
pub open spec fn statuses_read(rows: Seq<RowView>, kind: ItemKind) -> bool {
    forall|i: int| 0 <= i < rows.len() && (#[trigger] rows[i]).kind == kind.word() ==> status_of(rows[i].status) is Some
}

/// What a resume says of the rows it left: how many stand where, and which finished ones it put
/// back; or the row whose status cannot be read.
pub open spec fn resume_tells(
    done: Seq<RawItem>,
    readings: Seq<Reading>,
    rows: Seq<RowView>,
    kind: ItemKind,
    r: Result<ResumeReport, ManifestError>,
) -> bool {
    match r {
        Ok(report) => {
            &&& statuses_read(rows, kind)
            &&& demotion_views(report.demoted@) == demotions(done, readings, readings.len())
            &&& forall|i: int| 0 <= i < report.demoted@.len() ==> (#[trigger] report.demoted@[i]).kind == kind
            &&& report.verified == count_at(rows, kind, ItemStatus::Done)
            &&& report.pending == count_at(rows, kind, ItemStatus::Pending)
            &&& report.failed == count_at(rows, kind, ItemStatus::Failed)
            &&& report.source_missing == count_at(rows, kind, ItemStatus::SourceMissing)
            &&& report.retired == count_at(rows, kind, ItemStatus::Retired)
            &&& report.excluded == count_at(rows, kind, ItemStatus::Excluded)
        },
        Err(error) => exists|at: int|
            0 <= at < rows.len() && (#[trigger] rows[at]).kind == kind.word() && status_of(rows[at].status) is None && corrupt(
                error,
                Column::Status,
                rows[at].status,
            ),
    }
}

impl Manifest {
    /// The finished rows of a kind, in order of source id: what a resume has to read.
    pub fn completed(&self, kind: ItemKind) -> (r: Vec<Completed>)
        ensures
            r@.len() == finished(self.rows@, kind).len(),
            forall|i: int| 0 <= i < r@.len() ==> tells_row(#[trigger] r@[i], finished(self.rows@, kind)[i]@),
    {
        let rows = self.pick(kind, Wanted::Finished);
        let ghost all = rows@;
        let mut out: Vec<Completed> = Vec::new();
        for row in it: rows
            invariant
                it.seq() == all,
                out@.len() == it.index(),
                forall|i: int| 0 <= i < out@.len() ==> tells_row(#[trigger] out@[i], all[i]@),
        {
            out.push(
                Completed { source_id: row.source_id, output_path: row.output_path, checksum: row.checksum, bytes: row.bytes },
            );
        }
        out
    }

    fn count(&self, kind: ItemKind, status: ItemStatus) -> (r: u64)
        ensures
            r == count_at(self.table(), kind, status),
    {
        let word = kind.as_stored();
        let stands = status.as_stored();
        let ghost keep = stands_at_status(kind, status);
        let ghost table = self.table();
        let mut count: u64 = 0;
        let mut i: usize = 0;
        proof {
            reveal(Seq::filter);
            assert(table.take(0) =~= Seq::empty());
        }
        while i < self.rows.len()
            invariant
                i <= self.rows@.len(),
                table == self.table(),
                keep == stands_at_status(kind, status),
                word@ == kind.word(),
                stands@ == status.word(),
                count == table.take(i as int).filter(keep).len(),
                count <= i,
            decreases self.rows.len() - i,
        {
            proof {
                assert(table.take(i + 1) =~= table.take(i as int).push(table[i as int]));
                table.take(i as int).lemma_filter_push(table[i as int], keep);
            }
            if same(&self.rows[i].kind, word) && same(&self.rows[i].status, stands) {
                count = count + 1;
            }
            i += 1;
        }
        assert(table.take(i as int) =~= table);
        count
    }

    /// Complains of a row of a kind whose status does not read back, where there is one.
    fn unread_status(&self, kind: ItemKind) -> (r: Result<(), ManifestError>)
        ensures
            match r {
                Ok(_) => statuses_read(self.table(), kind),
                Err(error) => exists|at: int|
                    0 <= at < self.table().len() && (#[trigger] self.table()[at]).kind == kind.word() && status_of(
                        self.table()[at].status,
                    ) is None && corrupt(error, Column::Status, self.table()[at].status),
            },
    {
        let word = kind.as_stored();
        let mut i: usize = 0;
        while i < self.rows.len()
            invariant
                i <= self.rows@.len(),
                word@ == kind.word(),
                forall|j: int| 0 <= j < i && (#[trigger] self.table()[j]).kind == kind.word() ==> status_of(self.table()[j].status) is Some,
            decreases self.rows.len() - i,
        {
            assert(self.table()[i as int] == self.rows@[i as int]@);
            if same(&self.rows[i].kind, word) {
                match ItemStatus::from_stored(&self.rows[i].status) {
                    Ok(_) => {},
                    Err(error) => {
                        assert(self.table()[i as int].kind == kind.word());
                        return Err(error);
                    },
                }
            }
            i += 1;
        }
        Ok(())
    }

    /// Holds every finished row of a kind against what was read of its output, puts back on the work
    /// list each that no longer stands, and counts what is left.
    ///
    /// `readings` are the readings of [`Self::completed`], in its order.
    #[verifier::rlimit(40)]
    pub fn resume(&mut self, kind: ItemKind, readings: &Vec<Reading>, now: i64) -> (r: Result<ResumeReport, ManifestError>)
        requires
            old(self).wf(),
            readings@.len() == finished(old(self).rows@, kind).len(),
        ensures
            final(self).wf(),
            final(self).path == old(self).path,
            final(self).table() == resumed(
                old(self).table(),
                kind,
                finished(old(self).rows@, kind),
                readings@,
                readings@.len(),
                now,
            ),
            resume_tells(finished(old(self).rows@, kind), readings@, final(self).table(), kind, r),
    {
        let done = self.completed(kind);
        let ghost before = self.table();
        let ghost rows = finished(self.rows@, kind);
        let mut demoted: Vec<Demotion> = Vec::new();
        let mut i: usize = 0;
        assert(demotion_views(demoted@) =~= seq![]);
        while i < done.len()
            invariant
                i <= done@.len(),
                done@.len() == rows.len(),
                readings@.len() == rows.len(),
                forall|j: int| 0 <= j < done@.len() ==> tells_row(#[trigger] done@[j], rows[j]@),
                self.wf(),
                self.path == old(self).path,
                self.table() == resumed(before, kind, rows, readings@, i as nat, now),
                demotion_views(demoted@) == demotions(rows, readings@, i as nat),
                forall|j: int| 0 <= j < demoted@.len() ==> (#[trigger] demoted@[j]).kind == kind,
            decreases done.len() - i,
        {
            assert(tells_row(done@[i as int], rows[i as int]@));
            let reason = done[i].demotion_reason(&readings[i]);
            match reason {
                Some(reason) => {
                    match self.find(kind, &done[i].source_id) {
                        Some(at) => {
                            let mut row = self.rows[at].clone();
                            row.status = ItemStatus::Pending.as_stored().to_owned();
                            row.output_path = None;
                            row.checksum = None;
                            row.bytes = None;
                            row.last_error = Some(reason.message().to_owned());
                            row.updated_at = now;
                            assert(row@ == demoted_row(self.table()[at as int], reason.words(), now));
                            self.put(at, row);
                        },
                        None => {},
                    }
                    let ghost prior = demoted@;
                    demoted.push(Demotion { kind, source_id: done[i].source_id.clone(), reason });
                    assert(demotion_views(demoted@) =~= demotion_views(prior).push(
                        DemotionView { source_id: rows[i as int]@.source_id, reason },
                    ));
                },
                None => {},
            }
            i += 1;
        }
        match self.unread_status(kind) {
            Ok(_) => {},
            Err(error) => {
                return Err(error);
            },
        }
        Ok(
            ResumeReport {
                demoted,
                verified: self.count(kind, ItemStatus::Done),
                pending: self.count(kind, ItemStatus::Pending),
                failed: self.count(kind, ItemStatus::Failed),
                source_missing: self.count(kind, ItemStatus::SourceMissing),
                retired: self.count(kind, ItemStatus::Retired),
                excluded: self.count(kind, ItemStatus::Excluded),
            },
        )
    }
}

// ---- opening ----

/// What opening a database starts with.
#[derive(Debug, Clone, Copy, PartialEq, Eq, Structural)]
pub enum Opening {
    /// It is new: create the schema, pin the export, stamp the version.
    Install,
    /// It carries this build's schema: check which export it is for.
    Check,
}

/// What a database of this schema version is opened with; one this build does not know is refused.
pub fn migrate(version: i32, path: &str) -> (r: Result<Opening, ManifestError>)
    ensures
        match r {
            Ok(opening) => opening == (if version == 0 {
                Opening::Install
            } else {
                Opening::Check
            }) && (version == 0 || version == SCHEMA_VERSION),
            Err(error) => version != 0 && version != SCHEMA_VERSION && (error matches ManifestError::FutureSchema {
                path: at,
                found,
                supported,
            } && at@ == path@ && found == version && supported == SCHEMA_VERSION),
        },
{
    if version == 0 {
        Ok(Opening::Install)
    } else if version == SCHEMA_VERSION {
        Ok(Opening::Check)
    } else {
        Err(ManifestError::FutureSchema { path: path.to_owned(), found: version, supported: SCHEMA_VERSION })
    }
}

/// Whether a database belongs to the export it was opened for.
pub fn check_export(found: Option<String>, export: &ExportId, path: &str) -> (r: Result<(), ManifestError>)
    ensures
        match found {
            Some(pin) => if pin@ == export.0@ {
                r is Ok
            } else {
                r matches Err(ManifestError::WrongExport { path: at, found: held, wanted }) && at@ == path@ && held == pin
                    && wanted@ == export.0@
            },
            None => r matches Err(ManifestError::MissingExportPin { path: at }) && at@ == path@,
        },
{
    match found {
        Some(pin) => {
            if same(&pin, export.as_str()) {
                Ok(())
            } else {
                Err(
                    ManifestError::WrongExport {
                        path: path.to_owned(),
                        found: pin,
                        wanted: export.as_str().to_owned(),
                    },
                )
            }
        },
        None => Err(ManifestError::MissingExportPin { path: path.to_owned() }),
    }
}

// ---- laws ----

/// What a row records of the output a run wrote.
pub open spec fn record_of(row: RowView) -> (Option<Seq<char>>, Option<Seq<char>>, Option<i64>) {
    (row.output_path, row.checksum, row.bytes)
}

/// Parking a row, whatever for, keeps the record of what a run wrote.
pub proof fn law_parking_keeps_the_record(row: RowView, reason: Seq<char>, now: i64)
    ensures
        record_of(missing_row(row, reason, now)) == record_of(row),
        record_of(excluded_row(row, now)) == record_of(row),
        record_of(retired_row(row, now)) == record_of(row),
{
}

/// A row that becomes work again drops the record: what it described is about to be overwritten.
pub proof fn law_work_drops_the_record(row: RowView, note: Seq<char>, now: i64)
    ensures
        record_of(failed_row(row, note, now)) == (None::<Seq<char>>, None::<Seq<char>>, None::<i64>),
        record_of(reset_row(row, now)) == (None::<Seq<char>>, None::<Seq<char>>, None::<i64>),
        record_of(demoted_row(row, note, now)) == (None::<Seq<char>>, None::<Seq<char>>, None::<i64>),
{
}

/// Saying again, at any later time, what a parked row already says changes nothing, the time of its
/// last change included.
pub proof fn law_restating_a_verdict_changes_nothing(row: RowView, reason: Seq<char>, directory: Seq<char>, now: i64, later: i64)
    ensures
        missing_row(missing_row(row, reason, now), reason, later) == missing_row(row, reason, now),
        excluded_row(excluded_row(row, now), later) == excluded_row(row, now),
        claimed_row(claimed_row(row, directory, now), directory, later) == claimed_row(row, directory, now),
{
}

/// Retiring twice retires once.
pub proof fn law_retiring_again_changes_nothing(
    rows: Seq<RowView>,
    kind: ItemKind,
    named: Seq<Seq<char>>,
    now: i64,
    later: i64,
)
    ensures
        retired_all(retired_all(rows, kind, named, now), kind, named, later) == retired_all(rows, kind, named, now),
{
    let once = retired_all(rows, kind, named, now);
    assert forall|i: int| 0 <= i < once.len() implies !retires(#[trigger] once[i], kind, named) by {
        if retires(rows[i], kind, named) {
            assert(once[i] == retired_row(rows[i], now));
        } else {
            assert(once[i] == rows[i]);
        }
    }
    assert(retired_all(once, kind, named, later) =~= once);
}

/// Retiring leaves finished rows, claims, rows of other kinds and named rows as they were.
pub proof fn law_retiring_spares_the_rest(rows: Seq<RowView>, kind: ItemKind, named: Seq<Seq<char>>, now: i64, at: int)
    requires
        0 <= at < rows.len(),
        rows[at].kind != kind.word() || rows[at].status == ItemStatus::Done.word() || rows[at].status == ItemStatus::Claimed.word()
            || named.contains(rows[at].source_id),
    ensures
        retired_all(rows, kind, named, now)[at] == rows[at],
{
}

/// Enrolling touches nothing of a row an earlier run made but its url, moves no row, and drops none.
pub proof fn law_enrolling_keeps_progress(rows: Seq<RowView>, items: Seq<NewItem>, now: i64, at: int)
    requires
        0 <= at < rows.len(),
    ensures
        rows.len() <= enrolled(rows, items, now).len(),
        enrolled(rows, items, now)[at] == (RowView { url: enrolled(rows, items, now)[at].url, ..rows[at] }),
    decreases items.len(),
{
    if items.len() > 0 {
        law_enrolling_keeps_progress(rows, items.drop_last(), now, at);
        lemma_found(enrolled(rows, items.drop_last(), now), items.last().kind, items.last().source_id@);
    }
}

/// A record a batch enrolls has a row afterwards.
pub proof fn law_enrolled_records_have_rows(rows: Seq<RowView>, items: Seq<NewItem>, now: i64, at: int)
    requires
        0 <= at < items.len(),
    ensures
        find_row(enrolled(rows, items, now), items[at].kind, items[at].source_id@) is Some,
    decreases items.len(),
{
    let before = enrolled(rows, items.drop_last(), now);
    let after = enrolled(rows, items, now);
    let (kind, id) = (items[at].kind, items[at].source_id@);
    lemma_found(before, items.last().kind, items.last().source_id@);
    lemma_found(after, kind, id);
    if at < items.len() - 1 {
        assert(items.drop_last()[at] == items[at]);
        law_enrolled_records_have_rows(rows, items.drop_last(), now, at);
        lemma_found(before, kind, id);
        let k = find_row(before, kind, id).unwrap();
        assert(is_row(kind, id)(after[k]));
    } else {
        match find_row(before, kind, id) {
            Some(k) => {
                assert(is_row(kind, id)(after[k]));
            },
            None => {
                assert(is_row(kind, id)(after[before.len() as int]));
            },
        }
    }
}

/// Enrolling the same records again adds no row.
pub proof fn law_enrolling_again_adds_nothing(rows: Seq<RowView>, items: Seq<NewItem>, now: i64, later: i64)
    ensures
        enrolled(enrolled(rows, items, now), items, later).len() == enrolled(rows, items, now).len(),
{
    lemma_enrolling_known(enrolled(rows, items, now), rows, items, now, later, items.len());
    assert(items.take(items.len() as int) =~= items);
}

proof fn lemma_enrolling_known(base: Seq<RowView>, rows: Seq<RowView>, items: Seq<NewItem>, now: i64, later: i64, count: nat)
    requires
        base == enrolled(rows, items, now),
        count <= items.len(),
    ensures
        enrolled(base, items.take(count as int), later).len() == base.len(),
        forall|i: int|
            0 <= i < base.len() ==> (#[trigger] enrolled(base, items.take(count as int), later)[i]).kind == base[i].kind && enrolled(
                base,
                items.take(count as int),
                later,
            )[i].source_id == base[i].source_id,
    decreases count,
{
    if count > 0 {
        let some = items.take(count as int);
        let fewer = items.take(count - 1);
        assert(some.drop_last() =~= fewer);
        assert(some.last() == items[count - 1]);
        lemma_enrolling_known(base, rows, items, now, later, (count - 1) as nat);
        let before = enrolled(base, fewer, later);
        let (kind, id) = (items[count - 1].kind, items[count - 1].source_id@);
        law_enrolled_records_have_rows(rows, items, now, count - 1);
        lemma_find_same(before, base, kind, id);
        lemma_found(before, kind, id);
        let after = enrolled(base, some, later);
        assert forall|i: int| 0 <= i < base.len() implies (#[trigger] after[i]).kind == base[i].kind && after[i].source_id
            == base[i].source_id by {
            assert(before[i].kind == base[i].kind);
        }
    }
}

/// A resume touches only rows that were finished: every other row is as it was, whatever its record
/// says of a file.
pub proof fn law_resuming_spares_unfinished_rows(
    rows: Seq<RawItem>,
    kind: ItemKind,
    readings: Seq<Reading>,
    count: nat,
    now: i64,
    at: int,
)
    requires
        rows_distinct(row_views(rows)),
        count <= finished(rows, kind).len(),
        0 <= at < rows.len(),
        !is_finished(kind)(rows[at]),
    ensures
        resumed(row_views(rows), kind, finished(rows, kind), readings, count, now).len() == rows.len(),
        resumed(row_views(rows), kind, finished(rows, kind), readings, count, now)[at] == rows[at]@,
{
    lemma_resumed(rows, kind, readings, count, now);
}

proof fn lemma_resumed(rows: Seq<RawItem>, kind: ItemKind, readings: Seq<Reading>, count: nat, now: i64)
    requires
        rows_distinct(row_views(rows)),
        count <= finished(rows, kind).len(),
    ensures
        resumed(row_views(rows), kind, finished(rows, kind), readings, count, now).len() == rows.len(),
        forall|i: int|
            0 <= i < rows.len() ==> {
                let row = #[trigger] resumed(row_views(rows), kind, finished(rows, kind), readings, count, now)[i];
                &&& row.kind == rows[i].kind@
                &&& row.source_id == rows[i].source_id@
                &&& !is_finished(kind)(rows[i]) ==> row == rows[i]@
            },
    decreases count,
{
    if count > 0 {
        let less = (count - 1) as nat;
        let table = row_views(rows);
        let done = finished(rows, kind);
        lemma_resumed(rows, kind, readings, less, now);
        let before = resumed(table, kind, done, readings, less, now);
        let after = resumed(table, kind, done, readings, count, now);
        let id = done[less as int]@.source_id;
        lemma_found(before, kind, id);
        crate::order::lemma_sorted_contains(rows.filter(is_finished(kind)), done[less as int]);
        assert(done.contains(done[less as int]));
        crate::order::lemma_filter_from(rows, is_finished(kind));
        let f = rows.filter(is_finished(kind));
        let j = choose|j: int| 0 <= j < f.len() && f[j] == done[less as int];
        assert(rows.contains(f[j]) && is_finished(kind)(f[j]));
        let k = choose|k: int| 0 <= k < rows.len() && rows[k] == f[j];
        assert forall|i: int| 0 <= i < rows.len() implies {
            let row = #[trigger] after[i];
            &&& row.kind == rows[i].kind@
            &&& row.source_id == rows[i].source_id@
            &&& !is_finished(kind)(rows[i]) ==> row == rows[i]@
        } by {
            assert(before[i].kind == rows[i].kind@);
            match find_row(before, kind, id) {
                Some(x) => {
                    if x == i && i != k {
                        assert(before[x].kind == rows[x].kind@);
                        assert(row_key()(table[x]) == row_key()(table[k]));
                        if x < k {
                            assert(row_key()(table[x]) != row_key()(table[k]));
                        } else {
                            assert(row_key()(table[k]) != row_key()(table[x]));
                        }
                    }
                },
                None => {},
            }
        }
    }
}

/// Nothing parked, finished or claimed is ever offered as work, and a cap of zero offers nothing.
pub proof fn law_only_work_is_offered(rows: Seq<RawItem>, kind: ItemKind, max_attempts: u32, at: int)
    requires
        0 <= at < owed(rows, kind, max_attempts).len(),
    ensures
        rows.contains(owed(rows, kind, max_attempts)[at]),
        owed(rows, kind, max_attempts)[at].kind@ == kind.word(),
        owed(rows, kind, max_attempts)[at].status@ == ItemStatus::Pending.word() || owed(rows, kind, max_attempts)[at].status@
            == ItemStatus::Failed.word(),
        owed(rows, kind, max_attempts)[at].retry_count < max_attempts,
{
    let all = owed(rows, kind, max_attempts);
    let f = rows.filter(is_owed(kind, max_attempts));
    crate::order::lemma_sorted_contains(f, all[at]);
    assert(all.contains(all[at]));
    crate::order::lemma_filter_from(rows, is_owed(kind, max_attempts));
    let j = choose|j: int| 0 <= j < f.len() && f[j] == all[at];
    assert(rows.contains(f[j]) && is_owed(kind, max_attempts)(f[j]));
}

/// A parked record is not offered as work, whatever a resume finds of the finished ones.
pub proof fn law_a_parked_record_is_not_offered(
    before: Seq<RawItem>,
    after: Seq<RawItem>,
    kind: ItemKind,
    readings: Seq<Reading>,
    now: i64,
    max_attempts: u32,
    ids: Seq<Seq<char>>,
    id: int,
    at: int,
)
    requires
        rows_distinct(row_views(before)),
        readings.len() == finished(before, kind).len(),
        row_views(after) == resumed(row_views(before), kind, finished(before, kind), readings, readings.len(), now),
        parked(row_views(before), kind, ids),
        0 <= id < ids.len(),
        0 <= at < owed(after, kind, max_attempts).len(),
    ensures
        owed(after, kind, max_attempts)[at].source_id@ != ids[id],
{
    let row = owed(after, kind, max_attempts)[at];
    law_only_work_is_offered(after, kind, max_attempts, at);
    let there = choose|there: int| 0 <= there < after.len() && after[there] == row;
    lemma_resumed(before, kind, readings, readings.len(), now);
    let parked_at = find_row(row_views(before), kind, ids[id]).unwrap();
    lemma_found(row_views(before), kind, ids[id]);
    crate::export::manifest::law_status_round_trip(ItemStatus::Excluded);
    crate::export::manifest::law_status_round_trip(ItemStatus::Done);
    crate::export::manifest::law_status_round_trip(ItemStatus::Pending);
    crate::export::manifest::law_status_round_trip(ItemStatus::Failed);
    law_resuming_spares_unfinished_rows(before, kind, readings, readings.len(), now, parked_at);
    assert(row_views(after)[parked_at] == before[parked_at]@);
    assert(row_views(after).len() == after.len());
    if row.source_id@ == ids[id] {
        assert(row_views(after)[there] == row@);
        assert(row_views(after)[there].kind == row_views(before)[there].kind);
        assert(row_key()(row_views(before)[there]) == row_key()(row_views(before)[parked_at]));
        if there < parked_at {
            assert(row_key()(row_views(before)[there]) != row_key()(row_views(before)[parked_at]));
        } else if parked_at < there {
            assert(row_key()(row_views(before)[parked_at]) != row_key()(row_views(before)[there]));
        }
    }
}

/// A directory claim is no item: no listing of items holds one.
pub proof fn law_a_claim_is_no_item(rows: Seq<RawItem>, kind: ItemKind, at: int)
    requires
        0 <= at < listed(rows, kind).len(),
    ensures
        listed(rows, kind)[at].status@ != ItemStatus::Claimed.word(),
{
    let all = listed(rows, kind);
    let f = rows.filter(is_item(kind));
    crate::order::lemma_sorted_contains(f, all[at]);
    assert(all.contains(all[at]));
    crate::order::lemma_filter_from(rows, is_item(kind));
    let j = choose|j: int| 0 <= j < f.len() && f[j] == all[at];
    assert(is_item(kind)(f[j]));
}

/// A row just checked in stands against the very file it was checked in with: a resume that reads
/// those bytes leaves it finished.
pub proof fn law_a_checked_in_file_verifies(row: RowView, output: Seq<char>, checksum: Checksum, bytes: u64, now: i64)
    requires
        bytes <= i64::MAX,
    ensures
        demotion(done_row(row, output, hex(checksum@), bytes as i64, now), Reading::Hashed { checksum, bytes }) is None,
{
    crate::export::digest::law_hex_round_trip(checksum@);
}

/// A file of another length, or with another digest, does not verify.
pub proof fn law_a_changed_file_is_demoted(
    row: RowView,
    output: Seq<char>,
    checksum: Checksum,
    bytes: u64,
    now: i64,
    other: Checksum,
    count: u64,
)
    requires
        bytes <= i64::MAX,
        other@ != checksum@ || count != bytes,
    ensures
        demotion(
            done_row(row, output, hex(checksum@), bytes as i64, now),
            Reading::Hashed { checksum: other, bytes: count },
        ) == Some(DemotionReason::Changed),
{
    crate::export::digest::law_hex_round_trip(checksum@);
}

/// Whether only the row of one record moved, and that row still stands for the same record at the
/// same url.
pub open spec fn moves_only(before: Seq<RowView>, after: Seq<RowView>, kind: ItemKind, id: Seq<char>) -> bool {
    &&& after.len() == before.len()
    &&& forall|i: int|
        0 <= i < before.len() ==> {
            let (was, is) = (#[trigger] before[i], after[i]);
            &&& is.kind == was.kind && is.source_id == was.source_id && is.url == was.url
            &&& was.kind != kind.word() || was.source_id != id ==> is == was
        }
}

/// Whether a table has a row for a record.
pub open spec fn has_row(rows: Seq<RowView>, kind: ItemKind, id: Seq<char>) -> bool {
    exists|i: int| 0 <= i < rows.len() && (#[trigger] rows[i]).kind == kind.word() && rows[i].source_id == id
}

/// Where a table has no two rows for one record, the row found for a record is every row of it.
pub proof fn lemma_found_once(rows: Seq<RowView>, kind: ItemKind, id: Seq<char>)
    requires
        rows_distinct(rows),
    ensures
        find_row(rows, kind, id) is Some <==> has_row(rows, kind, id),
        find_row(rows, kind, id) matches Some(at) ==> 0 <= at < rows.len() && rows[at].kind == kind.word() && rows[at].source_id == id
            && forall|i: int| 0 <= i < rows.len() && (#[trigger] rows[i]).kind == kind.word() && rows[i].source_id == id ==> i == at,
{
    lemma_found(rows, kind, id);
    match find_row(rows, kind, id) {
        Some(at) => {
            assert forall|i: int| 0 <= i < rows.len() && (#[trigger] rows[i]).kind == kind.word() && rows[i].source_id == id implies i
                == at by {
                if i < at {
                    assert(row_key()(rows[i]) != row_key()(rows[at]));
                } else if at < i {
                    assert(row_key()(rows[at]) != row_key()(rows[i]));
                }
            }
        },
        None => {
            if has_row(rows, kind, id) {
                let i = choose|i: int| 0 <= i < rows.len() && (#[trigger] rows[i]).kind == kind.word() && rows[i].source_id == id;
                assert(is_row(kind, id)(rows[i]));
            }
        },
    }
}

/// Checking an item in moves its row alone, to done, with the path, digest and length of its
/// output and no complaint. It is refused, and nothing moves, where no row stands for it, its path
/// may not be stored, or its output was not measured.
pub proof fn law_a_finished_item_is_recorded(
    before: Seq<RowView>,
    after: Seq<RowView>,
    kind: ItemKind,
    id: Seq<char>,
    output: NativePath,
    measured: Measured,
    now: i64,
    r: Result<(), ManifestError>,
)
    requires
        rows_distinct(before),
        checked_in(before, after, kind, id, output, measured, now, r),
    ensures
        r is Ok <==> output.absolute && output.utf8 && has_row(before, kind, id) && (measured matches Measured::Hashed { bytes, .. }
            && bytes <= i64::MAX),
        r is Err ==> after == before,
        moves_only(before, after, kind, id),
        r is Ok ==> forall|i: int|
            0 <= i < before.len() && (#[trigger] before[i]).kind == kind.word() && before[i].source_id == id ==> {
                &&& after[i].status == "done"@
                &&& after[i].output_path == Some(output.shown@)
                &&& after[i].checksum == Some(hex(measured->checksum@))
                &&& after[i].bytes == Some(measured->bytes as i64)
                &&& after[i].last_error is None
                &&& after[i].retry_count == before[i].retry_count
                &&& after[i].updated_at == now
            },
{
    lemma_found_once(before, kind, id);
}

/// A failed attempt moves its row alone, to failed, one attempt further on, with the note kept and
/// nothing recorded of an output.
pub proof fn law_a_failure_is_counted(
    before: Seq<RowView>,
    after: Seq<RowView>,
    kind: ItemKind,
    id: Seq<char>,
    note: Seq<char>,
    now: i64,
    r: Result<(), ManifestError>,
)
    requires
        rows_distinct(before),
        failed_once(before, after, kind, id, note, now, r),
    ensures
        r is Ok <==> has_row(before, kind, id),
        r is Err ==> after == before,
        moves_only(before, after, kind, id),
        forall|i: int|
            0 <= i < before.len() && (#[trigger] before[i]).kind == kind.word() && before[i].source_id == id ==> {
                &&& after[i].status == "failed"@
                &&& before[i].retry_count < i64::MAX ==> after[i].retry_count == before[i].retry_count + 1
                &&& before[i].retry_count == i64::MAX ==> after[i].retry_count == i64::MAX
                &&& after[i].last_error == Some(redacted(note, hidden_for(before[i].url)))
                &&& record_of(after[i]) == (None::<Seq<char>>, None::<Seq<char>>, None::<i64>)
                &&& after[i].updated_at == now
            },
{
    lemma_found_once(before, kind, id);
}

/// A reset moves its row alone, to what a row just enrolled says.
pub proof fn law_a_reset_item_starts_over(
    before: Seq<RowView>,
    after: Seq<RowView>,
    kind: ItemKind,
    id: Seq<char>,
    now: i64,
    r: Result<(), ManifestError>,
)
    requires
        rows_distinct(before),
        reset_once(before, after, kind, id, now, r),
    ensures
        r is Ok <==> has_row(before, kind, id),
        r is Err ==> after == before,
        moves_only(before, after, kind, id),
        forall|i: int|
            0 <= i < before.len() && (#[trigger] before[i]).kind == kind.word() && before[i].source_id == id ==> {
                &&& after[i].status == "pending"@
                &&& after[i].retry_count == 0
                &&& after[i].last_error is None
                &&& record_of(after[i]) == (None::<Seq<char>>, None::<Seq<char>>, None::<i64>)
                &&& after[i].updated_at == now
            },
{
    lemma_found_once(before, kind, id);
}

/// A gap moves its row alone, to missing, with the reason noted and the attempts as they were.
pub proof fn law_a_gap_is_parked_as_missing(
    before: Seq<RowView>,
    after: Seq<RowView>,
    kind: ItemKind,
    id: Seq<char>,
    reason: Seq<char>,
    now: i64,
    r: Result<(), ManifestError>,
)
    requires
        rows_distinct(before),
        parked_missing(before, after, kind, id, reason, now, r),
    ensures
        r is Err ==> after == before,
        !has_row(before, kind, id) ==> r is Err,
        moves_only(before, after, kind, id),
        r is Ok ==> forall|i: int|
            0 <= i < before.len() && (#[trigger] before[i]).kind == kind.word() && before[i].source_id == id ==> {
                &&& after[i].status == "source_missing"@
                &&& after[i].last_error == Some(redacted(reason, hidden_for(before[i].url)))
                &&& after[i].retry_count == before[i].retry_count
                &&& record_of(after[i]) == record_of(before[i])
            },
{
    lemma_found_once(before, kind, id);
}

/// Excluding parks the rows of the records it is given and no other, with the attempts and the
/// record of each as they were.
pub proof fn law_excluding_parks_what_it_names(rows: Seq<RowView>, kind: ItemKind, ids: Seq<Seq<char>>, now: i64)
    requires
        rows_distinct(rows),
    ensures
        excluded_all(rows, kind, ids, now).len() == rows.len(),
        forall|i: int|
            0 <= i < rows.len() ==> {
                let (was, is) = (#[trigger] rows[i], excluded_all(rows, kind, ids, now)[i]);
                &&& is.kind == was.kind && is.source_id == was.source_id && is.url == was.url && is.retry_count == was.retry_count
                &&& record_of(is) == record_of(was)
                &&& was.kind == kind.word() && ids.contains(was.source_id) ==> is.status == "excluded"@
                &&& was.status == "excluded"@ || was.kind != kind.word() || !ids.contains(was.source_id) ==> is == was
            },
    decreases ids.len(),
{
    if ids.len() > 0 {
        let rest = ids.drop_last();
        law_excluding_parks_what_it_names(rows, kind, rest, now);
        let before = excluded_all(rows, kind, rest, now);
        let after = excluded_all(rows, kind, ids, now);
        assert forall|i: int| 0 <= i < rows.len() implies (#[trigger] before[i]).kind == rows[i].kind && before[i].source_id
            == rows[i].source_id by {
            assert(rows[i].kind == rows[i].kind);
        }
        lemma_find_same(before, rows, kind, ids.last());
        lemma_found_once(rows, kind, ids.last());
        assert forall|i: int| 0 <= i < rows.len() implies {
            let (was, is) = (#[trigger] rows[i], after[i]);
            &&& is.kind == was.kind && is.source_id == was.source_id && is.url == was.url && is.retry_count == was.retry_count
            &&& record_of(is) == record_of(was)
            &&& was.kind == kind.word() && ids.contains(was.source_id) ==> is.status == "excluded"@
            &&& was.status == "excluded"@ || was.kind != kind.word() || !ids.contains(was.source_id) ==> is == was
        } by {
            let id = rows[i].source_id;
            if ids.contains(id) {
                let k = choose|k: int| 0 <= k < ids.len() && ids[k] == id;
                if k < rest.len() {
                    assert(rest[k] == id);
                    assert(rest.contains(id));
                }
            } else {
                if rest.contains(id) {
                    let k = choose|k: int| 0 <= k < rest.len() && rest[k] == id;
                    assert(ids[k] == id);
                    assert(ids.contains(id));
                }
                if id == ids.last() {
                    assert(ids[ids.len() - 1] == id);
                    assert(ids.contains(id));
                }
            }
        }
    }
}

/// Retiring takes every item of the kind that is no longer named and was not finished, and notes
/// why; the attempts and the record stay.
pub proof fn law_retiring_takes_what_is_no_longer_named(
    rows: Seq<RowView>,
    kind: ItemKind,
    named: Seq<Seq<char>>,
    now: i64,
    at: int,
)
    requires
        0 <= at < rows.len(),
        rows[at].kind == kind.word(),
        rows[at].status != "done"@,
        rows[at].status != "claimed"@,
        !named.contains(rows[at].source_id),
    ensures
        retired_all(rows, kind, named, now).len() == rows.len(),
        retired_all(rows, kind, named, now)[at].status == "retired"@,
        rows[at].status != "retired"@ ==> retired_all(rows, kind, named, now)[at].last_error == Some(
            "the export no longer holds a source for this item"@,
        ),
        retired_all(rows, kind, named, now)[at].retry_count == rows[at].retry_count,
        retired_all(rows, kind, named, now)[at].url == rows[at].url,
        record_of(retired_all(rows, kind, named, now)[at]) == record_of(rows[at]),
{
}

/// Whether a record of a batch is the one a row stands for, and brings a url.
pub open spec fn brings_url(item: NewItem, row: RowView) -> bool {
    item.kind.word() == row.kind && item.source_id@ == row.source_id && item.url is Some
}

/// A row has the url of the last record of a batch that brought it one, and the url it had where
/// none did.
pub proof fn law_the_latest_url_is_kept(rows: Seq<RowView>, items: Seq<NewItem>, now: i64, at: int)
    requires
        rows_distinct(rows),
        0 <= at < rows.len(),
    ensures
        rows_distinct(enrolled(rows, items, now)),
        forall|k: int|
            0 <= k < items.len() && brings_url(#[trigger] items[k], rows[at]) && (forall|j: int|
                k < j < items.len() ==> !brings_url(#[trigger] items[j], rows[at])) ==> enrolled(rows, items, now)[at].url == Some(
                items[k].url.unwrap().0@,
            ),
        (forall|j: int| 0 <= j < items.len() ==> !brings_url(#[trigger] items[j], rows[at])) ==> enrolled(rows, items, now)[at].url
            == rows[at].url,
    decreases items.len(),
{
    if items.len() > 0 {
        let rest = items.drop_last();
        let item = items.last();
        law_the_latest_url_is_kept(rows, rest, now, at);
        law_enrolling_keeps_progress(rows, rest, now, at);
        let before = enrolled(rows, rest, now);
        let after = enrolled(rows, items, now);
        lemma_found_once(before, item.kind, item.source_id@);
        assert(after == enrolled_one(before, item, now));
        assert forall|i: int, j: int| 0 <= i < j < after.len() implies row_key()(#[trigger] after[i]) != row_key()(
            #[trigger] after[j],
        ) by {
            if j < before.len() {
                assert(row_key()(before[i]) != row_key()(before[j]));
            } else {
                assert(before[i].kind != item.kind.word() || before[i].source_id != item.source_id@);
            }
        }
        assert(before[at].kind == rows[at].kind && before[at].source_id == rows[at].source_id);
        assert forall|k: int|
            0 <= k < items.len() && brings_url(#[trigger] items[k], rows[at]) && (forall|j: int|
                k < j < items.len() ==> !brings_url(#[trigger] items[j], rows[at])) implies after[at].url == Some(
            items[k].url.unwrap().0@,
        ) by {
            if k < rest.len() {
                assert(rest[k] == items[k]);
                assert(!brings_url(items[items.len() - 1], rows[at]));
                assert forall|j: int| k < j < rest.len() implies !brings_url(#[trigger] rest[j], rows[at]) by {
                    assert(rest[j] == items[j]);
                }
            } else {
                assert(has_row(before, item.kind, item.source_id@));
            }
        }
        if forall|j: int| 0 <= j < items.len() ==> !brings_url(#[trigger] items[j], rows[at]) {
            assert forall|j: int| 0 <= j < rest.len() implies !brings_url(#[trigger] rest[j], rows[at]) by {
                assert(rest[j] == items[j]);
            }
            assert(!brings_url(items[items.len() - 1], rows[at]));
        }
    }
}

/// A row enrolling adds is of a record of the batch, pending, and never attempted.
pub proof fn law_a_new_row_is_pending(rows: Seq<RowView>, items: Seq<NewItem>, now: i64, at: int)
    requires
        rows.len() <= at < enrolled(rows, items, now).len(),
    ensures
        enrolled(rows, items, now)[at].status == "pending"@,
        enrolled(rows, items, now)[at].retry_count == 0,
        enrolled(rows, items, now)[at].last_error is None,
        record_of(enrolled(rows, items, now)[at]) == (None::<Seq<char>>, None::<Seq<char>>, None::<i64>),
        exists|k: int|
            0 <= k < items.len() && (#[trigger] items[k]).kind.word() == enrolled(rows, items, now)[at].kind && items[k].source_id@
                == enrolled(rows, items, now)[at].source_id,
    decreases items.len(),
{
    if items.len() > 0 {
        let rest = items.drop_last();
        let before = enrolled(rows, rest, now);
        lemma_found(before, items.last().kind, items.last().source_id@);
        if at < before.len() {
            law_a_new_row_is_pending(rows, rest, now, at);
            let k = choose|k: int|
                0 <= k < rest.len() && (#[trigger] rest[k]).kind.word() == before[at].kind && rest[k].source_id@ == before[at].source_id;
            assert(items[k] == rest[k]);
        } else {
            assert(items[items.len() - 1] == items.last());
        }
    }
}

/// Every item of the kind that is pending or failed, and was attempted fewer times than the cap, is
/// offered; what is offered comes in order of source id.
pub proof fn law_all_owed_work_is_offered(rows: Seq<RawItem>, kind: ItemKind, max_attempts: u32)
    ensures
        forall|i: int|
            0 <= i < rows.len() && (#[trigger] rows[i]).kind@ == kind.word() && (rows[i].status@ == "pending"@ || rows[i].status@
                == "failed"@) && rows[i].retry_count < max_attempts ==> owed(rows, kind, max_attempts).contains(rows[i]),
        forall|i: int, j: int|
            0 <= i < j < owed(rows, kind, max_attempts).len() ==> text_le(
                (#[trigger] owed(rows, kind, max_attempts)[i]).source_id@,
                (#[trigger] owed(rows, kind, max_attempts)[j]).source_id@,
            ),
{
    let wanted = is_owed(kind, max_attempts);
    let f = rows.filter(wanted);
    lemma_sorted(f);
    assert forall|i: int|
        0 <= i < rows.len() && (#[trigger] rows[i]).kind@ == kind.word() && (rows[i].status@ == "pending"@ || rows[i].status@
            == "failed"@) && rows[i].retry_count < max_attempts implies owed(rows, kind, max_attempts).contains(rows[i]) by {
        crate::order::lemma_filter_holds(rows, wanted, i);
        crate::order::lemma_sorted_contains(f, rows[i]);
    }
    assert forall|i: int, j: int| 0 <= i < j < owed(rows, kind, max_attempts).len() implies text_le(
        (#[trigger] owed(rows, kind, max_attempts)[i]).source_id@,
        (#[trigger] owed(rows, kind, max_attempts)[j]).source_id@,
    ) by {
        law_only_work_is_offered(rows, kind, max_attempts, i);
        law_only_work_is_offered(rows, kind, max_attempts, j);
    }
}

/// A finished row whose file is gone, or cannot be read, does not verify.
pub proof fn law_a_lost_file_is_demoted(row: RowView, output: Seq<char>, checksum: Checksum, bytes: u64, now: i64)
    requires
        bytes <= i64::MAX,
    ensures
        demotion(done_row(row, output, hex(checksum@), bytes as i64, now), Reading::NotFound) == Some(DemotionReason::Vanished),
        demotion(done_row(row, output, hex(checksum@), bytes as i64, now), Reading::Unreadable) == Some(DemotionReason::Unreadable),
{
    crate::export::digest::law_hex_round_trip(checksum@);
}

/// A resume puts a finished row back on the work list exactly where its file no longer stands as
/// recorded: pending, with what it found noted, nothing recorded of an output, and the attempts as
/// they were.
pub proof fn law_resuming_takes_what_no_longer_stands(
    rows: Seq<RawItem>,
    kind: ItemKind,
    readings: Seq<Reading>,
    count: nat,
    now: i64,
    which: int,
    at: int,
)
    requires
        rows_distinct(row_views(rows)),
        count <= finished(rows, kind).len(),
        0 <= which < count,
        0 <= at < rows.len(),
        rows[at].kind@ == kind.word(),
        rows[at].source_id@ == finished(rows, kind)[which].source_id@,
    ensures
        demotion(rows[at]@, readings[which]) is None ==> resumed(row_views(rows), kind, finished(rows, kind), readings, count, now)[at]
            == rows[at]@,
        demotion(rows[at]@, readings[which]) matches Some(reason) ==> {
            let row = resumed(row_views(rows), kind, finished(rows, kind), readings, count, now)[at];
            &&& row.status == "pending"@
            &&& row.last_error == Some(reason.words())
            &&& record_of(row) == (None::<Seq<char>>, None::<Seq<char>>, None::<i64>)
            &&& row.retry_count == rows[at].retry_count
            &&& row.url == rows[at]@.url
            &&& row.updated_at == now
        },
    decreases count,
{
    let table = row_views(rows);
    let done = finished(rows, kind);
    let less = (count - 1) as nat;
    let before = resumed(table, kind, done, readings, less, now);
    let id = done[less as int]@.source_id;
    lemma_resumed(rows, kind, readings, less, now);
    lemma_find_same(before, table, kind, id);
    lemma_found_once(table, kind, id);
    lemma_finished_once(rows, kind, which, at);
    if which < less {
        law_resuming_takes_what_no_longer_stands(rows, kind, readings, less, now, which, at);
        lemma_finished_apart(rows, kind, which, less as int);
        assert(table[at].source_id != id);
    } else {
        lemma_before_its_turn(rows, kind, readings, less, now, at, which);
        assert(table[at] == rows[at]@);
        assert(has_row(table, kind, id));
    }
}

/// The row a finished row came from is that row.
proof fn lemma_finished_once(rows: Seq<RawItem>, kind: ItemKind, which: int, at: int)
    requires
        rows_distinct(row_views(rows)),
        0 <= which < finished(rows, kind).len(),
        0 <= at < rows.len(),
        rows[at].kind@ == kind.word(),
        rows[at].source_id@ == finished(rows, kind)[which].source_id@,
    ensures
        finished(rows, kind)[which] == rows[at],
{
    let f = rows.filter(is_finished(kind));
    let done = finished(rows, kind);
    crate::order::lemma_sorted_contains(f, done[which]);
    assert(done.contains(done[which]));
    crate::order::lemma_filter_from(rows, is_finished(kind));
    let j = choose|j: int| 0 <= j < f.len() && f[j] == done[which];
    assert(rows.contains(f[j]) && is_finished(kind)(f[j]));
    let k = choose|k: int| 0 <= k < rows.len() && rows[k] == f[j];
    let table = row_views(rows);
    assert(row_key()(table[k]) == row_key()(table[at]));
    if k < at {
        assert(row_key()(table[k]) != row_key()(table[at]));
    } else if at < k {
        assert(row_key()(table[at]) != row_key()(table[k]));
    }
}

/// No two finished rows of a kind share a source id.
proof fn lemma_finished_apart(rows: Seq<RawItem>, kind: ItemKind, a: int, b: int)
    requires
        rows_distinct(row_views(rows)),
        0 <= a < b < finished(rows, kind).len(),
    ensures
        finished(rows, kind)[a].source_id@ != finished(rows, kind)[b].source_id@,
{
    let key = |row: RawItem| (row.kind@, row.source_id@);
    let table = row_views(rows);
    assert(keys_distinct(rows, key)) by {
        assert forall|i: int, j: int| 0 <= i < j < rows.len() implies key(#[trigger] rows[i]) != key(#[trigger] rows[j]) by {
            assert(row_key()(table[i]) != row_key()(table[j]));
        }
    }
    let f = rows.filter(is_finished(kind));
    let done = finished(rows, kind);
    crate::order::lemma_filter_distinct(rows, is_finished(kind), key);
    crate::order::lemma_sorted_distinct(f, key);
    assert(key(done[a]) != key(done[b]));
    crate::order::lemma_filter_from(rows, is_finished(kind));
    assert forall|which: int| 0 <= which < done.len() implies (#[trigger] done[which]).kind@ == kind.word() by {
        crate::order::lemma_sorted_contains(f, done[which]);
        assert(done.contains(done[which]));
        let j = choose|j: int| 0 <= j < f.len() && f[j] == done[which];
        assert(is_finished(kind)(f[j]));
    }
}

/// A resume leaves a finished row as it was until its turn comes.
proof fn lemma_before_its_turn(
    rows: Seq<RawItem>,
    kind: ItemKind,
    readings: Seq<Reading>,
    count: nat,
    now: i64,
    at: int,
    which: int,
)
    requires
        rows_distinct(row_views(rows)),
        count <= which < finished(rows, kind).len(),
        0 <= at < rows.len(),
        rows[at].kind@ == kind.word(),
        rows[at].source_id@ == finished(rows, kind)[which].source_id@,
    ensures
        resumed(row_views(rows), kind, finished(rows, kind), readings, count, now)[at] == rows[at]@,
    decreases count,
{
    if count > 0 {
        let less = (count - 1) as nat;
        let table = row_views(rows);
        let before = resumed(table, kind, finished(rows, kind), readings, less, now);
        let id = finished(rows, kind)[less as int]@.source_id;
        lemma_before_its_turn(rows, kind, readings, less, now, at, which);
        lemma_resumed(rows, kind, readings, less, now);
        lemma_find_same(before, table, kind, id);
        lemma_found_once(table, kind, id);
        lemma_finished_apart(rows, kind, less as int, which);
    }
}

/// Claiming gives each record the directory of the last claim made for it, held as a claim, and
/// touches no row of any other record.
pub proof fn law_the_latest_claim_is_kept(rows: Seq<RowView>, claims: Seq<DirectoryClaim>, now: i64, at: int)
    requires
        rows_distinct(rows),
        0 <= at < claimed_all(rows, claims, now).len(),
    ensures
        rows.len() <= claimed_all(rows, claims, now).len(),
        rows_distinct(claimed_all(rows, claims, now)),
        forall|k: int|
            0 <= k < claims.len() && claimed_all(rows, claims, now)[at].kind == ItemKind::HistoryExport.word() && (#[trigger] claims[k]).source_id@
                == claimed_all(rows, claims, now)[at].source_id && (forall|j: int|
                k < j < claims.len() ==> (#[trigger] claims[j]).source_id@ != claimed_all(rows, claims, now)[at].source_id) ==> {
                &&& claimed_all(rows, claims, now)[at].status == "claimed"@
                &&& claimed_all(rows, claims, now)[at].output_path == Some(claims[k].directory.shown@)
            },
        claimed_all(rows, claims, now)[at].kind != ItemKind::HistoryExport.word() || (forall|j: int|
            0 <= j < claims.len() ==> (#[trigger] claims[j]).source_id@ != claimed_all(rows, claims, now)[at].source_id) ==> at < rows.len()
            && claimed_all(rows, claims, now)[at] == rows[at],
        at < rows.len() ==> claimed_all(rows, claims, now)[at].kind == rows[at].kind && claimed_all(rows, claims, now)[at].source_id
            == rows[at].source_id,
    decreases claims.len(),
{
    if claims.len() > 0 {
        let rest = claims.drop_last();
        let claim = claims.last();
        let before = claimed_all(rows, rest, now);
        let after = claimed_all(rows, claims, now);
        if before.len() > 0 {
            law_the_latest_claim_is_kept(rows, rest, now, 0);
        } else {
            assert(rows_distinct(before));
            lemma_claiming_drops_none(rows, rest, now);
        }
        lemma_found_once(before, ItemKind::HistoryExport, claim.source_id@);
        assert(after == claimed_one(before, claim, now));
        assert forall|i: int, j: int| 0 <= i < j < after.len() implies row_key()(#[trigger] after[i]) != row_key()(
            #[trigger] after[j],
        ) by {
            if j < before.len() {
                assert(row_key()(before[i]) != row_key()(before[j]));
            } else {
                assert(before[i].kind != ItemKind::HistoryExport.word() || before[i].source_id != claim.source_id@);
            }
        }
        if at < before.len() {
            law_the_latest_claim_is_kept(rows, rest, now, at);
            assert(after[at].kind == before[at].kind && after[at].source_id == before[at].source_id);
            assert(claims[claims.len() - 1] == claim);
            assert forall|j: int| 0 <= j < rest.len() implies (#[trigger] rest[j]) == claims[j] by {}
            assert forall|k: int|
                0 <= k < claims.len() && after[at].kind == ItemKind::HistoryExport.word() && (#[trigger] claims[k]).source_id@
                    == after[at].source_id && (forall|j: int|
                    k < j < claims.len() ==> (#[trigger] claims[j]).source_id@ != after[at].source_id) implies {
                &&& after[at].status == "claimed"@
                &&& after[at].output_path == Some(claims[k].directory.shown@)
            } by {
                if k < rest.len() {
                    assert(rest[k] == claims[k]);
                    assert(claims[claims.len() - 1].source_id@ != after[at].source_id);
                    assert(after[at] == before[at]);
                } else {
                    assert(has_row(before, ItemKind::HistoryExport, claim.source_id@));
                }
            }
            if after[at].kind != ItemKind::HistoryExport.word() || (forall|j: int|
                0 <= j < claims.len() ==> (#[trigger] claims[j]).source_id@ != after[at].source_id) {
                assert(after[at] == before[at]);
                assert(after[at].kind != ItemKind::HistoryExport.word() || (forall|j: int|
                    0 <= j < rest.len() ==> (#[trigger] rest[j]).source_id@ != before[at].source_id));
            }
        } else {
            assert(claims[claims.len() - 1] == claim);
        }
    }
}

proof fn lemma_claiming_drops_none(rows: Seq<RowView>, claims: Seq<DirectoryClaim>, now: i64)
    ensures
        rows.len() <= claimed_all(rows, claims, now).len(),
    decreases claims.len(),
{
    if claims.len() > 0 {
        lemma_claiming_drops_none(rows, claims.drop_last(), now);
        lemma_found(claimed_all(rows, claims.drop_last(), now), ItemKind::HistoryExport, claims.last().source_id@);
    }
}

/// How many rows of a kind stand at a status, told by their words.
pub open spec fn rows_at(rows: Seq<RowView>, kind: Seq<char>, status: Seq<char>) -> nat {
    rows.filter(|row: RowView| row.kind == kind && row.status == status).len()
}

/// What a resume reports is what it left: how many rows of the kind stand at each status, and the
/// finished rows it put back, each with what was found of its file, and no others.
pub proof fn law_a_resume_counts_what_it_left(
    done: Seq<RawItem>,
    readings: Seq<Reading>,
    rows: Seq<RowView>,
    kind: ItemKind,
    report: ResumeReport,
)
    requires
        readings.len() == done.len(),
        resume_tells(done, readings, rows, kind, Ok(report)),
    ensures
        report.verified == rows_at(rows, kind.word(), "done"@),
        report.pending == rows_at(rows, kind.word(), "pending"@),
        report.failed == rows_at(rows, kind.word(), "failed"@),
        report.source_missing == rows_at(rows, kind.word(), "source_missing"@),
        report.retired == rows_at(rows, kind.word(), "retired"@),
        report.excluded == rows_at(rows, kind.word(), "excluded"@),
        forall|i: int|
            0 <= i < report.demoted@.len() ==> (#[trigger] report.demoted@[i]).kind == kind && exists|k: int|
                0 <= k < done.len() && (#[trigger] done[k])@.source_id == report.demoted@[i].source_id@ && demotion(done[k]@, readings[k])
                    == Some(report.demoted@[i].reason),
        forall|k: int|
            0 <= k < done.len() && demotion((#[trigger] done[k])@, readings[k]) is Some ==> exists|i: int|
                0 <= i < report.demoted@.len() && (#[trigger] report.demoted@[i]).source_id@ == done[k]@.source_id && Some(
                    report.demoted@[i].reason,
                ) == demotion(done[k]@, readings[k]),
{
    let word = kind.word();
    assert(stands_at_status(kind, ItemStatus::Done) =~= (|row: RowView| row.kind == word && row.status == "done"@));
    assert(stands_at_status(kind, ItemStatus::Pending) =~= (|row: RowView| row.kind == word && row.status == "pending"@));
    assert(stands_at_status(kind, ItemStatus::Failed) =~= (|row: RowView| row.kind == word && row.status == "failed"@));
    assert(stands_at_status(kind, ItemStatus::SourceMissing) =~= (|row: RowView| row.kind == word && row.status == "source_missing"@));
    assert(stands_at_status(kind, ItemStatus::Retired) =~= (|row: RowView| row.kind == word && row.status == "retired"@));
    assert(stands_at_status(kind, ItemStatus::Excluded) =~= (|row: RowView| row.kind == word && row.status == "excluded"@));
    lemma_demotions(done, readings, done.len());
    let told = demotion_views(report.demoted@);
    let all = demotions(done, readings, readings.len());
    assert(told.len() == report.demoted@.len());
    assert forall|i: int| 0 <= i < report.demoted@.len() implies (#[trigger] report.demoted@[i]).kind == kind && exists|k: int|
        0 <= k < done.len() && (#[trigger] done[k])@.source_id == report.demoted@[i].source_id@ && demotion(done[k]@, readings[k]) == Some(
            report.demoted@[i].reason,
        ) by {
        assert(told[i] == DemotionView { source_id: report.demoted@[i].source_id@, reason: report.demoted@[i].reason });
        assert(is_demotion(done, readings, done.len(), all[i]));
    }
    assert forall|k: int| 0 <= k < done.len() && demotion((#[trigger] done[k])@, readings[k]) is Some implies exists|i: int|
        0 <= i < report.demoted@.len() && (#[trigger] report.demoted@[i]).source_id@ == done[k]@.source_id && Some(
            report.demoted@[i].reason,
        ) == demotion(done[k]@, readings[k]) by {
        let wanted = DemotionView { source_id: done[k]@.source_id, reason: demotion(done[k]@, readings[k]).unwrap() };
        assert(all.contains(wanted));
        let i = choose|i: int| 0 <= i < all.len() && all[i] == wanted;
        assert(told[i] == DemotionView { source_id: report.demoted@[i].source_id@, reason: report.demoted@[i].reason });
    }
}

spec fn is_demotion(done: Seq<RawItem>, readings: Seq<Reading>, count: nat, told: DemotionView) -> bool {
    exists|k: int|
        0 <= k < count && (#[trigger] done[k])@.source_id == told.source_id && demotion(done[k]@, readings[k]) == Some(told.reason)
}

proof fn lemma_demotions(done: Seq<RawItem>, readings: Seq<Reading>, count: nat)
    requires
        count <= done.len(),
    ensures
        forall|i: int|
            0 <= i < demotions(done, readings, count).len() ==> is_demotion(done, readings, count, #[trigger] demotions(done, readings, count)[i]),
        forall|k: int|
            0 <= k < count && demotion((#[trigger] done[k])@, readings[k]) is Some ==> demotions(done, readings, count).contains(
                DemotionView { source_id: done[k]@.source_id, reason: demotion(done[k]@, readings[k]).unwrap() },
            ),
    decreases count,
{
    if count > 0 {
        let less = (count - 1) as nat;
        lemma_demotions(done, readings, less);
        let before = demotions(done, readings, less);
        let all = demotions(done, readings, count);
        assert forall|i: int| 0 <= i < all.len() implies is_demotion(done, readings, count, #[trigger] all[i]) by {
            if i < before.len() {
                assert(all[i] == before[i]);
                assert(is_demotion(done, readings, less, before[i]));
            } else {
                assert(done[less as int]@.source_id == all[i].source_id);
            }
        }
        assert forall|k: int| 0 <= k < count && demotion((#[trigger] done[k])@, readings[k]) is Some implies all.contains(
            DemotionView { source_id: done[k]@.source_id, reason: demotion(done[k]@, readings[k]).unwrap() },
        ) by {
            let wanted = DemotionView { source_id: done[k]@.source_id, reason: demotion(done[k]@, readings[k]).unwrap() };
            if k < less {
                assert(before.contains(wanted));
                let i = choose|i: int| 0 <= i < before.len() && before[i] == wanted;
                assert(all[i] == wanted);
            } else {
                assert(all[before.len() as int] == wanted);
            }
        }
    }
}

/// Every claim made has a row, of the history, held as a claim on the directory last claimed for it.
pub proof fn law_every_claim_is_held(rows: Seq<RowView>, claims: Seq<DirectoryClaim>, now: i64, at: int)
    requires
        rows_distinct(rows),
        0 <= at < claims.len(),
        forall|i: int| at < i < claims.len() ==> (#[trigger] claims[i]).source_id@ != claims[at].source_id@,
    ensures
        exists|k: int|
            0 <= k < claimed_all(rows, claims, now).len() && {
                let row = #[trigger] claimed_all(rows, claims, now)[k];
                &&& row.kind == "history_export"@
                &&& row.source_id == claims[at].source_id@
                &&& row.status == "claimed"@
                &&& row.output_path == Some(claims[at].directory.shown@)
            },
{
    lemma_claims_have_rows(rows, claims, now, at);
    let after = claimed_all(rows, claims, now);
    let k = choose|k: int|
        0 <= k < after.len() && (#[trigger] after[k]).kind == ItemKind::HistoryExport.word() && after[k].source_id == claims[at].source_id@;
    law_the_latest_claim_is_kept(rows, claims, now, k);
    assert(after[k].status == "claimed"@);
}

proof fn lemma_claims_have_rows(rows: Seq<RowView>, claims: Seq<DirectoryClaim>, now: i64, at: int)
    requires
        0 <= at < claims.len(),
    ensures
        has_row(claimed_all(rows, claims, now), ItemKind::HistoryExport, claims[at].source_id@),
    decreases claims.len(),
{
    let rest = claims.drop_last();
    let before = claimed_all(rows, rest, now);
    let after = claimed_all(rows, claims, now);
    let claim = claims.last();
    lemma_found(before, ItemKind::HistoryExport, claim.source_id@);
    if at < rest.len() {
        lemma_claims_have_rows(rows, rest, now, at);
        let k = choose|k: int|
            0 <= k < before.len() && (#[trigger] before[k]).kind == ItemKind::HistoryExport.word() && before[k].source_id
                == rest[at].source_id@;
        assert(after[k].kind == before[k].kind && after[k].source_id == before[k].source_id);
    } else {
        match find_row(before, ItemKind::HistoryExport, claim.source_id@) {
            Some(k) => {
                assert(after[k].source_id == claim.source_id@);
            },
            None => {
                assert(after[before.len() as int].source_id == claim.source_id@);
            },
        }
    }
}

} // verus!
