//! What a run still owes, what it finished, and what it could not find.
//!
//! One row per record of one kind. A row is work, finished, parked, or a claim on a directory, and
//! a second run decides what it may skip from the rows alone.
//!
//! A row's output path, checksum and length are one record of what a run wrote. A parked row keeps
//! it; a row that becomes work again drops it. Only a finished row's record is a claim about what
//! is on disk, and resuming is what checks it.

use vstd::prelude::*;

use crate::export::digest::{spells_digest, unhex, Checksum};
use crate::export::model::{copy_text, DownloadUrl};
use crate::order::{lemma_text_le_antisymmetric, lemma_text_le_total, lemma_text_le_transitive, text_le, text_not_after, Ranked};
use crate::paths::{path_of, FilePath, NativePath};
use crate::text::{alnum, chars_of, is_alnum, join2, opt_view, quoted, quoted_text, same, signed, signed_text};

verus! {

/// The schema this build writes and reads.
pub const SCHEMA_VERSION: i32 = 1;

/// The directory below the data directory that manifests live in.
pub const MANIFEST_SUBDIR: &'static str = "manifests";

// ---- identity ----

/// The id of one delivery. It names the manifest file, so its characters are restricted.
#[derive(Debug, Clone, PartialEq, Eq, PartialOrd, Ord, Hash)]
pub struct ExportId(pub String);

pub open spec fn is_id_char(c: char) -> bool {
    is_alnum(c) || c == '-' || c == '_'
}

/// Whether a text can name a manifest.
pub open spec fn names_export(raw: Seq<char>) -> bool {
    raw.len() > 0 && forall|i: int| 0 <= i < raw.len() ==> is_id_char(#[trigger] raw[i])
}

impl ExportId {
    /// The id a text spells; nothing for an empty text or one with any character but ascii letters,
    /// digits, `-` and `_`.
    #[must_use]
    pub fn new(raw: &str) -> (r: Option<Self>)
        ensures
            r is Some <==> names_export(raw@),
            r matches Some(id) ==> id.0@ == raw@,
    {
        let v = chars_of(raw);
        let mut i: usize = 0;
        while i < v.len()
            invariant
                v@ == raw@,
                i <= v@.len(),
                forall|j: int| 0 <= j < i ==> is_id_char(#[trigger] v@[j]),
            decreases v.len() - i,
        {
            if !(alnum(v[i]) || v[i] == '-' || v[i] == '_') {
                assert(!is_id_char(raw@[i as int]));
                return None;
            }
            i += 1;
        }
        if v.len() == 0 {
            None
        } else {
            Some(ExportId(raw.to_owned()))
        }
    }

    #[must_use]
    pub fn as_str(&self) -> (r: &str)
        ensures
            r@ == self.0@,
    {
        self.0.as_str()
    }

    /// The name of this export's database file.
    #[must_use]
    pub fn file_name(&self) -> (r: String)
        ensures
            r@ == self.0@ + ".sqlite"@,
    {
        join2(&self.0, ".sqlite")
    }
}

/// Where manifests live, below the platform's data directory.
pub fn manifest_dir(data_dir: Option<FilePath>) -> (r: Result<FilePath, ManifestError>)
    ensures
        match data_dir {
            Some(dir) => r matches Ok(found) && found@ == crate::paths::joined(dir@, MANIFEST_SUBDIR@),
            None => r == Err::<FilePath, ManifestError>(ManifestError::NoDataDir),
        },
{
    match data_dir {
        Some(dir) => Ok(dir.join(MANIFEST_SUBDIR)),
        None => Err(ManifestError::NoDataDir),
    }
}

// ---- vocabulary ----

/// Which leg a row belongs to.
#[derive(Debug, Clone, Copy, PartialEq, Eq, PartialOrd, Ord, Hash, Structural)]
pub enum ItemKind {
    Memory,
    ChatMedia,
    HistoryExport,
}

impl ItemKind {
    pub const ALL: [Self; 3] = [Self::Memory, Self::ChatMedia, Self::HistoryExport];

    pub open spec fn word(self) -> Seq<char> {
        match self {
            ItemKind::Memory => "memory"@,
            ItemKind::ChatMedia => "chat_media"@,
            ItemKind::HistoryExport => "history_export"@,
        }
    }

    /// The word the `kind` column holds.
    #[must_use]
    pub fn as_stored(self) -> (r: &'static str)
        ensures
            r@ == self.word(),
    {
        match self {
            ItemKind::Memory => "memory",
            ItemKind::ChatMedia => "chat_media",
            ItemKind::HistoryExport => "history_export",
        }
    }

    /// The kind a stored word names.
    pub fn from_stored(raw: &str) -> (r: Result<Self, ManifestError>)
        ensures
            match r {
                Ok(kind) => kind_of(raw@) == Some(kind),
                Err(error) => kind_of(raw@) is None && corrupt(error, Column::Kind, raw@),
            },
    {
        if same(raw, "memory") {
            Ok(ItemKind::Memory)
        } else if same(raw, "chat_media") {
            Ok(ItemKind::ChatMedia)
        } else if same(raw, "history_export") {
            Ok(ItemKind::HistoryExport)
        } else {
            Err(ManifestError::CorruptRow { column: Column::Kind, value: raw.to_owned() })
        }
    }
}

/// The kind a stored word names.
pub open spec fn kind_of(raw: Seq<char>) -> Option<ItemKind> {
    if raw == ItemKind::Memory.word() {
        Some(ItemKind::Memory)
    } else if raw == ItemKind::ChatMedia.word() {
        Some(ItemKind::ChatMedia)
    } else if raw == ItemKind::HistoryExport.word() {
        Some(ItemKind::HistoryExport)
    } else {
        None
    }
}

/// Where a row stands.
#[derive(Debug, Clone, Copy, PartialEq, Eq, PartialOrd, Ord, Hash, Structural)]
pub enum ItemStatus {
    /// Enumerated and still owed.
    Pending,
    /// Finished, its output hashed and recorded.
    Done,
    /// An attempt failed.
    Failed,
    /// The export names it and holds no media for it.
    SourceMissing,
    /// The export no longer names it.
    Retired,
    /// Present, and deliberately never written.
    Excluded,
    /// Not an item: a directory a history run claimed.
    Claimed,
}

impl ItemStatus {
    pub const ALL: [Self; 7] = [
        Self::Pending,
        Self::Done,
        Self::Failed,
        Self::SourceMissing,
        Self::Retired,
        Self::Excluded,
        Self::Claimed,
    ];

    pub open spec fn word(self) -> Seq<char> {
        match self {
            ItemStatus::Pending => "pending"@,
            ItemStatus::Done => "done"@,
            ItemStatus::Failed => "failed"@,
            ItemStatus::SourceMissing => "source_missing"@,
            ItemStatus::Retired => "retired"@,
            ItemStatus::Excluded => "excluded"@,
            ItemStatus::Claimed => "claimed"@,
        }
    }

    /// The word the `status` column holds.
    #[must_use]
    pub fn as_stored(self) -> (r: &'static str)
        ensures
            r@ == self.word(),
    {
        match self {
            ItemStatus::Pending => "pending",
            ItemStatus::Done => "done",
            ItemStatus::Failed => "failed",
            ItemStatus::SourceMissing => "source_missing",
            ItemStatus::Retired => "retired",
            ItemStatus::Excluded => "excluded",
            ItemStatus::Claimed => "claimed",
        }
    }

    /// The status a stored word names.
    pub fn from_stored(raw: &str) -> (r: Result<Self, ManifestError>)
        ensures
            match r {
                Ok(status) => status_of(raw@) == Some(status),
                Err(error) => status_of(raw@) is None && corrupt(error, Column::Status, raw@),
            },
    {
        if same(raw, "pending") {
            Ok(ItemStatus::Pending)
        } else if same(raw, "done") {
            Ok(ItemStatus::Done)
        } else if same(raw, "failed") {
            Ok(ItemStatus::Failed)
        } else if same(raw, "source_missing") {
            Ok(ItemStatus::SourceMissing)
        } else if same(raw, "retired") {
            Ok(ItemStatus::Retired)
        } else if same(raw, "excluded") {
            Ok(ItemStatus::Excluded)
        } else if same(raw, "claimed") {
            Ok(ItemStatus::Claimed)
        } else {
            Err(ManifestError::CorruptRow { column: Column::Status, value: raw.to_owned() })
        }
    }
}

/// The status a stored word names.
pub open spec fn status_of(raw: Seq<char>) -> Option<ItemStatus> {
    if raw == ItemStatus::Pending.word() {
        Some(ItemStatus::Pending)
    } else if raw == ItemStatus::Done.word() {
        Some(ItemStatus::Done)
    } else if raw == ItemStatus::Failed.word() {
        Some(ItemStatus::Failed)
    } else if raw == ItemStatus::SourceMissing.word() {
        Some(ItemStatus::SourceMissing)
    } else if raw == ItemStatus::Retired.word() {
        Some(ItemStatus::Retired)
    } else if raw == ItemStatus::Excluded.word() {
        Some(ItemStatus::Excluded)
    } else if raw == ItemStatus::Claimed.word() {
        Some(ItemStatus::Claimed)
    } else {
        None
    }
}

pub proof fn lemma_status_words()
    ensures
        forall|a: ItemStatus, b: ItemStatus| #![trigger a.word(), b.word()] a.word() == b.word() ==> a == b,
{
    reveal_strlit("pending");
    reveal_strlit("done");
    reveal_strlit("failed");
    reveal_strlit("source_missing");
    reveal_strlit("retired");
    reveal_strlit("excluded");
    reveal_strlit("claimed");
    assert("pending"@[0] == 'p' && "done"@[0] == 'd' && "failed"@[0] == 'f' && "source_missing"@[0] == 's');
    assert("retired"@[0] == 'r' && "excluded"@[0] == 'e' && "claimed"@[0] == 'c');
}

/// Every status survives being stored and read back.
pub proof fn law_status_round_trip(status: ItemStatus)
    ensures
        status_of(status.word()) == Some(status),
{
    lemma_status_words();
}

/// Every kind survives being stored and read back.
pub proof fn law_kind_round_trip(kind: ItemKind)
    ensures
        kind_of(kind.word()) == Some(kind),
{
    reveal_strlit("memory");
    reveal_strlit("chat_media");
    reveal_strlit("history_export");
    assert("memory"@[0] == 'm' && "chat_media"@[0] == 'c' && "history_export"@[0] == 'h');
}

/// A column whose stored text can fail to read back.
#[derive(Debug, Clone, Copy, PartialEq, Eq, Structural)]
pub enum Column {
    Kind,
    Status,
    Checksum,
    RetryCount,
    Bytes,
}

impl Column {
    pub open spec fn word(self) -> Seq<char> {
        match self {
            Column::Kind => "kind"@,
            Column::Status => "status"@,
            Column::Checksum => "checksum"@,
            Column::RetryCount => "retry_count"@,
            Column::Bytes => "bytes"@,
        }
    }

    /// The column's name in the schema.
    pub fn as_sql(self) -> (r: &'static str)
        ensures
            r@ == self.word(),
    {
        match self {
            Column::Kind => "kind",
            Column::Status => "status",
            Column::Checksum => "checksum",
            Column::RetryCount => "retry_count",
            Column::Bytes => "bytes",
        }
    }
}

/// What is wrong with an output path.
#[derive(Debug, Clone, Copy, PartialEq, Eq, Structural)]
pub enum PathProblem {
    Relative,
    NotUtf8,
}

/// Something went wrong reaching or reading the manifest.
#[derive(Debug, PartialEq, Eq)]
pub enum ManifestError {
    /// The platform names no directory to keep state in.
    NoDataDir,
    /// The manifest directory or its database could not be created.
    Create { path: String, source: String },
    /// Sqlite refused an operation.
    Sqlite { op: String, path: String, source: String },
    /// The database carries a schema this build does not know.
    FutureSchema { path: String, found: i32, supported: i32 },
    /// The database belongs to another export.
    WrongExport { path: String, found: String, wanted: String },
    /// The database does not say which export it belongs to.
    MissingExportPin { path: String },
    /// A stored value cannot be read back.
    CorruptRow { column: Column, value: String },
    /// A finished output could not be read to check it in.
    Output { path: String, source: String },
    /// An output path that cannot be stored and found again.
    OutputPath { path: String, problem: PathProblem },
    /// A transition named a row nothing enrolled.
    UnknownItem { kind: ItemKind, source_id: String },
}

/// The sentence a reader is shown.
pub open spec fn error_words(error: ManifestError) -> Seq<char> {
    match error {
        ManifestError::NoDataDir => "no per-user data directory to keep the resume manifest in; set HOME (or XDG_DATA_HOME) so resume state has somewhere private to live"@,
        ManifestError::Create { path, source } => "could not create the manifest at "@
            + path@
            + ": "@
            + source@
            + "; check the directory is writable"@,
        ManifestError::Sqlite { op, path, source } => "could not "@
            + op@
            + " in the manifest at "@
            + path@
            + ": "@
            + source@
            + "; if this repeats, delete that file and the next run rebuilds it, re-checking every item against the media on disk"@,
        ManifestError::FutureSchema { path, found, supported } => "the manifest at "@
            + path@
            + " was written with schema version "@
            + signed(found as int)
            + " and this build reads "@
            + signed(supported as int)
            + "; upgrade exportsnap, or delete that file and let the next run rebuild it from scratch"@,
        ManifestError::WrongExport { path, found, wanted } => "the manifest at "@
            + path@
            + " holds export "@
            + found@
            + ", not "@
            + wanted@
            + "; it was renamed or copied, so move it back or delete it"@,
        ManifestError::MissingExportPin { path } => "the manifest at "@
            + path@
            + " carries no export id; it was edited outside exportsnap, so delete it and the next run rebuilds it from scratch"@,
        ManifestError::CorruptRow { column, value } => "the manifest's "@
            + column.word()
            + " column holds "@
            + quoted(value@)
            + ", which this build cannot read; a newer exportsnap may have written it, or the file was edited outside exportsnap — upgrade first, and delete that file only if upgrading does not help; the next run then rebuilds it from scratch"@,
        ManifestError::Output { path, source } => "could not read "@
            + path@
            + " to check it in: "@
            + source@,
        ManifestError::OutputPath { path, problem: PathProblem::Relative } => "the manifest stores absolute output paths only and "@
            + path@
            + " is relative; a resume runs from a different working directory than the run that wrote it, so join it onto the output root first"@,
        ManifestError::OutputPath { path, problem: PathProblem::NotUtf8 } => "the manifest stores output paths as text and "@
            + path@
            + " is not valid utf-8; rename it or pick an output directory whose name is"@,
        ManifestError::UnknownItem { kind, source_id } => "no "@
            + kind.word()
            + " item "@
            + quoted(source_id@)
            + " in the manifest; enroll it before recording work against it"@,
    }
}

impl ManifestError {
    /// The sentence a reader is shown.
    #[must_use]
    pub fn message(&self) -> (r: String)
        ensures
            r@ == error_words(*self),
    {
        match self {
            ManifestError::NoDataDir => {
                let out = "no per-user data directory to keep the resume manifest in; set HOME (or XDG_DATA_HOME) so resume state has somewhere private to live".to_owned();
                out
            },
            ManifestError::Create { path, source } => {
                let mut out = "could not create the manifest at ".to_owned();
                out.append(path);
                out.append(": ");
                out.append(source);
                out.append("; check the directory is writable");
                out
            },
            ManifestError::Sqlite { op, path, source } => {
                let mut out = "could not ".to_owned();
                out.append(op);
                out.append(" in the manifest at ");
                out.append(path);
                out.append(": ");
                out.append(source);
                out.append("; if this repeats, delete that file and the next run rebuilds it, re-checking every item against the media on disk");
                out
            },
            ManifestError::FutureSchema { path, found, supported } => {
                let mut out = "the manifest at ".to_owned();
                out.append(path);
                out.append(" was written with schema version ");
                out.append(&signed_text(*found as i64));
                out.append(" and this build reads ");
                out.append(&signed_text(*supported as i64));
                out.append("; upgrade exportsnap, or delete that file and let the next run rebuild it from scratch");
                out
            },
            ManifestError::WrongExport { path, found, wanted } => {
                let mut out = "the manifest at ".to_owned();
                out.append(path);
                out.append(" holds export ");
                out.append(found);
                out.append(", not ");
                out.append(wanted);
                out.append("; it was renamed or copied, so move it back or delete it");
                out
            },
            ManifestError::MissingExportPin { path } => {
                let mut out = "the manifest at ".to_owned();
                out.append(path);
                out.append(" carries no export id; it was edited outside exportsnap, so delete it and the next run rebuilds it from scratch");
                out
            },
            ManifestError::CorruptRow { column, value } => {
                let mut out = "the manifest's ".to_owned();
                out.append(column.as_sql());
                out.append(" column holds ");
                out.append(&quoted_text(value));
                out.append(", which this build cannot read; a newer exportsnap may have written it, or the file was edited outside exportsnap — upgrade first, and delete that file only if upgrading does not help; the next run then rebuilds it from scratch");
                out
            },
            ManifestError::Output { path, source } => {
                let mut out = "could not read ".to_owned();
                out.append(path);
                out.append(" to check it in: ");
                out.append(source);
                out
            },
            ManifestError::OutputPath { path, problem: PathProblem::Relative } => {
                let mut out = "the manifest stores absolute output paths only and ".to_owned();
                out.append(path);
                out.append(" is relative; a resume runs from a different working directory than the run that wrote it, so join it onto the output root first");
                out
            },
            ManifestError::OutputPath { path, problem: PathProblem::NotUtf8 } => {
                let mut out = "the manifest stores output paths as text and ".to_owned();
                out.append(path);
                out.append(" is not valid utf-8; rename it or pick an output directory whose name is");
                out
            },
            ManifestError::UnknownItem { kind, source_id } => {
                let mut out = "no ".to_owned();
                out.append(kind.as_stored());
                out.append(" item ");
                out.append(&quoted_text(source_id));
                out.append(" in the manifest; enroll it before recording work against it");
                out
            },
        }
    }
}

pub open spec fn corrupt(error: ManifestError, column: Column, value: Seq<char>) -> bool {
    error matches ManifestError::CorruptRow { column: c, value: v } && c == column && v@ == value
}

pub open spec fn unknown(error: ManifestError, kind: ItemKind, source_id: Seq<char>) -> bool {
    error matches ManifestError::UnknownItem { kind: k, source_id: id } && k == kind && id@ == source_id
}

// ---- rows ----

/// One row as the table holds it.
#[derive(PartialEq, Eq)]
pub struct RawItem {
    pub kind: String,
    pub source_id: String,
    pub status: String,
    pub retry_count: i64,
    pub url: Option<String>,
    pub output_path: Option<String>,
    pub checksum: Option<String>,
    pub bytes: Option<i64>,
    pub last_error: Option<String>,
    pub updated_at: i64,
}

#[verifier::ext_equal]
pub struct RowView {
    pub kind: Seq<char>,
    pub source_id: Seq<char>,
    pub status: Seq<char>,
    pub retry_count: int,
    pub url: Option<Seq<char>>,
    pub output_path: Option<Seq<char>>,
    pub checksum: Option<Seq<char>>,
    pub bytes: Option<i64>,
    pub last_error: Option<Seq<char>>,
    pub updated_at: i64,
}

impl View for RawItem {
    type V = RowView;

    open spec fn view(&self) -> RowView {
        RowView {
            kind: self.kind@,
            source_id: self.source_id@,
            status: self.status@,
            retry_count: self.retry_count as int,
            url: opt_view(self.url),
            output_path: opt_view(self.output_path),
            checksum: opt_view(self.checksum),
            bytes: self.bytes,
            last_error: opt_view(self.last_error),
            updated_at: self.updated_at,
        }
    }
}

impl Clone for RawItem {
    fn clone(&self) -> (r: Self)
        ensures
            r == *self,
    {
        RawItem {
            kind: self.kind.clone(),
            source_id: self.source_id.clone(),
            status: self.status.clone(),
            retry_count: self.retry_count,
            url: copy_text(&self.url),
            output_path: copy_text(&self.output_path),
            checksum: copy_text(&self.checksum),
            bytes: self.bytes,
            last_error: copy_text(&self.last_error),
            updated_at: self.updated_at,
        }
    }
}

impl Ranked for RawItem {
    /// By kind, then by source id.
    open spec fn le(self, other: Self) -> bool {
        if self.kind@ != other.kind@ {
            text_le(self.kind@, other.kind@)
        } else {
            text_le(self.source_id@, other.source_id@)
        }
    }

    proof fn total(a: Self, b: Self) {
        lemma_text_le_total(a.kind@, b.kind@);
        lemma_text_le_total(a.source_id@, b.source_id@);
    }

    proof fn transitive(a: Self, b: Self, c: Self) {
        if a.kind@ == b.kind@ && b.kind@ == c.kind@ {
            lemma_text_le_transitive(a.source_id@, b.source_id@, c.source_id@);
        } else if a.kind@ != b.kind@ && b.kind@ != c.kind@ {
            lemma_text_le_transitive(a.kind@, b.kind@, c.kind@);
            if a.kind@ == c.kind@ {
                lemma_text_le_antisymmetric(a.kind@, b.kind@);
            }
        }
    }

    fn not_after(&self, other: &Self) -> (r: bool) {
        if self.kind != other.kind {
            text_not_after(&self.kind, &other.kind)
        } else {
            text_not_after(&self.source_id, &other.source_id)
        }
    }
}

pub open spec fn row_views(rows: Seq<RawItem>) -> Seq<RowView> {
    rows.map_values(|row: RawItem| row@)
}

/// A record the export names.
pub struct NewItem {
    pub kind: ItemKind,
    pub source_id: String,
    pub url: Option<DownloadUrl>,
}

/// One directory a history run claims.
#[derive(Debug)]
pub struct DirectoryClaim {
    pub source_id: String,
    pub directory: NativePath,
}

/// One claimed directory, read back.
#[derive(Debug, PartialEq, Eq)]
pub struct Claim {
    pub kind: ItemKind,
    pub source_id: String,
    pub directory: FilePath,
}

/// One row, read back into its types.
pub struct Item {
    pub kind: ItemKind,
    pub source_id: String,
    pub status: ItemStatus,
    pub retry_count: u32,
    pub output_path: Option<FilePath>,
    pub checksum: Option<Checksum>,
    pub bytes: Option<u64>,
    pub last_error: Option<String>,
    pub url: Option<DownloadUrl>,
    pub updated_at: i64,
}

/// What stops a row from being read back, the first of its columns to.
pub open spec fn fault_in(row: RowView) -> Option<(Column, Seq<char>)> {
    if row.checksum is Some && !spells_digest(row.checksum.unwrap()) {
        Some((Column::Checksum, row.checksum.unwrap()))
    } else if row.bytes is Some && row.bytes.unwrap() < 0 {
        Some((Column::Bytes, signed(row.bytes.unwrap() as int)))
    } else if kind_of(row.kind) is None {
        Some((Column::Kind, row.kind))
    } else if status_of(row.status) is None {
        Some((Column::Status, row.status))
    } else if !(0 <= row.retry_count <= u32::MAX) {
        Some((Column::RetryCount, signed(row.retry_count)))
    } else {
        None
    }
}

/// Whether an item is what a row reads back as.
pub open spec fn reads_as(row: RowView, item: Item) -> bool {
    &&& fault_in(row) is None
    &&& Some(item.kind) == kind_of(row.kind)
    &&& item.source_id@ == row.source_id
    &&& Some(item.status) == status_of(row.status)
    &&& item.retry_count == row.retry_count
    &&& match item.output_path {
        Some(path) => row.output_path matches Some(text) && path@ == path_of(text),
        None => row.output_path is None,
    }
    &&& match item.checksum {
        Some(checksum) => row.checksum matches Some(text) && checksum@ == unhex(text),
        None => row.checksum is None,
    }
    &&& match item.bytes {
        Some(count) => row.bytes matches Some(n) && count == n,
        None => row.bytes is None,
    }
    &&& opt_view(item.last_error) == row.last_error
    &&& match item.url {
        Some(url) => row.url == Some(url.0@),
        None => row.url is None,
    }
    &&& item.updated_at == row.updated_at
}

impl Item {
    /// Reads a row back into its types, or says which column does not.
    pub fn try_from(raw: RawItem) -> (r: Result<Self, ManifestError>)
        ensures
            match r {
                Ok(item) => reads_as(raw@, item),
                Err(error) => fault_in(raw@) matches Some(fault) && corrupt(error, fault.0, fault.1),
            },
    {
        let checksum: Option<Checksum> = match raw.checksum {
            Some(text) => match Checksum::from_hex(&text) {
                Some(checksum) => Some(checksum),
                None => {
                    return Err(ManifestError::CorruptRow { column: Column::Checksum, value: text });
                },
            },
            None => None,
        };
        let bytes: Option<u64> = match raw.bytes {
            Some(count) => {
                if count < 0 {
                    return Err(ManifestError::CorruptRow { column: Column::Bytes, value: signed_text(count) });
                }
                Some(count as u64)
            },
            None => None,
        };
        let kind = match ItemKind::from_stored(&raw.kind) {
            Ok(kind) => kind,
            Err(error) => {
                return Err(error);
            },
        };
        let status = match ItemStatus::from_stored(&raw.status) {
            Ok(status) => status,
            Err(error) => {
                return Err(error);
            },
        };
        if raw.retry_count < 0 || raw.retry_count > u32::MAX as i64 {
            return Err(ManifestError::CorruptRow { column: Column::RetryCount, value: signed_text(raw.retry_count) });
        }
        let output_path: Option<FilePath> = match raw.output_path {
            Some(text) => Some(FilePath::new(&text)),
            None => None,
        };
        let url: Option<DownloadUrl> = match raw.url {
            Some(text) => Some(DownloadUrl::new(text)),
            None => None,
        };
        Ok(
            Item {
                kind,
                source_id: raw.source_id,
                status,
                retry_count: raw.retry_count as u32,
                output_path,
                checksum,
                bytes,
                last_error: raw.last_error,
                url,
                updated_at: raw.updated_at,
            },
        )
    }
}

/// Reads rows back, or gives the first row's fault that stops it.
pub fn read_all(rows: Vec<RawItem>) -> (r: Result<Vec<Item>, ManifestError>)
    ensures
        read_back(rows@, r),
{
    let ghost all = rows@;
    let mut out: Vec<Item> = Vec::new();
    for row in it: rows
        invariant
            it.seq() == all,
            out@.len() == it.index(),
            forall|i: int| 0 <= i < out@.len() ==> reads_as(all[i]@, #[trigger] out@[i]),
    {
        match Item::try_from(row) {
            Ok(item) => {
                out.push(item);
            },
            Err(error) => {
                proof {
                    let at = it.index();
                    assert forall|i: int| 0 <= i < at implies fault_in(#[trigger] all[i]@) is None by {
                        assert(reads_as(all[i]@, out@[i]));
                    }
                    assert(fault_in(all[at]@) is Some);
                }
                return Err(error);
            },
        }
    }
    Ok(out)
}

/// What reading rows back gives: every item in order, or the fault of the first row that has one.
pub open spec fn read_back(rows: Seq<RawItem>, r: Result<Vec<Item>, ManifestError>) -> bool {
    match r {
        Ok(items) => items@.len() == rows.len() && forall|i: int| 0 <= i < rows.len() ==> reads_as(rows[i]@, #[trigger] items@[i]),
        Err(error) => exists|at: int|
            0 <= at < rows.len() && (#[trigger] fault_in(rows[at]@)) is Some && corrupt(
                error,
                fault_in(rows[at]@).unwrap().0,
                fault_in(rows[at]@).unwrap().1,
            ) && forall|i: int| 0 <= i < at ==> fault_in(#[trigger] rows[i]@) is None,
    }
}

/// Where a path may be stored, or what stops it.
pub open spec fn path_problem(path: NativePath) -> Option<PathProblem> {
    if !path.absolute {
        Some(PathProblem::Relative)
    } else if !path.utf8 {
        Some(PathProblem::NotUtf8)
    } else {
        None
    }
}

/// A path as the manifest stores it: absolute, and text.
pub fn stored_path(output: &NativePath) -> (r: Result<String, ManifestError>)
    ensures
        match r {
            Ok(text) => path_problem(*output) is None && text == output.shown,
            Err(error) => path_problem(*output) matches Some(found) && error matches ManifestError::OutputPath { path, problem }
                && path == output.shown && problem == found,
        },
{
    if !output.absolute {
        return Err(ManifestError::OutputPath { path: output.shown.clone(), problem: PathProblem::Relative });
    }
    if !output.utf8 {
        return Err(ManifestError::OutputPath { path: output.shown.clone(), problem: PathProblem::NotUtf8 });
    }
    Ok(output.shown.clone())
}

// ---- laws ----

/// A row that reads back says what the row says, each column in its own field.
pub proof fn law_a_row_is_read_back_whole(row: RowView, item: Item)
    requires
        reads_as(row, item),
    ensures
        item.kind is Memory <==> row.kind == "memory"@,
        item.kind is ChatMedia <==> row.kind == "chat_media"@,
        item.kind is HistoryExport <==> row.kind == "history_export"@,
        item.status.word() == row.status,
        item.source_id@ == row.source_id,
        item.retry_count == row.retry_count,
        item.output_path is Some <==> row.output_path is Some,
        item.output_path matches Some(path) ==> path@ == path_of(row.output_path.unwrap()),
        item.checksum is Some <==> row.checksum is Some,
        item.checksum matches Some(checksum) ==> checksum@ == unhex(row.checksum.unwrap()),
        item.bytes is Some <==> row.bytes is Some,
        item.bytes matches Some(bytes) ==> bytes == row.bytes.unwrap(),
        opt_view(item.last_error) == row.last_error,
        item.url is Some <==> row.url is Some,
        item.url matches Some(url) ==> url.0@ == row.url.unwrap(),
        item.updated_at == row.updated_at,
{
    law_kind_round_trip(ItemKind::Memory);
    law_kind_round_trip(ItemKind::ChatMedia);
    law_kind_round_trip(ItemKind::HistoryExport);
}

/// A row reads back exactly where its kind and its status are words of this build, its digest is
/// one, its length is not below zero, and its attempts can be counted.
pub proof fn law_a_sound_row_reads_back(row: RowView)
    ensures
        fault_in(row) is None <==> {
            &&& row.kind == "memory"@ || row.kind == "chat_media"@ || row.kind == "history_export"@
            &&& row.status == "pending"@ || row.status == "done"@ || row.status == "failed"@ || row.status == "source_missing"@
                || row.status == "retired"@ || row.status == "excluded"@ || row.status == "claimed"@
            &&& row.checksum matches Some(text) ==> spells_digest(text)
            &&& row.bytes matches Some(bytes) ==> bytes >= 0
            &&& 0 <= row.retry_count <= 0xffff_ffff
        },
{
}

/// An export's id is ascii letters, digits, hyphens and underscores, one at least.
pub proof fn law_an_export_id_is_a_plain_name(raw: Seq<char>)
    ensures
        names_export(raw) <==> raw.len() > 0 && forall|i: int|
            0 <= i < raw.len() ==> {
                let c = #[trigger] raw[i];
                '0' <= c <= '9' || 'A' <= c <= 'Z' || 'a' <= c <= 'z' || c == '-' || c == '_'
            },
{
    if names_export(raw) {
        assert forall|i: int| 0 <= i < raw.len() implies {
            let c = #[trigger] raw[i];
            '0' <= c <= '9' || 'A' <= c <= 'Z' || 'a' <= c <= 'z' || c == '-' || c == '_'
        } by {
            assert(is_id_char(raw[i]));
        }
    }
}

} // verus!
