//! Output paths: which file each item is written to, and which paths stay reserved.
//!
//! A path an earlier run recorded goes back to the item that recorded it, as long as it lies where
//! this run would put the item. Every recorded path below the root stays reserved, its item present
//! or departed, and what is left is counted up from the name the capture time gives.

use vstd::hash_map::StringHashMap;
use vstd::prelude::*;

use crate::export::ledger::{
    first_free, key_at, lemma_first_free_unique, lemma_fold_concat, lemma_some_free, lemma_suffix_folded, ordinal_suffix, suffix_text, Ledger,
};
use crate::export::manifest::{read_back, Item, ItemKind, ManifestError};
use crate::export::state::{listed, Manifest};
use crate::order::{lemma_text_le_total, lemma_text_le_transitive, text_le, text_not_after, Ranked};
use crate::paths::{file_name_of, joined, lies_under, parent_of, path_text, slashed, FilePath, PathView};
use crate::text::{decimal, fold, folded, join2, join3, split_last, split_last_text};

verus! {

// ---- names ----

/// `20210115_143005.jpg`, and `20210115_143005_2.jpg` for the next of that name.
pub open spec fn output_name_of(stem: Seq<char>, extension: Seq<char>, ordinal: nat) -> Seq<char> {
    stem + ordinal_suffix(ordinal) + ("."@ + extension)
}

/// The file name at an ordinal: plain at zero, counted from two after that.
pub fn output_name(stem: &str, extension: &str, ordinal: u128) -> (r: String)
    requires
        ordinal < u128::MAX,
    ensures
        r@ == output_name_of(stem@, extension@, ordinal as nat),
{
    join3(stem, &suffix_text(ordinal), &join2(".", extension))
}

/// What the text of a path below `dir` opens with.
pub open spec fn dir_prefix(dir: PathView) -> Seq<char> {
    (if dir.rooted {
        seq!['/']
    } else {
        seq![]
    }) + (if dir.parts.len() == 0 {
        seq![]
    } else {
        slashed(dir.parts) + seq!['/']
    })
}

/// A path's text is its directory's opening and its name.
pub proof fn lemma_text_below(dir: PathView, name: Seq<char>)
    ensures
        path_text(joined(dir, name)) == dir_prefix(dir) + name,
{
    let parts = dir.parts.push(name);
    assert(parts.drop_last() =~= dir.parts);
    assert(parts.last() == name);
    if dir.parts.len() == 0 {
        assert(slashed(parts) == name);
    } else {
        assert(slashed(parts) == slashed(dir.parts) + seq!['/'] + name);
    }
    assert(path_text(joined(dir, name)) =~= dir_prefix(dir) + name);
}

/// What a filesystem that folds case tells a path apart by.
pub open spec fn path_key(path: PathView) -> Seq<char> {
    fold(path_text(path))
}

/// The key of the output at an ordinal is the ledger's key for its name.
pub proof fn lemma_output_key(dir: PathView, stem: Seq<char>, extension: Seq<char>, ordinal: nat)
    ensures
        path_key(joined(dir, output_name_of(stem, extension, ordinal))) == key_at(
            fold(dir_prefix(dir) + stem),
            fold("."@ + extension),
            ordinal,
        ),
{
    let name = output_name_of(stem, extension, ordinal);
    let tail = "."@ + extension;
    lemma_text_below(dir, name);
    lemma_suffix_folded(ordinal);
    lemma_fold_concat(dir_prefix(dir) + stem, ordinal_suffix(ordinal));
    lemma_fold_concat(dir_prefix(dir) + stem + ordinal_suffix(ordinal), tail);
    assert(dir_prefix(dir) + name =~= dir_prefix(dir) + stem + ordinal_suffix(ordinal) + tail);
}

/// The stem and extension a file is kept under: its own name, cut at the last dot.
pub open spec fn kept_name_of(source: PathView) -> Option<(Seq<char>, Seq<char>)> {
    match file_name_of(source) {
        Some(name) => split_last(name, '.'),
        None => None,
    }
}

pub fn kept_name(source: &FilePath) -> (r: Option<(String, String)>)
    ensures
        r is Some <==> kept_name_of(source@) is Some,
        r matches Some(name) ==> kept_name_of(source@) == Some((name.0@, name.1@)),
{
    match source.file_name() {
        Some(name) => split_last_text(name, '.'),
        None => None,
    }
}

// ---- recorded outputs ----

/// One row's recorded output.
#[derive(Debug)]
pub struct RecordedOutput {
    pub source_id: String,
    pub output: FilePath,
}

pub struct RecordView {
    pub source_id: Seq<char>,
    pub output: PathView,
}

impl View for RecordedOutput {
    type V = RecordView;

    open spec fn view(&self) -> RecordView {
        RecordView { source_id: self.source_id@, output: self.output@ }
    }
}

impl Ranked for RecordedOutput {
    open spec fn le(self, other: Self) -> bool {
        text_le(self.source_id@, other.source_id@)
    }

    proof fn total(a: Self, b: Self) {
        lemma_text_le_total(a.source_id@, b.source_id@);
    }

    proof fn transitive(a: Self, b: Self, c: Self) {
        lemma_text_le_transitive(a.source_id@, b.source_id@, c.source_id@);
    }

    fn not_after(&self, other: &Self) -> (r: bool) {
        text_not_after(&self.source_id, &other.source_id)
    }
}

/// What earlier runs recorded, by source id.
#[derive(Debug)]
pub struct RecordedOutputs {
    pub recorded: Vec<RecordedOutput>,
}

pub open spec fn record_views(recorded: Seq<RecordedOutput>) -> Seq<RecordView> {
    recorded.map_values(|record: RecordedOutput| record@)
}

/// The records among items, in their order.
pub open spec fn records_in(items: Seq<Item>) -> Seq<RecordView>
    decreases items.len(),
{
    if items.len() == 0 {
        seq![]
    } else {
        let before = records_in(items.drop_last());
        match items.last().output_path {
            Some(path) => before.push(RecordView { source_id: items.last().source_id@, output: path@ }),
            None => before,
        }
    }
}

impl RecordedOutputs {
    pub fn empty() -> (r: Self)
        ensures
            r.recorded@.len() == 0,
    {
        RecordedOutputs { recorded: Vec::new() }
    }

    /// Every output the rows record, in the order of the rows.
    pub fn of(rows: &Vec<Item>) -> (r: Self)
        ensures
            record_views(r.recorded@) == records_in(rows@),
    {
        let mut recorded: Vec<RecordedOutput> = Vec::new();
        let mut i: usize = 0;
        assert(record_views(recorded@) =~= seq![]);
        while i < rows.len()
            invariant
                i <= rows@.len(),
                record_views(recorded@) == records_in(rows@.take(i as int)),
            decreases rows.len() - i,
        {
            let ghost some = rows@.take(i + 1);
            assert(some.drop_last() =~= rows@.take(i as int));
            assert(some.last() == rows@[i as int]);
            match &rows[i].output_path {
                Some(path) => {
                    let ghost before = recorded@;
                    let record = RecordedOutput { source_id: rows[i].source_id.clone(), output: path.clone() };
                    recorded.push(record);
                    assert(record_views(recorded@) =~= record_views(before).push(record@));
                },
                None => {},
            }
            i += 1;
        }
        assert(rows@.take(i as int) =~= rows@);
        RecordedOutputs { recorded }
    }

    /// Every output the rows of a kind record.
    pub fn read(manifest: &Manifest, kind: ItemKind) -> (r: Result<Self, ManifestError>)
        ensures
            match r {
                Ok(recorded) => exists|items: Vec<Item>| #[trigger]
                    read_back(listed(manifest.rows@, kind), Ok(items)) && record_views(recorded.recorded@) == records_in(items@),
                Err(error) => read_back(listed(manifest.rows@, kind), Err(error)),
            },
    {
        match manifest.items(kind) {
            Ok(items) => {
                let r = Self::of(&items);
                assert(read_back(listed(manifest.rows@, kind), Ok(items)));
                Ok(r)
            },
            Err(error) => Err(error),
        }
    }
}

// ---- assignment ----

/// The keys that are out, and the paths handed back.
#[verifier::ext_equal]
pub struct OutState {
    pub used: Set<Seq<char>>,
    pub assigned: Map<Seq<char>, PathView>,
}

/// One recorded path kept for its item, where it lies below the root and no other took it.
pub open spec fn handed_back(state: OutState, root: PathView, record: RecordView) -> OutState {
    if lies_under(root, record.output) && !state.used.contains(path_key(record.output)) {
        OutState {
            used: state.used.insert(path_key(record.output)),
            assigned: state.assigned.insert(record.source_id, record.output),
        }
    } else {
        state
    }
}

/// Each recorded path in turn kept for its item.
pub open spec fn all_handed_back(state: OutState, root: PathView, records: Seq<RecordView>) -> OutState
    decreases records.len(),
{
    if records.len() == 0 {
        state
    } else {
        handed_back(all_handed_back(state, root, records.drop_last()), root, records.last())
    }
}

pub open spec fn no_outputs() -> OutState {
    OutState { used: Set::empty(), assigned: Map::empty() }
}

/// What deriving a fresh path does: the first ordinal whose path is not out.
pub open spec fn derived(
    before: OutState,
    after: OutState,
    dir: PathView,
    stem: Seq<char>,
    extension: Seq<char>,
    path: PathView,
) -> bool {
    exists|ordinal: nat| #[trigger]
        first_free(before.used, fold(dir_prefix(dir) + stem), fold("."@ + extension), ordinal) && path == joined(
            dir,
            output_name_of(stem, extension, ordinal),
        ) && after == (OutState { used: before.used.insert(path_key(path)), assigned: before.assigned })
}

/// What asking for an item's output does: the path it recorded, where that lies in the directory
/// planned for it, else a fresh one.
pub open spec fn planned(
    before: OutState,
    after: OutState,
    id: Seq<char>,
    dir: PathView,
    stem: Seq<char>,
    extension: Seq<char>,
    path: PathView,
) -> bool {
    if before.assigned.contains_key(id) && parent_of(before.assigned[id]) == Some(dir) {
        after == before && path == before.assigned[id]
    } else {
        derived(before, after, dir, stem, extension, path)
    }
}

/// Copies of the export's own files.
#[derive(Debug, PartialEq, Eq)]
pub struct Originals {
    pub overlay: FilePath,
    pub main_copy: FilePath,
    pub overlay_copy: FilePath,
}

/// A path derived for each of two files under its own name, one after the other.
pub open spec fn derived_both(
    before: OutState,
    middle: OutState,
    after: OutState,
    dir: PathView,
    main: PathView,
    overlay: PathView,
    main_copy: PathView,
    overlay_copy: PathView,
) -> bool {
    match (kept_name_of(main), kept_name_of(overlay)) {
        (Some(first), Some(second)) => {
            &&& derived(before, middle, dir, first.0, first.1, main_copy)
            &&& derived(middle, after, dir, second.0, second.1, overlay_copy)
        },
        _ => false,
    }
}

/// What asking where the export's own two files are kept does.
pub open spec fn kept_originals(
    before: OutState,
    after: OutState,
    dir: PathView,
    main: PathView,
    overlay: PathView,
    r: Option<Originals>,
) -> bool {
    match r {
        Some(originals) => {
            &&& originals.overlay@ == overlay
            &&& exists|middle: OutState|
                derived_both(
                    before,
                    middle,
                    after,
                    dir,
                    main,
                    overlay,
                    originals.main_copy@,
                    originals.overlay_copy@,
                )
        },
        None => (kept_name_of(main) is None || kept_name_of(overlay) is None) && after == before,
    }
}

/// The outputs of one plan.
pub struct Outputs {
    root: FilePath,
    used: Ledger,
    assigned: StringHashMap<FilePath>,
}

impl Outputs {
    pub closed spec fn wf(self) -> bool {
        self.used.wf()
    }

    pub closed spec fn state(self) -> OutState {
        OutState { used: self.used@, assigned: self.assigned@.map_values(|path: FilePath| path@) }
    }

    /// Opens the outputs below `root`.
    pub fn new(root: FilePath, recorded: &RecordedOutputs) -> (r: Self)
        ensures
            r.wf(),
            r.state() == all_handed_back(no_outputs(), root@, record_views(recorded.recorded@)),
    {
        let mut outputs = Outputs { root, used: Ledger::new(), assigned: StringHashMap::new() };
        assert(outputs.state() =~= no_outputs());
        outputs.adopt(recorded);
        outputs
    }

    /// Keeps each recorded path below the root for the item that recorded it.
    fn adopt(&mut self, recorded: &RecordedOutputs)
        requires
            old(self).wf(),
        ensures
            final(self).wf(),
            final(self).root@ == old(self).root@,
            final(self).state() == all_handed_back(old(self).state(), old(self).root@, record_views(recorded.recorded@)),
    {
        let ghost start = self.state();
        let ghost records = record_views(recorded.recorded@);
        let mut i: usize = 0;
        while i < recorded.recorded.len()
            invariant
                i <= recorded.recorded@.len(),
                self.wf(),
                self.root@ == old(self).root@,
                records == record_views(recorded.recorded@),
                self.state() == all_handed_back(start, old(self).root@, records.take(i as int)),
            decreases recorded.recorded.len() - i,
        {
            let record = &recorded.recorded[i];
            let ghost some = records.take(i + 1);
            assert(some.drop_last() =~= records.take(i as int));
            assert(some.last() == record@);
            if under(&self.root, &record.output) {
                let key = record.output.folded_text();
                if !self.used.holds(&key) {
                    self.used.claim(key);
                    let ghost map = self.assigned@;
                    let output = record.output.clone();
                    self.assigned.insert(record.source_id.clone(), output);
                    assert(self.assigned@.map_values(|path: FilePath| path@) =~= map.map_values(
                        |path: FilePath| path@,
                    ).insert(record.source_id@, output@));
                }
            }
            i += 1;
        }
        assert(records.take(i as int) =~= records);
    }

    /// The path an item is written to.
    pub fn path(&mut self, source_id: &str, dir: &FilePath, stem: &str, extension: &str) -> (r: FilePath)
        requires
            old(self).wf(),
        ensures
            final(self).wf(),
            planned(old(self).state(), final(self).state(), source_id@, dir@, stem@, extension@, r@),
    {
        match self.assigned.get(source_id) {
            Some(output) => match output.parent() {
                Some(parent) => {
                    if parent.same_as(dir) {
                        return output.clone();
                    }
                },
                None => {},
            },
            None => {},
        }
        self.free(dir, stem, extension)
    }

    /// The first path of a name that is not out.
    fn free(&mut self, dir: &FilePath, stem: &str, extension: &str) -> (r: FilePath)
        requires
            old(self).wf(),
        ensures
            final(self).wf(),
            derived(old(self).state(), final(self).state(), dir@, stem@, extension@, r@),
    {
        let ghost before = self.state();
        let base = folded(&dir.join(stem).text());
        let tail = folded(&join2(".", extension));
        proof {
            lemma_text_below(dir@, stem@);
        }
        let ordinal: u128 = self.used.issue(&base, &tail);
        let name = output_name(stem, extension, ordinal);
        let path = dir.join(&name);
        proof {
            lemma_output_key(dir@, stem@, extension@, ordinal as nat);
            assert(first_free(before.used, fold(dir_prefix(dir@) + stem@), fold("."@ + extension@), ordinal as nat));
            assert(self.state() =~= (OutState { used: before.used.insert(path_key(path@)), assigned: before.assigned }));
        }
        path
    }

    /// A path for a document, counted up where it is out.
    pub fn reserve(&mut self, dir: &FilePath, stem: &str, extension: &str) -> (r: FilePath)
        requires
            old(self).wf(),
        ensures
            final(self).wf(),
            derived(old(self).state(), final(self).state(), dir@, stem@, extension@, r@),
    {
        self.free(dir, stem, extension)
    }

    /// Where copies of the export's own two files are kept: under their own names, each counted up
    /// where it is out. Nothing where one of them has no extension to keep.
    pub fn kept(&mut self, dir: &FilePath, main: &FilePath, overlay: FilePath) -> (r: Option<Originals>)
        requires
            old(self).wf(),
        ensures
            final(self).wf(),
            kept_originals(old(self).state(), final(self).state(), dir@, main@, overlay@, r),
    {
        let (main_stem, main_extension) = match kept_name(main) {
            Some(name) => name,
            None => {
                return None;
            },
        };
        let (overlay_stem, overlay_extension) = match kept_name(&overlay) {
            Some(name) => name,
            None => {
                return None;
            },
        };
        let main_copy = self.free(dir, &main_stem, &main_extension);
        let ghost middle = self.state();
        let overlay_copy = self.free(dir, &overlay_stem, &overlay_extension);
        let originals = Originals { overlay, main_copy, overlay_copy };
        assert(derived_both(
            old(self).state(),
            middle,
            self.state(),
            dir@,
            main@,
            overlay@,
            originals.main_copy@,
            originals.overlay_copy@,
        ));
        Some(originals)
    }
}

// ---- the answer, as a function ----

/// The path a fresh name comes to.
pub open spec fn fresh_path(state: OutState, dir: PathView, stem: Seq<char>, extension: Seq<char>) -> PathView {
    let ordinal = choose|ordinal: nat|
        first_free(state.used, fold(dir_prefix(dir) + stem), fold("."@ + extension), ordinal);
    joined(dir, output_name_of(stem, extension, ordinal))
}

/// The outputs once a path is out.
pub open spec fn with_path(state: OutState, path: PathView) -> OutState {
    OutState { used: state.used.insert(path_key(path)), assigned: state.assigned }
}

/// The path an item is written to.
pub open spec fn path_for(state: OutState, id: Seq<char>, dir: PathView, stem: Seq<char>, extension: Seq<char>) -> PathView {
    if state.assigned.contains_key(id) && parent_of(state.assigned[id]) == Some(dir) {
        state.assigned[id]
    } else {
        fresh_path(state, dir, stem, extension)
    }
}

/// The outputs once an item's path was asked for.
pub open spec fn after_path(state: OutState, id: Seq<char>, dir: PathView, stem: Seq<char>, extension: Seq<char>) -> OutState {
    if state.assigned.contains_key(id) && parent_of(state.assigned[id]) == Some(dir) {
        state
    } else {
        with_path(state, fresh_path(state, dir, stem, extension))
    }
}

/// A derived path is the fresh one.
pub proof fn lemma_derived_is_fresh(
    before: OutState,
    after: OutState,
    dir: PathView,
    stem: Seq<char>,
    extension: Seq<char>,
    path: PathView,
)
    requires
        derived(before, after, dir, stem, extension, path),
    ensures
        path == fresh_path(before, dir, stem, extension),
        after == with_path(before, path),
{
    let (base, tail) = (fold(dir_prefix(dir) + stem), fold("."@ + extension));
    let ordinal = choose|ordinal: nat| #[trigger]
        first_free(before.used, fold(dir_prefix(dir) + stem), fold("."@ + extension), ordinal) && path == joined(
            dir,
            output_name_of(stem, extension, ordinal),
        ) && after == (OutState { used: before.used.insert(path_key(path)), assigned: before.assigned });
    let chosen = choose|ordinal: nat| first_free(before.used, base, tail, ordinal);
    lemma_first_free_unique(before.used, base, tail, ordinal, chosen);
}

/// A planned path is the one the item is written to.
pub proof fn lemma_planned_is_path_for(
    before: OutState,
    after: OutState,
    id: Seq<char>,
    dir: PathView,
    stem: Seq<char>,
    extension: Seq<char>,
    path: PathView,
)
    requires
        planned(before, after, id, dir, stem, extension, path),
    ensures
        path == path_for(before, id, dir, stem, extension),
        after == after_path(before, id, dir, stem, extension),
{
    if !(before.assigned.contains_key(id) && parent_of(before.assigned[id]) == Some(dir)) {
        lemma_derived_is_fresh(before, after, dir, stem, extension, path);
    }
}

pub struct OriginalsView {
    pub overlay: PathView,
    pub main_copy: PathView,
    pub overlay_copy: PathView,
}

impl View for Originals {
    type V = OriginalsView;

    open spec fn view(&self) -> OriginalsView {
        OriginalsView { overlay: self.overlay@, main_copy: self.main_copy@, overlay_copy: self.overlay_copy@ }
    }
}

/// Where copies of the export's own two files are kept.
pub open spec fn originals_for(state: OutState, dir: PathView, main: PathView, overlay: PathView) -> Option<OriginalsView> {
    match (kept_name_of(main), kept_name_of(overlay)) {
        (Some(first), Some(second)) => {
            let main_copy = fresh_path(state, dir, first.0, first.1);
            let overlay_copy = fresh_path(with_path(state, main_copy), dir, second.0, second.1);
            Some(OriginalsView { overlay, main_copy, overlay_copy })
        },
        _ => None,
    }
}

/// The outputs once copies were asked for.
pub open spec fn after_originals(state: OutState, dir: PathView, main: PathView, overlay: PathView) -> OutState {
    match originals_for(state, dir, main, overlay) {
        Some(originals) => with_path(with_path(state, originals.main_copy), originals.overlay_copy),
        None => state,
    }
}

/// Kept originals are the ones asked for.
pub proof fn lemma_kept_is_originals_for(
    before: OutState,
    after: OutState,
    dir: PathView,
    main: PathView,
    overlay: PathView,
    r: Option<Originals>,
)
    requires
        kept_originals(before, after, dir, main, overlay, r),
    ensures
        match r {
            Some(originals) => originals_for(before, dir, main, overlay) == Some(originals@),
            None => originals_for(before, dir, main, overlay) is None,
        },
        after == after_originals(before, dir, main, overlay),
{
    match r {
        Some(originals) => {
            let middle = choose|middle: OutState|
                derived_both(before, middle, after, dir, main, overlay, originals.main_copy@, originals.overlay_copy@);
            let first = kept_name_of(main).unwrap();
            let second = kept_name_of(overlay).unwrap();
            lemma_derived_is_fresh(before, middle, dir, first.0, first.1, originals.main_copy@);
            lemma_derived_is_fresh(middle, after, dir, second.0, second.1, originals.overlay_copy@);
        },
        None => {},
    }
}

/// Whether an output lies at or below the root.
pub fn under(root: &FilePath, output: &FilePath) -> (r: bool)
    ensures
        r == lies_under(root@, output@),
{
    output.starts_with(root)
}

// ---- laws ----

/// What every plan keeps: each path handed back is out, and no two fold onto one file.
pub open spec fn outputs_apart(state: OutState) -> bool {
    &&& forall|id: Seq<char>| #[trigger]
        state.assigned.contains_key(id) ==> state.used.contains(path_key(state.assigned[id]))
    &&& forall|a: Seq<char>, b: Seq<char>|
        #![trigger state.assigned.contains_key(a), state.assigned.contains_key(b)]
        state.assigned.contains_key(a) && state.assigned.contains_key(b) && a != b ==> path_key(state.assigned[a]) != path_key(
            state.assigned[b],
        )
}

/// Whatever the rows record, two rows on one file do not both get it back, and every path handed
/// back is out.
pub proof fn law_recorded_paths_are_apart(root: PathView, records: Seq<RecordView>)
    ensures
        outputs_apart(all_handed_back(no_outputs(), root, records)),
    decreases records.len(),
{
    if records.len() > 0 {
        law_recorded_paths_are_apart(root, records.drop_last());
        let before = all_handed_back(no_outputs(), root, records.drop_last());
        let after = all_handed_back(no_outputs(), root, records);
        let record = records.last();
        if lies_under(root, record.output) && !before.used.contains(path_key(record.output)) {
            assert forall|id: Seq<char>| #[trigger] after.assigned.contains_key(id) implies after.used.contains(
                path_key(after.assigned[id]),
            ) by {
                if id != record.source_id {
                    assert(before.assigned.contains_key(id));
                }
            }
            assert forall|a: Seq<char>, b: Seq<char>|
                #![trigger after.assigned.contains_key(a), after.assigned.contains_key(b)]
                after.assigned.contains_key(a) && after.assigned.contains_key(b) && a != b implies path_key(after.assigned[a])
                != path_key(after.assigned[b]) by {
                if a != record.source_id {
                    assert(before.assigned.contains_key(a));
                }
                if b != record.source_id {
                    assert(before.assigned.contains_key(b));
                }
            }
        }
    }
}

/// Every path recorded below the root is out once a plan opens, its item present or departed.
pub proof fn law_recorded_paths_stay_reserved(root: PathView, records: Seq<RecordView>, at: int)
    requires
        0 <= at < records.len(),
        lies_under(root, records[at].output),
    ensures
        all_handed_back(no_outputs(), root, records).used.contains(path_key(records[at].output)),
    decreases records.len(),
{
    if at < records.len() - 1 {
        assert(records.drop_last()[at] == records[at]);
        law_recorded_paths_stay_reserved(root, records.drop_last(), at);
    }
}

/// A path recorded under another root is neither handed back nor reserved.
pub proof fn law_other_roots_do_not_matter(root: PathView, state: OutState, record: RecordView)
    requires
        !lies_under(root, record.output),
    ensures
        handed_back(state, root, record) == state,
{
}

/// A derived path is one nothing had: no path out folds onto it, and it is out from then on.
pub proof fn law_a_derived_path_is_fresh(
    before: OutState,
    after: OutState,
    dir: PathView,
    stem: Seq<char>,
    extension: Seq<char>,
    path: PathView,
)
    requires
        outputs_apart(before),
        derived(before, after, dir, stem, extension, path),
    ensures
        !before.used.contains(path_key(path)),
        after.used.contains(path_key(path)),
        before.used.subset_of(after.used),
        after.assigned == before.assigned,
        outputs_apart(after),
        parent_of(path) == Some(dir),
{
    let ordinal = choose|ordinal: nat| #[trigger]
        first_free(before.used, fold(dir_prefix(dir) + stem), fold("."@ + extension), ordinal) && path == joined(
            dir,
            output_name_of(stem, extension, ordinal),
        ) && after == (OutState { used: before.used.insert(path_key(path)), assigned: before.assigned });
    lemma_output_key(dir, stem, extension, ordinal);
    assert(dir.parts.push(output_name_of(stem, extension, ordinal)).drop_last() =~= dir.parts);
    assert forall|id: Seq<char>| #[trigger] after.assigned.contains_key(id) implies after.used.contains(
        path_key(after.assigned[id]),
    ) by {
        assert(before.assigned.contains_key(id));
    }
}

/// Whatever is asked for, the path lies in the directory planned for the item, and unless it is the
/// item's own recorded path, nothing had it.
pub proof fn law_a_planned_path_lies_where_planned(
    before: OutState,
    after: OutState,
    id: Seq<char>,
    dir: PathView,
    stem: Seq<char>,
    extension: Seq<char>,
    path: PathView,
)
    requires
        outputs_apart(before),
        planned(before, after, id, dir, stem, extension, path),
    ensures
        parent_of(path) == Some(dir),
        after.used.contains(path_key(path)),
        outputs_apart(after),
        before.assigned.contains_key(id) && path == before.assigned[id] || !before.used.contains(path_key(path)),
{
    if !(before.assigned.contains_key(id) && parent_of(before.assigned[id]) == Some(dir)) {
        law_a_derived_path_is_fresh(before, after, dir, stem, extension, path);
    }
}

/// A fresh path lies in the directory it was asked for, under the name that was asked for.
pub proof fn lemma_fresh_below(state: OutState, dir: PathView, stem: Seq<char>, extension: Seq<char>)
    ensures
        exists|ordinal: nat| fresh_path(state, dir, stem, extension) == joined(dir, #[trigger] output_name_of(stem, extension, ordinal)),
        parent_of(fresh_path(state, dir, stem, extension)) == Some(dir),
{
    let ordinal = choose|ordinal: nat|
        first_free(state.used, fold(dir_prefix(dir) + stem), fold("."@ + extension), ordinal);
    let name = output_name_of(stem, extension, ordinal);
    assert(fresh_path(state, dir, stem, extension) == joined(dir, name));
    assert(joined(dir, name).parts.drop_last() =~= dir.parts);
}

/// An item's path lies in the directory planned for it, and is a fresh one where none was recorded.
pub proof fn lemma_path_below(state: OutState, id: Seq<char>, dir: PathView, stem: Seq<char>, extension: Seq<char>)
    ensures
        parent_of(path_for(state, id, dir, stem, extension)) == Some(dir),
        !state.assigned.contains_key(id) ==> exists|ordinal: nat| path_for(state, id, dir, stem, extension) == joined(
            dir,
            #[trigger] output_name_of(stem, extension, ordinal),
        ),
{
    lemma_fresh_below(state, dir, stem, extension);
}

/// A path that was given out, and the item it was given to where it was its output.
pub struct Given {
    pub id: Option<Seq<char>>,
    pub path: PathView,
}

/// Whether the paths given out so far are out, apart from one another, and apart from every path
/// that waits for another item.
pub open spec fn given_apart(state: OutState, given: Seq<Given>) -> bool {
    &&& state.used.finite()
    &&& outputs_apart(state)
    &&& forall|i: int| 0 <= i < given.len() ==> state.used.contains(path_key((#[trigger] given[i]).path))
    &&& forall|i: int, id: Seq<char>|
        #![trigger given[i], state.assigned.contains_key(id)]
        0 <= i < given.len() && state.assigned.contains_key(id) && path_key(state.assigned[id]) == path_key(given[i].path)
            ==> given[i].id == Some(id)
    &&& forall|i: int, j: int|
        #![trigger given[i], given[j]]
        0 <= i < j < given.len() ==> path_key(given[i].path) != path_key(given[j].path)
}

/// Before anything was given out, nothing is in the way.
pub proof fn lemma_nothing_given(root: PathView, records: Seq<RecordView>)
    ensures
        given_apart(all_handed_back(no_outputs(), root, records), Seq::empty()),
{
    law_recorded_paths_are_apart(root, records);
    lemma_handed_back_finite(root, records);
}

proof fn lemma_handed_back_finite(root: PathView, records: Seq<RecordView>)
    ensures
        all_handed_back(no_outputs(), root, records).used.finite(),
    decreases records.len(),
{
    if records.len() > 0 {
        lemma_handed_back_finite(root, records.drop_last());
    }
}

/// The fresh path is a derived one.
pub proof fn lemma_fresh_is_derived(state: OutState, dir: PathView, stem: Seq<char>, extension: Seq<char>)
    requires
        state.used.finite(),
    ensures
        ({
            let path = fresh_path(state, dir, stem, extension);
            derived(state, with_path(state, path), dir, stem, extension, path)
        }),
{
    let (base, tail) = (fold(dir_prefix(dir) + stem), fold("."@ + extension));
    let free = lemma_some_free(state.used, base, tail, 0);
    let ordinal = choose|ordinal: nat| first_free(state.used, fold(dir_prefix(dir) + stem), fold("."@ + extension), ordinal);
    assert(first_free(state.used, base, tail, ordinal));
}

/// Giving out a fresh path keeps everything given out apart.
pub proof fn lemma_given_fresh(state: OutState, given: Seq<Given>, id: Option<Seq<char>>, dir: PathView, stem: Seq<char>, extension: Seq<char>)
    requires
        given_apart(state, given),
    ensures
        ({
            let path = fresh_path(state, dir, stem, extension);
            given_apart(with_path(state, path), given.push(Given { id, path })) && parent_of(path) == Some(dir)
        }),
{
    let path = fresh_path(state, dir, stem, extension);
    let after = with_path(state, path);
    lemma_fresh_is_derived(state, dir, stem, extension);
    law_a_derived_path_is_fresh(state, after, dir, stem, extension, path);
    let more = given.push(Given { id, path });
    assert forall|i: int| 0 <= i < more.len() implies after.used.contains(path_key((#[trigger] more[i]).path)) by {
        if i < given.len() {
            assert(more[i] == given[i]);
        }
    }
    assert forall|i: int, other: Seq<char>|
        #![trigger more[i], after.assigned.contains_key(other)]
        0 <= i < more.len() && after.assigned.contains_key(other) && path_key(after.assigned[other]) == path_key(more[i].path) implies more[i].id
        == Some(other) by {
        assert(state.assigned.contains_key(other));
        if i < given.len() {
            assert(more[i] == given[i]);
        }
    }
    assert forall|i: int, j: int| #![trigger more[i], more[j]] 0 <= i < j < more.len() implies path_key(more[i].path) != path_key(
        more[j].path,
    ) by {
        assert(more[i] == given[i]);
        if j < given.len() {
            assert(more[j] == given[j]);
        }
    }
}

/// Giving an item its output keeps everything given out apart, and the output lies in the
/// directory asked for.
pub proof fn lemma_given_output(state: OutState, given: Seq<Given>, id: Seq<char>, dir: PathView, stem: Seq<char>, extension: Seq<char>)
    requires
        given_apart(state, given),
        forall|i: int| 0 <= i < given.len() ==> (#[trigger] given[i]).id != Some(id),
    ensures
        ({
            let path = path_for(state, id, dir, stem, extension);
            given_apart(after_path(state, id, dir, stem, extension), given.push(Given { id: Some(id), path })) && parent_of(path)
                == Some(dir)
        }),
{
    let path = path_for(state, id, dir, stem, extension);
    if state.assigned.contains_key(id) && parent_of(state.assigned[id]) == Some(dir) {
        let more = given.push(Given { id: Some(id), path });
        assert forall|i: int| 0 <= i < more.len() implies state.used.contains(path_key((#[trigger] more[i]).path)) by {
            if i < given.len() {
                assert(more[i] == given[i]);
            }
        }
        assert forall|i: int, other: Seq<char>|
            #![trigger more[i], state.assigned.contains_key(other)]
            0 <= i < more.len() && state.assigned.contains_key(other) && path_key(state.assigned[other]) == path_key(
                more[i].path,
            ) implies more[i].id == Some(other) by {
            if i < given.len() {
                assert(more[i] == given[i]);
            }
        }
        assert forall|i: int, j: int| #![trigger more[i], more[j]] 0 <= i < j < more.len() implies path_key(more[i].path)
            != path_key(more[j].path) by {
            assert(more[i] == given[i]);
            if j < given.len() {
                assert(more[j] == given[j]);
            }
        }
    } else {
        lemma_given_fresh(state, given, Some(id), dir, stem, extension);
    }
}

/// A path goes back to the item that recorded it, where it lies below the root, no record before it
/// folds onto it, and the item recorded none after it.
pub proof fn law_a_recorded_path_goes_back(root: PathView, records: Seq<RecordView>, at: int)
    requires
        0 <= at < records.len(),
        lies_under(root, records[at].output),
        forall|i: int| 0 <= i < at ==> path_key((#[trigger] records[i]).output) != path_key(records[at].output),
        forall|i: int| at < i < records.len() ==> (#[trigger] records[i]).source_id != records[at].source_id,
    ensures
        all_handed_back(no_outputs(), root, records).assigned.contains_key(records[at].source_id),
        all_handed_back(no_outputs(), root, records).assigned[records[at].source_id] == records[at].output,
    decreases records.len(),
{
    let rest = records.drop_last();
    if at < rest.len() {
        assert forall|i: int| 0 <= i < rest.len() implies rest[i] == #[trigger] records[i] by {}
        law_a_recorded_path_goes_back(root, rest, at);
    } else {
        lemma_only_recorded_is_out(root, rest, path_key(records[at].output));
    }
}

proof fn lemma_only_recorded_is_out(root: PathView, records: Seq<RecordView>, key: Seq<char>)
    requires
        forall|i: int| 0 <= i < records.len() ==> path_key((#[trigger] records[i]).output) != key,
    ensures
        !all_handed_back(no_outputs(), root, records).used.contains(key),
    decreases records.len(),
{
    if records.len() > 0 {
        let rest = records.drop_last();
        assert forall|i: int| 0 <= i < rest.len() implies path_key((#[trigger] rest[i]).output) != key by {
            assert(rest[i] == records[i]);
        }
        lemma_only_recorded_is_out(root, rest, key);
        assert(path_key(records[records.len() - 1].output) != key);
    }
}

/// The first output of a name is its stem and extension as they are; where that is out, the next is
/// marked as the second.
pub proof fn law_a_name_is_counted_from_two(
    before: OutState,
    after: OutState,
    dir: PathView,
    stem: Seq<char>,
    extension: Seq<char>,
    path: PathView,
)
    requires
        derived(before, after, dir, stem, extension, path),
    ensures
        !before.used.contains(path_key(joined(dir, stem + "."@ + extension))) ==> path == joined(dir, stem + "."@ + extension),
        before.used.contains(path_key(joined(dir, stem + "."@ + extension))) && !before.used.contains(
            path_key(joined(dir, stem + "_2."@ + extension)),
        ) ==> path == joined(dir, stem + "_2."@ + extension),
{
    let ordinal = choose|ordinal: nat| #[trigger]
        first_free(before.used, fold(dir_prefix(dir) + stem), fold("."@ + extension), ordinal) && path == joined(
            dir,
            output_name_of(stem, extension, ordinal),
        ) && after == (OutState { used: before.used.insert(path_key(path)), assigned: before.assigned });
    lemma_output_key(dir, stem, extension, 0);
    lemma_output_key(dir, stem, extension, 1);
    lemma_output_key(dir, stem, extension, ordinal);
    assert(output_name_of(stem, extension, 0) =~= stem + "."@ + extension);
    reveal_strlit("_");
    reveal_strlit(".");
    reveal_strlit("_2.");
    reveal_with_fuel(decimal, 2);
    assert(decimal(2) =~= seq!['2']);
    assert(output_name_of(stem, extension, 1) =~= stem + "_2."@ + extension);
    let (head, tail) = (fold(dir_prefix(dir) + stem), fold("."@ + extension));
    if ordinal > 0 {
        assert(before.used.contains(key_at(head, tail, 0)));
    }
    if ordinal > 1 {
        assert(before.used.contains(key_at(head, tail, 1)));
    }
}

} // verus!
