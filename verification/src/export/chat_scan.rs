//! Sorting out the files a walk of an export's chat media came upon.

use vstd::prelude::*;

use crate::export::chat_enroll::gaps_apart;
use crate::export::chat_join::{
    all_media, law_gaps_and_items_are_apart, law_kept_files_have_distinct_ids, parsed, reconciled, tokens_distinct, Reconciliation,
};
use crate::export::chat_media::{
    file_of, found, heads, is_stray, lemma_heads, lemma_leader_at, leaders, stray_layers, ChatMediaFile, Discovery,
};
use crate::export::model::{ChatHistory, UnreadableDir};
use crate::order::{lemma_filter_from, lemma_sorted_contains, sorted};
use crate::paths::FilePath;

verus! {

/// A source that could not be listed at all. The directory and the `source` are spelled as they
/// are shown.
#[derive(Debug, PartialEq, Eq)]
pub struct ChatScanError {
    pub dir: String,
    pub source: String,
}

impl ChatScanError {
    pub open spec fn words(self) -> Seq<char> {
        "could not list "@ + self.dir@ + " looking for the export's chat_media dirs: "@ + self.source@
            + "; point the source at the dir holding the extracted export parts"@
    }

    /// The sentence a reader is shown.
    #[must_use]
    pub fn message(&self) -> (r: String)
        ensures
            r@ == self.words(),
    {
        let mut out = "could not list ".to_owned();
        out.append(&self.dir);
        out.append(" looking for the export's chat_media dirs: ");
        out.append(&self.source);
        out.append("; point the source at the dir holding the extracted export parts");
        out
    }
}

/// Every file below the chat media directories of a source, and every directory that could not be
/// listed.
#[derive(Debug, PartialEq, Eq)]
pub struct Walked {
    pub paths: Vec<FilePath>,
    pub unreadable: Vec<UnreadableDir>,
}

pub open spec fn names_media() -> spec_fn(FilePath) -> bool {
    |path: FilePath| file_of(path@) is Some
}

pub open spec fn names_nothing() -> spec_fn(FilePath) -> bool {
    |path: FilePath| file_of(path@) is None
}

/// Whether files are the ones some paths name, in their order.
pub open spec fn read_off(files: Seq<ChatMediaFile>, paths: Seq<FilePath>) -> bool {
    let named = paths.filter(names_media());
    files.len() == named.len() && forall|i: int|
        0 <= i < files.len() ==> file_of(named[i]@) == Some((#[trigger] files[i])@)
}

/// What a walk comes to: the files whose names are those of chat media, and the rest set aside.
pub open spec fn discovered(r: Discovery, walked: Walked) -> bool {
    exists|files: Seq<ChatMediaFile>| #[trigger]
        found(r, files, walked.paths@.filter(names_nothing()), walked.unreadable@) && read_off(files, walked.paths@)
}

/// Sorts out what a walk came upon.
pub fn discover(walked: Walked) -> (r: Discovery)
    ensures
        discovered(r, walked),
{
    let ghost all = walked.paths@;
    let mut files: Vec<ChatMediaFile> = Vec::new();
    let mut unparsed: Vec<FilePath> = Vec::new();
    proof {
        reveal(Seq::filter);
        assert(all.take(0).filter(names_media()) =~= Seq::empty());
        assert(all.take(0).filter(names_nothing()) =~= Seq::empty());
    }
    for path in it: walked.paths
        invariant
            it.seq() == all,
            read_off(files@, all.take(it.index() as int)),
            unparsed@ == all.take(it.index() as int).filter(names_nothing()),
    {
        let ghost before = all.take(it.index() as int);
        proof {
            assert(all.take(it.index() + 1) =~= before.push(path));
            before.lemma_filter_push(path, names_media());
            before.lemma_filter_push(path, names_nothing());
        }
        match ChatMediaFile::parse(&path) {
            Some(file) => {
                files.push(file);
            },
            None => {
                unparsed.push(path);
            },
        }
    }
    assert(all.take(all.len() as int) =~= all);
    let ghost read = files@;
    let r = Discovery::from_walk(files, unparsed, walked.unreadable);
    assert(found(r, read, all.filter(names_nothing()), walked.unreadable@));
    r
}

/// A path's file is the one its own path names.
proof fn lemma_parsed(file: ChatMediaFile, path: FilePath)
    requires
        file_of(path@) == Some(file@),
    ensures
        parsed(file),
{
    assert(file_of(path@).unwrap().path == path@);
}

/// Everything a walk of an export's files comes to can be joined and enrolled: no two files answer
/// to one token, and whatever the history, no gap spells a file's id.
pub proof fn law_a_walk_can_be_joined(r: Discovery, walked: Walked)
    requires
        discovered(r, walked),
    ensures
        tokens_distinct(all_media(r)),
        forall|i: int| 0 <= i < all_media(r).len() ==> parsed((#[trigger] all_media(r)[i]).file),
        forall|joined: Reconciliation, history: ChatHistory| #[trigger] reconciled(joined, history, r) ==> gaps_apart(joined),
{
    let files = choose|files: Seq<ChatMediaFile>| #[trigger]
        found(r, files, walked.paths@.filter(names_nothing()), walked.unreadable@) && read_off(files, walked.paths@);
    let named = walked.paths@.filter(names_media());
    law_kept_files_have_distinct_ids(r, files, walked.paths@.filter(names_nothing()), walked.unreadable@);
    let s = sorted(files);
    let media = all_media(r);
    assert forall|i: int| 0 <= i < media.len() implies parsed((#[trigger] media[i]).file) by {
        let file = media[i].file;
        if i < r.media@.len() {
            assert(leaders(s)[i] == r.media@[i].file);
            let m = lemma_leader_at(s, i);
            assert(s.contains(file));
        } else {
            lemma_heads(s);
            lemma_filter_from(heads(s), is_stray(s));
            let at = i - r.media@.len();
            assert(stray_layers(s)[at] == file);
            assert(heads(s).contains(file));
            let k = choose|k: int| 0 <= k < heads(s).len() && heads(s)[k] == file;
            assert(s.contains(heads(s)[k]));
        }
        lemma_sorted_contains(files, file);
        let k = choose|k: int| 0 <= k < files.len() && files[k] == file;
        lemma_parsed(files[k], named[k]);
    }
    assert forall|joined: Reconciliation, history: ChatHistory| #[trigger] reconciled(joined, history, r) implies gaps_apart(joined) by {
        assert forall|gap: int, item: int|
            0 <= gap < joined.missing@.len() && 0 <= item < joined.items@.len() implies (#[trigger] joined.missing@[gap]).token@ != (
        #[trigger] joined.items@[item]).media.file.id@ by {
            law_gaps_and_items_are_apart(joined, history, r, gap, item);
        }
    }
}

/// A file a walk came upon is set aside exactly where its name is no chat media's, nothing else is,
/// and every directory that could not be listed is told.
pub proof fn law_a_walk_sorts_every_file(r: Discovery, walked: Walked)
    requires
        discovered(r, walked),
    ensures
        forall|i: int|
            0 <= i < walked.paths@.len() ==> (r.unparsed@.contains(#[trigger] walked.paths@[i]) <==> file_of(walked.paths@[i]@) is None),
        forall|i: int| 0 <= i < r.unparsed@.len() ==> walked.paths@.contains(#[trigger] r.unparsed@[i]),
        forall|i: int| 0 <= i < r.unreadable@.len() ==> walked.unreadable@.contains(#[trigger] r.unreadable@[i]),
        forall|i: int| 0 <= i < walked.unreadable@.len() ==> r.unreadable@.contains(#[trigger] walked.unreadable@[i]),
        r.unreadable@.len() == walked.unreadable@.len(),
{
    let files = choose|files: Seq<ChatMediaFile>| #[trigger]
        found(r, files, walked.paths@.filter(names_nothing()), walked.unreadable@) && read_off(files, walked.paths@);
    let paths = walked.paths@;
    let aside = paths.filter(names_nothing());
    lemma_filter_from(paths, names_nothing());
    crate::order::lemma_sorted(walked.unreadable@);
    assert forall|i: int| 0 <= i < paths.len() implies (r.unparsed@.contains(#[trigger] paths[i]) <==> file_of(paths[i]@) is None) by {
        lemma_sorted_contains(aside, paths[i]);
        if file_of(paths[i]@) is None {
            crate::order::lemma_filter_holds(paths, names_nothing(), i);
        }
        if aside.contains(paths[i]) {
            let k = choose|k: int| 0 <= k < aside.len() && aside[k] == paths[i];
            assert(names_nothing()(aside[k]));
        }
    }
    assert forall|i: int| 0 <= i < r.unparsed@.len() implies paths.contains(#[trigger] r.unparsed@[i]) by {
        lemma_sorted_contains(aside, r.unparsed@[i]);
        assert(sorted(aside).contains(r.unparsed@[i]));
        let k = choose|k: int| 0 <= k < aside.len() && aside[k] == r.unparsed@[i];
        assert(paths.contains(aside[k]));
    }
    assert forall|i: int| 0 <= i < r.unreadable@.len() implies walked.unreadable@.contains(#[trigger] r.unreadable@[i]) by {
        lemma_sorted_contains(walked.unreadable@, r.unreadable@[i]);
        assert(sorted(walked.unreadable@).contains(r.unreadable@[i]));
    }
    assert forall|i: int| 0 <= i < walked.unreadable@.len() implies r.unreadable@.contains(#[trigger] walked.unreadable@[i]) by {
        lemma_sorted_contains(walked.unreadable@, walked.unreadable@[i]);
    }
}

} // verus!
