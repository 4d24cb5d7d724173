//! The one spelling of the directory a run writes into, whatever links or steps the given one took.

use vstd::prelude::*;

use crate::paths::{copied, joined, parent_of, FilePath, PathView};
use crate::text::{lemma_views_push, same, views};

verus! {

/// Why the out root could not be resolved. The root is spelled as it was given.
#[derive(Debug, PartialEq, Eq)]
pub enum OutRootError {
    Absolute { root: String },
    Canonicalize { root: String, source: String },
}

/// The words of an [`OutRootError`].
pub open spec fn out_root_words(e: OutRootError) -> Seq<char> {
    match e {
        OutRootError::Absolute { root } => "the out root "@ + root@ + " cannot be made absolute; pass --out=<dir> naming a path this platform accepts"@,
        OutRootError::Canonicalize { root, source } => "the out root "@ + root@ + " could not be resolved against the filesystem ("@ + source@ + "); pass --out=<dir> whose existing part this run can resolve"@,
    }
}

impl OutRootError {
    /// The sentence a reader is shown.
    #[must_use]
    pub fn message(&self) -> (r: String)
        ensures
            r@ == out_root_words(*self),
    {
        match self {
            OutRootError::Absolute { root } => {
                let mut out = "the out root ".to_owned();
                out.append(root);
                out.append(" cannot be made absolute; pass --out=<dir> naming a path this platform accepts");
                out
            },
            OutRootError::Canonicalize { root, source } => {
                let mut out = "the out root ".to_owned();
                out.append(root);
                out.append(" could not be resolved against the filesystem (");
                out.append(source);
                out.append("); pass --out=<dir> whose existing part this run can resolve");
                out
            },
        }
    }
}

/// What a step above the existing part is answered with.
pub const ABOVE_EXISTING: &'static str = "a leading `..` resolves above the existing part of the out root";

/// The opening of a path, some parts long.
pub open spec fn opening(path: PathView, parts: int) -> PathView {
    PathView { rooted: path.rooted, parts: path.parts.take(parts) }
}

/// The path of no parts at all.
pub open spec fn no_path() -> PathView {
    PathView { rooted: false, parts: Seq::empty() }
}

/// The existing part followed by the rest, taken literally: a dot stays, two dots step up, and a
/// name steps down. Nothing where a step leads above the top.
pub open spec fn rebuilt(existing: PathView, rest: Seq<Seq<char>>) -> Option<PathView>
    decreases rest.len(),
{
    if rest.len() == 0 {
        Some(existing)
    } else {
        match rebuilt(existing, rest.drop_last()) {
            None => None,
            Some(path) => if rest.last() == "."@ {
                Some(path)
            } else if rest.last() == ".."@ {
                parent_of(path)
            } else {
                Some(joined(path, rest.last()))
            },
        }
    }
}

/// Whether the answer to whether a path is there can be this one.
pub open spec fn answered<T: Fn(&FilePath) -> bool>(there: T, path: PathView, answer: bool) -> bool {
    exists|asked: FilePath| asked@ == path && #[trigger] call_ensures(there, (&asked,), answer)
}

/// Whether `kept` parts of a path are the longest opening that was said to be there; a negative
/// count where not even its root was.
pub open spec fn longest_there<T: Fn(&FilePath) -> bool>(there: T, path: PathView, kept: int) -> bool {
    &&& -1 <= kept <= path.parts.len()
    &&& kept >= 0 ==> answered(there, opening(path, kept), true)
    &&& forall|more: int| kept < more <= path.parts.len() ==> answered(there, #[trigger] opening(path, more), false)
}

/// What resolving the longest opening that is there comes to.
pub open spec fn resolves<T: Fn(&FilePath) -> bool, C: Fn(&FilePath) -> Result<FilePath, String>>(
    there: T,
    canonicalize: C,
    shown: Seq<char>,
    path: PathView,
    kept: int,
    asked: FilePath,
    answer: Result<FilePath, String>,
    r: Result<FilePath, OutRootError>,
) -> bool {
    &&& longest_there(there, path, kept)
    &&& asked@ == (if kept < 0 {
        no_path()
    } else {
        opening(path, kept)
    })
    &&& call_ensures(canonicalize, (&asked,), answer)
    &&& match answer {
        Err(error) => r matches Err(OutRootError::Canonicalize { root, source }) && root@ == shown && source == error,
        Ok(existing) => match rebuilt(
            existing@,
            path.parts.skip(if kept < 0 {
                0
            } else {
                kept
            }),
        ) {
            Some(whole) => r matches Ok(root) && root@ == whole,
            None => r matches Err(OutRootError::Canonicalize { root, source }) && root@ == shown && source@ == ABOVE_EXISTING@,
        },
    }
}

fn rebuild(existing: FilePath, rest: &Vec<String>) -> (r: Option<FilePath>)
    ensures
        match r {
            Some(path) => rebuilt(existing@, views(rest@)) == Some(path@),
            None => rebuilt(existing@, views(rest@)) is None,
        },
{
    let ghost start = existing@;
    let ghost all = views(rest@);
    let mut path = existing;
    let mut i: usize = 0;
    assert(all.take(0) =~= Seq::empty());
    while i < rest.len()
        invariant
            i <= rest@.len(),
            all == views(rest@),
            start == existing@,
            rebuilt(start, all.take(i as int)) == Some(path@),
        decreases rest.len() - i,
    {
        let ghost now = all.take(i + 1);
        assert(now.drop_last() =~= all.take(i as int));
        assert(now.last() == rest@[i as int]@);
        if same(&rest[i], ".") {
        } else if same(&rest[i], "..") {
            match path.parent() {
                Some(parent) => {
                    path = parent;
                },
                None => {
                    proof {
                        lemma_stays_lost(start, all, i + 1);
                    }
                    return None;
                },
            }
        } else {
            path = path.join(&rest[i]);
        }
        i += 1;
    }
    assert(all.take(i as int) =~= all);
    Some(path)
}

proof fn lemma_stays_lost(existing: PathView, rest: Seq<Seq<char>>, at: int)
    requires
        0 <= at <= rest.len(),
        rebuilt(existing, rest.take(at)) is None,
    ensures
        rebuilt(existing, rest) is None,
    decreases rest.len(),
{
    if at < rest.len() {
        assert(rest.drop_last().take(at) =~= rest.take(at));
        lemma_stays_lost(existing, rest.drop_last(), at);
    } else {
        assert(rest.take(at) =~= rest);
    }
}

fn opened(path: &FilePath, parts: usize) -> (r: FilePath)
    requires
        parts <= path@.parts.len(),
    ensures
        r@ == opening(path@, parts as int),
{
    let r = FilePath { rooted: path.rooted, parts: copied(&path.parts, parts) };
    assert(r@.parts =~= path@.parts.take(parts as int));
    r
}

fn behind(path: &FilePath, parts: usize) -> (r: Vec<String>)
    requires
        parts <= path@.parts.len(),
    ensures
        views(r@) == path@.parts.skip(parts as int),
{
    let mut rest: Vec<String> = Vec::new();
    let mut i: usize = parts;
    while i < path.parts.len()
        invariant
            parts <= i <= path.parts@.len(),
            views(rest@) =~= path@.parts.subrange(parts as int, i as int),
        decreases path.parts.len() - i,
    {
        let part = path.parts[i].clone();
        proof {
            lemma_views_push(rest@, part);
            assert(path@.parts.subrange(parts as int, i + 1) =~= path@.parts.subrange(parts as int, i as int).push(
                path@.parts[i as int],
            ));
        }
        rest.push(part);
        i += 1;
    }
    assert(views(rest@) =~= path@.parts.skip(parts as int));
    rest
}

/// The one spelling of a directory that may not be there yet: its longest opening that is there,
/// resolved, and the rest behind it. `absolute` is the root made absolute, where that could be done.
pub fn canonical_out_root<T: Fn(&FilePath) -> bool, C: Fn(&FilePath) -> Result<FilePath, String>>(
    shown: &str,
    absolute: Option<FilePath>,
    there: T,
    canonicalize: C,
) -> (r: Result<FilePath, OutRootError>)
    requires
        forall|asked: FilePath| #[trigger] call_requires(there, (&asked,)),
        forall|asked: FilePath| #[trigger] call_requires(canonicalize, (&asked,)),
    ensures
        match absolute {
            None => r matches Err(OutRootError::Absolute { root }) && root@ == shown@,
            Some(path) => exists|kept: int, asked: FilePath, answer: Result<FilePath, String>| #[trigger]
                resolves(there, canonicalize, shown@, path@, kept, asked, answer, r),
        },
{
    let path = match absolute {
        Some(path) => path,
        None => {
            return Err(OutRootError::Absolute { root: shown.to_owned() });
        },
    };
    let len: usize = path.parts.len();
    let mut kept: usize = len;
    let mut found = false;
    loop
        invariant_except_break
            !found,
        invariant
            kept <= len,
            len == path@.parts.len(),
            forall|asked: FilePath| #[trigger] call_requires(there, (&asked,)),
            forall|more: int| kept < more <= len ==> answered(there, #[trigger] opening(path@, more), false),
        ensures
            kept <= len,
            longest_there(
                there,
                path@,
                if found {
                    kept as int
                } else {
                    -1int
                },
            ),
            !found ==> kept == 0,
        decreases kept,
    {
        let prefix = opened(&path, kept);
        if there(&prefix) {
            assert(answered(there, opening(path@, kept as int), true));
            found = true;
            break;
        }
        assert(answered(there, opening(path@, kept as int), false));
        if kept == 0 {
            break;
        }
        kept -= 1;
    }
    let ghost most = if found {
        kept as int
    } else {
        -1int
    };
    let asked = if found {
        opened(&path, kept)
    } else {
        FilePath { rooted: false, parts: Vec::new() }
    };
    assert(!found ==> asked@.parts =~= Seq::empty());
    let answer = canonicalize(&asked);
    let ghost answer_was = answer;
    match answer {
        Err(source) => {
            let r = Err(OutRootError::Canonicalize { root: shown.to_owned(), source });
            assert(resolves(there, canonicalize, shown@, path@, most, asked, answer_was, r));
            r
        },
        Ok(existing) => {
            let rest = behind(&path, kept);
            match rebuild(existing, &rest) {
                Some(root) => {
                    let r = Ok(root);
                    assert(resolves(there, canonicalize, shown@, path@, most, asked, answer_was, r));
                    r
                },
                None => {
                    let r = Err(OutRootError::Canonicalize { root: shown.to_owned(), source: ABOVE_EXISTING.to_owned() });
                    assert(resolves(there, canonicalize, shown@, path@, most, asked, answer_was, r));
                    r
                },
            }
        },
    }
}

/// A root that is there in full is what it resolves to, and one whose rest only steps down is the
/// resolved opening with the rest below it.
pub proof fn law_plain_names_step_down(existing: PathView, rest: Seq<Seq<char>>)
    requires
        forall|i: int| 0 <= i < rest.len() ==> (#[trigger] rest[i]) != "."@ && rest[i] != ".."@,
    ensures
        rebuilt(existing, rest) == Some(PathView { rooted: existing.rooted, parts: existing.parts + rest }),
    decreases rest.len(),
{
    if rest.len() == 0 {
        assert(existing.parts + rest =~= existing.parts);
    } else {
        let less = rest.drop_last();
        assert forall|i: int| 0 <= i < less.len() implies (#[trigger] less[i]) != "."@ && less[i] != ".."@ by {
            assert(rest[i] == less[i]);
        }
        law_plain_names_step_down(existing, less);
        assert(rest[rest.len() - 1] == rest.last());
        assert((existing.parts + less).push(rest.last()) =~= existing.parts + rest);
    }
}

/// A dot in the part that is not there stays where it is, and two dots step up, or nowhere where
/// there is nothing above.
pub proof fn law_dots_are_taken_literally(existing: PathView, rest: Seq<Seq<char>>)
    ensures
        rebuilt(existing, rest.push("."@)) == rebuilt(existing, rest),
        rebuilt(existing, rest) matches Some(path) ==> if path.parts.len() == 0 {
            rebuilt(existing, rest.push(".."@)) is None
        } else {
            rebuilt(existing, rest.push(".."@)) == Some(PathView { rooted: path.rooted, parts: path.parts.drop_last() })
        },
        rebuilt(existing, rest) is None ==> rebuilt(existing, rest.push(".."@)) is None,
        rebuilt(existing, Seq::empty()) == Some(existing),
{
    reveal_strlit(".");
    reveal_strlit("..");
    assert("."@.len() == 1 && ".."@.len() == 2);
    assert(rest.push("."@).drop_last() =~= rest);
    assert(rest.push(".."@).drop_last() =~= rest);
}

} // verus!
