//! What the machine offers: the tools on its search path, and the room on its disks.

use vstd::prelude::*;

use crate::paths::{parent_of, FilePath, PathView};

verus! {

/// A program a run may hand work to.
#[derive(Debug, Clone, Copy, PartialEq, Eq, Hash, Structural)]
pub enum Tool {
    Ffmpeg,
    Vlc,
}

impl Tool {
    pub const ALL: [Tool; 2] = [Tool::Ffmpeg, Tool::Vlc];

    pub open spec fn name(self) -> Seq<char> {
        match self {
            Tool::Ffmpeg => "ffmpeg"@,
            Tool::Vlc => "vlc"@,
        }
    }

    /// The name it is looked up by.
    #[must_use]
    pub fn command(self) -> (r: &'static str)
        ensures
            r@ == self.name(),
    {
        match self {
            Tool::Ffmpeg => "ffmpeg",
            Tool::Vlc => "vlc",
        }
    }
}

/// A disk whose room could not be measured. The path and the `source` are spelled as they are shown.
#[derive(Debug, PartialEq, Eq)]
pub struct SpaceError {
    pub path: String,
    pub source: String,
}

impl SpaceError {
    pub open spec fn words(self) -> Seq<char> {
        "could not measure free space on the filesystem holding "@ + self.path@ + ": "@ + self.source@
            + "; check the path exists and is readable"@
    }

    /// The sentence a reader is shown.
    #[must_use]
    pub fn message(&self) -> (r: String)
        ensures
            r@ == self.words(),
    {
        let mut out = "could not measure free space on the filesystem holding ".to_owned();
        out.append(&self.path);
        out.append(": ");
        out.append(&self.source);
        out.append("; check the path exists and is readable");
        out
    }
}

/// What was found on the machine; nothing where it was not found or could not be measured.
#[derive(Debug, PartialEq, Eq)]
pub struct Environment {
    pub ffmpeg: Option<FilePath>,
    pub vlc: Option<FilePath>,
    pub available_space: Option<u64>,
    pub total_space: Option<u64>,
}

#[verifier::ext_equal]
pub struct EnvironmentView {
    pub ffmpeg: Option<PathView>,
    pub vlc: Option<PathView>,
    pub available_space: Option<u64>,
    pub total_space: Option<u64>,
}

pub open spec fn opt_path(path: Option<FilePath>) -> Option<PathView> {
    match path {
        Some(path) => Some(path@),
        None => None,
    }
}

/// A copy of a path that may not be there.
pub fn copied_path(path: &Option<FilePath>) -> (r: Option<FilePath>)
    ensures
        opt_path(r) == opt_path(*path),
{
    match path {
        Some(path) => Some(path.clone()),
        None => None,
    }
}

impl View for Environment {
    type V = EnvironmentView;

    open spec fn view(&self) -> EnvironmentView {
        EnvironmentView {
            ffmpeg: opt_path(self.ffmpeg),
            vlc: opt_path(self.vlc),
            available_space: self.available_space,
            total_space: self.total_space,
        }
    }
}

impl Clone for Environment {
    fn clone(&self) -> (r: Self)
        ensures
            r@ == self@,
    {
        Environment {
            ffmpeg: copied_path(&self.ffmpeg),
            vlc: copied_path(&self.vlc),
            available_space: self.available_space,
            total_space: self.total_space,
        }
    }
}

/// What measuring a disk came to.
#[derive(Debug, Clone, Copy, PartialEq, Eq, Structural)]
pub struct Room {
    pub available: Option<u64>,
    pub total: Option<u64>,
}

impl Default for Environment {
    fn default() -> (r: Self)
        ensures
            r == (Environment { ffmpeg: None, vlc: None, available_space: None, total_space: None }),
    {
        Environment { ffmpeg: None, vlc: None, available_space: None, total_space: None }
    }
}

impl Environment {
    /// What looking each tool up, and measuring the disk, came to.
    pub fn from_probes<F: Fn(Tool) -> Option<FilePath>>(locate: F, available_space: Option<u64>, total_space: Option<u64>) -> (r: Self)
        requires
            forall|tool: Tool| #[trigger] call_requires(locate, (tool,)),
        ensures
            call_ensures(locate, (Tool::Ffmpeg,), r.ffmpeg),
            call_ensures(locate, (Tool::Vlc,), r.vlc),
            r.available_space == available_space,
            r.total_space == total_space,
    {
        let ffmpeg = locate(Tool::Ffmpeg);
        let vlc = locate(Tool::Vlc);
        Environment { ffmpeg, vlc, available_space, total_space }
    }

    /// The same tools beside another disk's room.
    #[must_use]
    pub fn measured_at(&self, room: Room) -> (r: Self)
        ensures
            r@ == (EnvironmentView { available_space: room.available, total_space: room.total, ..self@ }),
    {
        Environment {
            ffmpeg: copied_path(&self.ffmpeg),
            vlc: copied_path(&self.vlc),
            available_space: room.available,
            total_space: room.total,
        }
    }

    pub open spec fn held(self, tool: Tool) -> Option<FilePath> {
        match tool {
            Tool::Ffmpeg => self.ffmpeg,
            Tool::Vlc => self.vlc,
        }
    }

    /// Where a tool is, where it was found.
    #[must_use]
    pub fn tool(&self, tool: Tool) -> (r: Option<&FilePath>)
        ensures
            match r {
                Some(path) => self.held(tool) == Some(*path),
                None => self.held(tool) is None,
            },
    {
        match tool {
            Tool::Ffmpeg => self.ffmpeg.as_ref(),
            Tool::Vlc => self.vlc.as_ref(),
        }
    }
}

// ---- where to measure ----

/// The path some steps up.
pub open spec fn ancestor(path: PathView, up: nat) -> Option<PathView>
    decreases up,
{
    if up == 0 {
        Some(path)
    } else {
        match ancestor(path, (up - 1) as nat) {
            Some(below) => parent_of(below),
            None => None,
        }
    }
}

/// Whether there is no directory above to look at: the root, or the bare start of a relative path.
pub open spec fn is_top(path: PathView) -> bool {
    match parent_of(path) {
        Some(parent) => !parent.rooted && parent.parts.len() == 0,
        None => true,
    }
}

/// Whether the answer to whether a path is there can be this one.
pub open spec fn answered<F: Fn(&FilePath) -> bool>(there: F, path: PathView, answer: bool) -> bool {
    exists|asked: FilePath| asked@ == path && #[trigger] call_ensures(there, (&asked,), answer)
}

/// Whether every path below `up` steps was said not to be there.
pub open spec fn none_below<F: Fn(&FilePath) -> bool>(there: F, path: PathView, up: nat) -> bool {
    forall|j: nat| j < up ==> (#[trigger] ancestor(path, j)) is Some && answered(there, ancestor(path, j).unwrap(), false)
}

/// The nearest of a path and its directories that is there, so that a disk can be measured before
/// the directory meant for it is made; the topmost where none is.
#[must_use]
pub fn probe_target<F: Fn(&FilePath) -> bool>(path: &FilePath, there: F) -> (r: FilePath)
    requires
        forall|asked: FilePath| #[trigger] call_requires(there, (&asked,)),
    ensures
        exists|up: nat| #[trigger]
            ancestor(path@, up) == Some(r@) && none_below(there, path@, up) && (answered(there, r@, true) || (is_top(r@) && answered(
                there,
                r@,
                false,
            ))),
{
    let mut candidate = path.clone();
    let ghost mut up: nat = 0;
    loop
        invariant
            ancestor(path@, up) == Some(candidate@),
            none_below(there, path@, up),
            forall|asked: FilePath| #[trigger] call_requires(there, (&asked,)),
        ensures
            ancestor(path@, up) == Some(candidate@),
            none_below(there, path@, up),
            answered(there, candidate@, true) || (is_top(candidate@) && answered(there, candidate@, false)),
        decreases candidate@.parts.len(),
    {
        if there(&candidate) {
            assert(answered(there, candidate@, true));
            break;
        }
        assert(answered(there, candidate@, false));
        match candidate.parent() {
            Some(parent) => {
                if !parent.rooted && parent.parts.len() == 0 {
                    break;
                }
                proof {
                    assert forall|j: nat| j < up + 1 implies (#[trigger] ancestor(path@, j)) is Some && answered(
                        there,
                        ancestor(path@, j).unwrap(),
                        false,
                    ) by {}
                    up = up + 1;
                }
                candidate = parent;
            },
            None => {
                break;
            },
        }
    }
    candidate
}

/// Some steps up from a path is the path without so many of its last names, for as long as it has
/// them.
pub proof fn law_an_ancestor_lacks_the_last_names(path: PathView, up: nat)
    ensures
        up <= path.parts.len() ==> ancestor(path, up) == Some(
            PathView { rooted: path.rooted, parts: path.parts.take(path.parts.len() - up) },
        ),
        up > path.parts.len() ==> ancestor(path, up) is None,
    decreases up,
{
    if up == 0 {
        assert(path.parts.take(path.parts.len() as int) =~= path.parts);
    } else {
        law_an_ancestor_lacks_the_last_names(path, (up - 1) as nat);
        if up <= path.parts.len() {
            assert(path.parts.take(path.parts.len() - up + 1).drop_last() =~= path.parts.take(path.parts.len() - up));
        }
    }
}

} // verus!
