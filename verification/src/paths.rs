//! Paths as the components they name.
//!
//! A path is a list of names, rooted or not, so two spellings of one path are one value and the
//! order of paths is the order of their components. No name a system has holds a null character:
//! where one does here, it stands for what is not text in a name the system holds as bytes.

use vstd::prelude::*;

use crate::order::{
    lemma_text_le_total, lemma_text_le_transitive, text_le, text_not_after, Ranked,
};
use crate::text::{chars_of, fold, folded, join2, join3, lemma_views_push, pieces, pieces_text, same, views};

verus! {

/// What a path names: whether it starts at the root, and the components below.
#[verifier::ext_equal]
pub struct PathView {
    pub rooted: bool,
    pub parts: Seq<Seq<char>>,
}

/// A path, component by component.
#[derive(Debug, PartialEq, Eq)]
pub struct FilePath {
    pub rooted: bool,
    pub parts: Vec<String>,
}

impl View for FilePath {
    type V = PathView;

    open spec fn view(&self) -> PathView {
        PathView { rooted: self.rooted, parts: views(self.parts@) }
    }
}

// ---- spelling ----

/// The components a text spells between its slashes: empty ones name nothing, and a dot names
/// nothing unless it opens a relative path.
pub open spec fn named_parts(cut: Seq<Seq<char>>, rooted: bool) -> Seq<Seq<char>>
    decreases cut.len(),
{
    if cut.len() == 0 {
        cut
    } else {
        let before = named_parts(cut.drop_last(), rooted);
        let part = cut.last();
        if part.len() == 0 || (part == seq!['.'] && (rooted || cut.len() > 1)) {
            before
        } else {
            before.push(part)
        }
    }
}

/// The path a text spells.
pub open spec fn path_of(text: Seq<char>) -> PathView {
    let rooted = text.len() > 0 && text[0] == '/';
    PathView { rooted, parts: named_parts(pieces(text, '/'), rooted) }
}

/// Names with a slash between each two.
pub open spec fn slashed(parts: Seq<Seq<char>>) -> Seq<char>
    decreases parts.len(),
{
    if parts.len() == 0 {
        seq![]
    } else if parts.len() == 1 {
        parts[0]
    } else {
        slashed(parts.drop_last()) + seq!['/'] + parts.last()
    }
}

/// The text that spells a path.
pub open spec fn path_text(path: PathView) -> Seq<char> {
    if path.rooted {
        seq!['/'] + slashed(path.parts)
    } else {
        slashed(path.parts)
    }
}

// ---- structure ----

pub open spec fn joined(dir: PathView, name: Seq<char>) -> PathView {
    PathView { rooted: dir.rooted, parts: dir.parts.push(name) }
}

pub open spec fn parent_of(path: PathView) -> Option<PathView> {
    if path.parts.len() == 0 {
        None
    } else {
        Some(PathView { rooted: path.rooted, parts: path.parts.drop_last() })
    }
}

pub open spec fn is_step(name: Seq<char>) -> bool {
    name == seq!['.'] || name == seq!['.', '.']
}

/// The last component, where it is a name rather than a step.
pub open spec fn file_name_of(path: PathView) -> Option<Seq<char>> {
    if path.parts.len() == 0 || is_step(path.parts.last()) {
        None
    } else {
        Some(path.parts.last())
    }
}

/// Whether a name is text.
pub open spec fn is_text(name: Seq<char>) -> bool {
    !name.contains('\0')
}

/// Whether every name of a path is text.
pub open spec fn is_all_text(path: PathView) -> bool {
    forall|i: int| 0 <= i < path.parts.len() ==> is_text(#[trigger] path.parts[i])
}

/// Whether `root`'s components open `path`'s.
pub open spec fn lies_under(root: PathView, path: PathView) -> bool {
    if root.rooted == path.rooted {
        root.parts.len() <= path.parts.len() && path.parts.take(root.parts.len() as int) == root.parts
    } else {
        !root.rooted && root.parts.len() == 0
    }
}

// ---- order ----

/// Steps come before names, a step in place before a step up.
pub open spec fn name_rank(name: Seq<char>) -> int {
    if name == seq!['.'] {
        0
    } else if name == seq!['.', '.'] {
        1
    } else {
        2
    }
}

pub open spec fn name_le(a: Seq<char>, b: Seq<char>) -> bool {
    name_rank(a) < name_rank(b) || (name_rank(a) == name_rank(b) && text_le(a, b))
}

pub open spec fn parts_le(a: Seq<Seq<char>>, b: Seq<Seq<char>>) -> bool
    decreases a.len(),
{
    if a.len() == 0 {
        true
    } else if b.len() == 0 {
        false
    } else if a[0] == b[0] {
        parts_le(a.drop_first(), b.drop_first())
    } else {
        name_le(a[0], b[0])
    }
}

/// The order of paths: component by component, the root before every name.
pub open spec fn path_le(a: PathView, b: PathView) -> bool {
    if a.rooted == b.rooted {
        parts_le(a.parts, b.parts)
    } else if a.rooted {
        b.parts.len() > 0
    } else {
        a.parts.len() == 0
    }
}

pub proof fn lemma_parts_le_total(a: Seq<Seq<char>>, b: Seq<Seq<char>>)
    ensures
        parts_le(a, b) || parts_le(b, a),
    decreases a.len(),
{
    if a.len() != 0 && b.len() != 0 {
        if a[0] == b[0] {
            lemma_parts_le_total(a.drop_first(), b.drop_first());
        } else {
            lemma_text_le_total(a[0], b[0]);
        }
    }
}

proof fn lemma_name_le_antisymmetric(a: Seq<char>, b: Seq<char>)
    requires
        name_le(a, b),
        name_le(b, a),
    ensures
        a == b,
{
    crate::order::lemma_text_le_antisymmetric(a, b);
}

proof fn lemma_name_le_transitive(a: Seq<char>, b: Seq<char>, c: Seq<char>)
    requires
        name_le(a, b),
        name_le(b, c),
    ensures
        name_le(a, c),
{
    if name_rank(a) == name_rank(b) && name_rank(b) == name_rank(c) {
        lemma_text_le_transitive(a, b, c);
    }
}

pub proof fn lemma_parts_le_transitive(a: Seq<Seq<char>>, b: Seq<Seq<char>>, c: Seq<Seq<char>>)
    requires
        parts_le(a, b),
        parts_le(b, c),
    ensures
        parts_le(a, c),
    decreases a.len(),
{
    if a.len() != 0 && b.len() != 0 && c.len() != 0 {
        if a[0] == b[0] && b[0] == c[0] {
            lemma_parts_le_transitive(a.drop_first(), b.drop_first(), c.drop_first());
        } else if a[0] != b[0] && b[0] != c[0] {
            lemma_name_le_transitive(a[0], b[0], c[0]);
            if a[0] == c[0] {
                lemma_name_le_antisymmetric(a[0], b[0]);
            }
        }
    }
}

proof fn lemma_parts_le_antisymmetric(a: Seq<Seq<char>>, b: Seq<Seq<char>>)
    requires
        parts_le(a, b),
        parts_le(b, a),
    ensures
        a == b,
    decreases a.len(),
{
    if a.len() == 0 || b.len() == 0 {
        assert(a =~= b);
    } else {
        if a[0] != b[0] {
            lemma_name_le_antisymmetric(a[0], b[0]);
        }
        lemma_parts_le_antisymmetric(a.drop_first(), b.drop_first());
        assert(a =~= seq![a[0]] + a.drop_first());
        assert(b =~= seq![b[0]] + b.drop_first());
    }
}

/// Paths that come no later than each other are one path.
pub proof fn lemma_path_le_antisymmetric(a: PathView, b: PathView)
    requires
        path_le(a, b),
        path_le(b, a),
    ensures
        a == b,
{
    if a.rooted == b.rooted {
        lemma_parts_le_antisymmetric(a.parts, b.parts);
    }
}

impl Ranked for FilePath {
    open spec fn le(self, other: Self) -> bool {
        path_le(self@, other@)
    }

    proof fn total(a: Self, b: Self) {
        lemma_parts_le_total(a@.parts, b@.parts);
    }

    proof fn transitive(a: Self, b: Self, c: Self) {
        if a.rooted == b.rooted && b.rooted == c.rooted {
            lemma_parts_le_transitive(a@.parts, b@.parts, c@.parts);
        }
    }

    fn not_after(&self, other: &Self) -> (r: bool) {
        if self.rooted != other.rooted {
            if self.rooted {
                return other.parts.len() > 0;
            }
            return self.parts.len() == 0;
        }
        let mut i: usize = 0;
        assert(self@.parts.skip(0) =~= self@.parts);
        assert(other@.parts.skip(0) =~= other@.parts);
        loop
            invariant
                self.rooted == other.rooted,
                i <= self.parts@.len(),
                i <= other.parts@.len(),
                parts_le(self@.parts, other@.parts) == parts_le(
                    self@.parts.skip(i as int),
                    other@.parts.skip(i as int),
                ),
            decreases self.parts@.len() - i,
        {
            let ghost a = self@.parts.skip(i as int);
            let ghost b = other@.parts.skip(i as int);
            if i >= self.parts.len() {
                return true;
            }
            if i >= other.parts.len() {
                return false;
            }
            assert(a[0] == self.parts@[i as int]@);
            assert(b[0] == other.parts@[i as int]@);
            if self.parts[i] != other.parts[i] {
                return name_not_after(&self.parts[i], &other.parts[i]);
            }
            assert(a.drop_first() =~= self@.parts.skip(i + 1));
            assert(b.drop_first() =~= other@.parts.skip(i + 1));
            i += 1;
        }
    }
}

fn rank_of(name: &str) -> (r: u8)
    ensures
        r == name_rank(name@),
{
    proof {
        reveal_strlit(".");
        reveal_strlit("..");
        assert("."@ =~= seq!['.']);
        assert(".."@ =~= seq!['.', '.']);
    }
    if same(name, ".") {
        0
    } else if same(name, "..") {
        1
    } else {
        2
    }
}

fn name_not_after(a: &str, b: &str) -> (r: bool)
    ensures
        r == name_le(a@, b@),
{
    let x: u8 = rank_of(a);
    let y: u8 = rank_of(b);
    x < y || (x == y && text_not_after(a, b))
}

/// A list of texts, copied.
pub fn copied(names: &Vec<String>, count: usize) -> (r: Vec<String>)
    requires
        count <= names@.len(),
    ensures
        r@ == names@.take(count as int),
{
    let mut out: Vec<String> = Vec::new();
    let mut i: usize = 0;
    while i < count
        invariant
            i <= count <= names@.len(),
            out@ == names@.take(i as int),
        decreases count - i,
    {
        out.push(names[i].clone());
        i += 1;
        assert(names@.take(i as int) =~= names@.take(i - 1).push(names@[i - 1]));
    }
    out
}

impl Clone for FilePath {
    fn clone(&self) -> (r: Self)
        ensures
            r@ == self@,
    {
        let parts = copied(&self.parts, self.parts.len());
        assert(self.parts@.take(self.parts@.len() as int) =~= self.parts@);
        FilePath { rooted: self.rooted, parts }
    }
}

impl FilePath {
    /// The path a text spells.
    pub fn new(text: &str) -> (r: Self)
        ensures
            r@ == path_of(text@),
    {
        let chars = chars_of(text);
        let rooted = chars.len() > 0 && chars[0] == '/';
        let cut = pieces_text(text, '/');
        let mut parts: Vec<String> = Vec::new();
        let mut i: usize = 0;
        proof {
            reveal_strlit(".");
            assert("."@ =~= seq!['.']);
        }
        while i < cut.len()
            invariant
                i <= cut@.len(),
                "."@ == seq!['.'],
                views(parts@) == named_parts(views(cut@).take(i as int), rooted),
            decreases cut.len() - i,
        {
            let ghost seen = views(cut@).take(i + 1);
            assert(seen.drop_last() =~= views(cut@).take(i as int));
            assert(seen.last() == cut@[i as int]@);
            let empty = cut[i].as_str().is_empty();
            if !(empty || (same(&cut[i], ".") && (rooted || i > 0))) {
                proof {
                    lemma_views_push(parts@, cut@[i as int]);
                }
                parts.push(cut[i].clone());
            }
            i += 1;
        }
        assert(views(cut@).take(i as int) =~= views(cut@));
        FilePath { rooted, parts }
    }

    /// The text that spells this path.
    pub fn text(&self) -> (r: String)
        ensures
            r@ == path_text(self@),
    {
        proof {
            reveal_strlit("/");
            assert("/"@ =~= seq!['/']);
        }
        let mut out = String::new();
        let mut i: usize = 0;
        assert(out@ =~= seq![]);
        while i < self.parts.len()
            invariant
                "/"@ == seq!['/'],
                i <= self.parts@.len(),
                out@ == slashed(self@.parts.take(i as int)),
            decreases self.parts.len() - i,
        {
            let ghost seen = self@.parts.take(i + 1);
            assert(seen.drop_last() =~= self@.parts.take(i as int));
            assert(seen.last() == self.parts@[i as int]@);
            out = if i == 0 {
                self.parts[i].clone()
            } else {
                join3(&out, "/", &self.parts[i])
            };
            i += 1;
        }
        assert(self@.parts.take(i as int) =~= self@.parts);
        if self.rooted {
            join2("/", &out)
        } else {
            out
        }
    }

    /// This path with one more component below it.
    pub fn join(&self, name: &str) -> (r: Self)
        ensures
            r@ == joined(self@, name@),
    {
        let mut parts = copied(&self.parts, self.parts.len());
        assert(self.parts@.take(self.parts@.len() as int) =~= self.parts@);
        let owned = name.to_owned();
        proof {
            lemma_views_push(parts@, owned);
        }
        parts.push(owned);
        FilePath { rooted: self.rooted, parts }
    }

    pub fn parent(&self) -> (r: Option<Self>)
        ensures
            r is Some <==> parent_of(self@) is Some,
            r matches Some(dir) ==> parent_of(self@) == Some(dir@),
    {
        if self.parts.len() == 0 {
            return None;
        }
        let parts = copied(&self.parts, self.parts.len() - 1);
        let r = FilePath { rooted: self.rooted, parts };
        assert(r@.parts =~= self@.parts.drop_last());
        Some(r)
    }

    pub fn file_name(&self) -> (r: Option<&String>)
        ensures
            r is Some <==> file_name_of(self@) is Some,
            r matches Some(name) ==> file_name_of(self@) == Some(name@),
    {
        if self.parts.len() == 0 {
            return None;
        }
        let last = &self.parts[self.parts.len() - 1];
        assert(self@.parts.last() == last@);
        let rank: u8 = rank_of(last);
        if rank < 2 {
            None
        } else {
            Some(last)
        }
    }

    /// Whether every name of this path is text.
    #[must_use]
    pub fn is_text(&self) -> (r: bool)
        ensures
            r == is_all_text(self@),
    {
        let mut i: usize = 0;
        while i < self.parts.len()
            invariant
                i <= self.parts@.len(),
                forall|j: int| 0 <= j < i ==> is_text(#[trigger] self@.parts[j]),
            decreases self.parts.len() - i,
        {
            if !name_is_text(&self.parts[i]) {
                assert(!is_text(self@.parts[i as int]));
                return false;
            }
            assert(is_text(self@.parts[i as int]));
            i += 1;
        }
        true
    }

    pub fn same_as(&self, other: &Self) -> (r: bool)
        ensures
            r == (self@ == other@),
    {
        if self.rooted != other.rooted || self.parts.len() != other.parts.len() {
            assert(self@.parts.len() == self.parts@.len());
            assert(other@.parts.len() == other.parts@.len());
            return false;
        }
        let opens = opens_alike(&self.parts, &other.parts, self.parts.len());
        assert(self@.parts.take(self.parts@.len() as int) =~= self@.parts);
        assert(other@.parts.take(self.parts@.len() as int) =~= other@.parts);
        opens
    }

    /// Whether this path lies at or below `root`.
    pub fn starts_with(&self, root: &Self) -> (r: bool)
        ensures
            r == lies_under(root@, self@),
    {
        assert(self@.parts.len() == self.parts@.len());
        assert(root@.parts.len() == root.parts@.len());
        if self.rooted != root.rooted {
            return !root.rooted && root.parts.len() == 0;
        }
        if root.parts.len() > self.parts.len() {
            return false;
        }
        let opens = opens_alike(&self.parts, &root.parts, root.parts.len());
        assert(root@.parts.take(root.parts@.len() as int) =~= root@.parts);
        opens
    }

    /// The text of this path with its ascii capitals lowered, which is what a filesystem that
    /// folds case tells paths apart by.
    pub fn folded_text(&self) -> (r: String)
        ensures
            r@ == fold(path_text(self@)),
    {
        folded(&self.text())
    }
}

/// Whether a name is text.
#[must_use]
pub fn name_is_text(name: &str) -> (r: bool)
    ensures
        r == is_text(name@),
{
    let chars = chars_of(name);
    let mut i: usize = 0;
    while i < chars.len()
        invariant
            i <= chars@.len(),
            chars@ == name@,
            forall|j: int| 0 <= j < i ==> name@[j] != '\0',
        decreases chars.len() - i,
    {
        if chars[i] == '\0' {
            assert(name@[i as int] == '\0');
            return false;
        }
        i += 1;
    }
    true
}

fn opens_alike(a: &Vec<String>, b: &Vec<String>, count: usize) -> (r: bool)
    requires
        count <= a@.len(),
        count <= b@.len(),
    ensures
        r == (views(a@).take(count as int) == views(b@).take(count as int)),
{
    let mut i: usize = 0;
    while i < count
        invariant
            i <= count <= a@.len(),
            count <= b@.len(),
            forall|j: int| 0 <= j < i ==> a@[j]@ == b@[j]@,
        decreases count - i,
    {
        if a[i] != b[i] {
            assert(views(a@).take(count as int)[i as int] == a@[i as int]@);
            assert(views(b@).take(count as int)[i as int] == b@[i as int]@);
            return false;
        }
        i += 1;
    }
    assert(views(a@).take(count as int) =~= views(b@).take(count as int));
    true
}

/// A path as the platform gave it: how it is shown, whether it starts at the root, and whether
/// what is shown is the whole of it.
#[derive(Debug, Clone, PartialEq, Eq)]
pub struct NativePath {
    pub shown: String,
    pub absolute: bool,
    /// Whether the path is valid utf-8, and `shown` therefore its text.
    pub utf8: bool,
}

// ---- laws ----

/// Whether a name stands for itself in a path that is spelled out.
pub open spec fn is_plain_name(name: Seq<char>) -> bool {
    name.len() > 0 && !name.contains('/') && name != seq!['.']
}

proof fn lemma_slashed_first(parts: Seq<Seq<char>>)
    requires
        parts.len() > 1,
    ensures
        slashed(parts) == parts[0] + seq!['/'] + slashed(parts.drop_first()),
    decreases parts.len(),
{
    let rest = parts.drop_first();
    if parts.len() == 2 {
        assert(parts.drop_last().len() == 1);
        assert(slashed(parts.drop_last()) == parts[0]);
        assert(slashed(rest) == parts[1]);
    } else {
        lemma_slashed_first(parts.drop_last());
        assert(parts.drop_last().drop_first() =~= rest.drop_last());
        assert(slashed(rest) == slashed(rest.drop_last()) + seq!['/'] + rest.last());
        assert(slashed(parts) =~= parts[0] + seq!['/'] + slashed(rest));
    }
}

proof fn lemma_pieces_first(left: Seq<char>, right: Seq<char>)
    requires
        !left.contains('/'),
    ensures
        pieces(left, '/') == seq![left],
        pieces(left + seq!['/'] + right, '/') == seq![left] + pieces(right, '/'),
{
    let all = left + seq!['/'] + right;
    assert forall|i: int| 0 <= i < left.len() implies left[i] != '/' by {
        assert(left.contains(left[i]));
    }
    crate::text::lemma_first_at_is(left, '/', left.len() as int);
    crate::text::lemma_first_at_is(all, '/', left.len() as int);
    assert(all.take(left.len() as int) =~= left);
    assert(all.skip(left.len() as int + 1) =~= right);
}

proof fn lemma_pieces_slashed(parts: Seq<Seq<char>>)
    requires
        parts.len() > 0,
        forall|i: int| 0 <= i < parts.len() ==> is_plain_name(#[trigger] parts[i]),
    ensures
        pieces(slashed(parts), '/') == parts,
    decreases parts.len(),
{
    assert(is_plain_name(parts[0]));
    if parts.len() == 1 {
        lemma_pieces_first(parts[0], seq![]);
        assert(seq![parts[0]] =~= parts);
    } else {
        let rest = parts.drop_first();
        assert forall|i: int| 0 <= i < rest.len() implies is_plain_name(#[trigger] rest[i]) by {
            assert(rest[i] == parts[i + 1]);
        }
        lemma_slashed_first(parts);
        lemma_pieces_first(parts[0], slashed(rest));
        lemma_pieces_slashed(rest);
        assert(seq![parts[0]] + rest =~= parts);
    }
}

proof fn lemma_named_plain(lead: Seq<Seq<char>>, parts: Seq<Seq<char>>, rooted: bool)
    requires
        lead.len() == 0 || (lead.len() == 1 && lead[0].len() == 0),
        forall|i: int| 0 <= i < parts.len() ==> is_plain_name(#[trigger] parts[i]),
    ensures
        named_parts(lead + parts, rooted) == parts,
    decreases parts.len(),
{
    let all = lead + parts;
    if parts.len() == 0 {
        assert(all =~= lead);
        if lead.len() == 1 {
            assert(lead.drop_last().len() == 0);
            assert(named_parts(lead.drop_last(), rooted) =~= seq![]);
        }
        assert(named_parts(lead, rooted) =~= parts);
    } else {
        let rest = parts.drop_last();
        lemma_named_plain(lead, rest, rooted);
        assert(all.drop_last() =~= lead + rest);
        assert(all.last() == parts.last());
        assert(is_plain_name(parts[parts.len() - 1]));
        assert(rest.push(parts.last()) =~= parts);
    }
}

/// A path of plain names survives being spelled out and read back.
pub proof fn law_a_path_is_read_back(path: PathView)
    requires
        forall|i: int| 0 <= i < path.parts.len() ==> is_plain_name(#[trigger] path.parts[i]),
    ensures
        path_of(path_text(path)) == path,
{
    let parts = path.parts;
    let text = path_text(path);
    let inner = slashed(parts);
    if path.rooted {
        assert(text =~= Seq::<char>::empty() + seq!['/'] + inner);
        lemma_pieces_first(seq![], inner);
        let lead = seq![Seq::<char>::empty()];
        if parts.len() > 0 {
            lemma_pieces_slashed(parts);
            lemma_named_plain(lead, parts, true);
        } else {
            lemma_pieces_first(seq![], seq![]);
            assert(inner =~= seq![]);
            assert(pieces(text, '/') =~= lead + lead);
            let cut = lead + lead;
            assert(cut.drop_last() =~= lead);
            lemma_named_plain(lead, seq![], true);
            assert(lead + Seq::<Seq<char>>::empty() =~= lead);
            assert(named_parts(cut, true) =~= parts);
        }
    } else if parts.len() > 0 {
        lemma_pieces_slashed(parts);
        lemma_named_plain(seq![], parts, false);
        assert(Seq::<Seq<char>>::empty() + parts =~= parts);
        assert(is_plain_name(parts[0]));
        assert(parts[0].contains(parts[0][0]));
        if parts.len() > 1 {
            lemma_slashed_first(parts);
        }
        assert(text[0] == parts[0][0]);
    } else {
        lemma_pieces_first(seq![], seq![]);
        assert(text =~= seq![]);
        lemma_named_plain(seq![Seq::<char>::empty()], seq![], false);
        assert(seq![Seq::<char>::empty()] + Seq::<Seq<char>>::empty() =~= seq![Seq::<char>::empty()]);
        assert(named_parts(pieces(text, '/'), false) =~= parts);
    }
}

/// Paths stand by the first of their names that differ, and a path before what lies below it.
pub proof fn law_paths_stand_by_their_first_difference(a: PathView, b: PathView, at: int)
    requires
        a.rooted == b.rooted,
        0 <= at <= a.parts.len(),
        at <= b.parts.len(),
        forall|i: int| 0 <= i < at ==> #[trigger] a.parts[i] == b.parts[i],
    ensures
        at == a.parts.len() ==> path_le(a, b),
        at == b.parts.len() && at < a.parts.len() ==> !path_le(a, b),
        at < a.parts.len() && at < b.parts.len() && a.parts[at] != b.parts[at] && !is_step(a.parts[at]) && !is_step(b.parts[at]) ==> (path_le(
            a,
            b,
        ) <==> text_le(a.parts[at], b.parts[at])),
        at < a.parts.len() && at < b.parts.len() && is_step(a.parts[at]) && !is_step(b.parts[at]) ==> path_le(a, b) && !path_le(b, a),
{
    lemma_parts_differ(a.parts, b.parts, at);
    lemma_parts_differ(b.parts, a.parts, at);
}

proof fn lemma_parts_differ(a: Seq<Seq<char>>, b: Seq<Seq<char>>, at: int)
    requires
        0 <= at <= a.len(),
        at <= b.len(),
        forall|i: int| 0 <= i < at ==> #[trigger] a[i] == b[i],
    ensures
        at == a.len() ==> parts_le(a, b),
        at == b.len() && at < a.len() ==> !parts_le(a, b),
        at < a.len() && at < b.len() && a[at] != b[at] ==> (parts_le(a, b) <==> name_le(a[at], b[at])),
    decreases a.len(),
{
    if at > 0 {
        let (x, y) = (a.drop_first(), b.drop_first());
        assert(a[0] == b[0]);
        assert forall|i: int| 0 <= i < at - 1 implies #[trigger] x[i] == y[i] by {
            assert(a[i + 1] == b[i + 1]);
        }
        lemma_parts_differ(x, y, at - 1);
    }
}

/// What is put below a directory lies under it, and under everything it lies under; and two
/// directories that lie under each other are one.
pub proof fn law_what_is_joined_lies_under(root: PathView, dir: PathView, name: Seq<char>)
    ensures
        lies_under(dir, joined(dir, name)),
        lies_under(root, dir) ==> lies_under(root, joined(dir, name)),
        parent_of(joined(dir, name)) == Some(dir),
        !is_step(name) ==> file_name_of(joined(dir, name)) == Some(name),
        root.rooted == dir.rooted && lies_under(root, dir) && lies_under(dir, root) ==> root == dir,
{
    let below = joined(dir, name);
    assert(below.parts.take(dir.parts.len() as int) =~= dir.parts);
    assert(below.parts.drop_last() =~= dir.parts);
    if root.rooted == dir.rooted && lies_under(root, dir) {
        assert(below.parts.take(root.parts.len() as int) =~= dir.parts.take(root.parts.len() as int));
        if lies_under(dir, root) {
            assert(dir.parts.take(root.parts.len() as int) =~= dir.parts);
        }
    }
}

} // verus!
