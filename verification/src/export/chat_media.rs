//! Chat media: the files an export holds, the ids they are told apart by, and the messages that
//! name them.

use vstd::prelude::*;

use crate::export::model::{day_of, day_text, law_a_day_is_read_back, Day, UnreadableDir};
use crate::order::{
    in_order, keys_distinct, law_sorting_forgets_the_order, lemma_filter_agree, lemma_filter_from, lemma_filter_holds, lemma_filter_in_order, lemma_sorted,
    lemma_sorted_contains, lemma_text_le_antisymmetric, lemma_text_le_total, lemma_text_le_transitive, ranked_by, sort, sorted, text_le,
    text_not_after, Ranked,
};
use crate::paths::{file_name_of, is_text, lemma_path_le_antisymmetric, name_is_text, FilePath, PathView};
use crate::text::{
    alnum, alnum_run, chars_of, digit_run, fold, is_alnum, is_digit_run, join3, join5, pieces, pieces_text, same_folded,
    split_first, split_first_text, split_infix, split_infix_text, split_last, split_last_text, trim_text, trimmed, views,
};

verus! {

// ---- roles ----

/// The role a file's name gives it.
#[derive(Debug, Clone, Copy, PartialEq, Eq, PartialOrd, Ord, Hash, Structural)]
pub enum Token {
    /// Media a message names by its id.
    B,
    /// Media with no id a message could name.
    Media,
    /// A caption layer drawn over the media that shares its id.
    Overlay,
    /// A small rendition of other media.
    Thumbnail,
}

impl Token {
    pub const ALL: [Self; 4] = [Self::B, Self::Media, Self::Overlay, Self::Thumbnail];

    /// The word a filename spells this role with.
    pub open spec fn word(self) -> Seq<char> {
        match self {
            Token::B => "b"@,
            Token::Media => "media"@,
            Token::Overlay => "overlay"@,
            Token::Thumbnail => "thumbnail"@,
        }
    }

    #[must_use]
    pub fn as_word(self) -> (r: &'static str)
        ensures
            r@ == self.word(),
    {
        match self {
            Token::B => "b",
            Token::Media => "media",
            Token::Overlay => "overlay",
            Token::Thumbnail => "thumbnail",
        }
    }

    #[must_use]
    pub fn is_overlay(self) -> (r: bool)
        ensures
            r == (self is Overlay),
    {
        matches!(self, Token::Overlay)
    }

    /// The role a word spells, capitals or not.
    pub fn parse(raw: &str) -> (r: Option<Self>)
        ensures
            r == token_of(raw@),
    {
        proof {
            lemma_words_folded();
        }
        if same_folded(raw, "b") {
            Some(Token::B)
        } else if same_folded(raw, "media") {
            Some(Token::Media)
        } else if same_folded(raw, "overlay") {
            Some(Token::Overlay)
        } else if same_folded(raw, "thumbnail") {
            Some(Token::Thumbnail)
        } else {
            None
        }
    }
}

/// The role a word spells, capitals or not.
pub open spec fn token_of(raw: Seq<char>) -> Option<Token> {
    if fold(raw) == Token::B.word() {
        Some(Token::B)
    } else if fold(raw) == Token::Media.word() {
        Some(Token::Media)
    } else if fold(raw) == Token::Overlay.word() {
        Some(Token::Overlay)
    } else if fold(raw) == Token::Thumbnail.word() {
        Some(Token::Thumbnail)
    } else {
        None
    }
}

proof fn lemma_words_folded()
    ensures
        forall|token: Token| fold(#[trigger] token.word()) == token.word(),
        fold("b"@) == "b"@,
        fold("media"@) == "media"@,
        fold("overlay"@) == "overlay"@,
        fold("thumbnail"@) == "thumbnail"@,
{
    reveal_strlit("b");
    reveal_strlit("media");
    reveal_strlit("overlay");
    reveal_strlit("thumbnail");
    assert(fold("b"@) =~= "b"@);
    assert(fold("media"@) =~= "media"@);
    assert(fold("overlay"@) =~= "overlay"@);
    assert(fold("thumbnail"@) =~= "thumbnail"@);
    assert forall|token: Token| fold(#[trigger] token.word()) == token.word() by {
        match token {
            Token::B => {},
            Token::Media => {},
            Token::Overlay => {},
            Token::Thumbnail => {},
        }
    }
}

/// Every role's word spells that role.
pub proof fn law_a_role_word_is_read_back(token: Token)
    ensures
        token_of(token.word()) == Some(token),
{
    lemma_words_folded();
    reveal_strlit("b");
    reveal_strlit("media");
    reveal_strlit("overlay");
    reveal_strlit("thumbnail");
    assert("b"@.len() == 1 && "media"@.len() == 5 && "overlay"@.len() == 7 && "thumbnail"@.len() == 9);
    match token {
        Token::B => {},
        Token::Media => {},
        Token::Overlay => {},
        Token::Thumbnail => {},
    }
}

// ---- ids ----

/// Whether a text is one unbroken run of ascii letters and digits.
pub fn is_alphanumeric_run(text: &str) -> (r: bool)
    ensures
        r == alnum_run(text@),
{
    let v = chars_of(text);
    let mut i: usize = 0;
    while i < v.len()
        invariant
            v@ == text@,
            i <= v@.len(),
            forall|j: int| 0 <= j < i ==> is_alnum(#[trigger] v@[j]),
        decreases v.len() - i,
    {
        if !alnum(v[i]) {
            return false;
        }
        i += 1;
    }
    v.len() > 0
}

/// The two shapes the part of a filename behind its role takes.
#[derive(Debug, Clone, PartialEq, Eq, PartialOrd, Ord, Hash)]
pub enum Family {
    /// An id a message can name.
    Plain { id: String },
    /// A member of a zip the export unpacked: the zip's own word and number, and the member's hash.
    Zip { mid: String, hash: String },
}

pub enum FamilyView {
    Plain { id: Seq<char> },
    Zip { mid: Seq<char>, hash: Seq<char> },
}

impl View for Family {
    type V = FamilyView;

    open spec fn view(&self) -> FamilyView {
        match self {
            Family::Plain { id } => FamilyView::Plain { id: id@ },
            Family::Zip { mid, hash } => FamilyView::Zip { mid: mid@, hash: hash@ },
        }
    }
}

/// Whether a zip's name is a word, a dash and a number.
pub open spec fn mid_shaped(mid: Seq<char>) -> bool {
    match split_first(mid, '-') {
        Some((word, digits)) => alnum_run(word) && digit_run(digits),
        None => false,
    }
}

/// The shape a tail spells.
pub open spec fn family_of(tail: Seq<char>) -> Option<FamilyView> {
    match split_infix(tail, ".zip."@) {
        Some((mid, hash)) => if mid_shaped(mid) && alnum_run(hash) {
            Some(FamilyView::Zip { mid, hash })
        } else {
            None
        },
        None => if alnum_run(tail) {
            Some(FamilyView::Plain { id: tail })
        } else {
            None
        },
    }
}

impl Family {
    /// The shape a tail spells, told apart by the tail alone.
    pub fn parse(tail: &str) -> (r: Option<Self>)
        ensures
            r is Some <==> family_of(tail@) is Some,
            r matches Some(family) ==> family_of(tail@) == Some(family@),
    {
        match split_infix_text(tail, ".zip.") {
            Some((mid, hash)) => {
                let (word, digits) = match split_first_text(&mid, '-') {
                    Some(sides) => sides,
                    None => {
                        return None;
                    },
                };
                if is_alphanumeric_run(&word) && is_digit_run(&digits) && is_alphanumeric_run(&hash) {
                    Some(Family::Zip { mid, hash })
                } else {
                    None
                }
            },
            None => {
                if is_alphanumeric_run(tail) {
                    Some(Family::Plain { id: tail.to_owned() })
                } else {
                    None
                }
            },
        }
    }
}

/// `b~<id>`: the one spelling a message's token is matched under.
pub open spec fn history_token_of(raw: Seq<char>) -> Option<Seq<char>> {
    match split_first(raw, '~') {
        Some((prefix, id)) => if token_of(prefix) == Some(Token::B) && alnum_run(id) {
            Some("b"@ + "~"@ + id)
        } else {
            None
        },
        None => None,
    }
}

/// The token a message names, in the spelling ids are matched under.
pub fn parse_history_token(raw: &str) -> (r: Option<String>)
    ensures
        r is Some <==> history_token_of(raw@) is Some,
        r matches Some(token) ==> history_token_of(raw@) == Some(token@),
{
    let (prefix, id) = match split_first_text(raw, '~') {
        Some(sides) => sides,
        None => {
            return None;
        },
    };
    let named = match Token::parse(&prefix) {
        Some(Token::B) => true,
        _ => false,
    };
    if !named || !is_alphanumeric_run(&id) {
        return None;
    }
    Some(join3(Token::B.as_word(), "~", &id))
}

/// The tokens a message's media ids hold: what stands between the bars, trimmed, blanks dropped.
pub open spec fn tokens_of(media_ids: Seq<char>) -> Seq<Seq<char>> {
    kept_tokens(pieces(media_ids, '|'))
}

pub open spec fn kept_tokens(cut: Seq<Seq<char>>) -> Seq<Seq<char>> {
    cut.map_values(|piece: Seq<char>| trimmed(piece)).filter(|token: Seq<char>| token.len() > 0)
}

/// [`tokens_of`], as texts.
pub fn media_tokens(media_ids: &str) -> (r: Vec<String>)
    ensures
        views(r@) == tokens_of(media_ids@),
{
    let cut = pieces_text(media_ids, '|');
    let mut out: Vec<String> = Vec::new();
    let mut i: usize = 0;
    let ghost trim = |piece: Seq<char>| trimmed(piece);
    let ghost keep = |token: Seq<char>| token.len() > 0;
    proof {
        reveal(Seq::filter);
        assert(views(cut@).take(0).map_values(trim) =~= Seq::<Seq<char>>::empty());
        assert(views(out@) =~= Seq::<Seq<char>>::empty());
    }
    while i < cut.len()
        invariant
            i <= cut@.len(),
            keep == (|token: Seq<char>| token.len() > 0),
            trim == (|piece: Seq<char>| trimmed(piece)),
            views(out@) == views(cut@).take(i as int).map_values(trim).filter(keep),
        decreases cut.len() - i,
    {
        let token = trim_text(&cut[i]);
        let ghost before = views(cut@).take(i as int).map_values(trim);
        proof {
            assert(views(cut@).take(i + 1).map_values(trim) =~= before.push(token@));
            before.lemma_filter_push(token@, keep);
            crate::text::lemma_views_push(out@, token);
        }
        if !token.as_str().is_empty() {
            out.push(token);
        }
        i += 1;
    }
    assert(views(cut@).take(i as int) =~= views(cut@));
    out
}

// ---- files ----

/// One chat media file, read off its name.
#[derive(Debug, PartialEq, Eq)]
pub struct ChatMediaFile {
    pub path: FilePath,
    /// The day the filename opens with.
    pub day: Day,
    pub token: Token,
    pub family: Family,
    /// What the file is told apart by: `<role>~<id>`, or the zip it came from.
    pub id: String,
    pub extension: String,
}

#[verifier::ext_equal]
pub struct FileView {
    pub path: PathView,
    pub day: Day,
    pub token: Token,
    pub family: FamilyView,
    pub id: Seq<char>,
    pub extension: Seq<char>,
}

impl View for ChatMediaFile {
    type V = FileView;

    open spec fn view(&self) -> FileView {
        FileView {
            path: self.path@,
            day: self.day,
            token: self.token,
            family: self.family@,
            id: self.id@,
            extension: self.extension@,
        }
    }
}

/// What a file is told apart by.
pub open spec fn id_of(day: Day, token: Token, family: FamilyView) -> Seq<char> {
    match family {
        FamilyView::Plain { id } => token.word() + "~"@ + id,
        FamilyView::Zip { mid, hash } => day_text(day) + "_"@ + mid + ".zip."@ + hash,
    }
}

/// What a filename splits into: the day, the role, the tail and the extension.
pub open spec fn name_fields(name: Seq<char>) -> Option<(Seq<char>, Seq<char>, Seq<char>, Seq<char>)> {
    match split_last(name, '.') {
        None => None,
        Some((stem, extension)) => match split_first(stem, '_') {
            None => None,
            Some((day, rest)) => match split_first(rest, '~') {
                None => None,
                Some((token, tail)) => Some((day, token, tail, extension)),
            },
        },
    }
}

/// The file a path names, where its name is text and follows the export's shape.
pub open spec fn file_of(path: PathView) -> Option<FileView> {
    match file_name_of(path) {
        None => None,
        Some(name) => if !is_text(name) {
            None
        } else {
            match name_fields(name) {
                None => None,
                Some((day, token, tail, extension)) => match (day_of(day), token_of(token), family_of(tail)) {
                    (Some(day), Some(token), Some(family)) => Some(
                        FileView { path, day, token, family, id: id_of(day, token, family), extension },
                    ),
                    _ => None,
                },
            }
        },
    }
}

/// The id a message would name a file by, where it has one.
pub open spec fn history_token_at(file: ChatMediaFile) -> Option<Seq<char>> {
    if file.token is B && file.family is Plain {
        Some(file.id@)
    } else {
        None
    }
}

fn named_id(day: Day, token: Token, family: &Family) -> (r: String)
    requires
        day.wf(),
    ensures
        r@ == id_of(day, token, family@),
{
    match family {
        Family::Plain { id } => join3(token.as_word(), "~", id),
        Family::Zip { mid, hash } => join5(&day.text(), "_", mid, ".zip.", hash),
    }
}

impl ChatMediaFile {
    /// Reads a file off its name: `<day>_<role>~<tail>.<extension>`.
    #[must_use]
    pub fn parse(path: &FilePath) -> (r: Option<Self>)
        ensures
            r is Some <==> file_of(path@) is Some,
            r matches Some(file) ==> file_of(path@) == Some(file@),
    {
        let name = match path.file_name() {
            Some(name) => name,
            None => {
                return None;
            },
        };
        if !name_is_text(name) {
            return None;
        }
        let (stem, extension) = match split_last_text(name, '.') {
            Some(sides) => sides,
            None => {
                return None;
            },
        };
        let (day, rest) = match split_first_text(&stem, '_') {
            Some(sides) => sides,
            None => {
                return None;
            },
        };
        let (token, tail) = match split_first_text(&rest, '~') {
            Some(sides) => sides,
            None => {
                return None;
            },
        };
        match (Day::parse(&day), Token::parse(&token), Family::parse(&tail)) {
            (Some(day), Some(token), Some(family)) => {
                let id = named_id(day, token, &family);
                Some(ChatMediaFile { path: path.clone(), day, token, family, id, extension })
            },
            _ => None,
        }
    }

    /// The id a message would name this file by; nothing where no message can.
    #[must_use]
    pub fn history_token(&self) -> (r: Option<&String>)
        ensures
            r is Some <==> history_token_at(*self) is Some,
            r matches Some(token) ==> *token == self.id,
    {
        match (self.token, &self.family) {
            (Token::B, Family::Plain { .. }) => Some(&self.id),
            _ => None,
        }
    }
}

/// A message that spells a file's id, whatever the case of its role, names that file.
pub proof fn law_token_names_file(path: PathView, file: FileView, id: Seq<char>, raw: Seq<char>, prefix: Seq<char>)
    requires
        file_of(path) == Some(file),
        file.token is B,
        file.family == (FamilyView::Plain { id }),
        split_first(raw, '~') == Some((prefix, id)),
        token_of(prefix) == Some(Token::B),
    ensures
        history_token_of(raw) == Some(file.id),
{
}

// ---- discovery ----

/// Media and the caption layer that shares its id.
#[derive(Debug, PartialEq, Eq)]
pub struct ChatMedia {
    pub file: ChatMediaFile,
    pub overlay: Option<ChatMediaFile>,
}

impl ChatMedia {
    #[must_use]
    pub fn source_id(&self) -> (r: &str)
        ensures
            r@ == self.file.id@,
    {
        self.file.id.as_str()
    }
}

/// One id and role several files carry: the one that stands for it, and the ones passed over.
#[derive(Debug, PartialEq, Eq)]
pub struct Duplicate {
    pub id: String,
    pub overlay: bool,
    pub kept: FilePath,
    pub ignored: Vec<FilePath>,
}

/// What a scan of the export's chat media found.
#[derive(Debug, PartialEq, Eq)]
pub struct Discovery {
    pub media: Vec<ChatMedia>,
    pub unmatched_overlays: Vec<ChatMediaFile>,
    pub unparsed: Vec<FilePath>,
    pub duplicates: Vec<Duplicate>,
    pub unreadable: Vec<UnreadableDir>,
}

pub open spec fn is_layer(file: ChatMediaFile) -> bool {
    file.token is Overlay
}

/// Whether two files claim one id in one role.
pub open spec fn same_key(a: ChatMediaFile, b: ChatMediaFile) -> bool {
    a.id@ == b.id@ && is_layer(a) == is_layer(b)
}

impl Ranked for ChatMediaFile {
    /// By id, media before its layer, then by path.
    open spec fn le(self, other: Self) -> bool {
        if self.id@ != other.id@ {
            text_le(self.id@, other.id@)
        } else if is_layer(self) != is_layer(other) {
            !is_layer(self)
        } else {
            self.path.le(other.path)
        }
    }

    proof fn total(a: Self, b: Self) {
        lemma_text_le_total(a.id@, b.id@);
        FilePath::total(a.path, b.path);
    }

    proof fn transitive(a: Self, b: Self, c: Self) {
        if a.id@ == b.id@ && b.id@ == c.id@ {
            if is_layer(a) == is_layer(b) && is_layer(b) == is_layer(c) {
                FilePath::transitive(a.path, b.path, c.path);
            }
        } else if a.id@ != b.id@ && b.id@ != c.id@ {
            lemma_text_le_transitive(a.id@, b.id@, c.id@);
            if a.id@ == c.id@ {
                lemma_text_le_antisymmetric(a.id@, b.id@);
            }
        }
    }

    fn not_after(&self, other: &Self) -> (r: bool) {
        if self.id != other.id {
            text_not_after(&self.id, &other.id)
        } else if self.token.is_overlay() != other.token.is_overlay() {
            !self.token.is_overlay()
        } else {
            self.path.not_after(&other.path)
        }
    }
}

impl Ranked for UnreadableDir {
    open spec fn le(self, other: Self) -> bool {
        self.dir.le(other.dir)
    }

    proof fn total(a: Self, b: Self) {
        FilePath::total(a.dir, b.dir);
    }

    proof fn transitive(a: Self, b: Self, c: Self) {
        FilePath::transitive(a.dir, b.dir, c.dir);
    }

    fn not_after(&self, other: &Self) -> (r: bool) {
        self.dir.not_after(&other.dir)
    }
}

/// Whether an earlier file of `s` claims what the one at `at` claims.
pub open spec fn repeats_earlier(s: Seq<ChatMediaFile>, at: int) -> bool {
    exists|j: int| 0 <= j < at && same_key(#[trigger] s[j], s[at])
}

/// The files of `s` that claim their id and role first.
pub open spec fn heads(s: Seq<ChatMediaFile>) -> Seq<ChatMediaFile>
    decreases s.len(),
{
    if s.len() == 0 {
        s
    } else if repeats_earlier(s, s.len() - 1) {
        heads(s.drop_last())
    } else {
        heads(s.drop_last()).push(s.last())
    }
}

/// The files of `s` that claim what `file` claims, in order.
pub open spec fn claimants(s: Seq<ChatMediaFile>, file: ChatMediaFile) -> Seq<ChatMediaFile> {
    s.filter(claims_like(file))
}

pub open spec fn claims_like(file: ChatMediaFile) -> spec_fn(ChatMediaFile) -> bool {
    |other: ChatMediaFile| same_key(other, file)
}

/// The media among the heads.
pub open spec fn leaders(s: Seq<ChatMediaFile>) -> Seq<ChatMediaFile> {
    heads(s).filter(is_media())
}

pub open spec fn is_media() -> spec_fn(ChatMediaFile) -> bool {
    |file: ChatMediaFile| !is_layer(file)
}

/// Whether `s` holds media with this id.
pub open spec fn media_with(s: Seq<ChatMediaFile>, id: Seq<char>) -> bool {
    exists|j: int| 0 <= j < s.len() && !is_layer(#[trigger] s[j]) && s[j].id@ == id
}

/// The layers among the heads that no media shares an id with.
pub open spec fn stray_layers(s: Seq<ChatMediaFile>) -> Seq<ChatMediaFile> {
    heads(s).filter(is_stray(s))
}

pub open spec fn is_stray(s: Seq<ChatMediaFile>) -> spec_fn(ChatMediaFile) -> bool {
    |file: ChatMediaFile| is_layer(file) && !media_with(s, file.id@)
}

/// The heads that passed some other file over.
pub open spec fn contested(s: Seq<ChatMediaFile>) -> Seq<ChatMediaFile> {
    heads(s).filter(is_contested(s))
}

pub open spec fn is_contested(s: Seq<ChatMediaFile>) -> spec_fn(ChatMediaFile) -> bool {
    |file: ChatMediaFile| claimants(s, file).len() > 1
}

pub open spec fn path_views(files: Seq<FilePath>) -> Seq<PathView> {
    files.map_values(|path: FilePath| path@)
}

pub open spec fn file_paths(files: Seq<ChatMediaFile>) -> Seq<PathView> {
    files.map_values(|file: ChatMediaFile| file.path@)
}

/// What a duplicate says of the head it stands for.
pub open spec fn tells(duplicate: Duplicate, head: ChatMediaFile, s: Seq<ChatMediaFile>) -> bool {
    &&& duplicate.id@ == head.id@
    &&& duplicate.overlay == is_layer(head)
    &&& duplicate.kept@ == head.path@
    &&& path_views(duplicate.ignored@) == file_paths(claimants(s, head).skip(1))
}

pub open spec fn media_files(media: Seq<ChatMedia>) -> Seq<ChatMediaFile> {
    media.map_values(|media: ChatMedia| media.file)
}

/// Whether `layer` is what the heads of `s` hold over the media `id`.
pub open spec fn layered(s: Seq<ChatMediaFile>, id: Seq<char>, layer: Option<ChatMediaFile>) -> bool {
    match layer {
        Some(file) => heads(s).contains(file) && is_layer(file) && file.id@ == id,
        None => forall|j: int| 0 <= j < s.len() && is_layer(#[trigger] s[j]) ==> s[j].id@ != id,
    }
}

/// Heads are files of `s`, one for each claim.
pub proof fn lemma_heads(s: Seq<ChatMediaFile>)
    ensures
        forall|i: int| 0 <= i < heads(s).len() ==> s.contains(#[trigger] heads(s)[i]),
        forall|j: int| 0 <= j < s.len() ==> exists|i: int| 0 <= i < heads(s).len() && same_key(#[trigger] heads(s)[i], #[trigger] s[j]),
        forall|i: int, j: int| 0 <= i < j < heads(s).len() ==> !same_key(#[trigger] heads(s)[i], #[trigger] heads(s)[j]),
        s.len() > 0 ==> heads(s).len() > 0,
    decreases s.len(),
{
    if s.len() > 0 {
        let rest = s.drop_last();
        let h = heads(s);
        let g = heads(rest);
        lemma_heads(rest);
        assert forall|i: int| 0 <= i < h.len() implies s.contains(#[trigger] h[i]) by {
            if i < g.len() {
                assert(h[i] == g[i]);
                let j = choose|j: int| 0 <= j < rest.len() && rest[j] == g[i];
                assert(s[j] == h[i]);
            } else {
                assert(s[s.len() - 1] == h[i]);
            }
        }
        assert forall|j: int| 0 <= j < s.len() implies exists|i: int| 0 <= i < h.len() && same_key(#[trigger] h[i], #[trigger] s[j]) by {
            if j < rest.len() {
                assert(rest[j] == s[j]);
                let i = choose|i: int| 0 <= i < g.len() && same_key(#[trigger] g[i], rest[j]);
                assert(h[i] == g[i]);
            } else if repeats_earlier(s, j) {
                let k = choose|k: int| 0 <= k < j && same_key(#[trigger] s[k], s[j]);
                assert(rest[k] == s[k]);
                let i = choose|i: int| 0 <= i < g.len() && same_key(#[trigger] g[i], rest[k]);
                assert(h[i] == g[i]);
            } else {
                assert(h[h.len() - 1] == s[j]);
            }
        }
        assert forall|i: int, j: int| 0 <= i < j < h.len() implies !same_key(#[trigger] h[i], #[trigger] h[j]) by {
            if j < g.len() {
                assert(h[i] == g[i] && h[j] == g[j]);
            } else {
                assert(h[i] == g[i] && h[j] == s[s.len() - 1]);
                let k = choose|k: int| 0 <= k < rest.len() && rest[k] == g[i];
                assert(s[k] == g[i]);
                assert(!same_key(s[k], s[s.len() - 1]));
            }
        }
    }
}

proof fn lemma_heads_in_order(s: Seq<ChatMediaFile>)
    requires
        in_order(s),
    ensures
        in_order(heads(s)),
    decreases s.len(),
{
    if s.len() > 0 {
        let rest = s.drop_last();
        lemma_heads_in_order(rest);
        lemma_heads(rest);
        let h = heads(s);
        let g = heads(rest);
        assert forall|i: int, j: int| 0 <= i < j < h.len() implies (#[trigger] h[i]).le(#[trigger] h[j]) by {
            if j < g.len() {
                assert(h[i] == g[i] && h[j] == g[j]);
            } else {
                assert(h[i] == g[i]);
                let k = choose|k: int| 0 <= k < rest.len() && rest[k] == g[i];
                assert(s[k].le(s[s.len() - 1]));
            }
        }
    }
}

/// In order, a file repeats an earlier claim exactly where it repeats the one just before it.
proof fn lemma_runs(s: Seq<ChatMediaFile>, at: int)
    requires
        in_order(s),
        0 < at < s.len(),
    ensures
        repeats_earlier(s, at) <==> same_key(s[at - 1], s[at]),
{
    if repeats_earlier(s, at) {
        let j = choose|j: int| 0 <= j < at && same_key(#[trigger] s[j], s[at]);
        if j < at - 1 {
            assert(s[j].le(s[at - 1]));
            assert(s[at - 1].le(s[at]));
            if s[at - 1].id@ != s[at].id@ {
                lemma_text_le_antisymmetric(s[at - 1].id@, s[at].id@);
            }
        }
    }
}

/// One more file: what the heads become.
proof fn lemma_heads_step(s: Seq<ChatMediaFile>, at: int)
    requires
        in_order(s),
        0 <= at < s.len(),
    ensures
        heads(s.take(at + 1)) == if repeats_earlier(s, at) {
            heads(s.take(at))
        } else {
            heads(s.take(at)).push(s[at])
        },
        repeats_earlier(s, at) ==> at > 0 && same_key(heads(s.take(at)).last(), s[at]),
        at > 0 ==> same_key(heads(s.take(at)).last(), s[at - 1]),
        s.take(at + 1) == s.take(at).push(s[at]),
        repeats_earlier(s.take(at + 1), at) == repeats_earlier(s, at),
    decreases at,
{
    let p = s.take(at + 1);
    assert(p =~= s.take(at).push(s[at]));
    assert(p.drop_last() =~= s.take(at));
    assert(p.last() == s[at]);
    assert(repeats_earlier(p, at) == repeats_earlier(s, at)) by {
        if repeats_earlier(s, at) {
            let j = choose|j: int| 0 <= j < at && same_key(#[trigger] s[j], s[at]);
            assert(p[j] == s[j]);
        }
        if repeats_earlier(p, at) {
            let j = choose|j: int| 0 <= j < at && same_key(#[trigger] p[j], p[at]);
            assert(p[j] == s[j]);
        }
    }
    if at > 0 {
        lemma_heads_step(s, at - 1);
        lemma_runs(s, at);
        lemma_heads(s.take(at));
    }
}

/// Every media file has a leader with its id.
proof fn lemma_leader_of(p: Seq<ChatMediaFile>, m: int) -> (q: int)
    requires
        0 <= m < p.len(),
        !is_layer(p[m]),
    ensures
        0 <= q < leaders(p).len(),
        leaders(p)[q].id@ == p[m].id@,
{
    lemma_heads(p);
    let h = heads(p);
    let k = choose|k: int| 0 <= k < h.len() && same_key(#[trigger] h[k], p[m]);
    lemma_filter_holds(h, is_media(), k);
    choose|q: int| 0 <= q < leaders(p).len() && leaders(p)[q] == h[k]
}

/// Every leader is a media file of the list it leads.
pub proof fn lemma_leader_at(p: Seq<ChatMediaFile>, q: int) -> (m: int)
    requires
        0 <= q < leaders(p).len(),
    ensures
        0 <= m < p.len(),
        p[m] == leaders(p)[q],
        !is_layer(p[m]),
{
    lemma_heads(p);
    let h = heads(p);
    lemma_filter_from(h, is_media());
    let l = leaders(p);
    assert(h.contains(l[q]) && is_media()(l[q]));
    let i = choose|i: int| 0 <= i < h.len() && h[i] == l[q];
    assert(p.contains(h[i]));
    choose|m: int| 0 <= m < p.len() && p[m] == h[i]
}

proof fn lemma_take_in_order(s: Seq<ChatMediaFile>, at: int)
    requires
        in_order(s),
        0 <= at <= s.len(),
    ensures
        in_order(s.take(at)),
{
    let p = s.take(at);
    assert forall|x: int, y: int| 0 <= x < y < p.len() implies (#[trigger] p[x]).le(#[trigger] p[y]) by {
        assert(s[x].le(s[y]));
    }
}

/// A layer's media, where there is any, is the leader just before it.
proof fn lemma_layer_follows_media(s: Seq<ChatMediaFile>, at: int)
    requires
        in_order(s),
        0 <= at < s.len(),
        is_layer(s[at]),
    ensures
        media_with(s, s[at].id@) <==> leaders(s.take(at)).len() > 0 && leaders(s.take(at)).last().id@ == s[at].id@,
{
    let p = s.take(at);
    let l = leaders(p);
    if media_with(s, s[at].id@) {
        let m = choose|m: int| 0 <= m < s.len() && !is_layer(#[trigger] s[m]) && s[m].id@ == s[at].id@;
        if m > at {
            assert(s[at].le(s[m]));
        }
        assert(p[m] == s[m]);
        let q = lemma_leader_of(p, m);
        let j = lemma_leader_at(p, l.len() - 1);
        assert(s[j] == l.last());
        lemma_take_in_order(s, at);
        lemma_heads_in_order(p);
        lemma_filter_in_order(heads(p), is_media());
        if q < l.len() - 1 {
            assert(l[q].le(l[l.len() - 1]));
        }
        assert(s[j].le(s[at]));
        if l.last().id@ != s[at].id@ {
            lemma_text_le_antisymmetric(l.last().id@, s[at].id@);
        }
    }
    if l.len() > 0 && l.last().id@ == s[at].id@ {
        let j = lemma_leader_at(p, l.len() - 1);
        assert(s[j] == l.last());
    }
}

/// One more file: what the claims on `head` become.
proof fn lemma_claimants_push(p: Seq<ChatMediaFile>, file: ChatMediaFile, head: ChatMediaFile)
    ensures
        claimants(p.push(file), head) == if same_key(file, head) {
            claimants(p, head).push(file)
        } else {
            claimants(p, head)
        },
{
    p.lemma_filter_push(file, claims_like(head));
}

/// One more file that claims something new: who is contested stays.
proof fn lemma_contested_new(p: Seq<ChatMediaFile>, file: ChatMediaFile)
    requires
        !repeats_earlier(p.push(file), p.len() as int),
    ensures
        contested(p.push(file)) == contested(p),
        forall|i: int| 0 <= i < contested(p).len() ==> claimants(p.push(file), #[trigger] contested(p)[i]) == claimants(p, contested(p)[i]),
{
    let q = p.push(file);
    let h = heads(p);
    assert(q.drop_last() =~= p);
    assert(heads(q) == h.push(file));
    lemma_heads(p);
    assert forall|i: int| 0 <= i < h.len() implies claimants(q, #[trigger] h[i]) == claimants(p, h[i]) by {
        let j = choose|j: int| 0 <= j < p.len() && p[j] == h[i];
        assert(q[j] == h[i]);
        assert(!same_key(q[j], q[p.len() as int]));
        lemma_claimants_push(p, file, h[i]);
    }
    lemma_filter_agree(h, is_contested(q), is_contested(p));
    h.lemma_filter_push(file, is_contested(q));
    lemma_claimants_push(p, file, file);
    assert(claimants(p, file).len() == 0) by {
        lemma_filter_from(p, claims_like(file));
        if claimants(p, file).len() > 0 {
            let c = claimants(p, file)[0];
            assert(p.contains(c) && same_key(c, file));
            let j = choose|j: int| 0 <= j < p.len() && p[j] == c;
            assert(same_key(q[j], q[p.len() as int]));
        }
    }
    lemma_filter_from(h, is_contested(p));
    assert forall|i: int| 0 <= i < contested(p).len() implies claimants(q, #[trigger] contested(p)[i]) == claimants(p, contested(p)[i]) by {
        let k = choose|k: int| 0 <= k < h.len() && h[k] == contested(p)[i];
        assert(claimants(q, h[k]) == claimants(p, h[k]));
    }
}

/// One more file that claims what the last head claims: that head, and no other, is contested by
/// one more.
#[verifier::rlimit(60)]
proof fn lemma_contested_repeat(p: Seq<ChatMediaFile>, file: ChatMediaFile)
    requires
        heads(p).len() > 0,
        same_key(heads(p).last(), file),
        repeats_earlier(p.push(file), p.len() as int),
    ensures
        claimants(p, heads(p).last()).len() >= 1,
        claimants(p.push(file), heads(p).last()) == claimants(p, heads(p).last()).push(file),
        contested(p.push(file)) == if claimants(p, heads(p).last()).len() == 1 {
            contested(p).push(heads(p).last())
        } else {
            contested(p)
        },
        claimants(p, heads(p).last()).len() > 1 ==> contested(p).len() > 0 && contested(p).last() == heads(p).last(),
        forall|i: int| 0 <= i < contested(p).len() && (i < contested(p).len() - 1 || claimants(p, heads(p).last()).len() == 1)
            ==> claimants(p.push(file), #[trigger] contested(p)[i]) == claimants(p, contested(p)[i]),
{
    let q = p.push(file);
    let h = heads(p);
    let top = h.last();
    let below = h.drop_last();
    assert(q.drop_last() =~= p);
    assert(heads(q) == h);
    assert(h =~= below.push(top));
    lemma_heads(p);
    lemma_claimants_push(p, file, top);
    assert(claimants(p, top).len() >= 1) by {
        assert(p.contains(h[h.len() - 1]));
        let j = choose|j: int| 0 <= j < p.len() && p[j] == top;
        lemma_filter_holds(p, claims_like(top), j);
    }
    assert forall|i: int| 0 <= i < below.len() implies claimants(q, #[trigger] below[i]) == claimants(p, below[i]) by {
        assert(below[i] == h[i]);
        assert(!same_key(h[i], h[h.len() - 1]));
        lemma_claimants_push(p, file, below[i]);
    }
    lemma_filter_agree(below, is_contested(q), is_contested(p));
    below.lemma_filter_push(top, is_contested(q));
    below.lemma_filter_push(top, is_contested(p));
    lemma_filter_from(below, is_contested(p));
    let c = below.filter(is_contested(p));
    assert forall|i: int| 0 <= i < c.len() implies claimants(q, #[trigger] c[i]) == claimants(p, c[i]) by {
        let k = choose|k: int| 0 <= k < below.len() && below[k] == c[i];
        assert(claimants(q, below[k]) == claimants(p, below[k]));
    }
    if claimants(p, top).len() == 1 {
        assert(contested(p) == c);
    } else {
        assert(contested(p) == c.push(top));
        assert forall|i: int| 0 <= i < contested(p).len() - 1 implies claimants(q, #[trigger] contested(p)[i]) == claimants(
            p,
            contested(p)[i],
        ) by {
            assert(contested(p)[i] == c[i]);
        }
    }
}

/// Leaders have distinct ids.
pub proof fn lemma_leaders_distinct(h: Seq<ChatMediaFile>)
    requires
        forall|i: int, j: int| 0 <= i < j < h.len() ==> !same_key(#[trigger] h[i], #[trigger] h[j]),
    ensures
        forall|i: int, j: int|
            0 <= i < j < h.filter(is_media()).len() ==> (#[trigger] h.filter(is_media())[i]).id@ != (#[trigger] h.filter(is_media())[j]).id@,
    decreases h.len(),
{
    reveal(Seq::filter);
    if h.len() > 0 {
        let rest = h.drop_last();
        assert forall|i: int, j: int| 0 <= i < j < rest.len() implies !same_key(#[trigger] rest[i], #[trigger] rest[j]) by {
            assert(!same_key(h[i], h[j]));
        }
        lemma_leaders_distinct(rest);
        lemma_filter_from(rest, is_media());
        let f = h.filter(is_media());
        let g = rest.filter(is_media());
        assert forall|i: int, j: int| 0 <= i < j < f.len() implies (#[trigger] f[i]).id@ != (#[trigger] f[j]).id@ by {
            assert(f[i] == g[i]);
            if j < g.len() {
                assert(f[j] == g[j]);
            } else {
                assert(rest.contains(g[i]) && is_media()(g[i]));
                let k = choose|k: int| 0 <= k < rest.len() && rest[k] == g[i];
                assert(!same_key(h[k], h[h.len() - 1]));
            }
        }
    }
}

/// Stray layers have distinct ids.
pub proof fn lemma_strays_distinct(s: Seq<ChatMediaFile>, h: Seq<ChatMediaFile>)
    requires
        forall|i: int, j: int| 0 <= i < j < h.len() ==> !same_key(#[trigger] h[i], #[trigger] h[j]),
    ensures
        forall|i: int, j: int|
            0 <= i < j < h.filter(is_stray(s)).len() ==> (#[trigger] h.filter(is_stray(s))[i]).id@ != (#[trigger] h.filter(
                is_stray(s),
            )[j]).id@,
    decreases h.len(),
{
    reveal(Seq::filter);
    if h.len() > 0 {
        let rest = h.drop_last();
        assert forall|i: int, j: int| 0 <= i < j < rest.len() implies !same_key(#[trigger] rest[i], #[trigger] rest[j]) by {
            assert(!same_key(h[i], h[j]));
        }
        lemma_strays_distinct(s, rest);
        lemma_filter_from(rest, is_stray(s));
        let f = h.filter(is_stray(s));
        let g = rest.filter(is_stray(s));
        assert forall|i: int, j: int| 0 <= i < j < f.len() implies (#[trigger] f[i]).id@ != (#[trigger] f[j]).id@ by {
            assert(f[i] == g[i]);
            if j < g.len() {
                assert(f[j] == g[j]);
            } else {
                assert(rest.contains(g[i]) && is_stray(s)(g[i]));
                let k = choose|k: int| 0 <= k < rest.len() && rest[k] == g[i];
                assert(!same_key(h[k], h[h.len() - 1]));
            }
        }
    }
}

/// One more file leaves what lies over `id` as it was, unless it is the first layer over it.
proof fn lemma_layered_step(s: Seq<ChatMediaFile>, at: int, id: Seq<char>, layer: Option<ChatMediaFile>)
    requires
        in_order(s),
        0 <= at < s.len(),
        layered(s.take(at), id, layer),
        layer is None && is_layer(s[at]) ==> s[at].id@ != id || repeats_earlier(s, at),
    ensures
        layered(s.take(at + 1), id, layer),
{
    lemma_heads_step(s, at);
    let p = s.take(at);
    let q = s.take(at + 1);
    match layer {
        Some(file) => {
            let i = choose|i: int| 0 <= i < heads(p).len() && heads(p)[i] == file;
            assert(heads(q)[i] == file);
        },
        None => {
            assert forall|j: int| 0 <= j < q.len() && is_layer(#[trigger] q[j]) implies q[j].id@ != id by {
                if j < at {
                    assert(q[j] == p[j]);
                } else if repeats_earlier(s, at) {
                    let m = choose|m: int| 0 <= m < at && same_key(#[trigger] s[m], s[at]);
                    assert(p[m] == s[m]);
                }
            }
        },
    }
}

/// The last contested head is the last head only where that one is contested.
proof fn lemma_contested_last(p: Seq<ChatMediaFile>)
    requires
        contested(p).len() > 0,
        heads(p).len() > 0,
        same_key(contested(p).last(), heads(p).last()),
    ensures
        claimants(p, heads(p).last()).len() > 1,
{
    let h = heads(p);
    let c = contested(p);
    lemma_heads(p);
    lemma_filter_from(h, is_contested(p));
    assert(h.contains(c[c.len() - 1]) && is_contested(p)(c[c.len() - 1]));
    let k = choose|k: int| 0 <= k < h.len() && h[k] == c.last();
    if k < h.len() - 1 {
        assert(!same_key(h[k], h[h.len() - 1]));
    }
}

proof fn lemma_paths_push(files: Seq<ChatMediaFile>, file: ChatMediaFile, paths: Seq<FilePath>, path: FilePath)
    requires
        files.len() >= 1,
        path@ == file.path@,
        path_views(paths) == file_paths(files.skip(1)),
    ensures
        path_views(paths.push(path)) == file_paths(files.push(file).skip(1)),
{
    assert(files.push(file).skip(1) =~= files.skip(1).push(file));
    assert(path_views(paths.push(path)) =~= path_views(paths).push(path@));
    assert(file_paths(files.skip(1).push(file)) =~= file_paths(files.skip(1)).push(file.path@));
}

impl Discovery {
    /// What a complete scan found.
    #[must_use]
    pub fn from_files(files: Vec<ChatMediaFile>, unparsed: Vec<FilePath>) -> (r: Self)
        ensures
            found(r, files@, unparsed@, Seq::empty()),
    {
        let none: Vec<UnreadableDir> = Vec::new();
        assert(none@ =~= Seq::empty());
        Self::from_walk(files, unparsed, none)
    }

    /// What a scan found, told apart by id: the first file of each id and role stands for it, the
    /// rest are duplicates, and a layer goes with the media that shares its id.
    #[must_use]
    #[verifier::rlimit(60)]
    pub fn from_walk(files: Vec<ChatMediaFile>, unparsed: Vec<FilePath>, unreadable: Vec<UnreadableDir>) -> (r: Self)
        ensures
            found(r, files@, unparsed@, unreadable@),
    {
        let ordered = sort(files);
        let ghost s = ordered@;
        proof {
            lemma_sorted(files@);
        }
        let mut media: Vec<ChatMedia> = Vec::new();
        let mut strays: Vec<ChatMediaFile> = Vec::new();
        let mut duplicates: Vec<Duplicate> = Vec::new();
        let mut started = false;
        let mut head_id = String::new();
        let mut head_layer = false;
        let mut head_path = FilePath { rooted: false, parts: Vec::new() };
        proof {
            reveal(Seq::filter);
            assert(s.take(0) =~= Seq::empty());
            assert(media_files(media@) =~= leaders(s.take(0)));
            assert(strays@ =~= heads(s.take(0)).filter(is_stray(s)));
        }
        for file in it: ordered
            invariant
                it.seq() == s,
                in_order(s),
                started == (it.index() > 0),
                media_files(media@) == leaders(s.take(it.index())),
                forall|i: int|
                    0 <= i < media@.len() ==> layered(
                        s.take(it.index()),
                        (#[trigger] media@[i]).file.id@,
                        media@[i].overlay,
                    ),
                strays@ == heads(s.take(it.index())).filter(is_stray(s)),
                duplicates@.len() == contested(s.take(it.index())).len(),
                forall|i: int|
                    0 <= i < duplicates@.len() ==> tells(
                        #[trigger] duplicates@[i],
                        contested(s.take(it.index()))[i],
                        s.take(it.index()),
                    ),
                it.index() > 0 ==> {
                    let top = heads(s.take(it.index())).last();
                    head_id@ == top.id@ && head_layer == is_layer(top) && head_path@ == top.path@
                },
        {
            let ghost k = it.index();
            let ghost p = s.take(k);
            let ghost q = s.take(k + 1);
            let ghost top = heads(p).last();
            let ghost duplicates_before = duplicates@;
            let ghost media_before = media@;
            let layer = file.token.is_overlay();
            proof {
                lemma_heads_step(s, k);
                lemma_heads(p);
                if k > 0 {
                    lemma_runs(s, k);
                }
            }
            let repeat = started && head_layer == layer && head_id == file.id;
            assert(repeat == repeats_earlier(s, k));
            if repeat {
                proof {
                    lemma_contested_repeat(p, file);
                    assert forall|i: int| 0 <= i < media@.len() implies layered(
                        q,
                        (#[trigger] media@[i]).file.id@,
                        media@[i].overlay,
                    ) by {
                        lemma_layered_step(s, k, media@[i].file.id@, media@[i].overlay);
                    }
                }
                let known = match duplicates.pop() {
                    Some(last) => {
                        if last.overlay == layer && last.id == file.id {
                            Some(last)
                        } else {
                            duplicates.push(last);
                            None
                        }
                    },
                    None => None,
                };
                proof {
                    if known is Some {
                        assert(tells(duplicates_before.last(), contested(p).last(), p));
                        lemma_contested_last(p);
                        assert(duplicates@ =~= duplicates_before.drop_last());
                    } else {
                        assert(duplicates@ =~= duplicates_before);
                        if claimants(p, top).len() > 1 {
                            assert(tells(duplicates_before.last(), contested(p).last(), p));
                        }
                    }
                }
                let told = match known {
                    Some(last) => {
                        let mut ignored = last.ignored;
                        proof {
                            lemma_paths_push(claimants(p, top), file, ignored@, file.path);
                        }
                        ignored.push(file.path);
                        Duplicate { id: last.id, overlay: last.overlay, kept: last.kept, ignored }
                    },
                    None => {
                        let mut ignored: Vec<FilePath> = Vec::new();
                        proof {
                            assert(path_views(ignored@) =~= file_paths(claimants(p, top).skip(1)));
                            lemma_paths_push(claimants(p, top), file, ignored@, file.path);
                        }
                        ignored.push(file.path);
                        Duplicate { id: file.id, overlay: layer, kept: head_path.clone(), ignored }
                    },
                };
                assert(tells(told, top, q));
                duplicates.push(told);
                assert forall|i: int| 0 <= i < duplicates@.len() implies tells(
                    #[trigger] duplicates@[i],
                    contested(q)[i],
                    q,
                ) by {
                    if i < duplicates@.len() - 1 {
                        assert(duplicates@[i] == duplicates_before[i]);
                        assert(tells(duplicates_before[i], contested(p)[i], p));
                    }
                }
            } else {
                proof {
                    lemma_contested_new(p, file);
                    heads(p).lemma_filter_push(file, is_stray(s));
                    heads(p).lemma_filter_push(file, is_media());
                    assert forall|i: int| 0 <= i < duplicates@.len() implies tells(
                        #[trigger] duplicates@[i],
                        contested(q)[i],
                        q,
                    ) by {
                        assert(tells(duplicates@[i], contested(p)[i], p));
                    }
                }
                head_id = file.id.clone();
                head_layer = layer;
                head_path = file.path.clone();
                if layer {
                    proof {
                        lemma_layer_follows_media(s, k);
                    }
                    let own = match media.pop() {
                        Some(last) => {
                            if last.file.id == file.id {
                                Some(last)
                            } else {
                                media.push(last);
                                None
                            }
                        },
                        None => None,
                    };
                    proof {
                        assert(media_before.len() > 0 ==> media_files(media_before).last() == media_before.last().file);
                        if own is None {
                            assert(media@ =~= media_before);
                        } else {
                            assert(media@ =~= media_before.drop_last());
                        }
                        lemma_leaders_distinct(heads(p));
                    }
                    match own {
                        Some(last) => {
                            assert(heads(q).contains(file)) by {
                                assert(heads(q)[heads(q).len() - 1] == file);
                            }
                            media.push(ChatMedia { file: last.file, overlay: Some(file) });
                            assert(media_files(media@) =~= media_files(media_before));
                            assert forall|i: int| 0 <= i < media@.len() implies layered(
                                q,
                                (#[trigger] media@[i]).file.id@,
                                media@[i].overlay,
                            ) by {
                                if i < media@.len() - 1 {
                                    assert(media@[i] == media_before[i]);
                                    assert(leaders(p)[i] == media_before[i].file);
                                    assert(leaders(p)[media_before.len() - 1] == media_before.last().file);
                                    lemma_layered_step(s, k, media@[i].file.id@, media@[i].overlay);
                                }
                            }
                        },
                        None => {
                            strays.push(file);
                            assert forall|i: int| 0 <= i < media@.len() implies layered(
                                q,
                                (#[trigger] media@[i]).file.id@,
                                media@[i].overlay,
                            ) by {
                                assert(leaders(p)[i] == media@[i].file);
                                let m = lemma_leader_at(p, i);
                                assert(s[m] == p[m]);
                                assert(!media_with(s, file.id@));
                                lemma_layered_step(s, k, media@[i].file.id@, media@[i].overlay);
                            }
                        },
                    }
                } else {
                    assert(layered(q, file.id@, None)) by {
                        assert forall|j: int| 0 <= j < q.len() && is_layer(#[trigger] q[j]) implies q[j].id@
                            != file.id@ by {
                            assert(q[j] == s[j]);
                            assert(j < k ==> s[j].le(s[k]));
                        }
                    }
                    media.push(ChatMedia { file, overlay: None });
                    assert(media_files(media@) =~= media_files(media_before).push(file));
                    assert forall|i: int| 0 <= i < media@.len() implies layered(
                        q,
                        (#[trigger] media@[i]).file.id@,
                        media@[i].overlay,
                    ) by {
                        if i < media@.len() - 1 {
                            assert(media@[i] == media_before[i]);
                            lemma_layered_step(s, k, media@[i].file.id@, media@[i].overlay);
                        }
                    }
                }
            }
            started = true;
        }
        assert(s.take(s.len() as int) =~= s);
        Discovery {
            media,
            unmatched_overlays: strays,
            unparsed: sort(unparsed),
            duplicates,
            unreadable: sort(unreadable),
        }
    }
}

/// What a scan found, read off the files in order.
pub open spec fn found(
    r: Discovery,
    files: Seq<ChatMediaFile>,
    unparsed: Seq<FilePath>,
    unreadable: Seq<UnreadableDir>,
) -> bool {
    let s = sorted(files);
    &&& media_files(r.media@) == leaders(s)
    &&& forall|i: int| 0 <= i < r.media@.len() ==> layered(s, (#[trigger] r.media@[i]).file.id@, r.media@[i].overlay)
    &&& r.unmatched_overlays@ == stray_layers(s)
    &&& r.duplicates@.len() == contested(s).len()
    &&& forall|i: int| 0 <= i < r.duplicates@.len() ==> tells(#[trigger] r.duplicates@[i], contested(s)[i], s)
    &&& r.unparsed@ == sorted(unparsed)
    &&& r.unreadable@ == sorted(unreadable)
}

// ---- laws ----

pub open spec fn by_path() -> spec_fn(ChatMediaFile) -> PathView {
    |file: ChatMediaFile| file.path@
}

pub open spec fn by_dir() -> spec_fn(UnreadableDir) -> PathView {
    |unreadable: UnreadableDir| unreadable.dir@
}

/// What a file is placed by.
spec fn by_claim() -> spec_fn(ChatMediaFile) -> (Seq<char>, bool, PathView) {
    |file: ChatMediaFile| (file.id@, is_layer(file), file.path@)
}

spec fn by_view() -> spec_fn(FilePath) -> PathView {
    |path: FilePath| path@
}

/// Whether two discoveries found the same, in the same order.
pub open spec fn alike(a: Discovery, b: Discovery) -> bool {
    &&& media_files(a.media@) == media_files(b.media@)
    &&& forall|i: int| 0 <= i < a.media@.len() ==> (#[trigger] a.media@[i]).overlay == b.media@[i].overlay
    &&& a.unmatched_overlays@ == b.unmatched_overlays@
    &&& path_views(a.unparsed@) == path_views(b.unparsed@)
    &&& a.duplicates@.len() == b.duplicates@.len()
    &&& forall|i: int| 0 <= i < a.duplicates@.len() ==> same_duplicate(#[trigger] a.duplicates@[i], b.duplicates@[i])
    &&& a.unreadable@ == b.unreadable@
}

pub open spec fn same_duplicate(a: Duplicate, b: Duplicate) -> bool {
    &&& a.id@ == b.id@
    &&& a.overlay == b.overlay
    &&& a.kept@ == b.kept@
    &&& path_views(a.ignored@) == path_views(b.ignored@)
}

proof fn lemma_ranked_by_claim()
    ensures
        ranked_by(by_claim()),
        ranked_by(by_view()),
        ranked_by(by_dir()),
{
    assert forall|a: ChatMediaFile, b: ChatMediaFile| #[trigger] a.le(b) && b.le(a) implies by_claim()(a) == by_claim()(b) by {
        if a.id@ != b.id@ {
            crate::order::lemma_text_le_antisymmetric(a.id@, b.id@);
        }
        lemma_path_le_antisymmetric(a.path@, b.path@);
    }
    assert forall|a: FilePath, b: FilePath| #[trigger] a.le(b) && b.le(a) implies by_view()(a) == by_view()(b) by {
        lemma_path_le_antisymmetric(a@, b@);
    }
    assert forall|a: UnreadableDir, b: UnreadableDir| #[trigger] a.le(b) && b.le(a) implies by_dir()(a) == by_dir()(b) by {
        lemma_path_le_antisymmetric(a.dir@, b.dir@);
    }
}

/// The layer over a media is one at most.
proof fn lemma_layered_once(s: Seq<ChatMediaFile>, id: Seq<char>, a: Option<ChatMediaFile>, b: Option<ChatMediaFile>)
    requires
        layered(s, id, a),
        layered(s, id, b),
    ensures
        a == b,
{
    lemma_heads(s);
    let h = heads(s);
    match (a, b) {
        (Some(x), Some(y)) => {
            let i = choose|i: int| 0 <= i < h.len() && h[i] == x;
            let j = choose|j: int| 0 <= j < h.len() && h[j] == y;
            if i < j {
                assert(!same_key(h[i], h[j]));
            } else if j < i {
                assert(!same_key(h[j], h[i]));
            }
        },
        (Some(x), None) => {
            let i = choose|i: int| 0 <= i < h.len() && h[i] == x;
            assert(s.contains(h[i]));
            let j = choose|j: int| 0 <= j < s.len() && s[j] == x;
            assert(is_layer(s[j]));
        },
        (None, Some(y)) => {
            let i = choose|i: int| 0 <= i < h.len() && h[i] == y;
            assert(s.contains(h[i]));
            let j = choose|j: int| 0 <= j < s.len() && s[j] == y;
            assert(is_layer(s[j]));
        },
        (None, None) => {},
    }
}

/// The order a walk found things in never shows: where no two files share a path, nor two
/// directories, what is found in one order is what is found in any other.
pub proof fn law_the_order_of_a_walk_never_shows(
    a: Discovery,
    files: Seq<ChatMediaFile>,
    unparsed: Seq<FilePath>,
    unreadable: Seq<UnreadableDir>,
    b: Discovery,
    other_files: Seq<ChatMediaFile>,
    other_unparsed: Seq<FilePath>,
    other_unreadable: Seq<UnreadableDir>,
)
    requires
        found(a, files, unparsed, unreadable),
        found(b, other_files, other_unparsed, other_unreadable),
        files.to_multiset() == other_files.to_multiset(),
        unparsed.to_multiset() == other_unparsed.to_multiset(),
        unreadable.to_multiset() == other_unreadable.to_multiset(),
        keys_distinct(files, by_path()),
        keys_distinct(unreadable, by_dir()),
    ensures
        alike(a, b),
{
    lemma_ranked_by_claim();
    assert forall|i: int, j: int| 0 <= i < j < files.len() implies by_claim()(#[trigger] files[i]) != by_claim()(
        #[trigger] files[j],
    ) by {
        assert(by_path()(files[i]) != by_path()(files[j]));
    }
    law_sorting_forgets_the_order(files, other_files, by_claim());
    law_sorting_forgets_the_order(unparsed, other_unparsed, by_view());
    law_sorting_forgets_the_order(unreadable, other_unreadable, by_dir());
    let s = sorted(files);
    assert(path_views(a.unparsed@) =~= a.unparsed@.map_values(by_view()));
    assert(path_views(b.unparsed@) =~= b.unparsed@.map_values(by_view()));
    assert(media_files(a.media@).len() == media_files(b.media@).len());
    assert forall|i: int| 0 <= i < a.media@.len() implies (#[trigger] a.media@[i]).overlay == b.media@[i].overlay by {
        assert(media_files(a.media@)[i] == media_files(b.media@)[i]);
        lemma_layered_once(s, a.media@[i].file.id@, a.media@[i].overlay, b.media@[i].overlay);
    }
    assert forall|i: int| 0 <= i < a.duplicates@.len() implies same_duplicate(#[trigger] a.duplicates@[i], b.duplicates@[i]) by {
        assert(tells(b.duplicates@[i], contested(s)[i], s));
    }
}

/// The head of a claim is the first file of it.
proof fn lemma_head_is_first(s: Seq<ChatMediaFile>, i: int) -> (k: int)
    requires
        0 <= i < heads(s).len(),
    ensures
        0 <= k < s.len(),
        s[k] == heads(s)[i],
        !repeats_earlier(s, k),
    decreases s.len(),
{
    let rest = s.drop_last();
    if i < heads(rest).len() {
        let k = lemma_head_is_first(rest, i);
        assert(heads(s)[i] == heads(rest)[i]);
        if repeats_earlier(s, k) {
            let j = choose|j: int| 0 <= j < k && same_key(#[trigger] s[j], s[k]);
            assert(same_key(rest[j], rest[k]));
        }
        k
    } else {
        s.len() - 1
    }
}

/// A head stands before every file that claims what it claims, by its path.
proof fn lemma_head_has_the_first_path(s: Seq<ChatMediaFile>, i: int, file: ChatMediaFile)
    requires
        in_order(s),
        0 <= i < heads(s).len(),
        s.contains(file),
        same_key(heads(s)[i], file),
    ensures
        heads(s)[i].path.le(file.path),
{
    let k = lemma_head_is_first(s, i);
    let q = choose|q: int| 0 <= q < s.len() && s[q] == file;
    if q < k {
        assert(same_key(s[q], s[k]));
    } else if q > k {
        assert(s[k].le(s[q]));
    } else {
        FilePath::total(file.path, file.path);
    }
}

/// Media and layers are told apart and brought together by id: what a scan gives out as media is no
/// caption layer; the layer over it is one with the same id; and where it has none, no file of the
/// scan is a layer with its id.
pub proof fn law_a_layer_goes_with_its_media(
    r: Discovery,
    files: Seq<ChatMediaFile>,
    unparsed: Seq<FilePath>,
    unreadable: Seq<UnreadableDir>,
    at: int,
)
    requires
        found(r, files, unparsed, unreadable),
        0 <= at < r.media@.len(),
    ensures
        ({
            let media = r.media@[at];
            &&& files.contains(media.file)
            &&& media.file.token != Token::Overlay
            &&& match media.overlay {
                Some(layer) => files.contains(layer) && layer.token == Token::Overlay && layer.id@ == media.file.id@,
                None => forall|i: int|
                    0 <= i < files.len() && (#[trigger] files[i]).token == Token::Overlay ==> files[i].id@ != media.file.id@,
            }
        }),
{
    let s = sorted(files);
    let media = r.media@[at];
    assert(media_files(r.media@)[at] == media.file);
    lemma_heads(s);
    lemma_filter_from(heads(s), is_media());
    assert(leaders(s)[at] == media.file);
    assert(heads(s).contains(media.file));
    let k = choose|k: int| 0 <= k < heads(s).len() && heads(s)[k] == media.file;
    assert(s.contains(heads(s)[k]));
    lemma_sorted_contains(files, media.file);
    match media.overlay {
        Some(layer) => {
            let k = choose|k: int| 0 <= k < heads(s).len() && heads(s)[k] == layer;
            assert(s.contains(heads(s)[k]));
            lemma_sorted_contains(files, layer);
        },
        None => {
            assert forall|i: int| 0 <= i < files.len() && (#[trigger] files[i]).token == Token::Overlay implies files[i].id@ != media.file.id@ by {
                lemma_sorted_contains(files, files[i]);
                assert(files.contains(files[i]));
                let j = choose|j: int| 0 <= j < s.len() && s[j] == files[i];
                assert(is_layer(s[j]));
            }
        },
    }
}

/// Every file of a scan is answered for: media by the media of its id, whose path comes first among
/// the files of that id; and a layer by the one over the media of its id, or where no file is media
/// with its id, among the strays.
pub proof fn law_every_file_is_answered_for(
    r: Discovery,
    files: Seq<ChatMediaFile>,
    unparsed: Seq<FilePath>,
    unreadable: Seq<UnreadableDir>,
    at: int,
)
    requires
        found(r, files, unparsed, unreadable),
        0 <= at < files.len(),
    ensures
        ({
            let file = files[at];
            if file.token != Token::Overlay {
                exists|m: int| 0 <= m < r.media@.len() && (#[trigger] r.media@[m]).file.id@ == file.id@ && r.media@[m].file.path.le(file.path)
            } else if exists|j: int| 0 <= j < files.len() && (#[trigger] files[j]).token != Token::Overlay && files[j].id@ == file.id@ {
                exists|m: int| 0 <= m < r.media@.len() && (#[trigger] r.media@[m]).file.id@ == file.id@ && r.media@[m].overlay is Some
            } else {
                exists|m: int|
                    0 <= m < r.unmatched_overlays@.len() && (#[trigger] r.unmatched_overlays@[m]).id@ == file.id@
                        && r.unmatched_overlays@[m].token == Token::Overlay && r.unmatched_overlays@[m].path.le(file.path)
            }
        }),
{
    let s = sorted(files);
    let file = files[at];
    lemma_sorted(files);
    lemma_sorted_contains(files, file);
    assert(files.contains(file));
    lemma_heads(s);
    let q = choose|q: int| 0 <= q < s.len() && s[q] == file;
    let h = choose|h: int| 0 <= h < heads(s).len() && same_key(#[trigger] heads(s)[h], s[q]);
    lemma_head_has_the_first_path(s, h, file);
    if file.token != Token::Overlay {
        lemma_filter_holds(heads(s), is_media(), h);
        let m = choose|m: int| 0 <= m < leaders(s).len() && leaders(s)[m] == heads(s)[h];
        assert(media_files(r.media@)[m] == r.media@[m].file);
    } else if exists|j: int| 0 <= j < files.len() && (#[trigger] files[j]).token != Token::Overlay && files[j].id@ == file.id@ {
        let j = choose|j: int| 0 <= j < files.len() && (#[trigger] files[j]).token != Token::Overlay && files[j].id@ == file.id@;
        lemma_sorted_contains(files, files[j]);
        assert(files.contains(files[j]));
        let p = choose|p: int| 0 <= p < s.len() && s[p] == files[j];
        let g = choose|g: int| 0 <= g < heads(s).len() && same_key(#[trigger] heads(s)[g], s[p]);
        lemma_filter_holds(heads(s), is_media(), g);
        let m = choose|m: int| 0 <= m < leaders(s).len() && leaders(s)[m] == heads(s)[g];
        assert(media_files(r.media@)[m] == r.media@[m].file);
        assert(layered(s, r.media@[m].file.id@, r.media@[m].overlay));
        if r.media@[m].overlay is None {
            assert(is_layer(s[q]));
        }
    } else {
        if media_with(s, file.id@) {
            let j = choose|j: int| 0 <= j < s.len() && !is_layer(#[trigger] s[j]) && s[j].id@ == file.id@;
            lemma_sorted_contains(files, s[j]);
            assert(s.contains(s[j]));
            let i = choose|i: int| 0 <= i < files.len() && files[i] == s[j];
            assert(files[i].token != Token::Overlay);
        }
        assert(is_stray(s)(heads(s)[h]));
        lemma_filter_holds(heads(s), is_stray(s), h);
        let m = choose|m: int| 0 <= m < stray_layers(s).len() && stray_layers(s)[m] == heads(s)[h];
        assert(r.unmatched_overlays@[m] == heads(s)[h]);
    }
}

/// A name is read as it is put together: a day, an underscore, a role whatever its case, a tilde, an
/// id of letters and digits, a dot and an extension name the media of that day, role and id.
pub proof fn law_a_plain_name_is_read_as_put_together(path: PathView, day: Day, token: Token, role: Seq<char>, id: Seq<char>, extension: Seq<char>)
    requires
        day.wf(),
        fold(role) == token.word(),
        alnum_run(id),
        !extension.contains('.'),
        !extension.contains('\0'),
        file_name_of(path) == Some(day_text(day) + seq!['_'] + role + seq!['~'] + id + seq!['.'] + extension),
    ensures
        file_of(path) == Some(
            FileView { path, day, token, family: FamilyView::Plain { id }, id: token.word() + seq!['~'] + id, extension },
        ),
{
    assert forall|i: int| 0 <= i < id.len() implies #[trigger] id[i] != '.' && id[i] != '\0' by {
        assert(is_alnum(id[i]));
    }
    assert(family_of(id) == Some(FamilyView::Plain { id })) by {
        reveal_strlit(".zip.");
        crate::text::lemma_infix_at(id, ".zip."@, 0);
        let at = crate::text::infix_at(id, ".zip."@, 0);
        if at >= 0 {
            assert(id.subrange(at, at + 5)[0] == id[at]);
        }
    }
    reveal_strlit("~");
    assert("~"@ =~= seq!['~']);
    lemma_put_together(path, day, token, role, id, extension);
}

proof fn lemma_day_plain(day: Day)
    requires
        day.wf(),
    ensures
        day_text(day).len() == 10,
        forall|i: int| 0 <= i < 10 ==> #[trigger] day_text(day)[i] != '_' && day_text(day)[i] != '\0',
{
    let s = day_text(day);
    let (y, m, d) = (day.year as int, day.month as int, day.day as int);
    assert(s =~= seq![
        crate::text::digit_char((y / 100 / 10) as nat),
        crate::text::digit_char((y / 100 % 10) as nat),
        crate::text::digit_char((y % 100 / 10) as nat),
        crate::text::digit_char((y % 100 % 10) as nat),
        '-',
        crate::text::digit_char((m / 10) as nat),
        crate::text::digit_char((m % 10) as nat),
        '-',
        crate::text::digit_char((d / 10) as nat),
        crate::text::digit_char((d % 10) as nat),
    ]);
}

proof fn lemma_role_plain(role: Seq<char>, token: Token)
    requires
        fold(role) == token.word(),
    ensures
        forall|i: int| 0 <= i < role.len() ==> #[trigger] role[i] != '~' && role[i] != '\0' && role[i] != '_',
{
    reveal_strlit("b");
    reveal_strlit("media");
    reveal_strlit("overlay");
    reveal_strlit("thumbnail");
    assert forall|i: int| 0 <= i < role.len() implies #[trigger] role[i] != '~' && role[i] != '\0' && role[i] != '_' by {
        assert(fold(role)[i] == crate::text::lower(role[i]));
        match token {
            Token::B => {
                assert("b"@ =~= seq!['b']);
            },
            Token::Media => {
                assert("media"@ =~= seq!['m', 'e', 'd', 'i', 'a']);
            },
            Token::Overlay => {
                assert("overlay"@ =~= seq!['o', 'v', 'e', 'r', 'l', 'a', 'y']);
            },
            Token::Thumbnail => {
                assert("thumbnail"@ =~= seq!['t', 'h', 'u', 'm', 'b', 'n', 'a', 'i', 'l']);
            },
        }
        assert('a' <= token.word()[i] <= 'z');
    }
}

/// The tokens on either side of a bar are the tokens of both sides, in turn; and what holds no bar
/// is one token, trimmed, or none where nothing is left of it.
pub proof fn law_bars_part_tokens(left: Seq<char>, right: Seq<char>)
    requires
        !left.contains('|'),
    ensures
        tokens_of(left) == (if trimmed(left).len() == 0 {
            Seq::<Seq<char>>::empty()
        } else {
            seq![trimmed(left)]
        }),
        tokens_of(left + seq!['|'] + right) == tokens_of(left) + tokens_of(right),
{
    let all = left + seq!['|'] + right;
    let keep = |token: Seq<char>| token.len() > 0;
    let trim = |piece: Seq<char>| trimmed(piece);
    assert forall|i: int| 0 <= i < left.len() implies left[i] != '|' by {
        assert(left.contains(left[i]));
    }
    crate::text::lemma_first_at_is(left, '|', left.len() as int);
    crate::text::lemma_first_at_is(all, '|', left.len() as int);
    assert(all.take(left.len() as int) =~= left);
    assert(all.skip(left.len() as int + 1) =~= right);
    assert(pieces(left, '|') =~= seq![left]);
    assert(pieces(all, '|') =~= seq![left] + pieces(right, '|'));
    let own = seq![left].map_values(trim);
    let rest = pieces(right, '|').map_values(trim);
    assert(own =~= seq![trimmed(left)]);
    assert(pieces(all, '|').map_values(trim) =~= own + rest);
    Seq::filter_distributes_over_add(own, rest, keep);
    assert(own.filter(keep) =~= if trimmed(left).len() == 0 { Seq::<Seq<char>>::empty() } else { seq![trimmed(left)] }) by {
        reveal(Seq::filter);
        assert(own.drop_last() =~= Seq::empty());
        assert(own.drop_last().filter(keep) =~= Seq::empty());
        assert(own.last() == trimmed(left));
    }
    assert(tokens_of(left) == own.filter(keep));
    assert(tokens_of(right) == rest.filter(keep));
}

/// A message names media by `b~` and its letters and digits, whatever the case of the `b`; any other
/// text names none.
pub proof fn law_a_token_is_b_and_an_id(raw: Seq<char>, prefix: Seq<char>, id: Seq<char>)
    requires
        !prefix.contains('~'),
        raw == prefix + seq!['~'] + id,
    ensures
        fold(prefix) == "b"@ && alnum_run(id) ==> history_token_of(raw) == Some("b~"@ + id),
        fold(prefix) != "b"@ || !alnum_run(id) ==> history_token_of(raw) is None,
{
    assert forall|i: int| 0 <= i < prefix.len() implies prefix[i] != '~' by {
        assert(prefix.contains(prefix[i]));
    }
    crate::text::lemma_first_at_is(raw, '~', prefix.len() as int);
    assert(raw.take(prefix.len() as int) =~= prefix);
    assert(raw.skip(prefix.len() as int + 1) =~= id);
    reveal_strlit("b");
    reveal_strlit("~");
    reveal_strlit("b~");
    reveal_strlit("media");
    reveal_strlit("overlay");
    reveal_strlit("thumbnail");
    assert("b"@ + "~"@ =~= "b~"@);
    if fold(prefix) != "b"@ {
        assert("media"@.len() != 1 && "overlay"@.len() != 1 && "thumbnail"@.len() != 1);
    }
}

/// The name of a file an export unpacked from a zip is read as it is put together: behind its day
/// and role stand the zip's word and number, `.zip.` and the member's hash. Its role is no part of
/// what it is told apart by, so that media and the layer over it go together; and no message can
/// name it.
pub proof fn law_a_zip_name_is_read_as_put_together(
    path: PathView,
    day: Day,
    token: Token,
    role: Seq<char>,
    word: Seq<char>,
    number: Seq<char>,
    hash: Seq<char>,
    extension: Seq<char>,
)
    requires
        day.wf(),
        fold(role) == token.word(),
        alnum_run(word),
        digit_run(number),
        alnum_run(hash),
        !extension.contains('.'),
        !extension.contains('\0'),
        file_name_of(path) == Some(
            day_text(day) + seq!['_'] + role + seq!['~'] + (word + seq!['-'] + number + ".zip."@ + hash) + seq!['.'] + extension,
        ),
    ensures
        file_of(path) == Some(
            FileView {
                path,
                day,
                token,
                family: FamilyView::Zip { mid: word + seq!['-'] + number, hash },
                id: day_text(day) + "_"@ + (word + seq!['-'] + number) + ".zip."@ + hash,
                extension,
            },
        ),
        forall|file: ChatMediaFile| #[trigger] file@ == file_of(path).unwrap() ==> history_token_at(file) is None,
{
    let mid = word + seq!['-'] + number;
    let tail = mid + ".zip."@ + hash;
    assert(tail =~= word + seq!['-'] + number + ".zip."@ + hash);
    reveal_strlit(".zip.");
    assert forall|i: int| 0 <= i < word.len() implies word[i] != '-' && word[i] != '.' && word[i] != '\0' by {
        assert(is_alnum(word[i]));
    }
    assert forall|i: int| 0 <= i < number.len() implies number[i] != '.' && number[i] != '\0' by {
        assert(crate::text::is_digit(number[i]));
    }
    assert forall|i: int| 0 <= i < hash.len() implies hash[i] != '\0' by {
        assert(is_alnum(hash[i]));
    }
    assert forall|i: int| 0 <= i < mid.len() implies mid[i] != '.' && mid[i] != '\0' by {
        if i < word.len() {
            assert(mid[i] == word[i]);
        } else if i > word.len() {
            assert(mid[i] == number[i - word.len() - 1]);
        }
    }
    crate::text::lemma_first_at_is(mid, '-', word.len() as int);
    assert(mid.take(word.len() as int) =~= word);
    assert(mid.skip(word.len() as int + 1) =~= number);
    assert(mid_shaped(mid));
    crate::text::lemma_infix_at(tail, ".zip."@, 0);
    assert(tail.subrange(mid.len() as int, mid.len() as int + 5) =~= ".zip."@);
    assert(crate::text::stands_at(tail, ".zip."@, mid.len() as int));
    let at = crate::text::infix_at(tail, ".zip."@, 0);
    if at < mid.len() {
        assert(tail.subrange(at, at + 5)[0] == tail[at]);
        assert(tail[at] == mid[at]);
    }
    assert(at == mid.len());
    assert(tail.take(at) =~= mid);
    assert(tail.skip(at + 5) =~= hash);
    assert forall|i: int| 0 <= i < tail.len() implies #[trigger] tail[i] != '\0' by {
        if i < mid.len() {
            assert(tail[i] == mid[i]);
        } else if i >= mid.len() + 5 {
            assert(tail[i] == hash[i - mid.len() - 5]);
        }
    }
    lemma_put_together(path, day, token, role, tail, extension);
    assert forall|file: ChatMediaFile| #[trigger] file@ == file_of(path).unwrap() implies history_token_at(file) is None by {
        assert(file@.family == file.family@);
    }
}

/// A name is read off its day, its role, its tail and its extension.
proof fn lemma_put_together(path: PathView, day: Day, token: Token, role: Seq<char>, tail: Seq<char>, extension: Seq<char>)
    requires
        day.wf(),
        fold(role) == token.word(),
        family_of(tail) is Some,
        forall|i: int| 0 <= i < tail.len() ==> #[trigger] tail[i] != '\0',
        !extension.contains('.'),
        !extension.contains('\0'),
        file_name_of(path) == Some(day_text(day) + seq!['_'] + role + seq!['~'] + tail + seq!['.'] + extension),
    ensures
        file_of(path) == Some(
            FileView {
                path,
                day,
                token,
                family: family_of(tail).unwrap(),
                id: id_of(day, token, family_of(tail).unwrap()),
                extension,
            },
        ),
{
    let name = file_name_of(path).unwrap();
    let spelled = day_text(day);
    let stem = spelled + seq!['_'] + role + seq!['~'] + tail;
    let rest = role + seq!['~'] + tail;
    law_a_day_is_read_back(day);
    lemma_day_plain(day);
    lemma_role_plain(role, token);
    lemma_words_folded();
    assert(name =~= stem + seq!['.'] + extension);
    assert(is_text(name)) by {
        assert forall|i: int| 0 <= i < name.len() implies name[i] != '\0' by {
            if i < spelled.len() {
            } else if i == spelled.len() {
            } else if i < spelled.len() + 1 + role.len() {
                assert(name[i] == role[i - spelled.len() - 1]);
            } else if i == spelled.len() + 1 + role.len() {
            } else if i < stem.len() {
                assert(name[i] == tail[i - spelled.len() - 2 - role.len()]);
            } else if i > stem.len() {
                assert(extension.contains(extension[i - stem.len() - 1]));
            }
        }
    }
    crate::text::lemma_last_at(name, '.');
    assert(name[stem.len() as int] == '.');
    assert(crate::text::last_at(name, '.') == stem.len()) by {
        let at = crate::text::last_at(name, '.');
        if at > stem.len() {
            assert(extension.contains(extension[at - stem.len() - 1]));
        }
    }
    assert(name.take(stem.len() as int) =~= stem);
    assert(name.skip(stem.len() as int + 1) =~= extension);
    crate::text::lemma_first_at_is(stem, '_', spelled.len() as int);
    assert(stem.take(spelled.len() as int) =~= spelled);
    assert(stem.skip(spelled.len() as int + 1) =~= rest);
    crate::text::lemma_first_at_is(rest, '~', role.len() as int);
    assert(rest.take(role.len() as int) =~= role);
    assert(rest.skip(role.len() as int + 1) =~= tail);
    assert(token_of(role) == Some(token)) by {
        law_a_role_word_is_read_back(token);
    }
}

/// A message can name a file exactly where the file's role is `b` and it has an id of its own; it is
/// then named by that role and id.
pub proof fn law_only_plain_b_media_can_be_named(path: PathView, file: ChatMediaFile)
    requires
        file_of(path) == Some(file@),
    ensures
        history_token_at(file) is Some <==> file.token == Token::B && file.family is Plain,
        history_token_at(file) matches Some(token) ==> (file.family matches Family::Plain { id } && token == "b~"@ + id@),
{
    reveal_strlit("b");
    reveal_strlit("~");
    reveal_strlit("b~");
    match file.family {
        Family::Plain { id } => {
            assert(file@.family == (FamilyView::Plain { id: id@ }));
            assert("b"@ + "~"@ + id@ =~= "b~"@ + id@);
        },
        Family::Zip { .. } => {},
    }
}

/// Whether a file has an id in a role.
pub open spec fn claims(file: ChatMediaFile, id: Seq<char>, overlay: bool) -> bool {
    file.id@ == id && (file.token == Token::Overlay) == overlay
}

/// What was passed over is told: a duplicate keeps a file of its id and role, and what it ignores
/// are others of that id and role, of which there is one at least; and wherever two files have one
/// id and role, a duplicate tells of it.
pub proof fn law_duplicates_tell_what_was_passed_over(
    r: Discovery,
    files: Seq<ChatMediaFile>,
    unparsed: Seq<FilePath>,
    unreadable: Seq<UnreadableDir>,
)
    requires
        found(r, files, unparsed, unreadable),
    ensures
        forall|d: int|
            0 <= d < r.duplicates@.len() ==> {
                let duplicate = #[trigger] r.duplicates@[d];
                &&& duplicate.ignored@.len() > 0
                &&& is_path_of(files, duplicate.id@, duplicate.overlay, duplicate.kept@)
                &&& forall|j: int|
                    0 <= j < duplicate.ignored@.len() ==> is_path_of(
                        files,
                        duplicate.id@,
                        duplicate.overlay,
                        (#[trigger] duplicate.ignored@[j])@,
                    )
            },
        forall|a: int, b: int|
            0 <= a < b < files.len() && same_key(#[trigger] files[a], #[trigger] files[b]) ==> is_told(
                r.duplicates@,
                files[a].id@,
                files[a].token == Token::Overlay,
            ),
{
    let s = sorted(files);
    lemma_sorted(files);
    lemma_heads(s);
    lemma_filter_from(heads(s), is_contested(s));
    assert forall|d: int| 0 <= d < r.duplicates@.len() implies {
        let duplicate = #[trigger] r.duplicates@[d];
        &&& duplicate.ignored@.len() > 0
        &&& is_path_of(files, duplicate.id@, duplicate.overlay, duplicate.kept@)
        &&& forall|j: int|
            0 <= j < duplicate.ignored@.len() ==> is_path_of(
                files,
                duplicate.id@,
                duplicate.overlay,
                (#[trigger] duplicate.ignored@[j])@,
            )
    } by {
        let duplicate = r.duplicates@[d];
        let head = contested(s)[d];
        assert(tells(duplicate, head, s));
        assert(heads(s).filter(is_contested(s))[d] == head);
        assert(heads(s).contains(head) && is_contested(s)(head));
        let h = choose|h: int| 0 <= h < heads(s).len() && heads(s)[h] == head;
        assert(s.contains(heads(s)[h]));
        lemma_sorted_contains(files, head);
        let k = choose|k: int| 0 <= k < files.len() && files[k] == head;
        assert(claims(files[k], duplicate.id@, duplicate.overlay));
        let all = claimants(s, head);
        let passed = file_paths(all.skip(1));
        assert(path_views(duplicate.ignored@).len() == passed.len());
        lemma_filter_from(s, claims_like(head));
        assert forall|j: int| 0 <= j < duplicate.ignored@.len() implies is_path_of(
            files,
            duplicate.id@,
            duplicate.overlay,
            (#[trigger] duplicate.ignored@[j])@,
        ) by {
            assert(path_views(duplicate.ignored@)[j] == duplicate.ignored@[j]@);
            assert(passed[j] == all.skip(1)[j].path@);
            let other = all[j + 1];
            assert(all.skip(1)[j] == other);
            assert(s.filter(claims_like(head))[j + 1] == other);
            assert(s.contains(other) && claims_like(head)(other));
            lemma_sorted_contains(files, other);
            let k = choose|k: int| 0 <= k < files.len() && files[k] == other;
            assert(claims(files[k], duplicate.id@, duplicate.overlay));
        }
    }
    assert forall|a: int, b: int| 0 <= a < b < files.len() && same_key(#[trigger] files[a], #[trigger] files[b]) implies is_told(
        r.duplicates@,
        files[a].id@,
        files[a].token == Token::Overlay,
    ) by {
        lemma_sorted_contains(files, files[a]);
        assert(files.contains(files[a]));
        let q = choose|q: int| 0 <= q < s.len() && s[q] == files[a];
        let h = choose|h: int| 0 <= h < heads(s).len() && same_key(#[trigger] heads(s)[h], s[q]);
        let head = heads(s)[h];
        let like = claims_like(head);
        lemma_filter_two(files, like, a, b);
        lemma_filter_rearranged(files, s, like);
        assert(is_contested(s)(head));
        lemma_filter_holds(heads(s), is_contested(s), h);
        let d = choose|d: int| 0 <= d < contested(s).len() && contested(s)[d] == head;
        assert(tells(r.duplicates@[d], contested(s)[d], s));
    }
}

/// Whether a path is that of a file with an id in a role.
pub open spec fn is_path_of(files: Seq<ChatMediaFile>, id: Seq<char>, overlay: bool, path: PathView) -> bool {
    exists|k: int| 0 <= k < files.len() && claims(#[trigger] files[k], id, overlay) && files[k].path@ == path
}

/// Whether some duplicate tells of an id in a role.
pub open spec fn is_told(duplicates: Seq<Duplicate>, id: Seq<char>, overlay: bool) -> bool {
    exists|d: int| 0 <= d < duplicates.len() && (#[trigger] duplicates[d]).id@ == id && duplicates[d].overlay == overlay
}

proof fn lemma_filter_two(files: Seq<ChatMediaFile>, wanted: spec_fn(ChatMediaFile) -> bool, a: int, b: int)
    requires
        0 <= a < b < files.len(),
        wanted(files[a]),
        wanted(files[b]),
    ensures
        files.filter(wanted).len() >= 2,
    decreases files.len(),
{
    reveal(Seq::filter);
    let rest = files.drop_last();
    if b < rest.len() {
        lemma_filter_two(rest, wanted, a, b);
    } else {
        lemma_filter_holds(rest, wanted, a);
        assert(rest.filter(wanted).contains(rest[a]));
        assert(rest.filter(wanted).len() > 0);
    }
}

proof fn lemma_filter_rearranged(a: Seq<ChatMediaFile>, b: Seq<ChatMediaFile>, wanted: spec_fn(ChatMediaFile) -> bool)
    requires
        a.to_multiset() == b.to_multiset(),
    ensures
        a.filter(wanted).len() == b.filter(wanted).len(),
    decreases a.len(),
{
    a.to_multiset_ensures();
    b.to_multiset_ensures();
    reveal(Seq::filter);
    if a.len() > 0 {
        let x = a.last();
        assert(a[a.len() - 1] == x);
        assert(a.contains(x));
        assert(b.to_multiset().count(x) > 0);
        let k = choose|k: int| 0 <= k < b.len() && b[k] == x;
        let less = b.remove(k);
        assert(a.drop_last() =~= a.remove(a.len() - 1));
        lemma_filter_rearranged(a.drop_last(), less, wanted);
        let (front, back) = (b.take(k), b.skip(k + 1));
        assert(b =~= front + (seq![x] + back));
        assert(less =~= front + back);
        Seq::filter_distributes_over_add(front, seq![x] + back, wanted);
        Seq::filter_distributes_over_add(seq![x], back, wanted);
        Seq::filter_distributes_over_add(front, back, wanted);
        assert(seq![x].drop_last() =~= Seq::<ChatMediaFile>::empty());
        assert(seq![x].drop_last().filter(wanted).len() == 0);
        assert(seq![x].filter(wanted).len() == (if wanted(x) { 1nat } else { 0nat }));
    } else {
        assert(b =~= a);
    }
}

} // verus!
