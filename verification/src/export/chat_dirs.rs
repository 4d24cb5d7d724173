//! Conversation directories: the name a key becomes, and which directory each conversation gets.

use vstd::hash_map::StringHashMap;
use vstd::prelude::*;

use crate::export::ledger::{
    first_free, key_at, lemma_first_free_unique, lemma_fold_concat, lemma_some_free, lemma_suffix_folded, ordinal_suffix, suffix_text, Ledger,
};
use crate::export::model::ConversationId;
use crate::order::{
    in_order, keys_distinct, lemma_placed, lemma_placed_contains, lemma_placed_distinct, put_in_place, lemma_text_le_total,
    lemma_text_le_transitive, text_le, text_not_after, Ranked,
};
use crate::paths::{file_name_of, joined, parent_of, FilePath, PathView};
use crate::text::{
    alnum, chars_of, first_at, fold, folded, is_alnum, join2, same_folded, split_first_text, string_of,
};

verus! {

/// The level every chat output sits under.
pub const CHAT_DIR: &'static str = "chat";

/// Where a file no message names lands. No conversation is given this name.
pub const NO_CONVERSATION_DIR: &'static str = "_no-conversation";

/// The directory the export's own files are copied into.
pub const ORIGINALS_DIR: &'static str = "originals";

/// What a key that cleans away to nothing is called.
pub const UNNAMED_DIR: &'static str = "_unnamed";

/// The most characters of a key a name keeps.
pub const MAX_DIR_NAME: usize = 64;

// ---- names ----

/// The characters every filesystem takes in a name.
pub open spec fn is_portable(c: char) -> bool {
    is_alnum(c) || c == '-' || c == '_' || c == '.'
}

pub fn portable(c: char) -> (r: bool)
    ensures
        r == is_portable(c),
{
    alnum(c) || c == '-' || c == '_' || c == '.'
}

pub open spec fn made_portable(c: char) -> char {
    if is_portable(c) {
        c
    } else {
        '_'
    }
}

/// As much of a text as a name may hold.
pub open spec fn capped(s: Seq<char>) -> Seq<char> {
    if s.len() > MAX_DIR_NAME {
        s.take(MAX_DIR_NAME as int)
    } else {
        s
    }
}

/// Whether a key is made of refused characters alone.
pub open spec fn wholly_refused(key: Seq<char>) -> bool {
    forall|i: int| 0 <= i < key.len() ==> !is_portable(#[trigger] key[i])
}

/// The opening of a key, every refused character replaced.
pub open spec fn mapped_key(key: Seq<char>) -> Seq<char> {
    capped(key).map_values(|c: char| made_portable(c))
}

/// `s` without the dots at either end.
pub open spec fn undotted(s: Seq<char>) -> Seq<char>
    decreases s.len(),
{
    if s.len() == 0 {
        s
    } else if s[0] == '.' {
        undotted(s.drop_first())
    } else if s.last() == '.' {
        undotted(s.drop_last())
    } else {
        s
    }
}

/// What stands before the first dot.
pub open spec fn stem_of(s: Seq<char>) -> Seq<char> {
    s.take(first_at(s, '.'))
}

pub open spec fn like(a: Seq<char>, b: Seq<char>) -> bool {
    fold(a) == fold(b)
}

/// The device names Windows reserves whatever extension follows.
pub open spec fn reserved_stem(stem: Seq<char>) -> bool {
    ||| like(stem, "con"@)
    ||| like(stem, "prn"@)
    ||| like(stem, "aux"@)
    ||| like(stem, "nul"@)
    ||| like(stem, "com1"@)
    ||| like(stem, "com2"@)
    ||| like(stem, "com3"@)
    ||| like(stem, "com4"@)
    ||| like(stem, "com5"@)
    ||| like(stem, "com6"@)
    ||| like(stem, "com7"@)
    ||| like(stem, "com8"@)
    ||| like(stem, "com9"@)
    ||| like(stem, "lpt1"@)
    ||| like(stem, "lpt2"@)
    ||| like(stem, "lpt3"@)
    ||| like(stem, "lpt4"@)
    ||| like(stem, "lpt5"@)
    ||| like(stem, "lpt6"@)
    ||| like(stem, "lpt7"@)
    ||| like(stem, "lpt8"@)
    ||| like(stem, "lpt9"@)
}

/// The directory name a key becomes, before a collision with another key's is broken.
pub open spec fn cleaned(key: Seq<char>) -> Seq<char> {
    let name = undotted(mapped_key(key));
    if name.len() == 0 || wholly_refused(key) {
        UNNAMED_DIR@
    } else if reserved_stem(stem_of(name)) {
        undotted(capped(seq!['_'] + name))
    } else {
        name
    }
}

fn is_reserved(stem: &str) -> (r: bool)
    ensures
        r == reserved_stem(stem@),
{
    same_folded(stem, "con")
        || same_folded(stem, "prn")
        || same_folded(stem, "aux")
        || same_folded(stem, "nul")
        || same_folded(stem, "com1")
        || same_folded(stem, "com2")
        || same_folded(stem, "com3")
        || same_folded(stem, "com4")
        || same_folded(stem, "com5")
        || same_folded(stem, "com6")
        || same_folded(stem, "com7")
        || same_folded(stem, "com8")
        || same_folded(stem, "com9")
        || same_folded(stem, "lpt1")
        || same_folded(stem, "lpt2")
        || same_folded(stem, "lpt3")
        || same_folded(stem, "lpt4")
        || same_folded(stem, "lpt5")
        || same_folded(stem, "lpt6")
        || same_folded(stem, "lpt7")
        || same_folded(stem, "lpt8")
        || same_folded(stem, "lpt9")
}

/// Where a name without the dots at its ends begins and where it ends.
fn within_dots(chars: &Vec<char>) -> (r: (usize, usize))
    ensures
        r.0 <= r.1 <= chars@.len(),
        chars@.subrange(r.0 as int, r.1 as int) == undotted(chars@),
{
    let mut from: usize = 0;
    let mut to: usize = chars.len();
    assert(chars@.subrange(0, to as int) =~= chars@);
    while from < to && chars[from] == '.'
        invariant
            from <= to <= chars@.len(),
            undotted(chars@.subrange(from as int, to as int)) == undotted(chars@),
        decreases to - from,
    {
        let ghost now = chars@.subrange(from as int, to as int);
        assert(now[0] == chars@[from as int]);
        assert(now.drop_first() =~= chars@.subrange(from + 1, to as int));
        from += 1;
    }
    while from < to && chars[to - 1] == '.'
        invariant
            from <= to <= chars@.len(),
            from < to ==> chars@[from as int] != '.',
            undotted(chars@.subrange(from as int, to as int)) == undotted(chars@),
        decreases to - from,
    {
        let ghost now = chars@.subrange(from as int, to as int);
        assert(now[0] == chars@[from as int]);
        assert(now.last() == chars@[to - 1]);
        assert(now.drop_last() =~= chars@.subrange(from as int, to - 1));
        to -= 1;
    }
    assert(from < to ==> chars@.subrange(from as int, to as int)[0] == chars@[from as int]);
    assert(from < to ==> chars@.subrange(from as int, to as int).last() == chars@[to - 1]);
    (from, to)
}

fn is_wholly_refused(key: &Vec<char>) -> (r: bool)
    ensures
        r == wholly_refused(key@),
{
    let mut i: usize = 0;
    while i < key.len()
        invariant
            i <= key@.len(),
            forall|j: int| 0 <= j < i ==> !is_portable(#[trigger] key@[j]),
        decreases key.len() - i,
    {
        if portable(key[i]) {
            assert(is_portable(key@[i as int]));
            return false;
        }
        i += 1;
    }
    true
}

/// The directory name a conversation key becomes, before a collision with another key's is broken.
#[must_use]
pub fn dir_name(key: &str) -> (r: String)
    ensures
        r@ == cleaned(key@),
{
    let v = chars_of(key);
    let kept: usize = if v.len() > MAX_DIR_NAME {
        MAX_DIR_NAME
    } else {
        v.len()
    };
    let mut mapped: Vec<char> = Vec::new();
    let mut i: usize = 0;
    while i < kept
        invariant
            i <= kept <= v@.len(),
            mapped@ == v@.take(i as int).map_values(|c: char| made_portable(c)),
        decreases kept - i,
    {
        let c = if portable(v[i]) {
            v[i]
        } else {
            '_'
        };
        mapped.push(c);
        i += 1;
        assert(mapped@ =~= v@.take(i as int).map_values(|c: char| made_portable(c)));
    }
    assert(mapped@ =~= mapped_key(key@)) by {
        assert(v@.take(v@.len() as int) =~= v@);
    }
    let (from, to) = within_dots(&mapped);
    if from >= to || is_wholly_refused(&v) {
        return UNNAMED_DIR.to_owned();
    }
    let name = string_of(&mapped, from, to);
    let stem = match split_first_text(&name, '.') {
        Some((head, _)) => head,
        None => {
            proof {
                crate::text::lemma_first_at(name@, '.');
                assert(name@.take(name@.len() as int) =~= name@);
            }
            name.clone()
        },
    };
    if !is_reserved(&stem) {
        return name;
    }
    let mut prefixed: Vec<char> = Vec::new();
    prefixed.push('_');
    let mut at: usize = from;
    while at < to && prefixed.len() < MAX_DIR_NAME
        invariant
            from <= at <= to <= mapped@.len(),
            prefixed@ == seq!['_'] + mapped@.subrange(from as int, at as int),
            prefixed@.len() <= MAX_DIR_NAME,
        decreases to - at,
    {
        prefixed.push(mapped[at]);
        at += 1;
        assert(prefixed@ =~= seq!['_'] + mapped@.subrange(from as int, at as int));
    }
    assert(prefixed@ =~= capped(seq!['_'] + name@));
    let (start, end) = within_dots(&prefixed);
    string_of(&prefixed, start, end)
}

proof fn lemma_undotted(s: Seq<char>)
    ensures
        undotted(s).len() <= s.len(),
        undotted(s).len() > 0 ==> undotted(s)[0] != '.' && undotted(s).last() != '.',
        forall|i: int| 0 <= i < undotted(s).len() ==> s.contains(#[trigger] undotted(s)[i]),
    decreases s.len(),
{
    if s.len() > 0 {
        if s[0] == '.' {
            lemma_undotted(s.drop_first());
            assert forall|i: int| 0 <= i < undotted(s).len() implies s.contains(#[trigger] undotted(s)[i]) by {
                let rest = s.drop_first();
                let j = choose|j: int| 0 <= j < rest.len() && rest[j] == undotted(s)[i];
                assert(s[j + 1] == undotted(s)[i]);
            }
        } else if s.last() == '.' {
            lemma_undotted(s.drop_last());
            assert forall|i: int| 0 <= i < undotted(s).len() implies s.contains(#[trigger] undotted(s)[i]) by {
                let rest = s.drop_last();
                let j = choose|j: int| 0 <= j < rest.len() && rest[j] == undotted(s)[i];
                assert(s[j] == undotted(s)[i]);
            }
        }
    }
}

proof fn lemma_undotted_keeps_start(s: Seq<char>)
    requires
        s.len() > 0,
        s[0] != '.',
    ensures
        undotted(s).len() > 0,
        undotted(s)[0] == s[0],
    decreases s.len(),
{
    if s.last() == '.' {
        assert(s.len() > 1);
        lemma_undotted_keeps_start(s.drop_last());
    }
}

proof fn lemma_underscore_not_reserved(stem: Seq<char>)
    requires
        stem.len() > 0,
        stem[0] == '_',
    ensures
        !reserved_stem(stem),
{
    reveal_strlit("con");
    reveal_strlit("prn");
    reveal_strlit("aux");
    reveal_strlit("nul");
    reveal_strlit("com1");
    reveal_strlit("com2");
    reveal_strlit("com3");
    reveal_strlit("com4");
    reveal_strlit("com5");
    reveal_strlit("com6");
    reveal_strlit("com7");
    reveal_strlit("com8");
    reveal_strlit("com9");
    reveal_strlit("lpt1");
    reveal_strlit("lpt2");
    reveal_strlit("lpt3");
    reveal_strlit("lpt4");
    reveal_strlit("lpt5");
    reveal_strlit("lpt6");
    reveal_strlit("lpt7");
    reveal_strlit("lpt8");
    reveal_strlit("lpt9");
    assert(fold(stem)[0] == '_');
}

/// Whatever a key holds, its name is one plain component every filesystem takes: never empty,
/// never a step, portable throughout, bounded in characters and in bytes alike, and no device name.
pub proof fn law_a_name_is_safe(key: Seq<char>)
    ensures
        0 < cleaned(key).len() <= MAX_DIR_NAME,
        vstd::utf8::encode_utf8(cleaned(key)).len() == cleaned(key).len(),
        forall|i: int| 0 <= i < cleaned(key).len() ==> is_portable(#[trigger] cleaned(key)[i]),
        cleaned(key)[0] != '.',
        cleaned(key).last() != '.',
        !reserved_stem(stem_of(cleaned(key))),
{
    reveal_strlit("_unnamed");
    let m = mapped_key(key);
    let name = undotted(m);
    let r = cleaned(key);
    lemma_undotted(m);
    assert forall|i: int| 0 <= i < name.len() implies is_portable(#[trigger] name[i]) by {
        let j = choose|j: int| 0 <= j < m.len() && m[j] == name[i];
    }
    crate::text::lemma_first_at(r, '.');
    if name.len() == 0 || wholly_refused(key) {
        lemma_underscore_not_reserved(stem_of(r));
    } else if reserved_stem(stem_of(name)) {
        let prefixed = capped(seq!['_'] + name);
        lemma_undotted(prefixed);
        lemma_undotted_keeps_start(prefixed);
        assert forall|i: int| 0 <= i < r.len() implies is_portable(#[trigger] r[i]) by {
            let j = choose|j: int| 0 <= j < prefixed.len() && prefixed[j] == r[i];
            assert(j > 0 ==> prefixed[j] == name[j - 1]);
        }
        lemma_underscore_not_reserved(stem_of(r));
    }
    assert(vstd::utf8::is_ascii_chars(r)) by {
        assert forall|i: int| 0 <= i < r.len() implies '\0' <= #[trigger] r[i] <= '\u{7f}' by {
            assert(is_portable(r[i]));
        }
    }
    vstd::utf8::is_ascii_chars_encode_utf8(r);
}

// ---- recorded directories ----

/// The name of `dir` where it lies directly below `root`.
pub open spec fn child_of(root: PathView, dir: PathView) -> Option<Seq<char>> {
    if parent_of(dir) == Some(root) {
        file_name_of(dir)
    } else {
        None
    }
}

pub fn child_name(root: &FilePath, dir: &FilePath) -> (r: Option<String>)
    ensures
        r is Some <==> child_of(root@, dir@) is Some,
        r matches Some(name) ==> child_of(root@, dir@) == Some(name@),
{
    match dir.parent() {
        Some(parent) => {
            if parent.same_as(root) {
                match dir.file_name() {
                    Some(name) => Some(name.clone()),
                    None => None,
                }
            } else {
                None
            }
        },
        None => None,
    }
}

/// One conversation and the directories its rows name, in order.
#[derive(Debug)]
pub struct NamedDirs {
    pub key: ConversationId,
    pub dirs: Vec<FilePath>,
}

pub struct NamedView {
    pub key: Seq<char>,
    pub dirs: Seq<PathView>,
}

impl View for NamedDirs {
    type V = NamedView;

    open spec fn view(&self) -> NamedView {
        NamedView { key: self.key.0@, dirs: dir_views(self.dirs@) }
    }
}

pub open spec fn dir_views(dirs: Seq<FilePath>) -> Seq<PathView> {
    dirs.map_values(|dir: FilePath| dir@)
}

pub open spec fn named_views(named: Seq<NamedDirs>) -> Seq<NamedView> {
    named.map_values(|entry: NamedDirs| entry@)
}

impl Ranked for NamedDirs {
    open spec fn le(self, other: Self) -> bool {
        text_le(self.key.0@, other.key.0@)
    }

    proof fn total(a: Self, b: Self) {
        lemma_text_le_total(a.key.0@, b.key.0@);
    }

    proof fn transitive(a: Self, b: Self, c: Self) {
        lemma_text_le_transitive(a.key.0@, b.key.0@, c.key.0@);
    }

    fn not_after(&self, other: &Self) -> (r: bool) {
        text_not_after(&self.key.0, &other.key.0)
    }
}

pub open spec fn dir_key() -> spec_fn(FilePath) -> PathView {
    |dir: FilePath| dir@
}

pub open spec fn entry_key() -> spec_fn(NamedDirs) -> Seq<char> {
    |entry: NamedDirs| entry.key.0@
}

/// Whether directories stand in order, each once.
pub open spec fn dirs_in_order(dirs: Seq<FilePath>) -> bool {
    in_order(dirs) && keys_distinct(dirs, dir_key())
}

/// Whether a list holds a directory.
pub open spec fn has_dir(dirs: Seq<FilePath>, dir: PathView) -> bool {
    exists|i: int| 0 <= i < dirs.len() && (#[trigger] dirs[i])@ == dir
}

/// Adds a directory where it belongs, unless it is there.
pub fn add_dir(dirs: &mut Vec<FilePath>, dir: FilePath)
    requires
        dirs_in_order(old(dirs)@),
    ensures
        dirs_in_order(final(dirs)@),
        forall|other: PathView| #[trigger] has_dir(final(dirs)@, other) <==> has_dir(old(dirs)@, other) || other == dir@,
{
    let ghost before = dirs@;
    let mut i: usize = 0;
    while i < dirs.len()
        invariant
            i <= dirs@.len(),
            dirs@ == before,
            before == old(dirs)@,
            dirs_in_order(before),
            forall|j: int| 0 <= j < i ==> (#[trigger] before[j])@ != dir@,
        decreases dirs.len() - i,
    {
        if dirs[i].same_as(&dir) {
            assert(before[i as int]@ == dir@);
            return ;
        }
        i += 1;
    }
    proof {
        lemma_placed(before, dir);
        lemma_placed_distinct(before, dir, dir_key());
    }
    put_in_place(dirs, dir);
    assert forall|other: PathView| #[trigger] has_dir(dirs@, other) <==> has_dir(before, other) || other == dir@ by {
        if has_dir(dirs@, other) {
            let k = choose|k: int| 0 <= k < dirs@.len() && (#[trigger] dirs@[k])@ == other;
            lemma_placed_contains(before, dir, dirs@[k]);
            assert(dirs@.contains(dirs@[k]));
            if dirs@[k] != dir {
                let j = choose|j: int| 0 <= j < before.len() && before[j] == dirs@[k];
                assert(before[j]@ == other);
            }
        }
        if has_dir(before, other) {
            let j = choose|j: int| 0 <= j < before.len() && (#[trigger] before[j])@ == other;
            lemma_placed_contains(before, dir, before[j]);
            assert(before.contains(before[j]));
            let k = choose|k: int| 0 <= k < dirs@.len() && dirs@[k] == before[j];
            assert(dirs@[k]@ == other);
        }
        if other == dir@ {
            lemma_placed_contains(before, dir, dir);
            let k = choose|k: int| 0 <= k < dirs@.len() && dirs@[k] == dir;
            assert(dirs@[k]@ == other);
        }
    }
}

/// Whether conversations stand in order, each once, its directories likewise.
pub open spec fn named_in_order(named: Seq<NamedDirs>) -> bool {
    &&& in_order(named)
    &&& keys_distinct(named, entry_key())
    &&& forall|i: int| 0 <= i < named.len() ==> dirs_in_order((#[trigger] named[i]).dirs@)
}

/// Whether a conversation is listed with a directory.
pub open spec fn names_dir(named: Seq<NamedDirs>, key: Seq<char>, dir: PathView) -> bool {
    exists|i: int| 0 <= i < named.len() && (#[trigger] named[i]).key.0@ == key && has_dir(named[i].dirs@, dir)
}

/// Lists a conversation with a directory.
#[verifier::rlimit(40)]
pub fn name_dir(named: &mut Vec<NamedDirs>, key: &ConversationId, dir: FilePath)
    requires
        named_in_order(old(named)@),
    ensures
        named_in_order(final(named)@),
        forall|k: Seq<char>, d: PathView| #[trigger]
            names_dir(final(named)@, k, d) <==> names_dir(old(named)@, k, d) || (k == key.0@ && d == dir@),
{
    let ghost before = named@;
    let ghost wanted = dir@;
    let mut i: usize = 0;
    while i < named.len()
        invariant
            i <= named@.len(),
            named@ == before,
            before == old(named)@,
            wanted == dir@,
            named_in_order(before),
            forall|j: int| 0 <= j < i ==> (#[trigger] before[j]).key.0@ != key.0@,
        decreases named.len() - i,
    {
        if named[i].key.0 == key.0 {
            let entry = named.remove(i);
            let ghost held = before[i as int];
            let mut dirs = entry.dirs;
            add_dir(&mut dirs, dir);
            let fresh = NamedDirs { key: entry.key, dirs };
            named.insert(i, fresh);
            proof {
                assert(named@ =~= before.update(i as int, fresh));
                assert forall|a: int, b: int| 0 <= a < b < named@.len() implies (#[trigger] named@[a]).le(#[trigger] named@[b]) by {
                    assert(before[a].le(before[b]));
                }
                assert forall|a: int, b: int| 0 <= a < b < named@.len() implies entry_key()(#[trigger] named@[a]) != entry_key()(
                    #[trigger] named@[b],
                ) by {
                    assert(entry_key()(before[a]) != entry_key()(before[b]));
                }
                assert forall|a: int| 0 <= a < named@.len() implies dirs_in_order((#[trigger] named@[a]).dirs@) by {
                    assert(dirs_in_order(before[a].dirs@));
                }
                assert forall|k: Seq<char>, d: PathView| #[trigger] names_dir(named@, k, d) <==> names_dir(before, k, d) || (k
                    == key.0@ && d == wanted) by {
                    if names_dir(named@, k, d) {
                        let a = choose|a: int| 0 <= a < named@.len() && (#[trigger] named@[a]).key.0@ == k && has_dir(named@[a].dirs@, d);
                        assert(before[a].key.0@ == k);
                    }
                    if names_dir(before, k, d) {
                        let a = choose|a: int| 0 <= a < before.len() && (#[trigger] before[a]).key.0@ == k && has_dir(before[a].dirs@, d);
                        assert(named@[a].key.0@ == k && has_dir(named@[a].dirs@, d));
                    }
                    if k == key.0@ && d == wanted {
                        assert(named@[i as int].key.0@ == k && has_dir(named@[i as int].dirs@, d));
                    }
                }
            }
            return ;
        }
        i += 1;
    }
    let mut dirs: Vec<FilePath> = Vec::new();
    add_dir(&mut dirs, dir);
    let fresh = NamedDirs { key: key.clone(), dirs };
    assert forall|d: PathView| has_dir(fresh.dirs@, d) <==> d == wanted by {
        assert(!has_dir(Seq::<FilePath>::empty(), d));
    }
    proof {
        lemma_placed(before, fresh);
        lemma_placed_distinct(before, fresh, entry_key());
    }
    put_in_place(named, fresh);
    proof {
        assert forall|a: int| 0 <= a < named@.len() implies dirs_in_order((#[trigger] named@[a]).dirs@) by {
            lemma_placed_contains(before, fresh, named@[a]);
            assert(named@.contains(named@[a]));
            if named@[a] != fresh {
                let b = choose|b: int| 0 <= b < before.len() && before[b] == named@[a];
                assert(dirs_in_order(before[b].dirs@));
            }
        }
        assert forall|k: Seq<char>, d: PathView| #[trigger] names_dir(named@, k, d) <==> names_dir(before, k, d) || (k == key.0@
            && d == wanted) by {
            if names_dir(named@, k, d) {
                let a = choose|a: int| 0 <= a < named@.len() && (#[trigger] named@[a]).key.0@ == k && has_dir(named@[a].dirs@, d);
                lemma_placed_contains(before, fresh, named@[a]);
                assert(named@.contains(named@[a]));
                if named@[a] != fresh {
                    let b = choose|b: int| 0 <= b < before.len() && before[b] == named@[a];
                    assert(before[b].key.0@ == k);
                }
            }
            if names_dir(before, k, d) {
                let b = choose|b: int| 0 <= b < before.len() && (#[trigger] before[b]).key.0@ == k && has_dir(before[b].dirs@, d);
                lemma_placed_contains(before, fresh, before[b]);
                assert(before.contains(before[b]));
                let a = choose|a: int| 0 <= a < named@.len() && named@[a] == before[b];
                assert(named@[a].key.0@ == k);
            }
            if k == key.0@ && d == wanted {
                lemma_placed_contains(before, fresh, fresh);
                let a = choose|a: int| 0 <= a < named@.len() && named@[a] == fresh;
                assert(named@[a].key.0@ == k && has_dir(named@[a].dirs@, d));
            }
        }
    }
}

// ---- assignment ----

/// What has been assigned so far: the folded names that are out, and each key's directory.
#[verifier::ext_equal]
pub struct Assignment {
    pub used: Set<Seq<char>>,
    pub assigned: Map<Seq<char>, PathView>,
}

/// The first of `dirs` a conversation can take back: a child of `root` whose name is not out.
pub open spec fn adoptable(used: Set<Seq<char>>, root: PathView, dirs: Seq<PathView>) -> Option<Seq<char>>
    decreases dirs.len(),
{
    if dirs.len() == 0 {
        None
    } else {
        match adoptable(used, root, dirs.drop_last()) {
            Some(name) => Some(name),
            None => match child_of(root, dirs.last()) {
                Some(name) => if used.contains(fold(name)) {
                    None
                } else {
                    Some(name)
                },
                None => None,
            },
        }
    }
}

/// One conversation takes back the first directory it can.
pub open spec fn took_back(state: Assignment, root: PathView, entry: NamedView) -> Assignment {
    match adoptable(state.used, root, entry.dirs) {
        Some(name) => Assignment {
            used: state.used.insert(fold(name)),
            assigned: state.assigned.insert(entry.key, joined(root, name)),
        },
        None => state,
    }
}

/// Each conversation in turn takes back the first directory it can.
pub open spec fn adopted(state: Assignment, root: PathView, named: Seq<NamedView>) -> Assignment
    decreases named.len(),
{
    if named.len() == 0 {
        state
    } else {
        took_back(adopted(state, root, named.drop_last()), root, named.last())
    }
}

/// The folded names of the directories directly below `root`.
pub open spec fn occupied_names(root: PathView, dirs: Seq<PathView>) -> Set<Seq<char>>
    decreases dirs.len(),
{
    if dirs.len() == 0 {
        Set::empty()
    } else {
        let before = occupied_names(root, dirs.drop_last());
        match child_of(root, dirs.last()) {
            Some(name) => before.insert(fold(name)),
            None => before,
        }
    }
}

/// What is assigned before any name is derived: the bucket kept back, recorded directories taken
/// back, and every other recorded directory reserved.
pub open spec fn opened(root: PathView, named: Seq<NamedView>, occupied: Seq<PathView>) -> Assignment {
    let bucket = Assignment { used: Set::empty().insert(fold(NO_CONVERSATION_DIR@)), assigned: Map::empty() };
    let taken = adopted(bucket, root, named);
    Assignment { used: taken.used.union(occupied_names(root, occupied)), assigned: taken.assigned }
}

/// What asking for a key's directory does: nothing where it has one, else the first free spelling
/// of its name.
pub open spec fn asked(before: Assignment, after: Assignment, root: PathView, key: Seq<char>) -> bool {
    if before.assigned.contains_key(key) {
        after == before
    } else {
        exists|ordinal: nat| #[trigger] first_free(before.used, fold(cleaned(key)), seq![], ordinal) && after == (Assignment {
            used: before.used.insert(key_at(fold(cleaned(key)), seq![], ordinal)),
            assigned: before.assigned.insert(key, joined(root, cleaned(key) + ordinal_suffix(ordinal))),
        })
    }
}

/// One directory per conversation.
pub struct Conversations {
    root: FilePath,
    used: Ledger,
    assigned: StringHashMap<FilePath>,
}

impl Conversations {
    pub closed spec fn wf(self) -> bool {
        self.used.wf()
    }

    pub closed spec fn root(self) -> PathView {
        self.root@
    }

    pub closed spec fn state(self) -> Assignment {
        Assignment { used: self.used@, assigned: self.assigned@.map_values(|dir: FilePath| dir@) }
    }

    /// Opens the assignment below `root`.
    pub fn new(root: FilePath, named: &Vec<NamedDirs>, occupied: &Vec<FilePath>) -> (r: Self)
        ensures
            r.wf(),
            r.root() == root@,
            r.state() == opened(root@, named_views(named@), dir_views(occupied@)),
    {
        let mut used = Ledger::new();
        used.claim(folded(NO_CONVERSATION_DIR));
        let mut conversations = Conversations { root, used, assigned: StringHashMap::new() };
        assert(conversations.state() =~= (Assignment {
            used: Set::empty().insert(fold(NO_CONVERSATION_DIR@)),
            assigned: Map::empty(),
        }));
        conversations.adopt(named, occupied);
        conversations
    }

    /// Gives each conversation back the directory its own rows name, then reserves every other
    /// directory any row names.
    fn adopt(&mut self, named: &Vec<NamedDirs>, occupied: &Vec<FilePath>)
        requires
            old(self).wf(),
        ensures
            final(self).wf(),
            final(self).root() == old(self).root(),
            final(self).state() == (Assignment {
                used: adopted(old(self).state(), old(self).root(), named_views(named@)).used.union(
                    occupied_names(old(self).root(), dir_views(occupied@)),
                ),
                assigned: adopted(old(self).state(), old(self).root(), named_views(named@)).assigned,
            }),
    {
        let ghost start = self.state();
        let ghost root = self.root();
        let ghost entries = named_views(named@);
        let mut i: usize = 0;
        while i < named.len()
            invariant
                i <= named@.len(),
                self.wf(),
                self.root() == root,
                entries == named_views(named@),
                self.state() == adopted(start, root, entries.take(i as int)),
            decreases named.len() - i,
        {
            let entry = &named[i];
            let ghost seen = entries.take(i + 1);
            assert(seen.drop_last() =~= entries.take(i as int));
            assert(seen.last() == entry@);
            let ghost before = self.state();
            let ghost dirs = dir_views(entry.dirs@);
            let mut j: usize = 0;
            let mut done = false;
            while j < entry.dirs.len() && !done
                invariant
                    j <= entry.dirs@.len(),
                    self.wf(),
                    self.root() == root,
                    dirs == dir_views(entry.dirs@),
                    done ==> adoptable(before.used, root, dirs.take(j as int)) is Some && self.state() == took_back(
                        before,
                        root,
                        NamedView { key: entry.key.0@, dirs: dirs.take(j as int) },
                    ),
                    !done ==> adoptable(before.used, root, dirs.take(j as int)) is None && self.state() == before,
                decreases entry.dirs.len() - j,
            {
                let ghost some = dirs.take(j + 1);
                assert(some.drop_last() =~= dirs.take(j as int));
                assert(some.last() == entry.dirs@[j as int]@);
                match child_name(&self.root, &entry.dirs[j]) {
                    Some(name) => {
                        let key = folded(&name);
                        if !self.used.holds(&key) {
                            self.used.claim(key);
                            let dir = self.root.join(&name);
                            let ghost map = self.assigned@;
                            self.assigned.insert(entry.key.0.clone(), dir);
                            assert(self.assigned@.map_values(|dir: FilePath| dir@) =~= map.map_values(
                                |dir: FilePath| dir@,
                            ).insert(entry.key.0@, joined(root, name@)));
                            done = true;
                        }
                    },
                    None => {},
                }
                j += 1;
            }
            proof {
                assert(!done ==> dirs.take(j as int) =~= dirs);
                if done {
                    lemma_adoptable_stays(before.used, root, dirs, j as int);
                }
            }
            i += 1;
        }
        assert(entries.take(i as int) =~= entries);
        let ghost taken = self.state();
        let ghost places = dir_views(occupied@);
        let mut k: usize = 0;
        assert(taken.used.union(occupied_names(root, places.take(0))) =~= taken.used);
        while k < occupied.len()
            invariant
                k <= occupied@.len(),
                self.wf(),
                self.root() == root,
                places == dir_views(occupied@),
                self.state().assigned == taken.assigned,
                self.state().used == taken.used.union(occupied_names(root, places.take(k as int))),
            decreases occupied.len() - k,
        {
            let ghost some = places.take(k + 1);
            assert(some.drop_last() =~= places.take(k as int));
            assert(some.last() == occupied@[k as int]@);
            match child_name(&self.root, &occupied[k]) {
                Some(name) => {
                    self.used.claim(folded(&name));
                    assert(self.state().used =~= taken.used.union(occupied_names(root, some)));
                },
                None => {},
            }
            k += 1;
        }
        assert(places.take(k as int) =~= places);
    }

    /// The directory of a conversation: the one it has, or the first free spelling of its name.
    pub fn dir(&mut self, conversation: &ConversationId) -> (r: FilePath)
        requires
            old(self).wf(),
        ensures
            final(self).wf(),
            final(self).root() == old(self).root(),
            asked(old(self).state(), final(self).state(), old(self).root(), conversation.0@),
            final(self).state().assigned.contains_key(conversation.0@),
            r@ == final(self).state().assigned[conversation.0@],
    {
        match self.assigned.get(conversation.as_str()) {
            Some(dir) => {
                return dir.clone();
            },
            None => {},
        }
        let ghost before = self.state();
        let name = dir_name(conversation.as_str());
        let key = folded(&name);
        proof {
            reveal_strlit("");
            assert(""@ =~= seq![]);
        }
        let ordinal: u128 = self.used.issue(&key, "");
        let full = join2(&name, &suffix_text(ordinal));
        let dir = self.root.join(&full);
        let ghost map = self.assigned@;
        self.assigned.insert(conversation.0.clone(), dir.clone());
        proof {
            assert(self.assigned@.map_values(|dir: FilePath| dir@) =~= map.map_values(|dir: FilePath| dir@).insert(
                conversation.0@,
                dir@,
            ));
            assert(first_free(before.used, fold(cleaned(conversation.0@)), seq![], ordinal as nat));
        }
        dir
    }
}

proof fn lemma_adoptable_stays(used: Set<Seq<char>>, root: PathView, dirs: Seq<PathView>, at: int)
    requires
        0 <= at <= dirs.len(),
        adoptable(used, root, dirs.take(at)) is Some,
    ensures
        adoptable(used, root, dirs) == adoptable(used, root, dirs.take(at)),
    decreases dirs.len(),
{
    if at < dirs.len() {
        assert(dirs.drop_last().take(at) =~= dirs.take(at));
        lemma_adoptable_stays(used, root, dirs.drop_last(), at);
    } else {
        assert(dirs.take(at) =~= dirs);
    }
}

// ---- the answer, as a function ----

/// The first free spelling of a key's name.
pub open spec fn fresh_name(used: Set<Seq<char>>, key: Seq<char>) -> Seq<char> {
    let ordinal = choose|ordinal: nat| first_free(used, fold(cleaned(key)), seq![], ordinal);
    cleaned(key) + ordinal_suffix(ordinal)
}

/// What is assigned once a key was asked for.
pub open spec fn after_asking(state: Assignment, root: PathView, key: Seq<char>) -> Assignment {
    if state.assigned.contains_key(key) {
        state
    } else {
        let name = fresh_name(state.used, key);
        Assignment { used: state.used.insert(fold(name)), assigned: state.assigned.insert(key, joined(root, name)) }
    }
}

/// Asking for a key's directory leaves what the function says it leaves.
pub proof fn lemma_asked_is_after_asking(before: Assignment, after: Assignment, root: PathView, key: Seq<char>)
    requires
        asked(before, after, root, key),
    ensures
        after == after_asking(before, root, key),
        after.assigned.contains_key(key),
{
    if !before.assigned.contains_key(key) {
        let base = fold(cleaned(key));
        let ordinal = choose|ordinal: nat| #[trigger] first_free(before.used, fold(cleaned(key)), seq![], ordinal) && after == (Assignment {
            used: before.used.insert(key_at(fold(cleaned(key)), seq![], ordinal)),
            assigned: before.assigned.insert(key, joined(root, cleaned(key) + ordinal_suffix(ordinal))),
        });
        let chosen = choose|ordinal: nat| first_free(before.used, base, seq![], ordinal);
        lemma_first_free_unique(before.used, base, seq![], ordinal, chosen);
        lemma_fold_concat(cleaned(key), ordinal_suffix(ordinal));
        lemma_suffix_folded(ordinal);
        assert(key_at(base, seq![], ordinal) =~= fold(fresh_name(before.used, key)));
    }
}

// ---- laws ----

/// What every assignment keeps: each conversation's directory is a child of the root whose name
/// is out, none is the bucket, and no two fold onto one name.
pub open spec fn apart(state: Assignment, root: PathView) -> bool {
    &&& state.used.contains(fold(NO_CONVERSATION_DIR@))
    &&& forall|key: Seq<char>| #[trigger]
        state.assigned.contains_key(key) ==> {
            let dir = state.assigned[key];
            &&& dir == joined(root, dir.parts.last())
            &&& state.used.contains(fold(dir.parts.last()))
            &&& fold(dir.parts.last()) != fold(NO_CONVERSATION_DIR@)
        }
    &&& forall|a: Seq<char>, b: Seq<char>|
        #![trigger state.assigned.contains_key(a), state.assigned.contains_key(b)]
        state.assigned.contains_key(a) && state.assigned.contains_key(b) && a != b ==> fold(state.assigned[a].parts.last())
            != fold(state.assigned[b].parts.last())
}

proof fn lemma_assign_keeps_apart(before: Assignment, root: PathView, key: Seq<char>, name: Seq<char>)
    requires
        apart(before, root),
        !before.used.contains(fold(name)),
    ensures
        apart(
            Assignment {
                used: before.used.insert(fold(name)),
                assigned: before.assigned.insert(key, joined(root, name)),
            },
            root,
        ),
{
    let after = Assignment {
        used: before.used.insert(fold(name)),
        assigned: before.assigned.insert(key, joined(root, name)),
    };
    assert(joined(root, name).parts.last() == name);
    assert forall|k: Seq<char>| #[trigger] after.assigned.contains_key(k) implies {
        let dir = after.assigned[k];
        &&& dir == joined(root, dir.parts.last())
        &&& after.used.contains(fold(dir.parts.last()))
        &&& fold(dir.parts.last()) != fold(NO_CONVERSATION_DIR@)
    } by {
        if k != key {
            assert(before.assigned.contains_key(k));
        }
    }
    assert forall|a: Seq<char>, b: Seq<char>|
        #![trigger after.assigned.contains_key(a), after.assigned.contains_key(b)]
        after.assigned.contains_key(a) && after.assigned.contains_key(b) && a != b implies fold(after.assigned[a].parts.last())
        != fold(after.assigned[b].parts.last()) by {
        if a != key {
            assert(before.assigned.contains_key(a));
        }
        if b != key {
            assert(before.assigned.contains_key(b));
        }
    }
}

proof fn lemma_adoptable(used: Set<Seq<char>>, root: PathView, dirs: Seq<PathView>)
    ensures
        adoptable(used, root, dirs) matches Some(name) ==> !used.contains(fold(name)) && exists|i: int|
            0 <= i < dirs.len() && child_of(root, #[trigger] dirs[i]) == Some(name),
    decreases dirs.len(),
{
    if dirs.len() > 0 {
        lemma_adoptable(used, root, dirs.drop_last());
        match adoptable(used, root, dirs.drop_last()) {
            Some(name) => {
                let i = choose|i: int| 0 <= i < dirs.drop_last().len() && child_of(root, #[trigger] dirs.drop_last()[i]) == Some(name);
                assert(dirs[i] == dirs.drop_last()[i]);
            },
            None => {
                assert(dirs[dirs.len() - 1] == dirs.last());
            },
        }
    }
}

proof fn lemma_adopted_apart(state: Assignment, root: PathView, named: Seq<NamedView>)
    requires
        apart(state, root),
    ensures
        apart(adopted(state, root, named), root),
        state.used.subset_of(adopted(state, root, named).used),
    decreases named.len(),
{
    if named.len() > 0 {
        lemma_adopted_apart(state, root, named.drop_last());
        let before = adopted(state, root, named.drop_last());
        lemma_adoptable(before.used, root, named.last().dirs);
        match adoptable(before.used, root, named.last().dirs) {
            Some(name) => {
                lemma_assign_keeps_apart(before, root, named.last().key, name);
            },
            None => {},
        }
    }
}

/// An assignment opens with every directory apart from every other and from the bucket, whatever
/// the rows record.
pub proof fn law_opened_is_apart(root: PathView, named: Seq<NamedView>, occupied: Seq<PathView>)
    ensures
        apart(opened(root, named, occupied), root),
{
    let bucket = Assignment { used: Set::empty().insert(fold(NO_CONVERSATION_DIR@)), assigned: Map::empty() };
    assert(apart(bucket, root));
    lemma_adopted_apart(bucket, root, named);
}

/// Asking for a directory keeps every directory apart, takes none away, and answers one key with
/// one directory for good.
pub proof fn law_asking_keeps_apart(before: Assignment, after: Assignment, root: PathView, key: Seq<char>)
    requires
        apart(before, root),
        asked(before, after, root, key),
    ensures
        apart(after, root),
        before.used.subset_of(after.used),
        after.assigned.contains_key(key),
        forall|other: Seq<char>| #[trigger]
            before.assigned.contains_key(other) ==> after.assigned.contains_key(other) && after.assigned[other]
                == before.assigned[other],
        asked(after, after, root, key),
{
    if !before.assigned.contains_key(key) {
        let ordinal = choose|ordinal: nat| #[trigger] first_free(before.used, fold(cleaned(key)), seq![], ordinal) && after == (Assignment {
            used: before.used.insert(key_at(fold(cleaned(key)), seq![], ordinal)),
            assigned: before.assigned.insert(key, joined(root, cleaned(key) + ordinal_suffix(ordinal))),
        });
        let name = cleaned(key) + ordinal_suffix(ordinal);
        lemma_fold_concat(cleaned(key), ordinal_suffix(ordinal));
        lemma_suffix_folded(ordinal);
        assert(key_at(fold(cleaned(key)), seq![], ordinal) =~= fold(name));
        lemma_assign_keeps_apart(before, root, key, name);
    }
}

/// What an assignment opens with is finite.
pub proof fn lemma_opened_finite(root: PathView, named: Seq<NamedView>, occupied: Seq<PathView>)
    ensures
        opened(root, named, occupied).used.finite(),
{
    let bucket = Assignment { used: Set::empty().insert(fold(NO_CONVERSATION_DIR@)), assigned: Map::empty() };
    lemma_adopted_finite(bucket, root, named);
    lemma_occupied_finite(root, occupied);
}

proof fn lemma_adopted_finite(state: Assignment, root: PathView, named: Seq<NamedView>)
    requires
        state.used.finite(),
    ensures
        adopted(state, root, named).used.finite(),
    decreases named.len(),
{
    if named.len() > 0 {
        lemma_adopted_finite(state, root, named.drop_last());
    }
}

proof fn lemma_occupied_finite(root: PathView, dirs: Seq<PathView>)
    ensures
        occupied_names(root, dirs).finite(),
    decreases dirs.len(),
{
    if dirs.len() > 0 {
        lemma_occupied_finite(root, dirs.drop_last());
    }
}

/// What the function says is what asking leaves.
pub proof fn lemma_after_asking_is_asked(state: Assignment, root: PathView, key: Seq<char>)
    requires
        state.used.finite(),
    ensures
        asked(state, after_asking(state, root, key), root, key),
        after_asking(state, root, key).used.finite(),
{
    if !state.assigned.contains_key(key) {
        let base = fold(cleaned(key));
        let free = lemma_some_free(state.used, base, seq![], 0);
        let ordinal = choose|ordinal: nat| first_free(state.used, fold(cleaned(key)), seq![], ordinal);
        assert(first_free(state.used, fold(cleaned(key)), seq![], ordinal));
        lemma_fold_concat(cleaned(key), ordinal_suffix(ordinal));
        lemma_suffix_folded(ordinal);
        assert(key_at(base, seq![], ordinal) =~= fold(fresh_name(state.used, key)));
    }
}

/// A name that is out, a departed conversation's among them, is not given to another key in any
/// spelling.
pub proof fn law_a_reserved_name_is_not_handed_out(
    before: Assignment,
    after: Assignment,
    root: PathView,
    key: Seq<char>,
    name: Seq<char>,
)
    requires
        apart(before, root),
        asked(before, after, root, key),
        before.used.contains(fold(name)),
        !before.assigned.contains_key(key),
    ensures
        fold(after.assigned[key].parts.last()) != fold(name),
{
    let ordinal = choose|ordinal: nat| #[trigger] first_free(before.used, fold(cleaned(key)), seq![], ordinal) && after == (Assignment {
        used: before.used.insert(key_at(fold(cleaned(key)), seq![], ordinal)),
        assigned: before.assigned.insert(key, joined(root, cleaned(key) + ordinal_suffix(ordinal))),
    });
    let mine = cleaned(key) + ordinal_suffix(ordinal);
    lemma_fold_concat(cleaned(key), ordinal_suffix(ordinal));
    lemma_suffix_folded(ordinal);
    assert(key_at(fold(cleaned(key)), seq![], ordinal) =~= fold(mine));
    assert(after.assigned[key].parts.last() == mine);
}

proof fn lemma_occupied_name(root: PathView, dirs: Seq<PathView>, at: int)
    requires
        0 <= at < dirs.len(),
        child_of(root, dirs[at]) is Some,
    ensures
        occupied_names(root, dirs).contains(fold(child_of(root, dirs[at]).unwrap())),
    decreases dirs.len(),
{
    if at < dirs.len() - 1 {
        assert(dirs.drop_last()[at] == dirs[at]);
        lemma_occupied_name(root, dirs.drop_last(), at);
    }
}

/// Every directory any row records below the root is out from the start, its conversation present
/// or departed.
pub proof fn law_every_recorded_directory_is_reserved(
    root: PathView,
    named: Seq<NamedView>,
    occupied: Seq<PathView>,
    at: int,
)
    requires
        0 <= at < occupied.len(),
        child_of(root, occupied[at]) is Some,
    ensures
        opened(root, named, occupied).used.contains(fold(child_of(root, occupied[at]).unwrap())),
{
    lemma_occupied_name(root, occupied, at);
}

/// A conversation that is alone in recording an adoptable directory gets that directory back.
pub proof fn law_a_recorded_directory_is_taken_back(root: PathView, key: Seq<char>, name: Seq<char>, occupied: Seq<PathView>)
    requires
        child_of(root, joined(root, name)) == Some(name),
        fold(name) != fold(NO_CONVERSATION_DIR@),
    ensures
        opened(root, seq![NamedView { key, dirs: seq![joined(root, name)] }], occupied).assigned[key] == joined(root, name),
{
    let entry = NamedView { key, dirs: seq![joined(root, name)] };
    let named = seq![entry];
    let bucket = Assignment { used: Set::empty().insert(fold(NO_CONVERSATION_DIR@)), assigned: Map::empty() };
    assert(named.drop_last() =~= seq![]);
    assert(adopted(bucket, root, seq![]) == bucket);
    assert(entry.dirs.drop_last() =~= seq![]);
    assert(adoptable(bucket.used, root, seq![]) is None);
    assert(adoptable(bucket.used, root, entry.dirs) == Some(name));
}

/// A key that is already a name every filesystem takes is its own directory's name.
pub proof fn law_a_plain_key_names_its_directory(key: Seq<char>)
    requires
        0 < key.len() <= 64,
        forall|i: int| 0 <= i < key.len() ==> is_portable(#[trigger] key[i]),
        key[0] != '.',
        key.last() != '.',
        !reserved_stem(stem_of(key)),
    ensures
        cleaned(key) == key,
{
    assert(mapped_key(key) =~= key);
    assert(undotted(key) == key);
    assert(is_portable(key[0]));
}

/// A key without dots is spelled character by character: one a filesystem takes stands for itself,
/// any other for an underscore, and what runs past the sixty-fourth is cut. A device name gets an
/// underscore before it.
pub proof fn law_a_name_spells_its_key(key: Seq<char>)
    requires
        forall|i: int| 0 <= i < key.len() ==> #[trigger] key[i] != '.',
        exists|i: int| 0 <= i < key.len() && is_portable(#[trigger] key[i]),
    ensures
        ({
            let kept: int = if key.len() < 64 {
                key.len() as int
            } else {
                64
            };
            let name = cleaned(key);
            if reserved_stem(key) {
                name == seq!['_'] + key
            } else {
                &&& name.len() == kept
                &&& forall|i: int| 0 <= i < kept ==> #[trigger] name[i] == (if is_portable(key[i]) {
                    key[i]
                } else {
                    '_'
                })
            }
        }),
{
    let mapped = mapped_key(key);
    assert(!wholly_refused(key));
    assert forall|i: int| 0 <= i < mapped.len() implies #[trigger] mapped[i] != '.' by {
        assert(key[i] != '.');
    }
    assert(mapped.len() > 0);
    assert(undotted(mapped) == mapped);
    crate::text::lemma_first_at(mapped, '.');
    let at = first_at(mapped, '.');
    assert(at == mapped.len());
    assert(stem_of(mapped) =~= mapped);
    if reserved_stem(key) {
        lemma_reserved_plain(key);
        assert(mapped =~= key);
        assert(capped(seq!['_'] + key) =~= seq!['_'] + key);
        let named = seq!['_'] + key;
        assert(named[0] == '_');
        assert(named.last() == key.last());
        assert(key[key.len() - 1] != '.');
        assert(undotted(named) == named);
    } else if reserved_stem(mapped) {
        lemma_reserved_plain(mapped);
        if mapped =~= key {
        } else {
            let i = choose|i: int| 0 <= i < mapped.len() && mapped[i] != key[i] || key.len() != mapped.len();
            if key.len() != mapped.len() {
                assert(mapped.len() == 64);
            } else {
                assert(mapped[i] == '_');
                assert(false);
            }
        }
    }
}

/// A device name is short, and letters and digits throughout.
proof fn lemma_reserved_plain(stem: Seq<char>)
    requires
        reserved_stem(stem),
    ensures
        0 < stem.len() <= 4,
        forall|i: int| 0 <= i < stem.len() ==> is_alnum(#[trigger] stem[i]),
{
    let words = seq![
        "con"@, "prn"@, "aux"@, "nul"@, "com1"@, "com2"@, "com3"@, "com4"@, "com5"@, "com6"@, "com7"@, "com8"@, "com9"@, "lpt1"@,
        "lpt2"@, "lpt3"@, "lpt4"@, "lpt5"@, "lpt6"@, "lpt7"@, "lpt8"@, "lpt9"@,
    ];
    reveal_strlit("con");
    reveal_strlit("prn");
    reveal_strlit("aux");
    reveal_strlit("nul");
    reveal_strlit("com1");
    reveal_strlit("com2");
    reveal_strlit("com3");
    reveal_strlit("com4");
    reveal_strlit("com5");
    reveal_strlit("com6");
    reveal_strlit("com7");
    reveal_strlit("com8");
    reveal_strlit("com9");
    reveal_strlit("lpt1");
    reveal_strlit("lpt2");
    reveal_strlit("lpt3");
    reveal_strlit("lpt4");
    reveal_strlit("lpt5");
    reveal_strlit("lpt6");
    reveal_strlit("lpt7");
    reveal_strlit("lpt8");
    reveal_strlit("lpt9");
    let k = choose|k: int| 0 <= k < words.len() && like(stem, #[trigger] words[k]);
    assert(exists|k: int| 0 <= k < words.len() && like(stem, #[trigger] words[k])) by {
        assert(words[0] == "con"@ && words[1] == "prn"@ && words[2] == "aux"@ && words[3] == "nul"@);
        assert(words[4] == "com1"@ && words[5] == "com2"@ && words[6] == "com3"@ && words[7] == "com4"@ && words[8] == "com5"@);
        assert(words[9] == "com6"@ && words[10] == "com7"@ && words[11] == "com8"@ && words[12] == "com9"@);
        assert(words[13] == "lpt1"@ && words[14] == "lpt2"@ && words[15] == "lpt3"@ && words[16] == "lpt4"@ && words[17] == "lpt5"@);
        assert(words[18] == "lpt6"@ && words[19] == "lpt7"@ && words[20] == "lpt8"@ && words[21] == "lpt9"@);
    }
    let word = words[k];
    assert(fold(stem) == fold(word));
    assert(fold(stem).len() == stem.len() && fold(word).len() == word.len());
    assert(3 <= word.len() <= 4);
    assert forall|i: int| 0 <= i < stem.len() implies is_alnum(#[trigger] stem[i]) by {
        assert(fold(stem)[i] == crate::text::lower(stem[i]));
        assert(fold(word)[i] == crate::text::lower(word[i]));
        assert(i == 0 || i == 1 || i == 2 || i == 3);
        assert(is_alnum(word[i]));
    }
}

/// A key whose own name is not out is given it as it is.
pub proof fn law_a_free_name_is_given_plain(before: Assignment, after: Assignment, root: PathView, key: Seq<char>)
    requires
        asked(before, after, root, key),
        !before.assigned.contains_key(key),
        !before.used.contains(fold(cleaned(key))),
    ensures
        after.assigned[key] == joined(root, cleaned(key)),
{
    let ordinal = choose|ordinal: nat| #[trigger] first_free(before.used, fold(cleaned(key)), seq![], ordinal) && after == (Assignment {
        used: before.used.insert(key_at(fold(cleaned(key)), seq![], ordinal)),
        assigned: before.assigned.insert(key, joined(root, cleaned(key) + ordinal_suffix(ordinal))),
    });
    assert(key_at(fold(cleaned(key)), seq![], 0) =~= fold(cleaned(key)));
    if ordinal > 0 {
        assert(before.used.contains(key_at(fold(cleaned(key)), seq![], 0)));
    }
    assert(cleaned(key) + ordinal_suffix(0) =~= cleaned(key));
}

/// A conversation goes back to the first directory its rows name below the root, whatever name its
/// key would get now, where neither the bucket nor a conversation before it has that name.
pub proof fn law_a_recorded_directory_goes_back(root: PathView, named: Seq<NamedView>, occupied: Seq<PathView>, at: int)
    requires
        0 <= at < named.len(),
        named[at].dirs.len() > 0,
        child_of(root, named[at].dirs[0]) is Some,
        fold(child_of(root, named[at].dirs[0]).unwrap()) != fold("_no-conversation"@),
        forall|i: int, d: int|
            0 <= i < at && 0 <= d < named[i].dirs.len() && child_of(root, #[trigger] named[i].dirs[d]) is Some ==> fold(
                child_of(root, named[i].dirs[d]).unwrap(),
            ) != fold(child_of(root, named[at].dirs[0]).unwrap()),
        forall|i: int| at < i < named.len() ==> (#[trigger] named[i]).key != named[at].key,
    ensures
        opened(root, named, occupied).assigned.contains_key(named[at].key),
        opened(root, named, occupied).assigned[named[at].key] == named[at].dirs[0],
{
    let bucket = Assignment { used: Set::empty().insert(fold(NO_CONVERSATION_DIR@)), assigned: Map::empty() };
    let name = child_of(root, named[at].dirs[0]).unwrap();
    let dir = named[at].dirs[0];
    lemma_not_yet_out(bucket, root, named.take(at), fold(name));
    lemma_goes_back(bucket, root, named, at, named.len());
    assert(named.take(named.len() as int) =~= named);
    assert(joined(root, name).parts =~= dir.parts);
}

/// A name no conversation's directories have is not out once they took theirs back.
proof fn lemma_not_yet_out(state: Assignment, root: PathView, named: Seq<NamedView>, name: Seq<char>)
    requires
        !state.used.contains(name),
        forall|i: int, d: int|
            0 <= i < named.len() && 0 <= d < named[i].dirs.len() && child_of(root, #[trigger] named[i].dirs[d]) is Some ==> fold(
                child_of(root, named[i].dirs[d]).unwrap(),
            ) != name,
    ensures
        !adopted(state, root, named).used.contains(name),
    decreases named.len(),
{
    if named.len() > 0 {
        let rest = named.drop_last();
        assert forall|i: int, d: int|
            0 <= i < rest.len() && 0 <= d < rest[i].dirs.len() && child_of(root, #[trigger] rest[i].dirs[d]) is Some implies fold(
            child_of(root, rest[i].dirs[d]).unwrap(),
        ) != name by {
            assert(rest[i].dirs[d] == named[i].dirs[d]);
        }
        lemma_not_yet_out(state, root, rest, name);
        let before = adopted(state, root, rest);
        lemma_adoptable(before.used, root, named.last().dirs);
        match adoptable(before.used, root, named.last().dirs) {
            Some(taken) => {
                let d = choose|d: int| 0 <= d < named.last().dirs.len() && child_of(root, #[trigger] named.last().dirs[d]) == Some(taken);
                assert(named[named.len() - 1].dirs[d] == named.last().dirs[d]);
            },
            None => {},
        }
    }
}

proof fn lemma_first_adoptable(used: Set<Seq<char>>, root: PathView, dirs: Seq<PathView>)
    requires
        dirs.len() > 0,
        child_of(root, dirs[0]) is Some,
        !used.contains(fold(child_of(root, dirs[0]).unwrap())),
    ensures
        adoptable(used, root, dirs) == child_of(root, dirs[0]),
    decreases dirs.len(),
{
    if dirs.len() > 1 {
        assert(dirs.drop_last()[0] == dirs[0]);
        lemma_first_adoptable(used, root, dirs.drop_last());
    } else {
        assert(adoptable(used, root, dirs.drop_last()) is None);
    }
}

proof fn lemma_goes_back(state: Assignment, root: PathView, named: Seq<NamedView>, at: int, count: nat)
    requires
        0 <= at < count <= named.len(),
        named[at].dirs.len() > 0,
        child_of(root, named[at].dirs[0]) is Some,
        !adopted(state, root, named.take(at)).used.contains(fold(child_of(root, named[at].dirs[0]).unwrap())),
        forall|i: int| at < i < named.len() ==> (#[trigger] named[i]).key != named[at].key,
    ensures
        adopted(state, root, named.take(count as int)).assigned.contains_key(named[at].key),
        adopted(state, root, named.take(count as int)).assigned[named[at].key] == joined(
            root,
            child_of(root, named[at].dirs[0]).unwrap(),
        ),
    decreases count,
{
    let some = named.take(count as int);
    assert(some.drop_last() =~= named.take(count - 1));
    assert(some.last() == named[count - 1]);
    if at < count - 1 {
        lemma_goes_back(state, root, named, at, (count - 1) as nat);
    } else {
        lemma_first_adoptable(adopted(state, root, named.take(at)).used, root, named[at].dirs);
    }
}

} // verus!
