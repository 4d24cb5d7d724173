//! Notes without secrets.
//!
//! A failure's text may carry the signed url that was being fetched. A note is stored word by
//! word: a word that could spell a url, or that holds a piece of the row's own url, is replaced.

use vstd::prelude::*;
use vstd::utf8::encode_utf8;

use crate::text::{
    alnum, alnum_run, chars_of, find_infix, infix_at, is_alnum, lemma_infix_at, lemma_views_push, opt_view, stands_at, string_of,
    views, white_space,
};

verus! {

/// The longest a word of a note may be, in bytes.
pub const MAX_TOKEN: usize = 64;

/// A run this long shared with the url is a secret; a shorter one is a word both hold.
pub const MIN_SECRET_FRAGMENT: usize = 12;

/// What a redacted word becomes.
pub const REDACTED: &'static str = "<redacted>";

/// The characters a url needs and prose does not.
pub open spec fn is_url_mark(c: char) -> bool {
    c == '/' || c == '=' || c == '%' || c == '&' || c == '@'
}

/// Whether a text holds another.
pub open spec fn holds_text(s: Seq<char>, piece: Seq<char>) -> bool {
    exists|at: int| stands_at(s, piece, at)
}

/// Whether a word has to be replaced before it is stored.
pub open spec fn hides(token: Seq<char>, fragments: Seq<Seq<char>>) -> bool {
    ||| encode_utf8(token).len() > MAX_TOKEN
    ||| exists|i: int| 0 <= i < token.len() && is_url_mark(#[trigger] token[i])
    ||| exists|i: int| 0 <= i < fragments.len() && holds_text(token, #[trigger] fragments[i])
}

/// Where `s` first holds a character outside ascii letters and digits, or its length.
pub open spec fn run_end(s: Seq<char>) -> int
    decreases s.len(),
{
    if s.len() == 0 || !is_alnum(s[0]) {
        0
    } else {
        1 + run_end(s.drop_first())
    }
}

proof fn lemma_run_end(s: Seq<char>)
    ensures
        0 <= run_end(s) <= s.len(),
        run_end(s) < s.len() ==> !is_alnum(s[run_end(s)]),
        forall|i: int| 0 <= i < run_end(s) ==> is_alnum(#[trigger] s[i]),
    decreases s.len(),
{
    if s.len() > 0 && is_alnum(s[0]) {
        lemma_run_end(s.drop_first());
        assert forall|i: int| 0 <= i < run_end(s) implies is_alnum(#[trigger] s[i]) by {
            if i > 0 {
                assert(s[i] == s.drop_first()[i - 1]);
            }
        }
    }
}

proof fn lemma_run_end_is(s: Seq<char>, at: int)
    requires
        0 <= at <= s.len(),
        at < s.len() ==> !is_alnum(s[at]),
        forall|i: int| 0 <= i < at ==> is_alnum(#[trigger] s[i]),
    ensures
        run_end(s) == at,
{
    lemma_run_end(s);
    let e = run_end(s);
    if e < at {
        assert(is_alnum(s[e]));
    } else if at < e {
        assert(is_alnum(s[at]));
    }
}

/// The runs of ascii letters and digits in a url that are long enough to be worth hiding.
pub open spec fn fragments_of(url: Seq<char>) -> Seq<Seq<char>>
    decreases url.len(),
{
    let at = run_end(url);
    let rest = if 0 <= at < url.len() {
        fragments_of(url.skip(at + 1))
    } else {
        seq![]
    };
    if at >= MIN_SECRET_FRAGMENT {
        seq![url.take(at)] + rest
    } else {
        rest
    }
}

/// Every fragment is a long run of letters and digits.
pub proof fn lemma_fragments(url: Seq<char>)
    ensures
        forall|i: int|
            0 <= i < fragments_of(url).len() ==> (#[trigger] fragments_of(url)[i]).len() >= MIN_SECRET_FRAGMENT && alnum_run(
                fragments_of(url)[i],
            ),
    decreases url.len(),
{
    lemma_run_end(url);
    let at = run_end(url);
    if at < url.len() {
        lemma_fragments(url.skip(at + 1));
    }
    let rest = if at < url.len() {
        fragments_of(url.skip(at + 1))
    } else {
        seq![]
    };
    assert forall|i: int| 0 <= i < fragments_of(url).len() implies (#[trigger] fragments_of(url)[i]).len() >= MIN_SECRET_FRAGMENT
        && alnum_run(fragments_of(url)[i]) by {
        if at >= MIN_SECRET_FRAGMENT {
            if i > 0 {
                assert(fragments_of(url)[i] == rest[i - 1]);
            }
        }
    }
}

/// [`fragments_of`], as texts.
pub fn secret_fragments(url: &str) -> (r: Vec<String>)
    ensures
        views(r@) == fragments_of(url@),
{
    let v = chars_of(url);
    let len: usize = v.len();
    let mut out: Vec<String> = Vec::new();
    let mut from: usize = 0;
    assert(url@.skip(0) =~= url@);
    assert(views(out@) + fragments_of(url@) =~= fragments_of(url@));
    loop
        invariant
            v@ == url@,
            len == v@.len(),
            from <= len,
            views(out@) + fragments_of(url@.skip(from as int)) == fragments_of(url@),
        decreases len - from,
    {
        let ghost tail = url@.skip(from as int);
        let mut at: usize = from;
        while at < len && alnum(v[at])
            invariant
                v@ == url@,
                len == v@.len(),
                from <= at <= len,
                forall|i: int| from <= i < at ==> is_alnum(#[trigger] v@[i]),
            decreases len - at,
        {
            at += 1;
        }
        proof {
            assert forall|i: int| 0 <= i < at - from implies is_alnum(#[trigger] tail[i]) by {
                assert(tail[i] == v@[from + i]);
            }
            lemma_run_end_is(tail, at - from);
        }
        let ghost before = views(out@);
        let ghost rest = if at < len {
            fragments_of(tail.skip(at - from + 1))
        } else {
            seq![]
        };
        if at - from >= MIN_SECRET_FRAGMENT {
            let run = string_of(&v, from, at);
            proof {
                assert(run@ =~= tail.take(at - from));
                lemma_views_push(out@, run);
                assert(before.push(run@) + rest =~= before + (seq![run@] + rest));
            }
            out.push(run);
        }
        assert(views(out@) + rest == fragments_of(url@));
        if at >= len {
            assert(views(out@) + rest =~= views(out@));
            return out;
        }
        assert(tail.skip(at - from + 1) =~= url@.skip(at + 1));
        from = at + 1;
    }
}

/// Whether a word has to be replaced before it is stored.
pub fn must_redact(token: &str, fragments: &Vec<String>) -> (r: bool)
    ensures
        r == hides(token@, views(fragments@)),
{
    let v = chars_of(token);
    let bytes: &[u8] = token.as_bytes();
    if bytes.len() > MAX_TOKEN {
        return true;
    }
    let mut i: usize = 0;
    while i < v.len()
        invariant
            v@ == token@,
            i <= v@.len(),
            forall|j: int| 0 <= j < i ==> !is_url_mark(#[trigger] v@[j]),
        decreases v.len() - i,
    {
        let c = v[i];
        if c == '/' || c == '=' || c == '%' || c == '&' || c == '@' {
            assert(is_url_mark(token@[i as int]));
            return true;
        }
        i += 1;
    }
    let mut k: usize = 0;
    while k < fragments.len()
        invariant
            v@ == token@,
            k <= fragments@.len(),
            forall|j: int| 0 <= j < k ==> !holds_text(token@, #[trigger] views(fragments@)[j]),
        decreases fragments.len() - k,
    {
        let fragment = chars_of(&fragments[k]);
        let found = find_infix(&v, &fragment);
        proof {
            lemma_infix_at(token@, fragment@, 0);
            assert(views(fragments@)[k as int] == fragment@);
        }
        if found.is_some() {
            assert(stands_at(token@, fragment@, infix_at(token@, fragment@, 0)));
            return true;
        }
        assert(!holds_text(token@, fragment@));
        k += 1;
    }
    false
}

// ---- notes ----

/// Where `s` first holds white space, or its length.
pub open spec fn word_end(s: Seq<char>) -> int
    decreases s.len(),
{
    if s.len() == 0 || white_space(s[0]) {
        0
    } else {
        1 + word_end(s.drop_first())
    }
}

proof fn lemma_word_end_is(s: Seq<char>, at: int)
    requires
        0 <= at <= s.len(),
        at < s.len() ==> white_space(s[at]),
        forall|i: int| 0 <= i < at ==> !white_space(#[trigger] s[i]),
    ensures
        word_end(s) == at,
    decreases s.len(),
{
    if at > 0 {
        let rest = s.drop_first();
        assert forall|i: int| 0 <= i < at - 1 implies !white_space(#[trigger] rest[i]) by {
            assert(rest[i] == s[i + 1]);
        }
        lemma_word_end_is(rest, at - 1);
    }
}

/// A word as a note may show it.
pub open spec fn shown(token: Seq<char>, fragments: Seq<Seq<char>>) -> Seq<char> {
    if token.len() > 0 && hides(token, fragments) {
        REDACTED@
    } else {
        token
    }
}

/// A note with every word that must not be stored replaced, the white space kept as it stands.
pub open spec fn redacted(note: Seq<char>, fragments: Seq<Seq<char>>) -> Seq<char>
    decreases note.len(),
{
    let at = word_end(note);
    if 0 <= at < note.len() {
        shown(note.take(at), fragments) + seq![note[at]] + redacted(note.skip(at + 1), fragments)
    } else {
        shown(note, fragments)
    }
}

/// What a row with this url hides.
pub open spec fn hidden_for(url: Option<Seq<char>>) -> Seq<Seq<char>> {
    match url {
        Some(url) => fragments_of(url),
        None => seq![],
    }
}

/// A note as a row with this url stores it.
pub fn redact_note(note: &str, url: &Option<String>) -> (r: String)
    ensures
        r@ == redacted(note@, hidden_for(opt_view(*url))),
{
    let fragments: Vec<String> = match url {
        Some(url) => secret_fragments(url),
        None => Vec::new(),
    };
    let ghost hidden = views(fragments@);
    assert(url is None ==> hidden =~= seq![]);
    let v = chars_of(note);
    let len: usize = v.len();
    let mut out = String::new();
    let mut from: usize = 0;
    assert(note@.skip(0) =~= note@);
    assert(out@ + redacted(note@, hidden) =~= redacted(note@, hidden));
    loop
        invariant
            v@ == note@,
            len == v@.len(),
            from <= len,
            hidden == views(fragments@),
            hidden == hidden_for(opt_view(*url)),
            out@ + redacted(note@.skip(from as int), hidden) == redacted(note@, hidden),
        decreases len - from,
    {
        let ghost tail = note@.skip(from as int);
        let mut at: usize = from;
        while at < len && !v[at].is_whitespace()
            invariant
                v@ == note@,
                len == v@.len(),
                from <= at <= len,
                forall|i: int| from <= i < at ==> !white_space(#[trigger] v@[i]),
            decreases len - at,
        {
            at += 1;
        }
        proof {
            assert forall|i: int| 0 <= i < at - from implies !white_space(#[trigger] tail[i]) by {
                assert(tail[i] == v@[from + i]);
            }
            lemma_word_end_is(tail, at - from);
        }
        let token = string_of(&v, from, at);
        assert(token@ =~= tail.take(at - from));
        let ghost before = out@;
        if token.as_str().is_empty() || !must_redact(&token, &fragments) {
            out.append(&token);
        } else {
            out.append(REDACTED);
        }
        assert(out@ == before + shown(token@, hidden));
        if at >= len {
            assert(tail.take(at - from) =~= tail);
            return out;
        }
        out.push(v[at]);
        assert(tail.skip(at - from + 1) =~= note@.skip(at + 1));
        assert(out@ + redacted(note@.skip(at + 1), hidden) =~= before + (shown(token@, hidden) + seq![v@[at as int]]
            + redacted(note@.skip(at + 1), hidden)));
        from = at + 1;
    }
}

/// No word a note shows could spell a url, and none holds a piece of the row's own.
pub proof fn law_a_shown_word_hides_nothing(token: Seq<char>, url: Seq<char>)
    requires
        token.len() > 0,
    ensures
        !hides(shown(token, fragments_of(url)), fragments_of(url)),
{
    let fragments = fragments_of(url);
    if hides(token, fragments) {
        reveal_strlit("<redacted>");
        let word = REDACTED@;
        assert(vstd::utf8::is_ascii_chars(word));
        vstd::utf8::is_ascii_chars_encode_utf8(word);
        lemma_fragments(url);
        assert forall|i: int| 0 <= i < fragments.len() implies !holds_text(word, #[trigger] fragments[i]) by {
            assert(fragments[i].len() >= MIN_SECRET_FRAGMENT);
        }
        assert forall|i: int| 0 <= i < word.len() implies !is_url_mark(#[trigger] word[i]) by {}
    }
}

/// A note with nothing to hide is stored as it stands.
pub proof fn law_plain_prose_is_kept(note: Seq<char>, fragments: Seq<Seq<char>>)
    requires
        forall|from: int, to: int| 0 <= from <= to <= note.len() ==> !hides(#[trigger] note.subrange(from, to), fragments),
    ensures
        redacted(note, fragments) == note,
    decreases note.len(),
{
    let at = word_end(note);
    lemma_word_end(note);
    assert(note.subrange(0, at) =~= note.take(at));
    assert(note.subrange(0, note.len() as int) =~= note);
    if at < note.len() {
        let rest = note.skip(at + 1);
        assert forall|from: int, to: int| 0 <= from <= to <= rest.len() implies !hides(#[trigger] rest.subrange(from, to), fragments) by {
            assert(rest.subrange(from, to) =~= note.subrange(from + at + 1, to + at + 1));
        }
        law_plain_prose_is_kept(rest, fragments);
        assert(note =~= note.take(at) + seq![note[at]] + rest);
    }
}

proof fn lemma_word_end(s: Seq<char>)
    ensures
        0 <= word_end(s) <= s.len(),
    decreases s.len(),
{
    if s.len() > 0 && !white_space(s[0]) {
        lemma_word_end(s.drop_first());
    }
}

/// A word as a note shows it, an empty one too, holds no character only a url needs.
proof fn lemma_shown_plain(token: Seq<char>, fragments: Seq<Seq<char>>)
    ensures
        forall|i: int|
            0 <= i < shown(token, fragments).len() ==> {
                let c = #[trigger] shown(token, fragments)[i];
                c != '/' && c != '=' && c != '%' && c != '&' && c != '@'
            },
{
    reveal_strlit("<redacted>");
    let word = shown(token, fragments);
    assert forall|i: int| 0 <= i < word.len() implies {
        let c = #[trigger] word[i];
        c != '/' && c != '=' && c != '%' && c != '&' && c != '@'
    } by {
        if !(token.len() > 0 && hides(token, fragments)) {
            assert(word == token);
            assert(!is_url_mark(token[i]));
        }
    }
}

/// Whatever a failure's text was, no character of the note stored for it is one that only a url
/// needs, but for white space.
pub proof fn law_a_stored_note_spells_no_url(note: Seq<char>, fragments: Seq<Seq<char>>)
    ensures
        forall|i: int|
            0 <= i < redacted(note, fragments).len() && !white_space(#[trigger] redacted(note, fragments)[i]) ==> {
                let c = redacted(note, fragments)[i];
                c != '/' && c != '=' && c != '%' && c != '&' && c != '@'
            },
    decreases note.len(),
{
    let at = word_end(note);
    lemma_word_end(note);
    lemma_word_ends(note);
    let whole = redacted(note, fragments);
    if at < note.len() {
        let rest = redacted(note.skip(at + 1), fragments);
        let word = shown(note.take(at), fragments);
        law_a_stored_note_spells_no_url(note.skip(at + 1), fragments);
        lemma_shown_plain(note.take(at), fragments);
        assert forall|i: int| 0 <= i < whole.len() && !white_space(#[trigger] whole[i]) implies {
            let c = whole[i];
            c != '/' && c != '=' && c != '%' && c != '&' && c != '@'
        } by {
            if i < word.len() {
                assert(whole[i] == word[i]);
            } else if i == word.len() {
                assert(whole[i] == note[at]);
            } else {
                assert(whole[i] == rest[i - word.len() - 1]);
            }
        }
    } else {
        lemma_shown_plain(note, fragments);
    }
}

proof fn lemma_word_ends(s: Seq<char>)
    ensures
        word_end(s) < s.len() ==> white_space(s[word_end(s)]),
        forall|i: int| 0 <= i < word_end(s) ==> !white_space(#[trigger] s[i]),
    decreases s.len(),
{
    if s.len() > 0 && !white_space(s[0]) {
        let rest = s.drop_first();
        lemma_word_ends(rest);
        lemma_word_end(rest);
        assert forall|i: int| 0 <= i < word_end(s) implies !white_space(#[trigger] s[i]) by {
            if i > 0 {
                assert(s[i] == rest[i - 1]);
            }
        }
    }
}

/// No word of a stored note holds a piece of the row's own url: wherever one stands, white space
/// parts it.
pub proof fn law_a_stored_note_holds_no_piece_of_the_url(note: Seq<char>, url: Seq<char>, which: int, from: int)
    requires
        0 <= which < fragments_of(url).len(),
        stands_at(redacted(note, fragments_of(url)), fragments_of(url)[which], from),
    ensures
        exists|i: int|
            from <= i < from + fragments_of(url)[which].len() && white_space(#[trigger] redacted(note, fragments_of(url))[i]),
    decreases note.len(),
{
    let fragments = fragments_of(url);
    let piece = fragments[which];
    lemma_fragments(url);
    assert(piece.len() >= MIN_SECRET_FRAGMENT);
    let at = word_end(note);
    lemma_word_end(note);
    lemma_word_ends(note);
    let whole = redacted(note, fragments);
    let word = shown(if at < note.len() { note.take(at) } else { note }, fragments);
    if at < note.len() {
        let tail = redacted(note.skip(at + 1), fragments);
        assert(whole == word + seq![note[at]] + tail);
        if from + piece.len() <= word.len() {
            assert(word.subrange(from, from + piece.len()) =~= whole.subrange(from, from + piece.len()));
            assert(stands_at(word, piece, from));
            assert(holds_text(word, piece));
            law_a_shown_word_hides_nothing(note.take(at), url);
        } else if from > word.len() {
            let back = from - word.len() - 1;
            assert(tail.subrange(back, back + piece.len()) =~= whole.subrange(from, from + piece.len()));
            law_a_stored_note_holds_no_piece_of_the_url(note.skip(at + 1), url, which, back);
            let i = choose|i: int| back <= i < back + piece.len() && white_space(#[trigger] tail[i]);
            assert(whole[i + word.len() + 1] == tail[i]);
        } else {
            assert(whole[word.len() as int] == note[at]);
        }
    } else {
        assert(holds_text(word, piece));
        law_a_shown_word_hides_nothing(note, url);
    }
}

/// Every run of ascii letters and digits in a url that is at least twelve long, and goes no further
/// either way, is a piece to hide.
pub proof fn law_every_long_run_of_a_url_is_hidden(url: Seq<char>, from: int, to: int)
    requires
        0 <= from,
        from + 12 <= to <= url.len(),
        forall|i: int| from <= i < to ==> is_alnum(#[trigger] url[i]),
        from > 0 ==> !is_alnum(url[from - 1]),
        to < url.len() ==> !is_alnum(url[to]),
    ensures
        fragments_of(url).contains(url.subrange(from, to)),
    decreases url.len(),
{
    let at = run_end(url);
    lemma_run_end(url);
    let all = fragments_of(url);
    if from == 0 {
        lemma_run_end_is(url, to);
        assert(url.subrange(0, to) =~= url.take(to));
        assert(all[0] == url.take(to));
    } else {
        if from <= at {
            assert(!is_alnum(url[from - 1]));
        }
        assert(at < url.len());
        let rest = url.skip(at + 1);
        assert forall|i: int| from - at - 1 <= i < to - at - 1 implies is_alnum(#[trigger] rest[i]) by {
            assert(rest[i] == url[i + at + 1]);
        }
        law_every_long_run_of_a_url_is_hidden(rest, from - at - 1, to - at - 1);
        assert(rest.subrange(from - at - 1, to - at - 1) =~= url.subrange(from, to));
        let some = fragments_of(rest);
        let k = choose|k: int| 0 <= k < some.len() && some[k] == url.subrange(from, to);
        assert(all[k + (all.len() - some.len())] == some[k]);
    }
}

} // verus!
