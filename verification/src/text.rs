//! Text as a sequence of characters: the scanning, folding and ordering the rest of the crate
//! builds names and tokens with.

use vstd::prelude::*;
use vstd::std_specs::iter::IteratorSpec;

verus! {

// ---- characters ----

pub open spec fn is_digit(c: char) -> bool {
    '0' <= c <= '9'
}

pub open spec fn is_upper(c: char) -> bool {
    'A' <= c <= 'Z'
}

pub open spec fn is_alnum(c: char) -> bool {
    is_digit(c) || is_upper(c) || 'a' <= c <= 'z'
}

/// The ascii lower-case spelling of a character; every other character stands for itself.
pub open spec fn lower(c: char) -> char {
    if is_upper(c) {
        (c as u32 + 32) as char
    } else {
        c
    }
}

/// A text with its ascii capitals lowered.
pub open spec fn fold(s: Seq<char>) -> Seq<char> {
    s.map_values(|c: char| lower(c))
}

/// Whether a character has the Unicode `White_Space` property.
pub uninterp spec fn white_space(c: char) -> bool;

/// `char::is_whitespace`: whether the character has the `White_Space` property, which the
/// contract names rather than lists. Its documentation gives the space as one that has it.
pub assume_specification[ char::is_whitespace ](c: char) -> (b: bool)
    ensures
        b == white_space(c),
        c == ' ' ==> b,
;

/// `String::push`: appends one character.
pub assume_specification[ String::push ](s: &mut String, c: char)
    ensures
        final(s)@ == old(s)@.push(c),
;

pub fn digit(c: char) -> (b: bool)
    ensures
        b == is_digit(c),
{
    '0' <= c && c <= '9'
}

pub fn alnum(c: char) -> (b: bool)
    ensures
        b == is_alnum(c),
{
    ('0' <= c && c <= '9') || ('A' <= c && c <= 'Z') || ('a' <= c && c <= 'z')
}

pub fn lowered(c: char) -> (r: char)
    ensures
        r == lower(c),
{
    if 'A' <= c && c <= 'Z' {
        ((c as u8) + 32) as char
    } else {
        c
    }
}

// ---- texts ----

/// The characters of a text.
pub fn chars_of(s: &str) -> (r: Vec<char>)
    ensures
        r@ == s@,
{
    broadcast use vstd::string::group_string_axioms;

    let mut out: Vec<char> = Vec::new();
    for c in it: s.chars()
        invariant
            out@ == s@.take(it.index()),
            it.seq() == s@,
    {
        out.push(c);
        assert(s@.take(it.index() + 1) =~= s@.take(it.index()).push(c));
    }
    assert(s@.take(s@.len() as int) =~= s@);
    out
}

/// The text a run of characters spells.
pub fn string_of(v: &[char], from: usize, to: usize) -> (r: String)
    requires
        from <= to <= v@.len(),
    ensures
        r@ == v@.subrange(from as int, to as int),
{
    let mut out = String::new();
    let mut i: usize = from;
    while i < to
        invariant
            from <= i <= to <= v@.len(),
            out@ == v@.subrange(from as int, i as int),
        decreases to - i,
    {
        out.push(v[i]);
        i += 1;
        assert(v@.subrange(from as int, i as int) =~= v@.subrange(from as int, i - 1).push(v@[i - 1]));
    }
    out
}

/// Whether two texts spell the same characters.
pub fn same(a: &str, b: &str) -> (r: bool)
    ensures
        r == (a@ == b@),
{
    let x = chars_of(a);
    let y = chars_of(b);
    if x.len() != y.len() {
        return false;
    }
    let mut i: usize = 0;
    while i < x.len()
        invariant
            x@ == a@,
            y@ == b@,
            x.len() == y.len(),
            i <= x.len(),
            forall|j: int| 0 <= j < i ==> x@[j] == y@[j],
        decreases x.len() - i,
    {
        if x[i] != y[i] {
            return false;
        }
        i += 1;
    }
    assert(x@ =~= y@);
    true
}

/// [`fold`], as text.
pub fn folded(s: &str) -> (r: String)
    ensures
        r@ == fold(s@),
{
    let x = chars_of(s);
    let mut out = String::new();
    let mut i: usize = 0;
    while i < x.len()
        invariant
            x@ == s@,
            i <= x.len(),
            out@ == fold(s@.take(i as int)),
        decreases x.len() - i,
    {
        out.push(lowered(x[i]));
        i += 1;
        assert(fold(s@.take(i as int)) =~= fold(s@.take(i - 1)).push(lower(s@[i - 1])));
    }
    assert(s@.take(i as int) =~= s@);
    out
}

/// Whether two texts agree once both are folded.
pub fn same_folded(a: &str, b: &str) -> (r: bool)
    ensures
        r == (fold(a@) == fold(b@)),
{
    let x = folded(a);
    let y = folded(b);
    x == y
}

// ---- joining ----

/// Whether a text has no characters.
pub fn is_empty_text(text: &str) -> (r: bool)
    ensures
        r == (text@.len() == 0),
{
    proof {
        reveal_strlit("");
        assert(text@.len() == 0 ==> text@ =~= ""@);
    }
    same(text, "")
}

/// Two texts, end to end.
pub fn join2(a: &str, b: &str) -> (r: String)
    ensures
        r@ == a@ + b@,
{
    let mut out = a.to_owned();
    out.append(b);
    out
}

/// Three texts, end to end.
pub fn join3(a: &str, b: &str, c: &str) -> (r: String)
    ensures
        r@ == a@ + b@ + c@,
{
    let mut out = a.to_owned();
    out.append(b);
    out.append(c);
    out
}

/// Five texts, end to end.
pub fn join5(a: &str, b: &str, c: &str, d: &str, e: &str) -> (r: String)
    ensures
        r@ == a@ + b@ + c@ + d@ + e@,
{
    let mut out = a.to_owned();
    out.append(b);
    out.append(c);
    out.append(d);
    out.append(e);
    out
}

// ---- scanning ----

/// Where `c` first stands in `s`, or the length of `s` where it does not.
pub open spec fn first_at(s: Seq<char>, c: char) -> int
    decreases s.len(),
{
    if s.len() == 0 || s[0] == c {
        0
    } else {
        1 + first_at(s.drop_first(), c)
    }
}

/// Where `c` last stands in `s`, or -1 where it does not.
pub open spec fn last_at(s: Seq<char>, c: char) -> int
    decreases s.len(),
{
    if s.len() == 0 {
        -1
    } else if s.last() == c {
        s.len() - 1
    } else {
        last_at(s.drop_last(), c)
    }
}

/// The two sides of the first `c` in `s`.
pub open spec fn split_first(s: Seq<char>, c: char) -> Option<(Seq<char>, Seq<char>)> {
    let at = first_at(s, c);
    if at < s.len() {
        Some((s.take(at), s.skip(at + 1)))
    } else {
        None
    }
}

/// The two sides of the last `c` in `s`.
pub open spec fn split_last(s: Seq<char>, c: char) -> Option<(Seq<char>, Seq<char>)> {
    let at = last_at(s, c);
    if at >= 0 {
        Some((s.take(at), s.skip(at + 1)))
    } else {
        None
    }
}

/// [`first_at`] is the one position that holds `c` with no `c` before it.
pub proof fn lemma_first_at(s: Seq<char>, c: char)
    ensures
        0 <= first_at(s, c) <= s.len(),
        first_at(s, c) < s.len() ==> s[first_at(s, c)] == c,
        forall|i: int| 0 <= i < first_at(s, c) ==> s[i] != c,
    decreases s.len(),
{
    if s.len() != 0 && s[0] != c {
        lemma_first_at(s.drop_first(), c);
        assert forall|i: int| 0 <= i < first_at(s, c) implies s[i] != c by {
            if i > 0 {
                assert(s[i] == s.drop_first()[i - 1]);
            }
        }
    }
}

/// A position with no `c` before it is [`first_at`] as soon as it holds `c` or ends the text.
pub proof fn lemma_first_at_is(s: Seq<char>, c: char, at: int)
    requires
        0 <= at <= s.len(),
        at < s.len() ==> s[at] == c,
        forall|i: int| 0 <= i < at ==> s[i] != c,
    ensures
        first_at(s, c) == at,
{
    lemma_first_at(s, c);
    let f = first_at(s, c);
    if f < at {
        assert(s[f] != c);
    }
}

/// [`last_at`] is the one position that holds `c` with no `c` after it.
pub proof fn lemma_last_at(s: Seq<char>, c: char)
    ensures
        -1 <= last_at(s, c) < s.len(),
        last_at(s, c) >= 0 ==> s[last_at(s, c)] == c,
        forall|i: int| last_at(s, c) < i < s.len() ==> s[i] != c,
    decreases s.len(),
{
    if s.len() != 0 && s.last() != c {
        lemma_last_at(s.drop_last(), c);
        assert forall|i: int| last_at(s, c) < i < s.len() implies s[i] != c by {
            if i < s.len() - 1 {
                assert(s[i] == s.drop_last()[i]);
            }
        }
    }
}

pub fn find_first(v: &[char], from: usize, c: char) -> (r: usize)
    requires
        from <= v@.len(),
    ensures
        r == from + first_at(v@.skip(from as int), c),
        from <= r <= v@.len(),
        r < v@.len() ==> v@[r as int] == c,
        forall|j: int| from <= j < r ==> v@[j] != c,
{
    let mut i: usize = from;
    while i < v.len() && v[i] != c
        invariant
            from <= i <= v@.len(),
            forall|j: int| from <= j < i ==> v@[j] != c,
        decreases v.len() - i,
    {
        i += 1;
    }
    proof {
        let tail = v@.skip(from as int);
        assert forall|j: int| 0 <= j < i - from implies tail[j] != c by {
            assert(tail[j] == v@[from + j]);
        }
        lemma_first_at_is(tail, c, i - from);
    }
    i
}

pub fn find_last(v: &[char], c: char) -> (r: Option<usize>)
    ensures
        match r {
            Some(at) => at == last_at(v@, c) && at < v@.len(),
            None => last_at(v@, c) < 0,
        },
{
    let mut i: usize = v.len();
    assert(v@.take(i as int) =~= v@);
    while i > 0
        invariant
            i <= v@.len(),
            last_at(v@, c) == last_at(v@.take(i as int), c),
        decreases i,
    {
        assert(v@.take(i as int).last() == v@[i - 1]);
        if v[i - 1] == c {
            return Some(i - 1);
        }
        assert(v@.take(i as int).drop_last() =~= v@.take(i - 1));
        i -= 1;
    }
    None
}

/// The two sides of the first `c` in a text, or nothing where it holds none.
pub fn split_first_text(s: &str, c: char) -> (r: Option<(String, String)>)
    ensures
        r is Some <==> split_first(s@, c) is Some,
        r matches Some(sides) ==> split_first(s@, c) == Some((sides.0@, sides.1@)),
{
    let v = chars_of(s);
    let at: usize = find_first(&v, 0, c);
    assert(s@.skip(0) =~= s@);
    if at < v.len() {
        let head = string_of(&v, 0, at);
        let tail = string_of(&v, at + 1, v.len());
        assert(head@ =~= s@.take(at as int));
        assert(tail@ =~= s@.skip(at + 1));
        Some((head, tail))
    } else {
        None
    }
}

/// The two sides of the last `c` in a text, or nothing where it holds none.
pub fn split_last_text(s: &str, c: char) -> (r: Option<(String, String)>)
    ensures
        r is Some <==> split_last(s@, c) is Some,
        r matches Some(sides) ==> split_last(s@, c) == Some((sides.0@, sides.1@)),
{
    let v = chars_of(s);
    let len: usize = v.len();
    match find_last(&v, c) {
        Some(at) => {
            let head = string_of(&v, 0, at);
            let tail = string_of(&v, at + 1, len);
            assert(head@ =~= s@.take(at as int));
            assert(tail@ =~= s@.skip(at + 1));
            Some((head, tail))
        },
        None => None,
    }
}

/// Whether `infix` stands in `s` at `at`.
pub open spec fn stands_at(s: Seq<char>, infix: Seq<char>, at: int) -> bool {
    0 <= at && at + infix.len() <= s.len() && s.subrange(at, at + infix.len()) == infix
}

/// Where `infix` first stands in `s`, at or after `from`; -1 where it does not.
pub open spec fn infix_at(s: Seq<char>, infix: Seq<char>, from: int) -> int
    decreases s.len() + 1 - from,
{
    if from + infix.len() > s.len() {
        -1
    } else if stands_at(s, infix, from) {
        from
    } else {
        infix_at(s, infix, from + 1)
    }
}

/// [`infix_at`] is the one position the infix stands at with none before it.
pub proof fn lemma_infix_at(s: Seq<char>, infix: Seq<char>, from: int)
    requires
        0 <= from,
    ensures
        infix_at(s, infix, from) == -1 || infix_at(s, infix, from) >= from,
        infix_at(s, infix, from) >= 0 ==> stands_at(s, infix, infix_at(s, infix, from)),
        infix_at(s, infix, from) == -1 ==> forall|i: int| from <= i ==> !stands_at(s, infix, i),
        forall|i: int| from <= i < infix_at(s, infix, from) ==> !stands_at(s, infix, i),
    decreases s.len() + 1 - from,
{
    if from + infix.len() <= s.len() && !stands_at(s, infix, from) {
        lemma_infix_at(s, infix, from + 1);
    }
}

fn stands(v: &[char], infix: &[char], at: usize) -> (r: bool)
    requires
        at + infix@.len() <= v@.len(),
    ensures
        r == stands_at(v@, infix@, at as int),
{
    let len: usize = v.len();
    let mut i: usize = 0;
    while i < infix.len()
        invariant
            i <= infix@.len(),
            len == v@.len(),
            at + infix@.len() <= v@.len(),
            forall|j: int| 0 <= j < i ==> v@[at + j] == infix@[j],
        decreases infix.len() - i,
    {
        if v[at + i] != infix[i] {
            assert(v@.subrange(at as int, at + infix@.len())[i as int] == v@[at + i]);
            return false;
        }
        i += 1;
    }
    assert(v@.subrange(at as int, at + infix@.len()) =~= infix@);
    true
}

pub fn find_infix(v: &[char], infix: &[char]) -> (r: Option<usize>)
    ensures
        match r {
            Some(at) => at == infix_at(v@, infix@, 0) && at + infix@.len() <= v@.len(),
            None => infix_at(v@, infix@, 0) == -1,
        },
{
    let len: usize = v.len();
    let width: usize = infix.len();
    if width > len {
        return None;
    }
    let mut at: usize = 0;
    loop
        invariant
            len == v@.len(),
            width == infix@.len(),
            width <= len,
            at + width <= len,
            infix_at(v@, infix@, 0) == infix_at(v@, infix@, at as int),
        decreases len - at,
    {
        if stands(v, infix, at) {
            return Some(at);
        }
        if at == len - width {
            assert(infix_at(v@, infix@, at + 1) == -1);
            return None;
        }
        at += 1;
    }
}

/// The two sides of the first `infix` in `s`.
pub open spec fn split_infix(s: Seq<char>, infix: Seq<char>) -> Option<(Seq<char>, Seq<char>)> {
    let at = infix_at(s, infix, 0);
    if at >= 0 {
        Some((s.take(at), s.skip(at + infix.len())))
    } else {
        None
    }
}

/// The two sides of the first `infix` in a text, or nothing where it holds none.
pub fn split_infix_text(s: &str, infix: &str) -> (r: Option<(String, String)>)
    ensures
        r is Some <==> split_infix(s@, infix@) is Some,
        r matches Some(sides) ==> split_infix(s@, infix@) == Some((sides.0@, sides.1@)),
{
    let v = chars_of(s);
    let w = chars_of(infix);
    let len: usize = v.len();
    match find_infix(&v, &w) {
        Some(at) => {
            let head = string_of(&v, 0, at);
            let tail = string_of(&v, at + w.len(), len);
            assert(head@ =~= s@.take(at as int));
            assert(tail@ =~= s@.skip(at + w@.len()));
            Some((head, tail))
        },
        None => None,
    }
}

/// Whether every character of a text passes `is_alnum`, and there is one.
pub open spec fn alnum_run(s: Seq<char>) -> bool {
    s.len() > 0 && forall|i: int| 0 <= i < s.len() ==> is_alnum(#[trigger] s[i])
}

pub open spec fn digit_run(s: Seq<char>) -> bool {
    s.len() > 0 && forall|i: int| 0 <= i < s.len() ==> is_digit(#[trigger] s[i])
}

pub fn is_digit_run(text: &str) -> (r: bool)
    ensures
        r == digit_run(text@),
{
    let v = chars_of(text);
    let mut i: usize = 0;
    while i < v.len()
        invariant
            v@ == text@,
            i <= v@.len(),
            forall|j: int| 0 <= j < i ==> is_digit(#[trigger] v@[j]),
        decreases v.len() - i,
    {
        if !digit(v[i]) {
            return false;
        }
        i += 1;
    }
    v.len() > 0
}

/// `s` without the characters before its first and after its last one that is not white space.
pub open spec fn trimmed(s: Seq<char>) -> Seq<char>
    decreases s.len(),
{
    if s.len() == 0 {
        s
    } else if white_space(s[0]) {
        trimmed(s.drop_first())
    } else if white_space(s.last()) {
        trimmed(s.drop_last())
    } else {
        s
    }
}

/// [`trimmed`], as text.
pub fn trim_text(s: &str) -> (r: String)
    ensures
        r@ == trimmed(s@),
{
    let v = chars_of(s);
    let mut from: usize = 0;
    let mut to: usize = v.len();
    assert(v@.subrange(0, to as int) =~= s@);
    while from < to && v[from].is_whitespace()
        invariant
            from <= to <= v@.len(),
            trimmed(v@.subrange(from as int, to as int)) == trimmed(s@),
        decreases to - from,
    {
        let ghost now = v@.subrange(from as int, to as int);
        assert(now[0] == v@[from as int]);
        assert(now.drop_first() =~= v@.subrange(from + 1, to as int));
        from += 1;
    }
    while from < to && v[to - 1].is_whitespace()
        invariant
            from <= to <= v@.len(),
            from < to ==> !white_space(v@[from as int]),
            trimmed(v@.subrange(from as int, to as int)) == trimmed(s@),
        decreases to - from,
    {
        let ghost now = v@.subrange(from as int, to as int);
        assert(now[0] == v@[from as int]);
        assert(now.last() == v@[to - 1]);
        assert(now.drop_last() =~= v@.subrange(from as int, to - 1));
        to -= 1;
    }
    assert(from < to ==> v@.subrange(from as int, to as int)[0] == v@[from as int]);
    assert(from < to ==> v@.subrange(from as int, to as int).last() == v@[to - 1]);
    string_of(&v, from, to)
}

/// What an optional text spells.
pub open spec fn opt_view(text: Option<String>) -> Option<Seq<char>> {
    match text {
        Some(text) => Some(text@),
        None => None,
    }
}

/// What a list of texts spells.
pub open spec fn views(v: Seq<String>) -> Seq<Seq<char>> {
    v.map_values(|s: String| s@)
}

pub proof fn lemma_views_push(v: Seq<String>, s: String)
    ensures
        views(v.push(s)) == views(v).push(s@),
{
    assert(views(v.push(s)) =~= views(v).push(s@));
}

/// `s` cut at every `c`.
pub open spec fn pieces(s: Seq<char>, c: char) -> Seq<Seq<char>>
    decreases s.len(),
{
    let at = first_at(s, c);
    if 0 <= at < s.len() {
        seq![s.take(at)] + pieces(s.skip(at + 1), c)
    } else {
        seq![s]
    }
}

/// [`pieces`], as texts.
pub fn pieces_text(s: &str, c: char) -> (r: Vec<String>)
    ensures
        views(r@) == pieces(s@, c),
{
    let v = chars_of(s);
    let len: usize = v.len();
    let mut out: Vec<String> = Vec::new();
    let mut from: usize = 0;
    assert(s@.skip(0) =~= s@);
    assert(views(out@) + pieces(s@.skip(0), c) =~= pieces(s@, c));
    loop
        invariant
            v@ == s@,
            len == v@.len(),
            from <= len,
            views(out@) + pieces(s@.skip(from as int), c) == pieces(s@, c),
        decreases len - from,
    {
        let ghost tail = s@.skip(from as int);
        let at: usize = find_first(&v, from, c);
        let piece = string_of(&v, from, at);
        let ghost before = views(out@);
        proof {
            lemma_views_push(out@, piece);
        }
        out.push(piece);
        if at < len {
            assert(tail.take(at - from) =~= v@.subrange(from as int, at as int));
            assert(tail.skip(at - from + 1) =~= s@.skip(at + 1));
            assert(before.push(piece@) + pieces(s@.skip(at + 1), c) =~= before + (seq![piece@]
                + pieces(s@.skip(at + 1), c)));
            from = at + 1;
        } else {
            assert(tail =~= v@.subrange(from as int, at as int));
            assert(before.push(piece@) =~= before + seq![piece@]);
            return out;
        }
    }
}

/// Pieces never hold the character they were cut at.
pub proof fn lemma_pieces_free(s: Seq<char>, c: char)
    ensures
        pieces(s, c).len() > 0,
        forall|i: int| 0 <= i < pieces(s, c).len() ==> !(#[trigger] pieces(s, c)[i]).contains(c),
    decreases s.len(),
{
    lemma_first_at(s, c);
    let at = first_at(s, c);
    if at < s.len() {
        let rest = pieces(s.skip(at + 1), c);
        lemma_pieces_free(s.skip(at + 1), c);
        assert forall|i: int| 0 <= i < pieces(s, c).len() implies !(#[trigger] pieces(s, c)[i]).contains(c) by {
            if i > 0 {
                assert(pieces(s, c)[i] == rest[i - 1]);
            }
        }
    }
}

// ---- numbers ----

pub open spec fn digit_char(d: nat) -> char {
    (48 + d) as u32 as char
}

/// A number in decimal, without leading zeros.
pub open spec fn decimal(n: nat) -> Seq<char>
    decreases n,
{
    if n < 10 {
        seq![digit_char(n)]
    } else {
        decimal(n / 10).push(digit_char(n % 10))
    }
}

/// [`decimal`], as text.
pub fn decimal_text(n: u128) -> (r: String)
    ensures
        r@ == decimal(n as nat),
    decreases n,
{
    let d = ((n % 10) as u8 + 48) as char;
    if n < 10 {
        let mut out = String::new();
        out.push(d);
        assert(out@ =~= decimal(n as nat));
        out
    } else {
        let mut out = decimal_text(n / 10);
        out.push(d);
        out
    }
}

/// A number in decimal, with its sign where it is negative.
pub open spec fn signed(n: int) -> Seq<char> {
    if n < 0 {
        "-"@ + decimal((-n) as nat)
    } else {
        decimal(n as nat)
    }
}

/// [`signed`], as text.
pub fn signed_text(n: i64) -> (r: String)
    ensures
        r@ == signed(n as int),
{
    if n < 0 {
        let size: i128 = -(n as i128);
        join2("-", &decimal_text(size as u128))
    } else {
        decimal_text(n as u128)
    }
}

/// The number a run of digits spells.
pub open spec fn number_of(digits: Seq<char>) -> nat
    decreases digits.len(),
{
    if digits.len() == 0 {
        0
    } else {
        number_of(digits.drop_last()) * 10 + (digits.last() as u32 - 48) as nat
    }
}

pub open spec fn all_digits(s: Seq<char>) -> bool {
    forall|i: int| 0 <= i < s.len() ==> is_digit(#[trigger] s[i])
}

/// The number a text spells: digits, with a sign before them or none.
pub open spec fn integer_of(s: Seq<char>) -> Option<int> {
    let signed = s.len() > 0 && (s[0] == '-' || s[0] == '+');
    let digits = if signed {
        s.skip(1)
    } else {
        s
    };
    if digits.len() == 0 || !all_digits(digits) {
        None
    } else if s[0] == '-' {
        Some(-(number_of(digits) as int))
    } else {
        Some(number_of(digits) as int)
    }
}

proof fn lemma_number_grows(digits: Seq<char>, at: int)
    requires
        all_digits(digits),
        0 <= at <= digits.len(),
    ensures
        number_of(digits.take(at)) <= number_of(digits),
    decreases digits.len(),
{
    if at < digits.len() {
        assert(digits.drop_last().take(at) =~= digits.take(at));
        assert(all_digits(digits.drop_last()));
        assert(is_digit(digits[digits.len() - 1]));
        lemma_number_grows(digits.drop_last(), at);
    } else {
        assert(digits.take(at) =~= digits);
    }
}

/// The number a text spells, where it is one of 32 bits.
pub fn parse_i32(text: &str) -> (r: Option<i32>)
    ensures
        match r {
            Some(n) => integer_of(text@) == Some(n as int),
            None => integer_of(text@) matches Some(n) ==> !(i32::MIN <= n <= i32::MAX),
        },
{
    let chars = chars_of(text);
    let ghost s = text@;
    let mut i: usize = 0;
    let negative = chars.len() > 0 && chars[0] == '-';
    if chars.len() > 0 && (chars[0] == '-' || chars[0] == '+') {
        i = 1;
    }
    let ghost from = i as int;
    let ghost digits = s.skip(from);
    assert(from == 0 ==> digits =~= s);
    if i == chars.len() {
        return None;
    }
    let mut n: i64 = 0;
    while i < chars.len()
        invariant
            chars@ == s,
            s == text@,
            0 <= from <= i <= s.len(),
            from < s.len(),
            from == if s[0] == '-' || s[0] == '+' {
                1int
            } else {
                0int
            },
            digits == s.skip(from),
            from == 0 ==> digits == s,
            all_digits(digits.take(i - from)),
            n == number_of(digits.take(i - from)),
            n <= 0x1_0000_0000,
        decreases chars.len() - i,
    {
        let c = chars[i];
        proof {
            let now = digits.take(i - from + 1);
            assert(now.drop_last() =~= digits.take(i - from));
            assert(now.last() == c);
            assert(digits[i - from] == c);
        }
        if !digit(c) {
            assert(!all_digits(digits)) by {
                assert(!is_digit(digits[i - from]));
            }
            return None;
        }
        let ghost before = n;
        n = n * 10 + (c as u32 - 48) as i64;
        assert(all_digits(digits.take(i - from + 1))) by {
            let now = digits.take(i - from + 1);
            assert forall|k: int| 0 <= k < now.len() implies is_digit(#[trigger] now[k]) by {
                if k < i - from {
                    assert(now[k] == digits.take(i - from)[k]);
                }
            }
        }
        i += 1;
        if n > 0x1_0000_0000 {
            proof {
                if all_digits(digits) {
                    lemma_number_grows(digits, i - from);
                }
            }
            return None;
        }
    }
    assert(digits.take(i - from) =~= digits);
    if negative {
        if n <= 0x8000_0000 {
            Some((0 - n) as i32)
        } else {
            None
        }
    } else if n <= 0x7fff_ffff {
        Some(n as i32)
    } else {
        None
    }
}

/// How a text is quoted for a reader, control characters escaped.
pub uninterp spec fn quoted(s: Seq<char>) -> Seq<char>;

/// The debug spelling of `str`: the text in double quotes, escaped as `std` escapes it, which the
/// contract names rather than spells out.
#[verifier::external_body]
pub(crate) fn quoted_text(s: &str) -> (r: String)
    ensures
        r@ == quoted(s@),
{
    format!("{s:?}")
}

/// How a path is quoted for a reader, what would break its line escaped.
pub uninterp spec fn path_quoted(s: Seq<char>) -> Seq<char>;

/// The debug spelling of `std::path::Path`: the path in double quotes, escaped as `std` escapes it,
/// which the contract names rather than spells out; a line break is among what is escaped.
#[verifier::external_body]
pub(crate) fn path_quoted_text(s: &str) -> (r: String)
    ensures
        r@ == path_quoted(s@),
        !r@.contains('\n'),
{
    format!("{:?}", std::path::Path::new(s))
}

/// Decimal spellings are digits, and there is at least one.
pub proof fn lemma_decimal_digits(n: nat)
    ensures
        decimal(n).len() > 0,
        forall|i: int| 0 <= i < decimal(n).len() ==> is_digit(#[trigger] decimal(n)[i]),
    decreases n,
{
    if n >= 10 {
        lemma_decimal_digits(n / 10);
    }
}

/// Two numbers spelled alike are one number.
pub proof fn lemma_decimal_injective(m: nat, n: nat)
    requires
        decimal(m) == decimal(n),
    ensures
        m == n,
    decreases m,
{
    lemma_decimal_digits(m);
    lemma_decimal_digits(n);
    let a = decimal(m);
    let b = decimal(n);
    assert(a.last() == digit_char(m % 10));
    assert(b.last() == digit_char(n % 10));
    if m < 10 {
        if n >= 10 {
            lemma_decimal_digits(n / 10);
            assert(b.len() == decimal(n / 10).len() + 1);
        }
    } else {
        lemma_decimal_digits(m / 10);
        assert(a.len() == decimal(m / 10).len() + 1);
        assert(n >= 10);
        assert(a.drop_last() =~= decimal(m / 10));
        assert(b.drop_last() =~= decimal(n / 10));
        lemma_decimal_injective(m / 10, n / 10);
    }
}

// ---- laws ----

/// Folding lowers the ascii capitals and leaves every other character, so folding twice folds once.
pub proof fn law_folding_lowers_capitals_alone(s: Seq<char>)
    ensures
        fold(s).len() == s.len(),
        forall|i: int|
            0 <= i < s.len() ==> if 'A' <= #[trigger] s[i] <= 'Z' {
                'a' <= fold(s)[i] <= 'z' && fold(s)[i] as int - 'a' as int == s[i] as int - 'A' as int
            } else {
                fold(s)[i] == s[i]
            },
        fold(fold(s)) == fold(s),
{
    assert(fold(fold(s)) =~= fold(s));
}

/// Trimming takes the white space off both ends and nothing else.
pub proof fn law_trimming_takes_only_the_ends(before: Seq<char>, core: Seq<char>, after: Seq<char>)
    requires
        forall|i: int| 0 <= i < before.len() ==> white_space(#[trigger] before[i]),
        forall|i: int| 0 <= i < after.len() ==> white_space(#[trigger] after[i]),
        core.len() > 0 ==> !white_space(core[0]) && !white_space(core.last()),
    ensures
        trimmed(before + core + after) == core,
    decreases before.len() + after.len(),
{
    let all = before + core + after;
    if before.len() > 0 {
        assert(all[0] == before[0]);
        let rest = before.drop_first();
        assert forall|i: int| 0 <= i < rest.len() implies white_space(#[trigger] rest[i]) by {
            assert(rest[i] == before[i + 1]);
        }
        law_trimming_takes_only_the_ends(rest, core, after);
        assert(all.drop_first() =~= rest + core + after);
    } else if after.len() > 0 {
        let rest = after.drop_last();
        assert forall|i: int| 0 <= i < rest.len() implies white_space(#[trigger] rest[i]) by {
            assert(rest[i] == after[i]);
        }
        law_trimming_takes_only_the_ends(before, core, rest);
        assert(all.last() == after[after.len() - 1]);
        if core.len() > 0 {
            assert(all[0] == core[0]);
            assert(all.drop_last() =~= before + core + rest);
        } else {
            assert(all =~= after);
            assert(all[0] == after[0]);
            let fewer = after.drop_first();
            assert forall|i: int| 0 <= i < fewer.len() implies white_space(#[trigger] fewer[i]) by {
                assert(fewer[i] == after[i + 1]);
            }
            law_trimming_takes_only_the_ends(before, core, fewer);
            assert(all.drop_first() =~= before + core + fewer);
        }
    } else {
        assert(all =~= core);
    }
}

/// A number spelled in decimal is read back as itself, with its sign.
pub proof fn law_a_number_is_read_back(n: int)
    ensures
        n >= 0 ==> number_of(decimal(n as nat)) == n,
        integer_of(signed(n)) == Some(n),
        n >= 0 && n > 9 ==> decimal(n as nat)[0] != '0',
{
    reveal_strlit("-");
    if n >= 0 {
        lemma_decimal_read(n as nat);
        lemma_decimal_digits(n as nat);
        let s = decimal(n as nat);
        assert(is_digit(s[0]));
        assert(all_digits(s));
        if n > 9 {
            lemma_decimal_leads(n as nat);
        }
    } else {
        let s = decimal((-n) as nat);
        lemma_decimal_read((-n) as nat);
        lemma_decimal_digits((-n) as nat);
        assert(signed(n).skip(1) =~= s);
        assert(signed(n)[0] == '-');
        assert(all_digits(s));
    }
}

proof fn lemma_decimal_read(n: nat)
    ensures
        number_of(decimal(n)) == n,
    decreases n,
{
    if n < 10 {
        let s = decimal(n);
        assert(s.drop_last() =~= seq![]);
        assert(number_of(s.drop_last()) == 0);
        assert(s.last() == digit_char(n));
    } else {
        lemma_decimal_read(n / 10);
        let s = decimal(n);
        assert(s.drop_last() =~= decimal(n / 10));
        assert(s.last() == digit_char(n % 10));
    }
}

proof fn lemma_decimal_leads(n: nat)
    requires
        n > 0,
    ensures
        decimal(n).len() > 0,
        decimal(n)[0] != '0',
    decreases n,
{
    if n >= 10 {
        lemma_decimal_leads(n / 10);
        assert(decimal(n)[0] == decimal(n / 10)[0]);
    }
}

/// What was cut apart at a character goes together again with it between.
pub proof fn law_a_split_goes_together_again(s: Seq<char>, c: char)
    ensures
        split_first(s, c) is Some <==> s.contains(c),
        split_last(s, c) is Some <==> s.contains(c),
        split_first(s, c) matches Some((left, right)) ==> left + seq![c] + right == s && !left.contains(c),
        split_last(s, c) matches Some((left, right)) ==> left + seq![c] + right == s && !right.contains(c),
{
    lemma_first_at(s, c);
    lemma_last_at(s, c);
    let (first, last) = (first_at(s, c), last_at(s, c));
    if s.contains(c) {
        let k = choose|k: int| 0 <= k < s.len() && s[k] == c;
        assert(s[k] == c);
    }
    if first < s.len() {
        assert(s[first] == c);
        assert(s.take(first) + seq![c] + s.skip(first + 1) =~= s);
    }
    if last >= 0 {
        assert(s[last] == c);
        assert(s.take(last) + seq![c] + s.skip(last + 1) =~= s);
        let right = s.skip(last + 1);
        assert forall|i: int| 0 <= i < right.len() implies #[trigger] right[i] != c by {
            assert(right[i] == s[last + 1 + i]);
        }
    }
}

} // verus!
