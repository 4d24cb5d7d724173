//! Ordering: the lexicographic order of texts, and one stable sort over every ranked type.

use vstd::prelude::*;
use vstd::std_specs::iter::IteratorSpec;

verus! {

// ---- texts ----

/// Whether `a` comes no later than `b` in the order of their characters. For text this is also
/// the order of their utf-8 bytes.
pub open spec fn text_le(a: Seq<char>, b: Seq<char>) -> bool
    decreases a.len(),
{
    if a.len() == 0 {
        true
    } else if b.len() == 0 {
        false
    } else if a[0] == b[0] {
        text_le(a.drop_first(), b.drop_first())
    } else {
        a[0] < b[0]
    }
}

pub proof fn lemma_text_le_total(a: Seq<char>, b: Seq<char>)
    ensures
        text_le(a, b) || text_le(b, a),
    decreases a.len(),
{
    if a.len() != 0 && b.len() != 0 && a[0] == b[0] {
        lemma_text_le_total(a.drop_first(), b.drop_first());
    }
}

pub proof fn lemma_text_le_antisymmetric(a: Seq<char>, b: Seq<char>)
    requires
        text_le(a, b),
        text_le(b, a),
    ensures
        a == b,
    decreases a.len(),
{
    if a.len() == 0 || b.len() == 0 {
        assert(a =~= b);
    } else {
        let (x, y) = (a.drop_first(), b.drop_first());
        assert(a[0] == b[0]);
        lemma_text_le_antisymmetric(x, y);
        assert forall|i: int| 0 <= i < a.len() implies a[i] == b[i] by {
            if i > 0 {
                assert(a[i] == x[i - 1]);
                assert(b[i] == y[i - 1]);
            }
        }
        assert(a =~= b);
    }
}

pub proof fn lemma_text_le_transitive(a: Seq<char>, b: Seq<char>, c: Seq<char>)
    requires
        text_le(a, b),
        text_le(b, c),
    ensures
        text_le(a, c),
    decreases a.len(),
{
    if a.len() != 0 && b.len() != 0 && c.len() != 0 && a[0] == b[0] && b[0] == c[0] {
        lemma_text_le_transitive(a.drop_first(), b.drop_first(), c.drop_first());
    }
}

/// [`text_le`], computed.
pub fn text_not_after(a: &str, b: &str) -> (r: bool)
    ensures
        r == text_le(a@, b@),
{
    broadcast use vstd::string::group_string_axioms;

    let mut x = a.chars();
    let mut y = b.chars();
    loop
        invariant
            x.obeys_prophetic_iter_laws(),
            y.obeys_prophetic_iter_laws(),
            x.decrease() is Some,
            text_le(a@, b@) == text_le(x.remaining(), y.remaining()),
        decreases x.decrease()->0,
    {
        let left = x.next();
        let right = y.next();
        match (left, right) {
            (None, _) => {
                return true;
            },
            (Some(_), None) => {
                return false;
            },
            (Some(c), Some(d)) => {
                if c != d {
                    return c < d;
                }
            },
        }
    }
}

// ---- ranked types ----

/// A type with a total preorder: any two values compare, and comparison chains.
pub trait Ranked: Sized {
    spec fn le(self, other: Self) -> bool;

    proof fn total(a: Self, b: Self)
        ensures
            a.le(b) || b.le(a),
    ;

    proof fn transitive(a: Self, b: Self, c: Self)
        requires
            a.le(b),
            b.le(c),
        ensures
            a.le(c),
    ;

    fn not_after(&self, other: &Self) -> (r: bool)
        ensures
            r == self.le(*other),
    ;
}

pub open spec fn in_order<T: Ranked>(s: Seq<T>) -> bool {
    forall|i: int, j: int| 0 <= i < j < s.len() ==> (#[trigger] s[i]).le(#[trigger] s[j])
}

/// `x` put into `s` ahead of the first element that does not come before it.
pub open spec fn placed<T: Ranked>(s: Seq<T>, x: T) -> Seq<T>
    decreases s.len(),
{
    if s.len() == 0 || x.le(s[0]) {
        seq![x] + s
    } else {
        seq![s[0]] + placed(s.drop_first(), x)
    }
}

/// `s` in order, elements that compare equal keeping the order they came in.
pub open spec fn sorted<T: Ranked>(s: Seq<T>) -> Seq<T>
    decreases s.len(),
{
    if s.len() == 0 {
        s
    } else {
        placed(sorted(s.drop_first()), s[0])
    }
}

pub proof fn lemma_placed_at<T: Ranked>(s: Seq<T>, x: T, at: int)
    requires
        0 <= at <= s.len(),
        forall|i: int| 0 <= i < at ==> !x.le(#[trigger] s[i]),
        at < s.len() ==> x.le(s[at]),
    ensures
        placed(s, x) == s.insert(at, x),
    decreases s.len(),
{
    if at == 0 {
        assert(s.insert(0, x) =~= seq![x] + s);
    } else {
        assert(!x.le(s[0]));
        let rest = s.drop_first();
        assert forall|i: int| 0 <= i < at - 1 implies !x.le(#[trigger] rest[i]) by {
            assert(rest[i] == s[i + 1]);
        }
        lemma_placed_at(rest, x, at - 1);
        assert(s.insert(at, x) =~= seq![s[0]] + rest.insert(at - 1, x));
    }
}

pub proof fn lemma_placed<T: Ranked>(s: Seq<T>, x: T)
    requires
        in_order(s),
    ensures
        in_order(placed(s, x)),
        placed(s, x).len() == s.len() + 1,
        placed(s, x).to_multiset() == s.to_multiset().insert(x),
    decreases s.len(),
{
    let at = lemma_place(s, x);
    lemma_placed_at(s, x, at);
    let p = s.insert(at, x);
    assert forall|i: int, j: int| 0 <= i < j < p.len() implies (#[trigger] p[i]).le(#[trigger] p[j]) by {
        if i < at && j == at {
            T::total(x, s[i]);
        } else if i == at && j > at {
            if j - 1 > at {
                assert(s[at].le(s[j - 1]));
                T::transitive(x, s[at], s[j - 1]);
            }
        }
    }
    vstd::seq_lib::to_multiset_insert(s, at, x);
}

pub proof fn lemma_place<T: Ranked>(s: Seq<T>, x: T) -> (at: int)
    ensures
        0 <= at <= s.len(),
        forall|i: int| 0 <= i < at ==> !x.le(#[trigger] s[i]),
        at < s.len() ==> x.le(s[at]),
    decreases s.len(),
{
    if s.len() == 0 || x.le(s[0]) {
        0
    } else {
        let rest = s.drop_first();
        let at = lemma_place(rest, x);
        assert forall|i: int| 0 <= i < at + 1 implies !x.le(#[trigger] s[i]) by {
            if i > 0 {
                assert(rest[i - 1] == s[i]);
            }
        }
        at + 1
    }
}

/// Sorting orders, and neither loses nor invents an element.
pub proof fn lemma_sorted<T: Ranked>(s: Seq<T>)
    ensures
        in_order(sorted(s)),
        sorted(s).len() == s.len(),
        sorted(s).to_multiset() == s.to_multiset(),
    decreases s.len(),
{
    if s.len() != 0 {
        lemma_sorted(s.drop_first());
        lemma_placed(sorted(s.drop_first()), s[0]);
        assert(s =~= seq![s[0]] + s.drop_first());
        assert(s.drop_first().insert(0, s[0]) =~= s);
        vstd::seq_lib::to_multiset_insert(s.drop_first(), 0, s[0]);
    }
}

/// What is there once an element is put in place.
pub proof fn lemma_placed_contains<T: Ranked>(s: Seq<T>, x: T, y: T)
    ensures
        placed(s, x).contains(y) <==> s.contains(y) || y == x,
{
    let at = lemma_place(s, x);
    lemma_placed_at(s, x, at);
    let p = s.insert(at, x);
    if s.contains(y) {
        let i = choose|i: int| 0 <= i < s.len() && s[i] == y;
        assert(p[if i < at { i } else { i + 1 }] == y);
    }
    assert(p[at] == x);
    if p.contains(y) {
        let i = choose|i: int| 0 <= i < p.len() && p[i] == y;
        if i != at {
            assert(s[if i < at { i } else { i - 1 }] == y);
        }
    }
}

/// Putting an element with a new key in place keeps keys distinct.
pub proof fn lemma_placed_distinct<T: Ranked, K>(s: Seq<T>, x: T, key: spec_fn(T) -> K)
    requires
        keys_distinct(s, key),
        forall|i: int| 0 <= i < s.len() ==> key(#[trigger] s[i]) != key(x),
    ensures
        keys_distinct(placed(s, x), key),
{
    let at = lemma_place(s, x);
    lemma_placed_at(s, x, at);
    let p = s.insert(at, x);
    assert forall|i: int, j: int| 0 <= i < j < p.len() implies key(#[trigger] p[i]) != key(#[trigger] p[j]) by {
        let a = if i < at { i } else { i - 1 };
        let b = if j < at { j } else { j - 1 };
        if i == at {
            assert(p[j] == s[b]);
        } else if j == at {
            assert(p[i] == s[a]);
        } else {
            assert(p[i] == s[a] && p[j] == s[b]);
        }
    }
}

/// Puts an element in place.
pub fn put_in_place<T: Ranked>(items: &mut Vec<T>, x: T)
    ensures
        final(items)@ == placed(old(items)@, x),
{
    let mut at: usize = 0;
    while at < items.len() && !x.not_after(&items[at])
        invariant
            at <= items@.len(),
            items@ == old(items)@,
            forall|i: int| 0 <= i < at ==> !x.le(#[trigger] items@[i]),
        decreases items.len() - at,
    {
        at += 1;
    }
    proof {
        lemma_placed_at(items@, x, at as int);
    }
    items.insert(at, x);
}

/// Sorting keeps exactly the elements there were.
pub proof fn lemma_sorted_contains<T: Ranked>(s: Seq<T>, x: T)
    ensures
        sorted(s).contains(x) <==> s.contains(x),
{
    lemma_sorted(s);
    s.to_multiset_ensures();
    sorted(s).to_multiset_ensures();
    assert(sorted(s).to_multiset().count(x) == s.to_multiset().count(x));
}

/// Whether no two elements share a key.
pub open spec fn keys_distinct<T, K>(s: Seq<T>, key: spec_fn(T) -> K) -> bool {
    forall|i: int, j: int| 0 <= i < j < s.len() ==> key(#[trigger] s[i]) != key(#[trigger] s[j])
}

/// Sorting keeps distinct keys distinct.
pub proof fn lemma_sorted_distinct<T: Ranked, K>(s: Seq<T>, key: spec_fn(T) -> K)
    requires
        keys_distinct(s, key),
    ensures
        keys_distinct(sorted(s), key),
    decreases s.len(),
{
    if s.len() > 0 {
        let rest = s.drop_first();
        let x = s[0];
        assert forall|i: int, j: int| 0 <= i < j < rest.len() implies key(#[trigger] rest[i]) != key(#[trigger] rest[j]) by {
            assert(key(s[i + 1]) != key(s[j + 1]));
        }
        lemma_sorted_distinct(rest, key);
        let t = sorted(rest);
        let at = lemma_place(t, x);
        lemma_placed_at(t, x, at);
        let p = t.insert(at, x);
        assert forall|i: int| 0 <= i < t.len() implies key(#[trigger] t[i]) != key(x) by {
            lemma_sorted_contains(rest, t[i]);
            assert(t.contains(t[i]));
            let k = choose|k: int| 0 <= k < rest.len() && rest[k] == t[i];
            assert(key(s[0]) != key(s[k + 1]));
        }
        assert forall|i: int, j: int| 0 <= i < j < p.len() implies key(#[trigger] p[i]) != key(#[trigger] p[j]) by {
            let a = if i < at { i } else { i - 1 };
            let b = if j < at { j } else { j - 1 };
            if i == at {
                assert(p[j] == t[b]);
            } else if j == at {
                assert(p[i] == t[a]);
            } else {
                assert(p[i] == t[a] && p[j] == t[b]);
            }
        }
    }
}

/// The stable sort.
pub fn sort<T: Ranked>(items: Vec<T>) -> (r: Vec<T>)
    ensures
        r@ == sorted(items@),
{
    let mut rest = items;
    let mut out: Vec<T> = Vec::new();
    let ghost all = items@;
    assert(all.skip(all.len() as int) =~= Seq::<T>::empty());
    assert(all.take(all.len() as int) =~= all);
    while rest.len() > 0
        invariant
            rest@.len() <= all.len(),
            rest@ == all.take(rest@.len() as int),
            out@ == sorted(all.skip(rest@.len() as int)),
        decreases rest.len(),
    {
        let ghost before = all.skip(rest@.len() as int);
        let x = rest.pop().unwrap();
        let ghost after = all.skip(rest@.len() as int);
        assert(after.drop_first() =~= before);
        assert(after[0] == x);
        proof {
            lemma_sorted(before);
        }
        let mut low: usize = 0;
        let mut high: usize = out.len();
        while low < high
            invariant
                low <= high <= out@.len(),
                in_order(out@),
                forall|i: int| 0 <= i < low ==> !x.le(#[trigger] out@[i]),
                high < out@.len() ==> x.le(out@[high as int]),
            decreases high - low,
        {
            let mid: usize = low + (high - low) / 2;
            if x.not_after(&out[mid]) {
                high = mid;
            } else {
                assert forall|i: int| 0 <= i < mid + 1 implies !x.le(#[trigger] out@[i]) by {
                    if i < mid && x.le(out@[i]) {
                        assert(out@[i].le(out@[mid as int]));
                        T::transitive(x, out@[i], out@[mid as int]);
                    }
                }
                low = mid + 1;
            }
        }
        proof {
            lemma_placed_at(out@, x, low as int);
        }
        out.insert(low, x);
        assert(rest@ =~= all.take(rest@.len() as int));
    }
    assert(all.skip(0) =~= all);
    out
}

// ---- filtering ----

/// What a filter keeps was there.
pub proof fn lemma_filter_from<A>(s: Seq<A>, keep: spec_fn(A) -> bool)
    ensures
        forall|i: int| #![trigger s.filter(keep)[i]] 0 <= i < s.filter(keep).len() ==> s.contains(s.filter(keep)[i]) && keep(s.filter(keep)[i]),
    decreases s.len(),
{
    reveal(Seq::filter);
    if s.len() > 0 {
        let rest = s.drop_last();
        lemma_filter_from(rest, keep);
        assert forall|i: int| #![trigger s.filter(keep)[i]] 0 <= i < s.filter(keep).len() implies s.contains(s.filter(keep)[i])
            && keep(s.filter(keep)[i]) by {
            if i < rest.filter(keep).len() {
                assert(s.filter(keep)[i] == rest.filter(keep)[i]);
                let j = choose|j: int| 0 <= j < rest.len() && rest[j] == rest.filter(keep)[i];
                assert(s[j] == s.filter(keep)[i]);
            } else {
                assert(s.filter(keep)[i] == s.last());
                assert(s[s.len() - 1] == s.last());
            }
        }
    }
}

/// Filters that agree on every element keep the same ones.
pub proof fn lemma_filter_agree<A>(s: Seq<A>, a: spec_fn(A) -> bool, b: spec_fn(A) -> bool)
    requires
        forall|i: int| 0 <= i < s.len() ==> a(#[trigger] s[i]) == b(s[i]),
    ensures
        s.filter(a) == s.filter(b),
    decreases s.len(),
{
    reveal(Seq::filter);
    if s.len() > 0 {
        let rest = s.drop_last();
        assert forall|i: int| 0 <= i < rest.len() implies a(#[trigger] rest[i]) == b(rest[i]) by {
            assert(rest[i] == s[i]);
        }
        lemma_filter_agree(rest, a, b);
        assert(a(s[s.len() - 1]) == b(s[s.len() - 1]));
    }
}

/// A filter keeps every element it accepts.
pub proof fn lemma_filter_holds<A>(s: Seq<A>, keep: spec_fn(A) -> bool, at: int)
    requires
        0 <= at < s.len(),
        keep(s[at]),
    ensures
        s.filter(keep).contains(s[at]),
    decreases s.len(),
{
    reveal(Seq::filter);
    let rest = s.drop_last();
    if at < s.len() - 1 {
        lemma_filter_holds(rest, keep, at);
        let j = choose|j: int| 0 <= j < rest.filter(keep).len() && rest.filter(keep)[j] == rest[at];
        assert(s.filter(keep)[j] == s[at]);
    } else {
        assert(s.filter(keep)[s.filter(keep).len() - 1] == s[at]);
    }
}

/// Filtering keeps what was in order in order.
pub proof fn lemma_filter_in_order<T: Ranked>(s: Seq<T>, keep: spec_fn(T) -> bool)
    requires
        in_order(s),
    ensures
        in_order(s.filter(keep)),
    decreases s.len(),
{
    reveal(Seq::filter);
    if s.len() > 0 {
        let rest = s.drop_last();
        lemma_filter_in_order(rest, keep);
        lemma_filter_from(rest, keep);
        let f = s.filter(keep);
        let g = rest.filter(keep);
        assert forall|i: int, j: int| 0 <= i < j < f.len() implies (#[trigger] f[i]).le(#[trigger] f[j]) by {
            if j < g.len() {
                assert(f[i] == g[i] && f[j] == g[j]);
            } else {
                assert(f[i] == g[i]);
                let k = choose|k: int| 0 <= k < rest.len() && rest[k] == g[i];
                assert(s[k].le(s[s.len() - 1]));
            }
        }
    }
}

/// Filtering keeps distinct keys distinct.
pub proof fn lemma_filter_distinct<T, K>(s: Seq<T>, keep: spec_fn(T) -> bool, key: spec_fn(T) -> K)
    requires
        keys_distinct(s, key),
    ensures
        keys_distinct(s.filter(keep), key),
    decreases s.len(),
{
    reveal(Seq::filter);
    if s.len() > 0 {
        let rest = s.drop_last();
        assert forall|i: int, j: int| 0 <= i < j < rest.len() implies key(#[trigger] rest[i]) != key(#[trigger] rest[j]) by {
            assert(key(s[i]) != key(s[j]));
        }
        lemma_filter_distinct(rest, keep, key);
        lemma_filter_from(rest, keep);
        let f = s.filter(keep);
        let g = rest.filter(keep);
        assert forall|i: int, j: int| 0 <= i < j < f.len() implies key(#[trigger] f[i]) != key(#[trigger] f[j]) by {
            if j < g.len() {
                assert(f[i] == g[i] && f[j] == g[j]);
            } else {
                assert(f[i] == g[i]);
                let k = choose|k: int| 0 <= k < rest.len() && rest[k] == g[i];
                assert(key(s[k]) != key(s[s.len() - 1]));
            }
        }
    }
}

// ---- firsts ----

/// Where `wanted` first holds in `s`.
pub open spec fn first_where<A>(s: Seq<A>, wanted: spec_fn(A) -> bool) -> Option<int>
    decreases s.len(),
{
    if s.len() == 0 {
        None
    } else {
        match first_where(s.drop_last(), wanted) {
            Some(at) => Some(at),
            None => if wanted(s.last()) {
                Some(s.len() - 1)
            } else {
                None
            },
        }
    }
}

/// [`first_where`] is the one place `wanted` holds at with none before it.
pub proof fn lemma_first_where<A>(s: Seq<A>, wanted: spec_fn(A) -> bool)
    ensures
        match first_where(s, wanted) {
            Some(at) => 0 <= at < s.len() && wanted(s[at]) && forall|i: int| 0 <= i < at ==> !wanted(#[trigger] s[i]),
            None => forall|i: int| 0 <= i < s.len() ==> !wanted(#[trigger] s[i]),
        },
    decreases s.len(),
{
    if s.len() > 0 {
        let rest = s.drop_last();
        lemma_first_where(rest, wanted);
        match first_where(rest, wanted) {
            Some(at) => {
                assert forall|i: int| 0 <= i < at implies !wanted(#[trigger] s[i]) by {
                    assert(rest[i] == s[i]);
                }
            },
            None => {
                assert forall|i: int| 0 <= i < s.len() - 1 implies !wanted(#[trigger] s[i]) by {
                    assert(rest[i] == s[i]);
                }
            },
        }
    }
}

// ---- rearranged elements ----

/// Whether the order of a type goes by a key: elements that come no later than each other share
/// it, and elements that share it stand alike to every other.
pub open spec fn ranked_by<T: Ranked, K>(key: spec_fn(T) -> K) -> bool {
    &&& forall|a: T, b: T| #[trigger] a.le(b) && b.le(a) ==> key(a) == key(b)
    &&& forall|a: T, b: T, c: T| key(a) == key(b) ==> #[trigger] a.le(c) == #[trigger] b.le(c)
    &&& forall|a: T, b: T, c: T| key(a) == key(b) ==> #[trigger] c.le(a) == #[trigger] c.le(b)
}

/// A rearrangement has the keys rearranged.
proof fn lemma_keys_rearranged<T, K>(a: Seq<T>, b: Seq<T>, key: spec_fn(T) -> K)
    requires
        a.to_multiset() == b.to_multiset(),
    ensures
        a.map_values(key).to_multiset() == b.map_values(key).to_multiset(),
    decreases a.len(),
{
    a.to_multiset_ensures();
    b.to_multiset_ensures();
    let (ka, kb) = (a.map_values(key), b.map_values(key));
    if a.len() == 0 {
        assert(ka =~= kb);
    } else {
        let end = a.len() - 1;
        let x = a[end];
        assert(a.contains(x));
        assert(b.to_multiset().count(x) > 0);
        let k = choose|k: int| 0 <= k < b.len() && b[k] == x;
        lemma_keys_rearranged(a.remove(end), b.remove(k), key);
        ka.to_multiset_ensures();
        kb.to_multiset_ensures();
        assert(ka.remove(end) =~= a.remove(end).map_values(key));
        assert(kb.remove(k) =~= b.remove(k).map_values(key));
        assert(ka.contains(ka[end]) && kb.contains(kb[k]));
        assert(ka.to_multiset() =~= ka.to_multiset().remove(key(x)).insert(key(x)));
        assert(kb.to_multiset() =~= kb.to_multiset().remove(key(x)).insert(key(x)));
    }
}

/// Two runs of elements in order with the same keys have them in the same order.
proof fn lemma_in_order_keys<T: Ranked, K>(s: Seq<T>, t: Seq<T>, key: spec_fn(T) -> K)
    requires
        in_order(s),
        in_order(t),
        s.map_values(key).to_multiset() == t.map_values(key).to_multiset(),
        ranked_by(key),
    ensures
        s.map_values(key) == t.map_values(key),
    decreases s.len(),
{
    let (ks, kt) = (s.map_values(key), t.map_values(key));
    ks.to_multiset_ensures();
    kt.to_multiset_ensures();
    if s.len() == 0 {
        assert(ks =~= kt);
    } else {
        let (x, y) = (s[0], t[0]);
        assert(ks.contains(ks[0]) && kt.contains(kt[0]));
        assert(kt.to_multiset().count(key(x)) > 0);
        assert(ks.to_multiset().count(key(y)) > 0);
        let k = choose|k: int| 0 <= k < kt.len() && kt[k] == key(x);
        let m = choose|m: int| 0 <= m < ks.len() && ks[m] == key(y);
        T::total(x, x);
        T::total(y, y);
        assert(y.le(t[k]));
        assert(y.le(x));
        assert(x.le(s[m]));
        assert(x.le(y));
        assert(ks.remove(0) =~= s.drop_first().map_values(key));
        assert(kt.remove(0) =~= t.drop_first().map_values(key));
        assert forall|i: int, j: int| 0 <= i < j < s.drop_first().len() implies (#[trigger] s.drop_first()[i]).le(
            #[trigger] s.drop_first()[j],
        ) by {
            assert(s[i + 1].le(s[j + 1]));
        }
        assert forall|i: int, j: int| 0 <= i < j < t.drop_first().len() implies (#[trigger] t.drop_first()[i]).le(
            #[trigger] t.drop_first()[j],
        ) by {
            assert(t[i + 1].le(t[j + 1]));
        }
        lemma_in_order_keys(s.drop_first(), t.drop_first(), key);
        assert(ks =~= seq![key(x)] + ks.remove(0));
        assert(kt =~= seq![key(y)] + kt.remove(0));
    }
}

/// The order elements came in does not show once they are sorted: a rearrangement is sorted into
/// the same keys, and where no two share a key into the same elements.
pub proof fn law_sorting_forgets_the_order<T: Ranked, K>(a: Seq<T>, b: Seq<T>, key: spec_fn(T) -> K)
    requires
        a.to_multiset() == b.to_multiset(),
        ranked_by(key),
    ensures
        sorted(a).map_values(key) == sorted(b).map_values(key),
        keys_distinct(a, key) ==> sorted(a) == sorted(b),
{
    let (s, t) = (sorted(a), sorted(b));
    lemma_sorted(a);
    lemma_sorted(b);
    lemma_keys_rearranged(s, t, key);
    lemma_in_order_keys(s, t, key);
    if keys_distinct(a, key) {
        lemma_sorted_distinct(a, key);
        assert(s.map_values(key).len() == t.map_values(key).len());
        s.to_multiset_ensures();
        t.to_multiset_ensures();
        assert forall|i: int| 0 <= i < s.len() implies s[i] == t[i] by {
            assert(s.map_values(key)[i] == t.map_values(key)[i]);
            assert(t.contains(t[i]));
            assert(s.to_multiset().count(t[i]) > 0);
            let j = choose|j: int| 0 <= j < s.len() && s[j] == t[i];
            if j < i {
                assert(key(s[j]) != key(s[i]));
            } else if i < j {
                assert(key(s[i]) != key(s[j]));
            }
        }
        assert(s =~= t);
    }
}

// ---- laws ----

/// Texts stand by their first difference: one comes no later than another exactly where it opens the
/// other, or has the smaller character where they first differ.
pub proof fn law_texts_stand_by_their_first_difference(a: Seq<char>, b: Seq<char>)
    ensures
        text_le(a, b) <==> (a.len() <= b.len() && a == b.take(a.len() as int)) || exists|i: int|
            0 <= i < a.len() && i < b.len() && a.take(i) == b.take(i) && (#[trigger] a[i]) < b[i],
    decreases a.len(),
{
    if a.len() == 0 {
        assert(b.take(0) =~= a);
    } else if b.len() > 0 {
        let (x, y) = (a.drop_first(), b.drop_first());
        law_texts_stand_by_their_first_difference(x, y);
        if a[0] == b[0] {
            if x.len() <= y.len() && x == y.take(x.len() as int) {
                assert(a =~= b.take(a.len() as int)) by {
                    assert forall|i: int| 0 <= i < a.len() implies a[i] == b[i] by {
                        if i > 0 {
                            assert(x[i - 1] == y.take(x.len() as int)[i - 1]);
                        }
                    }
                }
            }
            if a.len() <= b.len() && a == b.take(a.len() as int) {
                assert(x =~= y.take(x.len() as int)) by {
                    assert forall|i: int| 0 <= i < x.len() implies x[i] == y[i] by {
                        assert(a[i + 1] == b.take(a.len() as int)[i + 1]);
                    }
                }
            }
            if exists|i: int| 0 <= i < x.len() && i < y.len() && x.take(i) == y.take(i) && (#[trigger] x[i]) < y[i] {
                let i = choose|i: int| 0 <= i < x.len() && i < y.len() && x.take(i) == y.take(i) && (#[trigger] x[i]) < y[i];
                assert(a.take(i + 1) =~= b.take(i + 1)) by {
                    assert forall|j: int| 0 <= j < i + 1 implies a[j] == b[j] by {
                        if j > 0 {
                            assert(x.take(i)[j - 1] == y.take(i)[j - 1]);
                        }
                    }
                }
                assert(a[i + 1] < b[i + 1]);
            }
            if exists|i: int| 0 <= i < a.len() && i < b.len() && a.take(i) == b.take(i) && (#[trigger] a[i]) < b[i] {
                let i = choose|i: int| 0 <= i < a.len() && i < b.len() && a.take(i) == b.take(i) && (#[trigger] a[i]) < b[i];
                assert(x.take(i - 1) =~= y.take(i - 1)) by {
                    assert forall|j: int| 0 <= j < i - 1 implies x[j] == y[j] by {
                        assert(a.take(i)[j + 1] == b.take(i)[j + 1]);
                    }
                }
                assert(x[i - 1] < y[i - 1]);
            }
        } else {
            if a.len() <= b.len() && a == b.take(a.len() as int) {
                assert(a[0] == b.take(a.len() as int)[0]);
            }
            if exists|i: int| 0 <= i < a.len() && i < b.len() && a.take(i) == b.take(i) && (#[trigger] a[i]) < b[i] {
                let i = choose|i: int| 0 <= i < a.len() && i < b.len() && a.take(i) == b.take(i) && (#[trigger] a[i]) < b[i];
                if i > 0 {
                    assert(a.take(i)[0] == b.take(i)[0]);
                }
            }
            if a[0] < b[0] {
                assert(a.take(0) =~= b.take(0));
            }
        }
    }
}

/// What stands level with an element: neither before it nor after.
pub open spec fn level_with<T: Ranked>(one: T) -> spec_fn(T) -> bool {
    |other: T| other.le(one) && one.le(other)
}

proof fn lemma_none_kept<T>(s: Seq<T>, keep: spec_fn(T) -> bool)
    requires
        forall|i: int| 0 <= i < s.len() ==> !keep(#[trigger] s[i]),
    ensures
        s.filter(keep) == Seq::<T>::empty(),
    decreases s.len(),
{
    reveal(Seq::filter);
    if s.len() > 0 {
        assert(!keep(s[s.len() - 1]));
        assert forall|i: int| 0 <= i < s.drop_last().len() implies !keep(#[trigger] s.drop_last()[i]) by {
            assert(s.drop_last()[i] == s[i]);
        }
        lemma_none_kept(s.drop_last(), keep);
    }
}

proof fn lemma_placed_level<T: Ranked>(s: Seq<T>, x: T, one: T)
    ensures
        placed(s, x).filter(level_with(one)) == (if level_with(one)(x) {
            seq![x] + s.filter(level_with(one))
        } else {
            s.filter(level_with(one))
        }),
{
    let keep = level_with(one);
    let at = lemma_place(s, x);
    lemma_placed_at(s, x, at);
    let (low, high) = (s.take(at), s.skip(at));
    assert(s =~= low + high);
    assert(s.insert(at, x) =~= low + (seq![x] + high));
    Seq::filter_distributes_over_add(low, high, keep);
    Seq::filter_distributes_over_add(low, seq![x] + high, keep);
    Seq::filter_distributes_over_add(seq![x], high, keep);
    let own = seq![x].filter(keep);
    assert(own =~= if keep(x) { seq![x] } else { Seq::empty() }) by {
        reveal(Seq::filter);
        assert(seq![x].drop_last() =~= Seq::empty());
        assert(seq![x].last() == x);
        assert(seq![x].drop_last().filter(keep) =~= Seq::empty());
    }
    if keep(x) {
        assert forall|i: int| 0 <= i < low.len() implies !keep(#[trigger] low[i]) by {
            assert(!x.le(s[i]));
            if keep(low[i]) {
                T::transitive(x, one, s[i]);
            }
        }
        lemma_none_kept(low, keep);
        assert(low.filter(keep) + (seq![x] + high.filter(keep)) =~= seq![x] + (low.filter(keep) + high.filter(keep)));
    } else {
        assert(low.filter(keep) + (own + high.filter(keep)) =~= low.filter(keep) + high.filter(keep));
    }
}

/// Sorting is stable: elements that stand level keep the order they came in.
pub proof fn law_sorting_keeps_the_order_of_equals<T: Ranked>(s: Seq<T>, one: T)
    ensures
        sorted(s).filter(level_with(one)) == s.filter(level_with(one)),
    decreases s.len(),
{
    if s.len() > 0 {
        let keep = level_with(one);
        let rest = s.drop_first();
        law_sorting_keeps_the_order_of_equals(rest, one);
        lemma_placed_level(sorted(rest), s[0], one);
        assert(s =~= seq![s[0]] + rest);
        Seq::filter_distributes_over_add(seq![s[0]], rest, keep);
        assert(seq![s[0]].filter(keep) =~= if keep(s[0]) { seq![s[0]] } else { Seq::empty() }) by {
            reveal(Seq::filter);
            assert(seq![s[0]].drop_last() =~= Seq::empty());
            assert(seq![s[0]].last() == s[0]);
            assert(seq![s[0]].drop_last().filter(keep) =~= Seq::empty());
        }
        assert(Seq::empty() + rest.filter(keep) =~= rest.filter(keep));
    }
}

// ---- copies ----

/// The same items again.
pub fn items_copied<T: Copy>(items: &Vec<T>) -> (r: Vec<T>)
    ensures
        r@ == items@,
{
    let mut out: Vec<T> = Vec::new();
    let mut i: usize = 0;
    while i < items.len()
        invariant
            i <= items@.len(),
            out@ == items@.take(i as int),
        decreases items@.len() - i,
    {
        out.push(items[i]);
        i += 1;
        assert(items@.take(i as int) =~= items@.take(i - 1).push(items@[i - 1]));
    }
    assert(items@.take(i as int) =~= items@);
    out
}

} // verus!
