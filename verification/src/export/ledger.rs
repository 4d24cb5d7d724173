//! Names handed out once.
//!
//! A name is told apart by its folded spelling. A name already out is counted up until one is
//! free: `friend`, `friend_2`, `friend_3`.

use vstd::hash_map::StringHashMap;
use vstd::hash_set::StringHashSet;
use vstd::prelude::*;

use crate::text::{decimal, decimal_text, fold, is_digit, join2, lemma_decimal_digits, lemma_decimal_injective, lower};

verus! {

/// The suffix the name at an ordinal carries: none at zero, else the count it stands for.
pub open spec fn ordinal_suffix(ordinal: nat) -> Seq<char> {
    if ordinal == 0 {
        seq![]
    } else {
        "_"@ + decimal(ordinal + 1)
    }
}

/// The key of the name at an ordinal, between what comes before its count and after it.
pub open spec fn key_at(stem: Seq<char>, tail: Seq<char>, ordinal: nat) -> Seq<char> {
    stem + ordinal_suffix(ordinal) + tail
}

/// [`ordinal_suffix`], as text.
pub fn suffix_text(ordinal: u128) -> (r: String)
    requires
        ordinal < u128::MAX,
    ensures
        r@ == ordinal_suffix(ordinal as nat),
{
    if ordinal == 0 {
        let r = String::new();
        assert(r@ =~= seq![]);
        r
    } else {
        join2("_", &decimal_text(ordinal + 1))
    }
}

/// A count is spelled the same folded.
pub proof fn lemma_suffix_folded(ordinal: nat)
    ensures
        fold(ordinal_suffix(ordinal)) == ordinal_suffix(ordinal),
{
    reveal_strlit("_");
    lemma_decimal_digits(ordinal + 1);
    let s = ordinal_suffix(ordinal);
    assert forall|i: int| 0 <= i < s.len() implies lower(s[i]) == s[i] by {
        if i > 0 {
            assert(s[i] == decimal(ordinal + 1)[i - 1]);
            assert(is_digit(decimal(ordinal + 1)[i - 1]));
        }
    }
    assert(fold(s) =~= s);
}

/// Folding two texts end to end folds each.
pub proof fn lemma_fold_concat(a: Seq<char>, b: Seq<char>)
    ensures
        fold(a + b) == fold(a) + fold(b),
{
    assert(fold(a + b) =~= fold(a) + fold(b));
}

/// Two ordinals give two keys.
pub proof fn lemma_keys_differ(stem: Seq<char>, tail: Seq<char>, i: nat, j: nat)
    requires
        i != j,
    ensures
        key_at(stem, tail, i) != key_at(stem, tail, j),
{
    reveal_strlit("_");
    let (a, b) = (ordinal_suffix(i), ordinal_suffix(j));
    if key_at(stem, tail, i) == key_at(stem, tail, j) {
        let whole = key_at(stem, tail, i);
        assert(whole.len() == stem.len() + a.len() + tail.len());
        assert(key_at(stem, tail, j).len() == stem.len() + b.len() + tail.len());
        assert(a =~= whole.subrange(stem.len() as int, (stem.len() + a.len()) as int));
        assert(b =~= whole.subrange(stem.len() as int, (stem.len() + a.len()) as int));
        lemma_decimal_digits(i + 1);
        lemma_decimal_digits(j + 1);
        assert(i != 0 && j != 0);
        assert(decimal(i + 1) =~= a.skip(1));
        assert(decimal(j + 1) =~= b.skip(1));
        lemma_decimal_injective(i + 1, j + 1);
    }
}

pub open spec fn keys_below(stem: Seq<char>, tail: Seq<char>, bound: nat) -> Set<Seq<char>>
    decreases bound,
{
    if bound == 0 {
        Set::empty()
    } else {
        keys_below(stem, tail, (bound - 1) as nat).insert(key_at(stem, tail, (bound - 1) as nat))
    }
}

proof fn lemma_keys_below(stem: Seq<char>, tail: Seq<char>, bound: nat)
    ensures
        keys_below(stem, tail, bound).finite(),
        keys_below(stem, tail, bound).len() == bound,
        forall|key: Seq<char>| keys_below(stem, tail, bound).contains(key) ==> exists|j: nat| j < bound && key == #[trigger] key_at(stem, tail, j),
    decreases bound,
{
    if bound > 0 {
        let less = (bound - 1) as nat;
        lemma_keys_below(stem, tail, less);
        let key = key_at(stem, tail, less);
        if keys_below(stem, tail, less).contains(key) {
            let j = choose|j: nat| j < less && key == #[trigger] key_at(stem, tail, j);
            lemma_keys_differ(stem, tail, j, less);
        }
    }
}

/// As many keys as are out, and no more, can be passed over.
proof fn lemma_room(used: Set<Seq<char>>, stem: Seq<char>, tail: Seq<char>, bound: nat)
    requires
        used.finite(),
        forall|j: nat| j < bound ==> used.contains(#[trigger] key_at(stem, tail, j)),
    ensures
        bound <= used.len(),
{
    lemma_keys_below(stem, tail, bound);
    let out = keys_below(stem, tail, bound);
    assert(out.subset_of(used)) by {
        assert forall|key: Seq<char>| out.contains(key) implies used.contains(key) by {
            let j = choose|j: nat| j < bound && key == #[trigger] key_at(stem, tail, j);
        }
    }
    vstd::set_lib::lemma_len_subset(out, used);
}

/// Where the count of one name stands: every ordinal below is out.
struct Count {
    stem: String,
    tail: String,
    ordinal: u128,
}

/// The keys that are out.
pub struct Ledger {
    used: StringHashSet,
    next: StringHashMap<Count>,
}

impl View for Ledger {
    type V = Set<Seq<char>>;

    closed spec fn view(&self) -> Set<Seq<char>> {
        self.used@
    }
}

/// Whether `ordinal` is the first whose key is not out.
pub open spec fn first_free(used: Set<Seq<char>>, stem: Seq<char>, tail: Seq<char>, ordinal: nat) -> bool {
    &&& !used.contains(key_at(stem, tail, ordinal))
    &&& forall|j: nat| j < ordinal ==> used.contains(#[trigger] key_at(stem, tail, j))
}

/// Some ordinal is free.
pub proof fn lemma_some_free(used: Set<Seq<char>>, stem: Seq<char>, tail: Seq<char>, bound: nat) -> (ordinal: nat)
    requires
        used.finite(),
        forall|j: nat| j < bound ==> used.contains(#[trigger] key_at(stem, tail, j)),
    ensures
        first_free(used, stem, tail, ordinal),
    decreases used.len() + 1 - bound,
{
    if used.contains(key_at(stem, tail, bound)) {
        assert forall|j: nat| j < bound + 1 implies used.contains(#[trigger] key_at(stem, tail, j)) by {}
        lemma_room(used, stem, tail, bound + 1);
        lemma_some_free(used, stem, tail, bound + 1)
    } else {
        bound
    }
}

/// At most one ordinal is the first free one.
pub proof fn lemma_first_free_unique(used: Set<Seq<char>>, stem: Seq<char>, tail: Seq<char>, i: nat, j: nat)
    requires
        first_free(used, stem, tail, i),
        first_free(used, stem, tail, j),
    ensures
        i == j,
{
    if i < j {
        assert(used.contains(key_at(stem, tail, i)));
    } else if j < i {
        assert(used.contains(key_at(stem, tail, j)));
    }
}

impl Ledger {
    pub closed spec fn wf(self) -> bool {
        &&& self.used@.finite()
        &&& forall|key: Seq<char>, j: nat|
            #![trigger self.next@.contains_key(key), key_at(self.next@[key].stem@, self.next@[key].tail@, j)]
            self.next@.contains_key(key) && j < self.next@[key].ordinal ==> self.used@.contains(
                key_at(self.next@[key].stem@, self.next@[key].tail@, j),
            )
    }

    pub fn new() -> (r: Self)
        ensures
            r.wf(),
            r@ == Set::<Seq<char>>::empty(),
    {
        Ledger { used: StringHashSet::new(), next: StringHashMap::new() }
    }

    /// Whether a key is out.
    pub fn holds(&self, key: &str) -> (r: bool)
        ensures
            r == self@.contains(key@),
    {
        self.used.contains(key)
    }

    /// Hands a key out, unless it already is.
    pub fn claim(&mut self, key: String) -> (fresh: bool)
        requires
            old(self).wf(),
        ensures
            final(self).wf(),
            final(self)@ == old(self)@.insert(key@),
            fresh == !old(self)@.contains(key@),
    {
        self.used.insert(key)
    }

    /// Hands out the first key of `stem` and `tail` that is free, and gives its ordinal.
    pub fn issue(&mut self, stem: &str, tail: &str) -> (ordinal: u128)
        requires
            old(self).wf(),
        ensures
            final(self).wf(),
            first_free(old(self)@, stem@, tail@, ordinal as nat),
            final(self)@ == old(self)@.insert(key_at(stem@, tail@, ordinal as nat)),
            ordinal < u128::MAX,
    {
        let base = join2(stem, tail);
        let out: usize = self.used.len();
        let mut ordinal: u128 = match self.next.get(&base) {
            Some(count) => {
                if crate::text::same(&count.stem, stem) && crate::text::same(&count.tail, tail) {
                    count.ordinal
                } else {
                    0
                }
            },
            None => 0,
        };
        proof {
            assert forall|j: nat| j < ordinal implies self.used@.contains(#[trigger] key_at(stem@, tail@, j)) by {
                assert(self.next@.contains_key(base@));
                assert(key_at(self.next@[base@].stem@, self.next@[base@].tail@, j) == key_at(stem@, tail@, j));
            }
            lemma_room(self.used@, stem@, tail@, ordinal as nat);
        }
        loop
            invariant
                self.wf(),
                self.used@ == old(self).used@,
                self.used@.len() == out,
                ordinal <= out,
                forall|j: nat| j < ordinal ==> self.used@.contains(#[trigger] key_at(stem@, tail@, j)),
            ensures
                self.wf(),
                self.used@ == old(self).used@,
                first_free(old(self).used@, stem@, tail@, ordinal as nat),
                ordinal <= out,
            decreases out - ordinal,
        {
            let key = crate::text::join3(stem, &suffix_text(ordinal), tail);
            if !self.used.contains(&key) {
                break;
            }
            proof {
                assert forall|j: nat| j < ordinal + 1 implies self.used@.contains(#[trigger] key_at(stem@, tail@, j)) by {
                    if j == ordinal {
                        assert(key@ == key_at(stem@, tail@, j));
                    }
                }
                lemma_room(self.used@, stem@, tail@, (ordinal + 1) as nat);
            }
            ordinal += 1;
        }
        let key = crate::text::join3(stem, &suffix_text(ordinal), tail);
        self.used.insert(key);
        let ghost before = self.next@;
        self.next.insert(base, Count { stem: stem.to_owned(), tail: tail.to_owned(), ordinal: ordinal + 1 });
        proof {
            assert forall|key: Seq<char>, j: nat|
                #![trigger self.next@.contains_key(key), key_at(self.next@[key].stem@, self.next@[key].tail@, j)]
                self.next@.contains_key(key) && j < self.next@[key].ordinal implies self.used@.contains(
                key_at(self.next@[key].stem@, self.next@[key].tail@, j),
            ) by {
                if key != base@ {
                    assert(before.contains_key(key));
                    assert(old(self).next@.contains_key(key));
                    assert(old(self).used@.contains(key_at(before[key].stem@, before[key].tail@, j)));
                }
            }
        }
        ordinal
    }
}

} // verus!
