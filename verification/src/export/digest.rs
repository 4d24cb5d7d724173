//! The digest a finished file is checked in with.

use vstd::prelude::*;

verus! {

// ---- hexadecimal ----

pub open spec fn hex_char(n: int) -> char {
    if n < 10 {
        (48 + n) as u32 as char
    } else {
        (87 + n) as u32 as char
    }
}

/// Bytes in lower-case hexadecimal, two characters each.
pub open spec fn hex(bytes: Seq<u8>) -> Seq<char> {
    Seq::new(
        2 * bytes.len(),
        |i: int| hex_char(if i % 2 == 0 { bytes[i / 2] as int / 16 } else { bytes[i / 2] as int % 16 }),
    )
}

pub open spec fn is_hex(c: char) -> bool {
    '0' <= c <= '9' || 'a' <= c <= 'f' || 'A' <= c <= 'F'
}

pub open spec fn hex_value(c: char) -> int {
    if '0' <= c <= '9' {
        c as int - 48
    } else if 'a' <= c <= 'f' {
        c as int - 87
    } else {
        c as int - 55
    }
}

/// Whether a text spells thirty-two bytes in hexadecimal, in either case.
pub open spec fn spells_digest(text: Seq<char>) -> bool {
    text.len() == 64 && forall|i: int| 0 <= i < 64 ==> is_hex(#[trigger] text[i])
}

/// The bytes a hexadecimal text spells.
pub open spec fn unhex(text: Seq<char>) -> Seq<u8> {
    Seq::new(text.len() / 2, |i: int| (16 * hex_value(text[2 * i]) + hex_value(text[2 * i + 1])) as u8)
}

// ---- blake3 ----

/// The blake3 hash of a run of bytes.
pub uninterp spec fn blake3_of(data: Seq<u8>) -> Seq<u8>;

#[verifier::external_type_specification]
#[verifier::external_body]
pub struct ExHasher(blake3::Hasher);

/// The bytes a hasher has taken in.
pub uninterp spec fn taken_in(hasher: blake3::Hasher) -> Seq<u8>;

/// Whether a hasher computes the plain hash from the first byte: no key, no offset.
pub uninterp spec fn is_plain(hasher: blake3::Hasher) -> bool;

/// `blake3::Hasher::new`: a plain hasher that has taken in nothing.
#[verifier::external_body]
fn fresh_hasher() -> (r: blake3::Hasher)
    ensures
        is_plain(r),
        taken_in(r) == Seq::<u8>::empty(),
{
    blake3::Hasher::new()
}

/// `blake3::Hasher::update`: takes in more bytes behind the ones it has.
#[verifier::external_body]
fn take_in(hasher: &mut blake3::Hasher, data: &[u8])
    requires
        is_plain(*old(hasher)),
    ensures
        is_plain(*final(hasher)),
        taken_in(*final(hasher)) == taken_in(*old(hasher)) + data@,
{
    hasher.update(data);
}

/// `blake3::Hasher::finalize`: the hash of everything taken in, thirty-two bytes whatever that is.
#[verifier::external_body]
fn hash_of(hasher: &blake3::Hasher) -> (r: [u8; 32])
    requires
        is_plain(*hasher),
    ensures
        r@ == blake3_of(taken_in(*hasher)),
{
    *hasher.finalize().as_bytes()
}

/// `blake3::Hash::to_hex`: the hash in lower-case hexadecimal.
#[verifier::external_body]
fn to_hex_text(bytes: [u8; 32]) -> (r: String)
    ensures
        r@ == hex(bytes@),
{
    blake3::Hash::from_bytes(bytes).to_hex().to_string()
}

/// `blake3::Hash::from_hex`: the hash sixty-four hexadecimal characters spell, in either case, and
/// nothing for any other text.
#[verifier::external_body]
fn from_hex_text(text: &str) -> (r: Option<[u8; 32]>)
    ensures
        match r {
            Some(bytes) => spells_digest(text@) && bytes@ == unhex(text@),
            None => !spells_digest(text@),
        },
{
    blake3::Hash::from_hex(text).ok().map(|hash| *hash.as_bytes())
}

// ---- checksums ----

/// The blake3 digest of a finished file.
#[derive(Debug, Clone, Copy, PartialEq, Eq)]
pub struct Checksum {
    pub bytes: [u8; 32],
}

impl View for Checksum {
    type V = Seq<u8>;

    open spec fn view(&self) -> Seq<u8> {
        self.bytes@
    }
}

impl Checksum {
    /// The digest in lower-case hexadecimal.
    #[must_use]
    pub fn to_hex(self) -> (r: String)
        ensures
            r@ == hex(self@),
    {
        to_hex_text(self.bytes)
    }

    /// The digest a text spells; nothing for anything but sixty-four hexadecimal characters.
    #[must_use]
    pub fn from_hex(text: &str) -> (r: Option<Self>)
        ensures
            match r {
                Some(checksum) => spells_digest(text@) && checksum@ == unhex(text@),
                None => !spells_digest(text@),
            },
    {
        match from_hex_text(text) {
            Some(bytes) => Some(Checksum { bytes }),
            None => None,
        }
    }

    pub fn same_as(&self, other: &Self) -> (r: bool)
        ensures
            r == (self@ == other@),
    {
        let mut i: usize = 0;
        while i < 32
            invariant
                i <= 32,
                forall|j: int| 0 <= j < i ==> self.bytes@[j] == other.bytes@[j],
            decreases 32 - i,
        {
            if self.bytes[i] != other.bytes[i] {
                return false;
            }
            i += 1;
        }
        assert(self.bytes@ =~= other.bytes@);
        true
    }
}

/// A digest survives being written out and read back.
pub proof fn law_hex_round_trip(bytes: Seq<u8>)
    requires
        bytes.len() == 32,
    ensures
        spells_digest(hex(bytes)),
        unhex(hex(bytes)) == bytes,
{
    let text = hex(bytes);
    assert forall|i: int| 0 <= i < 64 implies is_hex(#[trigger] text[i]) by {
        assert(0 <= bytes[i / 2] as int / 16 < 16);
    }
    assert forall|i: int| 0 <= i < 32 implies unhex(text)[i] == bytes[i] by {
        assert((2 * i) % 2 == 0 && (2 * i) / 2 == i);
        assert((2 * i + 1) % 2 == 1 && (2 * i + 1) / 2 == i);
        let b = bytes[i] as int;
        assert(hex_value(hex_char(b / 16)) == b / 16);
        assert(hex_value(hex_char(b % 16)) == b % 16);
    }
    assert(unhex(text) =~= bytes);
}

/// A file hashed piece by piece, its length counted with it so the two cannot be told apart later.
pub struct Digester {
    hasher: blake3::Hasher,
    count: u64,
}

impl Digester {
    pub closed spec fn wf(self) -> bool {
        is_plain(self.hasher)
    }

    /// The bytes hashed so far.
    pub closed spec fn data(self) -> Seq<u8> {
        taken_in(self.hasher)
    }

    /// The length counted so far: what was hashed, for as long as a count holds it.
    pub closed spec fn counted(self) -> int {
        self.count as int
    }

    pub fn new() -> (r: Self)
        ensures
            r.wf(),
            r.data() == Seq::<u8>::empty(),
            r.counted() == 0,
    {
        Digester { hasher: fresh_hasher(), count: 0 }
    }

    /// Hashes the next piece. Gives false, and hashes nothing, where the length would outgrow its
    /// count.
    pub fn add_piece(&mut self, piece: &[u8]) -> (r: bool)
        requires
            old(self).wf(),
        ensures
            final(self).wf(),
            r == (old(self).counted() + piece@.len() <= u64::MAX),
            r ==> final(self).data() == old(self).data() + piece@ && final(self).counted() == old(self).counted() + piece@.len(),
            !r ==> *final(self) == *old(self),
    {
        let more: u64 = piece.len() as u64;
        if more > u64::MAX - self.count {
            return false;
        }
        take_in(&mut self.hasher, piece);
        self.count = self.count + more;
        true
    }

    /// The digest of everything hashed, and its length.
    pub fn finish(&self) -> (r: (Checksum, u64))
        requires
            self.wf(),
        ensures
            r.0@ == blake3_of(self.data()),
            r.1 == self.counted(),
    {
        (Checksum { bytes: hash_of(&self.hasher) }, self.count)
    }
}

/// A byte is spelled by its higher half and then its lower, each a digit or a letter from a to f.
pub proof fn law_a_byte_is_spelled_higher_half_first(bytes: Seq<u8>, at: int)
    requires
        0 <= at < bytes.len(),
    ensures
        hex(bytes).len() == 2 * bytes.len(),
        16 * hex_value(hex(bytes)[2 * at]) + hex_value(hex(bytes)[2 * at + 1]) == bytes[at],
        '0' <= hex(bytes)[2 * at] <= '9' || 'a' <= hex(bytes)[2 * at] <= 'f',
        '0' <= hex(bytes)[2 * at + 1] <= '9' || 'a' <= hex(bytes)[2 * at + 1] <= 'f',
        hex_value(hex(bytes)[2 * at]) == bytes[at] / 16,
{
    assert((2 * at) % 2 == 0 && (2 * at) / 2 == at);
    assert((2 * at + 1) % 2 == 1 && (2 * at + 1) / 2 == at);
}

} // verus!
