//! The Exif block of a JPEG: where it stands among the segments, whether its directories hang
//! together, and what is read from and written to it.

use little_exif::exif_tag::ExifTag;
use vstd::prelude::*;

use crate::export::exif::{exif_header, opens_exif, stated_length, text_size, BytesTag, LongTag, Ratio, RatioTag, ShortTag, TagView, TextTag};

verus! {

// ---- segments ----

/// The first prefix byte from `at` on; the end where there is none.
pub open spec fn prefix_from(bytes: Seq<u8>, at: int) -> int
    decreases bytes.len() - at,
{
    if at < 0 || at >= bytes.len() {
        bytes.len() as int
    } else if bytes[at] == 0xff {
        at
    } else {
        prefix_from(bytes, at + 1)
    }
}

/// A byte that stands behind a prefix inside a scan.
pub open spec fn in_scan(byte: u8) -> bool {
    byte == 0 || 0xd0 <= byte <= 0xd7
}

/// Where a scan's data ends: at the first prefix no such byte stands behind. Nowhere where the
/// bytes end first.
pub open spec fn scan_end(bytes: Seq<u8>, at: int) -> Option<int>
    decreases bytes.len() - at,
    when 0 <= at
    via scan_end_decreases
{
    let prefix = prefix_from(bytes, at);
    if prefix + 1 >= bytes.len() {
        None
    } else if in_scan(bytes[prefix + 1]) {
        scan_end(bytes, prefix + 2)
    } else {
        Some(prefix)
    }
}

#[via_fn]
proof fn scan_end_decreases(bytes: Seq<u8>, at: int) {
    lemma_prefix_from(bytes, at);
}

proof fn lemma_prefix_from(bytes: Seq<u8>, at: int)
    requires
        0 <= at,
    ensures
        at < bytes.len() ==> at <= prefix_from(bytes, at) <= bytes.len(),
        at >= bytes.len() ==> prefix_from(bytes, at) == bytes.len(),
    decreases bytes.len() - at,
{
    if at < bytes.len() && bytes[at] != 0xff {
        lemma_prefix_from(bytes, at + 1);
    }
}

proof fn lemma_scan_end(bytes: Seq<u8>, at: int)
    requires
        0 <= at,
    ensures
        scan_end(bytes, at) matches Some(end) ==> at <= end && end + 1 < bytes.len(),
    decreases bytes.len() - at,
{
    lemma_prefix_from(bytes, at);
    let prefix = prefix_from(bytes, at);
    if prefix + 1 < bytes.len() && in_scan(bytes[prefix + 1]) {
        lemma_scan_end(bytes, prefix + 2);
    }
}

/// What a search for segments meets next, each marker taken for one with a length behind it.
pub enum Met {
    /// The end, or the mark of it.
    End,
    /// A marker the bytes end behind.
    Cut,
    /// A segment that states less than its own length.
    Short,
    /// A segment: where its prefix stands, the length it states, and where the search goes on.
    Segment { at: int, length: int, next: int },
}

pub open spec fn no_further(place: int, bytes: Seq<u8>) -> int {
    if place < bytes.len() {
        place
    } else {
        bytes.len() as int
    }
}

pub open spec fn met(bytes: Seq<u8>, at: int) -> Met {
    let prefix = prefix_from(bytes, at);
    if prefix + 1 >= bytes.len() || bytes[prefix + 1] == 0xd9 {
        Met::End
    } else if prefix + 4 > bytes.len() {
        Met::Cut
    } else {
        let length = stated_length(bytes, prefix + 2);
        if length < 2 {
            Met::Short
        } else if bytes[prefix + 1] == 0xda {
            Met::Segment {
                at: prefix,
                length,
                next: match scan_end(bytes, no_further(prefix + 2 + length, bytes)) {
                    Some(end) => end,
                    None => bytes.len() as int,
                },
            }
        } else {
            Met::Segment { at: prefix, length, next: no_further(prefix + 2 + length, bytes) }
        }
    }
}

proof fn lemma_met(bytes: Seq<u8>, at: int)
    requires
        0 <= at,
    ensures
        met(bytes, at) matches Met::Segment { at: prefix, length, next } ==> at <= prefix && prefix + 4 <= next <= bytes.len() && 2
            <= length < 0x10000,
{
    lemma_prefix_from(bytes, at);
    let prefix = prefix_from(bytes, at);
    if prefix + 4 <= bytes.len() {
        let length = stated_length(bytes, prefix + 2);
        if length >= 2 {
            lemma_scan_end(bytes, no_further(prefix + 2 + length, bytes));
        }
    }
}

/// The content of the first segment that may hold Exif, where all of it is there.
pub open spec fn first_block(bytes: Seq<u8>, at: int) -> Option<Seq<u8>>
    decreases bytes.len() - at,
    when 0 <= at
    via first_block_decreases
{
    match met(bytes, at) {
        Met::Segment { at: prefix, length, next } => if bytes[prefix + 1] == 0xe1 {
            if prefix + 2 + length <= bytes.len() {
                Some(bytes.subrange(prefix + 4, prefix + 2 + length))
            } else {
                None
            }
        } else {
            first_block(bytes, next)
        },
        _ => None,
    }
}

#[via_fn]
proof fn first_block_decreases(bytes: Seq<u8>, at: int) {
    lemma_met(bytes, at);
}

/// Whether a search that looks into every segment that may hold Exif goes through to the end.
pub open spec fn searchable(bytes: Seq<u8>, at: int) -> bool
    decreases bytes.len() - at,
    when 0 <= at
    via searchable_decreases
{
    match met(bytes, at) {
        Met::End => true,
        Met::Segment { at: prefix, length, next } => (bytes[prefix + 1] == 0xe1 ==> prefix + 10 <= bytes.len()) && searchable(bytes, next),
        _ => false,
    }
}

#[via_fn]
proof fn searchable_decreases(bytes: Seq<u8>, at: int) {
    lemma_met(bytes, at);
}

/// The bytes from `at` on without the segments that hold Exif.
pub open spec fn cleared(bytes: Seq<u8>, at: int) -> Seq<u8>
    decreases bytes.len() - at,
    when 0 <= at <= bytes.len()
    via cleared_decreases
{
    match met(bytes, at) {
        Met::Segment { at: prefix, length, next } => if bytes[prefix + 1] == 0xe1 && opens_exif(bytes, prefix + 4) {
            bytes.subrange(at, prefix) + cleared(bytes, next)
        } else {
            bytes.subrange(at, next) + cleared(bytes, next)
        },
        _ => bytes.skip(at),
    }
}

#[via_fn]
proof fn cleared_decreases(bytes: Seq<u8>, at: int) {
    lemma_met(bytes, at);
}

fn find_prefix(bytes: &Vec<u8>, from: usize) -> (r: usize)
    ensures
        r == prefix_from(bytes@, from as int),
        from < bytes@.len() ==> from <= r,
        r <= bytes@.len(),
{
    let len: usize = bytes.len();
    if from >= len {
        return len;
    }
    let mut at: usize = from;
    while at < len
        invariant
            from <= at <= len,
            len == bytes@.len(),
            prefix_from(bytes@, at as int) == prefix_from(bytes@, from as int),
        decreases len - at,
    {
        if bytes[at] == 0xff {
            return at;
        }
        at += 1;
    }
    at
}

fn find_scan_end(bytes: &Vec<u8>, from: usize) -> (r: Option<usize>)
    ensures
        match r {
            Some(end) => scan_end(bytes@, from as int) == Some(end as int),
            None => scan_end(bytes@, from as int) is None,
        },
{
    let len: usize = bytes.len();
    let mut at: usize = from;
    loop
        invariant
            len == bytes@.len(),
            scan_end(bytes@, at as int) == scan_end(bytes@, from as int),
        decreases len - at,
    {
        let prefix: usize = find_prefix(bytes, at);
        if len - prefix < 2 {
            return None;
        }
        let byte: u8 = bytes[prefix + 1];
        if byte == 0 || (0xd0 <= byte && byte <= 0xd7) {
            at = prefix + 2;
        } else {
            return Some(prefix);
        }
    }
}

/// What a search met, in places.
enum Found {
    End,
    Cut,
    Short,
    Segment { at: usize, length: usize, next: usize },
}

fn meet(bytes: &Vec<u8>, from: usize) -> (r: Found)
    ensures
        match r {
            Found::End => met(bytes@, from as int) is End,
            Found::Cut => met(bytes@, from as int) is Cut,
            Found::Short => met(bytes@, from as int) is Short,
            Found::Segment { at, length, next } => met(bytes@, from as int) == (Met::Segment {
                at: at as int,
                length: length as int,
                next: next as int,
            }),
        },
{
    let len: usize = bytes.len();
    let prefix: usize = find_prefix(bytes, from);
    if len - prefix < 2 || bytes[prefix + 1] == 0xd9 {
        return Found::End;
    }
    if len - prefix < 4 {
        return Found::Cut;
    }
    let length: usize = bytes[prefix + 2] as usize * 256 + bytes[prefix + 3] as usize;
    if length < 2 {
        return Found::Short;
    }
    let end: usize = if length < len - prefix - 2 {
        prefix + 2 + length
    } else {
        len
    };
    if bytes[prefix + 1] == 0xda {
        let next: usize = match find_scan_end(bytes, end) {
            Some(end) => end,
            None => len,
        };
        Found::Segment { at: prefix, length, next }
    } else {
        Found::Segment { at: prefix, length, next: end }
    }
}

/// Where the content of the first segment that may hold Exif stands.
fn find_block(bytes: &Vec<u8>) -> (r: Option<(usize, usize)>)
    ensures
        match r {
            Some((from, to)) => from <= to <= bytes@.len() && to - from < 0x10000 && first_block(bytes@, 2) == Some(
                bytes@.subrange(from as int, to as int),
            ),
            None => first_block(bytes@, 2) is None,
        },
{
    let mut at: usize = 2;
    loop
        invariant
            first_block(bytes@, at as int) == first_block(bytes@, 2),
        decreases bytes@.len() - at,
    {
        proof {
            lemma_met(bytes@, at as int);
        }
        match meet(bytes, at) {
            Found::Segment { at: prefix, length, next } => {
                if bytes[prefix + 1] == 0xe1 {
                    if length <= bytes.len() - prefix - 2 {
                        return Some((prefix + 4, prefix + 2 + length));
                    }
                    return None;
                }
                at = next;
            },
            _ => {
                return None;
            },
        }
    }
}

/// Whether the segments of a file's bytes can be searched to the end.
#[must_use]
pub fn is_searchable(bytes: &Vec<u8>) -> (r: bool)
    ensures
        r == searchable(bytes@, 2),
{
    let mut at: usize = 2;
    loop
        invariant
            searchable(bytes@, at as int) == searchable(bytes@, 2),
        decreases bytes@.len() - at,
    {
        proof {
            lemma_met(bytes@, at as int);
        }
        match meet(bytes, at) {
            Found::End => {
                return true;
            },
            Found::Segment { at: prefix, length, next } => {
                if bytes[prefix + 1] == 0xe1 && bytes.len() - prefix < 10 {
                    return false;
                }
                at = next;
            },
            _ => {
                return false;
            },
        }
    }
}

// ---- directories ----

/// Which directory an entry stands in: one of the chain, or one it leads to.
#[derive(Debug, Clone, Copy, PartialEq, Eq, Structural)]
pub enum Group {
    Chain,
    Exif,
    Interop,
    Gps,
}

impl Group {
    pub open spec fn rank(self) -> nat {
        match self {
            Group::Chain => 2,
            Group::Exif => 1,
            Group::Interop => 0,
            Group::Gps => 0,
        }
    }
}

pub open spec fn short_at(block: Seq<u8>, big: bool, at: int) -> int {
    if big {
        block[at] as int * 256 + block[at + 1] as int
    } else {
        block[at + 1] as int * 256 + block[at] as int
    }
}

pub open spec fn long_at(block: Seq<u8>, big: bool, at: int) -> int {
    if big {
        short_at(block, big, at) * 0x10000 + short_at(block, big, at + 2)
    } else {
        short_at(block, big, at + 2) * 0x10000 + short_at(block, big, at)
    }
}

/// How many bytes a value of a format takes; none where there is no such format.
pub open spec fn format_size(format: int) -> int {
    if format == 1 || format == 2 || format == 6 || format == 7 {
        1
    } else if format == 3 || format == 8 {
        2
    } else if format == 4 || format == 9 || format == 11 {
        4
    } else if format == 5 || format == 10 || format == 12 {
        8
    } else {
        0
    }
}

/// The directory a tag leads to.
pub open spec fn leads_to(group: Group, tag: int) -> Option<Group> {
    match group {
        Group::Chain => if tag == 0x8769 {
            Some(Group::Exif)
        } else if tag == 0x8825 {
            Some(Group::Gps)
        } else {
            None
        },
        Group::Exif => if tag == 0xa005 {
            Some(Group::Interop)
        } else {
            None
        },
        _ => None,
    }
}

/// A tag whose ratios may be below zero.
pub open spec fn may_be_negative(tag: int) -> bool {
    tag == 0x9201 || tag == 0x9203 || tag == 0x9204 || tag == 0x9400 || tag == 0x9403 || tag == 0x9405
}

/// How many terms of a ratio's continued fraction are looked at.
pub const RATIO_TERMS: u32 = 30;

/// What the lower number of an approximation has to pass within those terms. Ten more terms, none
/// below one, take it past thirty-one bits.
pub const RATIO_REACH: u64 = 0x171_0000;

/// Whether the continued fraction of a ratio ends within some terms, or the lower numbers of its
/// approximations have grown far enough by then.
pub open spec fn settles(upper: int, lower: int, before: int, reached: int, terms: nat) -> bool
    decreases terms,
{
    let rest = upper % lower;
    rest == 0 || reached > RATIO_REACH || (terms > 0 && settles(lower, rest, reached, (lower / rest) * reached + before, (terms - 1) as nat))
}

/// Whether a ratio can be told as one that may be below zero. The approximation that does so looks
/// at forty terms at most, and has no room for the next one where it gets that far. It does not get
/// there where the terms end, nor where the approximations have grown far enough: they then outgrow
/// thirty-one bits, where it stops, before the fortieth.
pub open spec fn ratio_told(upper: int, lower: int) -> bool {
    lower == 0 || settles(upper, lower, 0, 1, RATIO_TERMS as nat)
}

/// A block and how its numbers and places are to be read: the place its places count from, and
/// whether the high byte comes first.
pub struct Layout {
    pub block: Seq<u8>,
    pub start: int,
    pub big: bool,
}

impl Layout {
    pub open spec fn tag(self, at: int) -> int {
        short_at(self.block, self.big, at)
    }

    pub open spec fn format(self, at: int) -> int {
        short_at(self.block, self.big, at + 2)
    }

    pub open spec fn count(self, at: int) -> int {
        long_at(self.block, self.big, at + 4)
    }

    /// How many bytes the values of an entry take.
    pub open spec fn size(self, at: int) -> int {
        self.count(at) * format_size(self.format(at))
    }

    /// The place an entry's last four bytes name.
    pub open spec fn place(self, at: int) -> int {
        self.start + long_at(self.block, self.big, at + 8)
    }

    /// Where the values of an entry stand: in it, or at the place it names.
    pub open spec fn values(self, at: int) -> int {
        if self.size(at) <= 4 {
            at + 8
        } else {
            self.place(at)
        }
    }

    /// Whether an entry's values can be taken for what its tag holds.
    pub open spec fn entry_sound(self, at: int, group: Group) -> bool {
        &&& format_size(self.format(at)) > 0
        &&& self.size(at) > 4 ==> self.values(at) + self.size(at) <= self.block.len()
        &&& leads_to(group, self.tag(at)) is Some ==> self.size(at) == 4
        &&& group == Group::Gps && (self.tag(at) == 0 || self.tag(at) == 5) && self.format(at) == 3 ==> forall|i: int|
            0 <= i < self.count(at) ==> #[trigger] self.short_value(at, i) <= 0xff
        &&& group == Group::Gps && self.tag(at) == 5 && self.format(at) == 2 ==> self.count(at) > 0
        &&& group == Group::Exif && may_be_negative(self.tag(at)) && self.format(at) == 5 ==> forall|i: int|
            0 <= i < self.count(at) ==> ratio_told(self.upper_value(at, i), #[trigger] self.lower_value(at, i))
    }

    pub open spec fn short_value(self, at: int, i: int) -> int {
        short_at(self.block, self.big, self.values(at) + 2 * i)
    }

    pub open spec fn upper_value(self, at: int, i: int) -> int {
        long_at(self.block, self.big, self.values(at) + 8 * i)
    }

    pub open spec fn lower_value(self, at: int, i: int) -> int {
        long_at(self.block, self.big, self.values(at) + 8 * i + 4)
    }

    /// How many bytes an entry is encoded in at most: itself and some filling, its values, which may
    /// be widened, and the picture data they may point at.
    pub open spec fn weight(self, at: int) -> nat {
        (80 + 4 * self.size(at) + if self.tag(at) == 0x0111 {
            self.count(at) * self.block.len()
        } else if self.tag(at) == 0x0201 {
            self.block.len() as int
        } else {
            0
        }) as nat
    }

    /// Whether an entry of a tag names a directory that is there.
    pub open spec fn opens(self, at: int, tag: int) -> bool {
        self.tag(at) == tag && self.place(at) + 6 <= self.block.len()
    }

    /// Whether more than one entry of a tag names a directory that is there.
    pub open spec fn repeats(self, first: int, entries: int, tag: int) -> bool {
        exists|i: int, j: int|
            0 <= i < j < entries && #[trigger] self.opens(first + 12 * i, tag) && #[trigger] self.opens(first + 12 * j, tag)
    }

    /// Whether a directory names another of a kind twice.
    pub open spec fn names_twice(self, first: int, entries: int, group: Group) -> bool {
        match group {
            Group::Chain => self.repeats(first, entries, 0x8769) || self.repeats(first, entries, 0x8825),
            Group::Exif => self.repeats(first, entries, 0xa005),
            _ => false,
        }
    }

    /// Whether some entries are sound, and the directories they lead to.
    pub open spec fn entries_sound(self, first: int, entries: nat, group: Group) -> bool
        decreases group.rank(), entries,
    {
        entries == 0 || {
            let at = first + 12 * (entries - 1);
            &&& self.entries_sound(first, (entries - 1) as nat, group)
            &&& self.entry_sound(at, group)
            &&& leads_to(group, self.tag(at)) matches Some(below) ==> self.directory_sound(self.place(at), below)
        }
    }

    pub open spec fn directory_sound(self, at: int, group: Group) -> bool
        decreases group.rank(), 0x10000nat,
    {
        at + 6 > self.block.len() || {
            let entries = short_at(self.block, self.big, at);
            &&& at + 2 + 12 * entries + 4 <= self.block.len()
            &&& !self.names_twice(at + 2, entries, group)
            &&& self.entries_sound(at + 2, entries as nat, group)
        }
    }

    /// The place the directory behind one that is there is said to stand at; zero where it is the
    /// last.
    pub open spec fn next(self, at: int) -> int {
        long_at(self.block, self.big, at + 2 + 12 * short_at(self.block, self.big, at))
    }

    /// Whether the directories from a place on are sound, and their chain ends.
    pub open spec fn chain_sound(self, at: int, links: nat) -> bool
        decreases links,
    {
        &&& self.directory_sound(at, Group::Chain)
        &&& at + 6 > self.block.len() || self.next(at) == 0 || (links > 0 && self.chain_sound(
            self.start + self.next(at),
            (links - 1) as nat,
        ))
    }

    /// How many bytes some entries, and the directories they lead to, are encoded in at most.
    pub open spec fn entries_weight(self, first: int, entries: nat, group: Group) -> nat
        decreases group.rank(), entries,
    {
        if entries == 0 {
            0
        } else {
            let at = first + 12 * (entries - 1);
            let below = match leads_to(group, self.tag(at)) {
                Some(below) => self.directory_weight(self.place(at), below),
                None => 0,
            };
            self.entries_weight(first, (entries - 1) as nat, group) + self.weight(at) + below
        }
    }

    pub open spec fn directory_weight(self, at: int, group: Group) -> nat
        decreases group.rank(), 0x10000nat,
    {
        if at + 6 > self.block.len() {
            0
        } else {
            24 + self.entries_weight(at + 2, short_at(self.block, self.big, at) as nat, group)
        }
    }

    /// How many bytes the directories from a place on are encoded in at most.
    pub open spec fn chain_weight(self, at: int, links: nat) -> nat
        decreases links,
    {
        let here = self.directory_weight(at, Group::Chain);
        if at + 6 > self.block.len() || self.next(at) == 0 || links == 0 {
            here
        } else {
            here + self.chain_weight(self.start + self.next(at), (links - 1) as nat)
        }
    }

    /// Whether each of some entries, and each entry of the directories they lead to, has a value.
    pub open spec fn entries_filled(self, first: int, entries: nat, group: Group) -> bool
        decreases group.rank(), entries,
    {
        entries == 0 || {
            let at = first + 12 * (entries - 1);
            &&& self.entries_filled(first, (entries - 1) as nat, group)
            &&& self.count(at) > 0
            &&& leads_to(group, self.tag(at)) matches Some(below) ==> self.directory_filled(self.place(at), below)
        }
    }

    pub open spec fn directory_filled(self, at: int, group: Group) -> bool
        decreases group.rank(), 0x10000nat,
    {
        at + 6 > self.block.len() || self.entries_filled(at + 2, short_at(self.block, self.big, at) as nat, group)
    }

    /// Whether every entry of the directories from a place on has a value.
    pub open spec fn chain_filled(self, at: int, links: nat) -> bool
        decreases links,
    {
        at + 6 > self.block.len() || {
            &&& self.directory_filled(at, Group::Chain)
            &&& self.next(at) == 0 || (links > 0 && self.chain_filled(self.start + self.next(at), (links - 1) as nat))
        }
    }
}

/// The most bytes the directories of a block may be encoded in again: with those of the tags set
/// since, thirty-two bits still count them. A block holds far less; only directories that point at
/// the same bytes over and over come near it.
pub const MAX_WEIGHT: u64 = 0xa000_0000;

/// The most directories a chain without a loop can have in a block.
pub const MAX_LINKS: u32 = 0x10000;

/// Where the directories of a block count their places from.
pub open spec fn block_start(block: Seq<u8>) -> int {
    if opens_exif(block, 0) {
        6
    } else {
        0
    }
}

/// Whether a block's directories can be followed: each is all there and names no other of its kind
/// twice, every value can be taken for what its tag holds, and the chain ends.
pub open spec fn block_sound(block: Seq<u8>) -> bool {
    let start = block_start(block);
    &&& start + 8 <= block.len()
    &&& (block[start] == 0x49 && block[start + 1] == 0x49 && block[start + 2] == 0x2a && block[start + 3] == 0) || (block[start] == 0x4d
        && block[start + 1] == 0x4d && block[start + 2] == 0 && block[start + 3] == 0x2a)
    &&& ({
        let layout = Layout { block, start, big: block[start] == 0x4d };
        layout.chain_sound(start + long_at(block, layout.big, start + 4), MAX_LINKS as nat)
    })
}

/// Whether the Exif of a file's bytes can be read.
pub open spec fn readable(bytes: Seq<u8>) -> bool {
    first_block(bytes, 2) matches Some(block) && block_sound(block)
}

/// Whether thirty-two bits count the bytes a file's Exif may be encoded in again.
pub open spec fn bearable(bytes: Seq<u8>) -> bool {
    first_block(bytes, 2) matches Some(block) && ({
        let start = block_start(block);
        let layout = Layout { block, start, big: block[start] == 0x4d };
        layout.chain_weight(start + long_at(block, layout.big, start + 4), MAX_LINKS as nat) <= MAX_WEIGHT
    })
}

/// Whether every entry of a file's Exif has a value.
pub open spec fn filled(bytes: Seq<u8>) -> bool {
    first_block(bytes, 2) matches Some(block) && ({
        let start = block_start(block);
        let layout = Layout { block, start, big: block[start] == 0x4d };
        layout.chain_filled(start + long_at(block, layout.big, start + 4), MAX_LINKS as nat)
    })
}

fn read_short(block: &[u8], big: bool, at: usize) -> (r: usize)
    requires
        at + 2 <= block@.len() < 0x10000,
    ensures
        r == short_at(block@, big, at as int),
        r < 0x10000,
{
    if big {
        block[at] as usize * 256 + block[at + 1] as usize
    } else {
        block[at + 1] as usize * 256 + block[at] as usize
    }
}

fn read_long(block: &[u8], big: bool, at: usize) -> (r: u64)
    requires
        at + 4 <= block@.len() < 0x10000,
    ensures
        r == long_at(block@, big, at as int),
        r < 0x1_0000_0000,
{
    let (a, b) = (read_short(block, big, at) as u64, read_short(block, big, at + 2) as u64);
    if big {
        a * 0x10000 + b
    } else {
        b * 0x10000 + a
    }
}

fn size_of_format(format: usize) -> (r: u64)
    ensures
        r == format_size(format as int),
        r <= 8,
{
    if format == 1 || format == 2 || format == 6 || format == 7 {
        1
    } else if format == 3 || format == 8 {
        2
    } else if format == 4 || format == 9 || format == 11 {
        4
    } else if format == 5 || format == 10 || format == 12 {
        8
    } else {
        0
    }
}

fn directory_behind(group: Group, tag: usize) -> (r: Option<Group>)
    ensures
        r == leads_to(group, tag as int),
{
    match group {
        Group::Chain => if tag == 0x8769 {
            Some(Group::Exif)
        } else if tag == 0x8825 {
            Some(Group::Gps)
        } else {
            None
        },
        Group::Exif => if tag == 0xa005 {
            Some(Group::Interop)
        } else {
            None
        },
        _ => None,
    }
}

/// The layout of a block that is at hand.
#[derive(Clone, Copy)]
struct Shape {
    start: usize,
    big: bool,
}

impl Shape {
    spec fn over(self, block: Seq<u8>) -> Layout {
        Layout { block, start: self.start as int, big: self.big }
    }
}

fn shorts_fit(block: &[u8], shape: Shape, at: usize, values: usize, count: usize) -> (r: bool)
    requires
        block@.len() < 0x10000,
        values == shape.over(block@).values(at as int),
        count == shape.over(block@).count(at as int),
        values + 2 * count <= block@.len(),
    ensures
        r == forall|i: int| 0 <= i < count ==> #[trigger] shape.over(block@).short_value(at as int, i) <= 0xff,
{
    let mut i: usize = 0;
    while i < count
        invariant
            i <= count,
            block@.len() < 0x10000,
            values == shape.over(block@).values(at as int),
            values + 2 * count <= block@.len(),
            forall|j: int| 0 <= j < i ==> #[trigger] shape.over(block@).short_value(at as int, j) <= 0xff,
        decreases count - i,
    {
        if read_short(block, shape.big, values + 2 * i) > 0xff {
            assert(shape.over(block@).short_value(at as int, i as int) > 0xff);
            return false;
        }
        i += 1;
    }
    true
}

fn is_ratio_told(upper: u64, lower: u64) -> (r: bool)
    requires
        upper <= 0xffff_ffff,
        lower <= 0xffff_ffff,
    ensures
        r == ratio_told(upper as int, lower as int),
{
    if lower == 0 {
        return true;
    }
    let (mut up, mut low): (u64, u64) = (upper, lower);
    let (mut before, mut reached): (u64, u64) = (0, 1);
    let mut terms: u32 = RATIO_TERMS;
    loop
        invariant
            lower > 0,
            up <= 0xffff_ffff,
            0 < low <= 0xffff_ffff,
            before <= RATIO_REACH,
            reached <= 0x171_0000_0000_0000,
            settles(up as int, low as int, before as int, reached as int, terms as nat) == ratio_told(upper as int, lower as int),
        decreases terms,
    {
        let rest: u64 = up % low;
        if rest == 0 || reached > RATIO_REACH {
            return true;
        }
        if terms == 0 {
            return false;
        }
        let term: u64 = low / rest;
        assert(term <= low) by (nonlinear_arith)
            requires
                term == low / rest,
                rest > 0,
        ;
        assert(term * reached <= 0xffff_ffff * 0x171_0000) by (nonlinear_arith)
            requires
                term <= 0xffff_ffff,
                reached <= 0x171_0000,
        ;
        let next: u64 = term * reached + before;
        up = low;
        low = rest;
        before = reached;
        reached = next;
        terms -= 1;
    }
}

fn ratios_told(block: &[u8], shape: Shape, at: usize, values: usize, count: usize) -> (r: bool)
    requires
        block@.len() < 0x10000,
        values == shape.over(block@).values(at as int),
        count == shape.over(block@).count(at as int),
        values + 8 * count <= block@.len(),
    ensures
        r == forall|i: int|
            0 <= i < count ==> ratio_told(
                shape.over(block@).upper_value(at as int, i),
                #[trigger] shape.over(block@).lower_value(at as int, i),
            ),
{
    let ghost layout = shape.over(block@);
    let mut i: usize = 0;
    while i < count
        invariant
            i <= count,
            block@.len() < 0x10000,
            layout == shape.over(block@),
            values == layout.values(at as int),
            values + 8 * count <= block@.len(),
            forall|j: int|
                0 <= j < i ==> ratio_told(layout.upper_value(at as int, j), #[trigger] layout.lower_value(at as int, j)),
        decreases count - i,
    {
        let upper: u64 = read_long(block, shape.big, values + 8 * i);
        let lower: u64 = read_long(block, shape.big, values + 8 * i + 4);
        if !is_ratio_told(upper, lower) {
            assert(!ratio_told(layout.upper_value(at as int, i as int), layout.lower_value(at as int, i as int)));
            return false;
        }
        i += 1;
    }
    true
}

fn is_entry_sound(block: &[u8], shape: Shape, at: usize, group: Group) -> (r: bool)
    requires
        at + 12 <= block@.len() < 0x10000,
        shape.start <= 6,
    ensures
        r == shape.over(block@).entry_sound(at as int, group),
{
    let ghost layout = shape.over(block@);
    let tag: usize = read_short(block, shape.big, at);
    let format: usize = read_short(block, shape.big, at + 2);
    let count: u64 = read_long(block, shape.big, at + 4);
    let unit: u64 = size_of_format(format);
    if unit == 0 {
        return false;
    }
    assert(count * unit <= 0xffff_ffff * 8) by (nonlinear_arith)
        requires
            count <= 0xffff_ffff,
            unit <= 8,
    ;
    let size: u64 = count * unit;
    assert(size >= count) by (nonlinear_arith)
        requires
            size == count * unit,
            unit >= 1,
    ;
    assert((unit == 2 ==> size == 2 * count) && (unit == 8 ==> size == 8 * count)) by (nonlinear_arith)
        requires
            size == count * unit,
    ;
    assert(size == layout.size(at as int));
    let place: u64 = shape.start as u64 + read_long(block, shape.big, at + 8);
    let values: u64 = if size <= 4 {
        at as u64 + 8
    } else {
        place
    };
    if size > 4 && values + size > block.len() as u64 {
        return false;
    }
    assert(values + size <= block@.len());
    let pointer = directory_behind(group, tag).is_some();
    if pointer && size != 4 {
        return false;
    }
    match group {
        Group::Gps => {
            if (tag == 0 || tag == 5) && format == 3 && !shorts_fit(block, shape, at, values as usize, count as usize) {
                return false;
            }
            if tag == 5 && format == 2 && count == 0 {
                return false;
            }
        },
        Group::Exif => {
            let signed = tag == 0x9201 || tag == 0x9203 || tag == 0x9204 || tag == 0x9400 || tag == 0x9403 || tag == 0x9405;
            if signed && format == 5 && !ratios_told(block, shape, at, values as usize, count as usize) {
                return false;
            }
        },
        _ => {},
    }
    true
}

fn tag_repeats(block: &[u8], shape: Shape, first: usize, entries: usize, tag: usize) -> (r: bool)
    requires
        first + 12 * entries <= block@.len() < 0x10000,
        shape.start <= 6,
    ensures
        r == shape.over(block@).repeats(first as int, entries as int, tag as int),
{
    let ghost layout = shape.over(block@);
    let mut seen: Option<usize> = None;
    let mut i: usize = 0;
    while i < entries
        invariant
            i <= entries,
            first + 12 * entries <= block@.len() < 0x10000,
            shape.start <= 6,
            layout == shape.over(block@),
            match seen {
                Some(at) => at < i && layout.opens(first + 12 * at, tag as int) && forall|j: int|
                    0 <= j < i && j != at ==> !#[trigger] layout.opens(first + 12 * j, tag as int),
                None => forall|j: int| 0 <= j < i ==> !#[trigger] layout.opens(first + 12 * j, tag as int),
            },
        decreases entries - i,
    {
        let at: usize = first + 12 * i;
        let place: u64 = shape.start as u64 + read_long(block, shape.big, at + 8);
        if read_short(block, shape.big, at) == tag && place + 6 <= block.len() as u64 {
            match seen {
                Some(known) => {
                    assert(layout.opens(first + 12 * known as int, tag as int) && layout.opens(first + 12 * i as int, tag as int));
                    return true;
                },
                None => {},
            }
            seen = Some(i);
        }
        i += 1;
    }
    false
}

fn is_named_twice(block: &[u8], shape: Shape, first: usize, entries: usize, group: Group) -> (r: bool)
    requires
        first + 12 * entries <= block@.len() < 0x10000,
        shape.start <= 6,
    ensures
        r == shape.over(block@).names_twice(first as int, entries as int, group),
{
    match group {
        Group::Chain => tag_repeats(block, shape, first, entries, 0x8769) || tag_repeats(block, shape, first, entries, 0x8825),
        Group::Exif => tag_repeats(block, shape, first, entries, 0xa005),
        _ => false,
    }
}

proof fn lemma_fewer_entries_sound(layout: Layout, first: int, few: nat, entries: nat, group: Group)
    requires
        few <= entries,
        layout.entries_sound(first, entries, group),
    ensures
        layout.entries_sound(first, few, group),
    decreases entries,
{
    if few < entries {
        lemma_fewer_entries_sound(layout, first, few, (entries - 1) as nat, group);
    }
}

fn are_entries_sound(block: &[u8], shape: Shape, first: usize, entries: usize, group: Group) -> (r: bool)
    requires
        first + 12 * entries <= block@.len() < 0x10000,
        shape.start <= 6,
    ensures
        r == shape.over(block@).entries_sound(first as int, entries as nat, group),
    decreases group.rank(), 0nat,
{
    let ghost layout = shape.over(block@);
    let mut i: usize = 0;
    while i < entries
        invariant
            i <= entries,
            first + 12 * entries <= block@.len() < 0x10000,
            shape.start <= 6,
            layout == shape.over(block@),
            layout.entries_sound(first as int, i as nat, group),
        decreases entries - i,
    {
        let at: usize = first + 12 * i;
        let sound = is_entry_sound(block, shape, at, group) && match directory_behind(group, read_short(block, shape.big, at)) {
            Some(behind) => is_directory_sound(block, shape, shape.start as u64 + read_long(block, shape.big, at + 8), behind),
            None => true,
        };
        if !sound {
            proof {
                if layout.entries_sound(first as int, entries as nat, group) {
                    lemma_fewer_entries_sound(layout, first as int, (i + 1) as nat, entries as nat, group);
                }
            }
            return false;
        }
        i += 1;
    }
    true
}

fn is_directory_sound(block: &[u8], shape: Shape, at: u64, group: Group) -> (r: bool)
    requires
        block@.len() < 0x10000,
        at < 0x2_0000_0000,
        shape.start <= 6,
    ensures
        r == shape.over(block@).directory_sound(at as int, group),
    decreases group.rank(), 1nat,
{
    if at + 6 > block.len() as u64 {
        return true;
    }
    let at: usize = at as usize;
    let entries: usize = read_short(block, shape.big, at);
    at + 6 + 12 * entries <= block.len() && !is_named_twice(block, shape, at + 2, entries, group) && are_entries_sound(
        block,
        shape,
        at + 2,
        entries,
        group,
    )
}

/// The place the directory behind another is said to stand at.
fn next_directory(block: &[u8], shape: Shape, at: usize) -> (r: u64)
    requires
        block@.len() < 0x10000,
        at + 6 <= block@.len(),
        shape.over(block@).directory_sound(at as int, Group::Chain),
    ensures
        r == shape.over(block@).next(at as int),
        r <= 0xffff_ffff,
{
    let entries: usize = read_short(block, shape.big, at);
    read_long(block, shape.big, at + 2 + 12 * entries)
}

fn is_chain_sound(block: &[u8], shape: Shape, first: u64) -> (r: bool)
    requires
        block@.len() < 0x10000,
        first < 0x2_0000_0000,
        shape.start <= 6,
    ensures
        r == shape.over(block@).chain_sound(first as int, MAX_LINKS as nat),
{
    let ghost layout = shape.over(block@);
    let mut at: u64 = first;
    let mut links: u32 = MAX_LINKS;
    loop
        invariant
            block@.len() < 0x10000,
            at < 0x2_0000_0000,
            shape.start <= 6,
            layout == shape.over(block@),
            layout.chain_sound(at as int, links as nat) == layout.chain_sound(first as int, MAX_LINKS as nat),
        decreases links,
    {
        if !is_directory_sound(block, shape, at, Group::Chain) {
            return false;
        }
        if at + 6 > block.len() as u64 {
            return true;
        }
        let next: u64 = next_directory(block, shape, at as usize);
        if next == 0 {
            return true;
        }
        if links == 0 {
            return false;
        }
        at = shape.start as u64 + next;
        links -= 1;
    }
}

// ---- weights ----

/// A weight, told no further than one past the most there may be.
spec fn told_weight(weight: nat) -> nat {
    if weight > MAX_WEIGHT {
        (MAX_WEIGHT + 1) as nat
    } else {
        weight
    }
}

fn sum_of_weights(left: u64, right: u64) -> (r: u64)
    requires
        left <= MAX_WEIGHT + 1,
        right <= 0xffff_ffff_ffff,
    ensures
        r == told_weight((left + right) as nat),
{
    if left + right > MAX_WEIGHT {
        MAX_WEIGHT + 1
    } else {
        left + right
    }
}

fn weigh_entry(block: &[u8], shape: Shape, at: usize, group: Group) -> (r: u64)
    requires
        at + 12 <= block@.len() < 0x10000,
        shape.over(block@).entry_sound(at as int, group),
    ensures
        r == shape.over(block@).weight(at as int),
        r <= 0x2_0000_0000,
{
    let ghost layout = shape.over(block@);
    let tag: usize = read_short(block, shape.big, at);
    let format: usize = read_short(block, shape.big, at + 2);
    let count: u64 = read_long(block, shape.big, at + 4);
    let unit: u64 = size_of_format(format);
    assert(count * unit <= 0xffff_ffff * 8 && count <= count * unit) by (nonlinear_arith)
        requires
            count <= 0xffff_ffff,
            1 <= unit <= 8,
    ;
    let size: u64 = count * unit;
    assert(size == layout.size(at as int) && size <= 0xffff);
    let len: u64 = block.len() as u64;
    assert(count * len <= 0xffff * 0xffff) by (nonlinear_arith)
        requires
            count <= 0xffff,
            len <= 0xffff,
    ;
    let data: u64 = if tag == 0x0111 {
        count * len
    } else if tag == 0x0201 {
        len
    } else {
        0
    };
    80 + 4 * size + data
}

fn weigh_entries(block: &[u8], shape: Shape, first: usize, entries: usize, group: Group) -> (r: u64)
    requires
        first + 12 * entries <= block@.len() < 0x10000,
        shape.start <= 6,
        shape.over(block@).entries_sound(first as int, entries as nat, group),
    ensures
        r == told_weight(shape.over(block@).entries_weight(first as int, entries as nat, group)),
    decreases group.rank(), 0nat,
{
    let ghost layout = shape.over(block@);
    let mut weight: u64 = 0;
    let mut i: usize = 0;
    while i < entries
        invariant
            i <= entries,
            first + 12 * entries <= block@.len() < 0x10000,
            shape.start <= 6,
            layout == shape.over(block@),
            layout.entries_sound(first as int, entries as nat, group),
            weight == told_weight(layout.entries_weight(first as int, i as nat, group)),
        decreases entries - i,
    {
        let at: usize = first + 12 * i;
        proof {
            lemma_fewer_entries_sound(layout, first as int, (i + 1) as nat, entries as nat, group);
        }
        let below: u64 = match directory_behind(group, read_short(block, shape.big, at)) {
            Some(behind) => weigh_directory(block, shape, shape.start as u64 + read_long(block, shape.big, at + 8), behind),
            None => 0,
        };
        weight = sum_of_weights(sum_of_weights(weight, weigh_entry(block, shape, at, group)), below);
        i += 1;
    }
    weight
}

fn weigh_directory(block: &[u8], shape: Shape, at: u64, group: Group) -> (r: u64)
    requires
        block@.len() < 0x10000,
        at < 0x2_0000_0000,
        shape.start <= 6,
        shape.over(block@).directory_sound(at as int, group),
    ensures
        r == told_weight(shape.over(block@).directory_weight(at as int, group)),
    decreases group.rank(), 1nat,
{
    if at + 6 > block.len() as u64 {
        return 0;
    }
    let at: usize = at as usize;
    let entries: usize = read_short(block, shape.big, at);
    sum_of_weights(24, weigh_entries(block, shape, at + 2, entries, group))
}

fn is_chain_bearable(block: &[u8], shape: Shape, first: u64) -> (r: bool)
    requires
        block@.len() < 0x10000,
        first < 0x2_0000_0000,
        shape.start <= 6,
        shape.over(block@).chain_sound(first as int, MAX_LINKS as nat),
    ensures
        r == (shape.over(block@).chain_weight(first as int, MAX_LINKS as nat) <= MAX_WEIGHT),
{
    let ghost layout = shape.over(block@);
    let mut at: u64 = first;
    let mut links: u32 = MAX_LINKS;
    let mut weight: u64 = 0;
    let ghost mut passed: nat = 0;
    loop
        invariant
            block@.len() < 0x10000,
            at < 0x2_0000_0000,
            shape.start <= 6,
            layout == shape.over(block@),
            layout.chain_sound(at as int, links as nat),
            weight == told_weight(passed),
            passed + layout.chain_weight(at as int, links as nat) == layout.chain_weight(first as int, MAX_LINKS as nat),
        decreases links,
    {
        weight = sum_of_weights(weight, weigh_directory(block, shape, at, Group::Chain));
        proof {
            passed = passed + layout.directory_weight(at as int, Group::Chain);
        }
        if at + 6 > block.len() as u64 {
            return weight <= MAX_WEIGHT;
        }
        let next: u64 = next_directory(block, shape, at as usize);
        if next == 0 || links == 0 {
            return weight <= MAX_WEIGHT;
        }
        at = shape.start as u64 + next;
        links -= 1;
    }
}

/// Whether thirty-two bits count the bytes a file's Exif may be encoded in again.
#[must_use]
pub fn is_bearable(bytes: &Vec<u8>) -> (r: bool)
    requires
        readable(bytes@),
    ensures
        r == bearable(bytes@),
{
    match find_block(bytes) {
        Some((from, to)) => {
            let block = vstd::slice::slice_subrange(bytes.as_slice(), from, to);
            let start: usize = if block_opens_exif(block) {
                6
            } else {
                0
            };
            let big = block[start] == 0x4d;
            let first: u64 = start as u64 + read_long(block, big, start + 4);
            is_chain_bearable(block, Shape { start, big }, first)
        },
        None => false,
    }
}

// ---- blocks ----

fn is_block_sound(block: &[u8]) -> (r: bool)
    requires
        block@.len() < 0x10000,
    ensures
        r == block_sound(block@),
{
    let start: usize = if block_opens_exif(block) {
        6
    } else {
        0
    };
    if block.len() < start + 8 {
        return false;
    }
    let little = block[start] == 0x49 && block[start + 1] == 0x49 && block[start + 2] == 0x2a && block[start + 3] == 0;
    let big = block[start] == 0x4d && block[start + 1] == 0x4d && block[start + 2] == 0 && block[start + 3] == 0x2a;
    if !little && !big {
        return false;
    }
    let shape = Shape { start, big };
    let first: u64 = start as u64 + read_long(block, big, start + 4);
    is_chain_sound(block, shape, first)
}

fn block_opens_exif(block: &[u8]) -> (r: bool)
    ensures
        r == opens_exif(block@, 0),
{
    crate::export::exif::is_exif(block, 0)
}

/// Whether the Exif of a file's bytes can be read.
#[must_use]
pub fn is_readable(bytes: &Vec<u8>) -> (r: bool)
    ensures
        r == readable(bytes@),
{
    match find_block(bytes) {
        Some((from, to)) => {
            let block = vstd::slice::slice_subrange(bytes.as_slice(), from, to);
            is_block_sound(block)
        },
        None => false,
    }
}

// ---- what the block holds ----

#[verifier::external_type_specification]
#[verifier::external_body]
pub struct ExMetadata(little_exif::metadata::Metadata);

/// The bytes a set of tags was read from, where it was not begun empty.
pub uninterp spec fn origin_of(metadata: little_exif::metadata::Metadata) -> Option<Seq<u8>>;

/// The tags set since, in turn.
pub uninterp spec fn tags_in(metadata: little_exif::metadata::Metadata) -> Seq<TagView>;

/// What reading the Exif of a file's bytes fails with.
pub uninterp spec fn exif_fault(bytes: Seq<u8>) -> Option<Seq<char>>;

/// The text a tag has in the Exif of a file's bytes.
pub uninterp spec fn exif_text_in(bytes: Seq<u8>, tag: ReadTag) -> Option<Seq<char>>;

/// What tags begun from some bytes, and set in turn, are encoded as.
pub uninterp spec fn exif_encoded(origin: Option<Seq<u8>>, tags: Seq<TagView>) -> Result<Seq<u8>, Seq<char>>;

/// A text tag that is read back.
#[derive(Debug, Clone, Copy, PartialEq, Eq, Structural)]
pub enum ReadTag {
    DateTimeOriginal,
    CreateDate,
    ModifyDate,
    OffsetTime,
    OffsetTimeOriginal,
    Artist,
    ImageDescription,
    Make,
}

impl ReadTag {
    /// The tag it is set as, where it is one that is set.
    pub open spec fn written(self) -> Option<TextTag> {
        match self {
            ReadTag::DateTimeOriginal => Some(TextTag::DateTimeOriginal),
            ReadTag::CreateDate => Some(TextTag::CreateDate),
            ReadTag::ModifyDate => Some(TextTag::ModifyDate),
            ReadTag::OffsetTime => Some(TextTag::OffsetTime),
            ReadTag::OffsetTimeOriginal => Some(TextTag::OffsetTimeOriginal),
            ReadTag::Artist => Some(TextTag::Artist),
            ReadTag::ImageDescription => Some(TextTag::ImageDescription),
            ReadTag::Make => None,
        }
    }
}

/// A text without the null characters at its end.
pub open spec fn without_nulls(text: Seq<char>) -> Seq<char>
    decreases text.len(),
{
    if text.len() > 0 && text.last() == '\0' {
        without_nulls(text.drop_last())
    } else {
        text
    }
}

/// The text a tag was last set to.
pub open spec fn last_text(tags: Seq<TagView>, wanted: TextTag) -> Option<Seq<char>>
    decreases tags.len(),
{
    if tags.len() == 0 {
        None
    } else {
        match tags.last() {
            TagView::Text(tag, text) => if tag == wanted {
                Some(text)
            } else {
                last_text(tags.drop_last(), wanted)
            },
            _ => last_text(tags.drop_last(), wanted),
        }
    }
}

/// The text a tag that is read was last set to.
pub open spec fn last_set(tags: Seq<TagView>, tag: ReadTag) -> Option<Seq<char>> {
    match tag.written() {
        Some(wanted) => last_text(tags, wanted),
        None => None,
    }
}

/// Whether every tag of ratios has one.
pub open spec fn ratios_filled(tags: Seq<TagView>) -> bool {
    forall|i: int| 0 <= i < tags.len() ==> ((#[trigger] tags[i]) matches TagView::Ratios(_, ratios) ==> ratios.len() > 0)
}

/// How many bytes a tag's value is encoded in at most.
pub open spec fn tag_size(tag: TagView) -> int {
    match tag {
        TagView::Bytes(_, value) => value.len() as int + 4,
        TagView::Short(_, _) => 2,
        TagView::Long(_, _) => 4,
        TagView::Ratios(_, value) => 8 * value.len() as int + 24,
        TagView::Text(_, value) => text_size(value) as int + 1,
    }
}

/// How many bytes tags are encoded in at most: their values, an entry and some filling for each,
/// and what opens the block and its directories.
pub open spec fn room(tags: Seq<TagView>) -> int
    decreases tags.len(),
{
    if tags.len() == 0 {
        128
    } else {
        room(tags.drop_last()) + 20 + tag_size(tags.last())
    }
}

/// The segment an encoded block is written as. It has sixteen bits to state its length in: of a
/// longer block it states what is left over.
pub open spec fn exif_segment(encoded: Seq<u8>) -> Seq<u8> {
    let length = (encoded.len() % 0x10000) + 8;
    seq![0xffu8, 0xe1, (length / 256) as u8, (length % 256) as u8] + exif_header() + encoded
}

/// The longest encoded block a segment holds.
pub const MAX_ENCODED: usize = 65527;

/// What a file's bytes become with an encoded block written into them: the block's segment stands
/// first, and the Exif segments there were are gone.
pub open spec fn with_block(bytes: Seq<u8>, encoded: Seq<u8>) -> Seq<u8> {
    bytes.take(2) + exif_segment(encoded) + cleared(bytes, 2)
}

/// Whether a file's Exif reads back with the texts some tags were set to.
pub open spec fn reads_back(bytes: Seq<u8>, tags: Seq<TagView>) -> bool {
    &&& readable(bytes)
    &&& exif_fault(bytes) is None
    &&& forall|tag: ReadTag| #[trigger]
        exif_text_in(bytes, tag) == match last_set(tags, tag) {
            Some(text) => Some(without_nulls(text)),
            None => None,
        }
}

/// Whether a file's Exif reads back with the texts some tags were set to, and where they were not
/// set with the texts they had in the file the tags were begun from.
pub open spec fn reads_over(bytes: Seq<u8>, origin: Seq<u8>, tags: Seq<TagView>) -> bool {
    &&& readable(bytes)
    &&& exif_fault(bytes) is None
    &&& forall|tag: ReadTag| #[trigger]
        exif_text_in(bytes, tag) == match last_set(tags, tag) {
            Some(text) => Some(without_nulls(text)),
            None => exif_text_in(origin, tag),
        }
}

/// `little_exif::metadata::Metadata::new`: no tags, from no bytes.
#[verifier::external_body]
pub(crate) fn fresh_metadata() -> (r: little_exif::metadata::Metadata)
    ensures
        origin_of(r) is None,
        tags_in(r) == Seq::<TagView>::empty(),
{
    little_exif::metadata::Metadata::new()
}

/// `little_exif::metadata::Metadata::new_from_vec` on a JPEG: the tags of the first segment that
/// may hold Exif, or why they cannot be read, which the contract names. It is asked only of bytes
/// whose directories can be followed: on others it may not come back.
#[verifier::external_body]
pub(crate) fn read_metadata(bytes: &Vec<u8>) -> (r: Result<little_exif::metadata::Metadata, String>)
    requires
        readable(bytes@),
    ensures
        match r {
            Ok(metadata) => exif_fault(bytes@) is None && origin_of(metadata) == Some(bytes@) && tags_in(metadata) == Seq::<TagView>::empty(),
            Err(error) => exif_fault(bytes@) == Some(error@),
        },
{
    little_exif::metadata::Metadata::new_from_vec(bytes, little_exif::filetype::FileExtension::JPEG).map_err(|error| error.to_string())
}

/// `little_exif::metadata::Metadata::set_tag` with a tag of bytes: sets it over what it had.
#[verifier::external_body]
pub(crate) fn set_bytes(metadata: &mut little_exif::metadata::Metadata, tag: BytesTag, value: Vec<u8>)
    ensures
        origin_of(*final(metadata)) == origin_of(*old(metadata)),
        tags_in(*final(metadata)) == tags_in(*old(metadata)).push(TagView::Bytes(tag, value@)),
{
    metadata.set_tag(match tag {
        BytesTag::ExifVersion => ExifTag::ExifVersion(value),
        BytesTag::ComponentsConfiguration => ExifTag::ComponentsConfiguration(value),
        BytesTag::FlashpixVersion => ExifTag::FlashpixVersion(value),
        BytesTag::GPSVersionID => ExifTag::GPSVersionID(value),
    });
}

/// `little_exif::metadata::Metadata::set_tag` with a tag of one short number.
#[verifier::external_body]
pub(crate) fn set_short(metadata: &mut little_exif::metadata::Metadata, tag: ShortTag, value: u16)
    ensures
        origin_of(*final(metadata)) == origin_of(*old(metadata)),
        tags_in(*final(metadata)) == tags_in(*old(metadata)).push(TagView::Short(tag, value)),
{
    metadata.set_tag(match tag {
        ShortTag::ColorSpace => ExifTag::ColorSpace(vec![value]),
        ShortTag::YCbCrPositioning => ExifTag::YCbCrPositioning(vec![value]),
        ShortTag::ResolutionUnit => ExifTag::ResolutionUnit(vec![value]),
    });
}

/// `little_exif::metadata::Metadata::set_tag` with a tag of one long number.
#[verifier::external_body]
pub(crate) fn set_long(metadata: &mut little_exif::metadata::Metadata, tag: LongTag, value: u32)
    ensures
        origin_of(*final(metadata)) == origin_of(*old(metadata)),
        tags_in(*final(metadata)) == tags_in(*old(metadata)).push(TagView::Long(tag, value)),
{
    metadata.set_tag(match tag {
        LongTag::ExifImageWidth => ExifTag::ExifImageWidth(vec![value]),
        LongTag::ExifImageHeight => ExifTag::ExifImageHeight(vec![value]),
    });
}

/// `little_exif::metadata::Metadata::set_tag` with a tag of ratios.
#[verifier::external_body]
pub(crate) fn set_ratios(metadata: &mut little_exif::metadata::Metadata, tag: RatioTag, value: Vec<Ratio>)
    ensures
        origin_of(*final(metadata)) == origin_of(*old(metadata)),
        tags_in(*final(metadata)) == tags_in(*old(metadata)).push(TagView::Ratios(tag, value@)),
{
    let plain = |ratio: Ratio| little_exif::rational::uR64 { nominator: ratio.nominator, denominator: ratio.denominator };
    let value = value.into_iter().map(plain).collect();
    metadata.set_tag(match tag {
        RatioTag::XResolution => ExifTag::XResolution(value),
        RatioTag::YResolution => ExifTag::YResolution(value),
        RatioTag::GPSLatitude => ExifTag::GPSLatitude(value),
        RatioTag::GPSLongitude => ExifTag::GPSLongitude(value),
    });
}

/// `little_exif::metadata::Metadata::set_tag` with a tag of text.
#[verifier::external_body]
pub(crate) fn set_text(metadata: &mut little_exif::metadata::Metadata, tag: TextTag, value: String)
    ensures
        origin_of(*final(metadata)) == origin_of(*old(metadata)),
        tags_in(*final(metadata)) == tags_in(*old(metadata)).push(TagView::Text(tag, value@)),
{
    metadata.set_tag(match tag {
        TextTag::DateTimeOriginal => ExifTag::DateTimeOriginal(value),
        TextTag::CreateDate => ExifTag::CreateDate(value),
        TextTag::ModifyDate => ExifTag::ModifyDate(value),
        TextTag::OffsetTime => ExifTag::OffsetTime(value),
        TextTag::OffsetTimeOriginal => ExifTag::OffsetTimeOriginal(value),
        TextTag::OffsetTimeDigitized => ExifTag::OffsetTimeDigitized(value),
        TextTag::GPSLatitudeRef => ExifTag::GPSLatitudeRef(value),
        TextTag::GPSLongitudeRef => ExifTag::GPSLongitudeRef(value),
        TextTag::Artist => ExifTag::Artist(value),
        TextTag::ImageDescription => ExifTag::ImageDescription(value),
    });
}

/// `little_exif::metadata::Metadata::get_tag`: the text a tag has among the tags that were read,
/// which the contract names.
#[verifier::external_body]
pub(crate) fn text_tag(metadata: &little_exif::metadata::Metadata, tag: ReadTag) -> (r: Option<String>)
    requires
        origin_of(*metadata) is Some,
        tags_in(*metadata).len() == 0,
    ensures
        crate::text::opt_view(r) == exif_text_in(origin_of(*metadata).unwrap(), tag),
{
    let none = String::new();
    let wanted = match tag {
        ReadTag::DateTimeOriginal => ExifTag::DateTimeOriginal(none),
        ReadTag::CreateDate => ExifTag::CreateDate(none),
        ReadTag::ModifyDate => ExifTag::ModifyDate(none),
        ReadTag::OffsetTime => ExifTag::OffsetTime(none),
        ReadTag::OffsetTimeOriginal => ExifTag::OffsetTimeOriginal(none),
        ReadTag::Artist => ExifTag::Artist(none),
        ReadTag::ImageDescription => ExifTag::ImageDescription(none),
        ReadTag::Make => ExifTag::Make(none),
    };
    metadata.get_tag(&wanted).find_map(|tag| match tag {
        ExifTag::DateTimeOriginal(text) | ExifTag::CreateDate(text) | ExifTag::ModifyDate(text) | ExifTag::OffsetTime(text) | ExifTag::OffsetTimeOriginal(text) | ExifTag::Artist(text) | ExifTag::ImageDescription(text) | ExifTag::Make(text) => Some(text.clone()),
        _ => None,
    })
}

/// `little_exif::metadata::Metadata::encode`: the bytes the tags are encoded as, which the contract
/// names. Of tags begun empty it also says how many bytes that is at most. The places in what is
/// encoded are counted in thirty-two bits, and the count overflows where they do not suffice, so
/// more than that is not asked.
#[verifier::external_body]
pub(crate) fn encode_metadata(metadata: &little_exif::metadata::Metadata) -> (r: Result<Vec<u8>, String>)
    requires
        room(tags_in(*metadata)) < 0x4000_0000,
        origin_of(*metadata) matches Some(origin) ==> readable(origin) && bearable(origin),
    ensures
        match r {
            Ok(encoded) => exif_encoded(origin_of(*metadata), tags_in(*metadata)) == Ok::<Seq<u8>, Seq<char>>(encoded@) && (origin_of(
                *metadata,
            ) is None ==> encoded@.len() <= room(tags_in(*metadata))),
            Err(error) => exif_encoded(origin_of(*metadata), tags_in(*metadata)) == Err::<Seq<u8>, Seq<char>>(error@),
        },
{
    metadata.encode().map_err(|error| error.to_string())
}

/// `little_exif::metadata::Metadata::write_to_vec` on a JPEG that can be searched to its end, with
/// tags that `encode` takes and whose length a segment can state: it takes out the Exif segments the search meets and puts
/// the new one behind the opening marker. A segment that states less than two as its length, and a
/// block whose length leaves no room for the eight bytes around it, lead to arithmetic that
/// overflows, so neither is asked.
///
/// Where the segment holds the whole block, the contract also says that it is read back: of tags
/// begun empty the texts among them, of tags begun from a file's bytes the texts set since over the
/// ones there were. The latter is said only where every entry there had a value: where one has
/// none, `encode` leaves room for values it does not write, and the places behind them are off.
/// What becomes of tags other than the ones this library reads is left unsaid.
#[verifier::external_body]
pub(crate) fn write_metadata(metadata: &little_exif::metadata::Metadata, bytes: &mut Vec<u8>) -> (r: Result<(), String>)
    requires
        old(bytes)@.len() >= 2,
        old(bytes)@[0] == 0xff && old(bytes)@[1] == 0xd8,
        searchable(old(bytes)@, 2),
        room(tags_in(*metadata)) < 0x4000_0000,
        origin_of(*metadata) matches Some(origin) ==> readable(origin) && bearable(origin),
        exif_encoded(origin_of(*metadata), tags_in(*metadata)) matches Ok(encoded) && encoded.len() % 0x10000 <= MAX_ENCODED,
    ensures
        r is Ok,
        final(bytes)@ == with_block(old(bytes)@, exif_encoded(origin_of(*metadata), tags_in(*metadata))->Ok_0),
        exif_encoded(origin_of(*metadata), tags_in(*metadata))->Ok_0.len() <= MAX_ENCODED && ratios_filled(tags_in(*metadata)) ==> match origin_of(
            *metadata,
        ) {
            None => reads_back(final(bytes)@, tags_in(*metadata)),
            Some(origin) => filled(origin) ==> reads_over(final(bytes)@, origin, tags_in(*metadata)),
        },
{
    metadata.write_to_vec(bytes, little_exif::filetype::FileExtension::JPEG).map_err(|error| error.to_string())
}

// ---- laws ----

/// What is written is what is read: the new block is the first a search for Exif comes upon.
pub proof fn law_the_block_written_is_the_block_read(bytes: Seq<u8>, encoded: Seq<u8>)
    requires
        bytes.len() >= 2,
        encoded.len() <= MAX_ENCODED,
    ensures
        first_block(with_block(bytes, encoded), 2) == Some(exif_header() + encoded),
{
    let after = with_block(bytes, encoded);
    let segment = exif_segment(encoded);
    let length = encoded.len() as int + 8;
    assert(after[2] == segment[0] && after[3] == segment[1] && after[4] == segment[2] && after[5] == segment[3]);
    assert(stated_length(after, 4) == length);
    assert(prefix_from(after, 2) == 2);
    assert(after.subrange(6, 4 + length) =~= exif_header() + encoded);
}

} // verus!
