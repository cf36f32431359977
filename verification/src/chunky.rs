//! The chunky archive: chunk identifiers, the chunk index and access to chunk
//! payloads.

use std::borrow::Cow;
use std::collections::HashMap;
use vstd::prelude::*;
use vstd::slice::slice_subrange;
use vstd::utf8::{decode_utf8, valid_utf8};
use crate::error::Error;
use crate::ggf::{
    group_mirror, group_swapped, lemma_accepted_within, lemma_group_mirror_within, lemma_group_record_swapped,
    lemma_group_swapped, record_agrees, record_bytes, records_apart, records_within, Group, GroupOnFile,
    GROUP_HEADER,
};
use crate::kauai;
use crate::order::{
    detect, lemma_half_kept, lemma_half_mirrored, lemma_permuted, lemma_permuted_u16, lemma_permuted_u32,
    lemma_word_kept, lemma_word_mirrored, loads_to, mark_of, mirrored, permuted, read_u16, read_u32, u16_at,
    u32_at, Endian, Loader,
};
use crate::sorting::{lemma_mapped_multiset, quad_le, quads_ascending, sort_quads, Quad};

verus! {

/// The four-character tag of a chunk, held as its big-endian value, so that
/// `"TMPL"` is `0x544D504C`.
#[derive(Clone, Copy, Debug, PartialEq, Eq, PartialOrd, Ord, Hash, Structural)]
pub struct ChunkTag(pub u32);

/// The big-endian value of four tag characters.
pub open spec fn tag_value(b: Seq<u8>) -> int {
    16777216 * (b[0] as int) + 65536 * (b[1] as int) + 256 * (b[2] as int) + b[3] as int
}

impl ChunkTag {
    /// The tag spelled by `bytes`, if there are exactly four of them.
    pub fn from_bytes(bytes: &[u8]) -> (r: Option<ChunkTag>)
        ensures
            bytes@.len() != 4 ==> r.is_none(),
            bytes@.len() == 4 ==> r == Some(ChunkTag(tag_value(bytes@) as u32)),
    {
        if bytes.len() != 4 {
            return None;
        }
        let value: u32 = 16777216 * (bytes[0] as u32) + 65536 * (bytes[1] as u32) + 256 * (
        bytes[2] as u32) + bytes[3] as u32;
        Some(ChunkTag(value))
    }

    /// The four characters of the tag.
    pub fn bytes(&self) -> (r: [u8; 4])
        ensures
            tag_value(r@) == self.0,
    {
        let v = self.0;
        [(v / 16777216) as u8, ((v / 65536) % 256) as u8, ((v / 256) % 256) as u8, (v % 256) as u8]
    }

    /// Whether the tag is spelled by `bytes`.
    pub fn matches_bytes(&self, bytes: &[u8]) -> (r: bool)
        ensures
            r <==> bytes@.len() == 4 && self.0 as int == tag_value(bytes@),
    {
        match ChunkTag::from_bytes(bytes) {
            Some(tag) => tag.0 == self.0,
            None => false,
        }
    }
}

/// Identifies a chunk inside an archive: its tag and its number.
#[derive(Clone, Copy, Debug, PartialEq, Eq, PartialOrd, Ord, Hash, Structural)]
pub struct ChunkId {
    pub tag: ChunkTag,
    pub number: u32,
}

impl ChunkId {
    /// The identifier as one integer that orders identifiers by tag, then by number.
    pub open spec fn spec_key(self) -> u64 {
        (self.tag.0 as int * 0x1_0000_0000 + self.number as int) as u64
    }

    /// The identifier as one integer that orders identifiers by tag, then by number.
    pub fn key(&self) -> (k: u64)
        ensures
            k == self.spec_key(),
    {
        self.tag.0 as u64 * 0x1_0000_0000u64 + self.number as u64
    }

    /// The identifier that `key` stands for.
    pub fn from_key(key: u64) -> (id: ChunkId)
        ensures
            id.spec_key() == key,
    {
        ChunkId { tag: ChunkTag((key / 0x1_0000_0000u64) as u32), number: (key % 0x1_0000_0000u64) as u32 }
    }
}

/// Distinct identifiers have distinct keys.
pub proof fn lemma_key_injective(a: ChunkId, b: ChunkId)
    ensures
        a.spec_key() == b.spec_key() <==> a == b,
{
}


/// The flags of a chunk, one bit each.
#[derive(Clone, Copy, Debug, PartialEq, Eq, Structural)]
pub struct ChunkFlags(pub u8);

impl ChunkFlags {
    pub const EXTRA: u8 = 0x01;

    /// The chunk has no owner.
    pub const LONER: u8 = 0x02;

    /// The payload is packed.
    pub const PACKED: u8 = 0x04;

    pub const MARK_T: u8 = 0x08;

    pub const FOREST: u8 = 0x10;

    /// Every flag among `flags` is set in `self`.
    pub open spec fn spec_contains(self, flags: u8) -> bool {
        self.0 & flags == flags
    }

    /// The flags that the bits of `bits` stand for; bits without a name are kept.
    pub fn from_bits_retain(bits: u8) -> (r: ChunkFlags)
        ensures
            r.0 == bits,
    {
        ChunkFlags(bits)
    }

    /// The flags as bits.
    pub fn bits(&self) -> (r: u8)
        ensures
            r == self.0,
    {
        self.0
    }

    /// Whether every flag among `flags` is set.
    pub fn contains(&self, flags: u8) -> (r: bool)
        ensures
            r == self.spec_contains(flags),
    {
        self.0 & flags == flags
    }
}

/// A link from a chunk to one of its children.
#[derive(Clone, Copy, Debug, PartialEq, Eq, Structural)]
pub struct ChildLink {
    pub chunk_id: ChunkId,
    /// The number that the parent knows the child by.
    pub child_id: u32,
}

/// `a` comes before `b`, or is `b`, in the order of child lists: by the
/// parent's number for the child, then by the child's tag, then by its number.
pub open spec fn link_le(a: ChildLink, b: ChildLink) -> bool {
    a.child_id < b.child_id || (a.child_id == b.child_id && (a.chunk_id.tag.0 < b.chunk_id.tag.0 || (
    a.chunk_id.tag.0 == b.chunk_id.tag.0 && a.chunk_id.number <= b.chunk_id.number)))
}

/// Every link comes before the links after it, or equals them.
pub open spec fn links_ascending(s: Seq<ChildLink>) -> bool {
    forall|i: int, j: int| 0 <= i < j < s.len() ==> link_le(s[i], s[j])
}

/// The keys that a link is sorted by.
pub open spec fn link_keys(l: ChildLink) -> Quad {
    (l.child_id, l.chunk_id.tag.0, l.chunk_id.number, 0u32)
}

/// Sorts links into the order of child lists.
pub fn sort_links(links: &mut Vec<ChildLink>)
    ensures
        links_ascending(final(links)@),
        final(links)@.to_multiset() == old(links)@.to_multiset(),
        final(links)@.len() == old(links)@.len(),
{
    let ghost f = |l: ChildLink| link_keys(l);
    let mut keys: Vec<Quad> = Vec::new();
    let mut i: usize = 0;
    while i < links.len()
        invariant
            i <= links.len(),
            links@ == old(links)@,
            keys@.len() == i,
            forall|k: int| 0 <= k < i ==> keys@[k] == link_keys(#[trigger] links@[k]),
        decreases links.len() - i,
    {
        let l = links[i];
        keys.push((l.child_id, l.chunk_id.tag.0, l.chunk_id.number, 0));
        i += 1;
    }
    let ghost unsorted = keys@;
    assert(unsorted =~= old(links)@.map_values(f));
    sort_quads(&mut keys);
    let ghost sorted = keys@;
    links.clear();
    let mut j: usize = 0;
    while j < keys.len()
        invariant
            j <= keys.len(),
            keys@ == sorted,
            links@.len() == j,
            forall|k: int|
                0 <= k < j ==> (#[trigger] links@[k]).child_id == sorted[k].0 && links@[k].chunk_id.tag.0
                    == sorted[k].1 && links@[k].chunk_id.number == sorted[k].2,
        decreases keys.len() - j,
    {
        let q = keys[j];
        links.push(ChildLink { chunk_id: ChunkId { tag: ChunkTag(q.1), number: q.2 }, child_id: q.0 });
        j += 1;
    }
    proof {
        sorted.to_multiset_ensures();
        unsorted.to_multiset_ensures();
        assert forall|k: int| 0 <= k < sorted.len() implies f(links@[k]) == sorted[k] by {
            assert(sorted.to_multiset().contains(sorted[k]));
            assert(unsorted.to_multiset().contains(sorted[k]));
            assert(unsorted.contains(sorted[k]));
            let m = choose|m: int| 0 <= m < unsorted.len() && unsorted[m] == sorted[k];
            assert(unsorted[m].3 == 0);
        }
        assert(links@.map_values(f) =~= sorted);
        assert forall|a: ChildLink, b: ChildLink| #[trigger] f(a) == #[trigger] f(b) implies a == b by {}
        lemma_mapped_multiset(links@, old(links)@, f);
        assert forall|a: int, b: int| 0 <= a < b < links@.len() implies link_le(links@[a], links@[b]) by {
            assert(quad_le(sorted[a], sorted[b]));
            assert(f(links@[a]) == sorted[a]);
            assert(f(links@[b]) == sorted[b]);
        }
    }
}

/// The link is the one that the parent knows by `child_id` and has tag `tag`.
pub open spec fn link_matches(l: ChildLink, child_id: u32, tag: u32) -> bool {
    l.child_id == child_id && l.chunk_id.tag.0 == tag
}

/// Link `i` is the first of `links` that the parent knows by `child_id` and
/// that has tag `tag`.
pub open spec fn is_first_match(links: Seq<ChildLink>, child_id: u32, tag: u32, i: int) -> bool {
    &&& 0 <= i < links.len()
    &&& link_matches(links[i], child_id, tag)
    &&& forall|j: int| 0 <= j < i ==> !link_matches(#[trigger] links[j], child_id, tag)
}

/// None of `links` is known to the parent by `child_id` and has tag `tag`.
pub open spec fn has_no_match(links: Seq<ChildLink>, child_id: u32, tag: u32) -> bool {
    forall|i: int| 0 <= i < links.len() ==> !link_matches(#[trigger] links[i], child_id, tag)
}

/// The text that `String::from_utf16` of std makes of `units`, or `None`
/// where it rejects them.
pub uninterp spec fn utf16_text(units: Seq<u16>) -> Option<Seq<char>>;

/// `String::from_utf8` of std: the text that the bytes encode, or `None`
/// where they are not valid UTF-8.
#[verifier::external_body]
fn utf8_string(bytes: &[u8]) -> (r: Option<String>)
    ensures
        match r {
            Some(text) => valid_utf8(bytes@) && text@ == decode_utf8(bytes@),
            None => !valid_utf8(bytes@),
        },
{
    String::from_utf8(bytes.to_vec()).ok()
}

/// `String::from_utf16` of std: the text that the code units encode, or
/// `None` where they are not valid UTF-16.
#[verifier::external_body]
fn utf16_string(units: &Vec<u16>) -> (r: Option<String>)
    ensures
        match r {
            Some(text) => utf16_text(units@) == Some(text@),
            None => utf16_text(units@).is_none(),
        },
{
    String::from_utf16(units).ok()
}

/// The encoding tag of a name of 8-bit characters.
pub const NAME_BYTES: u16 = 0x0303;

/// The encoding tag of a name of 16-bit code units.
pub const NAME_UTF16: u16 = 0x0505;

/// Size in bytes of what precedes the characters of a name: the encoding
/// tag and the number of characters.
pub const NAME_HEADER: usize = 3;

/// The code units of a name of `count` 16-bit characters.
pub open spec fn name_units(text: Seq<u8>, count: int, e: Endian) -> Seq<u16> {
    Seq::new(count as nat, |k: int| u16_at(text, 2 * k, e) as u16)
}

/// The name that the bytes after the child links of a chunk spell: none
/// where there are no bytes, else a tag that names the encoding, the number
/// of characters, and the characters.
pub open spec fn name_of(rest: Seq<u8>, e: Endian) -> Result<Seq<char>, Error> {
    if rest.len() == 0 {
        Ok(Seq::empty())
    } else if rest.len() < NAME_HEADER {
        Err(Error::TruncatedPayload)
    } else {
        let count = rest[2] as int;
        let text = rest.skip(NAME_HEADER as int);
        if u16_at(rest, 0, e) == NAME_BYTES {
            if text.len() < count {
                Err(Error::TruncatedPayload)
            } else if !valid_utf8(text.take(count)) {
                Err(Error::UnsupportedEncoding)
            } else {
                Ok(decode_utf8(text.take(count)))
            }
        } else if u16_at(rest, 0, e) == NAME_UTF16 {
            if text.len() < 2 * count {
                Err(Error::TruncatedPayload)
            } else {
                match utf16_text(name_units(text, count, e)) {
                    Some(name) => Ok(name),
                    None => Err(Error::UnsupportedEncoding),
                }
            }
        } else {
            Err(Error::UnsupportedEncoding)
        }
    }
}

/// The name that decoding gave, or the error of a name that cannot be decoded.
pub fn decoded_name(text: Option<String>) -> (r: Result<String, Error>)
    ensures
        match text {
            Some(name) => r == Ok::<String, Error>(name),
            None => r == Err::<String, Error>(Error::UnsupportedEncoding),
        },
{
    match text {
        Some(name) => Ok(name),
        None => Err(Error::UnsupportedEncoding),
    }
}

/// Reads the name of a chunk from the bytes after its child links.
pub fn read_name(rest: &[u8], e: Endian) -> (r: Result<String, Error>)
    ensures
        match r {
            Ok(name) => name_of(rest@, e) == Ok::<Seq<char>, Error>(name@),
            Err(err) => name_of(rest@, e) == Err::<Seq<char>, Error>(err),
        },
{
    if rest.len() == 0 {
        let name = String::new();
        assert(name@ =~= Seq::<char>::empty());
        return Ok(name);
    }
    if rest.len() < NAME_HEADER {
        return Err(Error::TruncatedPayload);
    }
    let osk = read_u16(rest, 0, e);
    let count = rest[2] as usize;
    let text = vstd::slice::slice_subrange(rest, NAME_HEADER, rest.len());
    assert(text@ == rest@.skip(NAME_HEADER as int));
    if osk == NAME_BYTES {
        if text.len() < count {
            return Err(Error::TruncatedPayload);
        }
        let bytes = vstd::slice::slice_subrange(text, 0, count);
        assert(bytes@ == text@.take(count as int));
        decoded_name(utf8_string(bytes))
    } else if osk == NAME_UTF16 {
        if text.len() < 2 * count {
            return Err(Error::TruncatedPayload);
        }
        let mut units: Vec<u16> = Vec::new();
        let mut k: usize = 0;
        while k < count
            invariant
                k <= count <= 255,
                2 * count <= text.len(),
                units@.len() == k,
                forall|j: int| 0 <= j < k ==> units@[j] == u16_at(text@, 2 * j, e) as u16,
            decreases count - k,
        {
            units.push(read_u16(text, 2 * k, e));
            k += 1;
        }
        assert(units@ =~= name_units(text@, count as int, e));
        decoded_name(utf16_string(&units))
    } else {
        Err(Error::UnsupportedEncoding)
    }
}


/// Size in bytes of the prefix of an index record: the chunk's identifier,
/// where its payload lies, its flags and length, and the numbers of its
/// children and owners.
pub const CHUNK_PREFIX: usize = 20;

/// Size in bytes of one child link in an index record.
pub const LINK_SIZE: usize = 12;

/// The word of an index record that holds the flags of the chunk in its
/// low eight bits and the length of the payload in the rest.
#[derive(Clone, Copy, Debug, PartialEq, Eq, Structural)]
pub struct GrfcrpCb(pub u32);

impl GrfcrpCb {
    /// The flags of the chunk.
    pub fn grfcrp(&self) -> (r: u8)
        ensures
            r == self.0 % 256,
    {
        (self.0 % 256) as u8
    }

    /// Length in bytes of the payload as stored.
    pub fn length(&self) -> (r: u32)
        ensures
            r == self.0 / 256,
            r < 0x100_0000,
    {
        self.0 / 256
    }
}

/// What the index says of one chunk: where its payload lies in the archive,
/// its flags, its name and its children.
///
/// The children are kept in the order of child lists.
#[derive(Debug)]
pub struct IndexEntry {
    offset: u32,
    flags: ChunkFlags,
    length: u32,
    name: String,
    children: Vec<ChildLink>,
}

/// Those of the first `n` links that have tag `tag`, in order.
pub open spec fn links_with_tag(links: Seq<ChildLink>, tag: ChunkTag, n: int) -> Seq<ChildLink>
    decreases n,
{
    if n <= 0 {
        Seq::empty()
    } else if links[n - 1].chunk_id.tag == tag {
        links_with_tag(links, tag, n - 1).push(links[n - 1])
    } else {
        links_with_tag(links, tag, n - 1)
    }
}

/// The link comes before every link that the parent knows by `child_id`
/// and that has tag `tag`.
pub open spec fn link_before(l: ChildLink, child_id: u32, tag: u32) -> bool {
    l.child_id < child_id || (l.child_id == child_id && l.chunk_id.tag.0 < tag)
}

impl IndexEntry {
    #[verifier::type_invariant]
    spec fn inv(&self) -> bool {
        links_ascending(self.children@)
    }

    /// Where the payload starts in the archive.
    pub closed spec fn spec_offset(&self) -> u32 {
        self.offset
    }

    /// The flags of the chunk.
    pub closed spec fn spec_flags(&self) -> ChunkFlags {
        self.flags
    }

    /// Length in bytes of the payload as stored.
    pub closed spec fn spec_length(&self) -> u32 {
        self.length
    }

    /// The name of the chunk.
    pub closed spec fn spec_name(&self) -> Seq<char> {
        self.name@
    }

    /// The children of the chunk, in the order of child lists.
    pub closed spec fn spec_children(&self) -> Seq<ChildLink> {
        self.children@
    }

    /// An entry with the given content. The children may come in any order.
    pub fn new(offset: u32, flags: ChunkFlags, length: u32, name: String, children: Vec<ChildLink>) -> (r:
        IndexEntry)
        ensures
            r.spec_offset() == offset,
            r.spec_flags() == flags,
            r.spec_length() == length,
            r.spec_name() == name@,
            links_ascending(r.spec_children()),
            r.spec_children().to_multiset() == children@.to_multiset(),
    {
        let mut children = children;
        sort_links(&mut children);
        IndexEntry { offset, flags, length, name, children }
    }

    /// Where the payload starts in the archive.
    pub fn offset(&self) -> (r: u32)
        ensures
            r == self.spec_offset(),
    {
        self.offset
    }

    /// The flags of the chunk.
    pub fn flags(&self) -> (r: ChunkFlags)
        ensures
            r == self.spec_flags(),
    {
        self.flags
    }

    /// Length in bytes of the payload as stored.
    pub fn length(&self) -> (r: u32)
        ensures
            r == self.spec_length(),
    {
        self.length
    }

    /// The name of the chunk.
    pub fn name(&self) -> (r: &str)
        ensures
            r@ == self.spec_name(),
    {
        self.name.as_str()
    }

    /// The children of the chunk, in the order of child lists.
    pub fn children(&self) -> (r: &Vec<ChildLink>)
        ensures
            r@ == self.spec_children(),
            links_ascending(r@),
    {
        proof {
            use_type_invariant(self);
        }
        &self.children
    }

    /// The children that have tag `tag`, in the order of child lists.
    pub fn children_with_tag(&self, tag: ChunkTag) -> (r: Vec<ChildLink>)
        ensures
            r@ == links_with_tag(self.spec_children(), tag, self.spec_children().len() as int),
    {
        let mut found: Vec<ChildLink> = Vec::new();
        let mut i: usize = 0;
        while i < self.children.len()
            invariant
                i <= self.children@.len(),
                found@ == links_with_tag(self.children@, tag, i as int),
            decreases self.children.len() - i,
        {
            let link = self.children[i];
            if link.chunk_id.tag.0 == tag.0 {
                found.push(link);
            }
            i += 1;
        }
        found
    }

    /// The child that the chunk knows by `child_id` and that has tag `tag`.
    /// Where there are several, the one with the least number is returned.
    pub fn find_child(&self, child_id: u32, tag: ChunkTag) -> (r: Option<ChunkId>)
        ensures
            match r {
                Some(id) => exists|i: int|
                    0 <= i < self.spec_children().len() && link_matches(
                        #[trigger] self.spec_children()[i],
                        child_id,
                        tag.0,
                    ) && self.spec_children()[i].chunk_id == id && forall|j: int|
                        0 <= j < i ==> !link_matches(#[trigger] self.spec_children()[j], child_id, tag.0),
                None => forall|i: int|
                    0 <= i < self.spec_children().len() ==> !link_matches(
                        #[trigger] self.spec_children()[i],
                        child_id,
                        tag.0,
                    ),
            },
    {
        proof {
            use_type_invariant(self);
        }
        let tag = tag.0;
        let mut lo: usize = 0;
        let mut hi: usize = self.children.len();
        while lo < hi
            invariant
                lo <= hi <= self.children@.len(),
                links_ascending(self.children@),
                forall|i: int| 0 <= i < lo ==> link_before(#[trigger] self.children@[i], child_id, tag),
                forall|i: int|
                    hi <= i < self.children@.len() ==> !link_before(
                        #[trigger] self.children@[i],
                        child_id,
                        tag,
                    ),
            decreases hi - lo,
        {
            let mid = lo + (hi - lo) / 2;
            let c = self.children[mid];
            if c.child_id < child_id || (c.child_id == child_id && c.chunk_id.tag.0 < tag) {
                assert forall|i: int| 0 <= i < mid + 1 implies link_before(
                    #[trigger] self.children@[i],
                    child_id,
                    tag,
                ) by {
                    if i < mid {
                        assert(link_le(self.children@[i], self.children@[mid as int]));
                    }
                }
                lo = mid + 1;
            } else {
                assert forall|i: int| mid <= i < self.children@.len() implies !link_before(
                    #[trigger] self.children@[i],
                    child_id,
                    tag,
                ) by {
                    if i > mid {
                        assert(link_le(self.children@[mid as int], self.children@[i]));
                    }
                }
                hi = mid;
            }
        }
        if lo < self.children.len() {
            let c = self.children[lo];
            if c.child_id == child_id && c.chunk_id.tag.0 == tag {
                proof {
                    assert(link_matches(self.spec_children()[lo as int], child_id, tag));
                    assert forall|j: int| 0 <= j < lo implies !link_matches(
                        #[trigger] self.spec_children()[j],
                        child_id,
                        tag,
                    ) by {
                        assert(link_before(self.children@[j], child_id, tag));
                    }
                }
                return Some(c.chunk_id);
            }
            assert forall|i: int| 0 <= i < self.children@.len() implies !link_matches(
                #[trigger] self.children@[i],
                child_id,
                tag,
            ) by {
                if i > lo {
                    assert(link_le(self.children@[lo as int], self.children@[i]));
                }
            }
        }
        None
    }

    /// The child that the chunk knows by `child_id` and that has the tag
    /// spelled by `tag`. Where there are several, the one with the least
    /// number is returned. `None` where there is none, or where `tag` is not
    /// four bytes long.
    pub fn get_child(&self, child_id: u32, tag: &[u8]) -> (r: Option<ChunkId>)
        ensures
            tag@.len() != 4 ==> r.is_none(),
            tag@.len() == 4 ==> match r {
                Some(id) => exists|i: int|
                    0 <= i < self.spec_children().len() && link_matches(
                        #[trigger] self.spec_children()[i],
                        child_id,
                        tag_value(tag@) as u32,
                    ) && self.spec_children()[i].chunk_id == id && forall|j: int|
                        0 <= j < i ==> !link_matches(
                            #[trigger] self.spec_children()[j],
                            child_id,
                            tag_value(tag@) as u32,
                        ),
                None => forall|i: int|
                    0 <= i < self.spec_children().len() ==> !link_matches(
                        #[trigger] self.spec_children()[i],
                        child_id,
                        tag_value(tag@) as u32,
                    ),
            },
    {
        match ChunkTag::from_bytes(tag) {
            Some(tag) => self.find_child(child_id, tag),
            None => None,
        }
    }
}

/// The identifier in the prefix of an index record.
pub open spec fn record_id(fixed: Seq<u8>, e: Endian) -> ChunkId {
    ChunkId { tag: ChunkTag(u32_at(fixed, 0, e) as u32), number: u32_at(fixed, 4, e) as u32 }
}

/// The child link stored at `s[at..at + 12]`.
pub open spec fn link_at(s: Seq<u8>, at: int, e: Endian) -> ChildLink {
    ChildLink {
        chunk_id: ChunkId { tag: ChunkTag(u32_at(s, at, e) as u32), number: u32_at(s, at + 4, e) as u32 },
        child_id: u32_at(s, at + 8, e) as u32,
    }
}

/// The child links of an index record, as stored.
pub open spec fn record_links(fixed: Seq<u8>, variable: Seq<u8>, e: Endian) -> Seq<ChildLink> {
    Seq::new(u16_at(fixed, 16, e) as nat, |k: int| link_at(variable, LINK_SIZE * k, e))
}

/// What follows the child links of an index record.
pub open spec fn record_rest(fixed: Seq<u8>, variable: Seq<u8>, e: Endian) -> Seq<u8> {
    variable.skip(LINK_SIZE * u16_at(fixed, 16, e))
}

/// Why an index record is rejected, if it is: it ends within its child
/// links, or its name cannot be read.
pub open spec fn record_error(fixed: Seq<u8>, variable: Seq<u8>, e: Endian) -> Option<Error> {
    if variable.len() < LINK_SIZE * u16_at(fixed, 16, e) {
        Some(Error::TruncatedPayload)
    } else {
        match name_of(record_rest(fixed, variable, e), e) {
            Ok(_) => None,
            Err(err) => Some(err),
        }
    }
}

/// `entry` is what an accepted index record says of its chunk. The flags
/// are the low eight bits of one word of the prefix, the length is the rest
/// of the word.
pub open spec fn entry_describes(entry: IndexEntry, fixed: Seq<u8>, variable: Seq<u8>, e: Endian) -> bool {
    &&& entry.spec_offset() == u32_at(fixed, 8, e)
    &&& entry.spec_flags().0 == u32_at(fixed, 12, e) % 256
    &&& entry.spec_length() == u32_at(fixed, 12, e) / 256
    &&& name_of(record_rest(fixed, variable, e), e) == Ok::<Seq<char>, Error>(entry.spec_name())
    &&& links_ascending(entry.spec_children())
    &&& entry.spec_children().to_multiset() == record_links(fixed, variable, e).to_multiset()
}

/// Reads one record of the index.
pub fn read_entry(fixed: &[u8], variable: &[u8], e: Endian) -> (r: Result<(ChunkId, IndexEntry), Error>)
    requires
        fixed@.len() == CHUNK_PREFIX,
    ensures
        match r {
            Ok((id, entry)) => record_error(fixed@, variable@, e).is_none() && id == record_id(fixed@, e)
                && entry_describes(entry, fixed@, variable@, e),
            Err(err) => record_error(fixed@, variable@, e) == Some(err),
        },
{
    let id = ChunkId { tag: ChunkTag(read_u32(fixed, 0, e)), number: read_u32(fixed, 4, e) };
    let offset = read_u32(fixed, 8, e);
    let word = GrfcrpCb(read_u32(fixed, 12, e));
    let child_count = read_u16(fixed, 16, e) as usize;
    if variable.len() < LINK_SIZE * child_count {
        return Err(Error::TruncatedPayload);
    }
    let mut children: Vec<ChildLink> = Vec::new();
    let mut k: usize = 0;
    while k < child_count
        invariant
            k <= child_count <= 65535,
            LINK_SIZE * child_count <= variable.len(),
            children@.len() == k,
            forall|j: int| 0 <= j < k ==> children@[j] == link_at(variable@, LINK_SIZE * j, e),
        decreases child_count - k,
    {
        let at = LINK_SIZE * k;
        children.push(
            ChildLink {
                chunk_id: ChunkId { tag: ChunkTag(read_u32(variable, at, e)), number: read_u32(variable, at + 4, e) },
                child_id: read_u32(variable, at + 8, e),
            },
        );
        k += 1;
    }
    assert(children@ =~= record_links(fixed@, variable@, e));
    let rest = slice_subrange(variable, LINK_SIZE * child_count, variable.len());
    assert(rest@ == record_rest(fixed@, variable@, e));
    let name = match read_name(rest, e) {
        Ok(name) => name,
        Err(err) => {
            return Err(err);
        },
    };
    let entry = IndexEntry::new(offset, ChunkFlags::from_bits_retain(word.grfcrp()), word.length(), name, children);
    Ok((id, entry))
}


/// The index as a group whose records start with the prefix of an index
/// record, whatever prefix size the group's own header names.
pub open spec fn index_header(ix: Seq<u8>, e: Endian) -> GroupOnFile {
    let header = GroupOnFile::of(ix, e);
    GroupOnFile {
        order: e,
        length_entries: header.length_entries,
        data_length_bytes: header.data_length_bytes,
        fixed: CHUNK_PREFIX as u32,
    }
}

/// The identifier of the chunk that record `i` of the index describes.
pub open spec fn index_id(ix: Seq<u8>, e: Endian, i: int) -> ChunkId {
    record_id(index_header(ix, e).fixed_of(ix, i), e)
}

/// Why record `i` of the index is rejected, if it is.
pub open spec fn index_record_error(ix: Seq<u8>, e: Endian, i: int) -> Option<Error> {
    let header = index_header(ix, e);
    record_error(header.fixed_of(ix, i), header.variable_of(ix, i), e)
}

/// The error of the first of the records `0..n` of the index that is rejected.
pub open spec fn index_records_error(ix: Seq<u8>, e: Endian, n: int) -> Option<Error>
    decreases n,
{
    if n <= 0 {
        None
    } else {
        match index_records_error(ix, e, n - 1) {
            Some(err) => Some(err),
            None => index_record_error(ix, e, n - 1),
        }
    }
}

/// Once a record has been rejected, the records after it do not matter.
pub proof fn lemma_index_error_stays(ix: Seq<u8>, e: Endian, n: int, m: int)
    requires
        0 <= n <= m,
        index_records_error(ix, e, n).is_some(),
    ensures
        index_records_error(ix, e, m) == index_records_error(ix, e, n),
    decreases m - n,
{
    if n < m {
        lemma_index_error_stays(ix, e, n, m - 1);
    }
}

/// The index is accepted as a group: it holds its whole location table,
/// and every record lies within the record region and holds a whole prefix.
pub open spec fn index_located(ix: Seq<u8>, e: Endian) -> bool {
    index_header(ix, e).error(ix).is_none()
}

/// Why the index is rejected, if it is.
pub open spec fn index_error(ix: Seq<u8>, e: Endian) -> Option<Error> {
    let header = index_header(ix, e);
    match header.error(ix) {
        Some(err) => Some(err),
        None => index_records_error(ix, e, header.length_entries as int),
    }
}

/// No record among `i + 1..n` describes the chunk that record `i` describes.
pub open spec fn is_last_of_chunk(ix: Seq<u8>, e: Endian, i: int, n: int) -> bool {
    forall|j: int| i < j < n ==> #[trigger] index_id(ix, e, j) != index_id(ix, e, i)
}

/// `map` holds what the records `0..n` of the index say: an entry for every
/// chunk that a record describes, made from the last record that describes
/// the chunk.
pub open spec fn index_holds(map: Map<u64, IndexEntry>, ix: Seq<u8>, e: Endian, n: int) -> bool {
    &&& forall|k: u64| #[trigger]
        map.contains_key(k) <==> exists|i: int| 0 <= i < n && #[trigger] index_id(ix, e, i).spec_key() == k
    &&& forall|i: int|
        0 <= i < n && is_last_of_chunk(ix, e, i, n) ==> entry_describes(
            map[#[trigger] index_id(ix, e, i).spec_key()],
            index_header(ix, e).fixed_of(ix, i),
            index_header(ix, e).variable_of(ix, i),
            e,
        )
}

/// `ids` names every chunk of `map` once.
pub open spec fn ids_hold(ids: Seq<ChunkId>, map: Map<u64, IndexEntry>) -> bool {
    &&& forall|a: int, b: int| 0 <= a < b < ids.len() ==> ids[a] != ids[b]
    &&& forall|a: int| 0 <= a < ids.len() ==> map.contains_key(#[trigger] ids[a].spec_key())
    &&& forall|k: u64| #[trigger]
        map.contains_key(k) ==> exists|a: int| 0 <= a < ids.len() && #[trigger] ids[a].spec_key() == k
}

/// Reads the index of an archive: the identifiers of its chunks, in the
/// order in which the index first names them, and what it says of each.
pub fn read_index(ix: &[u8], e: Endian) -> (r: Result<(Vec<ChunkId>, HashMap<u64, IndexEntry>), Error>)
    requires
        ix@.len() >= GROUP_HEADER,
    ensures
        match r {
            Ok((ids, map)) => index_error(ix@, e).is_none() && index_holds(
                map@,
                ix@,
                e,
                index_header(ix@, e).length_entries as int,
            ) && ids_hold(ids@, map@),
            Err(err) => index_error(ix@, e) == Some(err),
        },
{
    broadcast use vstd::std_specs::hash::group_hash_axioms;

    let on_file = GroupOnFile::read(ix, e);
    let header = GroupOnFile {
        order: e,
        length_entries: on_file.length_entries,
        data_length_bytes: on_file.data_length_bytes,
        fixed: CHUNK_PREFIX as u32,
    };
    let group = match Group::from_file(&header, ix) {
        Ok(group) => group,
        Err(err) => {
            return Err(err);
        },
    };
    let count = group.len();
    let mut ids: Vec<ChunkId> = Vec::new();
    let mut map: HashMap<u64, IndexEntry> = HashMap::new();
    let mut i: usize = 0;
    while i < count
        invariant
            i <= count,
            count == group.spec_len(),
            count == header.length_entries,
            header == index_header(ix@, e),
            header.error(ix@).is_none(),
            forall|k: int|
                0 <= k < count ==> #[trigger] group.fixed_of(k) == header.fixed_of(ix@, k)
                    && group.variable_of(k) == header.variable_of(ix@, k),
            index_records_error(ix@, e, i as int).is_none(),
            index_holds(map@, ix@, e, i as int),
            ids_hold(ids@, map@),
        decreases count - i,
    {
        let entry = group.entry(i);
        assert(entry.fixed@ == group.fixed_of(i as int));
        assert(header.location_ok(ix@, i as int));
        assert(entry.fixed@.len() == CHUNK_PREFIX);
        let (id, described) = match read_entry(entry.fixed, entry.variable, e) {
            Ok(read) => read,
            Err(err) => {
                proof {
                    lemma_index_error_stays(ix@, e, i + 1, count as int);
                }
                return Err(err);
            },
        };
        let key = id.key();
        let ghost before = map@;
        let ghost ids_before = ids@;
        if !map.contains_key(&key) {
            ids.push(id);
        }
        map.insert(key, described);
        proof {
            assert(map@ == before.insert(key, described));
            assert(index_id(ix@, e, i as int) == id);
            // The identifiers still name every chunk once.
            assert forall|a: int, b: int| 0 <= a < b < ids@.len() implies ids@[a] != ids@[b] by {
                if b == ids_before.len() {
                    assert(before.contains_key(ids_before[a].spec_key()));
                    lemma_key_injective(ids@[a], ids@[b]);
                }
            }
            assert forall|k: u64| #[trigger] map@.contains_key(k) implies exists|a: int|
                0 <= a < ids@.len() && #[trigger] ids@[a].spec_key() == k by {
                if before.contains_key(k) {
                    let a = choose|a: int| 0 <= a < ids_before.len() && #[trigger] ids_before[a].spec_key() == k;
                    assert(ids@[a].spec_key() == k);
                } else {
                    assert(k == key);
                    assert(ids@[ids_before.len() as int].spec_key() == k);
                }
            }
            assert forall|a: int| 0 <= a < ids@.len() implies map@.contains_key(
                #[trigger] ids@[a].spec_key(),
            ) by {
                if a < ids_before.len() {
                    assert(before.contains_key(ids_before[a].spec_key()));
                }
            }
            // The map holds what the records up to this one say.
            assert forall|k: u64| #[trigger] map@.contains_key(k) <==> exists|j: int|
                0 <= j < i + 1 && #[trigger] index_id(ix@, e, j).spec_key() == k by {
                if map@.contains_key(k) {
                    if k == key {
                        assert(index_id(ix@, e, i as int).spec_key() == k);
                    } else {
                        assert(before.contains_key(k));
                        let j = choose|j: int| 0 <= j < i && #[trigger] index_id(ix@, e, j).spec_key() == k;
                        assert(index_id(ix@, e, j).spec_key() == k);
                    }
                }
                if exists|j: int| 0 <= j < i + 1 && #[trigger] index_id(ix@, e, j).spec_key() == k {
                    let j = choose|j: int| 0 <= j < i + 1 && #[trigger] index_id(ix@, e, j).spec_key() == k;
                    if j < i {
                        assert(before.contains_key(k));
                    }
                }
            }
            assert forall|j: int| 0 <= j < i + 1 && is_last_of_chunk(ix@, e, j, i + 1) implies entry_describes(
                map@[#[trigger] index_id(ix@, e, j).spec_key()],
                index_header(ix@, e).fixed_of(ix@, j),
                index_header(ix@, e).variable_of(ix@, j),
                e,
            ) by {
                if j < i {
                    assert(index_id(ix@, e, i as int) != index_id(ix@, e, j));
                    lemma_key_injective(index_id(ix@, e, i as int), index_id(ix@, e, j));
                    assert(is_last_of_chunk(ix@, e, j, i as int));
                }
            }
        }
        i += 1;
    }
    Ok((ids, map))
}

/// Size in bytes of the archive prefix.
pub const PREFIX_SIZE: usize = 55;

/// The magic number of an archive: `CHN2`, read in the archive's byte order.
pub const MAGIC: u32 = 0x324E_4843;

/// The newest version of the format that is read.
pub const CURRENT_VERSION: u16 = 5;

/// The oldest version of the format that is read.
pub const MINIMUM_VERSION: u16 = 1;

/// The prefix of an archive.
#[derive(Clone, Copy, Debug, PartialEq, Eq, Structural)]
pub struct Prefix {
    pub magic: u32,
    pub creator: u32,
    /// The version of the format that the archive was written in.
    pub current_version: u16,
    /// The oldest version of the format whose readers can read the archive.
    pub backwards_compatible: u16,
    pub eof: u32,
    pub index_offset: u32,
    pub index_len: u32,
    pub free_map: u32,
}

impl Prefix {
    /// The prefix that `input` starts with, read in byte order `e`.
    pub open spec fn of(input: Seq<u8>, e: Endian) -> Prefix {
        Prefix {
            magic: u32_at(input, 0, e) as u32,
            creator: u32_at(input, 4, e) as u32,
            current_version: u16_at(input, 8, e) as u16,
            backwards_compatible: u16_at(input, 10, e) as u16,
            eof: u32_at(input, 16, e) as u32,
            index_offset: u32_at(input, 20, e) as u32,
            index_len: u32_at(input, 24, e) as u32,
            free_map: u32_at(input, 28, e) as u32,
        }
    }

    /// Reads the prefix that `input` starts with.
    pub fn read(input: &[u8], e: Endian) -> (r: Prefix)
        requires
            input@.len() >= PREFIX_SIZE,
        ensures
            r == Prefix::of(input@, e),
    {
        Prefix {
            magic: read_u32(input, 0, e),
            creator: read_u32(input, 4, e),
            current_version: read_u16(input, 8, e),
            backwards_compatible: read_u16(input, 10, e),
            eof: read_u32(input, 16, e),
            index_offset: read_u32(input, 20, e),
            index_len: read_u32(input, 24, e),
            free_map: read_u32(input, 28, e),
        }
    }

    /// The archive is neither too old nor too new to be read.
    pub open spec fn spec_is_readable(self) -> bool {
        self.current_version >= MINIMUM_VERSION && self.backwards_compatible <= CURRENT_VERSION
    }

    /// Whether the archive is neither too old nor too new to be read.
    pub fn is_readable(&self) -> (r: bool)
        ensures
            r == self.spec_is_readable(),
    {
        self.current_version >= MINIMUM_VERSION && self.backwards_compatible <= CURRENT_VERSION
    }

    /// The bytes of the index.
    pub open spec fn index_of(self, input: Seq<u8>) -> Seq<u8> {
        input.subrange(self.index_offset as int, self.index_offset + self.index_len)
    }
}

/// An archive: its bytes and its index.
#[derive(Debug)]
pub struct ChunkyFile<'a> {
    data: &'a [u8],
    ids: Vec<ChunkId>,
    index: HashMap<u64, IndexEntry>,
}

/// Why an archive is rejected, if it is.
pub open spec fn archive_error(input: Seq<u8>, e: Endian) -> Option<Error> {
    let prefix = Prefix::of(input, e);
    let ix = prefix.index_of(input);
    if prefix.magic != MAGIC {
        Some(Error::WrongMagic)
    } else if !prefix.spec_is_readable() {
        Some(Error::IncompatibleVersion)
    } else if input.len() < prefix.index_offset + prefix.index_len {
        Some(Error::TruncatedPayload)
    } else if ix.len() < GROUP_HEADER {
        Some(Error::TruncatedHeader)
    } else {
        match mark_of(ix, 0) {
            None => Some(Error::UnknownByteOrder),
            Some(order) => index_error(ix, order),
        }
    }
}

impl<'a> ChunkyFile<'a> {
    /// The bytes of the archive.
    pub closed spec fn source(&self) -> Seq<u8> {
        self.data@
    }

    /// What the index says of each chunk, by the key of the chunk's identifier.
    pub closed spec fn spec_index(&self) -> Map<u64, IndexEntry> {
        self.index@
    }

    /// The identifiers of the chunks.
    pub closed spec fn spec_ids(&self) -> Seq<ChunkId> {
        self.ids@
    }

    /// The bytes of the archive.
    pub fn data(&self) -> (r: &'a [u8])
        ensures
            r@ == self.source(),
    {
        self.data
    }

    /// The identifiers of the chunks, in the order in which the index first
    /// names them.
    pub fn ids(&self) -> (r: &Vec<ChunkId>)
        ensures
            r@ == self.spec_ids(),
    {
        &self.ids
    }

    /// What the index says of chunk `id`, if the archive has such a chunk.
    pub fn get(&self, id: &ChunkId) -> (r: Option<&IndexEntry>)
        ensures
            match r {
                Some(entry) => self.spec_index().contains_key(id.spec_key()) && *entry
                    == self.spec_index()[id.spec_key()],
                None => !self.spec_index().contains_key(id.spec_key()),
            },
    {
        broadcast use vstd::std_specs::hash::group_hash_axioms;

        let key = id.key();
        self.index.get(&key)
    }

    /// The chunks that have tag `tag` and no owner, in the order of `ids`.
    pub fn loners(&self, tag: ChunkTag) -> (r: Vec<ChunkId>)
        ensures
            r@ == loners_among(self.spec_ids(), self.spec_index(), tag, self.spec_ids().len() as int),
    {
        broadcast use vstd::std_specs::hash::group_hash_axioms;

        let mut found: Vec<ChunkId> = Vec::new();
        let mut i: usize = 0;
        while i < self.ids.len()
            invariant
                i <= self.ids@.len(),
                found@ == loners_among(self.ids@, self.index@, tag, i as int),
            decreases self.ids.len() - i,
        {
            let id = self.ids[i];
            if id.tag.0 == tag.0 {
                let key = id.key();
                match self.index.get(&key) {
                    Some(entry) => {
                        if entry.flags().contains(ChunkFlags::LONER) {
                            found.push(id);
                        }
                    },
                    None => {},
                }
            }
            i += 1;
        }
        found
    }

    /// What the index says of the child that `entry` knows by `child_id`
    /// and that has tag `tag`: the entry of the first such child among the
    /// children of `entry`. Fails exactly where `entry` has no such child, or
    /// where the archive has no chunk of the identifier of the first one.
    pub fn child_of(&self, entry: &IndexEntry, child_id: u32, tag: ChunkTag) -> (r: Result<
        &IndexEntry,
        Error,
    >)
        ensures
            match r {
                Ok(child) => exists|i: int| #[trigger]
                    is_first_match(entry.spec_children(), child_id, tag.0, i) && self.spec_index().contains_key(
                        entry.spec_children()[i].chunk_id.spec_key(),
                    ) && *child == self.spec_index()[entry.spec_children()[i].chunk_id.spec_key()],
                Err(err) => err == Error::MissingChild(tag.0) && (has_no_match(
                    entry.spec_children(),
                    child_id,
                    tag.0,
                ) || exists|i: int| #[trigger]
                    is_first_match(entry.spec_children(), child_id, tag.0, i)
                        && !self.spec_index().contains_key(entry.spec_children()[i].chunk_id.spec_key())),
            },
    {
        match entry.find_child(child_id, tag) {
            Some(id) => {
                proof {
                    let links = entry.spec_children();
                    let i = choose|i: int|
                        0 <= i < links.len() && link_matches(#[trigger] links[i], child_id, tag.0) && links[i].chunk_id
                            == id && forall|j: int| 0 <= j < i ==> !link_matches(#[trigger] links[j], child_id, tag.0);
                    assert(is_first_match(links, child_id, tag.0, i));
                }
                match self.get(&id) {
                    Some(child) => Ok(child),
                    None => Err(Error::MissingChild(tag.0)),
                }
            },
            None => Err(Error::MissingChild(tag.0)),
        }
    }

    /// The payload of a chunk: the bytes that its entry points at, borrowed
    /// from the archive, or, if the entry says that they are packed, their
    /// decoding in a buffer of its own.
    pub fn get_chunk(&self, entry: &IndexEntry) -> (r: Result<Cow<'a, [u8]>, Error>)
        ensures
            match r {
                Ok(payload) => chunk_payload(self.source(), *entry) == Ok::<Seq<u8>, Error>(payload@),
                Err(err) => chunk_payload(self.source(), *entry) == Err::<Seq<u8>, Error>(err),
            },
            r matches Ok(Cow::Borrowed(_)) <==> r.is_ok() && !entry.spec_flags().spec_contains(
                ChunkFlags::PACKED,
            ),
            r matches Ok(Cow::Owned(_)) <==> r.is_ok() && entry.spec_flags().spec_contains(
                ChunkFlags::PACKED,
            ),
    {
        let offset = entry.offset() as u64;
        let length = entry.length() as u64;
        if offset + length > self.data.len() as u64 {
            return Err(Error::TruncatedPayload);
        }
        let stored = slice_subrange(self.data, offset as usize, (offset + length) as usize);
        if entry.flags().contains(ChunkFlags::PACKED) {
            match kauai::decode(stored) {
                Ok(out) => Ok(Cow::Owned(out)),
                Err(err) => Err(err),
            }
        } else {
            Ok(Cow::Borrowed(stored))
        }
    }
}

/// Chunk `id` has tag `tag`, is in the index, and has no owner.
pub open spec fn is_loner(map: Map<u64, IndexEntry>, id: ChunkId, tag: ChunkTag) -> bool {
    id.tag == tag && map.contains_key(id.spec_key()) && map[id.spec_key()].spec_flags().spec_contains(
        ChunkFlags::LONER,
    )
}

/// Those of the first `n` of `ids` that have tag `tag` and no owner, in order.
pub open spec fn loners_among(ids: Seq<ChunkId>, map: Map<u64, IndexEntry>, tag: ChunkTag, n: int) -> Seq<
    ChunkId,
>
    decreases n,
{
    if n <= 0 {
        Seq::empty()
    } else if is_loner(map, ids[n - 1], tag) {
        loners_among(ids, map, tag, n - 1).push(ids[n - 1])
    } else {
        loners_among(ids, map, tag, n - 1)
    }
}

/// The payload of the chunk that `entry` describes in the archive `data`.
pub open spec fn chunk_payload(data: Seq<u8>, entry: IndexEntry) -> Result<Seq<u8>, Error> {
    let stored = data.subrange(entry.spec_offset() as int, entry.spec_offset() + entry.spec_length());
    if data.len() < entry.spec_offset() + entry.spec_length() {
        Err(Error::TruncatedPayload)
    } else if entry.spec_flags().spec_contains(ChunkFlags::PACKED) {
        kauai::decoded(stored)
    } else {
        Ok(stored)
    }
}

impl<'a> Loader<'a> for ChunkyFile<'a> {
    open spec fn header_len() -> nat {
        PREFIX_SIZE as nat
    }

    open spec fn mark_at() -> nat {
        12
    }

    open spec fn decodes_to(input: Seq<u8>, e: Endian, r: Result<Self, Error>) -> bool {
        match archive_error(input, e) {
            Some(err) => r == Err::<Self, Error>(err),
            None => {
                let ix = Prefix::of(input, e).index_of(input);
                let order = mark_of(ix, 0).unwrap();
                r matches Ok(file) && file.source() == input && index_holds(
                    file.spec_index(),
                    ix,
                    order,
                    index_header(ix, order).length_entries as int,
                ) && ids_hold(file.spec_ids(), file.spec_index())
            },
        }
    }

    fn header_size() -> (n: usize) {
        PREFIX_SIZE
    }

    fn mark_offset() -> (n: usize) {
        12
    }

    fn into_native(input: &'a [u8], e: Endian) -> (r: Result<Self, Error>) {
        let prefix = Prefix::read(input, e);
        if prefix.magic != MAGIC {
            return Err(Error::WrongMagic);
        }
        if !prefix.is_readable() {
            return Err(Error::IncompatibleVersion);
        }
        let start = prefix.index_offset as u64;
        let end = start + prefix.index_len as u64;
        if end > input.len() as u64 {
            return Err(Error::TruncatedPayload);
        }
        let ix = slice_subrange(input, start as usize, end as usize);
        if ix.len() < GROUP_HEADER {
            return Err(Error::TruncatedHeader);
        }
        let order = match detect(ix, 0) {
            Ok(order) => order,
            Err(err) => {
                return Err(err);
            },
        };
        match read_index(ix, order) {
            Ok((ids, index)) => Ok(ChunkyFile { data: input, ids, index }),
            Err(err) => Err(err),
        }
    }
}


/// Where in an index record the name starts: after the prefix and the
/// child links.
pub open spec fn name_at(record: Seq<u8>, e: Endian) -> int {
    CHUNK_PREFIX + LINK_SIZE * u16_at(record, 16, e)
}

/// Where byte `o` of an index record lies in the other byte order: four
/// numbers of four bytes and two of two, the child links as numbers of four
/// bytes, the encoding of the name, the number of its characters, and its
/// characters, which are single bytes or code units of two bytes. A number
/// that the record holds only a part of is not read, and neither is the
/// encoding of a name without a number of characters.
#[verifier::opaque]
pub open spec fn chunk_mirror(record: Seq<u8>, e: Endian, o: int) -> int {
    let name = name_at(record, e);
    if o < 16 {
        mirrored(o, 0, 4)
    } else if o < CHUNK_PREFIX {
        mirrored(o, 16, 2)
    } else if o < name {
        if CHUNK_PREFIX + 4 * ((o - CHUNK_PREFIX) / 4) + 4 <= record.len() {
            mirrored(o, CHUNK_PREFIX as int, 4)
        } else {
            o
        }
    } else if o < name + 2 {
        if name + NAME_HEADER <= record.len() {
            mirrored(o, name, 2)
        } else {
            o
        }
    } else if o >= name + NAME_HEADER && u16_at(record, name, e) == NAME_UTF16 && o < name + NAME_HEADER + 2
        * record[name + 2] && name + NAME_HEADER + 2 * ((o - name - NAME_HEADER) / 2) + 2 <= record.len() {
        mirrored(o, name + NAME_HEADER, 2)
    } else {
        o
    }
}

/// A field of four bytes in a run of such fields has its bytes in reverse
/// order in the other byte order.
proof fn lemma_word_in_run(from: int, at: int)
    requires
        0 <= from <= at,
        (at - from) % 4 == 0,
    ensures
        mirrored(at, from, 4) == at + 3,
        mirrored(at + 1, from, 4) == at + 2,
        mirrored(at + 2, from, 4) == at + 1,
        mirrored(at + 3, from, 4) == at,
{
    let k = (at - from) / 4;
    assert(at == from + k * 4);
    assert((at + 1 - from) / 4 == k);
    assert((at + 2 - from) / 4 == k);
    assert((at + 3 - from) / 4 == k);
}

/// A field of two bytes in a run of such fields has its bytes in reverse
/// order in the other byte order.
proof fn lemma_half_in_run(from: int, at: int)
    requires
        0 <= from <= at,
        (at - from) % 2 == 0,
    ensures
        mirrored(at, from, 2) == at + 1,
        mirrored(at + 1, from, 2) == at,
{
    let k = (at - from) / 2;
    assert(at == from + k * 2);
    assert((at + 1 - from) / 2 == k);
}

/// The prefix of a record, and what follows it.
pub open spec fn prefix_of(record: Seq<u8>) -> Seq<u8> {
    record.take(CHUNK_PREFIX as int)
}

pub open spec fn rest_of(record: Seq<u8>) -> Seq<u8> {
    record.skip(CHUNK_PREFIX as int)
}

/// An index record that holds a whole prefix keeps its bytes within
/// itself in the other byte order.
proof fn lemma_chunk_mirror_within(record: Seq<u8>, e: Endian, o: int)
    requires
        record.len() >= CHUNK_PREFIX,
        0 <= o < record.len(),
    ensures
        0 <= chunk_mirror(record, e, o) < record.len(),
{
    reveal(chunk_mirror);
    let name = name_at(record, e);
    if o < 16 {
        let k = o / 4;
        assert(mirrored(o, 0, 4) == 4 * k + 3 - o % 4);
    } else if o < CHUNK_PREFIX {
        let k = (o - 16) / 2;
        assert(mirrored(o, 16, 2) == 16 + 2 * k + 1 - (o - 16) % 2);
    } else if o < name {
        let k = (o - 20) / 4;
        assert(mirrored(o, 20, 4) == 20 + 4 * k + 3 - (o - 20) % 4);
    } else if o < name + 2 {
        let k = (o - name) / 2;
        assert(k == 0);
        assert(mirrored(o, name, 2) == name + 1 - (o - name) % 2);
    } else if o >= name + NAME_HEADER {
        let k = (o - name - 3) / 2;
        assert(mirrored(o, name + 3, 2) == name + 3 + 2 * k + 1 - (o - name - 3) % 2);
    }
}

/// The prefix of an accepted index record and of the record whose bytes
/// lie where `chunk_mirror` says read the same, each in its byte order.
proof fn lemma_chunk_prefix_mirrored(record: Seq<u8>, other: Seq<u8>, e: Endian)
    requires
        record.len() >= CHUNK_PREFIX,
        other.len() == record.len(),
        forall|o: int| 0 <= o < record.len() ==> #[trigger] other[o] == record[chunk_mirror(record, e, o)],
    ensures
        record_id(prefix_of(other), e.flipped()) == record_id(prefix_of(record), e),
        u32_at(prefix_of(other), 8, e.flipped()) == u32_at(prefix_of(record), 8, e),
        u32_at(prefix_of(other), 12, e.flipped()) == u32_at(prefix_of(record), 12, e),
        u16_at(prefix_of(other), 16, e.flipped()) == u16_at(prefix_of(record), 16, e),
        name_at(other, e.flipped()) == name_at(record, e),
        name_at(record, e) == CHUNK_PREFIX + LINK_SIZE * u16_at(prefix_of(record), 16, e),
{
    let fixed = prefix_of(record);
    let fixed2 = prefix_of(other);
    lemma_prefix_word(record, other, e, 0);
    lemma_prefix_word(record, other, e, 4);
    lemma_prefix_word(record, other, e, 8);
    lemma_prefix_word(record, other, e, 12);
    assert(fixed2[16] == fixed[17] && fixed2[17] == fixed[16]) by {
        reveal(chunk_mirror);
        assert(other[16] == record[chunk_mirror(record, e, 16)]);
        assert(other[17] == record[chunk_mirror(record, e, 17)]);
    }
    lemma_half_mirrored(fixed2, fixed, 16, e);
    lemma_half_kept(fixed, record, 16, e);
    lemma_half_kept(fixed2, other, 16, e.flipped());
}

/// The child links of such records are the same.
proof fn lemma_chunk_links_mirrored(record: Seq<u8>, other: Seq<u8>, e: Endian)
    requires
        record.len() >= CHUNK_PREFIX,
        other.len() == record.len(),
        name_at(record, e) <= record.len(),
        name_at(record, e) == CHUNK_PREFIX + LINK_SIZE * u16_at(prefix_of(record), 16, e),
        u16_at(prefix_of(other), 16, e.flipped()) == u16_at(prefix_of(record), 16, e),
        forall|o: int| 0 <= o < record.len() ==> #[trigger] other[o] == record[chunk_mirror(record, e, o)],
    ensures
        record_links(prefix_of(other), rest_of(other), e.flipped()) == record_links(
            prefix_of(record),
            rest_of(record),
            e,
        ),
{
    let count = u16_at(prefix_of(record), 16, e);
    assert forall|k: int| 0 <= k < count implies #[trigger] record_links(
        prefix_of(other),
        rest_of(other),
        e.flipped(),
    )[k] == record_links(prefix_of(record), rest_of(record), e)[k] by {
        lemma_link_word(record, other, e, 12 * k);
        lemma_link_word(record, other, e, 12 * k + 4);
        lemma_link_word(record, other, e, 12 * k + 8);
    }
    assert(record_links(prefix_of(other), rest_of(other), e.flipped()) =~= record_links(
        prefix_of(record),
        rest_of(record),
        e,
    ));
}

/// The header of the name of such records reads the same: the encoding
/// and the number of characters.
proof fn lemma_chunk_name_header(record: Seq<u8>, other: Seq<u8>, e: Endian, name: int)
    requires
        other.len() == record.len(),
        name == name_at(record, e),
        CHUNK_PREFIX <= name,
        name + NAME_HEADER <= record.len(),
        forall|o: int| 0 <= o < record.len() ==> #[trigger] other[o] == record[chunk_mirror(record, e, o)],
    ensures
        u16_at(other.skip(name), 0, e.flipped()) == u16_at(record.skip(name), 0, e),
        u16_at(record.skip(name), 0, e) == u16_at(record, name, e),
        other.skip(name)[2] == record.skip(name)[2],
        record.skip(name)[2] == record[name + 2],
{
    reveal(chunk_mirror);
    let rest = record.skip(name);
    let rest2 = other.skip(name);
    assert(other[name] == record[chunk_mirror(record, e, name)]);
    assert(other[name + 1] == record[chunk_mirror(record, e, name + 1)]);
    assert(other[name + 2] == record[chunk_mirror(record, e, name + 2)]);
    lemma_half_in_run(name, name);
    assert(rest2[0] == rest[1] && rest2[1] == rest[0] && rest2[2] == rest[2]);
    lemma_half_mirrored(rest2, rest, 0, e);
    lemma_half_kept(rest, record.skip(name), 0, e);
}

/// The characters of a name of single bytes are the same in such records.
proof fn lemma_chunk_name_bytes(record: Seq<u8>, other: Seq<u8>, e: Endian, name: int, chars: int)
    requires
        other.len() == record.len(),
        name == name_at(record, e),
        CHUNK_PREFIX <= name,
        0 <= chars,
        name + NAME_HEADER + chars <= record.len(),
        chars == record[name + 2],
        u16_at(record, name, e) == NAME_BYTES,
        forall|o: int| 0 <= o < record.len() ==> #[trigger] other[o] == record[chunk_mirror(record, e, o)],
    ensures
        other.skip(name).skip(NAME_HEADER as int).take(chars) == record.skip(name).skip(
            NAME_HEADER as int,
        ).take(chars),
{
    reveal(chunk_mirror);
    let text = record.skip(name).skip(NAME_HEADER as int);
    let text2 = other.skip(name).skip(NAME_HEADER as int);
    assert forall|j: int| 0 <= j < chars implies text2[j] == text[j] by {
        assert(other[name + 3 + j] == record[chunk_mirror(record, e, name + 3 + j)]);
    }
    assert(text2.take(chars) =~= text.take(chars));
}

/// The code units of a name of 16-bit characters are the same in such records.
proof fn lemma_chunk_name_units(record: Seq<u8>, other: Seq<u8>, e: Endian, name: int, chars: int)
    requires
        other.len() == record.len(),
        name == name_at(record, e),
        CHUNK_PREFIX <= name,
        0 <= chars,
        name + NAME_HEADER + 2 * chars <= record.len(),
        chars == record[name + 2],
        u16_at(record, name, e) == NAME_UTF16,
        forall|o: int| 0 <= o < record.len() ==> #[trigger] other[o] == record[chunk_mirror(record, e, o)],
    ensures
        name_units(other.skip(name).skip(NAME_HEADER as int), chars, e.flipped()) == name_units(
            record.skip(name).skip(NAME_HEADER as int),
            chars,
            e,
        ),
{
    let text = record.skip(name).skip(NAME_HEADER as int);
    let text2 = other.skip(name).skip(NAME_HEADER as int);
    assert forall|k: int| 0 <= k < chars implies #[trigger] name_units(text2, chars, e.flipped())[k]
        == name_units(text, chars, e)[k] by {
        let o = name + 3 + 2 * k;
        lemma_half_in_run(name + 3, o);
        assert(text2[2 * k] == text[2 * k + 1] && text2[2 * k + 1] == text[2 * k]) by {
            reveal(chunk_mirror);
            assert(other[o] == record[chunk_mirror(record, e, o)]);
            assert(other[o + 1] == record[chunk_mirror(record, e, o + 1)]);
        }
        lemma_half_mirrored(text2, text, 2 * k, e);
    }
    assert(name_units(text2, chars, e.flipped()) =~= name_units(text, chars, e));
}

/// The names of such records read the same: they cannot be read for the
/// same reason, or spell the same.
proof fn lemma_chunk_name_mirrored(record: Seq<u8>, other: Seq<u8>, e: Endian)
    requires
        record.len() >= CHUNK_PREFIX,
        other.len() == record.len(),
        name_at(record, e) <= record.len(),
        name_at(record, e) == CHUNK_PREFIX + LINK_SIZE * u16_at(prefix_of(record), 16, e),
        u16_at(prefix_of(other), 16, e.flipped()) == u16_at(prefix_of(record), 16, e),
        forall|o: int| 0 <= o < record.len() ==> #[trigger] other[o] == record[chunk_mirror(record, e, o)],
    ensures
        name_of(record_rest(prefix_of(other), rest_of(other), e.flipped()), e.flipped()) == name_of(
            record_rest(prefix_of(record), rest_of(record), e),
            e,
        ),
{
    let f = e.flipped();
    let name = name_at(record, e);
    let rest = record_rest(prefix_of(record), rest_of(record), e);
    let rest2 = record_rest(prefix_of(other), rest_of(other), f);
    assert(rest =~= record.skip(name));
    assert(rest2 =~= other.skip(name));
    if rest.len() >= NAME_HEADER {
        lemma_chunk_name_header(record, other, e, name);
        let chars = rest[2] as int;
        let text = rest.skip(NAME_HEADER as int);
        if u16_at(rest, 0, e) == NAME_BYTES {
            if text.len() >= chars {
                lemma_chunk_name_bytes(record, other, e, name, chars);
            }
        } else if u16_at(rest, 0, e) == NAME_UTF16 {
            if text.len() >= 2 * chars {
                lemma_chunk_name_units(record, other, e, name, chars);
            }
        }
    }
}

/// An index record that holds a whole prefix and the record whose bytes
/// lie where `chunk_mirror` says read the same, each in its byte order: they
/// are rejected for the same reason, or say the same of their chunk.
proof fn lemma_chunk_mirrored(record: Seq<u8>, other: Seq<u8>, e: Endian)
    requires
        record.len() >= CHUNK_PREFIX,
        other.len() == record.len(),
        forall|o: int| 0 <= o < record.len() ==> #[trigger] other[o] == record[chunk_mirror(record, e, o)],
    ensures
        record_id(prefix_of(other), e.flipped()) == record_id(prefix_of(record), e),
        u32_at(prefix_of(other), 8, e.flipped()) == u32_at(prefix_of(record), 8, e),
        u32_at(prefix_of(other), 12, e.flipped()) == u32_at(prefix_of(record), 12, e),
        u16_at(prefix_of(other), 16, e.flipped()) == u16_at(prefix_of(record), 16, e),
        record_error(prefix_of(other), rest_of(other), e.flipped()) == record_error(
            prefix_of(record),
            rest_of(record),
            e,
        ),
        record_error(prefix_of(record), rest_of(record), e).is_none() ==> record_links(
            prefix_of(other),
            rest_of(other),
            e.flipped(),
        ) == record_links(prefix_of(record), rest_of(record), e) && name_of(
            record_rest(prefix_of(other), rest_of(other), e.flipped()),
            e.flipped(),
        ) == name_of(record_rest(prefix_of(record), rest_of(record), e), e),
{
    lemma_chunk_prefix_mirrored(record, other, e);
    if rest_of(record).len() >= LINK_SIZE * u16_at(prefix_of(record), 16, e) {
        lemma_chunk_name_mirrored(record, other, e);
        lemma_chunk_links_mirrored(record, other, e);
    }
}

/// One of the first four numbers of the prefix reads the same.
proof fn lemma_prefix_word(record: Seq<u8>, other: Seq<u8>, e: Endian, at: int)
    requires
        record.len() >= CHUNK_PREFIX,
        other.len() == record.len(),
        forall|o: int| 0 <= o < record.len() ==> #[trigger] other[o] == record[chunk_mirror(record, e, o)],
        at == 0 || at == 4 || at == 8 || at == 12,
    ensures
        u32_at(prefix_of(other), at, e.flipped()) == u32_at(prefix_of(record), at, e),
{
    reveal(chunk_mirror);
    lemma_word_in_run(0, at);
    assert(other[at] == record[chunk_mirror(record, e, at)]);
    assert(other[at + 1] == record[chunk_mirror(record, e, at + 1)]);
    assert(other[at + 2] == record[chunk_mirror(record, e, at + 2)]);
    assert(other[at + 3] == record[chunk_mirror(record, e, at + 3)]);
    let fixed = prefix_of(record);
    let fixed2 = prefix_of(other);
    assert(fixed2[at] == fixed[at + 3] && fixed2[at + 1] == fixed[at + 2] && fixed2[at + 2] == fixed[at + 1]
        && fixed2[at + 3] == fixed[at]);
    lemma_word_mirrored(fixed2, fixed, at, e);
}

/// One number of a child link reads the same.
proof fn lemma_link_word(record: Seq<u8>, other: Seq<u8>, e: Endian, at: int)
    requires
        record.len() >= CHUNK_PREFIX,
        other.len() == record.len(),
        forall|o: int| 0 <= o < record.len() ==> #[trigger] other[o] == record[chunk_mirror(record, e, o)],
        0 <= at,
        at % 4 == 0,
        CHUNK_PREFIX + at + 4 <= name_at(record, e) <= record.len(),
    ensures
        u32_at(rest_of(other), at, e.flipped()) == u32_at(rest_of(record), at, e),
{
    reveal(chunk_mirror);
    let o = CHUNK_PREFIX + at;
    lemma_word_in_run(CHUNK_PREFIX as int, o);
    assert(other[o] == record[chunk_mirror(record, e, o)]);
    assert(other[o + 1] == record[chunk_mirror(record, e, o + 1)]);
    assert(other[o + 2] == record[chunk_mirror(record, e, o + 2)]);
    assert(other[o + 3] == record[chunk_mirror(record, e, o + 3)]);
    let variable = rest_of(record);
    let variable2 = rest_of(other);
    assert(variable2[at] == variable[at + 3] && variable2[at + 1] == variable[at + 2] && variable2[at + 2]
        == variable[at + 1] && variable2[at + 3] == variable[at]);
    lemma_word_mirrored(variable2, variable, at, e);
}


/// The bytes of record `i` of the index.
pub open spec fn index_record(ix: Seq<u8>, e: Endian, i: int) -> Seq<u8> {
    record_bytes(ix, e, i)
}

/// Where the bytes of each record of the index lie in the other byte order.
pub open spec fn index_inner(ix: Seq<u8>, e: Endian) -> spec_fn(int, int) -> int {
    |i: int, o: int| chunk_mirror(index_record(ix, e, i), e, o)
}

/// The index as it is written in the other byte order.
pub open spec fn index_swapped(ix: Seq<u8>, e: Endian) -> Seq<u8> {
    group_swapped(ix, e, index_inner(ix, e))
}

/// What the counterpart of an accepted index whose records lie apart holds.
pub open spec fn index_agrees(ix: Seq<u8>, e: Endian, other: Seq<u8>) -> bool {
    let f = e.flipped();
    let n = index_header(ix, e).length_entries;
    &&& other.len() == ix.len()
    &&& u16_at(other, 0, f) == u16_at(ix, 0, e)
    &&& index_header(other, f).length_entries == n
    &&& index_error(other, f).is_none()
    &&& forall|i: int| 0 <= i < n ==> #[trigger] index_id(other, f, i) == index_id(ix, e, i)
    &&& forall|i: int, entry: IndexEntry|
        0 <= i < n ==> #[trigger] entry_describes(
            entry,
            index_header(other, f).fixed_of(other, i),
            index_header(other, f).variable_of(other, i),
            f,
        ) == entry_describes(
            entry,
            index_header(ix, e).fixed_of(ix, i),
            index_header(ix, e).variable_of(ix, i),
            e,
        )
}

/// Where no record among the first `n` is rejected, record `i` among them is not.
pub proof fn lemma_index_error_before(ix: Seq<u8>, e: Endian, i: int, n: int)
    requires
        0 <= i < n,
        index_records_error(ix, e, n).is_none(),
    ensures
        index_record_error(ix, e, i).is_none(),
    decreases n,
{
    if i < n - 1 {
        lemma_index_error_before(ix, e, i, n - 1);
    }
}

/// The prefix of record `i` and what follows it are the two parts of the
/// bytes of the record.
proof fn lemma_record_parts(ix: Seq<u8>, e: Endian, i: int)
    requires
        ix.len() >= GROUP_HEADER + index_header(ix, e).body_len(),
        0 <= i < index_header(ix, e).length_entries,
        index_header(ix, e).location_ok(ix, i),
    ensures
        index_header(ix, e).fixed_of(ix, i) == prefix_of(index_record(ix, e, i)),
        index_header(ix, e).variable_of(ix, i) == rest_of(index_record(ix, e, i)),
        index_record(ix, e, i).len() == index_header(ix, e).length_of(ix, i),
        index_record(ix, e, i).len() >= CHUNK_PREFIX,
{
    let record = index_record(ix, e, i);
    assert(index_header(ix, e).fixed_of(ix, i) =~= prefix_of(record));
    assert(index_header(ix, e).variable_of(ix, i) =~= rest_of(record));
}

/// The records of an index that is accepted as a group lie within its
/// record region.
proof fn lemma_index_within(ix: Seq<u8>, e: Endian)
    requires
        index_located(ix, e),
    ensures
        records_within(GroupOnFile::of(ix, e), ix),
        ix.len() >= GROUP_HEADER + index_header(ix, e).body_len(),
        forall|i: int|
            0 <= i < index_header(ix, e).length_entries ==> #[trigger] index_header(ix, e).location_ok(
                ix,
                i,
            ),
{
    let on_file = GroupOnFile::of(ix, e);
    let header = index_header(ix, e);
    lemma_accepted_within(header, ix);
    assert forall|k: int| 0 <= k < on_file.length_entries implies #[trigger] on_file.offset_of(ix, k)
        + on_file.length_of(ix, k) <= on_file.data_length_bytes by {
        assert(header.offset_of(ix, k) + header.length_of(ix, k) <= header.data_length_bytes);
    }
    assert forall|i: int| 0 <= i < header.length_entries implies #[trigger] header.location_ok(ix, i) by {}
}

/// The bytes of record `i` of the counterpart of an index that is accepted
/// as a group lie where `chunk_mirror` says.
proof fn lemma_index_record_bytes(ix: Seq<u8>, e: Endian, i: int)
    requires
        ix.len() >= GROUP_HEADER,
        index_located(ix, e),
        records_apart(GroupOnFile::of(ix, e), ix),
        0 <= i < index_header(ix, e).length_entries,
    ensures
        ({
            let other = index_swapped(ix, e);
            let f = e.flipped();
            let record = index_record(ix, e, i);
            let record2 = index_record(other, f, i);
            &&& other.len() == ix.len()
            &&& index_header(other, f).length_entries == index_header(ix, e).length_entries
            &&& index_header(other, f).data_length_bytes == index_header(ix, e).data_length_bytes
            &&& index_header(other, f).location_ok(other, i)
            &&& record2.len() == record.len()
            &&& forall|o: int| 0 <= o < record.len() ==> #[trigger] record2[o] == record[chunk_mirror(record, e, o)]
        }),
{
    let f = e.flipped();
    let inner = index_inner(ix, e);
    let other = index_swapped(ix, e);
    let record = index_record(ix, e, i);
    let record2 = index_record(other, f, i);
    lemma_index_inner_within(ix, e);
    lemma_index_within(ix, e);
    lemma_group_record_swapped(ix, e, inner, i);
    assert(record_agrees(ix, e, inner, other, i));
    lemma_record_parts(ix, e, i);
    assert forall|o: int| 0 <= o < record.len() implies #[trigger] record2[o] == record[chunk_mirror(
        record,
        e,
        o,
    )] by {
        assert(record_bytes(other, f, i)[o] == record_bytes(ix, e, i)[inner(i, o)]);
    }
}

/// Record `i` of an index that is accepted as a group and of its
/// counterpart say the same: they are rejected for the same reason, or
/// describe the same chunk in the same way.
proof fn lemma_index_record_swapped(ix: Seq<u8>, e: Endian, i: int)
    requires
        ix.len() >= GROUP_HEADER,
        index_located(ix, e),
        records_apart(GroupOnFile::of(ix, e), ix),
        0 <= i < index_header(ix, e).length_entries,
    ensures
        ({
            let other = index_swapped(ix, e);
            let f = e.flipped();
            &&& index_id(other, f, i) == index_id(ix, e, i)
            &&& index_record_error(other, f, i) == index_record_error(ix, e, i)
            &&& index_header(other, f).location_ok(other, i)
            &&& index_record_error(ix, e, i).is_none() ==> forall|entry: IndexEntry| #[trigger]
                entry_describes(
                    entry,
                    index_header(other, f).fixed_of(other, i),
                    index_header(other, f).variable_of(other, i),
                    f,
                ) == entry_describes(
                    entry,
                    index_header(ix, e).fixed_of(ix, i),
                    index_header(ix, e).variable_of(ix, i),
                    e,
                )
        }),
{
    let f = e.flipped();
    let other = index_swapped(ix, e);
    lemma_index_within(ix, e);
    lemma_index_record_bytes(ix, e, i);
    lemma_record_parts(ix, e, i);
    lemma_record_parts(other, f, i);
    lemma_chunk_mirrored(index_record(ix, e, i), index_record(other, f, i), e);
}

/// Where two indexes reject the same records among the first `n` for the
/// same reasons, the first rejection among them is the same.
pub proof fn lemma_index_records_error_same(a: Seq<u8>, ea: Endian, b: Seq<u8>, eb: Endian, n: int)
    requires
        forall|i: int| 0 <= i < n ==> #[trigger] index_record_error(b, eb, i) == index_record_error(a, ea, i),
    ensures
        index_records_error(b, eb, n) == index_records_error(a, ea, n),
    decreases n,
{
    if n > 0 {
        lemma_index_records_error_same(a, ea, b, eb, n - 1);
    }
}

/// The counterpart of an index that is accepted as a group and whose
/// records lie apart is as long, carries the mark of the other byte order,
/// and is rejected where the index is, for the same reason.
pub proof fn lemma_index_error_swapped(ix: Seq<u8>, e: Endian)
    requires
        ix.len() >= GROUP_HEADER,
        index_located(ix, e),
        records_apart(GroupOnFile::of(ix, e), ix),
    ensures
        index_swapped(ix, e).len() == ix.len(),
        u16_at(index_swapped(ix, e), 0, e.flipped()) == u16_at(ix, 0, e),
        index_header(index_swapped(ix, e), e.flipped()).length_entries == index_header(ix, e).length_entries,
        index_located(index_swapped(ix, e), e.flipped()),
        index_error(index_swapped(ix, e), e.flipped()) == index_error(ix, e),
{
    let f = e.flipped();
    let other = index_swapped(ix, e);
    let header2 = index_header(other, f);
    let n = index_header(ix, e).length_entries as int;
    lemma_index_within(ix, e);
    lemma_group_swapped(ix, e, index_inner(ix, e));
    assert(header2.length_entries == n);
    assert(other.len() >= GROUP_HEADER + header2.body_len());
    assert forall|i: int| 0 <= i < n implies #[trigger] header2.location_ok(other, i) by {
        lemma_index_record_swapped(ix, e, i);
    }
    assert(header2.error(other).is_none());
    assert forall|i: int| 0 <= i < n implies #[trigger] index_record_error(other, f, i) == index_record_error(
        ix,
        e,
        i,
    ) by {
        lemma_index_record_swapped(ix, e, i);
    }
    lemma_index_records_error_same(ix, e, other, f, n);
}

/// The counterpart of an accepted index whose records lie apart is accepted
/// and says the same of every chunk.
pub proof fn lemma_index_swapped(ix: Seq<u8>, e: Endian)
    requires
        ix.len() >= GROUP_HEADER,
        index_error(ix, e).is_none(),
        records_apart(GroupOnFile::of(ix, e), ix),
    ensures
        index_agrees(ix, e, index_swapped(ix, e)),
{
    let f = e.flipped();
    let other = index_swapped(ix, e);
    let n = index_header(ix, e).length_entries as int;
    lemma_index_error_swapped(ix, e);
    assert forall|i: int| 0 <= i < n implies #[trigger] index_id(other, f, i) == index_id(ix, e, i) by {
        lemma_index_record_swapped(ix, e, i);
    }
    assert forall|i: int, entry: IndexEntry| 0 <= i < n implies #[trigger] entry_describes(
        entry,
        index_header(other, f).fixed_of(other, i),
        index_header(other, f).variable_of(other, i),
        f,
    ) == entry_describes(entry, index_header(ix, e).fixed_of(ix, i), index_header(ix, e).variable_of(ix, i), e) by {
        lemma_index_error_before(ix, e, i, n);
        lemma_index_record_swapped(ix, e, i);
    }
}

/// A map holds what an index says exactly if it holds what an index that
/// agrees with it says.
pub proof fn lemma_index_holds_agree(map: Map<u64, IndexEntry>, ix: Seq<u8>, e: Endian, other: Seq<u8>)
    requires
        index_agrees(ix, e, other),
    ensures
        index_holds(map, other, e.flipped(), index_header(ix, e).length_entries as int) == index_holds(
            map,
            ix,
            e,
            index_header(ix, e).length_entries as int,
        ),
{
    let f = e.flipped();
    let n = index_header(ix, e).length_entries as int;
    assert forall|i: int| 0 <= i < n implies is_last_of_chunk(other, f, i, n) == is_last_of_chunk(ix, e, i, n) by {
        if is_last_of_chunk(ix, e, i, n) {
            assert forall|j: int| i < j < n implies #[trigger] index_id(other, f, j) != index_id(other, f, i) by {
                assert(index_id(ix, e, j) != index_id(ix, e, i));
            }
        }
        if is_last_of_chunk(other, f, i, n) {
            assert forall|j: int| i < j < n implies #[trigger] index_id(ix, e, j) != index_id(ix, e, i) by {
                assert(index_id(other, f, j) != index_id(other, f, i));
            }
        }
    }
    if index_holds(map, ix, e, n) {
        assert forall|k: u64| #[trigger] map.contains_key(k) <==> exists|i: int|
            0 <= i < n && #[trigger] index_id(other, f, i).spec_key() == k by {
            if map.contains_key(k) {
                let i = choose|i: int| 0 <= i < n && #[trigger] index_id(ix, e, i).spec_key() == k;
                assert(index_id(other, f, i).spec_key() == k);
            }
            if exists|i: int| 0 <= i < n && #[trigger] index_id(other, f, i).spec_key() == k {
                let i = choose|i: int| 0 <= i < n && #[trigger] index_id(other, f, i).spec_key() == k;
                assert(index_id(ix, e, i).spec_key() == k);
            }
        }
        assert forall|i: int| 0 <= i < n && is_last_of_chunk(other, f, i, n) implies entry_describes(
            map[#[trigger] index_id(other, f, i).spec_key()],
            index_header(other, f).fixed_of(other, i),
            index_header(other, f).variable_of(other, i),
            f,
        ) by {
            assert(is_last_of_chunk(ix, e, i, n));
            let entry = map[index_id(ix, e, i).spec_key()];
            assert(entry_describes(
                entry,
                index_header(ix, e).fixed_of(ix, i),
                index_header(ix, e).variable_of(ix, i),
                e,
            ));
        }
        assert(index_holds(map, other, f, n));
    }
    if index_holds(map, other, f, n) {
        assert forall|k: u64| #[trigger] map.contains_key(k) <==> exists|i: int|
            0 <= i < n && #[trigger] index_id(ix, e, i).spec_key() == k by {
            if map.contains_key(k) {
                let i = choose|i: int| 0 <= i < n && #[trigger] index_id(other, f, i).spec_key() == k;
                assert(index_id(ix, e, i).spec_key() == k);
            }
            if exists|i: int| 0 <= i < n && #[trigger] index_id(ix, e, i).spec_key() == k {
                let i = choose|i: int| 0 <= i < n && #[trigger] index_id(ix, e, i).spec_key() == k;
                assert(index_id(other, f, i).spec_key() == k);
            }
        }
        assert forall|i: int| 0 <= i < n && is_last_of_chunk(ix, e, i, n) implies entry_describes(
            map[#[trigger] index_id(ix, e, i).spec_key()],
            index_header(ix, e).fixed_of(ix, i),
            index_header(ix, e).variable_of(ix, i),
            e,
        ) by {
            assert(is_last_of_chunk(other, f, i, n));
            let entry = map[index_id(other, f, i).spec_key()];
            assert(entry_describes(
                entry,
                index_header(other, f).fixed_of(other, i),
                index_header(other, f).variable_of(other, i),
                f,
            ));
        }
        assert(index_holds(map, ix, e, n));
    }
}


/// Where byte `o` of the archive prefix lies in the other byte order: the
/// magic number and the creator, four fields of two bytes, four of four; the
/// rest is not read.
pub open spec fn prefix_mirror(o: int) -> int {
    if o < 8 {
        mirrored(o, 0, 4)
    } else if o < 16 {
        mirrored(o, 8, 2)
    } else if o < 32 {
        mirrored(o, 16, 4)
    } else {
        o
    }
}

/// The byte order of the index of an archive, which has a mark of its own.
pub open spec fn index_order(input: Seq<u8>, e: Endian) -> Endian {
    mark_of(Prefix::of(input, e).index_of(input), 0).unwrap()
}

/// Where byte `p` of an archive lies in the other byte order. Only the
/// prefix and the index are swapped: the payload of a chunk is a record with
/// a byte order of its own.
pub open spec fn archive_mirror(input: Seq<u8>, e: Endian, p: int) -> int {
    let prefix = Prefix::of(input, e);
    let ix = prefix.index_of(input);
    if p < PREFIX_SIZE {
        prefix_mirror(p)
    } else if prefix.index_offset <= p < prefix.index_offset + prefix.index_len {
        prefix.index_offset + group_mirror(
            ix,
            index_order(input, e),
            index_inner(ix, index_order(input, e)),
            p - prefix.index_offset,
        )
    } else {
        p
    }
}

/// The archive with its prefix and its index written in the other byte order.
pub open spec fn archive_swapped(input: Seq<u8>, e: Endian) -> Seq<u8> {
    permuted(input, |p: int| archive_mirror(input, e, p))
}

/// The archive is read as far as the records of its index: its prefix is
/// accepted, its index lies within it, carries a known mark and is accepted
/// as a group.
pub open spec fn index_is_read(input: Seq<u8>, e: Endian) -> bool {
    let prefix = Prefix::of(input, e);
    let ix = prefix.index_of(input);
    &&& prefix.magic == MAGIC
    &&& prefix.spec_is_readable()
    &&& input.len() >= prefix.index_offset + prefix.index_len
    &&& ix.len() >= GROUP_HEADER
    &&& mark_of(ix, 0).is_some()
    &&& index_located(ix, index_order(input, e))
}

/// No byte of the index that the archive is read from belongs to the
/// prefix: the index starts after the prefix, or it is not read because it
/// does not lie within the archive or is too short to hold a header.
pub open spec fn index_clear_of_prefix(input: Seq<u8>, e: Endian) -> bool {
    let prefix = Prefix::of(input, e);
    ||| prefix.index_offset >= PREFIX_SIZE
    ||| input.len() < prefix.index_offset + prefix.index_len
    ||| prefix.index_len < GROUP_HEADER
}

/// The archive as it is written in the other byte order, whether it is
/// accepted or not. Where the archive is read as far as the records of its
/// index, the prefix and the index are written in the other byte order.
/// Where it is rejected before that, only the prefix is: the index has a
/// mark of its own and is read as that mark says.
pub open spec fn archive_counterpart(input: Seq<u8>, e: Endian) -> Seq<u8> {
    if index_is_read(input, e) {
        archive_swapped(input, e)
    } else {
        prefix_swapped(input)
    }
}

/// The archive has a counterpart: no byte of it belongs to two fields. The
/// index does not reach into the prefix, and no byte of the index belongs to
/// two records.
pub open spec fn archive_swappable(input: Seq<u8>, e: Endian) -> bool {
    let prefix = Prefix::of(input, e);
    let ix = prefix.index_of(input);
    &&& index_clear_of_prefix(input, e)
    &&& index_is_read(input, e) ==> records_apart(GroupOnFile::of(ix, index_order(input, e)), ix)
}

/// A number of four bytes of a prefix whose bytes lie where `prefix_mirror`
/// says reads the same in the other byte order.
proof fn lemma_prefix_mirror_word(input: Seq<u8>, other: Seq<u8>, e: Endian, at: int)
    requires
        forall|o: int| 0 <= o < PREFIX_SIZE ==> #[trigger] other[o] == input[prefix_mirror(o)],
        at == 0 || at == 4 || at == 16 || at == 20 || at == 24 || at == 28,
    ensures
        u32_at(other, at, e.flipped()) == u32_at(input, at, e),
{
    assert(other[at] == input[prefix_mirror(at)]);
    assert(other[at + 1] == input[prefix_mirror(at + 1)]);
    assert(other[at + 2] == input[prefix_mirror(at + 2)]);
    assert(other[at + 3] == input[prefix_mirror(at + 3)]);
    lemma_word_mirrored(other, input, at, e);
}

/// A number of two bytes of such a prefix reads the same in the other byte order.
proof fn lemma_prefix_mirror_half(input: Seq<u8>, other: Seq<u8>, e: Endian, at: int)
    requires
        forall|o: int| 0 <= o < PREFIX_SIZE ==> #[trigger] other[o] == input[prefix_mirror(o)],
        at == 8 || at == 10 || at == 12,
    ensures
        u16_at(other, at, e.flipped()) == u16_at(input, at, e),
{
    assert(other[at] == input[prefix_mirror(at)]);
    assert(other[at + 1] == input[prefix_mirror(at + 1)]);
    lemma_half_mirrored(other, input, at, e);
}

/// A prefix whose bytes lie where `prefix_mirror` says reads the same in
/// the other byte order.
proof fn lemma_prefix_mirrored(input: Seq<u8>, other: Seq<u8>, e: Endian)
    requires
        forall|o: int| 0 <= o < PREFIX_SIZE ==> #[trigger] other[o] == input[prefix_mirror(o)],
    ensures
        Prefix::of(other, e.flipped()) == Prefix::of(input, e),
        u16_at(other, 12, e.flipped()) == u16_at(input, 12, e),
{
    lemma_prefix_mirror_word(input, other, e, 0);
    lemma_prefix_mirror_word(input, other, e, 4);
    lemma_prefix_mirror_half(input, other, e, 8);
    lemma_prefix_mirror_half(input, other, e, 10);
    lemma_prefix_mirror_half(input, other, e, 12);
    lemma_prefix_mirror_word(input, other, e, 16);
    lemma_prefix_mirror_word(input, other, e, 20);
    lemma_prefix_mirror_word(input, other, e, 24);
    lemma_prefix_mirror_word(input, other, e, 28);
}

/// The prefix of an archive and of its counterpart read the same.
proof fn lemma_prefix_swapped(input: Seq<u8>, e: Endian)
    requires
        input.len() >= PREFIX_SIZE,
    ensures
        archive_swapped(input, e).len() == input.len(),
        Prefix::of(archive_swapped(input, e), e.flipped()) == Prefix::of(input, e),
        u16_at(archive_swapped(input, e), 12, e.flipped()) == u16_at(input, 12, e),
{
    let other = archive_swapped(input, e);
    lemma_permuted(input, |p: int| archive_mirror(input, e, p));
    assert forall|o: int| 0 <= o < PREFIX_SIZE implies #[trigger] other[o] == input[prefix_mirror(o)] by {
        assert(archive_mirror(input, e, o) == prefix_mirror(o));
    }
    lemma_prefix_mirrored(input, other, e);
}

/// Every record of an index that is accepted as a group keeps its bytes
/// within itself in the other byte order.
proof fn lemma_index_inner_within(ix: Seq<u8>, order: Endian)
    requires
        ix.len() >= GROUP_HEADER,
        index_located(ix, order),
    ensures
        records_within(GroupOnFile::of(ix, order), ix),
        forall|i: int, o: int|
            0 <= i < GroupOnFile::of(ix, order).length_entries && 0 <= o < GroupOnFile::of(
                ix,
                order,
            ).length_of(ix, i) ==> 0 <= #[trigger] index_inner(ix, order)(i, o) < GroupOnFile::of(
                ix,
                order,
            ).length_of(ix, i),
{
    let inner = index_inner(ix, order);
    lemma_index_within(ix, order);
    assert forall|i: int, o: int|
        0 <= i < GroupOnFile::of(ix, order).length_entries && 0 <= o < GroupOnFile::of(ix, order).length_of(
            ix,
            i,
        ) implies 0 <= #[trigger] inner(i, o) < GroupOnFile::of(ix, order).length_of(ix, i) by {
        lemma_record_parts(ix, order, i);
        lemma_chunk_mirror_within(index_record(ix, order, i), order, o);
    }
}

/// A byte of the index of the counterpart of an archive is the byte of the
/// counterpart of the index.
proof fn lemma_index_region_byte(input: Seq<u8>, start: int, ix: Seq<u8>, order: Endian, other: Seq<u8>, q: int)
    requires
        0 <= start,
        start + ix.len() <= input.len(),
        ix == input.subrange(start, start + ix.len()),
        ix.len() >= GROUP_HEADER,
        index_located(ix, order),
        0 <= q < ix.len(),
        other.len() == input.len(),
        other[start + q] == input[start + group_mirror(ix, order, index_inner(ix, order), q)],
    ensures
        other[start + q] == index_swapped(ix, order)[q],
{
    let inner = index_inner(ix, order);
    lemma_permuted(ix, |q: int| group_mirror(ix, order, inner, q));
    lemma_index_inner_within(ix, order);
    lemma_group_mirror_within(ix, order, inner, q);
    let m = group_mirror(ix, order, inner, q);
    assert(ix[m] == input[start + m]);
}

/// The index of the counterpart of an archive is the counterpart of its index.
proof fn lemma_index_region_swapped(input: Seq<u8>, e: Endian)
    requires
        input.len() >= PREFIX_SIZE,
        index_is_read(input, e),
        Prefix::of(input, e).index_offset >= PREFIX_SIZE,
    ensures
        Prefix::of(input, e).index_of(archive_swapped(input, e)) == index_swapped(
            Prefix::of(input, e).index_of(input),
            index_order(input, e),
        ),
{
    let prefix = Prefix::of(input, e);
    let ix = prefix.index_of(input);
    let order = index_order(input, e);
    let other = archive_swapped(input, e);
    let start = prefix.index_offset as int;
    lemma_permuted(input, |p: int| archive_mirror(input, e, p));
    lemma_permuted(ix, |q: int| group_mirror(ix, order, index_inner(ix, order), q));
    assert(ix.len() == prefix.index_len);
    assert forall|q: int| 0 <= q < ix.len() implies #[trigger] prefix.index_of(other)[q] == index_swapped(
        ix,
        order,
    )[q] by {
        assert(archive_mirror(input, e, start + q) == start + group_mirror(
            ix,
            order,
            index_inner(ix, order),
            q,
        ));
        assert(other[start + q] == input[archive_mirror(input, e, start + q)]);
        lemma_index_region_byte(input, start, ix, order, other, q);
    }
    assert(prefix.index_of(other) =~= index_swapped(ix, order));
}

/// The mark of a counterpart announces the other byte order.
proof fn lemma_mark_flipped(a: Seq<u8>, b: Seq<u8>, at: int, e: Endian)
    requires
        mark_of(a, at) == Some(e),
        u16_at(b, at, e.flipped()) == u16_at(a, at, e),
    ensures
        mark_of(b, at) == Some(e.flipped()),
{
}

/// The counterpart of an archive that is read as far as the records of
/// its index is read as far, its index is the counterpart of the index of the
/// archive, and it is rejected where the archive is, for the same reason.
proof fn lemma_archive_located(input: Seq<u8>, e: Endian)
    requires
        input.len() >= PREFIX_SIZE,
        index_is_read(input, e),
        archive_swappable(input, e),
    ensures
        ({
            let other = archive_swapped(input, e);
            let ix = Prefix::of(input, e).index_of(input);
            let order = index_order(input, e);
            &&& other.len() == input.len()
            &&& u16_at(other, 12, e.flipped()) == u16_at(input, 12, e)
            &&& Prefix::of(other, e.flipped()).index_of(other) == index_swapped(ix, order)
            &&& index_order(other, e.flipped()) == order.flipped()
            &&& archive_error(other, e.flipped()) == archive_error(input, e)
        }),
{
    let prefix = Prefix::of(input, e);
    let ix = prefix.index_of(input);
    let order = index_order(input, e);
    let other = archive_swapped(input, e);
    let ix2 = index_swapped(ix, order);
    lemma_prefix_swapped(input, e);
    lemma_index_region_swapped(input, e);
    assert(mark_of(ix, 0) == Some(order));
    lemma_index_error_swapped(ix, order);
    assert(Prefix::of(other, e.flipped()) == prefix);
    assert(Prefix::of(other, e.flipped()).index_of(other) == ix2);
    lemma_mark_flipped(ix, ix2, 0, order);
}

/// Loading an archive does not depend on the byte order that the archive
/// is written in: an archive and its counterpart in the other byte order are
/// rejected for the same reason, or are both accepted, and then a map holds
/// what the index of the one says exactly if it holds what the index of the
/// other says.
pub proof fn lemma_archive_symmetry(input: Seq<u8>, e: Endian, map: Map<u64, IndexEntry>)
    requires
        input.len() >= PREFIX_SIZE,
        archive_swappable(input, e),
    ensures
        ({
            let other = archive_counterpart(input, e);
            let ix = Prefix::of(input, e).index_of(input);
            let ix2 = Prefix::of(other, e.flipped()).index_of(other);
            let order = index_order(input, e);
            &&& other.len() == input.len()
            &&& u16_at(other, 12, e.flipped()) == u16_at(input, 12, e)
            &&& archive_error(other, e.flipped()) == archive_error(input, e)
            &&& archive_error(input, e).is_none() ==> {
                &&& index_order(other, e.flipped()) == order.flipped()
                &&& index_header(ix2, order.flipped()).length_entries == index_header(ix, order).length_entries
                &&& index_holds(map, ix2, order.flipped(), index_header(ix, order).length_entries as int)
                    == index_holds(map, ix, order, index_header(ix, order).length_entries as int)
            }
        }),
{
    let ix = Prefix::of(input, e).index_of(input);
    let order = index_order(input, e);
    if index_is_read(input, e) {
        lemma_archive_located(input, e);
        if archive_error(input, e).is_none() {
            lemma_index_swapped(ix, order);
            lemma_index_holds_agree(map, ix, order, index_swapped(ix, order));
        }
    } else {
        lemma_prefix_symmetry(input, e);
    }
}

/// `r` and `other` are the same outcome but for the bytes that an archive
/// holds on to: the same error, or archives with the same index and the same
/// identifiers.
pub open spec fn same_apart_from_source<'a>(r: Result<ChunkyFile<'a>, Error>, other: Result<ChunkyFile<'a>, Error>) -> bool {
    match (r, other) {
        (Ok(a), Ok(b)) => a.spec_index() == b.spec_index() && a.spec_ids() == b.spec_ids(),
        (Err(a), Err(b)) => a == b,
        _ => false,
    }
}

/// `r` is an error, or an archive that holds on to the bytes `input`.
pub open spec fn holds_on_to<'a>(r: Result<ChunkyFile<'a>, Error>, input: Seq<u8>) -> bool {
    match r {
        Ok(file) => file.source() == input,
        Err(_) => true,
    }
}

/// Loading does not depend on the byte order that an archive is written
/// in: what an archive loads to, its counterpart in the other byte order
/// loads to as well, but for the bytes that the loaded archive holds on to,
/// which are those it was loaded from.
pub proof fn lemma_archive_loads_alike<'a>(
    input: Seq<u8>,
    e: Endian,
    r: Result<ChunkyFile<'a>, Error>,
    other: Result<ChunkyFile<'a>, Error>,
)
    requires
        input.len() >= PREFIX_SIZE,
        mark_of(input, 12) == Some(e),
        archive_swappable(input, e),
        same_apart_from_source(r, other),
        holds_on_to(r, input),
        holds_on_to(other, archive_counterpart(input, e)),
    ensures
        mark_of(archive_counterpart(input, e), 12) == Some(e.flipped()),
        loads_to::<ChunkyFile<'a>>(archive_counterpart(input, e), other) == loads_to::<ChunkyFile<'a>>(input, r),
{
    let swapped = archive_counterpart(input, e);
    match r {
        Ok(file) => {
            lemma_archive_symmetry(input, e, file.spec_index());
        },
        Err(_) => {
            lemma_archive_symmetry(input, e, Map::empty());
        },
    }
    lemma_mark_flipped(input, swapped, 12, e);
}

/// The archive with only its prefix written in the other byte order. The
/// index has a mark of its own and is read as that mark says, whatever byte
/// order the prefix is written in.
pub open spec fn prefix_swapped(input: Seq<u8>) -> Seq<u8> {
    permuted(input, |p: int| prefix_mirror(p))
}

/// Loading an archive does not depend on the byte order that its prefix is
/// written in: the archive and the archive whose prefix is written in the
/// other byte order are rejected for the same reason, or are both accepted
/// and have the same index.
pub proof fn lemma_prefix_symmetry(input: Seq<u8>, e: Endian)
    requires
        input.len() >= PREFIX_SIZE,
        index_clear_of_prefix(input, e),
    ensures
        ({
            let other = prefix_swapped(input);
            &&& other.len() == input.len()
            &&& u16_at(other, 12, e.flipped()) == u16_at(input, 12, e)
            &&& Prefix::of(other, e.flipped()) == Prefix::of(input, e)
            &&& archive_error(other, e.flipped()) == archive_error(input, e)
            &&& archive_error(input, e).is_none() ==> Prefix::of(other, e.flipped()).index_of(other)
                == Prefix::of(input, e).index_of(input)
        }),
{
    let other = prefix_swapped(input);
    let prefix = Prefix::of(input, e);
    lemma_permuted(input, |p: int| prefix_mirror(p));
    lemma_prefix_mirrored(input, other, e);
    if input.len() >= prefix.index_offset + prefix.index_len && prefix.index_len >= GROUP_HEADER {
        assert forall|p: int| PREFIX_SIZE <= p < input.len() implies #[trigger] other[p] == input[p] by {
            assert(prefix_mirror(p) == p);
        }
        assert(prefix.index_of(other) =~= prefix.index_of(input));
    }
}

} // verus!
