//! Groups: a header, a region of record bytes, and a table that says where
//! in the region each record lies. Every record starts with a prefix of one
//! fixed size; what follows the prefix varies in length.

use vstd::prelude::*;
use vstd::slice::slice_subrange;
use crate::error::Error;
use crate::order::{
    lemma_permuted, lemma_permuted_u16, lemma_permuted_u32, mirrored, permuted, read_u32, u16_at, u32_at, Endian,
};

verus! {

/// Size in bytes of the group header.
pub const GROUP_HEADER: usize = 20;

/// Size in bytes of one entry of the location table.
pub const LOCATION_SIZE: usize = 8;

/// The header of a group, and the byte order it was read in.
#[derive(Clone, Copy, Debug, PartialEq, Eq, Structural)]
pub struct GroupOnFile {
    pub order: Endian,
    pub length_entries: u32,
    pub data_length_bytes: u32,
    pub fixed: u32,
}

impl GroupOnFile {
    /// The header that `input` starts with, read in byte order `e`.
    pub open spec fn of(input: Seq<u8>, e: Endian) -> GroupOnFile {
        GroupOnFile {
            order: e,
            length_entries: u32_at(input, 4, e) as u32,
            data_length_bytes: u32_at(input, 8, e) as u32,
            fixed: u32_at(input, 16, e) as u32,
        }
    }

    /// Reads the header that `input` starts with.
    pub fn read(input: &[u8], e: Endian) -> (r: GroupOnFile)
        requires
            input@.len() >= GROUP_HEADER,
        ensures
            r == GroupOnFile::of(input@, e),
    {
        GroupOnFile {
            order: e,
            length_entries: read_u32(input, 4, e),
            data_length_bytes: read_u32(input, 8, e),
            fixed: read_u32(input, 16, e),
        }
    }

    /// Number of bytes that the record region and the location table take.
    pub open spec fn body_len(self) -> int {
        self.data_length_bytes + LOCATION_SIZE * self.length_entries
    }

    /// Where in `input` the location of record `i` is stored.
    pub open spec fn location_at(self, i: int) -> int {
        GROUP_HEADER + self.data_length_bytes + LOCATION_SIZE * i
    }

    /// Offset of record `i` in the record region.
    pub open spec fn offset_of(self, input: Seq<u8>, i: int) -> int {
        u32_at(input, self.location_at(i), self.order)
    }

    /// Length of record `i`, prefix included.
    pub open spec fn length_of(self, input: Seq<u8>, i: int) -> int {
        u32_at(input, self.location_at(i) + 4, self.order)
    }

    /// Record `i` lies within the record region and holds a whole prefix.
    pub open spec fn location_ok(self, input: Seq<u8>, i: int) -> bool {
        self.offset_of(input, i) + self.length_of(input, i) <= self.data_length_bytes && self.fixed
            <= self.length_of(input, i)
    }

    /// Why the group is rejected, if it is: `input` is shorter than the
    /// header says, or a record does not lie within the record region or is
    /// shorter than the prefix.
    pub open spec fn error(self, input: Seq<u8>) -> Option<Error> {
        if input.len() < GROUP_HEADER + self.body_len() {
            Some(Error::TruncatedPayload)
        } else if exists|i: int| 0 <= i < self.length_entries && !self.location_ok(input, i) {
            Some(Error::TruncatedPayload)
        } else {
            None
        }
    }

    /// The prefix of record `i`.
    pub open spec fn fixed_of(self, input: Seq<u8>, i: int) -> Seq<u8> {
        let start = GROUP_HEADER + self.offset_of(input, i);
        input.subrange(start, start + self.fixed)
    }

    /// What follows the prefix of record `i`.
    pub open spec fn variable_of(self, input: Seq<u8>, i: int) -> Seq<u8> {
        let start = GROUP_HEADER + self.offset_of(input, i);
        input.subrange(start + self.fixed, start + self.length_of(input, i))
    }
}

/// Offset of record `i` according to the location table `table`.
pub open spec fn table_offset(table: Seq<u8>, e: Endian, i: int) -> int {
    u32_at(table, LOCATION_SIZE * i, e)
}

/// Length of record `i` according to the location table `table`.
pub open spec fn table_length(table: Seq<u8>, e: Endian, i: int) -> int {
    u32_at(table, LOCATION_SIZE * i + 4, e)
}

/// The location table of the group behind `header` in `input`.
pub open spec fn table_of(header: GroupOnFile, input: Seq<u8>) -> Seq<u8> {
    input.subrange(
        GROUP_HEADER + header.data_length_bytes,
        GROUP_HEADER + header.data_length_bytes + LOCATION_SIZE * header.length_entries,
    )
}

/// The location table says of record `i` what the group says of it.
pub proof fn lemma_table_entry(header: GroupOnFile, input: Seq<u8>, i: int)
    requires
        input.len() >= GROUP_HEADER + header.body_len(),
        0 <= i < header.length_entries,
    ensures
        table_offset(table_of(header, input), header.order, i) == header.offset_of(input, i),
        table_length(table_of(header, input), header.order, i) == header.length_of(input, i),
{
    let table = table_of(header, input);
    let at = header.location_at(i);
    assert(table[8 * i] == input[at] && table[8 * i + 1] == input[at + 1] && table[8 * i + 2] == input[at + 2]
        && table[8 * i + 3] == input[at + 3]);
    assert(table[8 * i + 4] == input[at + 4] && table[8 * i + 5] == input[at + 5] && table[8 * i + 6] == input[at
        + 6] && table[8 * i + 7] == input[at + 7]);
}

/// The record region of the group behind `header` in `input`.
pub open spec fn region_of(header: GroupOnFile, input: Seq<u8>) -> Seq<u8> {
    input.subrange(GROUP_HEADER as int, GROUP_HEADER + header.data_length_bytes)
}

/// The location table of an accepted group names as many records as the
/// header counts, and each of them lies within the record region and holds a
/// whole prefix.
pub proof fn lemma_table_holds(header: GroupOnFile, input: Seq<u8>)
    requires
        input.len() >= GROUP_HEADER + header.body_len(),
        forall|k: int| 0 <= k < header.length_entries ==> header.location_ok(input, k),
    ensures
        table_of(header, input).len() as int % (LOCATION_SIZE as int) == 0,
        table_of(header, input).len() as int / (LOCATION_SIZE as int) == header.length_entries,
        forall|k: int|
            0 <= k < header.length_entries ==> #[trigger] table_offset(table_of(header, input), header.order, k)
                + table_length(table_of(header, input), header.order, k) <= header.data_length_bytes
                && header.fixed <= table_length(table_of(header, input), header.order, k),
{
    let table = table_of(header, input);
    assert(table.len() == 8 * header.length_entries);
    assert forall|k: int| 0 <= k < header.length_entries implies #[trigger] table_offset(
        table,
        header.order,
        k,
    ) + table_length(table, header.order, k) <= header.data_length_bytes && header.fixed <= table_length(
        table,
        header.order,
        k,
    ) by {
        lemma_table_entry(header, input, k);
        assert(header.location_ok(input, k));
    }
}

/// A record that lies within the record region reads the same from the
/// region as from the group.
pub proof fn lemma_record_of_region(header: GroupOnFile, input: Seq<u8>, i: int)
    requires
        input.len() >= GROUP_HEADER + header.body_len(),
        0 <= i < header.length_entries,
        header.location_ok(input, i),
    ensures
        ({
            let region = region_of(header, input);
            let offset = table_offset(table_of(header, input), header.order, i);
            let length = table_length(table_of(header, input), header.order, i);
            &&& region.subrange(offset, offset + header.fixed) == header.fixed_of(input, i)
            &&& region.subrange(offset + header.fixed, offset + length) == header.variable_of(input, i)
        }),
{
    lemma_table_entry(header, input, i);
    let region = region_of(header, input);
    let offset = header.offset_of(input, i);
    let length = header.length_of(input, i);
    assert(region.subrange(offset, offset + header.fixed) =~= header.fixed_of(input, i));
    assert(region.subrange(offset + header.fixed, offset + length) =~= header.variable_of(input, i));
}

/// One record of a group: its prefix and what follows it.
#[derive(Clone, Copy, Debug)]
pub struct GroupEntry<'a> {
    pub fixed: &'a [u8],
    pub variable: &'a [u8],
}

/// The records of a group, borrowed from the bytes they were found in.
#[derive(Clone, Copy, Debug)]
pub struct Group<'a> {
    fixed: usize,
    entries: &'a [u8],
    data: &'a [u8],
    order: Endian,
}

impl<'a> Group<'a> {
    #[verifier::type_invariant]
    spec fn inv(self) -> bool {
        &&& (self.entries@.len() as int) % (LOCATION_SIZE as int) == 0
        &&& forall|i: int|
            0 <= i < self.entries@.len() as int / (LOCATION_SIZE as int) ==> #[trigger] table_offset(
                self.entries@,
                self.order,
                i,
            ) + table_length(self.entries@, self.order, i) <= self.data@.len() && self.fixed
                <= table_length(self.entries@, self.order, i)
    }

    /// Number of records.
    pub closed spec fn spec_len(&self) -> int {
        self.entries@.len() as int / (LOCATION_SIZE as int)
    }

    closed spec fn offset(&self, i: int) -> int {
        table_offset(self.entries@, self.order, i)
    }

    closed spec fn length(&self, i: int) -> int {
        table_length(self.entries@, self.order, i)
    }

    /// The prefix of record `i`.
    pub closed spec fn fixed_of(&self, i: int) -> Seq<u8> {
        self.data@.subrange(self.offset(i), self.offset(i) + self.fixed)
    }

    /// What follows the prefix of record `i`.
    pub closed spec fn variable_of(&self, i: int) -> Seq<u8> {
        self.data@.subrange(self.offset(i) + self.fixed, self.offset(i) + self.length(i))
    }

    /// The byte order that the group was read in.
    pub closed spec fn spec_order(&self) -> Endian {
        self.order
    }

    /// The group behind `header` in `full_input`: the record region follows
    /// the header, the location table follows the region. Fails where
    /// `full_input` is too short or a record does not lie within the region.
    pub fn from_file(header: &GroupOnFile, full_input: &'a [u8]) -> (r: Result<Group<'a>, Error>)
        requires
            full_input@.len() >= GROUP_HEADER,
        ensures
            match r {
                Ok(group) => header.error(full_input@).is_none() && group.spec_len()
                    == header.length_entries && group.spec_order() == header.order && forall|i: int|
                    0 <= i < header.length_entries ==> #[trigger] group.fixed_of(i) == header.fixed_of(
                        full_input@,
                        i,
                    ) && group.variable_of(i) == header.variable_of(full_input@, i),
                Err(e) => header.error(full_input@) == Some(e),
            },
    {
        let table: u64 = 8 * header.length_entries as u64;
        let body = header.data_length_bytes as u64 + table;
        if body > (full_input.len() - GROUP_HEADER) as u64 {
            return Err(Error::TruncatedPayload);
        }
        let data_end = GROUP_HEADER + header.data_length_bytes as usize;
        let data = slice_subrange(full_input, GROUP_HEADER, data_end);
        let entries = slice_subrange(full_input, data_end, data_end + table as usize);
        let count = header.length_entries as usize;
        let fixed = header.fixed as usize;
        let mut i: usize = 0;
        while i < count
            invariant
                i <= count,
                count == header.length_entries,
                entries.len() == LOCATION_SIZE * count,
                full_input@.len() >= GROUP_HEADER + header.body_len(),
                entries@ == table_of(*header, full_input@),
                forall|k: int| 0 <= k < i ==> header.location_ok(full_input@, k),
            decreases count - i,
        {
            let offset = read_u32(entries, LOCATION_SIZE * i, header.order);
            let length = read_u32(entries, LOCATION_SIZE * i + 4, header.order);
            proof {
                lemma_table_entry(*header, full_input@, i as int);
            }
            if offset as u64 + length as u64 > header.data_length_bytes as u64 || header.fixed
                > length {
                assert(!header.location_ok(full_input@, i as int));
                return Err(Error::TruncatedPayload);
            }
            i += 1;
        }
        proof {
            lemma_table_holds(*header, full_input@);
        }
        let group = Group { fixed, entries, data, order: header.order };
        proof {
            assert forall|k: int| 0 <= k < header.length_entries implies #[trigger] group.fixed_of(k)
                == header.fixed_of(full_input@, k) && group.variable_of(k) == header.variable_of(
                full_input@,
                k,
            ) by {
                lemma_record_of_region(*header, full_input@, k);
            }
        }
        Ok(group)
    }

    /// Record `index` of a group that has as many.
    pub fn entry(&self, index: usize) -> (r: GroupEntry<'a>)
        requires
            index < self.spec_len(),
        ensures
            r.fixed@ == self.fixed_of(index as int),
            r.variable@ == self.variable_of(index as int),
    {
        proof {
            use_type_invariant(self);
        }
        assert(self.offset(index as int) + self.length(index as int) <= self.data@.len());
        assert(self.data@.len() == self.data.len());
        assert(self.entries@.len() == self.entries.len());
        let offset = read_u32(self.entries, LOCATION_SIZE * index, self.order) as usize;
        let length = read_u32(self.entries, LOCATION_SIZE * index + 4, self.order) as usize;
        let fixed = slice_subrange(self.data, offset, offset + self.fixed);
        let variable = slice_subrange(self.data, offset + self.fixed, offset + length);
        GroupEntry { fixed, variable }
    }

    /// Record `index`, if the group has as many.
    pub fn get(&self, index: usize) -> (r: Option<GroupEntry<'a>>)
        ensures
            match r {
                Some(entry) => index < self.spec_len() && entry.fixed@ == self.fixed_of(index as int)
                    && entry.variable@ == self.variable_of(index as int),
                None => index >= self.spec_len(),
            },
    {
        if index >= self.len() {
            return None;
        }
        Some(self.entry(index))
    }

    /// A cursor over the records, from both ends.
    pub fn iter(&self) -> (r: GroupItems<'a>)
        ensures
            r.group() == *self,
            r.front() == 0,
            r.back() == self.spec_len(),
    {
        proof {
            use_type_invariant(self);
        }
        GroupItems { group: *self, front: 0, back: self.entries.len() / LOCATION_SIZE }
    }

    /// Number of records.
    pub fn len(&self) -> (r: usize)
        ensures
            r == self.spec_len(),
    {
        self.entries.len() / LOCATION_SIZE
    }

    /// The byte order that the group was read in.
    pub fn byte_order(&self) -> (r: Endian)
        ensures
            r == self.spec_order(),
    {
        self.order
    }
}

/// A cursor over the records of a group that have not been handed out yet:
/// those from `front` up to, but not including, `back`.
#[derive(Clone, Copy, Debug)]
pub struct GroupItems<'a> {
    group: Group<'a>,
    front: usize,
    back: usize,
}

impl<'a> GroupItems<'a> {
    #[verifier::type_invariant]
    spec fn inv(self) -> bool {
        self.front <= self.back <= self.group.spec_len()
    }

    /// The group whose records are handed out.
    pub closed spec fn group(&self) -> Group<'a> {
        self.group
    }

    /// Index of the first record that is left.
    pub closed spec fn front(&self) -> int {
        self.front as int
    }

    /// Index just after the last record that is left.
    pub closed spec fn back(&self) -> int {
        self.back as int
    }

    /// Hands out the first record that is left.
    pub fn next(&mut self) -> (r: Option<GroupEntry<'a>>)
        ensures
            final(self).group() == old(self).group(),
            final(self).back() == old(self).back(),
            match r {
                Some(entry) => old(self).front() < old(self).back() && final(self).front() == old(
                    self,
                ).front() + 1 && entry.fixed@ == old(self).group().fixed_of(old(self).front())
                    && entry.variable@ == old(self).group().variable_of(old(self).front()),
                None => old(self).front() == old(self).back() && final(self).front() == old(
                    self,
                ).front(),
            },
    {
        proof {
            use_type_invariant(&*self);
        }
        if self.front == self.back {
            return None;
        }
        let entry = self.group.get(self.front);
        *self = GroupItems { group: self.group, front: self.front + 1, back: self.back };
        entry
    }

    /// Hands out the last record that is left.
    pub fn next_back(&mut self) -> (r: Option<GroupEntry<'a>>)
        ensures
            final(self).group() == old(self).group(),
            final(self).front() == old(self).front(),
            match r {
                Some(entry) => old(self).front() < old(self).back() && final(self).back() == old(
                    self,
                ).back() - 1 && entry.fixed@ == old(self).group().fixed_of(old(self).back() - 1)
                    && entry.variable@ == old(self).group().variable_of(old(self).back() - 1),
                None => old(self).front() == old(self).back() && final(self).back() == old(
                    self,
                ).back(),
            },
    {
        proof {
            use_type_invariant(&*self);
        }
        if self.front == self.back {
            return None;
        }
        let entry = self.group.get(self.back - 1);
        *self = GroupItems { group: self.group, front: self.front, back: self.back - 1 };
        entry
    }

    /// Number of records that are left, as a lower and an upper bound.
    pub fn size_hint(&self) -> (r: (usize, Option<usize>))
        ensures
            r.0 == self.back() - self.front(),
            r.1 == Some(r.0),
    {
        proof {
            use_type_invariant(self);
        }
        let size = self.back - self.front;
        (size, Some(size))
    }
}


/// The input holds the record region and the whole location table, and
/// every record lies within the record region.
pub open spec fn records_within(header: GroupOnFile, input: Seq<u8>) -> bool {
    &&& input.len() >= GROUP_HEADER + header.body_len()
    &&& forall|i: int|
        0 <= i < header.length_entries ==> #[trigger] header.offset_of(input, i) + header.length_of(
            input,
            i,
        ) <= header.data_length_bytes
}

/// Record `i` of the group holds byte `q` of the record region.
pub open spec fn record_holds(header: GroupOnFile, input: Seq<u8>, i: int, q: int) -> bool {
    0 <= i < header.length_entries && header.offset_of(input, i) <= q < header.offset_of(input, i)
        + header.length_of(input, i)
}

/// No byte of the record region belongs to two records.
pub open spec fn records_apart(header: GroupOnFile, input: Seq<u8>) -> bool {
    forall|i: int, j: int, q: int|
        #[trigger] record_holds(header, input, i, q) && #[trigger] record_holds(header, input, j, q) ==> i
            == j
}

/// Where byte `o` of a group header lies in the other byte order: the mark
/// and the word after it, then four fields of four bytes.
pub open spec fn group_header_mirror(o: int) -> int {
    if o < 4 {
        mirrored(o, 0, 2)
    } else if o < GROUP_HEADER {
        mirrored(o, 4, 4)
    } else {
        o
    }
}

/// Where byte `p` of a group lies in the other byte order, where `inner`
/// says for each record where its bytes lie. A byte of the record region that
/// no record holds stays where it is.
pub open spec fn group_mirror(input: Seq<u8>, e: Endian, inner: spec_fn(int, int) -> int, p: int) -> int {
    let header = GroupOnFile::of(input, e);
    let q = p - GROUP_HEADER;
    if p < GROUP_HEADER {
        group_header_mirror(p)
    } else if q < header.data_length_bytes {
        if exists|i: int| record_holds(header, input, i, q) {
            let i = choose|i: int| record_holds(header, input, i, q);
            GROUP_HEADER + header.offset_of(input, i) + inner(i, q - header.offset_of(input, i))
        } else {
            p
        }
    } else if p < GROUP_HEADER + header.body_len() {
        mirrored(p, GROUP_HEADER + header.data_length_bytes, 4)
    } else {
        p
    }
}

/// The group as it is written in the other byte order.
pub open spec fn group_swapped(input: Seq<u8>, e: Endian, inner: spec_fn(int, int) -> int) -> Seq<u8> {
    permuted(input, |p: int| group_mirror(input, e, inner, p))
}

/// The counterpart of a group that holds its whole location table: its
/// header and its location table read in the other byte order as they read
/// before, wherever the bytes of the records lie.
pub proof fn lemma_group_located(input: Seq<u8>, e: Endian, inner: spec_fn(int, int) -> int)
    requires
        input.len() >= GROUP_HEADER + GroupOnFile::of(input, e).body_len(),
    ensures
        ({
            let header = GroupOnFile::of(input, e);
            let other = group_swapped(input, e, inner);
            let swapped = GroupOnFile::of(other, e.flipped());
            &&& other.len() == input.len()
            &&& u16_at(other, 0, e.flipped()) == u16_at(input, 0, e)
            &&& swapped.length_entries == header.length_entries
            &&& swapped.data_length_bytes == header.data_length_bytes
            &&& swapped.fixed == header.fixed
            &&& forall|i: int|
                0 <= i < header.length_entries ==> #[trigger] swapped.offset_of(other, i)
                    == header.offset_of(input, i) && swapped.length_of(other, i) == header.length_of(
                    input,
                    i,
                )
        }),
{
    let header = GroupOnFile::of(input, e);
    let mirror = |p: int| group_mirror(input, e, inner, p);
    let other = group_swapped(input, e, inner);
    lemma_permuted(input, mirror);
    lemma_permuted_u16(input, mirror, 0, e);
    lemma_permuted_u32(input, mirror, 4, e);
    lemma_permuted_u32(input, mirror, 8, e);
    lemma_permuted_u32(input, mirror, 12, e);
    lemma_permuted_u32(input, mirror, 16, e);
    let swapped = GroupOnFile::of(other, e.flipped());
    let table = GROUP_HEADER + header.data_length_bytes;
    assert forall|i: int| 0 <= i < header.length_entries implies #[trigger] swapped.offset_of(other, i)
        == header.offset_of(input, i) && swapped.length_of(other, i) == header.length_of(input, i) by {
        let at = table + 8 * i;
        lemma_table_mirror(table, at);
        lemma_table_mirror(table, at + 4);
        lemma_permuted_u32(input, mirror, at, e);
        lemma_permuted_u32(input, mirror, at + 4, e);
    }
}

/// The counterpart of a group whose records lie apart: its header and its
/// location table read in the other byte order as they read before, and the
/// bytes of every record lie where `inner` says.
pub proof fn lemma_group_swapped(input: Seq<u8>, e: Endian, inner: spec_fn(int, int) -> int)
    requires
        input.len() >= GROUP_HEADER,
        records_within(GroupOnFile::of(input, e), input),
        records_apart(GroupOnFile::of(input, e), input),
    ensures
        ({
            let header = GroupOnFile::of(input, e);
            let other = group_swapped(input, e, inner);
            let swapped = GroupOnFile::of(other, e.flipped());
            &&& other.len() == input.len()
            &&& u16_at(other, 0, e.flipped()) == u16_at(input, 0, e)
            &&& swapped.length_entries == header.length_entries
            &&& swapped.data_length_bytes == header.data_length_bytes
            &&& swapped.fixed == header.fixed
            &&& forall|i: int|
                0 <= i < header.length_entries ==> #[trigger] swapped.offset_of(other, i)
                    == header.offset_of(input, i) && swapped.length_of(other, i) == header.length_of(
                    input,
                    i,
                )
            &&& forall|i: int, o: int|
                0 <= i < header.length_entries && 0 <= o < header.length_of(input, i) ==> other[GROUP_HEADER
                    + header.offset_of(input, i) + o] == input[GROUP_HEADER + header.offset_of(input, i)
                    + #[trigger] inner(i, o)]
        }),
{
    let header = GroupOnFile::of(input, e);
    let mirror = |p: int| group_mirror(input, e, inner, p);
    let other = group_swapped(input, e, inner);
    lemma_group_located(input, e, inner);
    lemma_permuted(input, mirror);
    assert forall|i: int, o: int|
        0 <= i < header.length_entries && 0 <= o < header.length_of(input, i) implies other[GROUP_HEADER
        + header.offset_of(input, i) + o] == input[GROUP_HEADER + header.offset_of(input, i)
        + #[trigger] inner(i, o)] by {
        let q = header.offset_of(input, i) + o;
        assert(header.offset_of(input, i) + header.length_of(input, i) <= header.data_length_bytes);
        assert(record_holds(header, input, i, q));
        let j = choose|j: int| record_holds(header, input, j, q);
        assert(record_holds(header, input, j, q));
        assert(j == i);
        assert(other[GROUP_HEADER + q] == input[mirror(GROUP_HEADER + q)]);
    }
}

/// Every byte of every record stays where it is.
pub open spec fn records_kept() -> spec_fn(int, int) -> int {
    |i: int, o: int| o
}

/// The group as it is written in the other byte order, whether it is
/// accepted or not. An accepted group has the bytes of its records where
/// `inner` says. One that is rejected for where its location table puts a
/// record keeps its record region as it is: no record is read. One that is
/// cut short has only its header in the other byte order: nothing after the
/// header is read.
pub open spec fn group_counterpart(input: Seq<u8>, e: Endian, inner: spec_fn(int, int) -> int) -> Seq<u8> {
    let header = GroupOnFile::of(input, e);
    if header.error(input).is_none() {
        group_swapped(input, e, inner)
    } else if input.len() >= GROUP_HEADER + header.body_len() {
        group_swapped(input, e, records_kept())
    } else {
        permuted(input, |p: int| group_header_mirror(p))
    }
}

/// The counterpart of a group is as long as the group, its header reads in
/// the other byte order as the header of the group read before, and it is
/// rejected as a group where the group is, for the same reason.
pub proof fn lemma_group_counterpart(input: Seq<u8>, e: Endian, inner: spec_fn(int, int) -> int)
    requires
        input.len() >= GROUP_HEADER,
    ensures
        ({
            let header = GroupOnFile::of(input, e);
            let other = group_counterpart(input, e, inner);
            let swapped = GroupOnFile::of(other, e.flipped());
            &&& other.len() == input.len()
            &&& u16_at(other, 0, e.flipped()) == u16_at(input, 0, e)
            &&& swapped.length_entries == header.length_entries
            &&& swapped.data_length_bytes == header.data_length_bytes
            &&& swapped.fixed == header.fixed
            &&& swapped.error(other) == header.error(input)
            &&& header.error(input).is_none() ==> other == group_swapped(input, e, inner)
        }),
{
    let header = GroupOnFile::of(input, e);
    let other = group_counterpart(input, e, inner);
    let swapped = GroupOnFile::of(other, e.flipped());
    if input.len() >= GROUP_HEADER + header.body_len() {
        let used = if header.error(input).is_none() {
            inner
        } else {
            records_kept()
        };
        assert(other == group_swapped(input, e, used));
        lemma_group_located(input, e, used);
        assert forall|i: int| 0 <= i < header.length_entries implies swapped.location_ok(other, i)
            == header.location_ok(input, i) by {
            assert(swapped.offset_of(other, i) == header.offset_of(input, i));
        }
        if header.error(input).is_some() {
            let i = choose|i: int| 0 <= i < header.length_entries && !header.location_ok(input, i);
            assert(!swapped.location_ok(other, i));
        }
        if swapped.error(other).is_some() {
            let i = choose|i: int| 0 <= i < swapped.length_entries && !swapped.location_ok(other, i);
            assert(!header.location_ok(input, i));
        }
    } else {
        let mirror = |p: int| group_header_mirror(p);
        lemma_permuted(input, mirror);
        lemma_permuted_u16(input, mirror, 0, e);
        lemma_permuted_u32(input, mirror, 4, e);
        lemma_permuted_u32(input, mirror, 8, e);
        lemma_permuted_u32(input, mirror, 12, e);
        lemma_permuted_u32(input, mirror, 16, e);
    }
}

/// A group that is accepted holds its records within its record region.
pub proof fn lemma_accepted_within(header: GroupOnFile, input: Seq<u8>)
    requires
        header.error(input).is_none(),
    ensures
        records_within(header, input),
{
    assert forall|i: int| 0 <= i < header.length_entries implies #[trigger] header.offset_of(input, i)
        + header.length_of(input, i) <= header.data_length_bytes by {
        assert(header.location_ok(input, i));
    }
}

/// Where every record keeps its bytes within itself, the group keeps its
/// bytes within itself.
pub proof fn lemma_group_mirror_within(input: Seq<u8>, e: Endian, inner: spec_fn(int, int) -> int, p: int)
    requires
        input.len() >= GROUP_HEADER,
        records_within(GroupOnFile::of(input, e), input),
        forall|i: int, o: int|
            0 <= i < GroupOnFile::of(input, e).length_entries && 0 <= o < GroupOnFile::of(
                input,
                e,
            ).length_of(input, i) ==> 0 <= #[trigger] inner(i, o) < GroupOnFile::of(input, e).length_of(
                input,
                i,
            ),
        0 <= p < input.len(),
    ensures
        0 <= group_mirror(input, e, inner, p) < input.len(),
{
    let header = GroupOnFile::of(input, e);
    let q = p - GROUP_HEADER;
    if p < GROUP_HEADER {
    } else if q < header.data_length_bytes {
        if exists|i: int| record_holds(header, input, i, q) {
            let i = choose|i: int| record_holds(header, input, i, q);
            let o = q - header.offset_of(input, i);
            assert(0 <= inner(i, o) < header.length_of(input, i));
            assert(header.offset_of(input, i) + header.length_of(input, i) <= header.data_length_bytes);
        }
    } else if p < GROUP_HEADER + header.body_len() {
        let table = GROUP_HEADER + header.data_length_bytes;
        let k = (p - table) / 4;
        assert(p - table < 8 * header.length_entries);
        assert(k < 2 * header.length_entries);
    }
}

/// A field of four bytes in a table of such fields has its bytes in
/// reverse order in the other byte order.
proof fn lemma_table_mirror(table: int, at: int)
    requires
        0 <= table <= at,
        (at - table) % 4 == 0,
    ensures
        mirrored(at, table, 4) == at + 3,
        mirrored(at + 1, table, 4) == at + 2,
        mirrored(at + 2, table, 4) == at + 1,
        mirrored(at + 3, table, 4) == at,
{
    let k = (at - table) / 4;
    assert(at == table + k * 4);
    assert((at + 1 - table) / 4 == k);
    assert((at + 2 - table) / 4 == k);
    assert((at + 3 - table) / 4 == k);
}


/// The bytes of record `i`.
pub open spec fn record_bytes(input: Seq<u8>, e: Endian, i: int) -> Seq<u8> {
    let header = GroupOnFile::of(input, e);
    input.subrange(
        GROUP_HEADER + header.offset_of(input, i),
        GROUP_HEADER + header.offset_of(input, i) + header.length_of(input, i),
    )
}

/// What the counterpart `other` of a group has in common with the group as
/// far as record `i` goes: the header and the location of the record read
/// the same, and the bytes of the record lie where `inner` says.
pub open spec fn record_agrees(
    input: Seq<u8>,
    e: Endian,
    inner: spec_fn(int, int) -> int,
    other: Seq<u8>,
    i: int,
) -> bool {
    let header = GroupOnFile::of(input, e);
    let swapped = GroupOnFile::of(other, e.flipped());
    &&& other.len() == input.len()
    &&& u16_at(other, 0, e.flipped()) == u16_at(input, 0, e)
    &&& swapped.length_entries == header.length_entries
    &&& swapped.data_length_bytes == header.data_length_bytes
    &&& swapped.fixed == header.fixed
    &&& swapped.offset_of(other, i) == header.offset_of(input, i)
    &&& swapped.length_of(other, i) == header.length_of(input, i)
    &&& record_bytes(other, e.flipped(), i).len() == record_bytes(input, e, i).len()
    &&& record_bytes(input, e, i).len() == header.length_of(input, i)
    &&& forall|o: int|
        0 <= o < header.length_of(input, i) ==> #[trigger] record_bytes(other, e.flipped(), i)[o]
            == record_bytes(input, e, i)[inner(i, o)]
}

/// The counterpart of a group agrees with the group on every record that
/// keeps its bytes within itself.
pub proof fn lemma_group_record_swapped(input: Seq<u8>, e: Endian, inner: spec_fn(int, int) -> int, i: int)
    requires
        input.len() >= GROUP_HEADER,
        records_within(GroupOnFile::of(input, e), input),
        records_apart(GroupOnFile::of(input, e), input),
        0 <= i < GroupOnFile::of(input, e).length_entries,
        forall|o: int|
            0 <= o < GroupOnFile::of(input, e).length_of(input, i) ==> 0 <= #[trigger] inner(i, o)
                < GroupOnFile::of(input, e).length_of(input, i),
    ensures
        record_agrees(input, e, inner, group_swapped(input, e, inner), i),
{
    let header = GroupOnFile::of(input, e);
    let other = group_swapped(input, e, inner);
    let swapped = GroupOnFile::of(other, e.flipped());
    lemma_group_swapped(input, e, inner);
    assert(swapped.offset_of(other, i) == header.offset_of(input, i));
    assert(header.offset_of(input, i) + header.length_of(input, i) <= header.data_length_bytes);
    let base = GROUP_HEADER + header.offset_of(input, i);
    assert forall|o: int| 0 <= o < header.length_of(input, i) implies #[trigger] record_bytes(
        other,
        e.flipped(),
        i,
    )[o] == record_bytes(input, e, i)[inner(i, o)] by {
        assert(0 <= inner(i, o) < header.length_of(input, i));
        assert(other[base + o] == input[base + inner(i, o)]);
    }
}

/// The prefix of a record and what follows it are the two parts of the
/// bytes of the record.
pub proof fn lemma_record_parts(header: GroupOnFile, input: Seq<u8>, i: int)
    requires
        header.order == GroupOnFile::of(input, header.order).order,
        header.data_length_bytes == GroupOnFile::of(input, header.order).data_length_bytes,
        input.len() >= GROUP_HEADER + header.data_length_bytes,
        header.location_ok(input, i),
    ensures
        header.fixed_of(input, i) == record_bytes(input, header.order, i).take(header.fixed as int),
        header.variable_of(input, i) == record_bytes(input, header.order, i).skip(header.fixed as int),
        record_bytes(input, header.order, i).len() == header.length_of(input, i),
{
    let record = record_bytes(input, header.order, i);
    assert(header.fixed_of(input, i) =~= record.take(header.fixed as int));
    assert(header.variable_of(input, i) =~= record.skip(header.fixed as int));
}

} // verus!
