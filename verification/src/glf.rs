//! Lists: a header followed by entries of one size.

use vstd::prelude::*;
use vstd::slice::slice_subrange;
use crate::error::Error;
use crate::order::{
    lemma_half_kept, lemma_permuted, lemma_permuted_u16, lemma_permuted_u32, lemma_swapped_elsewhere,
    lemma_swapped_u16, lemma_word_kept, mirrored, permuted, read_u16, read_u32, swapped_run, u16_at, u32_at,
    Endian, Loader, Symmetric,
};

verus! {

/// Size in bytes of the list header.
pub const LIST_HEADER: usize = 12;

/// The header of a list: the size of one entry and the number of entries.
#[derive(Clone, Copy, Debug, PartialEq, Eq, Structural)]
pub struct ListOnFile {
    pub entry_size: u32,
    pub length: u32,
}

impl ListOnFile {
    /// The header that `input` starts with, read in byte order `e`.
    pub open spec fn of(input: Seq<u8>, e: Endian) -> ListOnFile {
        ListOnFile { entry_size: u32_at(input, 4, e) as u32, length: u32_at(input, 8, e) as u32 }
    }

    /// Reads the header that `input` starts with.
    pub fn read(input: &[u8], e: Endian) -> (r: ListOnFile)
        requires
            input@.len() >= LIST_HEADER,
        ensures
            r == ListOnFile::of(input@, e),
    {
        ListOnFile { entry_size: read_u32(input, 4, e), length: read_u32(input, 8, e) }
    }

    /// Number of bytes that the entries take.
    pub open spec fn body_len(self) -> int {
        self.entry_size as int * self.length as int
    }
}

/// The entries of a list, borrowed from the bytes they were found in.
///
/// The view of a list is the sequence of its entries.
#[derive(Clone, Copy, Debug)]
pub struct List<'a> {
    data: &'a [u8],
    entry_size: u32,
}

impl<'a> List<'a> {
    #[verifier::type_invariant]
    spec fn inv(self) -> bool {
        self.entry_size >= 1 && (self.data@.len() as int) % (self.entry_size as int) == 0
    }

    /// The bytes of all entries, one entry after the other.
    pub closed spec fn bytes(&self) -> Seq<u8> {
        self.data@
    }

    /// Size in bytes of one entry; 1 where the header says 0.
    pub closed spec fn entry_len(&self) -> int {
        self.entry_size as int
    }

    /// Number of entries.
    pub open spec fn spec_len(&self) -> int {
        self.bytes().len() as int / self.entry_len()
    }

    /// Entry `i`.
    pub open spec fn spec_entry(&self, i: int) -> Seq<u8> {
        self.bytes().subrange(i * self.entry_len(), (i + 1) * self.entry_len())
    }

    /// The entries in order.
    pub open spec fn view(&self) -> Seq<Seq<u8>> {
        Seq::new(self.spec_len() as nat, |i: int| self.spec_entry(i))
    }

    /// The list behind `header` in `full_input`: the entries follow the
    /// header directly. Fails where `full_input` is shorter than the header
    /// says.
    pub fn from_file(header: &ListOnFile, full_input: &'a [u8]) -> (r: Result<List<'a>, Error>)
        requires
            full_input@.len() >= LIST_HEADER,
        ensures
            match r {
                Ok(list) => full_input@.len() >= LIST_HEADER + header.body_len() && list.bytes()
                    == full_input@.subrange(LIST_HEADER as int, LIST_HEADER + header.body_len())
                    && list.entry_len() == (if header.entry_size == 0 { 1 } else { header.entry_size as int })
                    && list.spec_len() == (if header.entry_size == 0 { 0 } else { header.length as int }),
                Err(e) => e == Error::TruncatedPayload && full_input@.len() < LIST_HEADER
                    + header.body_len(),
            },
    {
        assert(header.entry_size as int * header.length as int <= 0xFFFF_FFFF * 0xFFFF_FFFF)
            by (nonlinear_arith)
            requires
                0 <= header.entry_size <= 0xFFFF_FFFF,
                0 <= header.length <= 0xFFFF_FFFF,
        ;
        let body = header.entry_size as u64 * header.length as u64;
        if body > (full_input.len() - LIST_HEADER) as u64 {
            return Err(Error::TruncatedPayload);
        }
        let data = slice_subrange(full_input, LIST_HEADER, LIST_HEADER + body as usize);
        let entry_size = if header.entry_size == 0 { 1 } else { header.entry_size };
        proof {
            if header.entry_size != 0 {
                assert(header.entry_size as int * header.length as int == header.length as int
                    * header.entry_size as int) by (nonlinear_arith);
                vstd::arithmetic::div_mod::lemma_fundamental_div_mod_converse(
                    data@.len() as int,
                    header.entry_size as int,
                    header.length as int,
                    0,
                );
            } else {
                assert(0 * header.length as int == 0);
            }
        }
        Ok(List { data, entry_size })
    }

    /// Entry `index` of a list that has as many.
    pub fn entry(&self, index: usize) -> (r: &'a [u8])
        requires
            index < self.spec_len(),
        ensures
            r@ == self@[index as int],
    {
        proof {
            use_type_invariant(self);
        }
        let size = self.entry_size as usize;
        proof {
            assert(self.data@.len() == self.data.len());
            lemma_entry_bounds(self.data@.len() as int, size as int, index as int);
        }
        slice_subrange(self.data, index * size, index * size + size)
    }

    /// Entry `index`, if the list has as many.
    pub fn get(&self, index: usize) -> (r: Option<&'a [u8]>)
        ensures
            match r {
                Some(entry) => index < self.spec_len() && entry@ == self@[index as int],
                None => index >= self.spec_len(),
            },
    {
        if index >= self.len() {
            return None;
        }
        Some(self.entry(index))
    }

    /// A cursor over the entries, from both ends.
    pub fn iter(&self) -> (r: ListItems<'a>)
        ensures
            r@ == self@,
    {
        proof {
            use_type_invariant(self);
        }
        let r = ListItems { data: self.data, entry_size: self.entry_size };
        assert(r@ =~= self@);
        r
    }

    /// Number of entries.
    pub fn len(&self) -> (r: usize)
        ensures
            r == self.spec_len(),
            r == self@.len(),
    {
        proof {
            use_type_invariant(self);
        }
        self.data.len() / self.entry_size as usize
    }
}

/// Entry `index` of `count = len / size` lies within `len` bytes.
proof fn lemma_entry_bounds(len: int, size: int, index: int)
    requires
        size >= 1,
        len >= 0,
        len % size == 0,
        0 <= index < len / size,
    ensures
        0 <= index * size,
        index * size + size <= len,
        (index + 1) * size == index * size + size,
{
    vstd::arithmetic::div_mod::lemma_fundamental_div_mod(len, size);
    assert(index * size + size <= (len / size) * size) by (nonlinear_arith)
        requires
            0 <= index < len / size,
            size >= 1,
    ;
    assert(size * (len / size) == (len / size) * size) by (nonlinear_arith);
    assert(0 <= index * size) by (nonlinear_arith)
        requires
            0 <= index,
            size >= 1,
    ;
    assert((index + 1) * size == index * size + size) by (nonlinear_arith);
}

/// A cursor over the entries of a list that have not been handed out yet.
///
/// The view is the sequence of those entries.
#[derive(Clone, Copy, Debug)]
pub struct ListItems<'a> {
    data: &'a [u8],
    entry_size: u32,
}

impl<'a> ListItems<'a> {
    #[verifier::type_invariant]
    spec fn inv(self) -> bool {
        self.entry_size >= 1 && (self.data@.len() as int) % (self.entry_size as int) == 0
    }

    /// The entries that are left, in order.
    pub closed spec fn view(&self) -> Seq<Seq<u8>> {
        Seq::new(
            (self.data@.len() as int / (self.entry_size as int)) as nat,
            |i: int| self.data@.subrange(i * (self.entry_size as int), (i + 1) * (self.entry_size as int)),
        )
    }

    /// Hands out the first entry that is left.
    pub fn next(&mut self) -> (r: Option<&'a [u8]>)
        ensures
            match r {
                Some(entry) => old(self)@.len() > 0 && entry@ == old(self)@[0] && final(self)@ == old(
                    self,
                )@.drop_first(),
                None => old(self)@.len() == 0 && final(self)@ == old(self)@,
            },
    {
        proof {
            use_type_invariant(&*self);
        }
        let size = self.entry_size as usize;
        let ghost len = self.data@.len() as int;
        if self.data.len() == 0 {
            return None;
        }
        proof {
            lemma_nonempty_has_entry(len, size as int);
            lemma_entry_bounds(len, size as int, 0);
        }
        let first = slice_subrange(self.data, 0, size);
        let rest = slice_subrange(self.data, size, self.data.len());
        proof {
            lemma_rest_entries(len, size as int);
            assert forall|i: int| 0 <= i < len / (size as int) - 1 implies #[trigger] rest@.subrange(
                i * size,
                (i + 1) * size,
            ) == self.data@.subrange((i + 1) * size, (i + 2) * size) by {
                lemma_entry_bounds(len, size as int, i + 1);
                lemma_entry_bounds(len - size, size as int, i);
                assert((i + 2) * size == (i + 1) * size + size) by (nonlinear_arith);
                assert(rest@.subrange(i * size, (i + 1) * size) =~= self.data@.subrange(
                    (i + 1) * size,
                    (i + 2) * size,
                ));
            }
        }
        let ghost before = self@;
        *self = ListItems { data: rest, entry_size: self.entry_size };
        proof {
            assert(self@ =~= before.drop_first());
        }
        Some(first)
    }

    /// Hands out the last entry that is left.
    pub fn next_back(&mut self) -> (r: Option<&'a [u8]>)
        ensures
            match r {
                Some(entry) => old(self)@.len() > 0 && entry@ == old(self)@.last() && final(self)@
                    == old(self)@.drop_last(),
                None => old(self)@.len() == 0 && final(self)@ == old(self)@,
            },
    {
        proof {
            use_type_invariant(&*self);
        }
        let size = self.entry_size as usize;
        let ghost len = self.data@.len() as int;
        if self.data.len() == 0 {
            return None;
        }
        proof {
            lemma_nonempty_has_entry(len, size as int);
            lemma_rest_entries(len, size as int);
            lemma_entry_bounds(len, size as int, len / (size as int) - 1);
            vstd::arithmetic::div_mod::lemma_fundamental_div_mod(len, size as int);
            assert((len / (size as int)) * size == size * (len / (size as int))) by (nonlinear_arith);
            assert((len / (size as int) - 1) * size + size == (len / (size as int)) * size)
                by (nonlinear_arith);
        }
        let cut = self.data.len() - size;
        let last = slice_subrange(self.data, cut, self.data.len());
        let rest = slice_subrange(self.data, 0, cut);
        proof {
            assert forall|i: int| 0 <= i < len / (size as int) - 1 implies #[trigger] rest@.subrange(
                i * size,
                (i + 1) * size,
            ) == self.data@.subrange(i * size, (i + 1) * size) by {
                lemma_entry_bounds(len - size, size as int, i);
                assert(rest@.subrange(i * size, (i + 1) * size) =~= self.data@.subrange(
                    i * size,
                    (i + 1) * size,
                ));
            }
        }
        let ghost before = self@;
        *self = ListItems { data: rest, entry_size: self.entry_size };
        proof {
            assert(self@ =~= before.drop_last());
        }
        Some(last)
    }

    /// Number of entries that are left, as a lower and an upper bound.
    pub fn size_hint(&self) -> (r: (usize, Option<usize>))
        ensures
            r.0 == self@.len(),
            r.1 == Some(r.0),
    {
        proof {
            use_type_invariant(self);
        }
        let size = self.data.len() / self.entry_size as usize;
        (size, Some(size))
    }
}

/// Bytes that are a multiple of the entry size, and not none, hold an entry.
proof fn lemma_nonempty_has_entry(len: int, size: int)
    requires
        size >= 1,
        len > 0,
        len % size == 0,
    ensures
        len / size >= 1,
        len >= size,
{
    vstd::arithmetic::div_mod::lemma_fundamental_div_mod(len, size);
    if len / size <= 0 {
        assert(size * (len / size) <= 0) by (nonlinear_arith)
            requires
                size >= 1,
                len / size <= 0,
        ;
    }
    assert(size * (len / size) >= size) by (nonlinear_arith)
        requires
            size >= 1,
            len / size >= 1,
    ;
}

/// Without one entry, the bytes hold one entry less.
proof fn lemma_rest_entries(len: int, size: int)
    requires
        size >= 1,
        len >= size,
        len % size == 0,
    ensures
        (len - size) % size == 0,
        (len - size) / size == len / size - 1,
{
    vstd::arithmetic::div_mod::lemma_fundamental_div_mod(len, size);
    let q = len / size;
    assert(len - size == (q - 1) * size + 0) by (nonlinear_arith)
        requires
            len == size * q,
    ;
    vstd::arithmetic::div_mod::lemma_fundamental_div_mod_converse(len - size, size, q - 1, 0);
}

impl<'a> Loader<'a> for List<'a> {
    open spec fn header_len() -> nat {
        LIST_HEADER as nat
    }

    open spec fn mark_at() -> nat {
        0
    }

    open spec fn decodes_to(input: Seq<u8>, e: Endian, r: Result<Self, Error>) -> bool {
        let header = ListOnFile::of(input, e);
        if input.len() < LIST_HEADER + header.body_len() {
            r == Err::<Self, Error>(Error::TruncatedPayload)
        } else {
            r matches Ok(list) && list.bytes() == input.subrange(
                LIST_HEADER as int,
                LIST_HEADER + header.body_len(),
            ) && list.entry_len() == (if header.entry_size == 0 { 1 } else { header.entry_size as int })
        }
    }

    fn header_size() -> (n: usize) {
        LIST_HEADER
    }

    fn mark_offset() -> (n: usize) {
        0
    }

    fn into_native(input: &'a [u8], e: Endian) -> (r: Result<Self, Error>) {
        let header = ListOnFile::read(input, e);
        List::from_file(&header, input)
    }
}


/// Number of entries of the list that `input` starts with, where `input`
/// holds all of them.
pub open spec fn entry_count(input: Seq<u8>, e: Endian) -> int {
    let header = ListOnFile::of(input, e);
    if header.entry_size == 0 {
        0
    } else {
        header.length as int
    }
}

/// Why a list of entries of `size` bytes is rejected, if it is: the input
/// is shorter than the header says, or there are entries and they have
/// another size.
pub open spec fn list_error(input: Seq<u8>, e: Endian, size: int) -> Option<Error> {
    let header = ListOnFile::of(input, e);
    if input.len() < LIST_HEADER + header.body_len() {
        Some(Error::TruncatedPayload)
    } else if entry_count(input, e) > 0 && header.entry_size != size {
        Some(Error::UnsupportedEncoding)
    } else {
        None
    }
}

/// The numbers of a list of unsigned 16-bit entries.
pub open spec fn u16_entries(input: Seq<u8>, e: Endian) -> Seq<u16> {
    Seq::new(entry_count(input, e) as nat, |i: int| u16_at(input, LIST_HEADER + 2 * i, e) as u16)
}

/// Opens the list that `input` starts with and checks that its entries, if
/// it has any, have `size` bytes.
pub fn open_list<'a>(input: &'a [u8], e: Endian, size: usize) -> (r: Result<List<'a>, Error>)
    requires
        input@.len() >= LIST_HEADER,
        1 <= size <= u32::MAX,
    ensures
        match r {
            Ok(list) => list_error(input@, e, size as int).is_none() && list.spec_len() == entry_count(
                input@,
                e,
            ) && input@.len() >= LIST_HEADER + size * list.spec_len() && forall|i: int|
                0 <= i < list.spec_len() ==> #[trigger] list@[i] == input@.subrange(
                    LIST_HEADER + size * i,
                    LIST_HEADER + size * i + size,
                ),
            Err(err) => list_error(input@, e, size as int) == Some(err),
        },
{
    let header = ListOnFile::read(input, e);
    let list = match List::from_file(&header, input) {
        Ok(list) => list,
        Err(err) => {
            return Err(err);
        },
    };
    if list.len() > 0 && header.entry_size as usize != size {
        return Err(Error::UnsupportedEncoding);
    }
    proof {
        let count = list.spec_len();
        if count > 0 {
            assert(header.body_len() == size * count) by (nonlinear_arith)
                requires
                    header.body_len() == header.entry_size as int * header.length as int,
                    header.entry_size as int == size as int,
                    header.length as int == count,
            ;
        } else {
            assert(size * count == 0) by (nonlinear_arith)
                requires
                    count == 0,
            ;
        }
        assert forall|i: int| 0 <= i < count implies #[trigger] list@[i] == input@.subrange(
            LIST_HEADER + size * i,
            LIST_HEADER + size * i + size,
        ) by {
            assert(i * size == size * i && (i + 1) * size == size * i + size) by (nonlinear_arith);
            assert(size * i + size <= size * count) by (nonlinear_arith)
                requires
                    0 <= i < count,
                    size >= 1,
            ;
            assert(list@[i] =~= input@.subrange(LIST_HEADER + size * i, LIST_HEADER + size * i + size));
        }
    }
    Ok(list)
}

/// Reads a list whose entries are unsigned 16-bit numbers.
pub fn read_u16_entries(input: &[u8], e: Endian) -> (r: Result<Vec<u16>, Error>)
    requires
        input@.len() >= LIST_HEADER,
    ensures
        match r {
            Ok(values) => list_error(input@, e, 2).is_none() && values@ == u16_entries(input@, e),
            Err(err) => list_error(input@, e, 2) == Some(err),
        },
{
    let list = match open_list(input, e, 2) {
        Ok(list) => list,
        Err(err) => {
            return Err(err);
        },
    };
    let count = list.len();
    let mut values: Vec<u16> = Vec::new();
    let mut i: usize = 0;
    while i < count
        invariant
            i <= count,
            count == list.spec_len(),
            count == entry_count(input@, e),
            input@.len() >= LIST_HEADER + 2 * count,
            forall|k: int|
                0 <= k < count ==> #[trigger] list@[k] == input@.subrange(
                    LIST_HEADER + 2 * k,
                    LIST_HEADER + 2 * k + 2,
                ),
            values@.len() == i,
            forall|k: int| 0 <= k < i ==> values@[k] == #[trigger] u16_entries(input@, e)[k],
        decreases count - i,
    {
        let entry = list.entry(i);
        values.push(read_u16(entry, 0, e));
        i += 1;
    }
    assert(values@ =~= u16_entries(input@, e));
    Ok(values)
}


/// Where byte `o` of a list lies when its header is written in the other
/// byte order: the mark and the word after it, then the entry size and the
/// length.
pub open spec fn list_header_mirror(o: int) -> int {
    if o < 4 {
        mirrored(o, 0, 2)
    } else if o < 12 {
        mirrored(o, 4, 4)
    } else {
        o
    }
}

/// The list with its header written in the other byte order.
pub open spec fn header_swapped(input: Seq<u8>) -> Seq<u8> {
    permuted(input, |o: int| list_header_mirror(o))
}

/// A header in the other byte order reads there as it read before, and the
/// entries are as they were.
pub proof fn lemma_header_swapped(input: Seq<u8>, e: Endian)
    requires
        input.len() >= LIST_HEADER,
    ensures
        header_swapped(input).len() == input.len(),
        u16_at(header_swapped(input), 0, e.flipped()) == u16_at(input, 0, e),
        ListOnFile::of(header_swapped(input), e.flipped()) == ListOnFile::of(input, e),
        forall|i: int| LIST_HEADER <= i < input.len() ==> #[trigger] header_swapped(input)[i] == input[i],
{
    let mirror = |o: int| list_header_mirror(o);
    lemma_permuted(input, mirror);
    lemma_permuted_u16(input, mirror, 0, e);
    lemma_permuted_u32(input, mirror, 4, e);
    lemma_permuted_u32(input, mirror, 8, e);
    assert forall|i: int| LIST_HEADER <= i < input.len() implies #[trigger] header_swapped(input)[i]
        == input[i] by {
        assert(mirror(i) == i);
    }
}

/// The counterpart in the other byte order of a list whose entries have
/// `entry` bytes and are made of numbers of `width` bytes. An input that
/// would be rejected has only its header swapped.
pub open spec fn list_swapped(input: Seq<u8>, e: Endian, entry: int, width: int) -> Seq<u8> {
    if list_error(input, e, entry).is_none() {
        swapped_run(header_swapped(input), LIST_HEADER as int, LIST_HEADER + entry * entry_count(input, e), width)
    } else {
        header_swapped(input)
    }
}

/// The counterpart of a list is as long as the list, has its header in the
/// other byte order, and is accepted where the list is.
pub proof fn lemma_list_swapped(input: Seq<u8>, e: Endian, entry: int, width: int)
    requires
        input.len() >= LIST_HEADER,
    ensures
        list_swapped(input, e, entry, width).len() == input.len(),
        u16_at(list_swapped(input, e, entry, width), 0, e.flipped()) == u16_at(input, 0, e),
        ListOnFile::of(list_swapped(input, e, entry, width), e.flipped()) == ListOnFile::of(input, e),
        list_error(list_swapped(input, e, entry, width), e.flipped(), entry) == list_error(input, e, entry),
        entry_count(list_swapped(input, e, entry, width), e.flipped()) == entry_count(input, e),
        list_error(input, e, entry).is_none() ==> input.len() >= LIST_HEADER + entry * entry_count(input, e),
{
    let header = header_swapped(input);
    let other = list_swapped(input, e, entry, width);
    lemma_header_swapped(input, e);
    if list_error(input, e, entry).is_none() {
        let count = entry_count(input, e);
        lemma_swapped_elsewhere(header, LIST_HEADER as int, LIST_HEADER + entry * count, width);
        lemma_half_kept(other, header, 0, e.flipped());
        lemma_word_kept(other, header, 4, e.flipped());
        lemma_word_kept(other, header, 8, e.flipped());
        if count > 0 {
            assert(ListOnFile::of(input, e).body_len() == entry * count) by (nonlinear_arith)
                requires
                    ListOnFile::of(input, e).body_len() == ListOnFile::of(input, e).entry_size
                        * ListOnFile::of(input, e).length,
                    ListOnFile::of(input, e).entry_size == entry,
                    ListOnFile::of(input, e).length == count,
            ;
        } else {
            assert(entry * count == 0) by (nonlinear_arith)
                requires
                    count == 0,
            ;
            assert(0 <= ListOnFile::of(input, e).body_len()) by (nonlinear_arith)
                requires
                    ListOnFile::of(input, e).body_len() == ListOnFile::of(input, e).entry_size
                        * ListOnFile::of(input, e).length,
                    0 <= ListOnFile::of(input, e).entry_size,
                    0 <= ListOnFile::of(input, e).length,
            ;
        }
    }
}

/// A list of 16-bit numbers and its counterpart hold the same numbers.
pub proof fn lemma_u16_list_swapped(input: Seq<u8>, e: Endian)
    requires
        input.len() >= LIST_HEADER,
    ensures
        list_swapped(input, e, 2, 2).len() == input.len(),
        u16_at(list_swapped(input, e, 2, 2), 0, e.flipped()) == u16_at(input, 0, e),
        list_error(list_swapped(input, e, 2, 2), e.flipped(), 2) == list_error(input, e, 2),
        list_error(input, e, 2).is_none() ==> u16_entries(list_swapped(input, e, 2, 2), e.flipped())
            =~= u16_entries(input, e),
{
    let other = list_swapped(input, e, 2, 2);
    let header = header_swapped(input);
    lemma_list_swapped(input, e, 2, 2);
    lemma_header_swapped(input, e);
    if list_error(input, e, 2).is_none() {
        let count = entry_count(input, e);
        assert forall|i: int| 0 <= i < count implies #[trigger] u16_entries(other, e.flipped())[i]
            == u16_entries(input, e)[i] by {
            let at = LIST_HEADER + 2 * i;
            lemma_swapped_u16(header, LIST_HEADER as int, LIST_HEADER + 2 * count, at, e);
            lemma_half_kept(header, input, at, e);
        }
    }
}

impl<'a> Symmetric<'a> for List<'a> {
    open spec fn byte_swapped(input: Seq<u8>, e: Endian) -> Seq<u8> {
        // The entries of a list are bytes without a meaning of their own.
        header_swapped(input)
    }

    open spec fn swappable(input: Seq<u8>, e: Endian) -> bool {
        true
    }

    proof fn lemma_byte_swapped(input: Seq<u8>, e: Endian, r: Result<Self, Error>) {
        let other = header_swapped(input);
        let header = ListOnFile::of(input, e);
        lemma_header_swapped(input, e);
        if input.len() >= LIST_HEADER + header.body_len() {
            assert(0 <= header.body_len()) by (nonlinear_arith)
                requires
                    header.body_len() == header.entry_size * header.length,
                    0 <= header.entry_size,
                    0 <= header.length,
            ;
            assert(other.subrange(LIST_HEADER as int, LIST_HEADER + header.body_len()) =~= input.subrange(
                LIST_HEADER as int,
                LIST_HEADER + header.body_len(),
            ));
        }
    }
}

} // verus!
