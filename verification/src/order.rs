//! Byte-order detection and endian-aware field reads.
//!
//! Every record starts with (or contains at a fixed place) a 16-bit mark that
//! reads `0x0001` in the byte order the record was written in.

use vstd::prelude::*;
use crate::error::Error;

verus! {

/// Value of the byte-order mark when read in the record's own byte order.
pub const BYTE_ORDER_NATIVE: u16 = 0x0001;

/// Value of the byte-order mark when read in the opposite byte order.
pub const BYTE_ORDER_SWAPPED: u16 = 0x0100;

/// Byte order of a record on file.
#[derive(Clone, Copy, Debug, PartialEq, Eq, Structural)]
pub enum Endian {
    Little,
    Big,
}

impl Endian {
    /// The opposite byte order.
    pub open spec fn flipped(self) -> Endian {
        match self {
            Endian::Little => Endian::Big,
            Endian::Big => Endian::Little,
        }
    }
}

/// The unsigned 16-bit value stored at `s[at..at + 2]` in byte order `e`.
pub open spec fn u16_at(s: Seq<u8>, at: int, e: Endian) -> int {
    match e {
        Endian::Little => s[at] as int + 256 * (s[at + 1] as int),
        Endian::Big => 256 * (s[at] as int) + s[at + 1] as int,
    }
}

/// The unsigned 32-bit value stored at `s[at..at + 4]` in byte order `e`.
pub open spec fn u32_at(s: Seq<u8>, at: int, e: Endian) -> int {
    match e {
        Endian::Little => s[at] as int + 256 * (s[at + 1] as int) + 65536 * (s[at + 2] as int)
            + 16777216 * (s[at + 3] as int),
        Endian::Big => 16777216 * (s[at] as int) + 65536 * (s[at + 1] as int) + 256 * (s[at + 2] as int)
            + s[at + 3] as int,
    }
}

/// Two's-complement reading of a 16-bit pattern.
pub open spec fn as_signed16(v: int) -> int {
    if v >= 0x8000 { v - 0x1_0000 } else { v }
}

/// Two's-complement reading of a 32-bit pattern.
pub open spec fn as_signed32(v: int) -> int {
    if v >= 0x8000_0000 { v - 0x1_0000_0000 } else { v }
}

/// The signed 16-bit value stored at `s[at..at + 2]` in byte order `e`.
pub open spec fn i16_at(s: Seq<u8>, at: int, e: Endian) -> int {
    as_signed16(u16_at(s, at, e))
}

/// The signed 32-bit value stored at `s[at..at + 4]` in byte order `e`.
pub open spec fn i32_at(s: Seq<u8>, at: int, e: Endian) -> int {
    as_signed32(u32_at(s, at, e))
}

/// Reads the unsigned 16-bit field at byte `at`.
pub fn read_u16(input: &[u8], at: usize, e: Endian) -> (v: u16)
    requires
        at + 2 <= input.len(),
    ensures
        v as int == u16_at(input@, at as int, e),
{
    let first = input[at] as u16;
    let second = input[at + 1] as u16;
    match e {
        Endian::Little => first + 256 * second,
        Endian::Big => 256 * first + second,
    }
}

/// Reads the unsigned 32-bit field at byte `at`.
pub fn read_u32(input: &[u8], at: usize, e: Endian) -> (v: u32)
    requires
        at + 4 <= input.len(),
    ensures
        v as int == u32_at(input@, at as int, e),
{
    let first = input[at] as u32;
    let second = input[at + 1] as u32;
    let third = input[at + 2] as u32;
    let fourth = input[at + 3] as u32;
    match e {
        Endian::Little => first + 256 * second + 65536 * third + 16777216 * fourth,
        Endian::Big => 16777216 * first + 65536 * second + 256 * third + fourth,
    }
}

/// Reads the signed 16-bit field at byte `at`.
pub fn read_i16(input: &[u8], at: usize, e: Endian) -> (v: i16)
    requires
        at + 2 <= input.len(),
    ensures
        v as int == i16_at(input@, at as int, e),
{
    let raw = read_u16(input, at, e);
    if raw >= 0x8000 {
        ((raw - 0x8000) as i16) - 0x7FFF - 1
    } else {
        raw as i16
    }
}

/// Reads the signed 32-bit field at byte `at`.
pub fn read_i32(input: &[u8], at: usize, e: Endian) -> (v: i32)
    requires
        at + 4 <= input.len(),
    ensures
        v as int == i32_at(input@, at as int, e),
{
    let raw = read_u32(input, at, e);
    if raw >= 0x8000_0000 {
        ((raw - 0x8000_0000) as i32) - 0x7FFF_FFFF - 1
    } else {
        raw as i32
    }
}

/// The byte order announced by the mark at byte `at`, if it is one of the two
/// known values.
pub open spec fn mark_of(s: Seq<u8>, at: int) -> Option<Endian> {
    let mark = u16_at(s, at, Endian::Little);
    if mark == BYTE_ORDER_NATIVE as int {
        Some(Endian::Little)
    } else if mark == BYTE_ORDER_SWAPPED as int {
        Some(Endian::Big)
    } else {
        None
    }
}

/// Decides the byte order of a record from the mark at byte `at`.
///
/// The mark is read as little-endian; `0x0001` then means the record is
/// little-endian and `0x0100` that it is big-endian.
pub fn detect(input: &[u8], at: usize) -> (r: Result<Endian, Error>)
    requires
        at + 2 <= input.len(),
    ensures
        r == match mark_of(input@, at as int) {
            Some(e) => Ok::<Endian, Error>(e),
            None => Err(Error::UnknownByteOrder),
        },
{
    let mark = read_u16(input, at, Endian::Little);
    if mark == BYTE_ORDER_NATIVE {
        Ok(Endian::Little)
    } else if mark == BYTE_ORDER_SWAPPED {
        Ok(Endian::Big)
    } else {
        Err(Error::UnknownByteOrder)
    }
}

/// A record that can be decoded from bytes written in either byte order.
pub trait Loader<'a>: Sized {
    /// Size in bytes of the fixed header that every record of this type starts with.
    spec fn header_len() -> nat;

    /// Position of the byte-order mark inside the header.
    spec fn mark_at() -> nat;

    /// Whether `r` is the outcome of decoding `input` as a record written in
    /// byte order `e`.
    spec fn decodes_to(input: Seq<u8>, e: Endian, r: Result<Self, Error>) -> bool;

    /// Size in bytes of the fixed header.
    fn header_size() -> (n: usize)
        ensures
            n == Self::header_len(),
            Self::mark_at() + 2 <= n,
    ;

    /// Position of the byte-order mark inside the header.
    fn mark_offset() -> (n: usize)
        ensures
            n == Self::mark_at(),
    ;

    /// Decodes a record whose byte order is already known.
    fn into_native(input: &'a [u8], e: Endian) -> (r: Result<Self, Error>)
        requires
            input@.len() >= Self::header_len(),
        ensures
            Self::decodes_to(input@, e, r),
    ;

    /// Decodes a record, taking the byte order from its mark.
    fn load(input: &'a [u8]) -> (r: Result<Self, Error>)
        ensures
            input@.len() < Self::header_len() ==> r == Err::<Self, Error>(Error::TruncatedHeader),
            input@.len() >= Self::header_len() ==> match mark_of(input@, Self::mark_at() as int) {
                Some(e) => Self::decodes_to(input@, e, r),
                None => r == Err::<Self, Error>(Error::UnknownByteOrder),
            },
    {
        let n = Self::header_size();
        if input.len() < n {
            return Err(Error::TruncatedHeader);
        }
        match detect(input, Self::mark_offset()) {
            Ok(e) => Self::into_native(input, e),
            Err(err) => Err(err),
        }
    }
}

/// Whether `r` is the outcome of loading `input` as a `T`: too short an input
/// is a truncated header, an unknown mark is rejected, and otherwise the
/// record is decoded in the byte order that the mark announces.
pub open spec fn loads_to<'a, T: Loader<'a>>(input: Seq<u8>, r: Result<T, Error>) -> bool {
    if input.len() < T::header_len() {
        r == Err::<T, Error>(Error::TruncatedHeader)
    } else {
        match mark_of(input, T::mark_at() as int) {
            Some(e) => T::decodes_to(input, e, r),
            None => r == Err::<T, Error>(Error::UnknownByteOrder),
        }
    }
}


/// Where byte `o` of a run of fields of `width` bytes that starts at `from`
/// lies when every field has its bytes in reverse order.
pub open spec fn mirrored(o: int, from: int, width: int) -> int {
    from + ((o - from) / width) * width + (width - 1 - (o - from) % width)
}

/// The bytes of `s`, each taken from where `mirror` says.
#[verifier::opaque]
pub open spec fn permuted(s: Seq<u8>, mirror: spec_fn(int) -> int) -> Seq<u8> {
    Seq::new(s.len(), |i: int| s[mirror(i)])
}

/// What `permuted` holds.
pub proof fn lemma_permuted(s: Seq<u8>, mirror: spec_fn(int) -> int)
    ensures
        permuted(s, mirror).len() == s.len(),
        forall|i: int| 0 <= i < s.len() ==> #[trigger] permuted(s, mirror)[i] == s[mirror(i)],
{
    reveal(permuted);
}

/// A 16-bit field whose two bytes change places reads in the other byte
/// order as it read before.
pub proof fn lemma_permuted_u16(s: Seq<u8>, mirror: spec_fn(int) -> int, at: int, e: Endian)
    requires
        0 <= at,
        at + 2 <= s.len(),
        mirror(at) == at + 1,
        mirror(at + 1) == at,
    ensures
        u16_at(permuted(s, mirror), at, e.flipped()) == u16_at(s, at, e),
        i16_at(permuted(s, mirror), at, e.flipped()) == i16_at(s, at, e),
{
    lemma_permuted(s, mirror);
    let other = permuted(s, mirror);
    assert(other[at] == s[mirror(at)]);
    assert(other[at + 1] == s[mirror(at + 1)]);
    lemma_half_mirrored(other, s, at, e);
}

/// A 32-bit field whose four bytes are put in reverse order reads in the
/// other byte order as it read before.
pub proof fn lemma_permuted_u32(s: Seq<u8>, mirror: spec_fn(int) -> int, at: int, e: Endian)
    requires
        0 <= at,
        at + 4 <= s.len(),
        mirror(at) == at + 3,
        mirror(at + 1) == at + 2,
        mirror(at + 2) == at + 1,
        mirror(at + 3) == at,
    ensures
        u32_at(permuted(s, mirror), at, e.flipped()) == u32_at(s, at, e),
        i32_at(permuted(s, mirror), at, e.flipped()) == i32_at(s, at, e),
{
    lemma_permuted(s, mirror);
    let other = permuted(s, mirror);
    assert(other[at] == s[mirror(at)]);
    assert(other[at + 1] == s[mirror(at + 1)]);
    assert(other[at + 2] == s[mirror(at + 2)]);
    assert(other[at + 3] == s[mirror(at + 3)]);
    lemma_word_mirrored(other, s, at, e);
}

/// `s` with every group of `width` bytes between `from` and `to` in reverse
/// order: what a run of fields of `width` bytes looks like in the other byte
/// order. A group that `s` does not hold whole is left as it is.
#[verifier::opaque]
pub open spec fn swapped_run(s: Seq<u8>, from: int, to: int, width: int) -> Seq<u8> {
    Seq::new(
        s.len(),
        |i: int|
            if from <= i < to && from + ((i - from) / width) * width + width <= to && from + ((i - from)
                / width) * width + width <= s.len() {
                s[mirrored(i, from, width)]
            } else {
                s[i]
            },
    )
}

/// Two bytes in reverse order read in the other byte order as they read before.
pub proof fn lemma_half_mirrored(other: Seq<u8>, s: Seq<u8>, at: int, e: Endian)
    requires
        other[at] == s[at + 1],
        other[at + 1] == s[at],
    ensures
        u16_at(other, at, e.flipped()) == u16_at(s, at, e),
        i16_at(other, at, e.flipped()) == i16_at(s, at, e),
{
}

/// Four bytes in reverse order read in the other byte order as they read before.
pub proof fn lemma_word_mirrored(other: Seq<u8>, s: Seq<u8>, at: int, e: Endian)
    requires
        other[at] == s[at + 3],
        other[at + 1] == s[at + 2],
        other[at + 2] == s[at + 1],
        other[at + 3] == s[at],
    ensures
        u32_at(other, at, e.flipped()) == u32_at(s, at, e),
        i32_at(other, at, e.flipped()) == i32_at(s, at, e),
{
}

/// Two bytes that stay read as they read before.
pub proof fn lemma_half_kept(other: Seq<u8>, s: Seq<u8>, at: int, e: Endian)
    requires
        other[at] == s[at],
        other[at + 1] == s[at + 1],
    ensures
        u16_at(other, at, e) == u16_at(s, at, e),
{
}

/// Four bytes that stay read as they read before.
pub proof fn lemma_word_kept(other: Seq<u8>, s: Seq<u8>, at: int, e: Endian)
    requires
        other[at] == s[at],
        other[at + 1] == s[at + 1],
        other[at + 2] == s[at + 2],
        other[at + 3] == s[at + 3],
    ensures
        u32_at(other, at, e) == u32_at(s, at, e),
{
}

/// A swapped run is as long as what was swapped, and what lies outside the
/// run is as it was.
pub proof fn lemma_swapped_elsewhere(s: Seq<u8>, from: int, to: int, width: int)
    ensures
        swapped_run(s, from, to, width).len() == s.len(),
        forall|i: int|
            0 <= i < s.len() && (i < from || i >= to) ==> #[trigger] swapped_run(s, from, to, width)[i]
                == s[i],
{
    reveal(swapped_run);
}

/// A 16-bit field of a swapped run reads in the other byte order as it read
/// before.
pub proof fn lemma_swapped_u16(s: Seq<u8>, from: int, to: int, at: int, e: Endian)
    requires
        0 <= from <= at,
        (at - from) % 2 == 0,
        at + 2 <= to,
        at + 2 <= s.len(),
    ensures
        u16_at(swapped_run(s, from, to, 2), at, e.flipped()) == u16_at(s, at, e),
{
    reveal(swapped_run);
    let k = (at - from) / 2;
    assert(at == from + k * 2);
    assert((at + 1 - from) / 2 == k);
    let other = swapped_run(s, from, to, 2);
    assert(other[at] == s[at + 1]);
    assert(other[at + 1] == s[at]);
    lemma_half_mirrored(other, s, at, e);
}

/// A 32-bit field of a swapped run reads in the other byte order as it read
/// before.
pub proof fn lemma_swapped_u32(s: Seq<u8>, from: int, to: int, at: int, e: Endian)
    requires
        0 <= from <= at,
        (at - from) % 4 == 0,
        at + 4 <= to,
        at + 4 <= s.len(),
    ensures
        u32_at(swapped_run(s, from, to, 4), at, e.flipped()) == u32_at(s, at, e),
{
    reveal(swapped_run);
    let k = (at - from) / 4;
    assert(at == from + k * 4);
    assert((at + 1 - from) / 4 == k);
    assert((at + 2 - from) / 4 == k);
    assert((at + 3 - from) / 4 == k);
    let other = swapped_run(s, from, to, 4);
    assert(other[at] == s[at + 3]);
    assert(other[at + 1] == s[at + 2]);
    assert(other[at + 2] == s[at + 1]);
    assert(other[at + 3] == s[at]);
    lemma_word_mirrored(other, s, at, e);
}

/// A record of which every input has a counterpart in the other byte order.
pub trait Symmetric<'a>: Loader<'a> {
    /// The record `input`, written in byte order `e`, as it is written in
    /// the other byte order: every field of more than one byte that is read
    /// has its bytes in reverse order.
    spec fn byte_swapped(input: Seq<u8>, e: Endian) -> Seq<u8>;

    /// Whether `input` has a counterpart: no byte of it belongs to two
    /// fields. Only records whose fields lie where other fields say can fail
    /// this.
    spec fn swappable(input: Seq<u8>, e: Endian) -> bool;

    /// The counterpart is as long, carries the mark of the other byte order,
    /// and decodes in the other byte order to what the record decodes to.
    proof fn lemma_byte_swapped(input: Seq<u8>, e: Endian, r: Result<Self, Error>)
        requires
            input.len() >= Self::header_len(),
            Self::swappable(input, e),
        ensures
            Self::byte_swapped(input, e).len() == input.len(),
            u16_at(Self::byte_swapped(input, e), Self::mark_at() as int, e.flipped()) == u16_at(
                input,
                Self::mark_at() as int,
                e,
            ),
            Self::decodes_to(Self::byte_swapped(input, e), e.flipped(), r) == Self::decodes_to(input, e, r),
    ;
}

/// Loading does not depend on the byte order that a record is written in:
/// a record and its counterpart in the other byte order load to the same.
pub proof fn lemma_endianness_symmetry<'a, T: Symmetric<'a>>(input: Seq<u8>, e: Endian, r: Result<T, Error>)
    requires
        input.len() >= T::header_len(),
        T::mark_at() + 2 <= T::header_len(),
        mark_of(input, T::mark_at() as int) == Some(e),
        T::swappable(input, e),
    ensures
        mark_of(T::byte_swapped(input, e), T::mark_at() as int) == Some(e.flipped()),
        loads_to::<T>(T::byte_swapped(input, e), r) == loads_to::<T>(input, r),
{
    T::lemma_byte_swapped(input, e, r);
}

} // verus!
