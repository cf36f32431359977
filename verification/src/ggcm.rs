//! The costumes of a template: for every body-part set, the materials that
//! can be put on it.

use vstd::prelude::*;
use crate::error::Error;
use crate::ggf::{
    group_counterpart, lemma_accepted_within, lemma_group_counterpart, lemma_group_record_swapped,
    lemma_record_parts, record_bytes, records_apart, Group, GroupOnFile, GROUP_HEADER,
};
use crate::order::{
    lemma_word_kept, lemma_word_mirrored, mirrored, read_u32, u32_at, Endian, Loader, Symmetric,
};

verus! {

/// Size in bytes of the prefix of a costume record: the number of materials.
pub const COSTUME_PREFIX: usize = 4;

/// For every body-part set, the identifiers of its materials. The first
/// material of a set is the one it wears by default.
#[derive(Debug)]
pub struct Costumes {
    pub part_sets: Vec<Vec<u32>>,
}

/// Why record `i` of a costume group is rejected, if it is: its prefix has
/// another size than a count has, or fewer materials follow than it counts.
pub open spec fn set_error(input: Seq<u8>, e: Endian, i: int) -> Option<Error> {
    let header = GroupOnFile::of(input, e);
    if header.fixed != COSTUME_PREFIX {
        Some(Error::UnsupportedEncoding)
    } else if header.variable_of(input, i).len() < 4 * u32_at(header.fixed_of(input, i), 0, e) {
        Some(Error::TruncatedPayload)
    } else {
        None
    }
}

/// The materials of record `i` of a costume group.
pub open spec fn set_materials(input: Seq<u8>, e: Endian, i: int) -> Seq<u32> {
    let header = GroupOnFile::of(input, e);
    Seq::new(
        u32_at(header.fixed_of(input, i), 0, e) as nat,
        |k: int| u32_at(header.variable_of(input, i), 4 * k, e) as u32,
    )
}

/// The error of the first of the records `0..n` that is rejected.
pub open spec fn sets_error(input: Seq<u8>, e: Endian, n: int) -> Option<Error>
    decreases n,
{
    if n <= 0 {
        None
    } else {
        match sets_error(input, e, n - 1) {
            Some(err) => Some(err),
            None => set_error(input, e, n - 1),
        }
    }
}

/// Why a costume group is rejected, if it is.
pub open spec fn costumes_error(input: Seq<u8>, e: Endian) -> Option<Error> {
    let header = GroupOnFile::of(input, e);
    match header.error(input) {
        Some(err) => Some(err),
        None => sets_error(input, e, header.length_entries as int),
    }
}

/// Reads the materials of one record.
fn read_set(fixed: &[u8], variable: &[u8], e: Endian) -> (r: Result<Vec<u32>, Error>)
    requires
        fixed@.len() == COSTUME_PREFIX,
    ensures
        match r {
            Ok(set) => variable@.len() >= 4 * u32_at(fixed@, 0, e) && set@ == Seq::new(
                u32_at(fixed@, 0, e) as nat,
                |k: int| u32_at(variable@, 4 * k, e) as u32,
            ),
            Err(err) => err == Error::TruncatedPayload && variable@.len() < 4 * u32_at(fixed@, 0, e),
        },
{
    let count = read_u32(fixed, 0, e);
    if 4 * count as u64 > variable.len() as u64 {
        return Err(Error::TruncatedPayload);
    }
    let count = count as usize;
    let mut set: Vec<u32> = Vec::new();
    let mut k: usize = 0;
    while k < count
        invariant
            k <= count,
            4 * count <= variable.len(),
            set@.len() == k,
            forall|j: int| 0 <= j < k ==> set@[j] == u32_at(variable@, 4 * j, e) as u32,
        decreases count - k,
    {
        set.push(read_u32(variable, 4 * k, e));
        k += 1;
    }
    assert(set@ =~= Seq::new(count as nat, |k: int| u32_at(variable@, 4 * k, e) as u32));
    Ok(set)
}

impl<'a> Loader<'a> for Costumes {
    open spec fn header_len() -> nat {
        GROUP_HEADER as nat
    }

    open spec fn mark_at() -> nat {
        0
    }

    open spec fn decodes_to(input: Seq<u8>, e: Endian, r: Result<Self, Error>) -> bool {
        match costumes_error(input, e) {
            Some(err) => r == Err::<Self, Error>(err),
            None => r matches Ok(costumes) && costumes.part_sets@.len() == GroupOnFile::of(
                input,
                e,
            ).length_entries && forall|i: int|
                0 <= i < costumes.part_sets@.len() ==> (#[trigger] costumes.part_sets@[i])@
                    == set_materials(input, e, i),
        }
    }

    fn header_size() -> (n: usize) {
        GROUP_HEADER
    }

    fn mark_offset() -> (n: usize) {
        0
    }

    fn into_native(input: &'a [u8], e: Endian) -> (r: Result<Self, Error>) {
        let header = GroupOnFile::read(input, e);
        let group = match Group::from_file(&header, input) {
            Ok(group) => group,
            Err(err) => {
                return Err(err);
            },
        };
        let count = group.len();
        let mut part_sets: Vec<Vec<u32>> = Vec::new();
        let mut i: usize = 0;
        while i < count
            invariant
                i <= count,
                count == group.spec_len(),
                count == header.length_entries,
                header == GroupOnFile::of(input@, e),
                header.error(input@).is_none(),
                forall|k: int|
                    0 <= k < count ==> #[trigger] group.fixed_of(k) == header.fixed_of(input@, k)
                        && group.variable_of(k) == header.variable_of(input@, k),
                sets_error(input@, e, i as int).is_none(),
                part_sets@.len() == i,
                forall|k: int| 0 <= k < i ==> (#[trigger] part_sets@[k])@ == set_materials(input@, e, k),
            decreases count - i,
        {
            let entry = group.entry(i);
            assert(entry.fixed@ == group.fixed_of(i as int));
            assert(header.location_ok(input@, i as int));
            assert(entry.fixed@.len() == header.fixed);
            if entry.fixed.len() != COSTUME_PREFIX {
                assert(sets_error(input@, e, i + 1) == Some(Error::UnsupportedEncoding));
                proof {
                    lemma_sets_error_stays(input@, e, i + 1, count as int);
                }
                return Err(Error::UnsupportedEncoding);
            }
            match read_set(entry.fixed, entry.variable, e) {
                Ok(set) => {
                    part_sets.push(set);
                },
                Err(err) => {
                    assert(sets_error(input@, e, i + 1) == Some(err));
                    proof {
                        lemma_sets_error_stays(input@, e, i + 1, count as int);
                    }
                    return Err(err);
                },
            }
            i += 1;
        }
        Ok(Costumes { part_sets })
    }
}

/// Once a record has been rejected, the records after it do not matter.
pub proof fn lemma_sets_error_stays(input: Seq<u8>, e: Endian, n: int, m: int)
    requires
        0 <= n <= m,
        sets_error(input, e, n).is_some(),
    ensures
        sets_error(input, e, m) == sets_error(input, e, n),
    decreases m - n,
{
    if n < m {
        lemma_sets_error_stays(input, e, n, m - 1);
    }
}


/// Where byte `o` of a costume record lies in the other byte order: the
/// count and the materials it counts are numbers of four bytes; what follows
/// them is not read, and neither is a number that the record holds only a
/// part of.
#[verifier::opaque]
pub open spec fn costume_mirror(record: Seq<u8>, e: Endian, o: int) -> int {
    if o < COSTUME_PREFIX + 4 * u32_at(record, 0, e) && 4 * (o / 4) + 4 <= record.len() {
        mirrored(o, 0, 4)
    } else {
        o
    }
}

/// Where the bytes of each record of a costume group lie in the other byte order.
pub open spec fn costumes_inner(input: Seq<u8>, e: Endian) -> spec_fn(int, int) -> int {
    |i: int, o: int| costume_mirror(record_bytes(input, e, i), e, o)
}

/// The costume group as it is written in the other byte order.
pub open spec fn costumes_swapped(input: Seq<u8>, e: Endian) -> Seq<u8> {
    group_counterpart(input, e, costumes_inner(input, e))
}

/// The materials that a costume record holds.
pub open spec fn record_materials(record: Seq<u8>, e: Endian) -> Seq<u32> {
    Seq::new(u32_at(record, 0, e) as nat, |k: int| u32_at(record, COSTUME_PREFIX + 4 * k, e) as u32)
}

/// A costume record keeps its bytes within itself in the other byte order.
proof fn lemma_costume_mirror_within(record: Seq<u8>, e: Endian, o: int)
    requires
        0 <= o < record.len(),
    ensures
        0 <= costume_mirror(record, e, o) < record.len(),
{
    reveal(costume_mirror);
    let k = o / 4;
    assert(mirrored(o, 0, 4) == 4 * k + 3 - o % 4);
}

/// One number of a costume record reads the same from the record and from
/// the record whose bytes lie where `costume_mirror` says.
proof fn lemma_costume_word(record: Seq<u8>, other: Seq<u8>, e: Endian, at: int)
    requires
        other.len() == record.len(),
        forall|o: int| 0 <= o < record.len() ==> #[trigger] other[o] == record[costume_mirror(record, e, o)],
        0 <= at,
        at % 4 == 0,
        at + 4 <= COSTUME_PREFIX + 4 * u32_at(record, 0, e),
        at + 4 <= record.len(),
    ensures
        u32_at(other, at, e.flipped()) == u32_at(record, at, e),
{
    reveal(costume_mirror);
    let k = at / 4;
    assert(at == 4 * k);
    assert((at + 1) / 4 == k && (at + 2) / 4 == k && (at + 3) / 4 == k);
    assert(other[at] == record[costume_mirror(record, e, at)]);
    assert(other[at + 1] == record[costume_mirror(record, e, at + 1)]);
    assert(other[at + 2] == record[costume_mirror(record, e, at + 2)]);
    assert(other[at + 3] == record[costume_mirror(record, e, at + 3)]);
    lemma_word_mirrored(other, record, at, e);
}

/// A costume record that holds what it counts and the record whose bytes
/// lie where `costume_mirror` says hold the same materials, each in its byte
/// order.
proof fn lemma_costume_mirrored(record: Seq<u8>, other: Seq<u8>, e: Endian)
    requires
        other.len() == record.len(),
        record.len() >= COSTUME_PREFIX + 4 * u32_at(record, 0, e),
        forall|o: int| 0 <= o < record.len() ==> #[trigger] other[o] == record[costume_mirror(record, e, o)],
    ensures
        u32_at(other, 0, e.flipped()) == u32_at(record, 0, e),
        record_materials(other, e.flipped()) == record_materials(record, e),
{
    lemma_costume_word(record, other, e, 0);
    let count = u32_at(record, 0, e);
    assert forall|k: int| 0 <= k < count implies #[trigger] record_materials(other, e.flipped())[k]
        == record_materials(record, e)[k] by {
        lemma_costume_word(record, other, e, COSTUME_PREFIX + 4 * k);
    }
    assert(record_materials(other, e.flipped()) =~= record_materials(record, e));
}

/// What a record of a costume group says, in terms of the bytes of the record.
proof fn lemma_set_of_record(input: Seq<u8>, e: Endian, i: int)
    requires
        input.len() >= GROUP_HEADER,
        GroupOnFile::of(input, e).error(input).is_none(),
        GroupOnFile::of(input, e).fixed == COSTUME_PREFIX,
        0 <= i < GroupOnFile::of(input, e).length_entries,
    ensures
        ({
            let record = record_bytes(input, e, i);
            &&& record.len() >= COSTUME_PREFIX
            &&& record.len() == GroupOnFile::of(input, e).length_of(input, i)
            &&& set_error(input, e, i).is_none() <==> record.len() >= COSTUME_PREFIX + 4 * u32_at(record, 0, e)
            &&& set_error(input, e, i).is_none() ==> set_materials(input, e, i) == record_materials(record, e)
        }),
{
    let header = GroupOnFile::of(input, e);
    let record = record_bytes(input, e, i);
    assert(header.location_ok(input, i));
    lemma_record_parts(header, input, i);
    let fixed = header.fixed_of(input, i);
    let variable = header.variable_of(input, i);
    lemma_word_kept(fixed, record, 0, e);
    if set_error(input, e, i).is_none() {
        assert forall|k: int| 0 <= k < u32_at(record, 0, e) implies #[trigger] set_materials(input, e, i)[k]
            == record_materials(record, e)[k] by {
            assert(variable[4 * k] == record[4 + 4 * k]);
            assert(variable[4 * k + 1] == record[4 + 4 * k + 1]);
            assert(variable[4 * k + 2] == record[4 + 4 * k + 2]);
            assert(variable[4 * k + 3] == record[4 + 4 * k + 3]);
        }
        assert(set_materials(input, e, i) =~= record_materials(record, e));
    }
}

/// Where no record among the first `n` is rejected, record `i` among them is not.
pub proof fn lemma_sets_error_before(input: Seq<u8>, e: Endian, i: int, n: int)
    requires
        0 <= i < n,
        sets_error(input, e, n).is_none(),
    ensures
        set_error(input, e, i).is_none(),
    decreases n,
{
    if i < n - 1 {
        lemma_sets_error_before(input, e, i, n - 1);
    }
}

/// Where two groups reject the same records among the first `n` for the
/// same reasons, the first rejection among them is the same.
pub proof fn lemma_sets_error_same(a: Seq<u8>, ea: Endian, b: Seq<u8>, eb: Endian, n: int)
    requires
        forall|i: int| 0 <= i < n ==> #[trigger] set_error(b, eb, i) == set_error(a, ea, i),
    ensures
        sets_error(b, eb, n) == sets_error(a, ea, n),
    decreases n,
{
    if n > 0 {
        lemma_sets_error_same(a, ea, b, eb, n - 1);
    }
}

/// Record `i` of a costume group that is accepted as a group and whose
/// records lie apart reads the same from the group and from its
/// counterpart: it is rejected in both for the same reason, or holds the same
/// materials in both.
proof fn lemma_set_swapped(input: Seq<u8>, e: Endian, i: int)
    requires
        input.len() >= GROUP_HEADER,
        GroupOnFile::of(input, e).error(input).is_none(),
        records_apart(GroupOnFile::of(input, e), input),
        0 <= i < GroupOnFile::of(input, e).length_entries,
    ensures
        set_error(costumes_swapped(input, e), e.flipped(), i) == set_error(input, e, i),
        set_error(input, e, i).is_none() ==> set_materials(costumes_swapped(input, e), e.flipped(), i)
            == set_materials(input, e, i),
{
    let header = GroupOnFile::of(input, e);
    let inner = costumes_inner(input, e);
    let other = costumes_swapped(input, e);
    let record = record_bytes(input, e, i);
    let record2 = record_bytes(other, e.flipped(), i);
    lemma_group_counterpart(input, e, inner);
    if header.fixed == COSTUME_PREFIX {
        lemma_accepted_within(header, input);
        lemma_set_of_record(input, e, i);
        lemma_set_of_record(other, e.flipped(), i);
        assert forall|o: int| 0 <= o < header.length_of(input, i) implies 0 <= #[trigger] inner(i, o)
            < header.length_of(input, i) by {
            lemma_costume_mirror_within(record, e, o);
        }
        lemma_group_record_swapped(input, e, inner, i);
        assert forall|o: int| 0 <= o < record.len() implies #[trigger] record2[o] == record[costume_mirror(
            record,
            e,
            o,
        )] by {
            assert(record2[o] == record[inner(i, o)]);
        }
        lemma_costume_word(record, record2, e, 0);
        if set_error(input, e, i).is_none() {
            lemma_costume_mirrored(record, record2, e);
        }
    }
}

impl<'a> Symmetric<'a> for Costumes {
    open spec fn byte_swapped(input: Seq<u8>, e: Endian) -> Seq<u8> {
        costumes_swapped(input, e)
    }

    open spec fn swappable(input: Seq<u8>, e: Endian) -> bool {
        GroupOnFile::of(input, e).error(input).is_none() ==> records_apart(GroupOnFile::of(input, e), input)
    }

    proof fn lemma_byte_swapped(input: Seq<u8>, e: Endian, r: Result<Self, Error>) {
        let header = GroupOnFile::of(input, e);
        let other = costumes_swapped(input, e);
        let n = header.length_entries as int;
        lemma_group_counterpart(input, e, costumes_inner(input, e));
        if header.error(input).is_none() {
            assert forall|i: int| 0 <= i < n implies #[trigger] set_error(other, e.flipped(), i) == set_error(
                input,
                e,
                i,
            ) by {
                lemma_set_swapped(input, e, i);
            }
            lemma_sets_error_same(input, e, other, e.flipped(), n);
            if sets_error(input, e, n).is_none() {
                assert forall|i: int| 0 <= i < n implies #[trigger] set_materials(other, e.flipped(), i)
                    == set_materials(input, e, i) by {
                    lemma_sets_error_before(input, e, i, n);
                    lemma_set_swapped(input, e, i);
                }
                lemma_sets_decode(input, e, other, e.flipped(), r);
            }
        }
    }
}

/// Two accepted costume groups of as many records that hold the same
/// materials decode to the same.
proof fn lemma_sets_decode(a: Seq<u8>, ea: Endian, b: Seq<u8>, eb: Endian, r: Result<Costumes, Error>)
    requires
        costumes_error(a, ea).is_none(),
        costumes_error(b, eb).is_none(),
        GroupOnFile::of(a, ea).length_entries == GroupOnFile::of(b, eb).length_entries,
        forall|i: int|
            0 <= i < GroupOnFile::of(a, ea).length_entries ==> #[trigger] set_materials(b, eb, i)
                == set_materials(a, ea, i),
    ensures
        Costumes::decodes_to(b, eb, r) == Costumes::decodes_to(a, ea, r),
{
    if r.is_ok() {
        let costumes = r.unwrap();
        if Costumes::decodes_to(a, ea, r) {
            assert forall|i: int| 0 <= i < costumes.part_sets@.len() implies (
            #[trigger] costumes.part_sets@[i])@ == set_materials(b, eb, i) by {
                assert(set_materials(b, eb, i) == set_materials(a, ea, i));
            }
        }
        if Costumes::decodes_to(b, eb, r) {
            assert forall|i: int| 0 <= i < costumes.part_sets@.len() implies (
            #[trigger] costumes.part_sets@[i])@ == set_materials(a, ea, i) by {
                assert(set_materials(b, eb, i) == set_materials(a, ea, i));
            }
        }
    }
}

} // verus!
