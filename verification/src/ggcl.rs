//! The cells of an action: for every frame, the mesh and the transform of
//! every body part.

use vstd::prelude::*;
use crate::brender::Scalar;
use crate::error::Error;
use crate::ggf::{
    group_counterpart, lemma_accepted_within, lemma_group_counterpart, lemma_group_record_swapped,
    lemma_record_parts, record_bytes, records_apart, Group, GroupOnFile, GROUP_HEADER,
};
use crate::order::{
    lemma_half_mirrored, lemma_word_kept, lemma_word_mirrored, mirrored, read_u16, u16_at, Endian, Loader,
    Symmetric,
};

verus! {

/// Size in bytes of the prefix of a cell record: a sound identifier and the
/// advance of the cell.
pub const CELL_PREFIX: usize = 8;

/// Size in bytes of what a cell stores for one body part.
pub const PART_SIZE: usize = 4;

/// The model identifier that stands for "no mesh".
pub const NO_MODEL: u16 = 65535;

/// What one body part shows in one cell: its mesh, if it has one, and the
/// transform that places it.
#[derive(Clone, Copy, Debug, PartialEq, Eq, Structural)]
pub struct CellPartSpec {
    pub model_id: Option<u16>,
    pub matrix_id: u16,
}

/// One frame of an action.
#[derive(Debug)]
pub struct Cell {
    /// How far the character moves on during the cell.
    pub dwr: Scalar,
    pub parts: Vec<CellPartSpec>,
}

/// The cells of an action, in the order of its frames.
#[derive(Debug)]
pub struct AnimationCells {
    pub cells: Vec<Cell>,
}

/// What the four bytes at `at` say of a body part.
pub open spec fn part_at(s: Seq<u8>, at: int, e: Endian) -> CellPartSpec {
    let model = u16_at(s, at, e) as u16;
    CellPartSpec {
        model_id: if model == NO_MODEL { None } else { Some(model) },
        matrix_id: u16_at(s, at + 2, e) as u16,
    }
}

/// Why record `i` of a cell group is rejected, if it is: its prefix has
/// another size than a cell's, or what follows is not a whole number of
/// parts.
pub open spec fn cell_error(input: Seq<u8>, e: Endian, i: int) -> Option<Error> {
    let header = GroupOnFile::of(input, e);
    if header.fixed != CELL_PREFIX {
        Some(Error::UnsupportedEncoding)
    } else if header.variable_of(input, i).len() % (PART_SIZE as nat) != 0 {
        Some(Error::TruncatedPayload)
    } else {
        None
    }
}

/// The advance of cell `i`.
pub open spec fn cell_dwr(input: Seq<u8>, e: Endian, i: int) -> Scalar {
    Scalar::at(GroupOnFile::of(input, e).fixed_of(input, i), 4, e)
}

/// The parts of cell `i`.
pub open spec fn cell_parts(input: Seq<u8>, e: Endian, i: int) -> Seq<CellPartSpec> {
    let variable = GroupOnFile::of(input, e).variable_of(input, i);
    Seq::new(variable.len() / (PART_SIZE as nat), |k: int| part_at(variable, PART_SIZE * k, e))
}

/// The error of the first of the records `0..n` that is rejected.
pub open spec fn cells_error(input: Seq<u8>, e: Endian, n: int) -> Option<Error>
    decreases n,
{
    if n <= 0 {
        None
    } else {
        match cells_error(input, e, n - 1) {
            Some(err) => Some(err),
            None => cell_error(input, e, n - 1),
        }
    }
}

/// Why a cell group is rejected, if it is.
pub open spec fn animation_error(input: Seq<u8>, e: Endian) -> Option<Error> {
    let header = GroupOnFile::of(input, e);
    match header.error(input) {
        Some(err) => Some(err),
        None => cells_error(input, e, header.length_entries as int),
    }
}

/// Once a record has been rejected, the records after it do not matter.
pub proof fn lemma_cells_error_stays(input: Seq<u8>, e: Endian, n: int, m: int)
    requires
        0 <= n <= m,
        cells_error(input, e, n).is_some(),
    ensures
        cells_error(input, e, m) == cells_error(input, e, n),
    decreases m - n,
{
    if n < m {
        lemma_cells_error_stays(input, e, n, m - 1);
    }
}

/// Reads the parts that follow the prefix of a cell.
fn read_parts(variable: &[u8], e: Endian) -> (r: Result<Vec<CellPartSpec>, Error>)
    ensures
        match r {
            Ok(parts) => variable@.len() % (PART_SIZE as nat) == 0 && parts@ == Seq::new(
                variable@.len() / (PART_SIZE as nat),
                |k: int| part_at(variable@, PART_SIZE * k, e),
            ),
            Err(err) => err == Error::TruncatedPayload && variable@.len() % (PART_SIZE as nat) != 0,
        },
{
    if variable.len() % PART_SIZE != 0 {
        return Err(Error::TruncatedPayload);
    }
    let count = variable.len() / PART_SIZE;
    let mut parts: Vec<CellPartSpec> = Vec::new();
    let mut k: usize = 0;
    while k < count
        invariant
            k <= count,
            count == variable.len() / PART_SIZE,
            variable.len() % PART_SIZE == 0,
            parts@.len() == k,
            forall|j: int| 0 <= j < k ==> parts@[j] == part_at(variable@, PART_SIZE * j, e),
        decreases count - k,
    {
        let model = read_u16(variable, PART_SIZE * k, e);
        let matrix_id = read_u16(variable, PART_SIZE * k + 2, e);
        let model_id = if model == NO_MODEL { None } else { Some(model) };
        parts.push(CellPartSpec { model_id, matrix_id });
        k += 1;
    }
    assert(parts@ =~= Seq::new(
        variable@.len() / (PART_SIZE as nat),
        |k: int| part_at(variable@, PART_SIZE * k, e),
    ));
    Ok(parts)
}

impl<'a> Loader<'a> for AnimationCells {
    open spec fn header_len() -> nat {
        GROUP_HEADER as nat
    }

    open spec fn mark_at() -> nat {
        0
    }

    open spec fn decodes_to(input: Seq<u8>, e: Endian, r: Result<Self, Error>) -> bool {
        match animation_error(input, e) {
            Some(err) => r == Err::<Self, Error>(err),
            None => r matches Ok(animation) && animation.cells@.len() == GroupOnFile::of(
                input,
                e,
            ).length_entries && forall|i: int|
                0 <= i < animation.cells@.len() ==> (#[trigger] animation.cells@[i]).dwr == cell_dwr(
                    input,
                    e,
                    i,
                ) && animation.cells@[i].parts@ == cell_parts(input, e, i),
        }
    }

    fn header_size() -> (n: usize) {
        GROUP_HEADER
    }

    fn mark_offset() -> (n: usize) {
        0
    }

    fn into_native(input: &'a [u8], e: Endian) -> (r: Result<Self, Error>) {
        let header = GroupOnFile::read(input, e);
        let group = match Group::from_file(&header, input) {
            Ok(group) => group,
            Err(err) => {
                return Err(err);
            },
        };
        let count = group.len();
        let mut cells: Vec<Cell> = Vec::new();
        let mut i: usize = 0;
        while i < count
            invariant
                i <= count,
                count == group.spec_len(),
                count == header.length_entries,
                header == GroupOnFile::of(input@, e),
                header.error(input@).is_none(),
                forall|k: int|
                    0 <= k < count ==> #[trigger] group.fixed_of(k) == header.fixed_of(input@, k)
                        && group.variable_of(k) == header.variable_of(input@, k),
                cells_error(input@, e, i as int).is_none(),
                cells@.len() == i,
                forall|k: int|
                    0 <= k < i ==> (#[trigger] cells@[k]).dwr == cell_dwr(input@, e, k)
                        && cells@[k].parts@ == cell_parts(input@, e, k),
            decreases count - i,
        {
            let entry = group.entry(i);
            assert(entry.fixed@ == group.fixed_of(i as int));
            assert(header.location_ok(input@, i as int));
            assert(entry.fixed@.len() == header.fixed);
            if entry.fixed.len() != CELL_PREFIX {
                proof {
                    lemma_cells_error_stays(input@, e, i + 1, count as int);
                }
                return Err(Error::UnsupportedEncoding);
            }
            let dwr = Scalar::read(entry.fixed, 4, e);
            match read_parts(entry.variable, e) {
                Ok(parts) => {
                    cells.push(Cell { dwr, parts });
                },
                Err(err) => {
                    proof {
                        lemma_cells_error_stays(input@, e, i + 1, count as int);
                    }
                    return Err(err);
                },
            }
            i += 1;
        }
        Ok(AnimationCells { cells })
    }
}


/// Where byte `o` of a cell record of `length` bytes lies in the other byte
/// order: two numbers of four bytes, then numbers of two bytes. A number that
/// the record holds only a part of is not read.
#[verifier::opaque]
pub open spec fn cell_mirror(length: int, o: int) -> int {
    if o < CELL_PREFIX {
        if 4 * (o / 4) + 4 <= length {
            mirrored(o, 0, 4)
        } else {
            o
        }
    } else if CELL_PREFIX + 2 * ((o - CELL_PREFIX) / 2) + 2 <= length {
        mirrored(o, CELL_PREFIX as int, 2)
    } else {
        o
    }
}

/// Where the bytes of each record of a cell group lie in the other byte order.
pub open spec fn cells_inner(input: Seq<u8>, e: Endian) -> spec_fn(int, int) -> int {
    |i: int, o: int| cell_mirror(GroupOnFile::of(input, e).length_of(input, i), o)
}

/// The cell group as it is written in the other byte order.
pub open spec fn cells_swapped(input: Seq<u8>, e: Endian) -> Seq<u8> {
    group_counterpart(input, e, cells_inner(input, e))
}

/// The advance that a cell record holds.
pub open spec fn record_dwr(record: Seq<u8>, e: Endian) -> Scalar {
    Scalar::at(record, 4, e)
}

/// The parts that a cell record holds.
pub open spec fn record_parts(record: Seq<u8>, e: Endian) -> Seq<CellPartSpec> {
    Seq::new(
        ((record.len() - CELL_PREFIX) / (PART_SIZE as int)) as nat,
        |k: int| part_at(record, CELL_PREFIX + PART_SIZE * k, e),
    )
}

/// A cell record keeps its bytes within itself in the other byte order.
proof fn lemma_cell_mirror_within(length: int, o: int)
    requires
        0 <= o < length,
    ensures
        0 <= cell_mirror(length, o) < length,
{
    reveal(cell_mirror);
    if o < CELL_PREFIX {
        let k = o / 4;
        assert(mirrored(o, 0, 4) == 4 * k + 3 - o % 4);
    } else {
        let k = (o - 8) / 2;
        assert(mirrored(o, 8, 2) == 8 + 2 * k + 1 - (o - 8) % 2);
    }
}

/// A number of two bytes of a cell record reads the same from the record
/// and from the record whose bytes lie where `cell_mirror` says.
proof fn lemma_cell_half(record: Seq<u8>, other: Seq<u8>, e: Endian, at: int)
    requires
        other.len() == record.len(),
        forall|o: int|
            0 <= o < record.len() ==> #[trigger] other[o] == record[cell_mirror(record.len() as int, o)],
        CELL_PREFIX <= at,
        (at - CELL_PREFIX) % 2 == 0,
        at + 2 <= record.len(),
    ensures
        u16_at(other, at, e.flipped()) == u16_at(record, at, e),
{
    reveal(cell_mirror);
    let k = (at - 8) / 2;
    assert(at == 8 + 2 * k);
    assert((at + 1 - 8) / 2 == k);
    assert(other[at] == record[cell_mirror(record.len() as int, at)]);
    assert(other[at + 1] == record[cell_mirror(record.len() as int, at + 1)]);
    lemma_half_mirrored(other, record, at, e);
}

/// A cell record of a whole number of parts and the record whose bytes lie
/// where `cell_mirror` says hold the same advance and the same parts, each in
/// its byte order.
proof fn lemma_cell_mirrored(record: Seq<u8>, other: Seq<u8>, e: Endian)
    requires
        other.len() == record.len(),
        record.len() >= CELL_PREFIX,
        (record.len() - CELL_PREFIX) % 4 == 0,
        forall|o: int|
            0 <= o < record.len() ==> #[trigger] other[o] == record[cell_mirror(record.len() as int, o)],
    ensures
        record_dwr(other, e.flipped()) == record_dwr(record, e),
        record_parts(other, e.flipped()) == record_parts(record, e),
{
    let length = record.len() as int;
    assert(other[4] == record[7] && other[5] == record[6] && other[6] == record[5] && other[7] == record[4]) by {
        reveal(cell_mirror);
        assert(other[4] == record[cell_mirror(length, 4)]);
        assert(other[5] == record[cell_mirror(length, 5)]);
        assert(other[6] == record[cell_mirror(length, 6)]);
        assert(other[7] == record[cell_mirror(length, 7)]);
    }
    lemma_word_mirrored(other, record, 4, e);
    let count = (record.len() - CELL_PREFIX) / 4;
    assert forall|k: int| 0 <= k < count implies #[trigger] record_parts(other, e.flipped())[k]
        == record_parts(record, e)[k] by {
        lemma_cell_half(record, other, e, CELL_PREFIX + 4 * k);
        lemma_cell_half(record, other, e, CELL_PREFIX + 4 * k + 2);
    }
    assert(record_parts(other, e.flipped()) =~= record_parts(record, e));
}

/// What a record of a cell group says, in terms of the bytes of the record.
proof fn lemma_cell_of_record(input: Seq<u8>, e: Endian, i: int)
    requires
        input.len() >= GROUP_HEADER,
        GroupOnFile::of(input, e).error(input).is_none(),
        GroupOnFile::of(input, e).fixed == CELL_PREFIX,
        0 <= i < GroupOnFile::of(input, e).length_entries,
    ensures
        ({
            let record = record_bytes(input, e, i);
            &&& record.len() >= CELL_PREFIX
            &&& record.len() == GroupOnFile::of(input, e).length_of(input, i)
            &&& cell_error(input, e, i).is_none() <==> (record.len() - CELL_PREFIX) % 4 == 0
            &&& cell_dwr(input, e, i) == record_dwr(record, e)
            &&& cell_parts(input, e, i) == record_parts(record, e)
        }),
{
    let header = GroupOnFile::of(input, e);
    let record = record_bytes(input, e, i);
    assert(header.location_ok(input, i));
    lemma_record_parts(header, input, i);
    let fixed = header.fixed_of(input, i);
    let variable = header.variable_of(input, i);
    lemma_word_kept(fixed, record, 4, e);
    assert forall|k: int| 0 <= k < variable.len() as int / 4 implies #[trigger] cell_parts(input, e, i)[k]
        == record_parts(record, e)[k] by {
        assert(variable[4 * k] == record[8 + 4 * k]);
        assert(variable[4 * k + 1] == record[8 + 4 * k + 1]);
        assert(variable[4 * k + 2] == record[8 + 4 * k + 2]);
        assert(variable[4 * k + 3] == record[8 + 4 * k + 3]);
    }
    assert(cell_parts(input, e, i) =~= record_parts(record, e));
}

/// Where no record among the first `n` is rejected, record `i` among them is not.
pub proof fn lemma_cells_error_before(input: Seq<u8>, e: Endian, i: int, n: int)
    requires
        0 <= i < n,
        cells_error(input, e, n).is_none(),
    ensures
        cell_error(input, e, i).is_none(),
    decreases n,
{
    if i < n - 1 {
        lemma_cells_error_before(input, e, i, n - 1);
    }
}

/// Where two groups reject the same records among the first `n` for the
/// same reasons, the first rejection among them is the same.
pub proof fn lemma_cells_error_same(a: Seq<u8>, ea: Endian, b: Seq<u8>, eb: Endian, n: int)
    requires
        forall|i: int| 0 <= i < n ==> #[trigger] cell_error(b, eb, i) == cell_error(a, ea, i),
    ensures
        cells_error(b, eb, n) == cells_error(a, ea, n),
    decreases n,
{
    if n > 0 {
        lemma_cells_error_same(a, ea, b, eb, n - 1);
    }
}

/// Record `i` of a cell group that is accepted as a group and whose records
/// lie apart reads the same from the group and from its counterpart: it is
/// rejected in both for the same reason, or holds the same cell in both.
proof fn lemma_cell_swapped(input: Seq<u8>, e: Endian, i: int)
    requires
        input.len() >= GROUP_HEADER,
        GroupOnFile::of(input, e).error(input).is_none(),
        records_apart(GroupOnFile::of(input, e), input),
        0 <= i < GroupOnFile::of(input, e).length_entries,
    ensures
        cell_error(cells_swapped(input, e), e.flipped(), i) == cell_error(input, e, i),
        cell_error(input, e, i).is_none() ==> cell_dwr(cells_swapped(input, e), e.flipped(), i) == cell_dwr(
            input,
            e,
            i,
        ) && cell_parts(cells_swapped(input, e), e.flipped(), i) == cell_parts(input, e, i),
{
    let header = GroupOnFile::of(input, e);
    let inner = cells_inner(input, e);
    let other = cells_swapped(input, e);
    let record = record_bytes(input, e, i);
    let record2 = record_bytes(other, e.flipped(), i);
    lemma_group_counterpart(input, e, inner);
    if header.fixed == CELL_PREFIX {
        lemma_accepted_within(header, input);
        lemma_cell_of_record(input, e, i);
        lemma_cell_of_record(other, e.flipped(), i);
        assert forall|o: int| 0 <= o < header.length_of(input, i) implies 0 <= #[trigger] inner(i, o)
            < header.length_of(input, i) by {
            lemma_cell_mirror_within(header.length_of(input, i), o);
        }
        lemma_group_record_swapped(input, e, inner, i);
        if cell_error(input, e, i).is_none() {
            assert forall|o: int| 0 <= o < record.len() implies #[trigger] record2[o] == record[cell_mirror(
                record.len() as int,
                o,
            )] by {
                assert(record2[o] == record[inner(i, o)]);
            }
            lemma_cell_mirrored(record, record2, e);
        }
    }
}

/// Two accepted cell groups of as many records that hold the same cells
/// decode to the same.
proof fn lemma_cells_decode(a: Seq<u8>, ea: Endian, b: Seq<u8>, eb: Endian, r: Result<AnimationCells, Error>)
    requires
        animation_error(a, ea).is_none(),
        animation_error(b, eb).is_none(),
        GroupOnFile::of(a, ea).length_entries == GroupOnFile::of(b, eb).length_entries,
        forall|i: int|
            0 <= i < GroupOnFile::of(a, ea).length_entries ==> #[trigger] cell_dwr(b, eb, i) == cell_dwr(
                a,
                ea,
                i,
            ) && cell_parts(b, eb, i) == cell_parts(a, ea, i),
    ensures
        AnimationCells::decodes_to(b, eb, r) == AnimationCells::decodes_to(a, ea, r),
{
    if r.is_ok() {
        let animation = r.unwrap();
        if AnimationCells::decodes_to(a, ea, r) {
            assert forall|i: int| 0 <= i < animation.cells@.len() implies (
            #[trigger] animation.cells@[i]).dwr == cell_dwr(b, eb, i) && animation.cells@[i].parts@
                == cell_parts(b, eb, i) by {
                assert(cell_dwr(b, eb, i) == cell_dwr(a, ea, i));
            }
        }
        if AnimationCells::decodes_to(b, eb, r) {
            assert forall|i: int| 0 <= i < animation.cells@.len() implies (
            #[trigger] animation.cells@[i]).dwr == cell_dwr(a, ea, i) && animation.cells@[i].parts@
                == cell_parts(a, ea, i) by {
                assert(cell_dwr(b, eb, i) == cell_dwr(a, ea, i));
            }
        }
    }
}

impl<'a> Symmetric<'a> for AnimationCells {
    open spec fn byte_swapped(input: Seq<u8>, e: Endian) -> Seq<u8> {
        cells_swapped(input, e)
    }

    open spec fn swappable(input: Seq<u8>, e: Endian) -> bool {
        GroupOnFile::of(input, e).error(input).is_none() ==> records_apart(GroupOnFile::of(input, e), input)
    }

    proof fn lemma_byte_swapped(input: Seq<u8>, e: Endian, r: Result<Self, Error>) {
        let header = GroupOnFile::of(input, e);
        let other = cells_swapped(input, e);
        let n = header.length_entries as int;
        lemma_group_counterpart(input, e, cells_inner(input, e));
        if header.error(input).is_none() {
            assert forall|i: int| 0 <= i < n implies #[trigger] cell_error(other, e.flipped(), i)
                == cell_error(input, e, i) by {
                lemma_cell_swapped(input, e, i);
            }
            lemma_cells_error_same(input, e, other, e.flipped(), n);
            if cells_error(input, e, n).is_none() {
                assert forall|i: int| 0 <= i < n implies #[trigger] cell_dwr(other, e.flipped(), i)
                    == cell_dwr(input, e, i) && cell_parts(other, e.flipped(), i) == cell_parts(input, e, i) by {
                    lemma_cells_error_before(input, e, i, n);
                    lemma_cell_swapped(input, e, i);
                }
                lemma_cells_decode(input, e, other, e.flipped(), r);
            }
        }
    }
}

} // verus!
