//! The transforms of an action: one affine matrix per entry.

use vstd::prelude::*;
use crate::brender::Scalar;
use crate::error::Error;
use crate::glf::{
    entry_count, header_swapped, lemma_header_swapped, lemma_list_swapped, list_error, list_swapped, open_list,
    LIST_HEADER,
};
use crate::order::{lemma_swapped_u32, lemma_word_kept, Endian, Loader, Symmetric};

verus! {

/// Size in bytes of one matrix on file: four rows of three scalars.
pub const MATRIX_SIZE: usize = 48;

/// Number of scalars in one matrix.
pub const MATRIX_SCALARS: usize = 12;

/// An affine transform as stored: four rows of three scalars, row after
/// row. The first three rows are the images of the axes, the fourth is the
/// translation.
#[derive(Clone, Copy, Debug)]
pub struct Matrix34 {
    pub m: [Scalar; 12],
}

/// The transforms that the cells of an action refer to.
#[derive(Debug)]
pub struct AnimationTransforms {
    pub transforms: Vec<Matrix34>,
}

/// Scalar `k` of matrix `i` of a list of matrices.
pub open spec fn matrix_scalar(input: Seq<u8>, e: Endian, i: int, k: int) -> Scalar {
    Scalar::at(input, LIST_HEADER + MATRIX_SIZE * i + 4 * k, e)
}

/// Reads the matrix that starts at byte `at`.
fn read_matrix(input: &[u8], at: usize, e: Endian) -> (r: Matrix34)
    requires
        at + MATRIX_SIZE <= input.len(),
    ensures
        forall|k: int| 0 <= k < MATRIX_SCALARS ==> #[trigger] r.m@[k] == Scalar::at(input@, at + 4 * k, e),
{
    Matrix34 {
        m: [
            Scalar::read(input, at, e),
            Scalar::read(input, at + 4, e),
            Scalar::read(input, at + 8, e),
            Scalar::read(input, at + 12, e),
            Scalar::read(input, at + 16, e),
            Scalar::read(input, at + 20, e),
            Scalar::read(input, at + 24, e),
            Scalar::read(input, at + 28, e),
            Scalar::read(input, at + 32, e),
            Scalar::read(input, at + 36, e),
            Scalar::read(input, at + 40, e),
            Scalar::read(input, at + 44, e),
        ],
    }
}

impl<'a> Loader<'a> for AnimationTransforms {
    open spec fn header_len() -> nat {
        LIST_HEADER as nat
    }

    open spec fn mark_at() -> nat {
        0
    }

    open spec fn decodes_to(input: Seq<u8>, e: Endian, r: Result<Self, Error>) -> bool {
        match list_error(input, e, MATRIX_SIZE as int) {
            Some(err) => r == Err::<Self, Error>(err),
            None => r matches Ok(action) && action.transforms@.len() == entry_count(input, e)
                && forall|i: int, k: int|
                0 <= i < action.transforms@.len() && 0 <= k < MATRIX_SCALARS ==> (
                #[trigger] action.transforms@[i]).m@[k] == #[trigger] matrix_scalar(input, e, i, k),
        }
    }

    fn header_size() -> (n: usize) {
        LIST_HEADER
    }

    fn mark_offset() -> (n: usize) {
        0
    }

    fn into_native(input: &'a [u8], e: Endian) -> (r: Result<Self, Error>) {
        let list = match open_list(input, e, MATRIX_SIZE) {
            Ok(list) => list,
            Err(err) => {
                return Err(err);
            },
        };
        let count = list.len();
        let mut transforms: Vec<Matrix34> = Vec::new();
        let mut i: usize = 0;
        while i < count
            invariant
                i <= count,
                count == entry_count(input@, e),
                input.len() >= LIST_HEADER + MATRIX_SIZE * count,
                transforms@.len() == i,
                forall|j: int, k: int|
                    0 <= j < i && 0 <= k < MATRIX_SCALARS ==> (#[trigger] transforms@[j]).m@[k]
                        == #[trigger] matrix_scalar(input@, e, j, k),
            decreases count - i,
        {
            let matrix = read_matrix(input, LIST_HEADER + MATRIX_SIZE * i, e);
            transforms.push(matrix);
            i += 1;
        }
        Ok(AnimationTransforms { transforms })
    }
}


impl<'a> Symmetric<'a> for AnimationTransforms {
    open spec fn byte_swapped(input: Seq<u8>, e: Endian) -> Seq<u8> {
        // A matrix is twelve scalars of four bytes.
        list_swapped(input, e, MATRIX_SIZE as int, 4)
    }

    open spec fn swappable(input: Seq<u8>, e: Endian) -> bool {
        true
    }

    proof fn lemma_byte_swapped(input: Seq<u8>, e: Endian, r: Result<Self, Error>) {
        let other = list_swapped(input, e, MATRIX_SIZE as int, 4);
        let header = header_swapped(input);
        lemma_list_swapped(input, e, MATRIX_SIZE as int, 4);
        lemma_header_swapped(input, e);
        if list_error(input, e, MATRIX_SIZE as int).is_none() {
            let count = entry_count(input, e);
            assert forall|i: int, k: int| 0 <= i < count && 0 <= k < MATRIX_SCALARS implies #[trigger] matrix_scalar(
                other,
                e.flipped(),
                i,
                k,
            ) == matrix_scalar(input, e, i, k) by {
                let at = LIST_HEADER + 48 * i + 4 * k;
                lemma_swapped_u32(header, LIST_HEADER as int, LIST_HEADER + 48 * count, at, e);
                lemma_word_kept(header, input, at, e);
            }
            if r.is_ok() {
                let action = r.unwrap();
                if Self::decodes_to(input, e, r) {
                    assert forall|i: int, k: int|
                        0 <= i < action.transforms@.len() && 0 <= k < MATRIX_SCALARS implies (
                    #[trigger] action.transforms@[i]).m@[k] == #[trigger] matrix_scalar(
                        other,
                        e.flipped(),
                        i,
                        k,
                    ) by {
                        assert(action.transforms@[i].m@[k] == matrix_scalar(input, e, i, k));
                    }
                    assert(Self::decodes_to(other, e.flipped(), r));
                }
                if Self::decodes_to(other, e.flipped(), r) {
                    assert forall|i: int, k: int|
                        0 <= i < action.transforms@.len() && 0 <= k < MATRIX_SCALARS implies (
                    #[trigger] action.transforms@[i]).m@[k] == #[trigger] matrix_scalar(input, e, i, k) by {
                        assert(action.transforms@[i].m@[k] == matrix_scalar(other, e.flipped(), i, k));
                    }
                    assert(Self::decodes_to(input, e, r));
                }
            }
        }
    }
}

} // verus!
