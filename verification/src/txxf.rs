//! Texture transforms: the part of a texture that a material shows.

use vstd::prelude::*;
use crate::atlas::PixelSize;
use crate::error::Error;
use crate::order::{
    i32_at, lemma_permuted, lemma_permuted_u16, lemma_permuted_u32, mirrored, permuted, read_i32, Endian,
    Loader, Symmetric,
};

verus! {

/// Size in bytes of a texture-transform record.
pub const TEXTURE_TRANSFORM_SIZE: usize = 28;

/// One in the fixed-point unit of the coordinates.
pub const ONE: i64 = 65536;

/// Greatest magnitude that a coordinate read from a record can have: three
/// scalars added up.
pub const COORDINATE_LIMIT: i64 = 0x1_8000_0000;

/// The box that the unit square of texture coordinates is mapped to: the
/// images of `(0, 0)` and of `(1, 1)`. Coordinates are stored integers over
/// 65536.
#[derive(Clone, Copy, Debug, PartialEq, Eq, Structural)]
pub struct TextureTransform {
    pub min_x: i64,
    pub min_y: i64,
    pub max_x: i64,
    pub max_y: i64,
}

/// The number of pixels, rounded up, that `coordinate` spans on a texture
/// of `pixels` pixels; 0 for a negative coordinate, and no more than a
/// `u32` holds.
pub open spec fn pixels_up_to(coordinate: int, pixels: int) -> int {
    if coordinate <= 0 {
        0
    } else {
        let whole = (coordinate * pixels + (ONE - 1)) / (ONE as int);
        if whole > u32::MAX {
            u32::MAX as int
        } else {
            whole
        }
    }
}

impl TextureTransform {
    /// Every coordinate is one that a record can hold.
    pub open spec fn wf(self) -> bool {
        &&& -COORDINATE_LIMIT <= self.min_x <= COORDINATE_LIMIT
        &&& -COORDINATE_LIMIT <= self.min_y <= COORDINATE_LIMIT
        &&& -COORDINATE_LIMIT <= self.max_x <= COORDINATE_LIMIT
        &&& -COORDINATE_LIMIT <= self.max_y <= COORDINATE_LIMIT
    }

    /// The transform that leaves texture coordinates as they are.
    pub open spec fn identity() -> TextureTransform {
        TextureTransform { min_x: 0, min_y: 0, max_x: ONE, max_y: ONE }
    }

    /// The transform that `input` holds, read in byte order `e`: a matrix of
    /// three rows of two scalars, of which the last row is the image of
    /// `(0, 0)` and the sum of the rows the image of `(1, 1)`.
    pub open spec fn of(input: Seq<u8>, e: Endian) -> TextureTransform {
        TextureTransform {
            min_x: i32_at(input, 20, e) as i64,
            min_y: i32_at(input, 24, e) as i64,
            max_x: (i32_at(input, 4, e) + i32_at(input, 12, e) + i32_at(input, 20, e)) as i64,
            max_y: (i32_at(input, 8, e) + i32_at(input, 16, e) + i32_at(input, 24, e)) as i64,
        }
    }

    /// Width and height of the box.
    pub fn size(&self) -> (r: (i64, i64))
        requires
            self.wf(),
        ensures
            r.0 == self.max_x - self.min_x,
            r.1 == self.max_y - self.min_y,
    {
        (self.max_x - self.min_x, self.max_y - self.min_y)
    }

    /// The size in pixels, rounded up, of what the transform shows of a
    /// texture of `width` by `height` pixels, measured from the texture's
    /// origin to the image of `(1, 1)`.
    pub fn pixel_size(&self, width: u16, height: u16) -> (r: PixelSize)
        requires
            self.wf(),
        ensures
            r.width == pixels_up_to(self.max_x as int, width as int),
            r.height == pixels_up_to(self.max_y as int, height as int),
    {
        PixelSize { width: pixels_of(self.max_x, width), height: pixels_of(self.max_y, height) }
    }
}

/// Computes `pixels_up_to`.
fn pixels_of(coordinate: i64, pixels: u16) -> (r: u32)
    requires
        -COORDINATE_LIMIT <= coordinate <= COORDINATE_LIMIT,
    ensures
        r == pixels_up_to(coordinate as int, pixels as int),
{
    if coordinate <= 0 {
        return 0;
    }
    assert(coordinate * pixels <= COORDINATE_LIMIT * 65535) by (nonlinear_arith)
        requires
            0 < coordinate <= COORDINATE_LIMIT,
            0 <= pixels <= 65535,
    ;
    assert(0 <= coordinate * pixels) by (nonlinear_arith)
        requires
            0 < coordinate,
            0 <= pixels,
    ;
    let whole = (coordinate * pixels as i64 + (ONE - 1)) / ONE;
    if whole > u32::MAX as i64 {
        u32::MAX
    } else {
        whole as u32
    }
}

impl Default for TextureTransform {
    fn default() -> (r: Self)
        ensures
            r == TextureTransform::identity(),
    {
        TextureTransform { min_x: 0, min_y: 0, max_x: ONE, max_y: ONE }
    }
}

impl<'a> Loader<'a> for TextureTransform {
    open spec fn header_len() -> nat {
        TEXTURE_TRANSFORM_SIZE as nat
    }

    open spec fn mark_at() -> nat {
        0
    }

    open spec fn decodes_to(input: Seq<u8>, e: Endian, r: Result<Self, Error>) -> bool {
        r == Ok::<Self, Error>(TextureTransform::of(input, e)) && TextureTransform::of(input, e).wf()
    }

    fn header_size() -> (n: usize) {
        TEXTURE_TRANSFORM_SIZE
    }

    fn mark_offset() -> (n: usize) {
        0
    }

    fn into_native(input: &'a [u8], e: Endian) -> (r: Result<Self, Error>) {
        let m00 = read_i32(input, 4, e) as i64;
        let m01 = read_i32(input, 8, e) as i64;
        let m10 = read_i32(input, 12, e) as i64;
        let m11 = read_i32(input, 16, e) as i64;
        let m20 = read_i32(input, 20, e) as i64;
        let m21 = read_i32(input, 24, e) as i64;
        Ok(
            TextureTransform {
                min_x: m20,
                min_y: m21,
                max_x: m00 + m10 + m20,
                max_y: m01 + m11 + m21,
            },
        )
    }
}


/// Where byte `o` of a texture transform lies in the other byte order: the
/// mark and the word after it, then the six scalars of the matrix.
pub open spec fn transform_mirror(o: int) -> int {
    if o < 4 {
        mirrored(o, 0, 2)
    } else if o < 28 {
        mirrored(o, 4, 4)
    } else {
        o
    }
}

impl<'a> Symmetric<'a> for TextureTransform {
    open spec fn byte_swapped(input: Seq<u8>, e: Endian) -> Seq<u8> {
        permuted(input, |o: int| transform_mirror(o))
    }

    open spec fn swappable(input: Seq<u8>, e: Endian) -> bool {
        true
    }

    proof fn lemma_byte_swapped(input: Seq<u8>, e: Endian, r: Result<Self, Error>) {
        let mirror = |o: int| transform_mirror(o);
        lemma_permuted(input, mirror);
        lemma_permuted_u16(input, mirror, 0, e);
        lemma_permuted_u32(input, mirror, 4, e);
        lemma_permuted_u32(input, mirror, 8, e);
        lemma_permuted_u32(input, mirror, 12, e);
        lemma_permuted_u32(input, mirror, 16, e);
        lemma_permuted_u32(input, mirror, 20, e);
        lemma_permuted_u32(input, mirror, 24, e);
    }
}

} // verus!
