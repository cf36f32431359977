//! Texture maps: palettized 8-bit images.

use vstd::prelude::*;
use crate::error::Error;
use crate::order::{
    lemma_permuted, lemma_permuted_u16, mirrored, permuted, read_u16, u16_at, Endian, Loader, Symmetric,
};

verus! {

/// Size in bytes of the texture-map header.
pub const TEXTURE_MAP_HEADER: usize = 20;

/// The only pixel format that is read: one palette index per byte.
pub const PIXEL_INDEX_8: u8 = 3;

/// A palettized image, stored row by row without padding.
#[derive(Debug)]
pub struct TextureMap {
    pub width: u16,
    pub height: u16,
    pub data: Vec<u8>,
}

impl TextureMap {
    /// The pixel data has exactly `width * height` bytes.
    pub open spec fn wf(&self) -> bool {
        self.data@.len() == self.width as int * self.height as int
    }

    /// The palette index at column `x` of row `y`.
    pub open spec fn pixel(&self, x: int, y: int) -> u8 {
        self.data@[y * (self.width as int) + x]
    }
}

/// Row length on file, in bytes.
pub open spec fn stride_of(input: Seq<u8>, e: Endian) -> int {
    u16_at(input, 4, e)
}

/// Width in pixels.
pub open spec fn width_of(input: Seq<u8>, e: Endian) -> int {
    u16_at(input, 12, e)
}

/// Height in pixels.
pub open spec fn height_of(input: Seq<u8>, e: Endian) -> int {
    u16_at(input, 14, e)
}

/// Why a texture map is rejected, if it is.
pub open spec fn texture_error(input: Seq<u8>, e: Endian) -> Option<Error> {
    if input[6] != PIXEL_INDEX_8 {
        Some(Error::UnsupportedEncoding)
    } else if u16_at(input, 8, e) != 0 || u16_at(input, 10, e) != 0 || u16_at(input, 16, e) != 0
        || u16_at(input, 18, e) != 0 {
        Some(Error::UnsupportedEncoding)
    } else if stride_of(input, e) < width_of(input, e) {
        Some(Error::UnsupportedEncoding)
    } else if input.len() < TEXTURE_MAP_HEADER + height_of(input, e) * stride_of(input, e) {
        Some(Error::TruncatedPayload)
    } else {
        None
    }
}

/// The pixels of an accepted texture map: of each row on file, the first
/// `width` bytes.
pub open spec fn texture_pixels(input: Seq<u8>, e: Endian) -> Seq<u8> {
    let w = width_of(input, e);
    let stride = stride_of(input, e);
    Seq::new(
        (w * height_of(input, e)) as nat,
        |i: int| input[TEXTURE_MAP_HEADER as int + (i / w) * stride + i % w],
    )
}

proof fn lemma_row_fits(y: int, h: int, stride: int, w: int)
    requires
        0 <= y < h,
        0 <= w <= stride,
    ensures
        y * stride + stride <= h * stride,
        y * w + w <= h * w,
        0 <= y * stride,
        0 <= y * w,
{
    assert(y * stride + stride == (y + 1) * stride) by (nonlinear_arith);
    assert((y + 1) * stride <= h * stride) by (nonlinear_arith)
        requires
            y + 1 <= h,
            0 <= stride,
    ;
    assert(y * w + w == (y + 1) * w) by (nonlinear_arith);
    assert((y + 1) * w <= h * w) by (nonlinear_arith)
        requires
            y + 1 <= h,
            0 <= w,
    ;
    assert(0 <= y * stride) by (nonlinear_arith)
        requires
            0 <= y,
            0 <= stride,
    ;
    assert(0 <= y * w) by (nonlinear_arith)
        requires
            0 <= y,
            0 <= w,
    ;
}

proof fn lemma_pixel_index(i: int, y: int, x: int, w: int)
    requires
        0 <= x < w,
        0 <= y,
        i == y * w + x,
    ensures
        i / w == y,
        i % w == x,
{
    vstd::arithmetic::div_mod::lemma_fundamental_div_mod_converse(i, w, y, x);
}

impl<'a> Loader<'a> for TextureMap {
    open spec fn header_len() -> nat {
        TEXTURE_MAP_HEADER as nat
    }

    open spec fn mark_at() -> nat {
        0
    }

    open spec fn decodes_to(input: Seq<u8>, e: Endian, r: Result<Self, Error>) -> bool {
        match texture_error(input, e) {
            Some(err) => r == Err::<Self, Error>(err),
            None => r matches Ok(t) && t.width as int == width_of(input, e) && t.height as int
                == height_of(input, e) && t.data@ == texture_pixels(input, e) && t.wf(),
        }
    }

    fn header_size() -> (n: usize) {
        TEXTURE_MAP_HEADER
    }

    fn mark_offset() -> (n: usize) {
        0
    }

    fn into_native(input: &'a [u8], e: Endian) -> (r: Result<Self, Error>) {
        if input[6] != PIXEL_INDEX_8 {
            return Err(Error::UnsupportedEncoding);
        }
        if read_u16(input, 8, e) != 0 || read_u16(input, 10, e) != 0 || read_u16(input, 16, e) != 0
            || read_u16(input, 18, e) != 0 {
            return Err(Error::UnsupportedEncoding);
        }
        let stride = read_u16(input, 4, e) as usize;
        let width = read_u16(input, 12, e);
        let height = read_u16(input, 14, e);
        let w = width as usize;
        let h = height as usize;
        if stride < w {
            return Err(Error::UnsupportedEncoding);
        }
        assert(h * stride <= 65535 * 65535) by (nonlinear_arith)
            requires
                h <= 65535,
                stride <= 65535,
        ;
        if input.len() - TEXTURE_MAP_HEADER < h * stride {
            return Err(Error::TruncatedPayload);
        }
        let mut data: Vec<u8> = Vec::new();
        let mut y: usize = 0;
        while y < h
            invariant
                y <= h,
                w <= stride <= 65535,
                h <= 65535,
                TEXTURE_MAP_HEADER + h * stride <= input.len(),
                w as int == width_of(input@, e),
                h as int == height_of(input@, e),
                stride as int == stride_of(input@, e),
                data@.len() == y * w,
                forall|i: int| 0 <= i < data@.len() ==> data@[i] == #[trigger] texture_pixels(input@, e)[i],
            decreases h - y,
        {
            proof {
                lemma_row_fits(y as int, h as int, stride as int, w as int);
            }
            let row = TEXTURE_MAP_HEADER + y * stride;
            let mut x: usize = 0;
            while x < w
                invariant
                    x <= w,
                    y < h,
                    w <= stride <= 65535,
                    h <= 65535,
                    row == TEXTURE_MAP_HEADER + y * stride,
                    row + stride <= input.len(),
                    y * w + w <= h * w,
                    0 <= y * w,
                    w as int == width_of(input@, e),
                    h as int == height_of(input@, e),
                    stride as int == stride_of(input@, e),
                    data@.len() == y * w + x,
                    forall|i: int| 0 <= i < data@.len() ==> data@[i] == #[trigger] texture_pixels(input@, e)[i],
                decreases w - x,
            {
                proof {
                    lemma_pixel_index(y * w + x, y as int, x as int, w as int);
                }
                data.push(input[row + x]);
                x += 1;
            }
            y += 1;
            assert(y * w == (y - 1) * w + w) by (nonlinear_arith);
        }
        assert(h * w == w * h) by (nonlinear_arith);
        assert(data@ =~= texture_pixels(input@, e));
        Ok(TextureMap { width, height, data })
    }
}


/// Where byte `o` of a texture map lies in the other byte order: three
/// fields of two bytes, two single bytes, six fields of two bytes; the pixels
/// are single bytes.
pub open spec fn texture_mirror(o: int) -> int {
    if o < 6 {
        mirrored(o, 0, 2)
    } else if o < 8 {
        o
    } else if o < 20 {
        mirrored(o, 8, 2)
    } else {
        o
    }
}

impl<'a> Symmetric<'a> for TextureMap {
    open spec fn byte_swapped(input: Seq<u8>, e: Endian) -> Seq<u8> {
        permuted(input, |o: int| texture_mirror(o))
    }

    open spec fn swappable(input: Seq<u8>, e: Endian) -> bool {
        true
    }

    proof fn lemma_byte_swapped(input: Seq<u8>, e: Endian, r: Result<Self, Error>) {
        let mirror = |o: int| texture_mirror(o);
        let other = permuted(input, mirror);
        lemma_permuted(input, mirror);
        lemma_permuted_u16(input, mirror, 0, e);
        lemma_permuted_u16(input, mirror, 4, e);
        assert(other[6] == input[mirror(6)]);
        lemma_permuted_u16(input, mirror, 8, e);
        lemma_permuted_u16(input, mirror, 10, e);
        lemma_permuted_u16(input, mirror, 12, e);
        lemma_permuted_u16(input, mirror, 14, e);
        lemma_permuted_u16(input, mirror, 16, e);
        lemma_permuted_u16(input, mirror, 18, e);
        assert(texture_error(other, e.flipped()) == texture_error(input, e));
        if texture_error(input, e).is_none() {
            assert(texture_pixels(other, e.flipped()) =~= texture_pixels(input, e)) by {
                let w = width_of(input, e);
                let stride = stride_of(input, e);
                let h = height_of(input, e);
                assert forall|i: int| 0 <= i < w * h implies #[trigger] texture_pixels(other, e.flipped())[i]
                    == texture_pixels(input, e)[i] by {
                    assert(w > 0) by (nonlinear_arith)
                        requires
                            0 <= i < w * h,
                            0 <= w,
                    ;
                    vstd::arithmetic::div_mod::lemma_fundamental_div_mod(i, w);
                    assert(0 <= i / w < h) by (nonlinear_arith)
                        requires
                            0 <= i < w * h,
                            w > 0,
                            i == w * (i / w) + i % w,
                            0 <= i % w < w,
                    ;
                    lemma_row_fits(i / w, h, stride, w);
                    let at = TEXTURE_MAP_HEADER as int + (i / w) * stride + i % w;
                    assert(other[at] == input[mirror(at)]);
                }
            }
        }
    }
}

} // verus!
