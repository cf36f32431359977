//! Materials: the colour and the shading of a body part.

use vstd::prelude::*;
use crate::brender::{Scalar, UFraction};
use crate::error::Error;
use crate::order::{
    lemma_permuted, lemma_permuted_u16, lemma_permuted_u32, mirrored, permuted, Endian, Loader, Symmetric,
};

verus! {

/// Size in bytes of a material record.
pub const MATERIAL_SIZE: usize = 20;

/// A material.
#[derive(Clone, Copy, Debug, PartialEq, Eq, Structural)]
pub struct Material {
    /// Palette index of the base colour.
    pub color: u8,
    pub ambient: UFraction,
    pub diffuse: UFraction,
    pub specular: UFraction,
    pub specular_exponent: Scalar,
}

impl Material {
    /// The material that `input` holds, read in byte order `e`.
    pub open spec fn of(input: Seq<u8>, e: Endian) -> Material {
        Material {
            color: input[14],
            ambient: UFraction::at(input, 8, e),
            diffuse: UFraction::at(input, 10, e),
            specular: UFraction::at(input, 12, e),
            specular_exponent: Scalar::at(input, 16, e),
        }
    }
}

impl<'a> Loader<'a> for Material {
    open spec fn header_len() -> nat {
        MATERIAL_SIZE as nat
    }

    open spec fn mark_at() -> nat {
        0
    }

    open spec fn decodes_to(input: Seq<u8>, e: Endian, r: Result<Self, Error>) -> bool {
        r == Ok::<Self, Error>(Material::of(input, e))
    }

    fn header_size() -> (n: usize) {
        MATERIAL_SIZE
    }

    fn mark_offset() -> (n: usize) {
        0
    }

    fn into_native(input: &'a [u8], e: Endian) -> (r: Result<Self, Error>) {
        Ok(
            Material {
                color: input[14],
                ambient: UFraction::read(input, 8, e),
                diffuse: UFraction::read(input, 10, e),
                specular: UFraction::read(input, 12, e),
                specular_exponent: Scalar::read(input, 16, e),
            },
        )
    }
}


/// Where byte `o` of a material lies in the other byte order: the mark and
/// the word after it, the colour, three fractions, two single bytes, the
/// exponent.
pub open spec fn material_mirror(o: int) -> int {
    if o < 4 {
        mirrored(o, 0, 2)
    } else if o < 8 {
        mirrored(o, 4, 4)
    } else if o < 14 {
        mirrored(o, 8, 2)
    } else if o < 16 {
        o
    } else if o < 20 {
        mirrored(o, 16, 4)
    } else {
        o
    }
}

impl<'a> Symmetric<'a> for Material {
    open spec fn byte_swapped(input: Seq<u8>, e: Endian) -> Seq<u8> {
        permuted(input, |o: int| material_mirror(o))
    }

    open spec fn swappable(input: Seq<u8>, e: Endian) -> bool {
        true
    }

    proof fn lemma_byte_swapped(input: Seq<u8>, e: Endian, r: Result<Self, Error>) {
        let mirror = |o: int| material_mirror(o);
        lemma_permuted(input, mirror);
        lemma_permuted_u16(input, mirror, 0, e);
        lemma_permuted_u16(input, mirror, 8, e);
        lemma_permuted_u16(input, mirror, 10, e);
        lemma_permuted_u16(input, mirror, 12, e);
        assert(permuted(input, mirror)[14] == input[mirror(14)]);
        lemma_permuted_u32(input, mirror, 16, e);
    }
}

} // verus!
