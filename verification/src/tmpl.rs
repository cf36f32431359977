//! Templates: the rest pose of a character.

use vstd::prelude::*;
use crate::brender::UFraction;
use crate::error::Error;
use crate::order::{
    lemma_permuted, lemma_permuted_u16, lemma_permuted_u32, mirrored, permuted, read_u32, u32_at, Endian,
    Loader, Symmetric,
};

verus! {

/// Size in bytes of a template record.
pub const TEMPLATE_SIZE: usize = 16;

/// A template: the angles of the rest pose, as fractions of a full turn,
/// and a word of flags.
#[derive(Clone, Copy, Debug, PartialEq, Eq, Structural)]
pub struct Template {
    pub xa_rest: UFraction,
    pub ya_rest: UFraction,
    pub za_rest: UFraction,
    pub flags: u32,
}

impl Template {
    /// The template that `input` holds, read in byte order `e`.
    pub open spec fn of(input: Seq<u8>, e: Endian) -> Template {
        Template {
            xa_rest: UFraction::at(input, 4, e),
            ya_rest: UFraction::at(input, 6, e),
            za_rest: UFraction::at(input, 8, e),
            flags: u32_at(input, 12, e) as u32,
        }
    }
}

impl<'a> Loader<'a> for Template {
    open spec fn header_len() -> nat {
        TEMPLATE_SIZE as nat
    }

    open spec fn mark_at() -> nat {
        0
    }

    open spec fn decodes_to(input: Seq<u8>, e: Endian, r: Result<Self, Error>) -> bool {
        r == Ok::<Self, Error>(Template::of(input, e))
    }

    fn header_size() -> (n: usize) {
        TEMPLATE_SIZE
    }

    fn mark_offset() -> (n: usize) {
        0
    }

    fn into_native(input: &'a [u8], e: Endian) -> (r: Result<Self, Error>) {
        Ok(
            Template {
                xa_rest: UFraction::read(input, 4, e),
                ya_rest: UFraction::read(input, 6, e),
                za_rest: UFraction::read(input, 8, e),
                flags: read_u32(input, 12, e),
            },
        )
    }
}


/// Where byte `o` of a template lies in the other byte order: six fields
/// of two bytes, then the flags.
pub open spec fn template_mirror(o: int) -> int {
    if o < 12 {
        mirrored(o, 0, 2)
    } else if o < 16 {
        mirrored(o, 12, 4)
    } else {
        o
    }
}

impl<'a> Symmetric<'a> for Template {
    open spec fn byte_swapped(input: Seq<u8>, e: Endian) -> Seq<u8> {
        permuted(input, |o: int| template_mirror(o))
    }

    open spec fn swappable(input: Seq<u8>, e: Endian) -> bool {
        true
    }

    proof fn lemma_byte_swapped(input: Seq<u8>, e: Endian, r: Result<Self, Error>) {
        let mirror = |o: int| template_mirror(o);
        lemma_permuted(input, mirror);
        lemma_permuted_u16(input, mirror, 0, e);
        lemma_permuted_u16(input, mirror, 4, e);
        lemma_permuted_u16(input, mirror, 6, e);
        lemma_permuted_u16(input, mirror, 8, e);
        lemma_permuted_u32(input, mirror, 12, e);
    }
}

} // verus!
