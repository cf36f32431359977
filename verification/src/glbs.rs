//! The body-part sets of a template: the set that every part belongs to.

use vstd::prelude::*;
use crate::error::Error;
use crate::glf::{lemma_u16_list_swapped, list_error, list_swapped, read_u16_entries, u16_entries, LIST_HEADER};
use crate::order::{Endian, Loader, Symmetric};

verus! {

/// For every body part, the set it belongs to. Parts of one set share a
/// material slot.
#[derive(Debug)]
pub struct BodyPartSets {
    pub groups: Vec<u16>,
}

impl<'a> Loader<'a> for BodyPartSets {
    open spec fn header_len() -> nat {
        LIST_HEADER as nat
    }

    open spec fn mark_at() -> nat {
        0
    }

    open spec fn decodes_to(input: Seq<u8>, e: Endian, r: Result<Self, Error>) -> bool {
        match list_error(input, e, 2) {
            Some(err) => r == Err::<Self, Error>(err),
            None => r matches Ok(sets) && sets.groups@ == u16_entries(input, e),
        }
    }

    fn header_size() -> (n: usize) {
        LIST_HEADER
    }

    fn mark_offset() -> (n: usize) {
        0
    }

    fn into_native(input: &'a [u8], e: Endian) -> (r: Result<Self, Error>) {
        match read_u16_entries(input, e) {
            Ok(groups) => Ok(BodyPartSets { groups }),
            Err(err) => Err(err),
        }
    }
}


impl<'a> Symmetric<'a> for BodyPartSets {
    open spec fn byte_swapped(input: Seq<u8>, e: Endian) -> Seq<u8> {
        list_swapped(input, e, 2, 2)
    }

    open spec fn swappable(input: Seq<u8>, e: Endian) -> bool {
        true
    }

    proof fn lemma_byte_swapped(input: Seq<u8>, e: Endian, r: Result<Self, Error>) {
        lemma_u16_list_swapped(input, e);
    }
}

} // verus!
