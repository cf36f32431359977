//! Packed chunks: the codec dispatch and the two bit-level decoders.

use std::borrow::Cow;
use vstd::prelude::*;
use vstd::slice::slice_subrange;
use crate::error::Error;
use crate::order::{read_u32, u32_at, Endian};

pub mod encoding;
pub mod fields;
pub mod kcd2;
pub mod kcdc;

verus! {

/// Size in bytes of the tag that names a codec or a wrapper.
pub const TAG_LEN: usize = 4;

/// `KCDC`, the tag of the older codec.
pub const CODEC_KCDC: u32 = 0x4B43_4443;

/// `KCD2`, the tag of the newer codec.
pub const CODEC_KCD2: u32 = 0x4B43_4432;

/// `puak`, the tag of a payload that is stored as it is.
pub const WRAP_STORED: u32 = 0x7075_616B;

/// `apak`, the tag of a payload that is packed.
pub const WRAP_PACKED: u32 = 0x6170_616B;

/// Whether `input` starts with the four characters of `tag`.
pub open spec fn starts_with(input: Seq<u8>, tag: u32) -> bool {
    input.len() >= TAG_LEN && u32_at(input, 0, Endian::Big) == tag
}

/// Decides whether `input` starts with the four characters of `tag`.
fn has_tag(input: &[u8], tag: u32) -> (r: bool)
    ensures
        r == starts_with(input@, tag),
{
    input.len() >= TAG_LEN && read_u32(input, 0, Endian::Big) == tag
}

/// What a packed payload decodes to: the tag `KCDC` or `KCD2` names the
/// codec of what follows it.
pub open spec fn decoded(input: Seq<u8>) -> Result<Seq<u8>, Error> {
    if input.len() < TAG_LEN {
        Err(Error::TruncatedHeader)
    } else if starts_with(input, CODEC_KCDC) {
        kcdc::decoded(input.skip(TAG_LEN as int))
    } else if starts_with(input, CODEC_KCD2) {
        kcd2::decoded(input.skip(TAG_LEN as int))
    } else {
        Err(Error::UnsupportedCodec)
    }
}

/// The length that the header of a packed payload announces.
pub open spec fn announced_len(input: Seq<u8>) -> int {
    u32_at(input, TAG_LEN as int, Endian::Big)
}

/// What a wrapped payload holds: after `puak` the bytes themselves, after
/// `apak` a packed payload.
pub open spec fn unpacked(input: Seq<u8>) -> Result<Seq<u8>, Error> {
    if input.len() < TAG_LEN {
        Err(Error::TruncatedHeader)
    } else if starts_with(input, WRAP_STORED) {
        Ok(input.skip(TAG_LEN as int))
    } else if starts_with(input, WRAP_PACKED) {
        decoded(input.skip(TAG_LEN as int))
    } else {
        Err(Error::UnsupportedCodec)
    }
}

/// Decodes a packed payload with the codec that its tag names. The output
/// has exactly the length that the payload announces.
pub fn decode(input: &[u8]) -> (r: Result<Vec<u8>, Error>)
    ensures
        match r {
            Ok(out) => decoded(input@) == Ok::<Seq<u8>, Error>(out@) && out@.len() == announced_len(
                input@,
            ),
            Err(e) => decoded(input@) == Err::<Seq<u8>, Error>(e),
        },
{
    if input.len() < TAG_LEN {
        return Err(Error::TruncatedHeader);
    }
    let payload = slice_subrange(input, TAG_LEN, input.len());
    assert(payload@ == input@.skip(TAG_LEN as int));
    if has_tag(input, CODEC_KCDC) {
        kcdc::decode(payload)
    } else if has_tag(input, CODEC_KCD2) {
        kcd2::decode(payload)
    } else {
        Err(Error::UnsupportedCodec)
    }
}

/// Opens a wrapped payload: one that is stored as it is is handed back
/// borrowed, without copying; a packed one is decoded into a buffer of its
/// own.
pub fn unpack<'a>(input: &'a [u8]) -> (r: Result<Cow<'a, [u8]>, Error>)
    ensures
        match r {
            Ok(out) => unpacked(input@) == Ok::<Seq<u8>, Error>(out@),
            Err(e) => unpacked(input@) == Err::<Seq<u8>, Error>(e),
        },
        r matches Ok(Cow::Borrowed(_)) <==> r.is_ok() && starts_with(input@, WRAP_STORED),
        r matches Ok(Cow::Owned(_)) <==> r.is_ok() && starts_with(input@, WRAP_PACKED),
{
    if input.len() < TAG_LEN {
        return Err(Error::TruncatedHeader);
    }
    let payload = slice_subrange(input, TAG_LEN, input.len());
    assert(payload@ == input@.skip(TAG_LEN as int));
    if has_tag(input, WRAP_STORED) {
        Ok(Cow::Borrowed(payload))
    } else if has_tag(input, WRAP_PACKED) {
        match decode(payload) {
            Ok(out) => Ok(Cow::Owned(out)),
            Err(e) => Err(e),
        }
    } else {
        Err(Error::UnsupportedCodec)
    }
}

} // verus!
