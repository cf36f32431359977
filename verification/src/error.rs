//! The error type shared by every decoder in the crate.

use vstd::prelude::*;

verus! {

/// Why a packed stream was rejected as corrupt.
#[derive(Clone, Copy, Debug, PartialEq, Eq, Structural)]
pub enum CorruptKind {
    /// A back-reference points before the start of the output.
    OffsetOutOfRange,
    /// A literal would grow the output beyond the announced length.
    Overflow,
    /// A back-reference copy would grow the output beyond the announced length.
    LengthOverflow,
    /// The offset or length field of a back-reference is malformed or cut short.
    InvalidBackref,
    /// The stream ended cleanly but produced fewer bytes than announced.
    LengthMismatch,
}

/// Every way in which decoding or atlas layout can fail.
#[derive(Clone, Copy, Debug, PartialEq, Eq, Structural)]
pub enum Error {
    /// The input is shorter than the fixed header of the record.
    TruncatedHeader,
    /// The header announces more data than the input holds.
    TruncatedPayload,
    /// The byte-order mark is neither `0x0001` nor `0x0100`.
    UnknownByteOrder,
    /// The archive does not start with `CHN2`.
    WrongMagic,
    /// The archive's version range does not include a version this crate reads.
    IncompatibleVersion,
    /// A packed chunk names a codec other than `KCDC` or `KCD2`.
    UnsupportedCodec,
    /// A packed stream is malformed.
    Corrupt(CorruptKind),
    /// A chunk name or texture uses an encoding this crate does not read.
    UnsupportedEncoding,
    /// A required child chunk is absent; the payload is the tag that was looked for.
    MissingChild(u32),
    /// The rectangles do not fit into the largest atlas.
    PackingFailed,
    /// A costume's texture transform disagrees with the first costume's.
    IncompatibleTextureTransform,
}

} // verus!
