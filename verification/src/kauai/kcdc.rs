//! The older of the two codecs: single literal bytes and back-references,
//! ended by a reserved offset.

use vstd::prelude::*;
use vstd::slice::slice_subrange;
use crate::bits::{bits_of, le_value, lemma_le_value_bound, two_to, BitReader};
use crate::error::{CorruptKind, Error};
use crate::kauai::fields::{
    copy_back, copy_from_output, lemma_copy_back, length_field, offset_field, read_length, read_offset,
    Length, LengthField,
};
use crate::order::{read_u32, u32_at, Endian};

verus! {

/// The offset that ends the stream: the greatest offset of the widest family.
pub const OFFSET_STOP: usize = 0x101240;

/// Size in bytes of what precedes the bit stream: the length of the output
/// and one byte that is not used.
pub const STREAM_HEADER: usize = 5;

/// A back-reference: an offset field and, unless the offset is the one that
/// ends the stream, a length field. Yields the offset, the length and the
/// number of bits taken; `None` where either field is cut short or the
/// length field is all ones.
pub open spec fn backref_field(bits: Seq<bool>) -> Option<(int, int, int)> {
    match offset_field(bits) {
        None => None,
        Some((offset, bonus, used)) => if offset == OFFSET_STOP {
            Some((offset, 0, used))
        } else {
            match length_field(bits.skip(used)) {
                LengthField::Value(length, more) => Some((offset, length + bonus, used + more)),
                _ => None,
            }
        },
    }
}

/// Reads the offset and the length of a back-reference. The offset that ends
/// the stream comes with length 0. Nothing is read unless both are returned.
pub fn read_offset_length(input: &mut BitReader) -> (r: Option<(usize, usize)>)
    ensures
        final(input).source() == old(input).source(),
        final(input).limit() == old(input).limit(),
        match backref_field(old(input)@) {
            Some((offset, length, used)) => r == Some((offset as usize, length as usize))
                && final(input)@ == old(input)@.skip(used)
                && final(input).position() == old(input).position() + used
                && 1 <= offset <= OFFSET_STOP && 0 <= length <= 4097 && 1 <= used <= old(input)@.len(),
            None => r.is_none() && *final(input) == *old(input),
        },
{
    let saved = *input;
    let ghost bits = input@;
    let (offset, bonus) = match read_offset(input) {
        Some(field) => field,
        None => {
            return None;
        },
    };
    if offset == OFFSET_STOP {
        return Some((offset, 0));
    }
    let ghost used = offset_field(bits).unwrap().2;
    match read_length(input) {
        Some(Length::Bytes(length)) => {
            proof {
                let more = length_field(bits.skip(used))->Value_1;
                assert(bits.skip(used).skip(more) =~= bits.skip(used + more));
            }
            Some((offset, length + bonus))
        },
        _ => {
            *input = saved;
            None
        },
    }
}

/// What the bit stream `bits` adds to the output `out`, of which `len`
/// bytes are announced.
///
/// A clear bit is followed by one literal byte. A set bit is followed by a
/// back-reference, which is either the end of the stream or a copy from the
/// output. The end is accepted only when exactly `len` bytes are there.
pub open spec fn stream_output(bits: Seq<bool>, out: Seq<u8>, len: int) -> Result<Seq<u8>, Error>
    decreases bits.len(),
{
    if bits.len() == 0 {
        Err(Error::TruncatedPayload)
    } else if !bits[0] {
        if out.len() >= len {
            Err(Error::Corrupt(CorruptKind::Overflow))
        } else if bits.len() < 9 {
            Err(Error::TruncatedPayload)
        } else {
            stream_output(bits.skip(9), out.push(le_value(bits.subrange(1, 9)) as u8), len)
        }
    } else {
        match backref_field(bits.skip(1)) {
            None => Err(Error::Corrupt(CorruptKind::InvalidBackref)),
            Some((offset, length, used)) => if offset == OFFSET_STOP {
                if out.len() == len {
                    Ok(out)
                } else {
                    Err(Error::Corrupt(CorruptKind::LengthMismatch))
                }
            } else if offset > out.len() {
                Err(Error::Corrupt(CorruptKind::OffsetOutOfRange))
            } else if out.len() + length > len {
                Err(Error::Corrupt(CorruptKind::LengthOverflow))
            } else {
                stream_output(bits.skip(1 + used), copy_back(out, offset, length), len)
            },
        }
    }
}

/// What a packed payload decodes to: the header gives the length of the
/// output as a big-endian number, and the bit stream starts after one more
/// byte.
pub open spec fn decoded(input: Seq<u8>) -> Result<Seq<u8>, Error> {
    if input.len() < STREAM_HEADER {
        Err(Error::TruncatedHeader)
    } else {
        stream_output(
            bits_of(input.skip(STREAM_HEADER as int)),
            Seq::empty(),
            u32_at(input, 0, Endian::Big),
        )
    }
}

/// Decodes a payload of the older codec. The output has exactly the length
/// that the header announces.
pub fn decode(input: &[u8]) -> (r: Result<Vec<u8>, Error>)
    ensures
        match r {
            Ok(out) => decoded(input@) == Ok::<Seq<u8>, Error>(out@) && out@.len() == u32_at(
                input@,
                0,
                Endian::Big,
            ),
            Err(e) => decoded(input@) == Err::<Seq<u8>, Error>(e),
        },
{
    if input.len() < STREAM_HEADER {
        return Err(Error::TruncatedHeader);
    }
    let len = read_u32(input, 0, Endian::Big) as usize;
    let packed = slice_subrange(input, STREAM_HEADER, input.len());
    assert(packed@ == input@.skip(STREAM_HEADER as int));
    let mut reader = BitReader::new(packed);
    let mut out: Vec<u8> = Vec::new();
    loop
        invariant
            len == u32_at(input@, 0, Endian::Big),
            input@.len() >= STREAM_HEADER,
            out@.len() <= len,
            decoded(input@) == stream_output(reader@, out@, len as int),
        decreases reader@.len(),
    {
        let ghost bits = reader@;
        let ghost before = out@;
        match reader.read_bit() {
            None => {
                return Err(Error::TruncatedPayload);
            },
            Some(false) => {
                if out.len() >= len {
                    return Err(Error::Corrupt(CorruptKind::Overflow));
                }
                match reader.read_bits(8) {
                    None => {
                        return Err(Error::TruncatedPayload);
                    },
                    Some(value) => {
                        proof {
                            assert(bits.skip(1).take(8) =~= bits.subrange(1, 9));
                            assert(bits.skip(1).skip(8) =~= bits.skip(9));
                            lemma_le_value_bound(bits.subrange(1, 9));
                            reveal_with_fuel(two_to, 9);
                        }
                        out.push(value as u8);
                    },
                }
            },
            Some(true) => {
                match read_offset_length(&mut reader) {
                    None => {
                        return Err(Error::Corrupt(CorruptKind::InvalidBackref));
                    },
                    Some((offset, length)) => {
                        if offset == OFFSET_STOP {
                            if out.len() == len {
                                return Ok(out);
                            }
                            return Err(Error::Corrupt(CorruptKind::LengthMismatch));
                        }
                        if offset > out.len() {
                            return Err(Error::Corrupt(CorruptKind::OffsetOutOfRange));
                        }
                        if length > len - out.len() {
                            return Err(Error::Corrupt(CorruptKind::LengthOverflow));
                        }
                        proof {
                            let used = backref_field(bits.skip(1)).unwrap().2;
                            assert(bits.skip(1).skip(used) =~= bits.skip(1 + used));
                            lemma_copy_back(before, offset as int, length as int);
                        }
                        copy_from_output(&mut out, offset, length);
                    },
                }
            },
        }
    }
}

} // verus!
