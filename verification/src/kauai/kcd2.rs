//! The newer of the two codecs: runs of literal bytes and back-references,
//! each introduced by a length field, ended by a length field of all ones.

use vstd::prelude::*;
use vstd::slice::slice_subrange;
use crate::bits::{bits_of, le_value, lemma_le_value_bound, two_to, BitReader};
use crate::error::{CorruptKind, Error};
use crate::kauai::fields::{
    copy_back, copy_from_output, lemma_copy_back, lemma_two_to_values, length_field, offset_field,
    power_of_two, read_length, read_offset, Length, LengthField,
};
use crate::order::{read_u32, u32_at, Endian};

verus! {

/// Size in bytes of what precedes the bit stream: the length of the output
/// and one byte that is not used.
pub const STREAM_HEADER: usize = 5;

/// The bytes of a literal run.
///
/// `run` holds eight bits per byte and starts `phase` bits into a byte of
/// the packed data. Where it starts at a byte boundary its bytes are those of
/// the packed data. Otherwise the whole bytes of the packed data that it
/// spans come first, and one more byte follows them, made of the bits before
/// the first whole byte and the bits after the last.
pub open spec fn literal_run(run: Seq<bool>, phase: int) -> Seq<u8> {
    let count = run.len() as int / 8;
    let head = 8 - phase;
    Seq::new(
        count as nat,
        |i: int|
            if phase == 0 {
                le_value(run.subrange(8 * i, 8 * i + 8)) as u8
            } else if i < count - 1 {
                le_value(run.subrange(head + 8 * i, head + 8 * i + 8)) as u8
            } else {
                le_value(run.subrange(0, head) + run.subrange(8 * count - phase, 8 * count)) as u8
            },
    )
}

/// The number spelled by two runs of bits, one after the other.
pub proof fn lemma_le_value_concat(a: Seq<bool>, b: Seq<bool>)
    ensures
        le_value(a + b) == le_value(a) + two_to(a.len()) * le_value(b),
    decreases a.len(),
{
    if a.len() == 0 {
        assert(a + b =~= b);
        assert(two_to(0) == 1);
        assert(1 * le_value(b) == le_value(b));
    } else {
        let rest = a.drop_first();
        lemma_le_value_concat(rest, b);
        assert((a + b).drop_first() =~= rest + b);
        assert((a + b)[0] == a[0]);
        assert(two_to(a.len()) == 2 * two_to(rest.len()));
        assert(2 * (two_to(rest.len()) * le_value(b)) == two_to(a.len()) * le_value(b))
            by (nonlinear_arith)
            requires
                two_to(a.len()) == 2 * two_to(rest.len()),
        ;
    }
}

/// Reads a literal run of `count` bytes and appends it to the output.
/// Returns whether the bits were there; if not, nothing is read or written.
pub fn read_literal_run(input: &mut BitReader, count: usize, out: &mut Vec<u8>) -> (ok: bool)
    requires
        1 <= count < 4096,
    ensures
        final(input).source() == old(input).source(),
        final(input).limit() == old(input).limit(),
        ok == (old(input)@.len() >= 8 * count),
        ok ==> final(out)@ == old(out)@ + literal_run(old(input)@.take(8 * count), old(input).phase())
            && final(input)@ == old(input)@.skip(8 * count) && final(input).position() == old(
            input,
        ).position() + 8 * count,
        !ok ==> *final(input) == *old(input) && *final(out) == *old(out),
{
    if !input.has(8 * count) {
        return false;
    }
    let ghost bits = input@;
    let ghost run = bits.take(8 * count);
    let ghost bytes = literal_run(run, input.phase());
    let phase = input.bit_offset();
    let head_bits = 8 - phase;
    let mut head: u32 = 0;
    if phase != 0 {
        head = input.take_bits(head_bits);
    }
    let whole = if phase == 0 { count } else { count - 1 };
    let ghost lead: int = if phase == 0 { 0 } else { head_bits as int };
    proof {
        assert(bits.skip(0) =~= bits);
        if phase != 0 {
            assert(bits.take(head_bits as int) =~= run.subrange(0, head_bits as int));
        }
    }
    let mut i: usize = 0;
    while i < whole
        invariant
            i <= whole,
            1 <= count < 4096,
            whole == if phase == 0 { count } else { (count - 1) as usize },
            lead == if phase == 0 { 0 } else { 8 - phase },
            phase < 8,
            phase == old(input).phase(),
            bits == old(input)@,
            bits.len() >= 8 * count,
            run == bits.take(8 * count),
            bytes == literal_run(run, phase as int),
            input@ == bits.skip(lead + 8 * i),
            input.position() == old(input).position() + lead + 8 * i,
            input.source() == old(input).source(),
            input.limit() == old(input).limit(),
            out@ == old(out)@ + bytes.take(i as int),
        decreases whole - i,
    {
        let value = input.take_bits(8);
        proof {
            assert(bits.skip(lead + 8 * i).take(8) =~= run.subrange(lead + 8 * i, lead + 8 * i + 8));
            assert(bits.skip(lead + 8 * i).skip(8) =~= bits.skip(lead + 8 * (i + 1)));
            lemma_le_value_bound(run.subrange(lead + 8 * i, lead + 8 * i + 8));
            reveal_with_fuel(two_to, 9);
            assert(bytes.take(i + 1) =~= bytes.take(i as int).push(value as u8));
        }
        out.push(value as u8);
        i += 1;
    }
    if phase != 0 {
        let tail = input.take_bits(phase);
        let scale = power_of_two(head_bits);
        proof {
            let a = run.subrange(0, head_bits as int);
            let b = run.subrange(8 * count - phase, 8 * count as int);
            assert(bits.skip(lead + 8 * whole).take(phase as int) =~= b);
            assert(bits.skip(lead + 8 * whole).skip(phase as int) =~= bits.skip(8 * count as int));
            lemma_le_value_concat(a, b);
            lemma_le_value_bound(a);
            lemma_le_value_bound(b);
            lemma_le_value_bound(a + b);
            reveal_with_fuel(two_to, 9);
            assert(head + scale * tail == le_value(a + b)) by (nonlinear_arith)
                requires
                    head == le_value(a),
                    tail == le_value(b),
                    scale == two_to(a.len()),
                    le_value(a + b) == le_value(a) + two_to(a.len()) * le_value(b),
            ;
            assert(bytes.take(count as int) =~= bytes.take(whole as int).push(
                (head + scale * tail) as u8,
            ));
        }
        out.push((head + scale as u32 * tail) as u8);
    }
    proof {
        assert(bytes.take(count as int) =~= bytes);
    }
    true
}

/// What the bit stream `bits` adds to the output `out`, of which `len`
/// bytes are announced; `at` bits of the packed data precede `bits`.
///
/// Each step starts with a length field. One that is all ones ends the
/// stream, which is accepted only when exactly `len` bytes are there. A clear
/// bit after the field is followed by a literal run of that length, a set bit
/// by the offset of a back-reference.
pub open spec fn stream_output(bits: Seq<bool>, at: int, out: Seq<u8>, len: int) -> Result<Seq<u8>, Error>
    decreases bits.len(),
{
    match length_field(bits) {
        LengthField::Stop => if out.len() == len {
            Ok(out)
        } else {
            Err(Error::Corrupt(CorruptKind::LengthMismatch))
        },
        LengthField::Cut => Err(Error::TruncatedPayload),
        LengthField::Value(length, used) => {
            let rest = bits.skip(used);
            if rest.len() == 0 {
                Err(Error::TruncatedPayload)
            } else if !rest[0] {
                if out.len() + length > len {
                    Err(Error::Corrupt(CorruptKind::Overflow))
                } else if rest.len() - 1 < 8 * length {
                    Err(Error::TruncatedPayload)
                } else {
                    stream_output(
                        rest.skip(1 + 8 * length),
                        at + used + 1 + 8 * length,
                        out + literal_run(rest.subrange(1, 1 + 8 * length), (at + used + 1) % 8),
                        len,
                    )
                }
            } else {
                match offset_field(rest.skip(1)) {
                    None => Err(Error::Corrupt(CorruptKind::InvalidBackref)),
                    Some((offset, bonus, more)) => if offset > out.len() {
                        Err(Error::Corrupt(CorruptKind::OffsetOutOfRange))
                    } else if out.len() + length + bonus > len {
                        Err(Error::Corrupt(CorruptKind::LengthOverflow))
                    } else {
                        stream_output(
                            rest.skip(1 + more),
                            at + used + 1 + more,
                            copy_back(out, offset, length + bonus),
                            len,
                        )
                    },
                }
            }
        },
    }
}

/// What a packed payload decodes to: the header gives the length of the
/// output as a big-endian number, and the bit stream starts after one more
/// byte.
pub open spec fn decoded(input: Seq<u8>) -> Result<Seq<u8>, Error> {
    if input.len() < STREAM_HEADER {
        Err(Error::TruncatedHeader)
    } else {
        stream_output(
            bits_of(input.skip(STREAM_HEADER as int)),
            0,
            Seq::empty(),
            u32_at(input, 0, Endian::Big),
        )
    }
}

/// Decodes a payload of the newer codec. The output has exactly the length
/// that the header announces.
pub fn decode(input: &[u8]) -> (r: Result<Vec<u8>, Error>)
    ensures
        match r {
            Ok(out) => decoded(input@) == Ok::<Seq<u8>, Error>(out@) && out@.len() == u32_at(
                input@,
                0,
                Endian::Big,
            ),
            Err(e) => decoded(input@) == Err::<Seq<u8>, Error>(e),
        },
{
    if input.len() < STREAM_HEADER {
        return Err(Error::TruncatedHeader);
    }
    let len = read_u32(input, 0, Endian::Big) as usize;
    let packed = slice_subrange(input, STREAM_HEADER, input.len());
    assert(packed@ == input@.skip(STREAM_HEADER as int));
    let mut reader = BitReader::new(packed);
    let mut out: Vec<u8> = Vec::new();
    loop
        invariant
            len == u32_at(input@, 0, Endian::Big),
            input@.len() >= STREAM_HEADER,
            out@.len() <= len,
            decoded(input@) == stream_output(reader@, reader.position(), out@, len as int),
        decreases reader@.len(),
    {
        let ghost bits = reader@;
        let ghost at = reader.position();
        let ghost before = out@;
        let length = match read_length(&mut reader) {
            Some(Length::Bytes(length)) => length,
            Some(Length::Break) => {
                if out.len() == len {
                    return Ok(out);
                }
                return Err(Error::Corrupt(CorruptKind::LengthMismatch));
            },
            None => {
                return Err(Error::TruncatedPayload);
            },
        };
        let ghost used = length_field(bits)->Value_1;
        let ghost rest = bits.skip(used);
        match reader.read_bit() {
            None => {
                return Err(Error::TruncatedPayload);
            },
            Some(false) => {
                if length > len - out.len() {
                    return Err(Error::Corrupt(CorruptKind::Overflow));
                }
                if !read_literal_run(&mut reader, length, &mut out) {
                    return Err(Error::TruncatedPayload);
                }
                proof {
                    assert(rest.skip(1).take(8 * length) =~= rest.subrange(1, 1 + 8 * length));
                    assert(rest.skip(1).skip(8 * length) =~= rest.skip(1 + 8 * length));
                }
            },
            Some(true) => {
                match read_offset(&mut reader) {
                    None => {
                        return Err(Error::Corrupt(CorruptKind::InvalidBackref));
                    },
                    Some((offset, bonus)) => {
                        if offset > out.len() {
                            return Err(Error::Corrupt(CorruptKind::OffsetOutOfRange));
                        }
                        if length + bonus > len - out.len() {
                            return Err(Error::Corrupt(CorruptKind::LengthOverflow));
                        }
                        proof {
                            let more = offset_field(rest.skip(1)).unwrap().2;
                            assert(rest.skip(1).skip(more) =~= rest.skip(1 + more));
                            lemma_copy_back(before, offset as int, length + bonus);
                        }
                        copy_from_output(&mut out, offset, length + bonus);
                    },
                }
            },
        }
    }
}

} // verus!
