//! The offset and length fields that both codecs share, and the copying of
//! back-references.

use vstd::prelude::*;
use crate::bits::{le_value, leading_ones, lemma_le_value_bound, lemma_leading_ones, two_to, BitReader};

verus! {

/// The longest run of leading ones that a length field may have is one less.
pub const LENGTH_PREFIX_LIMIT: usize = 12;

/// An offset field: a unary prefix that selects one of four families, then
/// the raw offset in the width of that family. Yields the offset, the amount
/// that the family adds to the length of the back-reference, and the number
/// of bits that the field takes; `None` where the bits end within the field.
pub open spec fn offset_field(bits: Seq<bool>) -> Option<(int, int, int)> {
    if bits.len() < 1 {
        None
    } else if !bits[0] {
        offset_family(bits, 1, 6, 0x0001, 1)
    } else if bits.len() < 2 {
        None
    } else if !bits[1] {
        offset_family(bits, 2, 9, 0x0041, 1)
    } else if bits.len() < 3 {
        None
    } else if !bits[2] {
        offset_family(bits, 3, 12, 0x0241, 1)
    } else {
        offset_family(bits, 3, 20, 0x1241, 2)
    }
}

/// The offset field of one family: `width` raw bits after a prefix of
/// `prefix` bits, offsets starting at `base`.
pub open spec fn offset_family(bits: Seq<bool>, prefix: int, width: int, base: int, bonus: int) -> Option<
    (int, int, int),
> {
    if bits.len() < prefix + width {
        None
    } else {
        Some(((le_value(bits.subrange(prefix, prefix + width)) + base) as int, bonus, prefix + width))
    }
}

/// What a length field holds.
pub enum LengthField {
    /// The next twelve bits, or all the bits that are left, are ones.
    Stop,
    /// The bits end within the field.
    Cut,
    /// A length, and the number of bits that the field takes.
    Value(int, int),
}

/// A length field: `k` ones and a zero, then `k` raw bits; the length is 1
/// for `k = 0` and the raw bits plus two to the `k` otherwise.
pub open spec fn length_field(bits: Seq<bool>) -> LengthField {
    let max = if bits.len() < LENGTH_PREFIX_LIMIT { bits.len() as int } else { LENGTH_PREFIX_LIMIT as int };
    let k = leading_ones(bits.take(max)) as int;
    if k == max {
        LengthField::Stop
    } else if k == 0 {
        LengthField::Value(1, 1)
    } else if bits.len() < 2 * k + 1 {
        LengthField::Cut
    } else {
        LengthField::Value((le_value(bits.subrange(k + 1, 2 * k + 1)) + two_to(k as nat)) as int, 2 * k + 1)
    }
}

/// The output after a back-reference has been copied: `length` times, the
/// byte that lies `offset` before the end is appended, so that a length
/// greater than the offset repeats the last `offset` bytes.
pub open spec fn copy_back(out: Seq<u8>, offset: int, length: int) -> Seq<u8>
    decreases length,
{
    if length <= 0 {
        out
    } else {
        copy_back(out.push(out[out.len() - offset]), offset, length - 1)
    }
}

/// A copy of `length` bytes makes the output `length` bytes longer and
/// leaves what was there in place.
pub proof fn lemma_copy_back(out: Seq<u8>, offset: int, length: int)
    requires
        0 <= length,
    ensures
        copy_back(out, offset, length).len() == out.len() + length,
        copy_back(out, offset, length).take(out.len() as int) == out,
    decreases length,
{
    if length > 0 {
        let next = out.push(out[out.len() - offset]);
        lemma_copy_back(next, offset, length - 1);
        assert(copy_back(out, offset, length).take(out.len() as int) =~= copy_back(
            next,
            offset,
            length - 1,
        ).take(next.len() as int).take(out.len() as int));
        assert(next.take(out.len() as int) =~= out);
    }
}

/// Two to the power `k`.
pub fn power_of_two(k: usize) -> (r: usize)
    requires
        k <= 20,
    ensures
        r == two_to(k as nat),
        r <= 0x10_0000,
{
    let mut r: usize = 1;
    let mut i: usize = 0;
    proof {
        lemma_two_to_values();
    }
    while i < k
        invariant
            i <= k <= 20,
            r == two_to(i as nat),
            r <= two_to(20),
        decreases k - i,
    {
        proof {
            lemma_two_to_monotone((i + 1) as nat, 20);
            lemma_two_to_values();
        }
        r = r * 2;
        i += 1;
    }
    proof {
        lemma_two_to_values();
    }
    r
}

/// The powers of two that bound the raw fields.
pub proof fn lemma_two_to_values()
    ensures
        two_to(6) == 64,
        two_to(9) == 512,
        two_to(11) == 2048,
        two_to(12) == 4096,
        two_to(20) == 0x10_0000,
{
    reveal_with_fuel(two_to, 21);
}

/// Greater exponents give greater or equal powers.
pub proof fn lemma_two_to_monotone(a: nat, b: nat)
    requires
        a <= b,
    ensures
        two_to(a) <= two_to(b),
        two_to(a) >= 1,
    decreases b,
{
    if a < b {
        lemma_two_to_monotone(a, (b - 1) as nat);
    } else if a > 0 {
        lemma_two_to_monotone((a - 1) as nat, (a - 1) as nat);
    }
}

/// Appends the bytes of a back-reference to the output.
pub fn copy_from_output(out: &mut Vec<u8>, offset: usize, length: usize)
    requires
        1 <= offset <= old(out)@.len(),
        old(out)@.len() + length <= usize::MAX,
    ensures
        final(out)@ == copy_back(old(out)@, offset as int, length as int),
{
    let mut done: usize = 0;
    while done < length
        invariant
            done <= length,
            1 <= offset <= out@.len(),
            out@.len() == old(out)@.len() + done,
            old(out)@.len() + length <= usize::MAX,
            copy_back(out@, offset as int, length - done) == copy_back(
                old(out)@,
                offset as int,
                length as int,
            ),
        decreases length - done,
    {
        let byte = out[out.len() - offset];
        out.push(byte);
        done += 1;
    }
}

/// Reads an offset field. Returns the offset and the amount that its family
/// adds to the length. If the bits end within the field, nothing is read.
pub fn read_offset(input: &mut BitReader) -> (r: Option<(usize, usize)>)
    ensures
        final(input).source() == old(input).source(),
        final(input).limit() == old(input).limit(),
        match offset_field(old(input)@) {
            Some((offset, bonus, used)) => r == Some((offset as usize, bonus as usize)) && final(input)@
                == old(input)@.skip(used) && final(input).position() == old(input).position() + used
                && 1 <= offset <= 0x101240 && 1 <= bonus <= 2 && 1 <= used <= old(input)@.len(),
            None => r.is_none() && *final(input) == *old(input),
        },
{
    let saved = *input;
    let ghost bits = input@;
    let mut prefix: usize = 0;
    let mut zero_seen = false;
    while prefix < 3 && !zero_seen
        invariant
            prefix <= 3,
            saved == *old(input),
            bits == old(input)@,
            input.source() == old(input).source(),
            input.limit() == old(input).limit(),
            prefix <= bits.len(),
            input@ == bits.skip(prefix as int),
            input.position() == old(input).position() + prefix,
            zero_seen ==> prefix >= 1 && !bits[prefix - 1],
            forall|i: int| 0 <= i < prefix - (if zero_seen { 1int } else { 0int }) ==> bits[i],
        decreases 3 - prefix + (if zero_seen { 0int } else { 1int }),
    {
        match input.read_bit() {
            None => {
                *input = saved;
                return None;
            },
            Some(b) => {
                proof {
                    assert(bits.skip(prefix as int)[0] == bits[prefix as int]);
                    assert(bits.skip(prefix as int).skip(1) =~= bits.skip(prefix + 1));
                }
                zero_seen = !b;
                prefix += 1;
            },
        }
    }
    let (width, base, bonus): (usize, usize, usize) = if !zero_seen {
        (20, 0x1241, 2)
    } else if prefix == 1 {
        (6, 0x0001, 1)
    } else if prefix == 2 {
        (9, 0x0041, 1)
    } else {
        (12, 0x0241, 1)
    };
    match input.read_bits(width) {
        None => {
            *input = saved;
            None
        },
        Some(raw) => {
            proof {
                assert(bits.skip(prefix as int).take(width as int) =~= bits.subrange(
                    prefix as int,
                    prefix + width,
                ));
                assert(bits.skip(prefix as int).skip(width as int) =~= bits.skip(prefix + width));
                lemma_le_value_bound(bits.subrange(prefix as int, prefix + width));
                lemma_two_to_values();
            }
            Some((raw as usize + base, bonus))
        },
    }
}

/// The length that a length field announces, or the end of the stream.
#[derive(Clone, Copy, Debug, PartialEq, Eq, Structural)]
pub enum Length {
    /// A length in bytes, before the amount that the offset family adds.
    Bytes(usize),
    /// The field is all ones: the stream ends here.
    Break,
}

/// Reads a length field. Nothing is read where the field is all ones or
/// the bits end within it; the latter gives `None`.
pub fn read_length(input: &mut BitReader) -> (r: Option<Length>)
    ensures
        final(input).source() == old(input).source(),
        final(input).limit() == old(input).limit(),
        match length_field(old(input)@) {
            LengthField::Stop => r == Some(Length::Break) && *final(input) == *old(input),
            LengthField::Cut => r.is_none() && *final(input) == *old(input),
            LengthField::Value(length, used) => r == Some(Length::Bytes(length as usize))
                && final(input)@ == old(input)@.skip(used)
                && final(input).position() == old(input).position() + used
                && 1 <= length < 4096 && 1 <= used <= old(input)@.len(),
        },
{
    let saved = *input;
    let ghost bits = input@;
    let max = input.available(LENGTH_PREFIX_LIMIT);
    let k = input.leading_ones(LENGTH_PREFIX_LIMIT);
    if k == max {
        return Some(Length::Break);
    }
    let skipped = input.read_bits(k + 1);
    if k == 0 {
        return Some(Length::Bytes(1));
    }
    match input.read_bits(k) {
        None => {
            *input = saved;
            None
        },
        Some(raw) => {
            let base = power_of_two(k);
            proof {
                assert(bits.skip(k + 1).take(k as int) =~= bits.subrange(k + 1, 2 * k + 1));
                assert(bits.skip(k + 1).skip(k as int) =~= bits.skip(2 * k + 1));
                lemma_le_value_bound(bits.subrange(k + 1, 2 * k + 1));
                lemma_two_to_monotone(k as nat, 11);
                lemma_two_to_values();
            }
            Some(Length::Bytes(raw as usize + base))
        },
    }
}

} // verus!
