//! How offsets and lengths are written as bit fields, and that reading a
//! field gives back what was written.

use vstd::prelude::*;
use crate::bits::{le_value, leading_ones, lemma_le_value_bound, lemma_leading_ones, two_to};
use crate::kauai::fields::{
    lemma_two_to_monotone, lemma_two_to_values, length_field, offset_family, offset_field, LengthField,
    LENGTH_PREFIX_LIMIT,
};

verus! {

/// The `n` low bits of `v`, the least significant first.
pub open spec fn le_bits(v: nat, n: nat) -> Seq<bool>
    decreases n,
{
    if n == 0 {
        Seq::empty()
    } else {
        seq![v % 2 == 1] + le_bits(v / 2, (n - 1) as nat)
    }
}

/// `n` set bits.
pub open spec fn ones(n: nat) -> Seq<bool> {
    Seq::new(n, |i: int| true)
}

/// The position of the highest set bit of `v`.
pub open spec fn bit_width(v: nat) -> nat
    decreases v,
{
    if v <= 1 {
        0
    } else {
        1 + bit_width(v / 2)
    }
}

/// The length field that holds `v`: as many ones as `v` has bits after its
/// highest, a zero, and those bits.
pub open spec fn encode_length(v: nat) -> Seq<bool> {
    let k = bit_width(v);
    ones(k) + seq![false] + le_bits((v - two_to(k)) as nat, k)
}

/// The offset field that holds `offset`: the prefix of the narrowest family
/// that reaches the offset, and the offset less the family's first.
pub open spec fn encode_offset(offset: nat) -> Seq<bool> {
    if offset <= 0x40 {
        seq![false] + le_bits((offset - 0x0001) as nat, 6)
    } else if offset <= 0x240 {
        seq![true, false] + le_bits((offset - 0x0041) as nat, 9)
    } else if offset <= 0x1240 {
        seq![true, true, false] + le_bits((offset - 0x0241) as nat, 12)
    } else {
        seq![true, true, true] + le_bits((offset - 0x1241) as nat, 20)
    }
}

/// What the family of `offset` adds to the length of a back-reference.
pub open spec fn offset_bonus(offset: nat) -> int {
    if offset <= 0x1240 {
        1
    } else {
        2
    }
}

/// The bits of a number spell the number, and there are as many as asked for.
pub proof fn lemma_le_bits(v: nat, n: nat)
    requires
        v < two_to(n),
    ensures
        le_bits(v, n).len() == n,
        le_value(le_bits(v, n)) == v,
    decreases n,
{
    if n > 0 {
        lemma_le_bits(v / 2, (n - 1) as nat);
        assert(le_bits(v, n).drop_first() =~= le_bits(v / 2, (n - 1) as nat));
    }
}

/// Bits are the bits of the number they spell.
pub proof fn lemma_le_bits_of_value(bits: Seq<bool>)
    ensures
        le_bits(le_value(bits), bits.len()) == bits,
    decreases bits.len(),
{
    if bits.len() > 0 {
        let rest = bits.drop_first();
        lemma_le_bits_of_value(rest);
        let v = le_value(bits);
        assert(v / 2 == le_value(rest));
        assert((v % 2 == 1) == bits[0]);
        assert(le_bits(v, bits.len()) =~= bits);
    }
}

/// A number lies between the power of two of its width and the next.
pub proof fn lemma_bit_width(v: nat)
    requires
        v >= 1,
    ensures
        two_to(bit_width(v)) <= v < 2 * two_to(bit_width(v)),
    decreases v,
{
    if v > 1 {
        lemma_bit_width(v / 2);
    }
}

/// A power of two and less than as much again has the width of the power.
pub proof fn lemma_bit_width_of(raw: nat, k: nat)
    requires
        raw < two_to(k),
    ensures
        bit_width(raw + two_to(k)) == k,
    decreases k,
{
    if k > 0 {
        lemma_bit_width_of(raw / 2, (k - 1) as nat);
        assert((raw + two_to(k)) / 2 == raw / 2 + two_to((k - 1) as nat));
        lemma_two_to_monotone(0, k);
    }
}

/// Ones followed by a zero start with exactly those ones.
pub proof fn lemma_leading_ones_of(k: nat, rest: Seq<bool>, window: int)
    requires
        k < window <= k + 1 + rest.len(),
    ensures
        leading_ones((ones(k) + seq![false] + rest).take(window)) == k,
    decreases k,
{
    let bits = ones(k) + seq![false] + rest;
    if k > 0 {
        lemma_leading_ones_of((k - 1) as nat, rest, window - 1);
        assert(bits.take(window).drop_first() =~= (ones((k - 1) as nat) + seq![false] + rest).take(
            window - 1,
        ));
    }
}

/// Reading a length that was written gives the length back, and takes one
/// bit more than twice the number of leading ones.
pub proof fn lemma_length_round_trip(v: nat, rest: Seq<bool>)
    requires
        1 <= v < 4096,
    ensures
        encode_length(v).len() == 2 * bit_width(v) + 1,
        length_field(encode_length(v) + rest) == LengthField::Value(v as int, (2 * bit_width(v) + 1) as int),
{
    let k = bit_width(v);
    lemma_bit_width(v);
    lemma_two_to_values();
    if k >= 12 {
        lemma_two_to_monotone(12, k);
    }
    let raw = (v - two_to(k)) as nat;
    lemma_le_bits(raw, k);
    let field = encode_length(v);
    let bits = field + rest;
    let tail = le_bits(raw, k) + rest;
    assert(bits =~= ones(k) + seq![false] + tail);
    let window = if bits.len() < LENGTH_PREFIX_LIMIT { bits.len() as int } else { LENGTH_PREFIX_LIMIT as int };
    lemma_leading_ones_of(k, tail, window);
    if k > 0 {
        assert(bits.subrange(k as int + 1, 2 * k as int + 1) =~= le_bits(raw, k));
    }
}

/// What was read as a length is what writing that length gives.
pub proof fn lemma_length_field_encodes(bits: Seq<bool>)
    requires
        length_field(bits) is Value,
    ensures
        ({
            let v = length_field(bits)->Value_0;
            let used = length_field(bits)->Value_1;
            &&& 1 <= v < 4096
            &&& used == 2 * bit_width(v as nat) + 1
            &&& 0 <= used <= bits.len()
            &&& bits.take(used) == encode_length(v as nat)
        }),
{
    let window = if bits.len() < LENGTH_PREFIX_LIMIT { bits.len() as int } else { LENGTH_PREFIX_LIMIT as int };
    let k = leading_ones(bits.take(window));
    lemma_leading_ones(bits.take(window));
    lemma_two_to_values();
    lemma_two_to_monotone(k, 11);
    if k == 0 {
        assert(bit_width(1) == 0);
        assert(two_to(0) == 1);
        assert(le_bits(0, 0) =~= Seq::<bool>::empty());
        assert(bits.take(1) =~= encode_length(1));
    } else {
        let raw_bits = bits.subrange(k as int + 1, 2 * k as int + 1);
        let raw = le_value(raw_bits);
        lemma_le_value_bound(raw_bits);
        lemma_bit_width_of(raw, k);
        lemma_le_bits_of_value(raw_bits);
        let v = raw + two_to(k);
        assert((v - two_to(k)) as nat == raw);
        assert forall|i: int| 0 <= i < k implies bits[i] by {
            assert(bits.take(window)[i]);
        }
        assert(!bits[k as int]) by {
            assert(!bits.take(window)[k as int]);
        }
        assert(bits.take(2 * k as int + 1) =~= ones(k) + seq![false] + raw_bits);
    }
}

/// Reading an offset that was written gives the offset back.
pub proof fn lemma_offset_round_trip(offset: nat, rest: Seq<bool>)
    requires
        1 <= offset <= 0x101240,
    ensures
        offset_field(encode_offset(offset) + rest) == Some(
            (offset as int, offset_bonus(offset), encode_offset(offset).len() as int),
        ),
{
    lemma_two_to_values();
    let bits = encode_offset(offset) + rest;
    if offset <= 0x40 {
        let raw = (offset - 0x0001) as nat;
        lemma_le_bits(raw, 6);
        assert(bits.subrange(1, 7) =~= le_bits(raw, 6));
    } else if offset <= 0x240 {
        let raw = (offset - 0x0041) as nat;
        lemma_le_bits(raw, 9);
        assert(bits.subrange(2, 11) =~= le_bits(raw, 9));
    } else if offset <= 0x1240 {
        let raw = (offset - 0x0241) as nat;
        lemma_le_bits(raw, 12);
        assert(bits.subrange(3, 15) =~= le_bits(raw, 12));
    } else {
        let raw = (offset - 0x1241) as nat;
        lemma_le_bits(raw, 20);
        assert(bits.subrange(3, 23) =~= le_bits(raw, 20));
    }
}

/// What was read as an offset is what writing that offset gives.
pub proof fn lemma_offset_field_encodes(bits: Seq<bool>)
    requires
        offset_field(bits).is_some(),
    ensures
        ({
            let (offset, bonus, used) = offset_field(bits).unwrap();
            &&& 1 <= offset <= 0x101240
            &&& bonus == offset_bonus(offset as nat)
            &&& 0 <= used <= bits.len()
            &&& bits.take(used) == encode_offset(offset as nat)
        }),
{
    lemma_two_to_values();
    if !bits[0] {
        let raw_bits = bits.subrange(1, 7);
        lemma_le_value_bound(raw_bits);
        lemma_le_bits_of_value(raw_bits);
        assert(bits.take(7) =~= seq![false] + raw_bits);
    } else if !bits[1] {
        let raw_bits = bits.subrange(2, 11);
        lemma_le_value_bound(raw_bits);
        lemma_le_bits_of_value(raw_bits);
        assert(bits.take(11) =~= seq![true, false] + raw_bits);
    } else if !bits[2] {
        let raw_bits = bits.subrange(3, 15);
        lemma_le_value_bound(raw_bits);
        lemma_le_bits_of_value(raw_bits);
        assert(bits.take(15) =~= seq![true, true, false] + raw_bits);
    } else {
        let raw_bits = bits.subrange(3, 23);
        lemma_le_value_bound(raw_bits);
        lemma_le_bits_of_value(raw_bits);
        assert(bits.take(23) =~= seq![true, true, true] + raw_bits);
    }
}

} // verus!
