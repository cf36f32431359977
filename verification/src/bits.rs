//! Reading a byte slice as a stream of bits, least significant bit of each
//! byte first.

use bitvec::field::BitField;
use bitvec::order::Lsb0;
use bitvec::view::BitView;
use vstd::prelude::*;
use vstd::slice::slice_subrange;

verus! {

/// The value of bit `k` of a byte, for `k` from 0 (least significant) to 7.
pub open spec fn place(k: int) -> int {
    if k <= 0 {
        1
    } else if k == 1 {
        2
    } else if k == 2 {
        4
    } else if k == 3 {
        8
    } else if k == 4 {
        16
    } else if k == 5 {
        32
    } else if k == 6 {
        64
    } else {
        128
    }
}

/// Whether bit `k` of `b` is set.
pub open spec fn bit_of(b: u8, k: int) -> bool {
    (b as int / place(k)) % 2 == 1
}

/// The bits of `bytes` in stream order: byte after byte, and within each
/// byte from the least significant bit up.
pub open spec fn bits_of(bytes: Seq<u8>) -> Seq<bool> {
    Seq::new(8 * bytes.len(), |i: int| bit_of(bytes[i / 8], i % 8))
}

/// The number that `bits` spell, the first bit least significant.
pub open spec fn le_value(bits: Seq<bool>) -> nat
    decreases bits.len(),
{
    if bits.len() == 0 {
        0
    } else {
        (if bits[0] { 1nat } else { 0nat }) + 2 * le_value(bits.drop_first())
    }
}

/// How many bits are set before the first clear bit, or the end, of `bits`.
pub open spec fn leading_ones(bits: Seq<bool>) -> nat
    decreases bits.len(),
{
    if bits.len() == 0 || !bits[0] {
        0
    } else {
        1 + leading_ones(bits.drop_first())
    }
}

/// Two to the power `n`.
pub open spec fn two_to(n: nat) -> nat
    decreases n,
{
    if n == 0 {
        1
    } else {
        2 * two_to((n - 1) as nat)
    }
}

/// A number spelled by `n` bits is below two to the `n`.
pub proof fn lemma_le_value_bound(bits: Seq<bool>)
    ensures
        le_value(bits) < two_to(bits.len()),
    decreases bits.len(),
{
    if bits.len() > 0 {
        lemma_le_value_bound(bits.drop_first());
    }
}

/// The leading ones of `bits` are ones, they are followed by a zero unless
/// `bits` ends there, and there are no more of them than bits.
pub proof fn lemma_leading_ones(bits: Seq<bool>)
    ensures
        leading_ones(bits) <= bits.len(),
        forall|i: int| 0 <= i < leading_ones(bits) ==> bits[i],
        leading_ones(bits) < bits.len() ==> !bits[leading_ones(bits) as int],
    decreases bits.len(),
{
    if bits.len() > 0 && bits[0] {
        let rest = bits.drop_first();
        lemma_leading_ones(rest);
        assert forall|i: int| 0 <= i < leading_ones(bits) implies bits[i] by {
            if i > 0 {
                assert(bits[i] == rest[i - 1]);
            }
        }
        if leading_ones(bits) < bits.len() {
            assert(bits[leading_ones(bits) as int] == rest[leading_ones(rest) as int]);
        }
    }
}

/// The bits of a run of whole bytes are the corresponding run of the bits.
pub proof fn lemma_bits_of_subrange(bytes: Seq<u8>, from: int, to: int)
    requires
        0 <= from <= to <= bytes.len(),
    ensures
        bits_of(bytes.subrange(from, to)) == bits_of(bytes).subrange(8 * from, 8 * to),
{
    assert(bits_of(bytes.subrange(from, to)) =~= bits_of(bytes).subrange(8 * from, 8 * to));
}

/// A run of bits within a window of a sequence is the same run of the sequence.
proof fn lemma_window_run(all: Seq<bool>, window: Seq<bool>, base: int, from: int, count: int, limit: int)
    requires
        0 <= base,
        base + window.len() <= all.len(),
        window == all.subrange(base, base + window.len()),
        0 <= from,
        0 <= count,
        from + count <= window.len(),
        base + from + count <= limit <= all.len(),
    ensures
        window.subrange(from, from + count) == all.subrange(base + from, limit).take(count),
{
    assert(window.subrange(from, from + count) =~= all.subrange(base + from, limit).take(count));
}

/// Bit `at` of the window, where the bits of each byte are counted from
/// the least significant.
fn window_bit(window: &[u8], at: usize) -> (b: bool)
    requires
        window@.len() <= 8,
        at < 8 * window@.len(),
    ensures
        b == bits_of(window@)[at as int],
{
    let byte = window[at / 8];
    let k = at % 8;
    let value: u8 = if k == 0 {
        1
    } else if k == 1 {
        2
    } else if k == 2 {
        4
    } else if k == 3 {
        8
    } else if k == 4 {
        16
    } else if k == 5 {
        32
    } else if k == 6 {
        64
    } else {
        128
    };
    (byte / value) % 2 == 1
}

/// `bitvec`'s `load_le` on bits `from..to` of `window.view_bits::<Lsb0>()`:
/// the number that those bits spell, the first one least significant.
#[verifier::external_body]
fn window_load(window: &[u8], from: usize, to: usize) -> (v: u32)
    requires
        window@.len() <= 8,
        from < to <= 8 * window@.len(),
        to - from <= 32,
    ensures
        v == le_value(bits_of(window@).subrange(from as int, to as int)),
{
    window.view_bits::<Lsb0>()[from..to].load_le::<u32>()
}

/// `bitvec`'s `leading_ones` on bits `from..to` of
/// `window.view_bits::<Lsb0>()`: how many of them are set before the first
/// clear one.
#[verifier::external_body]
fn window_leading_ones(window: &[u8], from: usize, to: usize) -> (n: usize)
    requires
        window@.len() <= 8,
        from <= to <= 8 * window@.len(),
    ensures
        n == leading_ones(bits_of(window@).subrange(from as int, to as int)),
{
    window.view_bits::<Lsb0>()[from..to].leading_ones()
}

/// A cursor over the bits of a byte slice.
///
/// The view of a reader is the sequence of bits that are still to be read.
#[derive(Clone, Copy, Debug)]
pub struct BitReader<'a> {
    data: &'a [u8],
    byte: usize,
    bit: usize,
    end_byte: usize,
    end_bit: usize,
}

impl<'a> BitReader<'a> {
    #[verifier::type_invariant]
    spec fn inv(self) -> bool {
        &&& self.bit < 8
        &&& self.end_bit < 8
        &&& 8 * self.byte + self.bit <= 8 * self.end_byte + self.end_bit
        &&& 8 * self.end_byte + self.end_bit <= 8 * self.data@.len()
    }

    /// Position of the next bit, counted from the start of the data.
    pub closed spec fn position(&self) -> int {
        8 * self.byte + self.bit
    }

    /// Position just after the last bit, counted from the start of the data.
    pub closed spec fn limit(&self) -> int {
        8 * self.end_byte + self.end_bit
    }

    /// The bytes that the reader reads from.
    pub closed spec fn source(&self) -> Seq<u8> {
        self.data@
    }

    /// The bits that are still to be read.
    pub open spec fn view(&self) -> Seq<bool> {
        bits_of(self.source()).subrange(self.position(), self.limit())
    }

    /// Position of the next bit within its byte.
    pub open spec fn phase(&self) -> int {
        self.position() % 8
    }

    /// A reader of all the bits of `data`.
    pub fn new(data: &'a [u8]) -> (r: BitReader<'a>)
        ensures
            r@ == bits_of(data@),
            r.source() == data@,
            r.position() == 0,
            r.limit() == 8 * data@.len(),
    {
        let r = BitReader { data, byte: 0, bit: 0, end_byte: data.len(), end_bit: 0 };
        assert(r@ =~= bits_of(data@));
        r
    }

    /// A reader of the first `bits` bits of `data`, if there are as many.
    pub fn prefix(data: &'a [u8], bits: usize) -> (r: Option<BitReader<'a>>)
        ensures
            bits > 8 * data@.len() ==> r.is_none(),
            bits <= 8 * data@.len() ==> r.is_some() && r.unwrap()@ == bits_of(data@).take(bits as int)
                && r.unwrap().position() == 0 && r.unwrap().source() == data@,
    {
        if bits / 8 > data.len() || (bits / 8 == data.len() && bits % 8 != 0) {
            return None;
        }
        let r = BitReader { data, byte: 0, bit: 0, end_byte: bits / 8, end_bit: bits % 8 };
        assert(r@ =~= bits_of(data@).take(bits as int));
        Some(r)
    }

    /// Whether every bit has been read.
    pub fn is_empty(&self) -> (r: bool)
        ensures
            r == (self@.len() == 0),
    {
        proof {
            use_type_invariant(self);
        }
        self.byte == self.end_byte && self.bit == self.end_bit
    }

    /// Whether at least `n` bits are left.
    pub fn has(&self, n: usize) -> (r: bool)
        ensures
            r == (self@.len() >= n),
    {
        proof {
            use_type_invariant(self);
        }
        let whole = (self.end_byte - self.byte) as u128;
        whole * 8 + self.end_bit as u128 - self.bit as u128 >= n as u128
    }

    /// The number of bits that are left, or `cap` if more are left.
    pub fn available(&self, cap: usize) -> (r: usize)
        requires
            cap <= 64,
        ensures
            r == if self@.len() < cap { self@.len() } else { cap as nat },
    {
        proof {
            use_type_invariant(self);
        }
        if self.has(cap) {
            cap
        } else {
            ((self.end_byte - self.byte) * 8 + self.end_bit) - self.bit
        }
    }

    /// Position of the next bit within its byte: 0 at a byte boundary.
    pub fn bit_offset(&self) -> (r: usize)
        ensures
            r == self.phase(),
            r < 8,
    {
        proof {
            use_type_invariant(self);
        }
        self.bit
    }

    /// The bytes from the one that holds the next bit on, at most five of them.
    fn window(&self) -> (w: &'a [u8])
        ensures
            w@.len() <= 5,
            w@.len() == if self.source().len() - self.position() / 8 >= 5 {
                5
            } else {
                self.source().len() - self.position() / 8
            },
            bits_of(w@) == bits_of(self.source()).subrange(
                8 * (self.position() / 8),
                8 * (self.position() / 8) + 8 * w@.len(),
            ),
    {
        proof {
            use_type_invariant(self);
            assert(self.position() / 8 == self.byte);
        }
        let last = if self.data.len() - self.byte > 5 {
            self.byte + 5
        } else {
            self.data.len()
        };
        proof {
            lemma_bits_of_subrange(self.data@, self.byte as int, last as int);
        }
        let w = slice_subrange(self.data, self.byte, last);
        assert(w@.len() == last - self.byte);
        w
    }

    /// Moves the cursor `n` bits on.
    fn advance(&mut self, n: usize)
        requires
            n <= 64,
            old(self)@.len() >= n,
        ensures
            final(self)@ == old(self)@.skip(n as int),
            final(self).source() == old(self).source(),
            final(self).position() == old(self).position() + n,
            final(self).limit() == old(self).limit(),
    {
        proof {
            use_type_invariant(&*self);
        }
        let total = self.bit + n;
        *self = BitReader {
            data: self.data,
            byte: self.byte + total / 8,
            bit: total % 8,
            end_byte: self.end_byte,
            end_bit: self.end_bit,
        };
        assert(self@ =~= old(self)@.skip(n as int));
    }

    /// Reads one bit.
    pub fn read_bit(&mut self) -> (r: Option<bool>)
        ensures
            final(self).source() == old(self).source(),
            final(self).limit() == old(self).limit(),
            match r {
                Some(b) => old(self)@.len() > 0 && b == old(self)@[0] && final(self)@ == old(self)@.skip(1)
                    && final(self).position() == old(self).position() + 1,
                None => old(self)@.len() == 0 && *final(self) == *old(self),
            },
    {
        if !self.has(1) {
            return None;
        }
        proof {
            use_type_invariant(&*self);
        }
        let b = window_bit(self.window(), self.bit);
        self.advance(1);
        Some(b)
    }

    /// Reads a number of `n` bits that are known to be there, the first bit
    /// least significant.
    pub fn take_bits(&mut self, n: usize) -> (v: u32)
        requires
            1 <= n <= 32,
            old(self)@.len() >= n,
        ensures
            final(self).source() == old(self).source(),
            final(self).limit() == old(self).limit(),
            v == le_value(old(self)@.take(n as int)),
            final(self)@ == old(self)@.skip(n as int),
            final(self).position() == old(self).position() + n,
    {
        proof {
            use_type_invariant(&*self);
        }
        let w = self.window();
        let v = window_load(w, self.bit, self.bit + n);
        proof {
            lemma_window_run(
                bits_of(self.data@),
                bits_of(w@),
                8 * self.byte,
                self.bit as int,
                n as int,
                8 * self.end_byte + self.end_bit,
            );
        }
        self.advance(n);
        v
    }

    /// Reads a number of `n` bits, the first bit least significant.
    pub fn read_bits(&mut self, n: usize) -> (r: Option<u32>)
        requires
            1 <= n <= 32,
        ensures
            final(self).source() == old(self).source(),
            final(self).limit() == old(self).limit(),
            match r {
                Some(v) => old(self)@.len() >= n && v == le_value(old(self)@.take(n as int))
                    && final(self)@ == old(self)@.skip(n as int) && final(self).position() == old(
                    self,
                ).position() + n,
                None => old(self)@.len() < n && *final(self) == *old(self),
            },
    {
        if !self.has(n) {
            return None;
        }
        Some(self.take_bits(n))
    }

    /// Counts the set bits before the first clear bit among the next `max`
    /// bits, or among those that are left if they are fewer. Reads nothing.
    pub fn leading_ones(&self, max: usize) -> (r: usize)
        requires
            max <= 32,
        ensures
            r == leading_ones(
                self@.take(if self@.len() < max { self@.len() as int } else { max as int }),
            ),
            r <= max,
            r <= self@.len(),
    {
        proof {
            use_type_invariant(self);
        }
        let count = self.available(max);
        let w = self.window();
        let r = window_leading_ones(w, self.bit, self.bit + count);
        proof {
            lemma_window_run(
                bits_of(self.data@),
                bits_of(w@),
                8 * self.byte,
                self.bit as int,
                count as int,
                8 * self.end_byte + self.end_bit,
            );
            lemma_leading_ones(self@.take(count as int));
        }
        r
    }
}

} // verus!
