//! Fixed-point numbers as they are stored on file.
//!
//! The types keep the stored integer; the number that it stands for is the
//! integer divided by the type's denominator.

use vstd::prelude::*;
use crate::order::{i16_at, i32_at, read_i16, read_i32, read_u16, u16_at, Endian};

verus! {

/// A signed number with 16 fractional bits: the stored integer over 65536.
#[derive(Clone, Copy, Debug, PartialEq, Eq, PartialOrd, Ord, Hash, Structural)]
pub struct Scalar(pub i32);

/// A signed fraction: the stored integer over 32768.
#[derive(Clone, Copy, Debug, PartialEq, Eq, PartialOrd, Ord, Hash, Structural)]
pub struct Fraction(pub i16);

/// An unsigned fraction: the stored integer over 65536.
#[derive(Clone, Copy, Debug, PartialEq, Eq, PartialOrd, Ord, Hash, Structural)]
pub struct UFraction(pub u16);

/// What `Scalar`'s stored integer is divided by.
pub const SCALAR_DENOMINATOR: i32 = 65536;

/// What `Fraction`'s stored integer is divided by.
pub const FRACTION_DENOMINATOR: i32 = 32768;

/// What `UFraction`'s stored integer is divided by.
pub const UFRACTION_DENOMINATOR: i32 = 65536;

impl Scalar {
    /// The scalar stored at `s[at..at + 4]`.
    pub open spec fn at(s: Seq<u8>, at: int, e: Endian) -> Scalar {
        Scalar(i32_at(s, at, e) as i32)
    }

    /// Reads the scalar at byte `at`.
    pub fn read(input: &[u8], at: usize, e: Endian) -> (r: Scalar)
        requires
            at + 4 <= input.len(),
        ensures
            r == Scalar::at(input@, at as int, e),
    {
        Scalar(read_i32(input, at, e))
    }

    /// Whether the number is zero.
    pub fn is_zero(&self) -> (r: bool)
        ensures
            r == (self.0 == 0),
    {
        self.0 == 0
    }
}

impl Fraction {
    /// The fraction stored at `s[at..at + 2]`.
    pub open spec fn at(s: Seq<u8>, at: int, e: Endian) -> Fraction {
        Fraction(i16_at(s, at, e) as i16)
    }

    /// Reads the fraction at byte `at`.
    pub fn read(input: &[u8], at: usize, e: Endian) -> (r: Fraction)
        requires
            at + 2 <= input.len(),
        ensures
            r == Fraction::at(input@, at as int, e),
    {
        Fraction(read_i16(input, at, e))
    }
}

impl UFraction {
    /// The fraction stored at `s[at..at + 2]`.
    pub open spec fn at(s: Seq<u8>, at: int, e: Endian) -> UFraction {
        UFraction(u16_at(s, at, e) as u16)
    }

    /// Reads the fraction at byte `at`.
    pub fn read(input: &[u8], at: usize, e: Endian) -> (r: UFraction)
        requires
            at + 2 <= input.len(),
        ensures
            r == UFraction::at(input@, at as int, e),
    {
        UFraction(read_u16(input, at, e))
    }
}

} // verus!
