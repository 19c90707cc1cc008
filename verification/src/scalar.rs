//! Single precision numbers, held as their IEEE 754 bit patterns.

use vstd::prelude::*;

verus! {

/// A single precision number, as its IEEE 754 bit pattern.
#[derive(Debug, Clone, Copy, Hash)]
pub struct Float32 {
    pub bits: u32,
}

impl Float32 {
    /// A number from its bit pattern.
    pub fn from_bits(bits: u32) -> (r: Self)
        ensures
            r.bits == bits,
    {
        Self { bits }
    }

    /// Whether the pattern is that of no number: all exponent bits set, and a fraction.
    pub open spec fn nan(self) -> bool {
        self.bits % 0x8000_0000 > 0x7f80_0000
    }

    /// Whether the pattern is that of positive or negative zero.
    pub open spec fn zero(self) -> bool {
        self.bits % 0x8000_0000 == 0
    }

    /// Whether the pattern is that of one.
    pub open spec fn one(self) -> bool {
        self.bits == 0x3f80_0000
    }

    /// Numeric equality: no pattern equals a NaN, and the two zeros are equal.
    pub open spec fn same_number(self, other: Self) -> bool {
        &&& !self.nan()
        &&& !other.nan()
        &&& self.bits == other.bits || (self.zero() && other.zero())
    }

    /// Whether the number is zero.
    pub fn is_zero(&self) -> (r: bool)
        ensures
            r == self.zero(),
    {
        self.bits % 0x8000_0000 == 0
    }

    /// Whether two numbers are equal.
    pub fn is_same_number(&self, other: &Self) -> (r: bool)
        ensures
            r == self.same_number(*other),
    {
        self.bits % 0x8000_0000 <= 0x7f80_0000 && other.bits % 0x8000_0000 <= 0x7f80_0000 && (
        self.bits == other.bits || (self.is_zero() && other.is_zero()))
    }

    /// Whether the number is one.
    pub fn is_one(&self) -> (r: bool)
        ensures
            r == self.one(),
    {
        self.bits == 0x3f80_0000
    }
}

impl PartialEq for Float32 {
    fn eq(&self, other: &Self) -> (r: bool) {
        self.is_same_number(other)
    }
}

impl vstd::std_specs::cmp::PartialEqSpecImpl for Float32 {
    open spec fn obeys_eq_spec() -> bool {
        true
    }

    open spec fn eq_spec(&self, other: &Self) -> bool {
        self.same_number(*other)
    }
}

/// The bits of positive zero.
pub const ZERO_BITS: u32 = 0;

/// The bits of 0.5.
pub const HALF_BITS: u32 = 0x3f00_0000;

/// The bits of 1.
pub const ONE_BITS: u32 = 0x3f80_0000;

/// The bits of 2.
pub const TWO_BITS: u32 = 0x4000_0000;

/// The bits of 3.
pub const THREE_BITS: u32 = 0x4040_0000;

/// The bits of the least finite number.
pub const MIN_BITS: u32 = 0xff7f_ffff;

/// The bits of 0.044715, the cubic coefficient of GELU.
pub const GELU_CUBIC_BITS: u32 = 0x3d37_2713;

/// The bits of 0.7978846, the square root of two over pi.
pub const SQRT_FRAC_BITS: u32 = 0x3f4c_422a;

} // verus!
