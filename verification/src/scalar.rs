//! Single-precision numbers, held as their IEEE 754 binary32 encoding.

use crate::ieee::add::difference;
use crate::ieee::add::negation;
use crate::ieee::add::sum;
use crate::ieee::convert::from_integer;
use crate::ieee::convert::to_byte;
use crate::ieee::div::quotient;
use crate::ieee::format::Format;
use crate::ieee::format::Unpacked;
use crate::ieee::format::Value;
use crate::ieee::format::lt;
use crate::ieee::mul::product;
use crate::ieee::power::lemma_pow2_values;
use crate::ieee::sqrt::root;
use vstd::prelude::*;

verus! {

/// The value that a binary32 encoding stands for: a sign bit, eight bits
/// of biased exponent, and twenty-three bits of fraction.
pub open spec fn decode(bits: u32) -> Value {
    let neg = bits >= 0x8000_0000;
    let magnitude = bits % 0x8000_0000;
    let biased = magnitude / 0x80_0000;
    let fraction = magnitude % 0x80_0000;
    if biased == 255 {
        if fraction == 0 {
            Value::Inf { neg }
        } else {
            Value::Nan
        }
    } else if biased == 0 {
        Value::Fin { neg, mant: fraction as nat, exp: -149 }
    } else {
        Value::Fin { neg, mant: (0x80_0000 + fraction) as nat, exp: biased - 150 }
    }
}

/// `a + b` in single precision.
pub open spec fn plus(a: Value, b: Value) -> Value {
    sum(Format::binary32(), a, b)
}

/// `a - b` in single precision.
pub open spec fn minus(a: Value, b: Value) -> Value {
    difference(Format::binary32(), a, b)
}

/// `a * b` in single precision.
pub open spec fn times(a: Value, b: Value) -> Value {
    product(Format::binary32(), a, b)
}

/// `a / b` in single precision.
pub open spec fn over(a: Value, b: Value) -> Value {
    quotient(Format::binary32(), a, b)
}

/// The square root of `a` in single precision.
pub open spec fn sqrt_of(a: Value) -> Value {
    root(Format::binary32(), a)
}

/// `a < b`; false when either is a NaN.
pub open spec fn less(a: Value, b: Value) -> bool {
    lt(Format::binary32(), a, b)
}

/// The number nearest to an integer.
pub open spec fn of_integer(n: nat) -> Value {
    from_integer(Format::binary32(), n)
}

/// `x` held between `lo` and `hi`, for `lo <= hi`; a NaN stays a NaN.
pub open spec fn clamped(x: Value, lo: Value, hi: Value) -> Value {
    if less(x, lo) {
        lo
    } else if less(hi, x) {
        hi
    } else {
        x
    }
}

/// The encoding of 0.
pub const ZERO: u32 = 0;

/// The encoding of 1.
pub const ONE: u32 = 0x3f80_0000;

/// The encoding of 0.5.
pub const HALF: u32 = 0x3f00_0000;

/// The encoding of 2.
pub const TWO: u32 = 0x4000_0000;

/// The encoding of 4.
pub const FOUR: u32 = 0x4080_0000;

/// The encoding of positive infinity.
pub const INFINITY: u32 = 0x7f80_0000;

/// Every encoding stands for a NaN, an infinity, or a canonical number.
pub proof fn lemma_decode_canonical(bits: u32)
    ensures
        decode(bits).canonical(Format::binary32()),
{
    lemma_pow2_values();
}

/// Encodings that stand for the same number are the same encoding: only
/// a NaN has more than one.
pub proof fn lemma_decode_injective(a: u32, b: u32)
    requires
        decode(a) == decode(b),
        decode(a) !is Nan,
    ensures
        a == b,
{
}

/// A binary32 number.
#[derive(Clone, Copy, Debug)]
pub struct Scalar {
    pub bits: u32,
}

impl View for Scalar {
    type V = Value;

    open spec fn view(&self) -> Value {
        decode(self.bits)
    }
}

impl Scalar {
    /// The number with the given encoding.
    pub fn from_bits(bits: u32) -> (r: Scalar)
        ensures
            r.bits == bits,
    {
        Scalar { bits }
    }

    /// The encoding of the number.
    pub fn to_bits(self) -> (bits: u32)
        ensures
            bits == self.bits,
    {
        self.bits
    }

    /// The number taken apart.
    pub fn unpack(self) -> (u: Unpacked)
        ensures
            u@ == self@,
            u@.canonical(Format::binary32()),
    {
        proof {
            lemma_pow2_values();
        }
        let neg = self.bits >= 0x8000_0000;
        let magnitude = self.bits % 0x8000_0000;
        let biased = magnitude / 0x80_0000;
        let fraction = magnitude % 0x80_0000;
        if biased == 255 {
            if fraction == 0 {
                Unpacked::Inf { neg }
            } else {
                Unpacked::Nan
            }
        } else if biased == 0 {
            Unpacked::Fin { neg, mant: fraction as u64, exp: -149 }
        } else {
            Unpacked::Fin { neg, mant: (0x80_0000 + fraction) as u64, exp: biased as i32 - 150 }
        }
    }

    /// The encoding of a number; every NaN is given the same one.
    pub fn pack(u: Unpacked) -> (r: Scalar)
        requires
            u@.canonical(Format::binary32()),
        ensures
            r@ == u@,
    {
        proof {
            lemma_pow2_values();
        }
        match u {
            Unpacked::Nan => Scalar { bits: 0x7FC0_0000 },
            Unpacked::Inf { neg } => if neg {
                Scalar { bits: 0xFF80_0000 }
            } else {
                Scalar { bits: 0x7F80_0000 }
            },
            Unpacked::Fin { neg, mant, exp } => {
                let sign: u32 = if neg {
                    0x8000_0000
                } else {
                    0
                };
                if mant < 0x80_0000 {
                    Scalar { bits: sign + mant as u32 }
                } else {
                    let biased: u32 = (exp + 150) as u32;
                    Scalar { bits: sign + biased * 0x80_0000 + (mant as u32 - 0x80_0000) }
                }
            },
        }
    }

    /// `self + rhs`, rounded once.
    pub fn add(self, rhs: Scalar) -> (r: Scalar)
        ensures
            r@ == plus(self@, rhs@),
    {
        Scalar::pack(Format::single().add(self.unpack(), rhs.unpack()))
    }

    /// `self - rhs`, rounded once.
    pub fn sub(self, rhs: Scalar) -> (r: Scalar)
        ensures
            r@ == minus(self@, rhs@),
    {
        Scalar::pack(Format::single().sub(self.unpack(), rhs.unpack()))
    }

    /// `self * rhs`, rounded once.
    pub fn mul(self, rhs: Scalar) -> (r: Scalar)
        ensures
            r@ == times(self@, rhs@),
    {
        Scalar::pack(Format::single().mul(self.unpack(), rhs.unpack()))
    }

    /// `self / rhs`, rounded once.
    pub fn div(self, rhs: Scalar) -> (r: Scalar)
        ensures
            r@ == over(self@, rhs@),
    {
        Scalar::pack(Format::single().div(self.unpack(), rhs.unpack()))
    }

    /// The square root, rounded once.
    pub fn sqrt(self) -> (r: Scalar)
        ensures
            r@ == sqrt_of(self@),
    {
        Scalar::pack(Format::single().sqrt(self.unpack()))
    }

    /// The same number with the opposite sign.
    pub fn neg(self) -> (r: Scalar)
        ensures
            r@ == negation(self@),
    {
        Scalar::pack(self.unpack().neg())
    }

    /// `self < rhs`; false when either is a NaN.
    pub fn lt(self, rhs: Scalar) -> (r: bool)
        ensures
            r == less(self@, rhs@),
    {
        Format::single().lt(self.unpack(), rhs.unpack())
    }

    /// `self > rhs`; false when either is a NaN.
    pub fn gt(self, rhs: Scalar) -> (r: bool)
        ensures
            r == less(rhs@, self@),
    {
        Format::single().lt(rhs.unpack(), self.unpack())
    }

    /// The number nearest to `n`.
    pub fn from_u64(n: u64) -> (r: Scalar)
        ensures
            r@ == of_integer(n as nat),
    {
        Scalar::pack(Format::single().from_u64(n))
    }

    /// The integer part, held to `0..=255`; 0 for a NaN.
    pub fn to_u8(self) -> (r: u8)
        ensures
            r == to_byte(self@),
    {
        self.unpack().to_u8()
    }

    /// `self` held between `lo` and `hi`; a NaN stays a NaN. The bounds
    /// must be numbers, and in order.
    pub fn clamp(self, lo: Scalar, hi: Scalar) -> (r: Scalar)
        requires
            lo@ !is Nan,
            hi@ !is Nan,
            !less(hi@, lo@),
        ensures
            r@ == clamped(self@, lo@, hi@),
    {
        let low = if self.lt(lo) {
            lo
        } else {
            self
        };
        if low.gt(hi) {
            hi
        } else {
            low
        }
    }
}

} // verus!
