//! Binary interchange formats and the values they hold.

use vstd::arithmetic::power2::pow2;
use vstd::prelude::*;

verus! {

/// A binary format: `prec` significant bits and largest exponent `emax`
/// (24 and 127 for binary32, 53 and 1023 for binary64).
#[derive(Clone, Copy)]
pub struct Format {
    pub prec: u32,
    pub emax: i32,
}

impl Format {
    /// The formats the arithmetic is written for: at most 53 significant bits
    /// and an exponent field of at most 11 bits.
    pub open spec fn wf(self) -> bool {
        2 <= self.prec <= 53 && 1 <= self.emax <= 1023
    }

    /// The exponent of the last place of the subnormal numbers.
    pub open spec fn qmin(self) -> int {
        2 - self.emax - self.prec
    }

    /// The exponent of the last place of the largest finite numbers.
    pub open spec fn qmax(self) -> int {
        self.emax - self.prec + 1
    }

    /// Single precision.
    pub open spec fn binary32() -> Format {
        Format { prec: 24, emax: 127 }
    }

    /// Double precision.
    pub open spec fn binary64() -> Format {
        Format { prec: 53, emax: 1023 }
    }

    /// Single precision.
    #[verifier::when_used_as_spec(binary32)]
    pub fn single() -> (f: Format)
        ensures
            f == Format::binary32(),
            f.wf(),
    {
        Format { prec: 24, emax: 127 }
    }

    /// Double precision.
    #[verifier::when_used_as_spec(binary64)]
    pub fn double() -> (f: Format)
        ensures
            f == Format::binary64(),
            f.wf(),
    {
        Format { prec: 53, emax: 1023 }
    }

    /// The exponent of the last place of the subnormal numbers.
    pub fn least_exponent(&self) -> (q: i32)
        requires
            self.wf(),
        ensures
            q == self.qmin(),
    {
        2 - self.emax - (self.prec as i32)
    }

    /// The exponent of the last place of the largest finite numbers.
    pub fn greatest_exponent(&self) -> (q: i32)
        requires
            self.wf(),
        ensures
            q == self.qmax(),
    {
        self.emax - (self.prec as i32) + 1
    }
}

/// What a binary floating-point datum stands for. A finite value is
/// `(-1)^neg * mant * 2^exp`; the zeros keep their sign.
pub enum Value {
    Nan,
    Inf { neg: bool },
    Fin { neg: bool, mant: nat, exp: int },
}

impl Value {
    /// The one representation a format has for each finite value: the
    /// significand fills `prec` bits, or the exponent is the least one.
    pub open spec fn canonical(self, f: Format) -> bool {
        match self {
            Value::Fin { neg, mant, exp } => {
                &&& mant < pow2(f.prec as nat)
                &&& f.qmin() <= exp <= f.qmax()
                &&& (mant >= pow2((f.prec - 1) as nat) || exp == f.qmin())
            },
            _ => true,
        }
    }

    /// A number's place on the extended real line, in units of the least
    /// subnormal; the infinities lie just beyond the finite range.
    #[verifier::opaque]
    pub open spec fn rank(self, f: Format) -> int {
        match self {
            Value::Nan => 0,
            Value::Inf { neg } => {
                let top = pow2((f.prec + f.qmax() - f.qmin()) as nat) as int;
                if neg {
                    -top
                } else {
                    top
                }
            },
            Value::Fin { neg, mant, exp } => {
                let s = (mant * pow2((exp - f.qmin()) as nat)) as int;
                if neg {
                    -s
                } else {
                    s
                }
            },
        }
    }

    /// The zero with the given sign.
    pub open spec fn zero(f: Format, neg: bool) -> Value {
        Value::Fin { neg, mant: 0, exp: f.qmin() }
    }
}

/// `a < b` as IEEE 754 orders numbers: false when either is a NaN, and the
/// two zeros are equal.
pub open spec fn lt(f: Format, a: Value, b: Value) -> bool {
    a !is Nan && b !is Nan && a.rank(f) < b.rank(f)
}

/// A datum taken apart: the executable counterpart of [`Value`].
#[derive(Clone, Copy)]
pub enum Unpacked {
    Nan,
    Inf { neg: bool },
    Fin { neg: bool, mant: u64, exp: i32 },
}

impl View for Unpacked {
    type V = Value;

    open spec fn view(&self) -> Value {
        match *self {
            Unpacked::Nan => Value::Nan,
            Unpacked::Inf { neg } => Value::Inf { neg },
            Unpacked::Fin { neg, mant, exp } => Value::Fin { neg, mant: mant as nat, exp: exp as int },
        }
    }
}

} // verus!
