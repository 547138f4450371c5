//! Multiplication.

use crate::ieee::format::Format;
use crate::ieee::format::Unpacked;
use crate::ieee::format::Value;
use crate::ieee::power::lemma_pow2_monotone;
use crate::ieee::power::lemma_pow2_values;
use crate::ieee::rounding::round;
use crate::ieee::rounding::round_to;
use vstd::arithmetic::power2::lemma_pow2_adds;
use vstd::arithmetic::power2::pow2;
use vstd::prelude::*;

verus! {

/// The product of two numbers, rounded once. An infinity times a zero is
/// not a number; the sign of any other product is the product of the signs.
#[verifier::opaque]
pub open spec fn product(f: Format, a: Value, b: Value) -> Value {
    match (a, b) {
        (Value::Nan, _) => Value::Nan,
        (_, Value::Nan) => Value::Nan,
        (Value::Inf { neg: na }, Value::Inf { neg: nb }) => Value::Inf { neg: na != nb },
        (Value::Inf { neg: na }, Value::Fin { neg: nb, mant, exp }) => if mant == 0 {
            Value::Nan
        } else {
            Value::Inf { neg: na != nb }
        },
        (Value::Fin { neg: na, mant, exp }, Value::Inf { neg: nb }) => if mant == 0 {
            Value::Nan
        } else {
            Value::Inf { neg: na != nb }
        },
        (Value::Fin { neg: na, mant: ma, exp: ea }, Value::Fin { neg: nb, mant: mb, exp: eb }) => round(
            f,
            na != nb,
            ma * mb,
            ea + eb,
        ),
    }
}

/// The product of two significands has at most 106 digits.
proof fn lemma_product_bound(a: nat, b: nat)
    by (nonlinear_arith)
    requires
        a < 0x20_0000_0000_0000,
        b < 0x20_0000_0000_0000,
    ensures
        a * b < 0x400_0000_0000_0000_0000_0000_0000,
{
}

/// `2^106`, and its place below `2^120`.
pub proof fn lemma_pow2_106()
    ensures
        pow2(106) == 0x400_0000_0000_0000_0000_0000_0000,
        pow2(106) < pow2(120),
{
    lemma_pow2_values();
    lemma_pow2_adds(53, 53);
    lemma_pow2_monotone(107, 120);
    lemma_pow2_monotone(106, 107);
    vstd::arithmetic::power2::lemma_pow2_strictly_increases(106, 120);
}

impl Format {
    /// `a * b`, rounded once.
    pub fn mul(&self, a: Unpacked, b: Unpacked) -> (r: Unpacked)
        requires
            self.wf(),
            a@.canonical(*self),
            b@.canonical(*self),
        ensures
            r@ == product(*self, a@, b@),
            r@.canonical(*self),
    {
        reveal(product);
        match (a, b) {
            (Unpacked::Nan, _) => Unpacked::Nan,
            (_, Unpacked::Nan) => Unpacked::Nan,
            (Unpacked::Inf { neg: na }, Unpacked::Inf { neg: nb }) => Unpacked::Inf { neg: na != nb },
            (Unpacked::Inf { neg: na }, Unpacked::Fin { neg: nb, mant, exp }) => if mant == 0 {
                Unpacked::Nan
            } else {
                Unpacked::Inf { neg: na != nb }
            },
            (Unpacked::Fin { neg: na, mant, exp }, Unpacked::Inf { neg: nb }) => if mant == 0 {
                Unpacked::Nan
            } else {
                Unpacked::Inf { neg: na != nb }
            },
            (
                Unpacked::Fin { neg: na, mant: ma, exp: ea },
                Unpacked::Fin { neg: nb, mant: mb, exp: eb },
            ) => {
                proof {
                    lemma_pow2_values();
                    lemma_pow2_monotone(self.prec as nat, 53);
                    lemma_product_bound(ma as nat, mb as nat);
                    lemma_pow2_106();
                }
                round_to(*self, na != nb, (ma as u128) * (mb as u128), ea + eb)
            },
        }
    }
}

} // verus!
