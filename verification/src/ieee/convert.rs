//! Conversions between integers and binary numbers.

use crate::ieee::format::Format;
use crate::ieee::format::Unpacked;
use crate::ieee::format::Value;
use crate::ieee::power::lemma_div_mod_unique;
use crate::ieee::power::lemma_pow2_monotone;
use crate::ieee::power::lemma_pow2_scale_ge;
use crate::ieee::power::lemma_pow2_values;
use crate::ieee::power::power_of_two;
use crate::ieee::rounding::round;
use crate::ieee::rounding::round_to;
use vstd::arithmetic::power2::lemma_pow2_pos;
use vstd::arithmetic::power2::pow2;
use vstd::prelude::*;

verus! {

/// The number nearest to the integer `n`.
#[verifier::opaque]
pub open spec fn from_integer(f: Format, n: nat) -> Value {
    round(f, false, n, 0)
}

/// The integer part of a finite value that is not negative.
pub open spec fn integer_part(mant: nat, exp: int) -> nat {
    if exp >= 0 {
        mant * pow2(exp as nat)
    } else {
        mant / pow2((-exp) as nat)
    }
}

/// A number cut to its integer part and held to `0..=255`; a NaN gives 0.
#[verifier::opaque]
pub open spec fn to_byte(v: Value) -> u8 {
    match v {
        Value::Nan => 0,
        Value::Inf { neg } => if neg {
            0
        } else {
            255
        },
        Value::Fin { neg, mant, exp } => if neg {
            0
        } else if integer_part(mant, exp) > 255 {
            255
        } else {
            integer_part(mant, exp) as u8
        },
    }
}

impl Format {
    /// The number nearest to `n`.
    pub fn from_u64(&self, n: u64) -> (r: Unpacked)
        requires
            self.wf(),
        ensures
            r@ == from_integer(*self, n as nat),
            r@.canonical(*self),
    {
        proof {
            reveal(from_integer);
            lemma_pow2_values();
            lemma_pow2_monotone(64, 120);
        }
        round_to(*self, false, n as u128, 0)
    }
}

impl Unpacked {
    /// The integer part, held to `0..=255`; 0 for a NaN.
    pub fn to_u8(&self) -> (r: u8)
        ensures
            r == to_byte(self@),
    {
        reveal(to_byte);
        match *self {
            Unpacked::Nan => 0,
            Unpacked::Inf { neg } => if neg {
                0
            } else {
                255
            },
            Unpacked::Fin { neg, mant, exp } => {
                if neg || mant == 0 {
                    proof {
                        if exp < 0 {
                            lemma_pow2_pos((-exp) as nat);
                            lemma_div_mod_unique(0, pow2((-exp) as nat), 0, 0);
                        }
                        assert(mant == 0 ==> integer_part(0, exp as int) == 0) by (nonlinear_arith)
                            requires
                                exp >= 0 ==> integer_part(0, exp as int) == 0 * pow2(exp as nat),
                                exp < 0 ==> integer_part(0, exp as int) == 0,
                        ;
                    }
                    0
                } else if exp >= 0 {
                    if exp >= 8 {
                        proof {
                            lemma_pow2_values();
                            lemma_pow2_monotone(8, exp as nat);
                            lemma_pow2_scale_ge(mant as nat, 0, exp as nat);
                        }
                        255
                    } else {
                        proof {
                            lemma_pow2_values();
                            lemma_pow2_monotone(exp as nat, 7);
                            assert(mant * pow2(exp as nat) <= 0xffff_ffff_ffff_ffff * 128)
                                by (nonlinear_arith)
                                requires
                                    mant <= 0xffff_ffff_ffff_ffff,
                                    pow2(exp as nat) <= 128,
                            ;
                        }
                        let t: u128 = (mant as u128) * power_of_two(exp as u32);
                        if t > 255 {
                            255
                        } else {
                            t as u8
                        }
                    }
                } else if exp <= -64 {
                    proof {
                        lemma_pow2_values();
                        lemma_pow2_monotone(64, (-exp) as nat);
                        lemma_div_mod_unique(mant as nat, pow2((-exp) as nat), 0, mant as nat);
                    }
                    0
                } else {
                    proof {
                        lemma_pow2_pos((-exp) as nat);
                    }
                    let t: u128 = (mant as u128) / power_of_two((-exp) as u32);
                    if t > 255 {
                        255
                    } else {
                        t as u8
                    }
                }
            },
        }
    }
}

} // verus!
