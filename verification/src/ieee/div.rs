//! Division.

use crate::ieee::bounds::lemma_quotient_at_least;
use crate::ieee::format::Format;
use crate::ieee::format::Unpacked;
use crate::ieee::format::Value;
use crate::ieee::power::binary_length;
use crate::ieee::power::bit_length;
use crate::ieee::power::lemma_bit_length_below;
use crate::ieee::power::lemma_bit_length_bounds;
use crate::ieee::power::lemma_div_mod_split;
use crate::ieee::power::lemma_div_mod_unique;
use crate::ieee::power::lemma_pow2_monotone;
use crate::ieee::power::lemma_pow2_scale_ge;
use crate::ieee::power::lemma_pow2_scale_lt;
use crate::ieee::power::lemma_pow2_values;
use crate::ieee::power::power_of_two;
use crate::ieee::rounding::lemma_round_scaled;
use crate::ieee::rounding::lemma_round_sticky;
use crate::ieee::rounding::round;
use crate::ieee::rounding::round_to;
use vstd::arithmetic::power2::lemma_pow2_adds;
use vstd::arithmetic::power2::lemma_pow2_unfold;
use vstd::arithmetic::power2::pow2;
use vstd::prelude::*;

verus! {

/// How far the dividend is shifted before the integer division, so that the
/// quotient has more digits than the precision: the shifted dividend has
/// `2 * prec + 1` digits.
pub open spec fn dividend_shift(f: Format, n: nat) -> int {
    2 * f.prec + 1 - bit_length(n)
}

/// `(-1)^neg * (n / d) * 2^e` rounded from a quotient that is carried to
/// `s` binary places: the places are the integer quotient of `n * 2^s` by
/// `d`, and a division that leaves a remainder sets one more digit below
/// them.
pub open spec fn round_ratio_at(f: Format, neg: bool, n: nat, d: nat, e: int, s: nat) -> Value {
    let scaled = n * pow2(s);
    if scaled % d == 0 {
        round(f, neg, scaled / d, e - s)
    } else {
        round(f, neg, 2 * (scaled / d) + 1, e - s - 1)
    }
}

/// The number nearest to `(-1)^neg * (n / d) * 2^e`, for positive `n` and
/// `d` below `2^prec`: the quotient is carried to more places than the
/// precision, and carrying it further would change nothing
/// ([`lemma_quotient_places`]).
pub open spec fn round_ratio(f: Format, neg: bool, n: nat, d: nat, e: int) -> Value {
    round_ratio_at(f, neg, n, d, e, dividend_shift(f, n) as nat)
}

/// The quotient has more digits than the precision.
proof fn lemma_quotient_long(f: Format, n: nat, d: nat, s: nat)
    requires
        f.wf(),
        n > 0,
        0 < d < pow2(f.prec as nat),
        s >= dividend_shift(f, n),
    ensures
        (n * pow2(s)) / d >= pow2(f.prec as nat),
{
    let p = f.prec as nat;
    let l = bit_length(n);
    lemma_bit_length_bounds(n);
    lemma_bit_length_below(n, l);
    lemma_pow2_scale_ge(n, (l - 1) as nat, s);
    lemma_pow2_monotone(2 * p, (l - 1) as nat + s);
    lemma_pow2_adds(p, p);
    let c = pow2(p);
    assert(c * d <= c * c) by (nonlinear_arith)
        requires
            d < c,
    ;
    lemma_quotient_at_least(c, d, n * pow2(s));
}

/// One more place changes nothing.
proof fn lemma_quotient_place(f: Format, neg: bool, n: nat, d: nat, e: int, s: nat)
    requires
        f.wf(),
        n > 0,
        0 < d < pow2(f.prec as nat),
        s >= dividend_shift(f, n),
    ensures
        round_ratio_at(f, neg, n, d, e, s + 1) == round_ratio_at(f, neg, n, d, e, s),
{
    let big = n * pow2(s);
    let q = big / d;
    let r = big % d;
    lemma_quotient_long(f, n, d, s);
    lemma_div_mod_split(big, d);
    lemma_pow2_unfold(s + 1);
    lemma_pow2_values();
    assert(n * pow2(s + 1) == 2 * big) by (nonlinear_arith)
        requires
            pow2(s + 1) == 2 * pow2(s),
            big == n * pow2(s),
    ;
    if 2 * r < d {
        assert(2 * big == (2 * q) * d + 2 * r) by (nonlinear_arith)
            requires
                big == q * d + r,
        ;
        lemma_div_mod_unique(2 * big, d, 2 * q, 2 * r);
        if r == 0 {
            assert(q * pow2(1) == 2 * q) by (nonlinear_arith)
                requires
                    pow2(1) == 2,
            ;
            lemma_round_scaled(f, neg, q, 1, e - s - 1);
        } else {
            assert(2 * (2 * q) + 1 == q * pow2(2) + 1) by (nonlinear_arith)
                requires
                    pow2(2) == 4,
            ;
            lemma_round_sticky(f, neg, q, 2, 1, e - s - 2);
        }
    } else {
        let r2 = (2 * r - d) as nat;
        assert(2 * big == (2 * q + 1) * d + r2) by (nonlinear_arith)
            requires
                big == q * d + r,
                r2 == 2 * r - d,
        ;
        lemma_div_mod_unique(2 * big, d, 2 * q + 1, r2);
        if r2 > 0 {
            assert(2 * (2 * q + 1) + 1 == q * pow2(2) + 3) by (nonlinear_arith)
                requires
                    pow2(2) == 4,
            ;
            lemma_round_sticky(f, neg, q, 2, 3, e - s - 2);
        }
    }
}

/// Carrying the quotient to more places than [`round_ratio`] does changes
/// nothing: the result is the rounding of the quotient itself.
pub proof fn lemma_quotient_places(f: Format, neg: bool, n: nat, d: nat, e: int, more: nat)
    requires
        f.wf(),
        n > 0,
        0 < d < pow2(f.prec as nat),
        dividend_shift(f, n) >= 0,
    ensures
        round_ratio_at(f, neg, n, d, e, dividend_shift(f, n) as nat + more) == round_ratio(
            f,
            neg,
            n,
            d,
            e,
        ),
    decreases more,
{
    if more > 0 {
        lemma_quotient_places(f, neg, n, d, e, (more - 1) as nat);
        lemma_quotient_place(f, neg, n, d, e, (dividend_shift(f, n) + more - 1) as nat);
    }
}

/// The quotient of two numbers, rounded once. Zero by zero and infinity by
/// infinity are not numbers; a nonzero number by zero is an infinity.
#[verifier::opaque]
pub open spec fn quotient(f: Format, a: Value, b: Value) -> Value {
    match (a, b) {
        (Value::Nan, _) => Value::Nan,
        (_, Value::Nan) => Value::Nan,
        (Value::Inf { .. }, Value::Inf { .. }) => Value::Nan,
        (Value::Inf { neg: na }, Value::Fin { neg: nb, .. }) => Value::Inf { neg: na != nb },
        (Value::Fin { neg: na, .. }, Value::Inf { neg: nb }) => Value::zero(f, na != nb),
        (Value::Fin { neg: na, mant: ma, exp: ea }, Value::Fin { neg: nb, mant: mb, exp: eb }) => if mb
            == 0 {
            if ma == 0 {
                Value::Nan
            } else {
                Value::Inf { neg: na != nb }
            }
        } else if ma == 0 {
            Value::zero(f, na != nb)
        } else {
            round_ratio(f, na != nb, ma, mb, ea - eb)
        },
    }
}

impl Format {
    /// `a / b`, rounded once.
    pub fn div(&self, a: Unpacked, b: Unpacked) -> (r: Unpacked)
        requires
            self.wf(),
            a@.canonical(*self),
            b@.canonical(*self),
        ensures
            r@ == quotient(*self, a@, b@),
            r@.canonical(*self),
    {
        reveal(quotient);
        match (a, b) {
            (Unpacked::Nan, _) => Unpacked::Nan,
            (_, Unpacked::Nan) => Unpacked::Nan,
            (Unpacked::Inf { .. }, Unpacked::Inf { .. }) => Unpacked::Nan,
            (Unpacked::Inf { neg: na }, Unpacked::Fin { neg: nb, .. }) => Unpacked::Inf {
                neg: na != nb,
            },
            (Unpacked::Fin { neg: na, .. }, Unpacked::Inf { neg: nb }) => {
                proof {
                    vstd::arithmetic::power2::lemma_pow2_pos((self.prec - 1) as nat);
                }
                Unpacked::Fin { neg: na != nb, mant: 0, exp: self.least_exponent() }
            },
            (
                Unpacked::Fin { neg: na, mant: ma, exp: ea },
                Unpacked::Fin { neg: nb, mant: mb, exp: eb },
            ) => {
                proof {
                    vstd::arithmetic::power2::lemma_pow2_pos((self.prec - 1) as nat);
                }
                if mb == 0 {
                    if ma == 0 {
                        Unpacked::Nan
                    } else {
                        Unpacked::Inf { neg: na != nb }
                    }
                } else if ma == 0 {
                    Unpacked::Fin { neg: na != nb, mant: 0, exp: self.least_exponent() }
                } else {
                    let l: u32 = binary_length(ma as u128);
                    proof {
                        lemma_bit_length_below(ma as nat, self.prec as nat);
                        lemma_bit_length_bounds(ma as nat);
                    }
                    let s: u32 = 2 * self.prec + 1 - l;
                    proof {
                        lemma_pow2_values();
                        lemma_pow2_scale_lt(ma as nat, l as nat, s as nat);
                        lemma_pow2_monotone((l + s) as nat, 107);
                        lemma_pow2_unfold(108);
                        lemma_pow2_monotone(108, 120);
                        lemma_pow2_monotone(107, 127);
                    }
                    let scaled: u128 = (ma as u128) * power_of_two(s);
                    let q: u128 = scaled / (mb as u128);
                    let rem: u128 = scaled % (mb as u128);
                    let e: i32 = ea - eb - (s as i32);
                    if rem == 0 {
                        round_to(*self, na != nb, q, e)
                    } else {
                        round_to(*self, na != nb, 2 * q + 1, e - 1)
                    }
                }
            },
        }
    }
}

} // verus!
