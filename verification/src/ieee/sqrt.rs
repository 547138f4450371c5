//! Square root.

use crate::ieee::format::Format;
use crate::ieee::format::Unpacked;
use crate::ieee::format::Value;
use crate::ieee::power::binary_length;
use crate::ieee::power::bit_length;
use crate::ieee::power::lemma_bit_length_below;
use crate::ieee::power::lemma_bit_length_bounds;
use crate::ieee::power::lemma_pow2_monotone;
use crate::ieee::power::lemma_pow2_scale_ge;
use crate::ieee::power::lemma_pow2_scale_lt;
use crate::ieee::power::lemma_pow2_values;
use crate::ieee::power::power_of_two;
use crate::ieee::rounding::lemma_round_scaled;
use crate::ieee::rounding::lemma_round_sticky;
use crate::ieee::rounding::round;
use crate::ieee::rounding::round_to;
use vstd::arithmetic::power2::lemma_pow2_adds;
use vstd::arithmetic::power2::pow2;
use vstd::prelude::*;

verus! {

/// `r` is the integer part of the square root of `n`.
pub open spec fn is_integer_root(n: nat, r: nat) -> bool {
    r * r <= n < (r + 1) * (r + 1)
}

/// The integer part of the square root of `n`.
pub open spec fn integer_root(n: nat) -> nat {
    choose|r: nat| is_integer_root(n, r)
}

/// A number has one integer root.
pub proof fn lemma_integer_root_unique(n: nat, r: nat, s: nat)
    by (nonlinear_arith)
    requires
        r * r <= n < (r + 1) * (r + 1),
        s * s <= n < (s + 1) * (s + 1),
    ensures
        r == s,
{
}

/// A number that fits the definition is the integer root.
pub proof fn lemma_integer_root_is(n: nat, r: nat)
    requires
        is_integer_root(n, r),
    ensures
        integer_root(n) == r,
{
    let s = integer_root(n);
    assert(is_integer_root(n, s));
    lemma_integer_root_unique(n, r, s);
}

/// How far a significand is shifted before its root is taken: far enough
/// for the root to have more digits than the precision, and so that the
/// exponent that is left is even.
pub open spec fn radicand_shift(f: Format, m: nat, e: int) -> int {
    let t = 2 * f.prec + 2 - bit_length(m);
    if (e - t) % 2 == 0 {
        t
    } else {
        t + 1
    }
}

/// The square root of `m * 2^e` rounded from a root that is carried to
/// `s / 2` binary places, for `s` such that `e - s` is even: the places
/// are the integer root of `m * 2^s`, and a root that is not exact sets
/// one more digit below them.
pub open spec fn round_root_at(f: Format, m: nat, e: int, s: nat) -> Value {
    let n = m * pow2(s);
    let r = integer_root(n);
    let h = (e - s) / 2;
    if r * r == n {
        round(f, false, r, h)
    } else {
        round(f, false, 2 * r + 1, h - 1)
    }
}

/// The number nearest to the square root of `m * 2^e`, for positive `m`
/// below `2^prec`: the root is carried to more places than the precision,
/// and carrying it further would change nothing ([`lemma_root_places`]).
pub open spec fn round_root(f: Format, m: nat, e: int) -> Value {
    round_root_at(f, m, e, radicand_shift(f, m, e) as nat)
}

/// Every number has an integer root.
pub proof fn lemma_integer_root_exists(n: nat)
    ensures
        is_integer_root(n, integer_root(n)),
    decreases n,
{
    if n == 0 {
        assert(is_integer_root(0, 0)) by (nonlinear_arith);
    } else {
        lemma_integer_root_exists((n - 1) as nat);
        let r = integer_root((n - 1) as nat);
        if (r + 1) * (r + 1) <= n {
            assert(is_integer_root(n, r + 1)) by (nonlinear_arith)
                requires
                    r * r <= n - 1 < (r + 1) * (r + 1),
                    (r + 1) * (r + 1) <= n,
            ;
        } else {
            assert(is_integer_root(n, r)) by (nonlinear_arith)
                requires
                    r * r <= n - 1 < (r + 1) * (r + 1),
                    !((r + 1) * (r + 1) <= n),
            ;
        }
    }
}

/// The root of four times a number is twice its root, or one more; and
/// four times a number is a square only if the number is.
proof fn lemma_root_of_fourfold(n: nat, r: nat, r4: nat)
    by (nonlinear_arith)
    requires
        r * r <= n < (r + 1) * (r + 1),
        r4 * r4 <= 4 * n < (r4 + 1) * (r4 + 1),
    ensures
        r4 == 2 * r || r4 == 2 * r + 1,
        r4 * r4 == 4 * n <==> r * r == n,
        r * r == n ==> r4 == 2 * r,
{
    if r4 < 2 * r {
        assert((r4 + 1) * (r4 + 1) <= (2 * r) * (2 * r));
    }
    if r4 > 2 * r + 1 {
        assert((2 * r + 2) * (2 * r + 2) <= r4 * r4);
    }
    if r4 == 2 * r + 1 {
        assert(r4 * r4 == 4 * (r * r + r) + 1);
    }
}

/// The root has more digits than the precision.
proof fn lemma_root_long(f: Format, m: nat, e: int, s: nat)
    requires
        f.wf(),
        m > 0,
        s >= radicand_shift(f, m, e),
    ensures
        integer_root(m * pow2(s)) >= pow2(f.prec as nat),
{
    let p = f.prec as nat;
    let l = bit_length(m);
    let n = m * pow2(s);
    lemma_bit_length_bounds(m);
    lemma_pow2_scale_ge(m, (l - 1) as nat, s);
    lemma_pow2_monotone(2 * p, (l - 1) as nat + s);
    lemma_pow2_adds(p, p);
    lemma_integer_root_exists(n);
    let r = integer_root(n);
    let c = pow2(p);
    assert(r >= c) by (nonlinear_arith)
        requires
            c * c <= n,
            n < (r + 1) * (r + 1),
    ;
}

/// One more place changes nothing.
proof fn lemma_root_place(f: Format, m: nat, e: int, s: nat)
    requires
        f.wf(),
        m > 0,
        s >= radicand_shift(f, m, e),
        (e - s) % 2 == 0,
    ensures
        round_root_at(f, m, e, s + 2) == round_root_at(f, m, e, s),
{
    let n = m * pow2(s);
    let r = integer_root(n);
    let n4 = m * pow2(s + 2);
    let r4 = integer_root(n4);
    let h = (e - s) / 2;
    assert((e - (s + 2)) / 2 == h - 1);
    lemma_pow2_adds(s, 2);
    lemma_pow2_values();
    assert(n4 == 4 * n) by (nonlinear_arith)
        requires
            n4 == m * pow2(s + 2),
            n == m * pow2(s),
            pow2(s + 2) == pow2(s) * 4,
    ;
    lemma_integer_root_exists(n);
    lemma_integer_root_exists(n4);
    lemma_root_of_fourfold(n, r, r4);
    lemma_root_long(f, m, e, s);
    if r * r == n {
        assert(r * pow2(1) == 2 * r) by (nonlinear_arith)
            requires
                pow2(1) == 2,
        ;
        lemma_round_scaled(f, false, r, 1, h - 1);
    } else {
        let low = (r4 - 2 * r) as nat;
        assert(2 * r4 + 1 == r * pow2(2) + (2 * low + 1)) by (nonlinear_arith)
            requires
                pow2(2) == 4,
                low == r4 - 2 * r,
        ;
        lemma_round_sticky(f, false, r, 2, 2 * low + 1, h - 2);
    }
}

/// Carrying the root to more places than [`round_root`] does changes
/// nothing: the result is the rounding of the root itself.
pub proof fn lemma_root_places(f: Format, m: nat, e: int, more: nat)
    requires
        f.wf(),
        m > 0,
        radicand_shift(f, m, e) >= 0,
    ensures
        round_root_at(f, m, e, radicand_shift(f, m, e) as nat + 2 * more) == round_root(f, m, e),
    decreases more,
{
    if more > 0 {
        lemma_root_places(f, m, e, (more - 1) as nat);
        lemma_root_place(f, m, e, (radicand_shift(f, m, e) + 2 * (more - 1)) as nat);
    }
}

/// The square root of a number, rounded once. The root of a zero is that
/// zero; a negative number has none.
#[verifier::opaque]
pub open spec fn root(f: Format, a: Value) -> Value {
    match a {
        Value::Nan => Value::Nan,
        Value::Inf { neg } => if neg {
            Value::Nan
        } else {
            a
        },
        Value::Fin { neg, mant, exp } => if mant == 0 {
            a
        } else if neg {
            Value::Nan
        } else {
            round_root(f, mant, exp)
        },
    }
}

/// Squaring keeps the order.
proof fn lemma_square_bound(a: nat, b: nat)
    by (nonlinear_arith)
    requires
        a <= b,
    ensures
        a * a <= b * b,
{
}

/// The integer part of the square root of `n`.
pub fn integer_sqrt(n: u128) -> (r: u128)
    requires
        n < pow2(110),
    ensures
        r == integer_root(n as nat),
        r * r <= n < (r + 1) * (r + 1),
        r < pow2(55),
{
    proof {
        lemma_pow2_values();
        lemma_pow2_adds(55, 55);
        lemma_pow2_adds(52, 3);
        lemma_pow2_adds(64, 46);
        lemma_pow2_adds(23, 23);
    }
    let mut lo: u128 = 0;
    let mut hi: u128 = 0x80_0000_0000_0000u128;
    assert(hi == pow2(55));
    while hi - lo > 1
        invariant
            lo < hi <= pow2(55),
            pow2(55) == 0x80_0000_0000_0000,
            lo * lo <= n < hi * hi,
        decreases hi - lo,
    {
        let mid: u128 = lo + (hi - lo) / 2;
        proof {
            lemma_square_bound(mid as nat, 0x80_0000_0000_0000);
        }
        if mid * mid <= n {
            lo = mid;
        } else {
            hi = mid;
        }
    }
    proof {
        assert(hi == lo + 1);
        lemma_integer_root_is(n as nat, lo as nat);
    }
    lo
}

impl Format {
    /// The square root of `a`, rounded once.
    pub fn sqrt(&self, a: Unpacked) -> (r: Unpacked)
        requires
            self.wf(),
            a@.canonical(*self),
        ensures
            r@ == root(*self, a@),
            r@.canonical(*self),
    {
        reveal(root);
        match a {
            Unpacked::Nan => Unpacked::Nan,
            Unpacked::Inf { neg } => if neg {
                Unpacked::Nan
            } else {
                a
            },
            Unpacked::Fin { neg, mant, exp } => {
                if mant == 0 {
                    a
                } else if neg {
                    Unpacked::Nan
                } else {
                    let l: u32 = binary_length(mant as u128);
                    proof {
                        lemma_bit_length_below(mant as nat, self.prec as nat);
                        lemma_bit_length_bounds(mant as nat);
                    }
                    let t: u32 = 2 * self.prec + 2 - l;
                    let odd: bool = ((exp + 8192) as u32 + t) % 2 == 1;
                    let s: u32 = if odd {
                        t + 1
                    } else {
                        t
                    };
                    assert(s == radicand_shift(*self, mant as nat, exp as int));
                    proof {
                        lemma_pow2_values();
                        lemma_pow2_scale_lt(mant as nat, l as nat, s as nat);
                        lemma_pow2_monotone((l + s) as nat, 109);
                        lemma_pow2_monotone(109, 110);
                        lemma_pow2_monotone(110, 127);
                        lemma_pow2_monotone(55, 64);
                        lemma_pow2_monotone(64, 120);
                    }
                    let n: u128 = (mant as u128) * power_of_two(s);
                    let r: u128 = integer_sqrt(n);
                    let h: i32 = (((exp + 8192) as u32 - s) / 2) as i32 - 4096;
                    assert(h == (exp - s) / 2);
                    if r * r == n {
                        round_to(*self, false, r, h)
                    } else {
                        round_to(*self, false, 2 * r + 1, h - 1)
                    }
                }
            },
        }
    }
}

} // verus!
