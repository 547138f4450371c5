//! Rounding to nearest, ties to even.

use crate::ieee::format::Format;
use crate::ieee::format::Unpacked;
use crate::ieee::format::Value;
use crate::ieee::power::binary_length;
use crate::ieee::power::bit_length;
use crate::ieee::power::lemma_bit_length_below;
use crate::ieee::power::lemma_bit_length_bounds;
use crate::ieee::power::lemma_bit_length_scaled;
use crate::ieee::power::lemma_bit_length_unique;
use crate::ieee::power::lemma_div_mod_scaled;
use crate::ieee::power::lemma_div_mod_split;
use crate::ieee::power::lemma_div_mod_unique;
use crate::ieee::power::lemma_div_pow2_ge;
use crate::ieee::power::lemma_div_pow2_lt;
use crate::ieee::power::lemma_pow2_monotone;
use crate::ieee::power::lemma_pow2_scale_ge;
use crate::ieee::power::lemma_pow2_scale_lt;
use crate::ieee::power::lemma_pow2_values;
use crate::ieee::power::lemma_scale_order;
use crate::ieee::power::power_of_two;
use vstd::arithmetic::power2::lemma_pow2_adds;
use vstd::arithmetic::power2::lemma_pow2_pos;
use vstd::arithmetic::power2::lemma_pow2_unfold;
use vstd::arithmetic::power2::pow2;
use vstd::prelude::*;

verus! {

/// `m / 2^k` rounded to the nearest integer, a tie going to the even one.
pub open spec fn nearest_even(m: nat, k: nat) -> nat {
    let quo = m / pow2(k);
    let rem = m % pow2(k);
    let half = pow2((k - 1) as nat);
    if rem > half || (rem == half && quo % 2 == 1) {
        quo + 1
    } else {
        quo
    }
}

/// The exponent at which `m * 2^e` is rounded: the one that makes the
/// significand fill the precision, but no less than the least exponent.
pub open spec fn rounding_exponent(f: Format, m: nat, e: int) -> int {
    let ideal = e + bit_length(m) - f.prec;
    if ideal < f.qmin() {
        f.qmin()
    } else {
        ideal
    }
}

/// The significand of `m * 2^e` at exponent `q`, before a carry out of the
/// precision is taken care of.
pub open spec fn rounded_significand(m: nat, e: int, q: int) -> nat {
    if q <= e {
        m * pow2((e - q) as nat)
    } else {
        nearest_even(m, (q - e) as nat)
    }
}

/// A finite result, or the infinity that stands for one beyond the range.
pub open spec fn bounded(f: Format, neg: bool, mant: nat, exp: int) -> Value {
    if exp > f.qmax() {
        Value::Inf { neg }
    } else {
        Value::Fin { neg, mant, exp }
    }
}

/// The number of format `f` nearest to `(-1)^neg * m * 2^e`, ties to even;
/// an infinity if that lies beyond the largest finite number.
pub open spec fn round(f: Format, neg: bool, m: nat, e: int) -> Value {
    if m == 0 {
        Value::zero(f, neg)
    } else {
        let q = rounding_exponent(f, m, e);
        let r = rounded_significand(m, e, q);
        if r == pow2(f.prec as nat) {
            bounded(f, neg, pow2((f.prec - 1) as nat), q + 1)
        } else {
            bounded(f, neg, r, q)
        }
    }
}

/// Among integers, `a < b` gives `a + 1 <= b`.
proof fn lemma_succ_le(a: int, b: int)
    requires
        a < b,
    ensures
        a + 1 <= b,
{
}

/// Rounding gives the quotient or the next integer.
pub proof fn lemma_nearest_even_bounds(m: nat, k: nat)
    requires
        k > 0,
    ensures
        m / pow2(k) <= nearest_even(m, k) <= m / pow2(k) + 1,
{
}

/// How far `n * 2^k` lies from `m`.
pub open spec fn distance(n: nat, k: nat, m: nat) -> nat {
    if n * pow2(k) >= m {
        (n * pow2(k) - m) as nat
    } else {
        (m - n * pow2(k)) as nat
    }
}

/// The rounded quotient is the integer nearest to `m / 2^k`: it lies within
/// half a unit of it, and exactly half a unit away only if it is even.
pub proof fn lemma_nearest_even_error(m: nat, k: nat)
    requires
        k > 0,
    ensures
        2 * distance(nearest_even(m, k), k, m) <= pow2(k),
        2 * distance(nearest_even(m, k), k, m) == pow2(k) ==> nearest_even(m, k) % 2 == 0,
{
    let unit = pow2(k);
    let half = pow2((k - 1) as nat);
    let quo = m / unit;
    let rem = m % unit;
    lemma_pow2_pos(k);
    lemma_pow2_unfold(k);
    lemma_div_mod_split(m, unit);
    assert((quo + 1) * unit == quo * unit + unit) by (nonlinear_arith);
}

/// A number below half of `2^k` rounds to zero.
pub proof fn lemma_nearest_even_small(m: nat, k: nat)
    requires
        k > 0,
        m < pow2((k - 1) as nat),
    ensures
        nearest_even(m, k) == 0,
{
    lemma_pow2_unfold(k);
    lemma_div_mod_unique(m, pow2(k), 0, m);
}

/// Rounding away `k` digits of an `l`-digit number leaves at most `p` digits
/// and a carry, when `l - k <= p`.
proof fn lemma_nearest_even_upper(m: nat, l: nat, k: nat, p: nat)
    requires
        k > 0,
        m < pow2(l),
        l <= k + p,
    ensures
        nearest_even(m, k) <= pow2(p),
{
    lemma_pow2_pos(k);
    lemma_pow2_pos(p);
    let quo = m / pow2(k);
    if k >= l {
        lemma_pow2_monotone(l, k);
        lemma_div_mod_unique(m, pow2(k), 0, m);
    } else {
        lemma_div_pow2_lt(m, l, k);
        lemma_pow2_monotone((l - k) as nat, p);
    }
    lemma_succ_le(quo as int, pow2(p) as int);
}

/// Rounding keeps a number that fills `p + k` digits at `p` digits or more.
proof fn lemma_nearest_even_lower(m: nat, k: nat, p: nat)
    requires
        k > 0,
        p > 0,
        pow2((p + k - 1) as nat) <= m,
    ensures
        nearest_even(m, k) >= pow2((p - 1) as nat),
{
    lemma_div_pow2_ge(m, (p + k - 1) as nat, k);
}

/// The rounded significand fits the precision, a carry included, and fills
/// it whenever the exponent was not held up by the least exponent.
pub proof fn lemma_rounded_significand_bounds(f: Format, m: nat, e: int)
    requires
        f.wf(),
        m > 0,
    ensures
        rounded_significand(m, e, rounding_exponent(f, m, e)) <= pow2(f.prec as nat),
        rounding_exponent(f, m, e) > f.qmin() ==> rounded_significand(
            m,
            e,
            rounding_exponent(f, m, e),
        ) >= pow2((f.prec - 1) as nat),
{
    let p = f.prec as nat;
    let l = bit_length(m);
    let q = rounding_exponent(f, m, e);
    lemma_bit_length_bounds(m);
    if q <= e {
        let s = (e - q) as nat;
        lemma_pow2_scale_lt(m, l, s);
        lemma_pow2_monotone(l + s, p);
        if q > f.qmin() {
            lemma_pow2_scale_ge(m, (l - 1) as nat, s);
        }
    } else {
        let k = (q - e) as nat;
        lemma_nearest_even_upper(m, l, k, p);
        if q > f.qmin() {
            lemma_nearest_even_lower(m, k, p);
        }
    }
}

/// A rounded number is a number of the format.
pub proof fn lemma_round_canonical(f: Format, neg: bool, m: nat, e: int)
    requires
        f.wf(),
    ensures
        round(f, neg, m, e).canonical(f),
{
    let p = f.prec as nat;
    lemma_pow2_pos(p);
    lemma_pow2_pos((p - 1) as nat);
    lemma_pow2_unfold(p);
    if m > 0 {
        lemma_rounded_significand_bounds(f, m, e);
    }
}

/// Rounding read off a decomposition `m == u * 2^k + v` with `v < 2^k`.
pub proof fn lemma_nearest_even_decomposed(m: nat, k: nat, u: nat, v: nat)
    requires
        k > 0,
        v < pow2(k),
        m == u * pow2(k) + v,
    ensures
        nearest_even(m, k) == if v > pow2((k - 1) as nat) || (v == pow2((k - 1) as nat) && u % 2
            == 1) {
            u + 1
        } else {
            u
        },
{
    lemma_div_mod_unique(m, pow2(k), u, v);
}

/// Rounding away digits that are all zero changes nothing.
proof fn lemma_nearest_even_exact(m: nat, k: nat)
    requires
        k > 0,
    ensures
        nearest_even(m * pow2(k), k) == m,
{
    lemma_pow2_pos(k);
    lemma_pow2_pos((k - 1) as nat);
    lemma_nearest_even_decomposed(m * pow2(k), k, m, 0);
}

/// Rounding does not depend on the unit in which a number is written.
proof fn lemma_nearest_even_scaled(m: nat, k: nat, d: nat)
    requires
        k > 0,
    ensures
        nearest_even(m * pow2(d), k + d) == nearest_even(m, k),
{
    lemma_pow2_pos(k);
    lemma_pow2_pos(d);
    lemma_div_mod_split(m, pow2(k));
    lemma_div_mod_scaled(m, k, d);
    lemma_pow2_adds((k - 1) as nat, d);
    let rem = m % pow2(k);
    let half = pow2((k - 1) as nat);
    lemma_scale_order(rem as int, half as int, pow2(d) as int);
    lemma_scale_order(half as int, rem as int, pow2(d) as int);
    assert(pow2((k + d - 1) as nat) == half * pow2(d));
}

/// `m * 2^d` at exponent `e` rounds as `m` at exponent `e + d`.
pub proof fn lemma_round_scaled(f: Format, neg: bool, m: nat, d: nat, e: int)
    requires
        f.wf(),
    ensures
        round(f, neg, m * pow2(d), e) == round(f, neg, m, e + d),
{
    lemma_pow2_pos(d);
    if m == 0 {
        assert(0 * pow2(d) == 0) by (nonlinear_arith);
    } else {
        let n = m * pow2(d);
        assert(n > 0) by (nonlinear_arith)
            requires
                n == m * pow2(d),
                m > 0,
                pow2(d) > 0,
        ;
        lemma_bit_length_scaled(m, d);
        let q = rounding_exponent(f, m, e + d);
        assert(q == rounding_exponent(f, n, e));
        lemma_rounded_significand_scaled(m, d, e, q);
    }
}

/// The rounded significand does not depend on the unit in which a number
/// is written.
proof fn lemma_rounded_significand_scaled(m: nat, d: nat, e: int, q: int)
    ensures
        rounded_significand(m * pow2(d), e, q) == rounded_significand(m, e + d, q),
{
    let n = m * pow2(d);
    if q <= e {
        let s = (e - q) as nat;
        lemma_pow2_adds(d, s);
        assert(m * pow2(d) * pow2(s) == m * (pow2(d) * pow2(s))) by (nonlinear_arith);
    } else if q <= e + d {
        let k = (q - e) as nat;
        let s = (e + d - q) as nat;
        lemma_pow2_adds(s, k);
        assert(m * pow2(d) == (m * pow2(s)) * pow2(k)) by (nonlinear_arith)
            requires
                pow2(d) == pow2(s) * pow2(k),
        ;
        lemma_nearest_even_exact(m * pow2(s), k);
    } else {
        let k = (q - e - d) as nat;
        lemma_nearest_even_scaled(m, k, d);
    }
}

/// A canonical number rounds to itself.
pub proof fn lemma_round_exact(f: Format, neg: bool, m: nat, e: int)
    requires
        f.wf(),
        (Value::Fin { neg, mant: m, exp: e }).canonical(f),
    ensures
        round(f, neg, m, e) == (Value::Fin { neg, mant: m, exp: e }),
{
    let p = f.prec as nat;
    lemma_pow2_values();
    if m > 0 {
        lemma_bit_length_below(m, p);
        if m >= pow2((p - 1) as nat) {
            lemma_bit_length_unique(m, p);
        }
        assert(rounding_exponent(f, m, e) == e);
        assert(m * pow2(0) == m) by (nonlinear_arith)
            requires
                pow2(0) == 1,
        ;
    } else {
        lemma_magnitude_of_zero(f, e);
    }
}

/// A canonical zero has the least exponent.
proof fn lemma_magnitude_of_zero(f: Format, e: int)
    requires
        (Value::Fin { neg: false, mant: 0, exp: e }).canonical(f),
        f.wf(),
    ensures
        e == f.qmin(),
{
    lemma_pow2_pos((f.prec - 1) as nat);
}

/// Digits far below the last place matter only by whether any of them is
/// set: `q * 2^j + r` with `0 < r < 2^j` rounds as `2 * q + 1` one place
/// above, once `q` has more digits than the precision.
pub proof fn lemma_round_sticky(f: Format, neg: bool, q: nat, j: nat, r: nat, e: int)
    requires
        f.wf(),
        j > 0,
        q >= pow2(f.prec as nat),
        0 < r < pow2(j),
    ensures
        round(f, neg, q * pow2(j) + r, e) == round(f, neg, 2 * q + 1, e + j - 1),
{
    let p = f.prec as nat;
    let n = q * pow2(j) + r;
    let n2 = 2 * q + 1;
    let lq = bit_length(q);
    lemma_pow2_pos(p);
    lemma_pow2_pos(j);
    lemma_bit_length_bounds(q);
    assert(lq >= p + 1) by {
        if lq <= p {
            lemma_pow2_monotone(lq, p);
        }
    }
    lemma_sticky_lengths(q, j, r);
    let x = rounding_exponent(f, n, e);
    assert(x == rounding_exponent(f, n2, e + j - 1));
    let k = (x - e) as nat;
    assert(k >= j + 1);
    let c = (k - j) as nat;
    lemma_pow2_pos(c);
    lemma_div_mod_split(q, pow2(c));
    let u = q / pow2(c);
    let v = q % pow2(c);
    lemma_sticky_rounding(q, j, r, c, u, v);
}

/// The lengths of a number with low digits, and of the number that stands
/// for it.
proof fn lemma_sticky_lengths(q: nat, j: nat, r: nat)
    requires
        q > 0,
        r < pow2(j),
    ensures
        bit_length(q * pow2(j) + r) == bit_length(q) + j,
        bit_length(2 * q + 1) == bit_length(q) + 1,
{
    let lq = bit_length(q);
    lemma_bit_length_bounds(q);
    lemma_pow2_pos(j);
    lemma_pow2_adds((lq - 1) as nat, j);
    lemma_pow2_adds(lq, j);
    lemma_pow2_unfold(lq + 1);
    lemma_pow2_unfold(lq);
    let a = pow2((lq - 1) as nat);
    let b = pow2(lq);
    let c = pow2(j);
    assert(a * c <= q * c + r && q * c + r < b * c) by (nonlinear_arith)
        requires
            a <= q < b,
            r < c,
    ;
    lemma_bit_length_unique(q * pow2(j) + r, lq + j);
    lemma_bit_length_unique(2 * q + 1, lq + 1);
}

/// Low digits that are not all zero round as a single digit that is set.
proof fn lemma_sticky_rounding(q: nat, j: nat, r: nat, c: nat, u: nat, v: nat)
    requires
        j > 0,
        c > 0,
        0 < r < pow2(j),
        q == u * pow2(c) + v,
        v < pow2(c),
    ensures
        nearest_even(q * pow2(j) + r, c + j) == nearest_even(2 * q + 1, c + 1),
{
    let pj = pow2(j);
    let pc = pow2(c);
    let h = pow2((c - 1) as nat);
    lemma_pow2_pos(j);
    lemma_pow2_pos(c);
    lemma_pow2_unfold(c);
    lemma_pow2_unfold(c + 1);
    lemma_pow2_adds(c, j);
    lemma_pow2_adds((c - 1) as nat, j);
    let rem = v * pj + r;
    assert(q * pj + r == u * (pc * pj) + rem && rem < pc * pj) by (nonlinear_arith)
        requires
            q == u * pc + v,
            v < pc,
            r < pj,
            rem == v * pj + r,
    ;
    lemma_nearest_even_decomposed(q * pj + r, c + j, u, rem);
    assert(2 * q + 1 == u * (2 * pc) + (2 * v + 1)) by (nonlinear_arith)
        requires
            q == u * pc + v,
    ;
    lemma_nearest_even_decomposed(2 * q + 1, c + 1, u, 2 * v + 1);
    assert((rem > h * pj <==> v >= h) && rem != h * pj) by (nonlinear_arith)
        requires
            rem == v * pj + r,
            0 < r < pj,
    ;
    assert(pow2((c + j - 1) as nat) == h * pj);
    assert(pow2((c + 1 - 1) as nat) == 2 * h);
}

/// Rounds `(-1)^neg * m * 2^e` to format `f`.
pub fn round_to(f: Format, neg: bool, m: u128, e: i32) -> (r: Unpacked)
    requires
        f.wf(),
        m < pow2(120),
        -100_000 <= e <= 100_000,
    ensures
        r@ == round(f, neg, m as nat, e as int),
        r@.canonical(f),
{
    proof {
        lemma_round_canonical(f, neg, m as nat, e as int);
    }
    if m == 0 {
        return Unpacked::Fin { neg, mant: 0, exp: f.least_exponent() };
    }
    let l: i32 = binary_length(m) as i32;
    let p: i32 = f.prec as i32;
    let ideal: i32 = e + l - p;
    let q: i32 = if ideal < f.least_exponent() {
        f.least_exponent()
    } else {
        ideal
    };
    proof {
        lemma_rounded_significand_bounds(f, m as nat, e as int);
        lemma_pow2_monotone(f.prec as nat, 53);
        lemma_pow2_values();
    }
    let mant: u128 = if q <= e {
        let s: u32 = (e - q) as u32;
        let scale = power_of_two(s);
        m * scale
    } else {
        let k: u32 = (q - e) as u32;
        if k > 121 {
            proof {
                lemma_pow2_monotone(120, (k - 1) as nat);
                lemma_nearest_even_small(m as nat, k as nat);
            }
            0
        } else {
            proof {
                lemma_pow2_pos(k as nat);
            }
            let d = power_of_two(k);
            let half = power_of_two(k - 1);
            let quo = m / d;
            let rem = m % d;
            if rem > half || (rem == half && quo % 2 == 1) {
                quo + 1
            } else {
                quo
            }
        }
    };
    assert(mant == rounded_significand(m as nat, e as int, q as int));
    let carry = mant == power_of_two(f.prec);
    let mant: u128 = if carry {
        power_of_two(f.prec - 1)
    } else {
        mant
    };
    let q: i32 = if carry {
        q + 1
    } else {
        q
    };
    if q > f.greatest_exponent() {
        Unpacked::Inf { neg }
    } else {
        Unpacked::Fin { neg, mant: mant as u64, exp: q }
    }
}

} // verus!
