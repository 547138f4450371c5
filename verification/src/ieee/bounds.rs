//! Rounding and the order of numbers: rounding never crosses a number of
//! the format.

use crate::ieee::format::Format;
use crate::ieee::format::Value;
use crate::ieee::format::lt;
use crate::ieee::order::lemma_magnitude_finite;
use crate::ieee::order::magnitude;
use crate::ieee::power::lemma_div_mod_split;
use crate::ieee::power::lemma_pow2_monotone;
use crate::ieee::power::lemma_pow2_scale_ge;
use crate::ieee::power::lemma_pow2_scale_lt;
use crate::ieee::power::lemma_scale_order;
use crate::ieee::rounding::lemma_nearest_even_bounds;
use crate::ieee::rounding::lemma_round_canonical;
use crate::ieee::rounding::lemma_rounded_significand_bounds;
use crate::ieee::rounding::round;
use crate::ieee::rounding::rounded_significand;
use crate::ieee::rounding::rounding_exponent;
use vstd::arithmetic::power2::lemma_pow2_adds;
use vstd::arithmetic::power2::lemma_pow2_pos;
use vstd::arithmetic::power2::pow2;
use vstd::prelude::*;

verus! {

/// `m1 * 2^e1 <= m2 * 2^e2`, compared in units of the lesser exponent.
pub open spec fn dyadic_le(m1: nat, e1: int, m2: nat, e2: int) -> bool {
    let b = if e1 <= e2 {
        e1
    } else {
        e2
    };
    m1 * pow2((e1 - b) as nat) <= m2 * pow2((e2 - b) as nat)
}

/// The comparison may be made in any unit that divides both numbers.
pub proof fn lemma_dyadic_le_rebase(m1: nat, e1: int, m2: nat, e2: int, b: int)
    requires
        b <= e1,
        b <= e2,
    ensures
        dyadic_le(m1, e1, m2, e2) <==> m1 * pow2((e1 - b) as nat) <= m2 * pow2((e2 - b) as nat),
{
    let b0 = if e1 <= e2 {
        e1
    } else {
        e2
    };
    let d = (b0 - b) as nat;
    let c = pow2(d);
    lemma_pow2_pos(d);
    lemma_pow2_adds((e1 - b0) as nat, d);
    lemma_pow2_adds((e2 - b0) as nat, d);
    let x = m1 * pow2((e1 - b0) as nat);
    let y = m2 * pow2((e2 - b0) as nat);
    lemma_scale_order(x as int, y as int, c as int);
    assert(m1 * pow2((e1 - b) as nat) == x * c) by (nonlinear_arith)
        requires
            pow2((e1 - b) as nat) == pow2((e1 - b0) as nat) * c,
            x == m1 * pow2((e1 - b0) as nat),
    ;
    assert(m2 * pow2((e2 - b) as nat) == y * c) by (nonlinear_arith)
        requires
            pow2((e2 - b) as nat) == pow2((e2 - b0) as nat) * c,
            y == m2 * pow2((e2 - b0) as nat),
    ;
}

/// `a * c <= m` gives `a <= m / c`.
pub proof fn lemma_quotient_at_least(a: nat, c: nat, m: nat)
    requires
        c > 0,
        a * c <= m,
    ensures
        a <= m / c,
{
    lemma_div_mod_split(m, c);
    let q = m / c;
    let r = m % c;
    assert(a <= q) by (nonlinear_arith)
        requires
            a * c <= m,
            m == q * c + r,
            r < c,
            c > 0,
    ;
}

/// `m <= a * c` gives `m / c <= a`, with room for one more if the division
/// leaves a remainder.
proof fn lemma_quotient_at_most(a: nat, c: nat, m: nat)
    requires
        c > 0,
        m <= a * c,
    ensures
        m / c <= a,
        m % c > 0 ==> m / c + 1 <= a,
{
    lemma_div_mod_split(m, c);
    let q = m / c;
    let r = m % c;
    assert(q <= a && (r > 0 ==> q + 1 <= a)) by (nonlinear_arith)
        requires
            m <= a * c,
            m == q * c + r,
            r < c,
            c > 0,
    ;
}

/// A multiple of the rounding unit that is no more than a number is no
/// more than the number's rounded significand.
proof fn lemma_significand_not_below(m: nat, e: int, q: int, mv: nat, ev: int)
    requires
        q <= ev,
        dyadic_le(mv, ev, m, e),
    ensures
        mv * pow2((ev - q) as nat) <= rounded_significand(m, e, q),
{
    let a = mv * pow2((ev - q) as nat);
    if q <= e {
        lemma_dyadic_le_rebase(mv, ev, m, e, q);
    } else {
        let k = (q - e) as nat;
        lemma_dyadic_le_rebase(mv, ev, m, e, e);
        lemma_pow2_adds((ev - q) as nat, k);
        lemma_pow2_pos(k);
        assert(pow2(0) == 1) by {
            crate::ieee::power::lemma_pow2_values();
        }
        assert(a * pow2(k) <= m) by (nonlinear_arith)
            requires
                a == mv * pow2((ev - q) as nat),
                pow2((ev - e) as nat) == pow2((ev - q) as nat) * pow2(k),
                mv * pow2((ev - e) as nat) <= m * pow2(0),
                pow2(0) == 1,
        ;
        lemma_quotient_at_least(a, pow2(k), m);
        lemma_nearest_even_bounds(m, k);
    }
}

/// A multiple of the rounding unit that is no less than a number is no
/// less than the number's rounded significand.
proof fn lemma_significand_not_above(m: nat, e: int, q: int, mv: nat, ev: int)
    requires
        q <= ev,
        dyadic_le(m, e, mv, ev),
    ensures
        rounded_significand(m, e, q) <= mv * pow2((ev - q) as nat),
{
    let a = mv * pow2((ev - q) as nat);
    if q <= e {
        lemma_dyadic_le_rebase(m, e, mv, ev, q);
    } else {
        let k = (q - e) as nat;
        lemma_dyadic_le_rebase(m, e, mv, ev, e);
        lemma_pow2_adds((ev - q) as nat, k);
        lemma_pow2_pos(k);
        lemma_pow2_pos((k - 1) as nat);
        assert(pow2(0) == 1) by {
            crate::ieee::power::lemma_pow2_values();
        }
        assert(m <= a * pow2(k)) by (nonlinear_arith)
            requires
                a == mv * pow2((ev - q) as nat),
                pow2((ev - e) as nat) == pow2((ev - q) as nat) * pow2(k),
                m * pow2(0) <= mv * pow2((ev - e) as nat),
                pow2(0) == 1,
        ;
        lemma_quotient_at_most(a, pow2(k), m);
    }
}

/// The magnitude of a rounded number, carry and overflow aside.
pub open spec fn rounded_magnitude(f: Format, m: nat, e: int) -> nat {
    let q = rounding_exponent(f, m, e);
    rounded_significand(m, e, q) * pow2((q - f.qmin()) as nat)
}

/// A rounded number is an infinity or has the magnitude of its rounded
/// significand.
pub proof fn lemma_round_magnitude(f: Format, neg: bool, m: nat, e: int)
    requires
        f.wf(),
        m > 0,
    ensures
        match round(f, neg, m, e) {
            Value::Fin { neg: n, mant, exp } => n == neg && magnitude(f, mant, exp)
                == rounded_magnitude(f, m, e),
            Value::Inf { neg: n } => n == neg,
            Value::Nan => false,
        },
{
    let p = f.prec as nat;
    let q = rounding_exponent(f, m, e);
    let s = (q - f.qmin()) as nat;
    lemma_pow2_adds((p - 1) as nat, 1);
    lemma_pow2_adds(1, s);
    crate::ieee::power::lemma_pow2_values();
    let a = pow2((p - 1) as nat);
    let b = pow2(s);
    assert(a * (2 * b) == (a * 2) * b) by (nonlinear_arith);
}

/// Rounding does not take a number below a number of the format that it
/// is not below.
pub proof fn lemma_round_not_below(f: Format, m: nat, e: int, mv: nat, ev: int)
    requires
        f.wf(),
        (Value::Fin { neg: false, mant: mv, exp: ev }).canonical(f),
        dyadic_le(mv, ev, m, e),
    ensures
        !lt(f, round(f, false, m, e), Value::Fin { neg: false, mant: mv, exp: ev }),
{
    reveal(Value::rank);
    let p = f.prec as nat;
    let v = Value::Fin { neg: false, mant: mv, exp: ev };
    let sv = (ev - f.qmin()) as nat;
    lemma_pow2_pos(sv);
    if m == 0 {
        let b = if ev <= e {
            ev
        } else {
            e
        };
        lemma_pow2_pos((ev - b) as nat);
        assert(mv == 0) by (nonlinear_arith)
            requires
                mv * pow2((ev - b) as nat) <= 0 * pow2((e - b) as nat),
                pow2((ev - b) as nat) > 0,
        ;
        assert(0 * pow2(sv) == 0) by (nonlinear_arith);
        assert(0 * pow2(0) == 0) by (nonlinear_arith);
    } else {
        let q = rounding_exponent(f, m, e);
        let sig = rounded_significand(m, e, q);
        let s = (q - f.qmin()) as nat;
        lemma_round_magnitude(f, false, m, e);
        lemma_magnitude_finite(f, mv, ev);
        lemma_pow2_pos(s);
        if q <= ev {
            lemma_significand_not_below(m, e, q, mv, ev);
            lemma_pow2_adds((ev - q) as nat, s);
            let a = mv * pow2((ev - q) as nat);
            lemma_scale_order(a as int, sig as int, pow2(s) as int);
            assert(mv * pow2(sv) == a * pow2(s)) by (nonlinear_arith)
                requires
                    a == mv * pow2((ev - q) as nat),
                    pow2(sv) == pow2((ev - q) as nat) * pow2(s),
            ;
        } else {
            lemma_rounded_significand_bounds(f, m, e);
            lemma_pow2_scale_ge(sig, (p - 1) as nat, s);
            lemma_pow2_scale_lt(mv, p, sv);
            lemma_pow2_monotone(p + sv, (p - 1) as nat + s);
        }
    }
}

/// Rounding does not take a number above a number of the format that it
/// is not above.
pub proof fn lemma_round_not_above(f: Format, m: nat, e: int, mv: nat, ev: int)
    requires
        f.wf(),
        (Value::Fin { neg: false, mant: mv, exp: ev }).canonical(f),
        dyadic_le(m, e, mv, ev),
    ensures
        !lt(f, Value::Fin { neg: false, mant: mv, exp: ev }, round(f, false, m, e)),
{
    reveal(Value::rank);
    let p = f.prec as nat;
    let sv = (ev - f.qmin()) as nat;
    lemma_pow2_pos(sv);
    if m == 0 {
        assert(0 * pow2(0) == 0) by (nonlinear_arith);
        assert(mv * pow2(sv) >= 0) by (nonlinear_arith);
    } else {
        let q = rounding_exponent(f, m, e);
        let sig = rounded_significand(m, e, q);
        let s = (q - f.qmin()) as nat;
        lemma_round_magnitude(f, false, m, e);
        lemma_round_canonical(f, false, m, e);
        lemma_pow2_pos(s);
        if q > ev {
            // The number fills the precision at an exponent above `ev`, so
            // it exceeds every number with exponent `ev`.
            let l = crate::ieee::power::bit_length(m);
            crate::ieee::power::lemma_bit_length_bounds(m);
            assert(q == e + l - p);
            lemma_exceeds_lower_exponents(f, m, e, l, mv, ev);
        } else {
            lemma_significand_not_above(m, e, q, mv, ev);
            lemma_pow2_adds((ev - q) as nat, s);
            let a = mv * pow2((ev - q) as nat);
            lemma_scale_order(sig as int, a as int, pow2(s) as int);
            assert(mv * pow2(sv) == a * pow2(s)) by (nonlinear_arith)
                requires
                    a == mv * pow2((ev - q) as nat),
                    pow2(sv) == pow2((ev - q) as nat) * pow2(s),
            ;
            // A significand that reaches `2^prec` at the greatest exponent
            // would exceed the bound, which is finite.
            lemma_pow2_scale_lt(mv, p, (ev - q) as nat);
            if sig == pow2(p) {
                lemma_pow2_monotone(p, p + (ev - q) as nat);
                assert(q + 1 <= ev);
            }
        }
    }
}

/// A number of `l` digits at exponent `e` exceeds every number of the
/// format whose exponent is below `e + l - prec`.
proof fn lemma_exceeds_lower_exponents(f: Format, m: nat, e: int, l: nat, mv: nat, ev: int)
    requires
        f.wf(),
        l > 0,
        pow2((l - 1) as nat) <= m,
        mv < pow2(f.prec as nat),
        ev < e + l - f.prec,
    ensures
        !dyadic_le(m, e, mv, ev),
{
    let p = f.prec as nat;
    let b = if e <= ev {
        e
    } else {
        ev
    };
    lemma_dyadic_le_rebase(m, e, mv, ev, b);
    lemma_pow2_scale_ge(m, (l - 1) as nat, (e - b) as nat);
    lemma_pow2_scale_lt(mv, p, (ev - b) as nat);
    lemma_pow2_monotone(p + (ev - b) as nat, (l - 1) as nat + (e - b) as nat);
}

} // verus!
