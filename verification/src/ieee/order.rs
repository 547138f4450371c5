//! Comparison.

use crate::ieee::format::Format;
use crate::ieee::format::Unpacked;
use crate::ieee::format::Value;
use crate::ieee::format::lt;
use crate::ieee::power::lemma_pow2_monotone;
use crate::ieee::power::lemma_pow2_scale_ge;
use crate::ieee::power::lemma_pow2_scale_lt;
use crate::ieee::power::lemma_scale_order;
use vstd::arithmetic::power2::lemma_pow2_pos;
use vstd::arithmetic::power2::pow2;
use vstd::prelude::*;

verus! {

/// The magnitude of a finite value in units of the least subnormal.
pub open spec fn magnitude(f: Format, mant: nat, exp: int) -> nat {
    mant * pow2((exp - f.qmin()) as nat)
}

/// Canonical finite numbers are ordered by exponent, then by significand.
pub proof fn lemma_magnitude_order(f: Format, ma: nat, ea: int, mb: nat, eb: int)
    requires
        f.wf(),
        (Value::Fin { neg: false, mant: ma, exp: ea }).canonical(f),
        (Value::Fin { neg: false, mant: mb, exp: eb }).canonical(f),
    ensures
        magnitude(f, ma, ea) < magnitude(f, mb, eb) <==> (ea < eb || (ea == eb && ma < mb)),
        magnitude(f, ma, ea) == magnitude(f, mb, eb) <==> (ea == eb && ma == mb),
{
    let p = f.prec as nat;
    let sa = (ea - f.qmin()) as nat;
    let sb = (eb - f.qmin()) as nat;
    if ea == eb {
        lemma_pow2_pos(sa);
        lemma_scale_order(ma as int, mb as int, pow2(sa) as int);
    } else if ea < eb {
        lemma_magnitude_step(f, ma, sa, mb, sb);
    } else {
        lemma_magnitude_step(f, mb, sb, ma, sa);
    }
}

/// A number with a lesser exponent lies below every number that fills the
/// precision at a greater one.
proof fn lemma_magnitude_step(f: Format, ma: nat, sa: nat, mb: nat, sb: nat)
    requires
        f.wf(),
        ma < pow2(f.prec as nat),
        mb >= pow2((f.prec - 1) as nat),
        sa < sb,
    ensures
        ma * pow2(sa) < mb * pow2(sb),
{
    let p = f.prec as nat;
    lemma_pow2_scale_lt(ma, p, sa);
    lemma_pow2_scale_ge(mb, (p - 1) as nat, sb);
    lemma_pow2_monotone(p + sa, (p - 1) as nat + sb);
}

/// Every finite number lies strictly between the infinities.
pub proof fn lemma_magnitude_finite(f: Format, m: nat, e: int)
    requires
        f.wf(),
        (Value::Fin { neg: false, mant: m, exp: e }).canonical(f),
    ensures
        magnitude(f, m, e) < pow2((f.prec + f.qmax() - f.qmin()) as nat),
{
    let p = f.prec as nat;
    let s = (e - f.qmin()) as nat;
    lemma_pow2_scale_lt(m, p, s);
    lemma_pow2_monotone(p + s, (f.prec + f.qmax() - f.qmin()) as nat);
}

/// How two canonical finite numbers compare, by sign, exponent and
/// significand.
pub proof fn lemma_lt_finite(f: Format, na: bool, ma: nat, ea: int, nb: bool, mb: nat, eb: int)
    requires
        f.wf(),
        (Value::Fin { neg: na, mant: ma, exp: ea }).canonical(f),
        (Value::Fin { neg: nb, mant: mb, exp: eb }).canonical(f),
    ensures
        lt(f, Value::Fin { neg: na, mant: ma, exp: ea }, Value::Fin { neg: nb, mant: mb, exp: eb })
            == (if na && !nb {
            ma != 0 || mb != 0
        } else if !na && nb {
            false
        } else if !na {
            ea < eb || (ea == eb && ma < mb)
        } else {
            eb < ea || (ea == eb && mb < ma)
        }),
{
    reveal(Value::rank);
    let a = Value::Fin { neg: na, mant: ma, exp: ea };
    let b = Value::Fin { neg: nb, mant: mb, exp: eb };
    let x = magnitude(f, ma, ea);
    let y = magnitude(f, mb, eb);
    assert(a.rank(f) == if na { -(x as int) } else { x as int });
    assert(b.rank(f) == if nb { -(y as int) } else { y as int });
    lemma_magnitude_order(f, ma, ea, mb, eb);
    lemma_magnitude_order(f, mb, eb, ma, ea);
    lemma_magnitude_zero(f, ma, ea);
    lemma_magnitude_zero(f, mb, eb);
}

/// Only a zero significand has magnitude zero.
pub proof fn lemma_magnitude_zero(f: Format, m: nat, e: int)
    requires
        f.wf(),
    ensures
        magnitude(f, m, e) == 0 <==> m == 0,
{
    lemma_pow2_pos((e - f.qmin()) as nat);
    let c = pow2((e - f.qmin()) as nat);
    assert(m * c == 0 <==> m == 0) by (nonlinear_arith)
        requires
            c > 0,
    ;
}

impl Format {
    /// `a < b`; false when either is a NaN.
    pub fn lt(&self, a: Unpacked, b: Unpacked) -> (r: bool)
        requires
            self.wf(),
            a@.canonical(*self),
            b@.canonical(*self),
        ensures
            r == lt(*self, a@, b@),
    {
        reveal(Value::rank);
        match (a, b) {
            (Unpacked::Nan, _) => false,
            (_, Unpacked::Nan) => false,
            (Unpacked::Inf { neg: na }, Unpacked::Inf { neg: nb }) => {
                proof {
                    lemma_pow2_pos((self.prec + self.qmax() - self.qmin()) as nat);
                }
                na && !nb
            },
            (Unpacked::Inf { neg: na }, Unpacked::Fin { neg: nb, mant, exp }) => {
                proof {
                    lemma_magnitude_finite(*self, mant as nat, exp as int);
                }
                na
            },
            (Unpacked::Fin { neg: na, mant, exp }, Unpacked::Inf { neg: nb }) => {
                proof {
                    lemma_magnitude_finite(*self, mant as nat, exp as int);
                }
                !nb
            },
            (
                Unpacked::Fin { neg: na, mant: ma, exp: ea },
                Unpacked::Fin { neg: nb, mant: mb, exp: eb },
            ) => {
                proof {
                    lemma_lt_finite(*self, na, ma as nat, ea as int, nb, mb as nat, eb as int);
                }
                if na && !nb {
                    ma != 0 || mb != 0
                } else if !na && nb {
                    false
                } else if !na {
                    ea < eb || (ea == eb && ma < mb)
                } else {
                    eb < ea || (ea == eb && mb < ma)
                }
            },
        }
    }
}

} // verus!
