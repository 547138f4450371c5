//! Addition, subtraction and negation.

use crate::ieee::format::Format;
use crate::ieee::format::Unpacked;
use crate::ieee::format::Value;
use crate::ieee::power::lemma_pow2_monotone;
use crate::ieee::power::lemma_pow2_scale_lt;
use crate::ieee::power::lemma_pow2_values;
use crate::ieee::power::power_of_two;
use crate::ieee::rounding::lemma_round_exact;
use crate::ieee::rounding::lemma_round_scaled;
use crate::ieee::rounding::lemma_round_sticky;
use crate::ieee::rounding::round;
use crate::ieee::rounding::round_to;
use vstd::arithmetic::power2::lemma_pow2_adds;
use vstd::arithmetic::power2::lemma_pow2_pos;
use vstd::arithmetic::power2::pow2;
use vstd::prelude::*;

verus! {

/// `m` with a sign.
pub open spec fn signed(neg: bool, m: nat) -> int {
    if neg {
        -(m as int)
    } else {
        m as int
    }
}

/// The exact sum of two finite values, in units of `2^e`, where `e` is the
/// lesser of the two exponents.
pub open spec fn exact_sum(na: bool, ma: nat, ea: int, nb: bool, mb: nat, eb: int) -> int {
    let e = if ea <= eb {
        ea
    } else {
        eb
    };
    signed(na, ma) * pow2((ea - e) as nat) + signed(nb, mb) * pow2((eb - e) as nat)
}

/// The sum of two finite values, rounded once. A sum that is exactly zero is
/// `+0`, unless both terms are negative.
pub open spec fn finite_sum(f: Format, na: bool, ma: nat, ea: int, nb: bool, mb: nat, eb: int)
    -> Value {
    let e = if ea <= eb {
        ea
    } else {
        eb
    };
    let s = exact_sum(na, ma, ea, nb, mb, eb);
    if s == 0 {
        Value::zero(f, na && nb)
    } else if s < 0 {
        round(f, true, (-s) as nat, e)
    } else {
        round(f, false, s as nat, e)
    }
}

/// The sum of two numbers. Infinities of opposite sign have no sum.
#[verifier::opaque]
pub open spec fn sum(f: Format, a: Value, b: Value) -> Value {
    match (a, b) {
        (Value::Nan, _) => Value::Nan,
        (_, Value::Nan) => Value::Nan,
        (Value::Inf { neg: na }, Value::Inf { neg: nb }) => if na == nb {
            Value::Inf { neg: na }
        } else {
            Value::Nan
        },
        (Value::Inf { neg }, Value::Fin { .. }) => Value::Inf { neg },
        (Value::Fin { .. }, Value::Inf { neg }) => Value::Inf { neg },
        (Value::Fin { neg: na, mant: ma, exp: ea }, Value::Fin { neg: nb, mant: mb, exp: eb }) => finite_sum(
            f,
            na,
            ma,
            ea,
            nb,
            mb,
            eb,
        ),
    }
}

/// The same number with the opposite sign.
pub open spec fn negation(a: Value) -> Value {
    match a {
        Value::Nan => Value::Nan,
        Value::Inf { neg } => Value::Inf { neg: !neg },
        Value::Fin { neg, mant, exp } => Value::Fin { neg: !neg, mant, exp },
    }
}

/// `a - b` is `a + (-b)`.
pub open spec fn difference(f: Format, a: Value, b: Value) -> Value {
    sum(f, a, negation(b))
}

/// The sum does not depend on the order of its terms.
pub proof fn lemma_finite_sum_commutes(
    f: Format,
    na: bool,
    ma: nat,
    ea: int,
    nb: bool,
    mb: nat,
    eb: int,
)
    ensures
        finite_sum(f, na, ma, ea, nb, mb, eb) == finite_sum(f, nb, mb, eb, na, ma, ea),
{
}

/// Adding a zero of no greater exponent to a canonical number gives it back.
proof fn lemma_sum_with_zero(f: Format, nh: bool, mh: nat, eh: int, nl: bool, el: int)
    requires
        f.wf(),
        (Value::Fin { neg: nh, mant: mh, exp: eh }).canonical(f),
        mh > 0,
        el <= eh,
    ensures
        finite_sum(f, nh, mh, eh, nl, 0, el) == (Value::Fin { neg: nh, mant: mh, exp: eh }),
{
    let d = (eh - el) as nat;
    lemma_pow2_pos(d);
    lemma_pow2_values();
    let s = exact_sum(nh, mh, eh, nl, 0, el);
    assert(s == signed(nh, mh) * pow2(d) + signed(nl, 0) * pow2(0));
    assert(signed(nl, 0) * pow2(0) == 0) by (nonlinear_arith)
        requires
            signed(nl, 0) == 0,
    ;
    let c = pow2(d);
    assert(mh * c > 0 && (-(mh as int)) * c == -(mh * c)) by (nonlinear_arith)
        requires
            mh > 0,
            c > 0,
    ;
    lemma_round_scaled(f, nh, mh, d, el);
    lemma_round_exact(f, nh, mh, eh);
}

/// When the exponents lie far apart, the lesser term only nudges the
/// greater: the sum rounds as the greater term with one more digit set or
/// cleared four places below its last.
proof fn lemma_sum_far(f: Format, nh: bool, mh: nat, eh: int, nl: bool, ml: nat, el: int)
    requires
        f.wf(),
        (Value::Fin { neg: nh, mant: mh, exp: eh }).canonical(f),
        (Value::Fin { neg: nl, mant: ml, exp: el }).canonical(f),
        eh - el > 64,
        ml > 0,
    ensures
        16 * mh > 1,
        finite_sum(f, nh, mh, eh, nl, ml, el) == round(
            f,
            nh,
            if nh == nl {
                16 * mh + 1
            } else {
                (16 * mh - 1) as nat
            },
            eh - 4,
        ),
{
    let p = f.prec as nat;
    let d = (eh - el) as nat;
    let j = (d - 3) as nat;
    lemma_pow2_values();
    lemma_pow2_pos((p - 1) as nat);
    lemma_pow2_adds(3, j);
    lemma_pow2_monotone(p, j);
    lemma_pow2_adds((p - 1) as nat, 3);
    vstd::arithmetic::power2::lemma_pow2_strictly_increases(p, p + 2);
    let pj = pow2(j);
    let pd = pow2(d);
    let s = exact_sum(nh, mh, eh, nl, ml, el);
    assert(s == signed(nh, mh) * pd + signed(nl, ml) * pow2(0));
    if nh == nl {
        let q = 8 * mh;
        assert(q >= pow2(p));
        assert(s != 0 && (s < 0 <==> nh) && (if s < 0 {
            -s
        } else {
            s
        }) == q * pj + ml) by (nonlinear_arith)
            requires
                s == signed(nh, mh) * pd + signed(nl, ml) * 1,
                signed(nh, mh) == if nh {
                    -(mh as int)
                } else {
                    mh as int
                },
                signed(nl, ml) == if nh {
                    -(ml as int)
                } else {
                    ml as int
                },
                pd == 8 * pj,
                q == 8 * mh,
                mh > 0,
                ml > 0,
                pj > 0,
        ;
        lemma_round_sticky(f, nh, q, j, ml, el);
    } else {
        let q = (8 * mh - 1) as nat;
        let r = (pj - ml) as nat;
        assert(q >= pow2(p));
        assert(s != 0 && (s < 0 <==> nh) && (if s < 0 {
            -s
        } else {
            s
        }) == q * pj + r) by (nonlinear_arith)
            requires
                s == signed(nh, mh) * pd + signed(nl, ml) * 1,
                signed(nh, mh) == if nh {
                    -(mh as int)
                } else {
                    mh as int
                },
                signed(nl, ml) == if nh {
                    ml as int
                } else {
                    -(ml as int)
                },
                pd == 8 * pj,
                q == 8 * mh - 1,
                r == pj - ml,
                mh > 0,
                0 < ml < pj,
        ;
        lemma_round_sticky(f, nh, q, j, r, el);
    }
}

impl Unpacked {
    /// The same number with the opposite sign.
    pub fn neg(self) -> (r: Unpacked)
        ensures
            r@ == negation(self@),
    {
        match self {
            Unpacked::Nan => Unpacked::Nan,
            Unpacked::Inf { neg } => Unpacked::Inf { neg: !neg },
            Unpacked::Fin { neg, mant, exp } => Unpacked::Fin { neg: !neg, mant, exp },
        }
    }
}

impl Format {
    /// The sum of two finite numbers, the first of which has the greater
    /// exponent.
    fn add_ordered(&self, nh: bool, mh: u64, eh: i32, nl: bool, ml: u64, el: i32) -> (r: Unpacked)
        requires
            self.wf(),
            (Value::Fin { neg: nh, mant: mh as nat, exp: eh as int }).canonical(*self),
            (Value::Fin { neg: nl, mant: ml as nat, exp: el as int }).canonical(*self),
            el <= eh,
        ensures
            r@ == finite_sum(*self, nh, mh as nat, eh as int, nl, ml as nat, el as int),
            r@.canonical(*self),
    {
        let d: i32 = eh - el;
        proof {
            lemma_pow2_values();
            lemma_pow2_monotone(self.prec as nat, 53);
        }
        if d <= 64 {
            proof {
                lemma_pow2_monotone(d as nat, 64);
                lemma_pow2_adds(53, 64);
                lemma_pow2_scale_lt(mh as nat, 53, d as nat);
                lemma_pow2_monotone(53 + d as nat, 117);
                lemma_pow2_monotone(53, 117);
                lemma_pow2_monotone(118, 120);
                vstd::arithmetic::power2::lemma_pow2_unfold(118);
            }
            let big: u128 = (mh as u128) * power_of_two(d as u32);
            let small: u128 = ml as u128;
            proof {
                let s = exact_sum(nh, mh as nat, eh as int, nl, ml as nat, el as int);
                assert(s == signed(nh, mh as nat) * pow2(d as nat) + signed(nl, ml as nat) * pow2(0));
                assert(signed(nl, ml as nat) * pow2(0) == signed(nl, ml as nat)) by (nonlinear_arith)
                    requires
                        pow2(0) == 1,
                ;
                let c = pow2(d as nat);
                assert((-(mh as int)) * c == -(mh * c)) by (nonlinear_arith);
            }
            if nh == nl {
                round_to(*self, nh, big + small, el)
            } else if big > small {
                round_to(*self, nh, big - small, el)
            } else if big < small {
                round_to(*self, nl, small - big, el)
            } else {
                proof {
                    lemma_pow2_pos((self.prec - 1) as nat);
                }
                Unpacked::Fin { neg: false, mant: 0, exp: self.least_exponent() }
            }
        } else if ml == 0 {
            proof {
                lemma_pow2_pos((self.prec - 1) as nat);
                lemma_sum_with_zero(*self, nh, mh as nat, eh as int, nl, el as int);
            }
            Unpacked::Fin { neg: nh, mant: mh, exp: eh }
        } else {
            proof {
                lemma_sum_far(*self, nh, mh as nat, eh as int, nl, ml as nat, el as int);
                lemma_pow2_monotone(64, 120);
            }
            let base: u128 = (mh as u128) * 16;
            let m: u128 = if nh == nl {
                base + 1
            } else {
                base - 1
            };
            round_to(*self, nh, m, eh - 4)
        }
    }

    /// `a + b`, rounded once.
    pub fn add(&self, a: Unpacked, b: Unpacked) -> (r: Unpacked)
        requires
            self.wf(),
            a@.canonical(*self),
            b@.canonical(*self),
        ensures
            r@ == sum(*self, a@, b@),
            r@.canonical(*self),
    {
        reveal(sum);
        match (a, b) {
            (Unpacked::Nan, _) => Unpacked::Nan,
            (_, Unpacked::Nan) => Unpacked::Nan,
            (Unpacked::Inf { neg: na }, Unpacked::Inf { neg: nb }) => if na == nb {
                Unpacked::Inf { neg: na }
            } else {
                Unpacked::Nan
            },
            (Unpacked::Inf { neg }, Unpacked::Fin { .. }) => Unpacked::Inf { neg },
            (Unpacked::Fin { .. }, Unpacked::Inf { neg }) => Unpacked::Inf { neg },
            (
                Unpacked::Fin { neg: na, mant: ma, exp: ea },
                Unpacked::Fin { neg: nb, mant: mb, exp: eb },
            ) => {
                if ea >= eb {
                    self.add_ordered(na, ma, ea, nb, mb, eb)
                } else {
                    proof {
                        lemma_finite_sum_commutes(
                            *self,
                            na,
                            ma as nat,
                            ea as int,
                            nb,
                            mb as nat,
                            eb as int,
                        );
                    }
                    self.add_ordered(nb, mb, eb, na, ma, ea)
                }
            },
        }
    }

    /// `a - b`, rounded once.
    pub fn sub(&self, a: Unpacked, b: Unpacked) -> (r: Unpacked)
        requires
            self.wf(),
            a@.canonical(*self),
            b@.canonical(*self),
        ensures
            r@ == difference(*self, a@, b@),
            r@.canonical(*self),
    {
        self.add(a, b.neg())
    }
}

} // verus!
