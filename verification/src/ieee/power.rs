//! Facts about powers of two, binary length, and division by powers of two.

use vstd::arithmetic::div_mod::lemma_fundamental_div_mod;
use vstd::arithmetic::div_mod::lemma_fundamental_div_mod_converse;
use vstd::arithmetic::power2::lemma2_to64;
use vstd::arithmetic::power2::lemma2_to64_rest;
use vstd::arithmetic::power2::lemma_pow2_adds;
use vstd::arithmetic::power2::lemma_pow2_pos;
use vstd::arithmetic::power2::lemma_pow2_strictly_increases;
use vstd::arithmetic::power2::lemma_pow2_subtracts;
use vstd::arithmetic::power2::lemma_pow2_unfold;
use vstd::arithmetic::power2::pow2;
use vstd::bits::lemma_u128_shr_is_div;
use vstd::prelude::*;

verus! {

/// The number of binary digits of `n`: 0 for 0, and otherwise the `l` with
/// `2^(l-1) <= n < 2^l`.
pub open spec fn bit_length(n: nat) -> nat
    decreases n,
{
    if n == 0 {
        0
    } else {
        1 + bit_length(n / 2)
    }
}

/// Powers of two are positive and grow with the exponent.
pub proof fn lemma_pow2_monotone(a: nat, b: nat)
    requires
        a <= b,
    ensures
        0 < pow2(a) <= pow2(b),
{
    lemma_pow2_pos(a);
    if a < b {
        lemma_pow2_strictly_increases(a, b);
    }
}

/// `x < y` scales to `x * c < y * c`, and `x <= y` to `x * c <= y * c`, for positive `c`.
pub proof fn lemma_scale_order(x: int, y: int, c: int)
    by (nonlinear_arith)
    requires
        c > 0,
    ensures
        x < y <==> x * c < y * c,
        x <= y <==> x * c <= y * c,
        x == y <==> x * c == y * c,
{
}

/// `m < 2^a` gives `m * 2^b < 2^(a+b)`.
pub proof fn lemma_pow2_scale_lt(m: nat, a: nat, b: nat)
    requires
        m < pow2(a),
    ensures
        m * pow2(b) < pow2(a + b),
{
    lemma_pow2_pos(b);
    lemma_pow2_adds(a, b);
    lemma_scale_order(m as int, pow2(a) as int, pow2(b) as int);
}

/// `2^a <= m` gives `2^(a+b) <= m * 2^b`.
pub proof fn lemma_pow2_scale_ge(m: nat, a: nat, b: nat)
    requires
        pow2(a) <= m,
    ensures
        pow2(a + b) <= m * pow2(b),
{
    lemma_pow2_pos(b);
    lemma_pow2_adds(a, b);
    lemma_scale_order(pow2(a) as int, m as int, pow2(b) as int);
}

/// A positive number lies between the powers of two that its length names.
pub proof fn lemma_bit_length_bounds(n: nat)
    requires
        n > 0,
    ensures
        bit_length(n) > 0,
        pow2((bit_length(n) - 1) as nat) <= n < pow2(bit_length(n)),
    decreases n,
{
    lemma2_to64();
    if n == 1 {
        assert(bit_length(0) == 0);
        assert(bit_length(1) == 1);
    } else {
        lemma_bit_length_bounds(n / 2);
        let l = bit_length(n / 2);
        assert(bit_length(n) == l + 1);
        lemma_pow2_unfold(l);
        lemma_pow2_unfold(l + 1);
    }
}

/// The length is the only `l` with `2^(l-1) <= n < 2^l`.
pub proof fn lemma_bit_length_unique(n: nat, l: nat)
    requires
        l > 0,
        pow2((l - 1) as nat) <= n < pow2(l),
    ensures
        bit_length(n) == l,
{
    lemma_pow2_pos((l - 1) as nat);
    lemma_bit_length_bounds(n);
    let b = bit_length(n);
    if b < l {
        lemma_pow2_monotone(b, (l - 1) as nat);
    } else if b > l {
        lemma_pow2_monotone(l, (b - 1) as nat);
    }
}

/// A number below `2^l` has at most `l` digits.
pub proof fn lemma_bit_length_below(n: nat, l: nat)
    requires
        n < pow2(l),
    ensures
        bit_length(n) <= l,
{
    if n > 0 {
        lemma_bit_length_bounds(n);
        if bit_length(n) > l {
            lemma_pow2_monotone(l, (bit_length(n) - 1) as nat);
        }
    }
}

/// Multiplying by `2^d` adds `d` digits.
pub proof fn lemma_bit_length_scaled(n: nat, d: nat)
    requires
        n > 0,
    ensures
        bit_length(n * pow2(d)) == bit_length(n) + d,
{
    lemma_bit_length_bounds(n);
    let l = bit_length(n);
    lemma_pow2_scale_lt(n, l, d);
    lemma_pow2_scale_ge(n, (l - 1) as nat, d);
    lemma_bit_length_unique(n * pow2(d), l + d);
}

/// Quotient and remainder are fixed by `x == q * d + r` with `0 <= r < d`.
pub proof fn lemma_div_mod_unique(x: nat, d: nat, q: nat, r: nat)
    requires
        r < d,
        x == q * d + r,
    ensures
        x / d == q,
        x % d == r,
{
    lemma_fundamental_div_mod_converse(x as int, d as int, q as int, r as int);
}

/// A number is its quotient times the divisor, plus its remainder.
pub proof fn lemma_div_mod_split(x: nat, d: nat)
    requires
        d > 0,
    ensures
        x == (x / d) * d + x % d,
        x % d < d,
{
    lemma_fundamental_div_mod(x as int, d as int);
    assert(d * (x / d) == (x / d) * d) by (nonlinear_arith);
}

/// Dividing by `2^k` a number below `2^a` leaves a number below `2^(a-k)`.
pub proof fn lemma_div_pow2_lt(m: nat, a: nat, k: nat)
    requires
        k <= a,
        m < pow2(a),
    ensures
        m / pow2(k) < pow2((a - k) as nat),
{
    lemma_pow2_pos(k);
    lemma_div_mod_split(m, pow2(k));
    let q = m / pow2(k);
    if q >= pow2((a - k) as nat) {
        lemma_pow2_scale_ge(q, (a - k) as nat, k);
    }
}

/// Dividing by `2^k` a number of at least `2^a` leaves at least `2^(a-k)`.
pub proof fn lemma_div_pow2_ge(m: nat, a: nat, k: nat)
    requires
        k <= a,
        pow2(a) <= m,
    ensures
        pow2((a - k) as nat) <= m / pow2(k),
{
    lemma_pow2_pos(k);
    lemma_div_mod_split(m, pow2(k));
    let q = m / pow2(k);
    if q < pow2((a - k) as nat) {
        // q + 1 <= 2^(a-k), so m < (q + 1) * 2^k <= 2^a
        lemma_pow2_adds((a - k) as nat, k);
        lemma_scale_order((q + 1) as int, pow2((a - k) as nat) as int, pow2(k) as int);
        assert((q + 1) * pow2(k) == q * pow2(k) + pow2(k)) by (nonlinear_arith);
    }
}

/// Scaling a number by `2^d` scales its quotient and remainder by `2^(k+d)`.
pub proof fn lemma_div_mod_scaled(m: nat, k: nat, d: nat)
    ensures
        (m * pow2(d)) / pow2(k + d) == m / pow2(k),
        (m * pow2(d)) % pow2(k + d) == (m % pow2(k)) * pow2(d),
{
    lemma_pow2_pos(k);
    lemma_pow2_pos(d);
    lemma_pow2_adds(k, d);
    lemma_div_mod_split(m, pow2(k));
    let q = m / pow2(k);
    let r = m % pow2(k);
    let pk = pow2(k);
    let pd = pow2(d);
    assert(m * pd == q * (pk * pd) + r * pd) by (nonlinear_arith)
        requires
            m == q * pk + r,
    ;
    lemma_scale_order(r as int, pk as int, pd as int);
    lemma_div_mod_unique(m * pd, pow2(k + d), q, r * pd);
}

/// The powers of two that the formats and the machine widths name.
pub proof fn lemma_pow2_values()
    ensures
        pow2(0) == 1,
        pow2(1) == 2,
        pow2(2) == 4,
        pow2(3) == 8,
        pow2(4) == 16,
        pow2(5) == 32,
        pow2(6) == 64,
        pow2(7) == 128,
        pow2(8) == 256,
        pow2(11) == 2048,
        pow2(16) == 0x1_0000,
        pow2(23) == 0x80_0000,
        pow2(24) == 0x100_0000,
        pow2(31) == 0x8000_0000,
        pow2(32) == 0x1_0000_0000,
        pow2(52) == 0x10_0000_0000_0000,
        pow2(53) == 0x20_0000_0000_0000,
        pow2(55) == 0x80_0000_0000_0000,
        pow2(63) == 0x8000_0000_0000_0000,
        pow2(64) == 0x1_0000_0000_0000_0000,
        pow2(127) == 0x8000_0000_0000_0000_0000_0000_0000_0000,
{
    lemma2_to64();
    lemma2_to64_rest();
    lemma_pow2_adds(64, 63);
}

/// `2^k` as a machine integer.
pub fn power_of_two(k: u32) -> (r: u128)
    requires
        k <= 127,
    ensures
        r == pow2(k as nat),
{
    let top: u128 = 0x8000_0000_0000_0000_0000_0000_0000_0000u128;
    proof {
        lemma_pow2_values();
        lemma_u128_shr_is_div(top, (127 - k) as u128);
        lemma_pow2_subtracts((127 - k) as nat, 127);
    }
    top >> (127 - k)
}

/// The number of binary digits of `m`.
pub fn binary_length(m: u128) -> (l: u32)
    ensures
        l == bit_length(m as nat),
        l <= 128,
{
    proof {
        lemma_pow2_values();
        lemma_pow2_adds(64, 64);
        lemma_bit_length_below(m as nat, 128);
    }
    let mut l: u32 = 0;
    let mut x: u128 = m;
    while x > 0
        invariant
            bit_length(m as nat) == l + bit_length(x as nat),
            bit_length(m as nat) <= 128,
        decreases x,
    {
        x = x / 2;
        l = l + 1;
    }
    l
}

} // verus!
