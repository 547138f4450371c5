//! Colours: red, green, blue and alpha, each nominally between 0 and 1.

use crate::ieee::bounds::dyadic_le;
use crate::ieee::bounds::lemma_round_magnitude;
use crate::ieee::bounds::lemma_round_not_below;
use crate::ieee::convert::to_byte;
use crate::ieee::format::Format;
use crate::ieee::format::Value;
use crate::ieee::mul::product;
use crate::ieee::order::lemma_magnitude_finite;
use crate::ieee::order::lemma_magnitude_order;
use crate::ieee::order::lemma_magnitude_zero;
use crate::ieee::power::lemma_div_mod_unique;
use crate::ieee::power::lemma_pow2_values;
use crate::ieee::power::lemma_scale_order;
use crate::ieee::rounding::lemma_round_canonical;
use crate::ieee::rounding::round;
use crate::scalar::ONE;
use crate::scalar::Scalar;
use crate::scalar::ZERO;
use crate::scalar::clamped;
use crate::scalar::decode;
use crate::scalar::lemma_decode_canonical;
use crate::scalar::less;
use crate::scalar::plus;
use crate::scalar::times;
use crate::vec3::Triple;
use crate::vec3::Vec3;
use vstd::arithmetic::power2::lemma_pow2_adds;
use vstd::arithmetic::power2::lemma_pow2_pos;
use vstd::arithmetic::power2::pow2;
use vstd::prelude::*;

verus! {

/// The encoding of 255.99: a channel is multiplied by it and then cut to a
/// byte.
pub const BYTE_SCALE: u32 = 0x437f_fd71;

/// What a colour stands for.
pub struct Rgba {
    pub r: Value,
    pub g: Value,
    pub b: Value,
    pub a: Value,
}

/// The opaque colour with the given channels.
pub open spec fn opaque(r: Value, g: Value, b: Value) -> Rgba {
    Rgba { r, g, b, a: decode(ONE) }
}

/// A channel as a byte: the channel times 255.99, held between 0 and
/// 255.99, cut to its integer part.
pub open spec fn channel_byte(c: Value) -> u8 {
    to_byte(clamped(times(c, decode(BYTE_SCALE)), decode(ZERO), decode(BYTE_SCALE)))
}

impl Rgba {
    /// The sum channel by channel; the result is opaque.
    pub open spec fn plus(self, rhs: Rgba) -> Rgba {
        opaque(plus(self.r, rhs.r), plus(self.g, rhs.g), plus(self.b, rhs.b))
    }

    /// Each channel times `k`; the result is opaque.
    pub open spec fn times(self, k: Value) -> Rgba {
        opaque(times(self.r, k), times(self.g, k), times(self.b, k))
    }

    /// `k` times each channel; the result is opaque.
    pub open spec fn scaled(self, k: Value) -> Rgba {
        opaque(times(k, self.r), times(k, self.g), times(k, self.b))
    }

    /// The four bytes of the colour.
    pub open spec fn bytes(self) -> Seq<u8> {
        seq![
            channel_byte(self.r),
            channel_byte(self.g),
            channel_byte(self.b),
            channel_byte(self.a),
        ]
    }

    /// The opaque colour whose channels are the components of `v`.
    pub open spec fn of(v: Triple) -> Rgba {
        opaque(v.x, v.y, v.z)
    }

    /// Opaque white.
    pub open spec fn white() -> Rgba {
        opaque(decode(ONE), decode(ONE), decode(ONE))
    }
}

/// What 255.99 stands for.
pub open spec fn byte_scale() -> Value {
    Value::Fin { neg: false, mant: 0xff_fd71, exp: -16 }
}

/// What the constants of the conversion stand for.
proof fn lemma_byte_scale()
    ensures
        decode(BYTE_SCALE) == byte_scale(),
        decode(ZERO) == Value::zero(Format::binary32(), false),
        decode(ONE) == (Value::Fin { neg: false, mant: 0x80_0000, exp: -23 }),
        byte_scale().canonical(Format::binary32()),
        to_byte(byte_scale()) == 255,
        to_byte(decode(ZERO)) == 0,
        byte_scale().rank(Format::binary32()) > 0,
        decode(ZERO).rank(Format::binary32()) == 0,
{
    reveal(to_byte);
    reveal(Value::rank);
    lemma_pow2_values();
    lemma_pow2_pos(133);
    lemma_pow2_pos(149);
    lemma_decode_canonical(BYTE_SCALE);
    assert(0xff_fd71nat / 0x1_0000nat == 255);
    lemma_div_mod_unique(0, pow2(149), 0, 0);
}

/// The exact product of a number that is at least 1 with another number
/// is at least that other number.
proof fn lemma_scaled_up(mc: nat, ec: int, ms: nat, es: int)
    requires
        -149 <= ec,
        mc * pow2((ec + 149) as nat) >= 0x80_0000 * pow2(126),
    ensures
        dyadic_le(ms, es, mc * ms, ec + es),
{
    lemma_pow2_values();
    if ec >= 0 {
        let c = pow2(ec as nat);
        lemma_pow2_pos(ec as nat);
        lemma_pow2_pos(126);
        lemma_pow2_pos((ec + 149) as nat);
        assert(mc >= 1) by (nonlinear_arith)
            requires
                mc * pow2((ec + 149) as nat) >= 0x80_0000 * pow2(126),
                pow2(126) > 0,
        ;
        assert(ms * 1 <= (mc * ms) * c) by (nonlinear_arith)
            requires
                mc >= 1,
                c >= 1,
        ;
    } else {
        let d = (-ec) as nat;
        let c = pow2(d);
        let u = pow2((ec + 149) as nat);
        lemma_pow2_pos((ec + 149) as nat);
        lemma_pow2_adds(23, 126);
        lemma_pow2_adds(d, (ec + 149) as nat);
        lemma_scale_order(c as int, mc as int, u as int);
        assert(ms * c <= (mc * ms) * 1) by (nonlinear_arith)
            requires
                c <= mc,
        ;
    }
}

/// A finite number that is at least 1, times 255.99, is at least 255.99.
proof fn lemma_full_product(mc: nat, ec: int)
    requires
        (Value::Fin { neg: false, mant: mc, exp: ec }).canonical(Format::binary32()),
        !less(Value::Fin { neg: false, mant: mc, exp: ec }, decode(ONE)),
    ensures
        !less(round(Format::binary32(), false, mc * 0xff_fd71, ec + -16), byte_scale()),
        round(Format::binary32(), false, mc * 0xff_fd71, ec + -16) !is Nan,
{
    let f = Format::binary32();
    lemma_byte_scale();
    assert(mc * pow2((ec + 149) as nat) >= 0x80_0000 * pow2(126)) by {
        reveal(Value::rank);
    }
    lemma_scaled_up(mc, ec, 0xff_fd71, -16);
    lemma_round_not_below(f, mc * 0xff_fd71, ec + -16, 0xff_fd71, -16);
}

/// A number at least 1 is positive.
proof fn lemma_at_least_one(c: Value)
    requires
        c !is Nan,
        !less(c, decode(ONE)),
    ensures
        match c {
            Value::Fin { neg, .. } => !neg,
            Value::Inf { neg } => !neg,
            Value::Nan => false,
        },
{
    reveal(Value::rank);
    let f = Format::binary32();
    lemma_byte_scale();
    lemma_pow2_pos(126);
    lemma_pow2_pos((f.prec + f.qmax() - f.qmin()) as nat);
    match c {
        Value::Fin { neg, mant, exp } => {
            let u = pow2((exp - f.qmin()) as nat);
            assert(mant * u >= 0) by (nonlinear_arith);
        },
        _ => {},
    }
}

/// A number of the format that is neither below nor above 255.99 is
/// 255.99.
proof fn lemma_is_byte_scale(x: Value)
    requires
        x.canonical(Format::binary32()),
        x !is Nan,
        !less(x, byte_scale()),
        !less(byte_scale(), x),
    ensures
        x == byte_scale(),
{
    reveal(Value::rank);
    let f = Format::binary32();
    lemma_byte_scale();
    lemma_magnitude_finite(f, 0xff_fd71, -16);
    match x {
        Value::Fin { neg, mant, exp } => {
            lemma_magnitude_order(f, mant, exp, 0xff_fd71, -16);
            let u = pow2((exp - f.qmin()) as nat);
            assert(mant * u >= 0) by (nonlinear_arith);
        },
        _ => {},
    }
}

/// A channel of 1 or more gives the byte 255: nothing wraps round.
pub proof fn lemma_full_channel(bits: u32)
    requires
        decode(bits) !is Nan,
        !less(decode(bits), decode(ONE)),
    ensures
        channel_byte(decode(bits)) == 255,
{
    let f = Format::binary32();
    let c = decode(bits);
    let s = byte_scale();
    lemma_byte_scale();
    lemma_decode_canonical(bits);
    lemma_at_least_one(c);
    let x = times(c, decode(BYTE_SCALE));
    lemma_round_result_canonical(x, c);
    assert(x !is Nan && !less(x, s)) by {
        reveal(product);
        match c {
            Value::Fin { neg, mant, exp } => {
                lemma_full_product(mant, exp);
            },
            _ => {
                reveal(Value::rank);
                lemma_magnitude_finite(f, 0xff_fd71, -16);
            },
        }
    }
    if !less(s, x) {
        lemma_is_byte_scale(x);
    }
}

/// A channel times 255.99 is a number of the format.
proof fn lemma_round_result_canonical(x: Value, c: Value)
    requires
        x == times(c, decode(BYTE_SCALE)),
        c.canonical(Format::binary32()),
    ensures
        x.canonical(Format::binary32()),
{
    reveal(product);
    lemma_byte_scale();
    match c {
        Value::Fin { neg, mant, exp } => {
            lemma_round_canonical(Format::binary32(), neg != false, mant * 0xff_fd71, exp + -16);
        },
        _ => {},
    }
}

/// A channel that is zero, negative or not a number gives the byte 0.
pub proof fn lemma_empty_channel(bits: u32)
    requires
        !less(decode(ZERO), decode(bits)),
    ensures
        channel_byte(decode(bits)) == 0,
{
    let f = Format::binary32();
    let c = decode(bits);
    let s = byte_scale();
    lemma_byte_scale();
    lemma_decode_canonical(bits);
    reveal(product);
    reveal(to_byte);
    reveal(Value::rank);
    let x = times(c, decode(BYTE_SCALE));
    match c {
        Value::Fin { neg, mant, exp } => {
            lemma_magnitude_zero(f, mant, exp);
            if mant > 0 {
                assert(mant * 0xff_fd71 > 0) by (nonlinear_arith)
                    requires
                        mant > 0,
                ;
                lemma_round_magnitude(f, neg, mant * 0xff_fd71, exp + -16);
                assert(neg);
            } else {
                assert(0 * 0xff_fd71 == 0);
            }
            assert(x.rank(f) <= 0);
            assert(x is Fin ==> (x->Fin_neg || x == decode(ZERO)));
        },
        Value::Inf { neg } => {
            lemma_pow2_pos((f.prec + f.qmax() - f.qmin()) as nat);
        },
        Value::Nan => {},
    }
}

/// A colour. Arithmetic may take the channels out of `[0, 1]`; they are
/// held to the range of a byte only when the colour is turned into bytes.
#[derive(Clone, Copy, Debug)]
pub struct Color {
    pub r: Scalar,
    pub g: Scalar,
    pub b: Scalar,
    pub a: Scalar,
}

impl View for Color {
    type V = Rgba;

    open spec fn view(&self) -> Rgba {
        Rgba { r: self.r@, g: self.g@, b: self.b@, a: self.a@ }
    }
}

impl Color {
    /// Opaque white.
    pub fn white() -> (c: Color)
        ensures
            c@ == Rgba::white(),
    {
        Color::rgb(Scalar::from_bits(ONE), Scalar::from_bits(ONE), Scalar::from_bits(ONE))
    }

    /// Opaque red.
    pub fn red() -> (c: Color)
        ensures
            c@ == opaque(decode(ONE), decode(ZERO), decode(ZERO)),
    {
        Color::rgb(Scalar::from_bits(ONE), Scalar::from_bits(ZERO), Scalar::from_bits(ZERO))
    }

    /// Opaque green.
    pub fn green() -> (c: Color)
        ensures
            c@ == opaque(decode(ZERO), decode(ONE), decode(ZERO)),
    {
        Color::rgb(Scalar::from_bits(ZERO), Scalar::from_bits(ONE), Scalar::from_bits(ZERO))
    }

    /// Opaque blue.
    pub fn blue() -> (c: Color)
        ensures
            c@ == opaque(decode(ZERO), decode(ZERO), decode(ONE)),
    {
        Color::rgb(Scalar::from_bits(ZERO), Scalar::from_bits(ZERO), Scalar::from_bits(ONE))
    }

    /// Opaque black.
    pub fn black() -> (c: Color)
        ensures
            c@ == opaque(decode(ZERO), decode(ZERO), decode(ZERO)),
    {
        Color::rgb(Scalar::from_bits(ZERO), Scalar::from_bits(ZERO), Scalar::from_bits(ZERO))
    }

    /// An opaque colour.
    pub fn rgb(r: Scalar, g: Scalar, b: Scalar) -> (c: Color)
        ensures
            c == (Color { r, g, b, a: Scalar { bits: ONE } }),
            c@ == opaque(r@, g@, b@),
    {
        Color { r, g, b, a: Scalar::from_bits(ONE) }
    }

    /// A colour with the given alpha.
    pub fn rgba(r: Scalar, g: Scalar, b: Scalar, a: Scalar) -> (c: Color)
        ensures
            c == (Color { r, g, b, a }),
    {
        Color { r, g, b, a }
    }

    /// The opaque colour whose channels are the components of `v`.
    pub fn from_vec3(v: Vec3) -> (c: Color)
        ensures
            c@ == Rgba::of(v@),
    {
        Color::rgb(v.x, v.y, v.z)
    }

    /// The colour as four bytes. Channels are not held to `[0, 1]` before
    /// this: a channel below 0 gives 0, one above 1 gives 255.
    pub fn to_255(&self) -> (bytes: [u8; 4])
        ensures
            bytes@ == self@.bytes(),
    {
        let scale = Scalar::from_bits(BYTE_SCALE);
        let zero = Scalar::from_bits(ZERO);
        proof {
            lemma_byte_scale();
        }
        let r = self.r.mul(scale).clamp(zero, scale).to_u8();
        let g = self.g.mul(scale).clamp(zero, scale).to_u8();
        let b = self.b.mul(scale).clamp(zero, scale).to_u8();
        let a = self.a.mul(scale).clamp(zero, scale).to_u8();
        let bytes = [r, g, b, a];
        assert(bytes@ =~= self@.bytes());
        bytes
    }

    /// `self * k`; the result is opaque.
    pub fn mul(self, k: Scalar) -> (c: Color)
        ensures
            c@ == self@.times(k@),
    {
        Color::rgb(self.r.mul(k), self.g.mul(k), self.b.mul(k))
    }

    /// `k * self`; the result is opaque.
    pub fn scale(self, k: Scalar) -> (c: Color)
        ensures
            c@ == self@.scaled(k@),
    {
        Color::rgb(k.mul(self.r), k.mul(self.g), k.mul(self.b))
    }

    /// The sum channel by channel; the result is opaque.
    pub fn add(self, rhs: Color) -> (c: Color)
        ensures
            c@ == self@.plus(rhs@),
    {
        Color::rgb(self.r.add(rhs.r), self.g.add(rhs.g), self.b.add(rhs.b))
    }
}

} // verus!
