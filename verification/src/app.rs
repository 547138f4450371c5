//! A test card: red grows to the right, green grows downwards.

use crate::frame::painted;
use crate::frame::painted_up_to;
use crate::frame::put_pixel;
use crate::ieee::convert::from_integer;
use crate::ieee::convert::to_byte;
use crate::ieee::div::quotient;
use crate::ieee::format::Format;
use crate::ieee::format::Unpacked;
use crate::ieee::format::Value;
use crate::ieee::mul::product;
use crate::ieee::power::lemma_pow2_values;
use crate::ieee::rounding::lemma_round_exact;
use crate::ieee::rounding::lemma_round_scaled;
use crate::ieee::rounding::round;
use vstd::arithmetic::power2::lemma2_to64_rest;
use vstd::arithmetic::power2::pow2;
use vstd::prelude::*;

verus! {

/// The size of the card, and the title of its window.
pub struct AppOptions {
    pub width: u32,
    pub height: u32,
    pub name: &'static str,
}

/// The test card.
pub struct App;

/// The double-precision number nearest to 255.999.
pub open spec fn full_scale() -> Value {
    Value::Fin { neg: false, mant: 0x1f_fff7_ced9_1687, exp: -45 }
}

/// One quarter, in double precision.
pub open spec fn quarter() -> Value {
    Value::Fin { neg: false, mant: 0x10_0000_0000_0000, exp: -54 }
}

/// A share of full scale as a byte: `255.999 * share`, cut to its integer
/// part, in double precision.
pub open spec fn level(share: Value) -> u8 {
    to_byte(product(Format::binary64(), full_scale(), share))
}

/// `n / d` in double precision.
pub open spec fn share(n: nat, d: nat) -> Value {
    quotient(
        Format::binary64(),
        from_integer(Format::binary64(), n),
        from_integer(Format::binary64(), d),
    )
}

/// The colour of pixel `i` of a card `width` pixels wide and `height` high.
pub open spec fn card_pixel(width: nat, height: nat, i: int) -> Seq<u8> {
    let x = (i % (width as int)) as nat;
    let y = (i / (width as int)) as nat;
    seq![
        level(share(x, (width - 1) as nat)),
        level(share(y, (height - 1) as nat)),
        level(quarter()),
        255u8,
    ]
}

/// A quarter of full scale is the byte 63.
pub proof fn lemma_quarter_level()
    ensures
        level(quarter()) == 63,
{
    let f = Format::binary64();
    let m: nat = 0x1f_fff7_ced9_1687;
    lemma_pow2_values();
    lemma2_to64_rest();
    assert(product(f, full_scale(), quarter()) == round(f, false, m * pow2(52), -99)) by {
        reveal(product);
    }
    lemma_round_scaled(f, false, m, 52, -99);
    lemma_round_exact(f, false, m, -47);
    assert(to_byte(Value::Fin { neg: false, mant: m, exp: -47 }) == 63) by {
        reveal(to_byte);
        assert(pow2(47) == 0x8000_0000_0000);
        assert(0x1f_fff7_ced9_1687nat / 0x8000_0000_0000nat == 63);
    }
}

/// The byte for a share of full scale.
fn level_of(share: Unpacked) -> (r: u8)
    requires
        share@.canonical(Format::binary64()),
    ensures
        r == level(share@),
{
    proof {
        lemma_pow2_values();
    }
    let scale = Unpacked::Fin { neg: false, mant: 0x1f_fff7_ced9_1687, exp: -45 };
    Format::double().mul(scale, share).to_u8()
}

/// `n / d` in double precision.
fn share_of(n: u64, d: u64) -> (r: Unpacked)
    ensures
        r@ == share(n as nat, d as nat),
        r@.canonical(Format::binary64()),
{
    let f = Format::double();
    f.div(f.from_u64(n), f.from_u64(d))
}

impl App {
    /// Paints the card into `frame`, pixel by pixel in row order.
    pub fn render(frame: &mut [u8], options: &AppOptions)
        requires
            options.width >= 1,
            options.height >= 1,
        ensures
            painted(
                old(frame)@,
                final(frame)@,
                |i: int| card_pixel(options.width as nat, options.height as nat, i),
            ),
    {
        let width = options.width;
        let height = options.height;
        let count: usize = frame.len() / 4;
        let ghost pixel = |i: int| card_pixel(width as nat, height as nat, i);
        proof {
            lemma_pow2_values();
        }
        let blue = level_of(Unpacked::Fin { neg: false, mant: 0x10_0000_0000_0000, exp: -54 });
        let mut i: usize = 0;
        while i < count
            invariant
                i <= count,
                count == old(frame)@.len() / 4,
                width >= 1,
                height >= 1,
                blue == level(quarter()),
                pixel == (|i: int| card_pixel(width as nat, height as nat, i)),
                painted_up_to(old(frame)@, frame@, pixel, i as int),
            decreases count - i,
        {
            let x: usize = i % (width as usize);
            let y: usize = i / (width as usize);
            let red = level_of(share_of(x as u64, (width - 1) as u64));
            let green = level_of(share_of(y as u64, (height - 1) as u64));
            let bytes: [u8; 4] = [red, green, blue, 255];
            assert(bytes@ =~= pixel(i as int));
            put_pixel(frame, i, bytes);
            i = i + 1;
        }
    }
}

} // verus!
