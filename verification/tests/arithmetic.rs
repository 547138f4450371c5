use ilya::scalar::{Scalar, FOUR, HALF, INFINITY, ONE, TWO, ZERO};

fn s(x: f32) -> Scalar {
    Scalar::from_bits(x.to_bits())
}

fn same(got: Scalar, want: f32) -> bool {
    if want.is_nan() {
        f32::from_bits(got.to_bits()).is_nan()
    } else {
        got.to_bits() == want.to_bits()
    }
}

struct Lcg(u64);

impl Lcg {
    fn next(&mut self) -> u32 {
        self.0 = self.0.wrapping_mul(6364136223846793005).wrapping_add(1442695040888963407);
        (self.0 >> 32) as u32
    }

    // A mix of arbitrary encodings and of numbers of moderate size, so that
    // sums with close exponents are exercised as well as far ones.
    fn value(&mut self) -> f32 {
        let r = self.next();
        match r % 8 {
            0 => f32::from_bits(self.next()),
            1 => f32::from_bits(self.next() & 0x807f_ffff),
            2 => f32::from_bits((self.next() & 0x807f_ffff) | 0x3f80_0000),
            3 => f32::from_bits((self.next() & 0x83ff_ffff) | 0x3c00_0000),
            4 => (self.next() % 2048) as f32 - 1024.0,
            5 => [0.0, -0.0, 1.0, -1.0, f32::INFINITY, f32::NEG_INFINITY, f32::NAN, f32::MAX,
                f32::MIN_POSITIVE, f32::EPSILON, 0.5, 2.0, 255.99, 1.0e-4, 1.0e-45, 3.0e38]
                [(self.next() % 16) as usize],
            6 => f32::from_bits((self.next() & 0x80ff_ffff) | 0x7e00_0000),
            _ => f32::from_bits(self.next() & 0x81ff_ffff),
        }
    }
}

#[test]
fn addition_matches_hardware() {
    let mut g = Lcg(1);
    for _ in 0..200_000 {
        let (a, b) = (g.value(), g.value());
        assert!(same(s(a).add(s(b)), a + b), "{:e} + {:e}", a, b);
    }
}

#[test]
fn subtraction_matches_hardware() {
    let mut g = Lcg(2);
    for _ in 0..200_000 {
        let (a, b) = (g.value(), g.value());
        assert!(same(s(a).sub(s(b)), a - b), "{:e} - {:e}", a, b);
    }
}

#[test]
fn multiplication_matches_hardware() {
    let mut g = Lcg(3);
    for _ in 0..200_000 {
        let (a, b) = (g.value(), g.value());
        assert!(same(s(a).mul(s(b)), a * b), "{:e} * {:e}", a, b);
    }
}

#[test]
fn division_matches_hardware() {
    let mut g = Lcg(4);
    for _ in 0..200_000 {
        let (a, b) = (g.value(), g.value());
        assert!(same(s(a).div(s(b)), a / b), "{:e} / {:e}", a, b);
    }
}

#[test]
fn square_root_matches_hardware() {
    let mut g = Lcg(5);
    for _ in 0..200_000 {
        let a = g.value();
        assert!(same(s(a).sqrt(), a.sqrt()), "sqrt {:e}", a);
    }
}

#[test]
fn comparison_matches_hardware() {
    let mut g = Lcg(6);
    for _ in 0..200_000 {
        let (a, b) = (g.value(), g.value());
        assert_eq!(s(a).lt(s(b)), a < b, "{:e} < {:e}", a, b);
        assert_eq!(s(a).gt(s(b)), a > b, "{:e} > {:e}", a, b);
    }
}

#[test]
fn conversions_match_hardware() {
    let mut g = Lcg(7);
    for _ in 0..200_000 {
        let a = g.value();
        assert_eq!(s(a).to_u8(), a as u8, "{:e} as u8", a);
        let n = ((g.next() as u64) << 32 | g.next() as u64) >> (g.next() % 64);
        assert!(same(Scalar::from_u64(n), n as f32), "{} as f32", n);
    }
}

#[test]
fn clamp_matches_hardware() {
    let mut g = Lcg(8);
    let mut tried = 0;
    while tried < 100_000 {
        let (x, a, b) = (g.value(), g.value(), g.value());
        if a.is_nan() || b.is_nan() {
            continue;
        }
        let (lo, hi) = if a <= b { (a, b) } else { (b, a) };
        assert!(same(s(x).clamp(s(lo), s(hi)), x.clamp(lo, hi)), "{:e} in {:e}..{:e}", x, lo, hi);
        tried += 1;
    }
}

#[test]
fn negation_matches_hardware() {
    let mut g = Lcg(9);
    for _ in 0..100_000 {
        let a = g.value();
        assert!(same(s(a).neg(), -a), "-{:e}", a);
    }
}

#[test]
fn named_encodings() {
    assert_eq!(ZERO, 0.0f32.to_bits());
    assert_eq!(ONE, 1.0f32.to_bits());
    assert_eq!(HALF, 0.5f32.to_bits());
    assert_eq!(TWO, 2.0f32.to_bits());
    assert_eq!(FOUR, 4.0f32.to_bits());
    assert_eq!(INFINITY, f32::INFINITY.to_bits());
    assert_eq!(ilya::color::BYTE_SCALE, 255.99f32.to_bits());
    assert_eq!(ilya::ray::NEAR, 0.0001f32.to_bits());
    assert_eq!(ilya::ray::SKY_GREEN, 0.7f32.to_bits());
    assert_eq!(ilya::engine::MINUS_ONE, (-1.0f32).to_bits());
}

#[test]
fn rounding_ties_go_to_even() {
    // 2^24 + 1 lies midway between two numbers; so does 2^24 + 3.
    assert_eq!(Scalar::from_u64(16_777_217).to_bits(), 16_777_216f32.to_bits());
    assert_eq!(Scalar::from_u64(16_777_219).to_bits(), 16_777_220f32.to_bits());
    assert_eq!(Scalar::from_u64(16_777_218).to_bits(), 16_777_218f32.to_bits());
    // The least subnormal halved is a tie between it and zero.
    let least = Scalar::from_bits(1);
    assert_eq!(least.mul(s(0.5)).to_bits(), 0);
    assert_eq!(Scalar::from_bits(3).mul(s(0.5)).to_bits(), 2);
    // The greatest number doubled is an infinity.
    assert_eq!(s(f32::MAX).add(s(f32::MAX)).to_bits(), f32::INFINITY.to_bits());
    // A sum that is exactly zero is +0 unless both terms are -0.
    assert_eq!(s(1.5).sub(s(1.5)).to_bits(), 0);
    assert_eq!(s(-0.0).add(s(-0.0)).to_bits(), (-0.0f32).to_bits());
    assert_eq!(s(-0.0).add(s(0.0)).to_bits(), 0);
}
