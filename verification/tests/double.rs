use ilya::ieee::format::{Format, Unpacked};

fn unpack(x: f64) -> Unpacked {
    let bits = x.to_bits();
    let neg = bits >> 63 == 1;
    let biased = ((bits >> 52) & 0x7ff) as i32;
    let fraction = bits & ((1u64 << 52) - 1);
    if biased == 0x7ff {
        if fraction == 0 {
            Unpacked::Inf { neg }
        } else {
            Unpacked::Nan
        }
    } else if biased == 0 {
        Unpacked::Fin { neg, mant: fraction, exp: -1074 }
    } else {
        Unpacked::Fin { neg, mant: (1u64 << 52) | fraction, exp: biased - 1075 }
    }
}

fn same(got: Unpacked, want: f64) -> bool {
    match (got, unpack(want)) {
        (Unpacked::Nan, Unpacked::Nan) => true,
        (Unpacked::Inf { neg: a }, Unpacked::Inf { neg: b }) => a == b,
        (
            Unpacked::Fin { neg: a, mant: ma, exp: ea },
            Unpacked::Fin { neg: b, mant: mb, exp: eb },
        ) => a == b && ma == mb && ea == eb,
        _ => false,
    }
}

struct Lcg(u64);

impl Lcg {
    fn next(&mut self) -> u64 {
        self.0 = self.0.wrapping_mul(6364136223846793005).wrapping_add(1442695040888963407);
        let hi = self.0 >> 32;
        self.0 = self.0.wrapping_mul(6364136223846793005).wrapping_add(1442695040888963407);
        hi << 32 | self.0 >> 32
    }

    fn value(&mut self) -> f64 {
        let sign_and_fraction = 0x800f_ffff_ffff_ffffu64;
        match self.next() % 8 {
            0 => f64::from_bits(self.next()),
            1 => f64::from_bits(self.next() & sign_and_fraction),
            2 => f64::from_bits((self.next() & sign_and_fraction) | 0x3ff0_0000_0000_0000),
            3 => f64::from_bits((self.next() & 0x807f_ffff_ffff_ffff) | 0x3c00_0000_0000_0000),
            4 => (self.next() % 2048) as f64 - 1024.0,
            5 => [0.0, -0.0, 1.0, -1.0, f64::INFINITY, f64::NEG_INFINITY, f64::NAN, f64::MAX,
                f64::MIN_POSITIVE, f64::EPSILON, 0.25, 2.0, 255.999, 1.0e-4, 5.0e-324, 1.0e308]
                [(self.next() % 16) as usize],
            6 => f64::from_bits((self.next() & 0x801f_ffff_ffff_ffff) | 0x7fc0_0000_0000_0000),
            _ => f64::from_bits(self.next() & 0x803f_ffff_ffff_ffff),
        }
    }
}

#[test]
fn double_arithmetic_matches_hardware() {
    let f = Format::double();
    let mut g = Lcg(11);
    for _ in 0..100_000 {
        let (a, b) = (g.value(), g.value());
        let (x, y) = (unpack(a), unpack(b));
        assert!(same(f.add(x, y), a + b), "{:e} + {:e}", a, b);
        assert!(same(f.sub(x, y), a - b), "{:e} - {:e}", a, b);
        assert!(same(f.mul(x, y), a * b), "{:e} * {:e}", a, b);
        assert!(same(f.div(x, y), a / b), "{:e} / {:e}", a, b);
        assert!(same(f.sqrt(x), a.sqrt()), "sqrt {:e}", a);
        assert_eq!(f.lt(x, y), a < b, "{:e} < {:e}", a, b);
        assert_eq!(x.to_u8(), a as u8, "{:e} as u8", a);
    }
}

#[test]
fn double_from_integer_matches_hardware() {
    let f = Format::double();
    let mut g = Lcg(12);
    for _ in 0..100_000 {
        let n = g.next() >> (g.next() % 64);
        assert!(same(f.from_u64(n), n as f64), "{} as f64", n);
    }
    for n in [0u64, 1, (1 << 53) - 1, 1 << 53, (1 << 53) + 1, (1 << 53) + 2, (1 << 53) + 3,
        u64::MAX, u64::MAX - 1023, u64::MAX - 1024]
    {
        assert!(same(f.from_u64(n), n as f64), "{} as f64", n);
    }
}
