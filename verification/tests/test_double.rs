use kirialsd::double::Double;

fn d(x: f64) -> Double {
    Double::from_bits(x.to_bits())
}

fn f(x: Double) -> f64 {
    f64::from_bits(x.to_bits())
}

/// Patterns of every kind: random ones, ones of near exponents, and the edges of the format.
struct Source(u64);

impl Source {
    fn next(&mut self) -> u64 {
        self.0 ^= self.0 << 13;
        self.0 ^= self.0 >> 7;
        self.0 ^= self.0 << 17;
        self.0
    }

    fn value(&mut self) -> f64 {
        let edges = [
            0,
            1,
            2,
            0x000f_ffff_ffff_ffff,
            0x0010_0000_0000_0000,
            0x0010_0000_0000_0001,
            0x3ff0_0000_0000_0000,
            0x3fef_ffff_ffff_ffff,
            0x3ff0_0000_0000_0001,
            0x4330_0000_0000_0000,
            0x4340_0000_0000_0000,
            0x43e0_0000_0000_0000,
            0x43f0_0000_0000_0000,
            0x7fef_ffff_ffff_ffff,
            0x7ff0_0000_0000_0000,
            0x7ff8_0000_0000_0000,
        ];
        let r = self.next();
        let sign = r & (1 << 63);
        match r % 5 {
            0 => f64::from_bits(self.next()),
            1 => f64::from_bits(sign | edges[(self.next() % 16) as usize]),
            2 => f64::from_bits(sign | (0x3ff + self.next() % 6) << 52 | self.next() >> 12),
            3 => f64::from_bits(sign | self.next() >> (12 + self.next() % 52)),
            _ => ((self.next() % 4001) as f64 - 2000.0) / 8.0,
        }
    }
}

fn same(a: f64, b: f64) {
    if a.is_nan() {
        assert!(b.is_nan(), "{} {}", a, b);
    } else {
        assert_eq!(a.to_bits(), b.to_bits(), "{} {}", a, b);
    }
}

#[test]
fn sums_and_differences_agree_with_native_arithmetic() {
    let mut s = Source(0x1234_5678_9abc_def1);
    for _ in 0..40_000 {
        let (a, b) = (s.value(), s.value());
        same(f(d(a).plus(d(b))), a + b);
        same(f(d(a).minus(d(b))), a - b);
        // sums in which almost everything cancels
        let c = f64::from_bits((-a).to_bits() ^ (s.next() & 7));
        same(f(d(a).plus(d(c))), a + c);
    }
}

#[test]
fn products_agree_with_native_arithmetic() {
    let mut s = Source(0x0fed_cba9_8765_4321);
    for _ in 0..40_000 {
        let (a, b) = (s.value(), s.value());
        same(f(d(a).times(d(b))), a * b);
    }
}

#[test]
fn quotients_agree_with_native_arithmetic() {
    let mut s = Source(0x5555_aaaa_1111_7777);
    for _ in 0..20_000 {
        let (a, b) = (s.value(), s.value());
        same(f(d(a).over(d(b))), a / b);
    }
}

#[test]
fn square_roots_agree_with_native_arithmetic() {
    let mut s = Source(0x7777_1357_2468_abcd);
    for _ in 0..10_000 {
        let a = s.value();
        same(f(d(a).square_root()), a.sqrt());
        let b = a * a;
        same(f(d(b).square_root()), b.sqrt());
    }
}

#[test]
fn rounding_and_conversions_agree_with_native_arithmetic() {
    let mut s = Source(0x2468_ace0_1357_9bdf);
    for _ in 0..40_000 {
        let a = s.value();
        same(f(d(a).rounded()), a.round());
        assert_eq!(d(a).to_i64(), a as i64);
        assert_eq!(d(a).to_u64(), a as u64);
        assert_eq!(d(a).to_u32(), a as u32);
        let n = s.next() as i64 >> (s.next() % 64);
        same(f(Double::from_i64(n)), n as f64);
        same(f(Double::from_u64(n as u64)), n as u64 as f64);
        let m = (n as i128) * (s.next() as i128 >> 2);
        same(f(Double::from_i128(m)), m as f64);
    }
    for a in [0.5, 1.5, 2.5, -0.5, -2.5, 0.49999999999999994, 4503599627370495.5] {
        same(f(d(a).rounded()), a.round());
    }
}

#[test]
fn comparisons_agree_with_native_arithmetic() {
    let mut s = Source(0x1111_2222_3333_4445);
    for _ in 0..40_000 {
        let (a, b) = (s.value(), s.value());
        assert_eq!(d(a).less(d(b)), a < b);
        assert_eq!(d(a).at_most(d(b)), a <= b);
        assert_eq!(d(a).same(d(b)), a == b);
        assert_eq!(d(a).is_nan(), a.is_nan());
        same(f(d(a).negated()), -a);
        same(f(d(a).absolute()), a.abs());
        if a <= b {
            let c = s.value();
            same(f(d(c).clamp(d(a), d(b))), c.clamp(a, b));
        }
        let (low, high) = (f(d(a).lesser_of(d(b))), f(d(a).greater_of(d(b))));
        assert!(low == a.min(b) || low.is_nan() && a.min(b).is_nan());
        assert!(high == a.max(b) || high.is_nan() && a.max(b).is_nan());
    }
}
