//! Binary32 arithmetic, held against the machine's own.

use greentd::order::{half, one, zero};
use greentd::scalar::Scalar;
use greentd::vector::{IVec2, Vec2};

fn s(x: f32) -> Scalar {
    Scalar { bits: x.to_bits() }
}

fn f(x: Scalar) -> f32 {
    f32::from_bits(x.bits)
}

/// The same number, or both not a number.
fn agrees(got: Scalar, want: f32) -> bool {
    (f(got).is_nan() && want.is_nan()) || got.bits == want.to_bits()
}

/// A stream of bit patterns.
struct Bits(u64);

impl Bits {
    fn next(&mut self) -> u32 {
        self.0 ^= self.0 << 13;
        self.0 ^= self.0 >> 7;
        self.0 ^= self.0 << 17;
        (self.0 >> 16) as u32
    }

    /// Patterns of every magnitude, and every so often a special one.
    fn number(&mut self) -> f32 {
        let bits = self.next();
        match bits % 11 {
            0 => [0.0, -0.0, 1.0, -1.0, f32::INFINITY, f32::NEG_INFINITY, f32::NAN, f32::MIN_POSITIVE]
                [(self.next() % 8) as usize],
            1 => f32::from_bits(self.next() % 0x0100_0000),
            2 => (self.next() % 100_000) as f32 / 8.0,
            3 => -((self.next() % 1000) as f32) * 0.1,
            _ => f32::from_bits(self.next()),
        }
    }

    /// A pair of numbers that are near each other half of the time.
    fn pair(&mut self) -> (f32, f32) {
        let a = self.number();
        let b = if self.next() % 2 == 0 {
            self.number()
        } else {
            f32::from_bits(a.to_bits() ^ (self.next() % 0x0200_0000))
        };
        (a, b)
    }
}

#[test]
fn sums_and_differences_are_correctly_rounded() {
    let mut bits = Bits(0x1234_5678_9abc_def1);
    for _ in 0..60_000 {
        let (a, b) = bits.pair();
        assert!(agrees(s(a).plus(s(b)), a + b), "{a:e} + {b:e}");
        assert!(agrees(s(a).minus(s(b)), a - b), "{a:e} - {b:e}");
    }
}

#[test]
fn products_are_correctly_rounded() {
    let mut bits = Bits(0xfeed_face_cafe_beef);
    for _ in 0..60_000 {
        let (a, b) = bits.pair();
        assert!(agrees(s(a).times(s(b)), a * b), "{a:e} * {b:e}");
    }
}

#[test]
fn quotients_are_correctly_rounded() {
    let mut bits = Bits(0x0dd0_5eed_1111_2222);
    for _ in 0..60_000 {
        let (a, b) = bits.pair();
        assert!(agrees(s(a).over(s(b)), a / b), "{a:e} / {b:e}");
    }
}

#[test]
fn roots_are_correctly_rounded() {
    let mut bits = Bits(0x7777_1234_0000_0001);
    for _ in 0..60_000 {
        let a = bits.number();
        assert!(agrees(s(a).sqrt(), a.sqrt()), "sqrt {a:e}");
    }
    for n in 0..3000u32 {
        let square = (n * n) as f32;
        assert_eq!(f(s(square).sqrt()), n as f32);
    }
}

#[test]
fn whole_numbers_convert_both_ways() {
    let mut bits = Bits(0x5a5a_5a5a_a5a5_a5a5);
    for _ in 0..60_000 {
        let n = bits.next() >> (bits.next() % 32);
        assert_eq!(Scalar::from_u32(n).bits, (n as f32).to_bits(), "{n}");
        let i = bits.next() as i32;
        assert_eq!(Scalar::from_i32(i).bits, (i as f32).to_bits(), "{i}");
        let a = bits.number();
        assert_eq!(s(a).to_u32(), a as u32, "{a:e}");
        assert_eq!(s(a).round_to_i32(), a.round() as i32, "{a:e}");
    }
    assert_eq!(Scalar::from_i32(i32::MIN).bits, (i32::MIN as f32).to_bits());
    for halves in -9..10 {
        let a = halves as f32 / 2.0;
        assert_eq!(s(a).round_to_i32(), a.round() as i32);
    }
}

#[test]
fn comparisons_follow_the_number_line() {
    let mut bits = Bits(0x0102_0304_0506_0708);
    for _ in 0..60_000 {
        let (a, b) = bits.pair();
        assert_eq!(s(a).lt(s(b)), a < b, "{a:e} < {b:e}");
        assert_eq!(s(a).le(s(b)), a <= b);
        assert_eq!(s(a).gt(s(b)), a > b);
        assert_eq!(s(a).ge(s(b)), a >= b);
        assert_eq!(s(a).same(s(b)), a == b);
        assert_eq!(f(s(a).min(s(b))).is_nan(), a.min(b).is_nan());
        if !a.is_nan() && !b.is_nan() {
            assert_eq!(f(s(a).min(s(b))), a.min(b));
            assert_eq!(f(s(a).max(s(b))), a.max(b));
        }
        assert_eq!(s(a).is_nan(), a.is_nan());
        assert_eq!(s(a).is_finite(), a.is_finite());
        assert!(agrees(s(a).abs(), a.abs()));
        assert!(agrees(s(a).negate(), -a) || a.is_nan());
        let c = s(a).clamp(s(-2.5), s(7.25));
        assert!(agrees(c, a.clamp(-2.5, 7.25)), "{a:e}");
    }
    assert!(s(0.0).same(s(-0.0)));
    assert!(!s(f32::NAN).same(s(f32::NAN)));
}

#[test]
fn the_constants_are_what_they_are_called() {
    assert_eq!(f(zero()), 0.0);
    assert_eq!(f(half()), 0.5);
    assert_eq!(f(one()), 1.0);
}

#[test]
fn vectors_are_pairs_of_numbers() {
    let a = Vec2::new(s(3.0), s(-4.0));
    let b = Vec2::new(s(0.5), s(2.0));
    assert_eq!(f(a.length()), 5.0);
    assert_eq!(f(a.dot(b)), 3.0 * 0.5 + -4.0 * 2.0);
    assert_eq!(a.plus(b), Vec2::new(s(3.5), s(-2.0)));
    assert_eq!(a.minus(b), Vec2::new(s(2.5), s(-6.0)));
    assert_eq!(a.times(s(2.0)), Vec2::new(s(6.0), s(-8.0)));
    assert_eq!(f(a.distance(Vec2::new(s(0.0), s(0.0)))), 5.0);
    assert_eq!(a.lerp(b, s(0.5)), Vec2::new(s(1.75), s(-1.0)));
    assert!(a.is_finite());
    assert!(!Vec2::new(s(f32::NAN), s(0.0)).is_finite());
    assert_eq!(IVec2 { x: 1, y: 2 }, IVec2 { x: 1, y: 2 });
}
