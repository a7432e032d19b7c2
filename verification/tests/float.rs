use editor::double::Double;
use editor::single::Single;

fn s(x: f32) -> Single {
    Single::from_bits(x.to_bits())
}

fn d(x: f64) -> Double {
    Double::from_bits(x.to_bits())
}

/// Encodings that agree, where all NaNs count as one.
fn agree(x: Single, y: f32) -> bool {
    let z = f32::from_bits(x.to_bits());
    (z.is_nan() && y.is_nan()) || z.to_bits() == y.to_bits()
}

fn agree_wide(x: Double, y: f64) -> bool {
    let z = f64::from_bits(x.to_bits());
    (z.is_nan() && y.is_nan()) || z.to_bits() == y.to_bits()
}

fn special() -> Vec<f32> {
    vec![
        0.0,
        -0.0,
        1.0,
        -1.0,
        0.5,
        0.1,
        0.65,
        2.001,
        3.0,
        1e9,
        f32::MIN_POSITIVE,
        f32::from_bits(1),
        f32::from_bits(0x8000_0001),
        f32::from_bits(0x007f_ffff),
        f32::from_bits(0x0080_0001),
        f32::MAX,
        f32::MIN,
        f32::INFINITY,
        f32::NEG_INFINITY,
        f32::NAN,
        f32::from_bits(0x3f80_0001),
        f32::from_bits(0x4b80_0000),
        f32::from_bits(0x4b80_0001),
        -16777216.0,
        -16777217.0,
        1.1754942e-38,
        3.4028233e38,
    ]
}

fn random(state: &mut u64) -> u64 {
    *state ^= *state << 13;
    *state ^= *state >> 7;
    *state ^= *state << 17;
    *state
}

fn check_pair(a: f32, b: f32) {
    assert!(agree(s(a).plus(s(b)), a + b), "{} + {}", a, b);
    assert!(agree(s(a).minus(s(b)), a - b), "{} - {}", a, b);
    assert!(agree(s(a).times(s(b)), a * b), "{} * {}", a, b);
    assert!(agree(s(a).over(s(b)), a / b), "{} / {}", a, b);
    assert_eq!(s(a).less(s(b)), a < b);
    assert_eq!(s(a).at_most(s(b)), a <= b);
    assert_eq!(s(a) == s(b), a == b);
    let least = f32::from_bits(s(a).min(s(b)).to_bits());
    let most = f32::from_bits(s(a).max(s(b)).to_bits());
    assert!(least == a.min(b) || (a.is_nan() && b.is_nan()));
    assert!(most == a.max(b) || (a.is_nan() && b.is_nan()));
}

fn check_one(a: f32) {
    assert!(agree(s(a).sqrt(), a.sqrt()), "sqrt {}", a);
    assert!(agree(s(a).negated(), -a));
    assert!(agree(s(a).abs(), a.abs()));
    assert!(agree(
        s(a).clamp(s(0.0), s(1.0)),
        a.clamp(0.0, 1.0)
    ));
    assert_eq!(s(a).is_nan(), a.is_nan());
    assert!(agree_wide(Double::from_single(s(a)), a as f64));
}

#[test]
fn arithmetic_on_special_numbers() {
    for a in special() {
        check_one(a);
        for b in special() {
            check_pair(a, b);
        }
    }
}

#[test]
fn arithmetic_on_random_encodings() {
    let mut seed: u64 = 0x9e37_79b9_7f4a_7c15;
    for _ in 0..100_000 {
        let bits = random(&mut seed);
        let a = f32::from_bits(bits as u32);
        let b = f32::from_bits((bits >> 32) as u32);
        check_one(a);
        check_pair(a, b);
    }
}

#[test]
fn arithmetic_on_numbers_of_like_size() {
    let mut seed: u64 = 0x1234_5678_9abc_def1;
    for _ in 0..100_000 {
        let bits = random(&mut seed);
        let a = f32::from_bits(0x3f00_0000 + (bits as u32 & 0x03ff_ffff));
        let b = f32::from_bits(0x3f00_0000 + ((bits >> 32) as u32 & 0x03ff_ffff));
        check_pair(a, b);
        check_pair(a, -b);
        check_one(a);
    }
}

#[test]
fn arithmetic_near_the_smallest_and_largest_numbers() {
    let mut seed: u64 = 0x0f0f_1e1e_2d2d_3c3c;
    for _ in 0..50_000 {
        let bits = random(&mut seed);
        let small = f32::from_bits(bits as u32 & 0x01ff_ffff);
        let large = f32::from_bits(0x7e00_0000 + ((bits >> 32) as u32 & 0x017f_ffff));
        let other = f32::from_bits((bits >> 20) as u32);
        check_pair(small, large);
        check_pair(small, other);
        check_pair(large, other);
        check_one(small);
        check_one(large);
    }
}

#[test]
fn naturals_are_rounded_to_nearest() {
    let mut seed: u64 = 42;
    for shift in 0..64 {
        for _ in 0..200 {
            let n = random(&mut seed) >> shift;
            assert!(agree(Single::natural(n), n as f32), "{}", n);
            assert!(agree_wide(Double::natural(n), n as f64), "{}", n);
        }
    }
    assert_eq!(Single::natural(0).to_bits(), 0);
    assert_eq!(Single::natural(16_777_217).to_bits(), 16_777_216f32.to_bits());
    assert_eq!(Single::natural(16_777_219).to_bits(), 16_777_220f32.to_bits());
}

#[test]
fn ratios_are_decimal_literals() {
    assert_eq!(Single::ratio(1, 10).to_bits(), 0.1f32.to_bits());
    assert_eq!(Single::ratio(1, 100).to_bits(), 0.01f32.to_bits());
    assert_eq!(Single::ratio(65, 100).to_bits(), 0.65f32.to_bits());
    assert_eq!(Single::ratio(2001, 1000).to_bits(), 2.001f32.to_bits());
    assert_eq!(Single::ratio(8, 10).to_bits(), 0.8f32.to_bits());
    assert_eq!(Single::ratio(4, 10).to_bits(), 0.4f32.to_bits());
    assert_eq!(Single::ratio(1, 2).to_bits(), 0.5f32.to_bits());
}

#[test]
fn double_arithmetic() {
    let mut seed: u64 = 0xdead_beef_cafe_f00d;
    for _ in 0..100_000 {
        let a = f64::from_bits(random(&mut seed));
        let b = f64::from_bits(random(&mut seed));
        assert!(agree_wide(d(a).minus(d(b)), a - b), "{} - {}", a, b);
        assert!(agree_wide(d(a).times(d(b)), a * b), "{} * {}", a, b);
        assert!(agree(d(a).to_single(), a as f32), "{}", a);
        let c = f64::from_bits(0x3f00_0000_0000_0000 + (random(&mut seed) >> 9));
        let e = f64::from_bits(0x3f00_0000_0000_0000 + (random(&mut seed) >> 9));
        assert!(agree_wide(d(c).minus(d(e)), c - e));
        assert!(agree_wide(d(c).times(d(e)), c * e));
        assert!(agree(d(c).to_single(), c as f32));
    }
    let wide: Vec<f64> = vec![
        0.0,
        -0.0,
        1.0,
        f64::MIN_POSITIVE,
        f64::from_bits(1),
        f64::MAX,
        f64::INFINITY,
        f64::NEG_INFINITY,
        f64::NAN,
        3.4028235677973366e38,
        3.4028235677973362e38,
        7.006492321624085e-46,
        7.006492321624086e-46,
    ];
    for a in wide.iter() {
        assert!(agree(d(*a).to_single(), *a as f32), "{}", a);
        for b in wide.iter() {
            assert!(agree_wide(d(*a).minus(d(*b)), a - b));
            assert!(agree_wide(d(*a).times(d(*b)), a * b));
        }
    }
}
