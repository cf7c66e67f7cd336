use coin612::double::{integer, ratio, to_byte, to_nearest_byte};
use coin612::float::{Double, Single};

fn random(seed: &mut u64) -> u64 {
    *seed = seed.wrapping_mul(6364136223846793005).wrapping_add(1442695040888963407);
    *seed >> 11
}

fn single(v: f32) -> Single {
    Single::from_bits(v.to_bits()).unwrap()
}

#[test]
fn bits_go_round() {
    let mut seed = 1;
    for _ in 0..10_000 {
        let bits = random(&mut seed) as u32;
        match Single::from_bits(bits) {
            Some(v) => {
                let back = v.to_bits();
                assert!(back == bits || (f32::from_bits(bits) == 0.0 && back == 0));
            }
            None => assert!(!f32::from_bits(bits).is_finite()),
        }
    }
}

#[test]
fn singles_agree_with_hardware_arithmetic() {
    let mut seed = 2;
    let mut value = || -> f32 {
        let r = random(&mut seed);
        let exponent = 100 + (r >> 32) as u32 % 55;
        f32::from_bits((r as u32 & 0x807F_FFFF) | (exponent << 23))
    };
    for _ in 0..20_000 {
        let (a, b) = (value(), value());
        let (x, y) = (single(a), single(b));
        assert_eq!(x.plus(&y).to_bits(), (a + b).to_bits() & mask(a + b), "{a} + {b}");
        assert_eq!(x.minus(&y).to_bits(), (a - b).to_bits() & mask(a - b), "{a} - {b}");
        assert_eq!(x.times(&y).to_bits(), (a * b).to_bits(), "{a} * {b}");
        let d = single(b.abs());
        assert_eq!(x.over(&d).to_bits(), (a / b.abs()).to_bits(), "{a} / {b}");
        assert_eq!(x.lt(&y), a < b);
        assert_eq!(x.negated().to_bits(), (-a).to_bits());
    }
}

/// All bits, but none of a zero.
fn mask(v: f32) -> u32 {
    if v == 0.0 {
        0
    } else {
        u32::MAX
    }
}

#[test]
fn small_singles_lose_bits_gradually() {
    for (a, b) in [(1e-30f32, 1e-12f32), (3e-23, 7e-22), (1.1754944e-38, 0.5), (1e-45, 0.5)] {
        assert_eq!(single(a).times(&single(b)).to_bits(), (a * b).to_bits(), "{a} * {b}");
    }
    assert_eq!(single(1e-38).over(&single(3.0)).to_bits(), (1e-38f32 / 3.0).to_bits());
}

#[test]
fn doubles_agree_with_hardware_arithmetic() {
    let mut seed = 3;
    for _ in 0..20_000 {
        let (a, b) = (random(&mut seed) as u32 % 1_000_000, random(&mut seed) as u32 % 1_000 + 1);
        let (c, d) = (random(&mut seed) as u32 % 1_000_000, random(&mut seed) as u32 % 1_000 + 1);
        let (x, y) = (ratio(a, b), ratio(c, d));
        let (p, q) = (a as f64 / b as f64, c as f64 / d as f64);
        let whole = |v: &Double| v.nearest_multiple(1_000_000);
        let near = |v: f64| (v * 1_000_000.0) as u64;
        let sum = x.plus(&y);
        assert_eq!(sum.floor(), (p + q) as u64);
        assert_eq!(sum.round(), (p + q).round() as u64);
        assert!(whole(&sum).abs_diff(near(p + q)) <= 1);
        assert_eq!(x.times(&y).floor(), (p * q) as u64);
        if c > 0 {
            assert_eq!(x.over(&y).floor(), (p / q) as u64);
        }
        assert_eq!(x.modulo(360).floor(), (p % 360.0) as u64);
        assert_eq!(x.lt(&y), p < q);
    }
}

#[test]
fn doubles_round_to_even() {
    // 1/3 + 1/3 + 1/3 is one, but 0.1 + 0.2 is not 0.3
    let third = ratio(1, 3);
    let one = third.plus(&third).plus(&third);
    assert!(!one.lt(&integer(1)) && !integer(1).lt(&one));
    let sum = ratio(1, 10).plus(&ratio(2, 10));
    assert!(ratio(3, 10).lt(&sum));
    assert_eq!(integer(5).over(&integer(2)).nearest_multiple(1), 2);
    assert_eq!(integer(7).over(&integer(2)).nearest_multiple(1), 4);
    assert_eq!(ratio(1, 8).nearest_multiple(100), 12);
    assert_eq!(ratio(3, 8).nearest_multiple(100), 38);
    assert_eq!(integer(5).over(&integer(2)).round(), 3);
    // large integers
    let big = Double::from_int((1 << 53) + 1);
    assert_eq!(big.floor(), 1 << 53);
    assert_eq!(Double::from_int((1 << 53) + 3).floor(), (1 << 53) + 4);
}

#[test]
fn bytes() {
    assert_eq!(to_byte(&ratio(2549, 10)), 254);
    assert_eq!(to_byte(&integer(300)), 255);
    assert_eq!(to_byte(&integer(3).negated()), 0);
    assert_eq!(to_nearest_byte(&ratio(25, 10)), 3);
    assert_eq!(to_nearest_byte(&ratio(2549, 10)), 255);
    assert_eq!(to_nearest_byte(&integer(1000)), 255);
    assert_eq!(to_nearest_byte(&ratio(7, 10).negated()), 0);
}
