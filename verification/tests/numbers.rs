use image_similarity::ieee::{Double, Single, COUNT_LIMIT, DOUBLE_INFINITY, SINGLE_INFINITY, SINGLE_ONE};

fn single(v: f32) -> Single {
    Single { bits: v.to_bits() }
}

fn double(v: f64) -> Double {
    Double { bits: v.to_bits() }
}

fn singles() -> Vec<f32> {
    vec![
        0.0,
        -0.0,
        1.0,
        -1.0,
        0.5,
        1.5,
        -2.75,
        3.0e-39,
        -3.0e-39,
        f32::from_bits(1),
        f32::from_bits(0x007f_ffff),
        f32::MIN_POSITIVE,
        f32::MAX,
        f32::MIN,
        f32::EPSILON,
        16_777_216.0,
        123.456,
        f32::INFINITY,
        f32::NEG_INFINITY,
        f32::NAN,
        -f32::NAN,
        f32::from_bits(0x7f80_0001),
    ]
}

fn doubles() -> Vec<f64> {
    vec![
        0.0,
        -0.0,
        1.0,
        -1.0,
        0.25,
        -7.5,
        5.0e-324,
        -5.0e-324,
        f64::MIN_POSITIVE,
        f64::MAX,
        f64::MIN,
        0.999_999_9,
        1.000_000_1,
        f64::INFINITY,
        f64::NEG_INFINITY,
        f64::NAN,
        -f64::NAN,
    ]
}

#[test]
fn single_comparisons_are_those_of_the_hardware() {
    for a in singles() {
        for b in singles() {
            assert_eq!(single(a).lt(single(b)), a < b, "{a:?} < {b:?}");
            assert_eq!(single(a).ge(single(b)), a >= b, "{a:?} >= {b:?}");
        }
        assert_eq!(single(a).is_nan(), a.is_nan(), "{a:?}");
    }
}

#[test]
fn double_comparisons_are_those_of_the_hardware() {
    for a in doubles() {
        for b in doubles() {
            assert_eq!(double(a).lt(double(b)), a < b, "{a:?} < {b:?}");
        }
        assert_eq!(double(a).is_nan(), a.is_nan(), "{a:?}");
        assert_eq!(double(a).is_zero(), a == 0.0, "{a:?}");
    }
}

#[test]
fn rank_key_orders_numbers_and_puts_nan_last() {
    for a in doubles() {
        for b in doubles() {
            let (ka, kb) = (double(a).rank_key(), double(b).rank_key());
            if a < b {
                assert!(ka < kb, "{a:?} {b:?}");
            }
            if a == b {
                assert_eq!(ka, kb, "{a:?} {b:?}");
            }
            if a.is_nan() && !b.is_nan() {
                assert!(ka < kb, "{a:?} {b:?}");
            }
            if a.is_nan() && b.is_nan() {
                assert_eq!(ka, kb);
            }
        }
    }
    assert_eq!(double(0.0).rank_key(), 0);
    assert_eq!(double(-0.0).rank_key(), 0);
    assert_eq!(double(1.0).rank_key(), 0x3ff0_0000_0000_0000);
    assert_eq!(double(-1.0).rank_key(), -0x3ff0_0000_0000_0000);
    assert_eq!(double(f64::NAN).rank_key(), -0x7ff0_0000_0000_0001);
    assert_eq!(double(f64::NEG_INFINITY).rank_key(), -0x7ff0_0000_0000_0000);
}

#[test]
fn widen_is_the_exact_conversion() {
    for a in singles() {
        if a.is_nan() {
            continue;
        }
        assert_eq!(single(a).widen().bits, (a as f64).to_bits(), "{a:?}");
    }
    assert_eq!(single(1.0).widen().bits, 0x3ff0_0000_0000_0000);
    assert_eq!(single(-2.0).widen().bits, 0xc000_0000_0000_0000);
    assert_eq!(single(-0.0).widen().bits, 0x8000_0000_0000_0000);
    assert_eq!(Single { bits: 1 }.widen().bits, 0x36a0_0000_0000_0000);
    assert_eq!(Single { bits: SINGLE_INFINITY }.widen().bits, DOUBLE_INFINITY);
    assert_eq!(Single { bits: SINGLE_ONE }.widen().bits, 1.0f64.to_bits());
}

#[test]
fn widen_covers_every_exponent() {
    let mut bits: u32 = 0;
    while bits < SINGLE_INFINITY {
        for low in [0u32, 1, 0x2a_aaaa, 0x7f_ffff] {
            let pattern = (bits & 0x7f80_0000) | low;
            let value = f32::from_bits(pattern);
            assert_eq!(Single { bits: pattern }.widen().bits, (value as f64).to_bits());
            let negative = pattern | 0x8000_0000;
            let value = f32::from_bits(negative);
            assert_eq!(Single { bits: negative }.widen().bits, (value as f64).to_bits());
        }
        bits += 0x0080_0000;
    }
}

#[test]
fn subnormal_singles_widen_exactly() {
    let mut pattern: u32 = 1;
    while pattern < 0x0080_0000 {
        for p in [pattern, pattern | 1, pattern + (pattern >> 1)] {
            let value = f32::from_bits(p);
            assert_eq!(Single { bits: p }.widen().bits, (value as f64).to_bits(), "{p:#x}");
        }
        pattern <<= 1;
    }
}

#[test]
fn from_count_is_the_exact_conversion() {
    let counts: [u64; 14] = [
        0,
        1,
        2,
        3,
        7,
        10,
        100,
        113,
        65_535,
        1 << 32,
        (1 << 52) - 1,
        1 << 52,
        (1 << 52) + 1,
        COUNT_LIMIT - 1,
    ];
    for n in counts {
        assert_eq!(Double::from_count(n).bits, (n as f64).to_bits(), "{n}");
    }
    assert_eq!(Double::from_count(0).bits, 0);
    assert_eq!(Double::from_count(1).bits, 0x3ff0_0000_0000_0000);
    assert_eq!(Double::from_count(2).bits, 0x4000_0000_0000_0000);
    assert_eq!(Double::from_count(3).bits, 0x4008_0000_0000_0000);
}

#[test]
fn count_limit_is_two_to_the_53() {
    assert_eq!(COUNT_LIMIT, 1u64 << 53);
    assert_eq!((COUNT_LIMIT - 1) as f64 as u64, COUNT_LIMIT - 1);
}
