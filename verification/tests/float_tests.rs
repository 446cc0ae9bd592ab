use picl::float::LF64;
use std::cmp::Ordering;

fn lf(x: f64) -> LF64 {
    LF64(x.to_bits())
}

fn samples() -> Vec<f64> {
    vec![
        f64::NEG_INFINITY,
        f64::MIN,
        -1.0e300,
        -2.5,
        -1.0,
        -f64::MIN_POSITIVE,
        -5e-324,
        -0.0,
        0.0,
        5e-324,
        f64::MIN_POSITIVE,
        1.0,
        1.0000000000000002,
        2.0,
        4.2,
        1.0e300,
        f64::MAX,
        f64::INFINITY,
        f64::NAN,
        -f64::NAN,
        f64::from_bits(0x7ff0_0000_0000_0001),
        f64::from_bits(0xffff_ffff_ffff_ffff),
    ]
}

fn expected(a: f64, b: f64) -> Ordering {
    match (a.is_nan(), b.is_nan()) {
        (false, false) => {
            if a < b {
                Ordering::Less
            } else if a > b {
                Ordering::Greater
            } else {
                Ordering::Equal
            }
        }
        (false, true) => Ordering::Less,
        (true, false) => Ordering::Greater,
        (true, true) => Ordering::Equal,
    }
}

#[test]
fn nan_equals_nan() {
    assert!(lf(f64::NAN) == lf(f64::NAN));
    assert!(lf(f64::NAN) == lf(-f64::NAN));
    assert_eq!(lf(f64::NAN).cmp(&lf(f64::NAN)), Ordering::Equal);
}

#[test]
fn nan_is_greater_than_one() {
    assert!(lf(f64::NAN) > lf(1.0));
    assert!(lf(1.0) < lf(f64::NAN));
    assert!(lf(f64::NAN) != lf(1.0));
    assert_eq!(lf(f64::NAN).cmp(&lf(1.0)), Ordering::Greater);
}

#[test]
fn nan_is_greater_than_infinity() {
    assert!(lf(f64::NAN) > lf(f64::INFINITY));
    assert!(lf(f64::NAN) > lf(f64::NEG_INFINITY));
    assert_eq!(lf(f64::INFINITY).cmp(&lf(f64::NAN)), Ordering::Less);
}

#[test]
fn one_is_less_than_two() {
    assert!(lf(1.0) < lf(2.0));
    assert!(lf(2.0) > lf(1.0));
    assert_eq!(lf(1.0).cmp(&lf(2.0)), Ordering::Less);
    assert_eq!(lf(1.0).partial_cmp(&lf(2.0)), Some(Ordering::Less));
}

#[test]
fn the_two_zeros_are_equal() {
    assert!(lf(0.0) == lf(-0.0));
    assert_eq!(lf(-0.0).cmp(&lf(0.0)), Ordering::Equal);
    assert_eq!(lf(0.0).canonical(), lf(-0.0).canonical());
}

#[test]
fn is_nan_agrees_with_the_native_test() {
    for x in samples() {
        assert_eq!(lf(x).is_nan(), x.is_nan(), "{:?}", x);
    }
}

#[test]
fn cmp_agrees_with_the_native_order_on_every_pair() {
    for a in samples() {
        for b in samples() {
            assert_eq!(lf(a).cmp(&lf(b)), expected(a, b), "{:?} {:?}", a, b);
            assert_eq!(lf(a).partial_cmp(&lf(b)), Some(expected(a, b)));
            assert_eq!(lf(a) == lf(b), expected(a, b) == Ordering::Equal);
            assert_eq!(lf(a) < lf(b), expected(a, b) == Ordering::Less);
        }
    }
}

#[test]
fn the_order_is_transitive_on_the_samples() {
    let all = samples();
    for a in &all {
        for b in &all {
            for c in &all {
                let (x, y, z) = (lf(*a), lf(*b), lf(*c));
                if x.cmp(&y) != Ordering::Greater && y.cmp(&z) != Ordering::Greater {
                    assert!(x.cmp(&z) != Ordering::Greater);
                }
            }
        }
    }
}

#[test]
fn sorting_puts_every_nan_last() {
    let mut all: Vec<LF64> = vec![
        lf(f64::NAN),
        lf(3.0),
        lf(f64::INFINITY),
        lf(-f64::NAN),
        lf(f64::NEG_INFINITY),
        lf(-1.0),
    ];
    all.sort_by(|a, b| a.cmp(b));
    let back: Vec<f64> = all.iter().map(|x| f64::from_bits(x.0)).collect();
    assert_eq!(back[0], f64::NEG_INFINITY);
    assert_eq!(back[1], -1.0);
    assert_eq!(back[2], 3.0);
    assert_eq!(back[3], f64::INFINITY);
    assert!(back[4].is_nan());
    assert!(back[5].is_nan());
}

#[test]
fn canonical_is_the_same_exactly_for_equal_floats() {
    for a in samples() {
        for b in samples() {
            assert_eq!(lf(a).canonical() == lf(b).canonical(), lf(a) == lf(b), "{:?} {:?}", a, b);
        }
    }
    assert_eq!(lf(f64::NAN).canonical(), 0x7ff8_0000_0000_0000);
    assert_eq!(lf(-0.0).canonical(), 0);
    assert_eq!(lf(4.2).canonical(), 4.2f64.to_bits());
}

#[test]
fn default_is_zero() {
    assert_eq!(f64::from_bits(LF64::default().0), 0.0);
    assert!(LF64::default() == lf(0.0));
}

#[test]
fn the_payload_is_kept() {
    let x = lf(4.2);
    assert_eq!(5.1 + f64::from_bits(x.0), 5.1 + 4.2);
    let y = x;
    assert!(x == y);
}

#[test]
fn cmp_agrees_with_the_native_order_on_a_grid_of_patterns() {
    let mut patterns: Vec<u64> = Vec::new();
    for sign in [0u64, 1] {
        for exponent in [0u64, 1, 2, 1022, 1023, 1024, 2045, 2046, 2047] {
            for fraction in [0u64, 1, 2, 1 << 51, (1 << 52) - 2, (1 << 52) - 1] {
                patterns.push((sign << 63) | (exponent << 52) | fraction);
            }
        }
    }
    assert_eq!(patterns.len(), 108);
    for &a in &patterns {
        let x = f64::from_bits(a);
        assert_eq!(LF64(a).is_nan(), x.is_nan());
        for &b in &patterns {
            let y = f64::from_bits(b);
            assert_eq!(LF64(a).cmp(&LF64(b)), expected(x, y), "{:#x} {:#x}", a, b);
            assert_eq!(LF64(a) == LF64(b), expected(x, y) == Ordering::Equal);
            assert_eq!(
                LF64(a).canonical() == LF64(b).canonical(),
                expected(x, y) == Ordering::Equal
            );
        }
    }
}
