use raytracer::perlin::lattice_of;
use raytracer::scalar::Scalar;
use raytracer::scalar::INFINITY_BITS;
use raytracer::scalar::NAN_BITS;
use raytracer::scalar::ONE_BITS;
use raytracer::scalar::SIGN_BIT;
use raytracer::sphere::get_first_in_range;
use raytracer::truncate::WHOLE_CAP;
use raytracer::vec3::Vec3;
use raytracer::vec3::NEAR_ZERO_BITS;

fn s(x: f64) -> Scalar {
    Scalar::from_bits(x.to_bits())
}

fn f(x: Scalar) -> f64 {
    f64::from_bits(x.to_bits())
}

fn samples() -> Vec<f64> {
    vec![
        0.0,
        -0.0,
        1.0,
        -1.0,
        0.5,
        -0.5,
        0.001,
        0.999,
        1e-8,
        -1e-8,
        9.9e-9,
        1e-300,
        -1e-300,
        5e-324,
        -5e-324,
        2.2250738585072014e-308,
        1.5,
        2.0,
        3.75,
        -3.75,
        255.744,
        1000.0,
        -1000.0,
        123456.789,
        2147483647.0,
        2147483648.0,
        -2147483648.0,
        -2147483649.0,
        536870911.9,
        536870912.0,
        1e18,
        -1e18,
        1.7976931348623157e308,
        -1.7976931348623157e308,
        f64::INFINITY,
        f64::NEG_INFINITY,
        f64::NAN,
        -f64::NAN,
    ]
}

#[test]
fn constants_are_the_patterns_they_name() {
    assert_eq!(ONE_BITS, 1.0f64.to_bits());
    assert_eq!(INFINITY_BITS, f64::INFINITY.to_bits());
    assert_eq!(SIGN_BIT, (-0.0f64).to_bits());
    assert_eq!(NEAR_ZERO_BITS, 1e-8f64.to_bits());
    assert!(f64::from_bits(NAN_BITS).is_nan());
    assert_eq!(Scalar::zero().to_bits(), 0.0f64.to_bits());
    assert_eq!(Scalar::one().to_bits(), 1.0f64.to_bits());
    assert_eq!(Scalar::infinity().to_bits(), f64::INFINITY.to_bits());
}

#[test]
fn from_bits_keeps_values_and_unifies_nans() {
    for x in samples() {
        let v = s(x);
        if x.is_nan() {
            assert_eq!(v.to_bits(), NAN_BITS);
            assert!(v.nan());
        } else {
            assert_eq!(v.to_bits(), x.to_bits());
            assert!(!v.nan());
        }
    }
    assert_eq!(Scalar::from_bits(0x7ff0_0000_0000_0001).to_bits(), NAN_BITS);
    assert_eq!(Scalar::from_bits(0xfff0_0000_0000_0001).to_bits(), NAN_BITS);
}

#[test]
fn comparisons_agree_with_the_hardware() {
    for a in samples() {
        for b in samples() {
            let (x, y) = (s(a), s(b));
            assert_eq!(x < y, a < b, "{} < {}", a, b);
            assert_eq!(x <= y, a <= b, "{} <= {}", a, b);
            assert_eq!(x > y, a > b, "{} > {}", a, b);
            assert_eq!(x >= y, a >= b, "{} >= {}", a, b);
            assert_eq!(x == y, a == b, "{} == {}", a, b);
            assert_eq!(x != y, a != b, "{} != {}", a, b);
            assert_eq!(x.partial_cmp(&y), a.partial_cmp(&b), "{} cmp {}", a, b);
        }
    }
}

#[test]
fn min_and_max_agree_with_the_hardware() {
    for a in samples() {
        for b in samples() {
            let lo = f(s(a).min(s(b)));
            let hi = f(s(a).max(s(b)));
            let (want_lo, want_hi) = (a.min(b), a.max(b));
            if want_lo.is_nan() {
                assert!(lo.is_nan());
            } else {
                assert!(lo == want_lo, "min({}, {})", a, b);
            }
            if want_hi.is_nan() {
                assert!(hi.is_nan());
            } else {
                assert!(hi == want_hi, "max({}, {})", a, b);
            }
        }
    }
    assert_eq!(s(0.0).min(s(-0.0)).to_bits(), 0.0f64.to_bits());
    assert_eq!(s(3.0).min(s(f64::NAN)).to_bits(), 3.0f64.to_bits());
    assert_eq!(s(f64::NAN).max(s(3.0)).to_bits(), 3.0f64.to_bits());
}

#[test]
fn neg_and_abs_are_exact() {
    for a in samples() {
        if a.is_nan() {
            assert!(s(a).neg().nan());
            assert!(s(a).abs().nan());
        } else {
            assert_eq!(s(a).neg().to_bits(), (-a).to_bits());
            assert_eq!(s(a).abs().to_bits(), a.abs().to_bits());
            assert_eq!(s(a).sign_bit(), a.is_sign_negative());
        }
    }
}

#[test]
fn clamp_agrees_with_the_hardware() {
    for a in samples() {
        let got = f(s(a).clamp(s(0.0), s(0.999)));
        let want = a.clamp(0.0, 0.999);
        if want.is_nan() {
            assert!(got.is_nan());
        } else {
            assert!(got == want, "clamp({})", a);
        }
    }
    assert_eq!(f(s(7.0).clamp(s(-2.0), s(5.0))), 5.0);
    assert_eq!(f(s(-7.0).clamp(s(-2.0), s(5.0))), -2.0);
    assert_eq!(f(s(1.25).clamp(s(-2.0), s(5.0))), 1.25);
}

#[test]
fn order_key_grows_with_the_value() {
    let mut values: Vec<f64> = samples().into_iter().filter(|x| !x.is_nan()).collect();
    values.sort_by(|a, b| a.partial_cmp(b).unwrap());
    for w in values.windows(2) {
        let (a, b) = (s(w[0]).order_key(), s(w[1]).order_key());
        if w[0] < w[1] {
            assert!(a < b, "{} {}", w[0], w[1]);
        } else {
            assert_eq!(a, b);
        }
    }
    assert_eq!(s(0.0).order_key(), 0);
    assert_eq!(s(-0.0).order_key(), 0);
    assert_eq!(s(1.0).order_key(), 0x3ff0_0000_0000_0000);
    assert_eq!(s(-1.0).order_key(), -0x3ff0_0000_0000_0000);
    assert_eq!(s(f64::NAN).order_key(), i64::MAX);
    assert!(s(f64::INFINITY).order_key() < i64::MAX);
}

#[test]
fn whole_part_of_scaled_values() {
    assert_eq!(s(0.0).floor_scaled_capped(8), 0);
    assert_eq!(s(0.5).floor_scaled_capped(8), 128);
    assert_eq!(s(0.999).floor_scaled_capped(8), 255);
    assert_eq!(s(-0.75).floor_scaled_capped(2), 3);
    assert_eq!(s(3.75).floor_scaled_capped(0), 3);
    assert_eq!(s(3.75).floor_scaled_capped(2), 15);
    assert_eq!(s(5e-324).floor_scaled_capped(11), 0);
    assert_eq!(s(1e18).floor_scaled_capped(0), 1_000_000_000_000_000_000);
    assert_eq!(s(4611686018427387904.0).floor_scaled_capped(0), 1u64 << 62);
    assert_eq!(s(4611686018427387904.0).floor_scaled_capped(1), WHOLE_CAP);
    assert_eq!(s(1e300).floor_scaled_capped(0), WHOLE_CAP);
    assert_eq!(s(f64::INFINITY).floor_scaled_capped(3), WHOLE_CAP);
    for a in samples() {
        if a.is_nan() {
            continue;
        }
        for k in 0..=11u64 {
            let want = (a.abs() * f64::powi(2.0, k as i32)).floor();
            let got = s(a).floor_scaled_capped(k);
            if want >= 9223372036854775808.0 {
                assert_eq!(got, WHOLE_CAP);
            } else {
                assert_eq!(got, want as u64, "{} * 2^{}", a, k);
            }
        }
    }
}

#[test]
fn lattice_is_the_floor_of_four_times_the_value() {
    for a in samples() {
        assert_eq!(lattice_of(s(a)), (4.0 * a).floor() as i32, "lattice of {}", a);
    }
    let mut x = -70000.0f64;
    while x < 70000.0 {
        assert_eq!(lattice_of(s(x)), (4.0 * x).floor() as i32, "lattice of {}", x);
        x += 173.0625;
    }
    assert_eq!(lattice_of(s(0.3)), 1);
    assert_eq!(lattice_of(s(0.2)), 0);
    assert_eq!(lattice_of(s(-0.2)), -1);
    assert_eq!(lattice_of(s(-0.25)), -1);
    assert_eq!(lattice_of(s(-0.3)), -2);
    assert_eq!(lattice_of(s(-0.0)), 0);
    assert_eq!(lattice_of(s(-5e-324)), -1);
    assert_eq!(lattice_of(s(1e12)), i32::MAX);
    assert_eq!(lattice_of(s(-1e12)), i32::MIN);
    assert_eq!(lattice_of(s(-536870912.0)), i32::MIN);
    assert_eq!(lattice_of(s(-536870911.9)), -2147483648);
    assert_eq!(lattice_of(s(-536870911.75)), -2147483647);
    assert_eq!(lattice_of(s(f64::NAN)), 0);
}

#[test]
fn whole_part_under_any_scaling() {
    assert_eq!(s(5e-324).floor_scaled_capped(1073), 0);
    assert_eq!(s(5e-324).floor_scaled_capped(1074), 1);
    assert_eq!(s(5e-324).floor_scaled_capped(1075), 2);
    assert_eq!(s(5e-324).floor_scaled_capped(1074 + 62), 1u64 << 62);
    assert_eq!(s(5e-324).floor_scaled_capped(1074 + 63), WHOLE_CAP);
    assert_eq!(s(5e-324).floor_scaled_capped(u64::MAX), WHOLE_CAP);
    assert_eq!(s(1.0).floor_scaled_capped(62), 1u64 << 62);
    assert_eq!(s(1.0).floor_scaled_capped(63), WHOLE_CAP);
    assert_eq!(s(1.0).floor_scaled_capped(2000), WHOLE_CAP);
    assert_eq!(s(1.5).floor_scaled_capped(40), 3u64 << 39);
    assert_eq!(s(3.0).floor_scaled_capped(61), 3u64 << 61);
    assert_eq!(s(3.0).floor_scaled_capped(62), WHOLE_CAP);
    assert_eq!(s(0.0).floor_scaled_capped(u64::MAX), 0);
    assert_eq!(s(-0.0).floor_scaled_capped(1200), 0);
    assert_eq!(s(1e-300).floor_scaled_capped(900), 0);
    assert!(s(5e-324).is_whole_scaled(1074));
    assert!(!s(5e-324).is_whole_scaled(1073));
    assert!(s(5e-324).is_whole_scaled(u64::MAX));
    assert!(s(0.1).is_whole_scaled(60));
    assert!(!s(0.1).is_whole_scaled(50));
}

#[test]
fn whole_scaled_values_are_told_apart() {
    assert!(s(0.0).is_whole_scaled(0));
    assert!(s(3.0).is_whole_scaled(0));
    assert!(!s(3.5).is_whole_scaled(0));
    assert!(s(3.5).is_whole_scaled(1));
    assert!(s(-0.25).is_whole_scaled(2));
    assert!(!s(-0.25).is_whole_scaled(1));
    assert!(!s(5e-324).is_whole_scaled(11));
    assert!(s(1e300).is_whole_scaled(0));
    assert!(s(f64::INFINITY).is_whole_scaled(0));
    for a in samples() {
        if a.is_nan() || a.is_infinite() {
            continue;
        }
        for k in 0..=11u64 {
            let scaled = a.abs() * f64::powi(2.0, k as i32);
            assert_eq!(s(a).is_whole_scaled(k), scaled == scaled.floor(), "{} * 2^{}", a, k);
        }
    }
}

#[test]
fn near_zero_vectors() {
    let v = |x: f64, y: f64, z: f64| Vec3::new(s(x), s(y), s(z));
    assert!(v(0.0, 0.0, 0.0).near_zero());
    assert!(v(9.9e-9, -9.9e-9, 0.0).near_zero());
    assert!(!v(1e-8, 0.0, 0.0).near_zero());
    assert!(!v(0.0, -1e-8, 0.0).near_zero());
    assert!(!v(0.0, 0.0, 1.0).near_zero());
    assert!(!v(f64::NAN, 0.0, 0.0).near_zero());
}

#[test]
fn vectors_keep_their_components() {
    let v = Vec3::new(s(3.0), s(2.0), s(1.0));
    assert_eq!(f(v.get(0)), 3.0);
    assert_eq!(f(v.get(1)), 2.0);
    assert_eq!(f(v.get(2)), 1.0);
    let n = v.neg();
    assert_eq!(f(n.get(0)), -3.0);
    assert_eq!(f(n.get(1)), -2.0);
    assert_eq!(f(n.get(2)), -1.0);
    let z = Vec3::new(s(0.0), s(-0.0), s(f64::INFINITY)).neg();
    assert_eq!(z.get(0).to_bits(), (-0.0f64).to_bits());
    assert_eq!(z.get(1).to_bits(), 0.0f64.to_bits());
    assert_eq!(f(z.get(2)), f64::NEG_INFINITY);
}

#[test]
fn first_in_range_is_open_below_and_closed_above() {
    let pick = |a: f64, b: f64, lo: f64, hi: f64| {
        get_first_in_range([s(a), s(b)], s(lo), s(hi)).map(f)
    };
    assert_eq!(pick(4.0, 6.0, 0.0, f64::INFINITY), Some(4.0));
    assert_eq!(pick(4.0, 6.0, 4.0, f64::INFINITY), Some(6.0));
    assert_eq!(pick(4.0, 6.0, 0.0, 4.0), Some(4.0));
    assert_eq!(pick(4.0, 6.0, 0.0, 3.9), None);
    assert_eq!(pick(-6.0, -4.0, 0.001, f64::INFINITY), None);
    assert_eq!(pick(-1.0, 1.0, 0.001, f64::INFINITY), Some(1.0));
    assert_eq!(pick(4.0, 6.0, 4.5, 6.0), Some(6.0));
    assert_eq!(pick(4.0, 6.0, 6.0, 7.0), None);
    assert_eq!(pick(f64::NAN, 6.0, 0.0, 10.0), Some(6.0));
    assert_eq!(pick(f64::NAN, f64::NAN, 0.0, 10.0), None);
    assert_eq!(pick(4.0, 6.0, f64::NAN, 10.0), None);
    assert_eq!(get_first_in_range([7u32, 3, 5], 2, 6), Some(3));
    assert_eq!(get_first_in_range([7i64, 9], 2, 6), None);
    assert_eq!(get_first_in_range::<u8, 0>([], 0, 9), None);
    assert_eq!(get_first_in_range([2u8, 6], 2, 6), Some(6));
}
