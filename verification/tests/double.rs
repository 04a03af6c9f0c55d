use aether::double::reading::parse_real;
use aether::double::{Double, ONE, QUIET, THREE, TWO, ZERO};

fn d(x: f64) -> Double {
    Double::from_bits(x.to_bits())
}

fn f(x: Double) -> f64 {
    f64::from_bits(x.to_bits())
}

/// Bit patterns of every kind: zeros, subnormals, whole numbers, extremes, and what a
/// generator makes.
fn patterns() -> Vec<u64> {
    let mut all = vec![
        0,
        1,
        2,
        3,
        0x000f_ffff_ffff_ffff,
        0x0010_0000_0000_0000,
        0x0010_0000_0000_0001,
        0x3ff0_0000_0000_0000,
        0x3ff0_0000_0000_0001,
        0x3fef_ffff_ffff_ffff,
        0x7fef_ffff_ffff_ffff,
        0x7ff0_0000_0000_0000,
        0x7ff8_0000_0000_0000,
        0x7ff0_0000_0000_0001,
        1.5f64.to_bits(),
        0.1f64.to_bits(),
        3.0f64.to_bits(),
        1e300f64.to_bits(),
        1e-300f64.to_bits(),
        9007199254740993f64.to_bits(),
    ];
    let mut x: u64 = 0x9e37_79b9_7f4a_7c15;
    for i in 0..160 {
        x ^= x << 13;
        x ^= x >> 7;
        x ^= x << 17;
        // Half of them near one another, so that sums cancel and carry.
        if i % 2 == 0 {
            all.push(x & 0x7fff_ffff_ffff_ffff);
        } else {
            all.push(0x3fe0_0000_0000_0000 | (x & 0x003f_ffff_ffff_ffff));
        }
    }
    let negative: Vec<u64> = all.iter().map(|b| b | 0x8000_0000_0000_0000).collect();
    all.extend(negative);
    all
}

fn same(ours: Double, theirs: f64) -> bool {
    if theirs.is_nan() {
        ours.to_bits() == QUIET
    } else {
        ours.to_bits() == theirs.to_bits()
    }
}

#[test]
fn sums_and_differences_round_as_the_processor_does() {
    for a in patterns() {
        for b in patterns() {
            let (x, y) = (f64::from_bits(a), f64::from_bits(b));
            let (p, q) = (Double::from_bits(a), Double::from_bits(b));
            assert!(same(p + q, x + y), "{x:e} + {y:e} gave {:e}", f(p + q));
            assert!(same(p - q, x - y), "{x:e} - {y:e} gave {:e}", f(p - q));
        }
    }
}

#[test]
fn products_round_as_the_processor_does() {
    for a in patterns() {
        for b in patterns() {
            let (x, y) = (f64::from_bits(a), f64::from_bits(b));
            let (p, q) = (Double::from_bits(a), Double::from_bits(b));
            assert!(same(p * q, x * y), "{x:e} * {y:e} gave {:e}", f(p * q));
        }
    }
}

#[test]
fn quotients_round_as_the_processor_does() {
    for a in patterns() {
        for b in patterns() {
            let (x, y) = (f64::from_bits(a), f64::from_bits(b));
            let (p, q) = (Double::from_bits(a), Double::from_bits(b));
            assert!(same(p / q, x / y), "{x:e} / {y:e} gave {:e}", f(p / q));
        }
    }
}

#[test]
fn roots_round_as_the_processor_does() {
    for a in patterns() {
        let x = f64::from_bits(a);
        let r = Double::from_bits(a).sqrt();
        assert!(same(r, x.sqrt()), "root of {x:e} gave {:e}", f(r));
    }
}

#[test]
fn comparisons_treat_nan_as_unordered() {
    for a in patterns() {
        for b in patterns() {
            let (x, y) = (f64::from_bits(a), f64::from_bits(b));
            let (p, q) = (Double::from_bits(a), Double::from_bits(b));
            assert_eq!(p < q, x < y);
            assert_eq!(p <= q, x <= y);
            assert_eq!(p > q, x > y);
            assert_eq!(p >= q, x >= y);
            assert_eq!(p == q, x == y);
            assert_eq!(p.ranks_up_to(q), x.total_cmp(&y).is_le());
        }
    }
}

#[test]
fn magnitudes_signs_and_kinds() {
    for a in patterns() {
        let (x, p) = (f64::from_bits(a), Double::from_bits(a));
        assert_eq!(p.abs().to_bits(), x.abs().to_bits());
        assert_eq!(p.opposite().to_bits(), (-x).to_bits());
        assert_eq!(p.is_nan(), x.is_nan());
        assert_eq!(p.is_finite(), x.is_finite());
        assert_eq!(p.to_bits(), a);
    }
}

#[test]
fn the_distance_of_a_point_from_the_origin() {
    assert_eq!(f(d(3.0).hypot(d(4.0))), 5.0);
    assert_eq!(f(d(-5.0).hypot(d(12.0))), 13.0);
    assert_eq!(f(d(0.0).hypot(d(-0.0))), 0.0);
    assert_eq!(f(d(1e300).hypot(d(1e300))), std::f64::consts::SQRT_2 * 1e300);
    assert_eq!(f(d(3e-320).hypot(d(4e-320))), 5e-320);
    // An infinity decides, even against something that is not a number.
    assert_eq!(f(d(f64::INFINITY).hypot(d(f64::NAN))), f64::INFINITY);
    assert_eq!(f(d(f64::NAN).hypot(d(f64::NEG_INFINITY))), f64::INFINITY);
    assert!(f(d(f64::NAN).hypot(d(1.0))).is_nan());
    // Platforms disagree on a signalling NaN, which no arithmetic gives.
    let quiet = |b: &u64| !f64::from_bits(*b).is_nan() || b & 0x0008_0000_0000_0000 != 0;
    for a in patterns().into_iter().filter(quiet) {
        for b in patterns().into_iter().filter(quiet) {
            let (x, y) = (f64::from_bits(a), f64::from_bits(b));
            let ours = Double::from_bits(a).hypot(Double::from_bits(b));
            let theirs = x.hypot(y);
            if theirs.is_nan() {
                assert!(ours.is_nan());
            } else {
                // The platform may be one unit in the last place off; this is not.
                let gap = ours.to_bits().abs_diff(theirs.to_bits());
                assert!(gap <= 1, "hypot({x:e}, {y:e}): {:e} against {theirs:e}", f(ours));
            }
        }
    }
}

#[test]
fn whole_numbers_round_to_the_even_neighbour() {
    for n in [0, 1, 2, 3, 10, 1 << 53, (1 << 53) + 1, (1 << 53) + 2, (1 << 53) + 3, u64::MAX] {
        assert_eq!(f(Double::from_u64(n)), n as f64);
    }
    assert_eq!(f(Double::from_u64(9_007_199_254_740_993)), 9_007_199_254_740_992.0);
}

#[test]
fn the_larger_and_the_clamped() {
    assert_eq!(f(d(1.0).max(d(2.0))), 2.0);
    assert_eq!(f(d(f64::NAN).max(d(2.0))), 2.0);
    assert_eq!(f(d(2.0).max(d(f64::NAN))), 2.0);
    assert_eq!(f(d(-1.0).clamp(d(0.0), d(5.0))), 0.0);
    assert_eq!(f(d(9.0).clamp(d(0.0), d(5.0))), 5.0);
    assert_eq!(f(d(3.0).clamp(d(0.0), d(5.0))), 3.0);
    assert!(f(d(f64::NAN).clamp(d(0.0), d(5.0))).is_nan());
}

#[test]
fn the_named_numbers_are_what_they_say() {
    assert_eq!(f64::from_bits(ZERO), 0.0);
    assert_eq!(f64::from_bits(ONE), 1.0);
    assert_eq!(f64::from_bits(TWO), 2.0);
    assert_eq!(f64::from_bits(THREE), 3.0);
    assert_eq!(Double::default().to_bits(), 0);
}

#[test]
fn numbers_are_written_to_a_fixed_number_of_places() {
    for a in patterns() {
        let (x, p) = (f64::from_bits(a), Double::from_bits(a));
        assert_eq!(p.to_fixed(0), format!("{x:.0}"));
        assert_eq!(p.to_fixed(1), format!("{x:.1}"));
        assert_eq!(p.to_fixed(2), format!("{x:.2}"));
        assert_eq!(p.to_fixed(4), format!("{x:.4}"));
    }
    assert_eq!(d(0.5).to_fixed(0), "0");
    assert_eq!(d(1.5).to_fixed(0), "2");
    assert_eq!(d(2.5).to_fixed(0), "2");
    assert_eq!(d(0.125).to_fixed(2), "0.12");
    assert_eq!(d(-0.2).to_fixed(0), "-0");
    assert_eq!(d(37.9838).to_fixed(4), "37.9838");
    assert_eq!(d(1e22).to_fixed(1), "10000000000000000000000.0");
    assert_eq!(d(f64::NAN).to_fixed(2), "NaN");
    assert_eq!(d(f64::NEG_INFINITY).to_fixed(2), "-inf");
}

fn reads_like_the_standard_library(raw: &str) {
    let (ours, theirs) = (parse_real(raw), raw.parse::<f64>().ok());
    assert_eq!(ours.map(Double::to_bits), theirs.map(f64::to_bits), "{raw:?}");
}

#[test]
fn numbers_are_read_to_the_nearest_double() {
    for raw in [
        "0", "-0", "+0.0", "1", "37.9838", "23.7275", "0.1", "0.3", "-2.5", "1e3", "1E-3", "1e+3",
        ".5", "5.", "5.e1", "007.50", "9007199254740993", "9007199254740992.999", "4.9e-324",
        "2.4703282292062327e-324", "2.4703282292062328e-324", "2.2250738585072011e-308",
        "1.7976931348623157e308", "1.7976931348623158e308", "1.7976931348623159e308", "1e309",
        "1e-400", "123456789012345678901234567890e-20", "0.000000000000000000000000000001",
        "0e999999999999999999999", "1e999999999999999999999", "-1e-99999999999999999999",
        "1.00000000000000011102230246251565404236316680908203125",
        "1.00000000000000011102230246251565404236316680908203124",
        "1.00000000000000011102230246251565404236316680908203126",
    ] {
        reads_like_the_standard_library(raw);
    }
}

#[test]
fn infinities_and_nan_are_read_in_any_case() {
    for raw in ["inf", "-INF", "+Infinity", "nan", "-NaN", "infinit", "in", "na", "nan1", "inff"] {
        reads_like_the_standard_library(raw);
    }
}

#[test]
fn what_is_not_a_number_is_not_read() {
    for raw in [
        "", " ", "+", "-", ".", "-.", "e", "e5", ".e5", "1e", "1e+", "1e-", "1e1.5", "1.2.3", "--1",
        "+-1", "1 ", " 1", "1_000", "0x10", "1f", "1e5e5", "\u{663}", "1,5", "e.", "1e\u{663}",
    ] {
        reads_like_the_standard_library(raw);
    }
}

#[test]
fn what_is_written_out_reads_back() {
    for bits in patterns().into_iter().step_by(7) {
        let x = f64::from_bits(bits);
        if x.is_finite() {
            let raw = format!("{x:e}");
            let back = parse_real(&raw).expect("a number");
            assert_eq!(back.to_bits(), bits, "{raw}");
        }
    }
}
