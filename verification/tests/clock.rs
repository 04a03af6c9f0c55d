use aether::clock::{
    age_after, to_nanos, to_seconds, Duration, Instant, AGE_LIMIT, EXACT_LIMIT, NANOS_PER_MILLI,
    NANOS_PER_SEC, SPAN_LIMIT,
};
use aether::double::Double;

fn seconds(d: Duration) -> f64 {
    f64::from_bits(d.as_seconds().to_bits())
}

#[test]
fn spans_in_seconds_are_rounded_once() {
    let cases = [
        (0, 0, 0.0),
        (0, 1, 0.000_000_001),
        (0, 300_000_000, 0.3),
        (1, 500_000_000, 1.5),
        (86_400, 123_456_789, 86_400.123_456_789),
        (9_007_199_254_740_993, 999_999_999, 9_007_199_254_740_993.999_999_999),
        (u64::MAX, 999_999_999, 18_446_744_073_709_551_615.999_999_999),
    ];
    for (secs, nanos, expected) in cases {
        assert_eq!(seconds(Duration::new(secs, nanos)), expected);
        assert_eq!(Duration::new(secs, nanos).as_secs(), secs);
    }
    assert_eq!(seconds(Duration::from_millis(200)), 0.2);
    assert_eq!(seconds(Duration::from_secs(45)), 45.0);
}

#[test]
fn ages_are_read_to_the_nanosecond() {
    let nanos = |x: f64| to_nanos(Double::from_bits(x.to_bits()));
    assert_eq!(nanos(0.1), 100_000_000);
    assert_eq!(nanos(0.3), 300_000_000);
    assert_eq!(nanos(2.5), 2_500_000_000);
    assert_eq!(nanos(59.999_999_999), 59_999_999_999);
    assert_eq!(nanos(-1.5), -1_500_000_000);
    assert_eq!((nanos(-0.0), nanos(f64::NAN)), (0, 0));
    assert_eq!((nanos(f64::INFINITY), nanos(-1e300)), (AGE_LIMIT, -AGE_LIMIT));
    let there = to_seconds(-1_500_000_000);
    assert_eq!(f64::from_bits(there.to_bits()), -1.5);
    for n in [0i128, 1, 123_456_789_012_345, EXACT_LIMIT as i128] {
        assert_eq!(to_nanos(to_seconds(n)), n);
    }
}

#[test]
fn an_age_and_the_time_that_went_by_add_up() {
    let after = |age: f64, nanos: i128| {
        let age = Double::from_bits(age.to_bits());
        f64::from_bits(age_after(age, nanos).to_bits())
    };
    assert_eq!(after(0.1, 200_000_000), 0.3, "in whole nanoseconds");
    assert_eq!(after(2.5, -1_000_000_000), 1.5);
    let fine = 1.5 / 2f64.powi(31);
    assert_eq!(after(fine, 1), 1e-9 + fine, "as it is");
    for age in [0.0, 0.1, fine, 60.0, 1e-300, 1e300, -3.25] {
        assert_eq!(after(age, 0), age);
    }
    assert_eq!(after(-0.0, 0).to_bits(), 0f64.to_bits());
    assert_eq!(after(f64::INFINITY, 5), f64::INFINITY);
    assert!(after(f64::NAN, 5).is_nan());
}

#[test]
fn spans_add_up_and_divide() {
    let (a, b) = (Duration::from_millis(1500), Duration::from_secs(2));
    assert_eq!(a.plus(b), Duration::from_millis(3500));
    assert_eq!(a.max(b), b);
    assert_eq!(b.max(a), b);
    assert_eq!(Duration::from_millis(10).split(3), Duration::new(0, 3_333_333));
    assert_eq!(Duration::zero(), Duration::from_secs(0));
}

#[test]
fn time_does_not_run_backwards() {
    let earlier = Instant::at(Duration::from_secs(10));
    let later = earlier.after(Duration::from_millis(2500));
    assert_eq!(later.saturating_duration_since(earlier), Duration::from_millis(2500));
    assert_eq!(earlier.saturating_duration_since(later), Duration::zero());
    assert_eq!(later.nanos_since(earlier), 2_500_000_000);
    assert_eq!(earlier.nanos_since(later), -2_500_000_000);
}

#[test]
fn the_units_of_time_are_what_they_say() {
    assert_eq!(AGE_LIMIT, (1i128 << 52) * 1_000_000_000);
    assert_eq!(EXACT_LIMIT, 1 << 50);
    assert_eq!((NANOS_PER_SEC, NANOS_PER_MILLI), (1_000_000_000, 1_000_000));
    assert_eq!(SPAN_LIMIT, (1u128 << 64) * 1_000_000_000);
}
