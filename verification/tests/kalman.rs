use aether::double::Double;
use aether::kalman::{Innovation, Kf1D, LOOSE_PRIOR};

fn d(x: f64) -> Double {
    Double::from_bits(x.to_bits())
}

fn f(x: Double) -> f64 {
    f64::from_bits(x.to_bits())
}

fn filter(x0: f64, v0: f64, q: f64, r: f64) -> Kf1D {
    Kf1D::new(d(x0), d(v0), d(q), d(r))
}

#[test]
fn converges_on_a_constant_velocity_target() {
    // Truth: starts at 0, moves at 200 m/s. Measurements every second, 30 m noise,
    // deterministic sawtooth so the test cannot flake.
    let mut kf = filter(0.0, 0.0, 4.0, 900.0);
    let truth_v = 200.0;
    for step in 1..=60 {
        let t = step as f64;
        let noise = if step % 2 == 0 { 30.0 } else { -30.0 };
        kf.predict(d(1.0));
        kf.update(d(truth_v * t + noise));
    }
    assert!((f(kf.v) - truth_v).abs() < 10.0, "velocity estimate was {}", f(kf.v));
    assert!(
        f(kf.pos_sigma()) < 30.0,
        "position sigma did not shrink: {}",
        f(kf.pos_sigma())
    );
    assert!(
        f(kf.vel_sigma()) < 20.0,
        "velocity sigma did not shrink: {}",
        f(kf.vel_sigma())
    );
}

#[test]
fn uncertainty_grows_when_coasting() {
    let mut kf = filter(0.0, 100.0, 4.0, 900.0);
    kf.update(d(0.0));
    let before = f(kf.pos_sigma());
    kf.predict(d(30.0));
    assert!(f(kf.pos_sigma()) > before, "coasting must widen the error ellipse");
}

#[test]
fn gating_flags_an_implausible_jump() {
    let mut kf = filter(0.0, 0.0, 4.0, 900.0);
    for _ in 0..20 {
        kf.predict(d(1.0));
        kf.update(d(0.0));
    }
    // A 50 km jump on a stationary track is a decoded-garbage report, not a manoeuvre.
    assert!(f(kf.innovation(d(50_000.0)).sigma()) > 5.0);
    assert!(f(kf.innovation(d(40.0)).sigma()) < 5.0);
}

/// The same filter in hardware arithmetic.
fn step_in_hardware(k: [f64; 8], dt: f64, z: f64) -> [f64; 8] {
    let [x, v, p00, p01, p10, p11, q, r] = k;
    let x = x + v * dt;
    let a = p00 + dt * (p01 + p10) + dt * dt * p11 + q * (dt * dt * dt) / 3.0;
    let b = p01 + dt * p11 + q * (dt * dt) / 2.0;
    let c = p10 + dt * p11 + q * (dt * dt) / 2.0;
    let e = p11 + q * dt;
    let (y, s) = (z - x, a + r);
    let (k0, k1) = (a / s, c / s);
    [
        x + k0 * y,
        v + k1 * y,
        (1.0 - k0) * a,
        (1.0 - k0) * b,
        c - k1 * a,
        e - k1 * b,
        q,
        r,
    ]
}

#[test]
fn the_filter_agrees_with_hardware_to_the_last_bit() {
    let mut kf = filter(12.5, -3.0, 4.0, 900.0);
    let mut hw = [12.5, -3.0, 900.0, 0.0, 0.0, 250_000.0, 4.0, 900.0];
    for step in 0..50 {
        let (dt, z) = (0.3 + 0.1 * step as f64, 17.0 * step as f64 - 0.37);
        kf.predict(d(dt));
        kf.update(d(z));
        hw = step_in_hardware(hw, dt, z);
        let ours = [kf.x, kf.v, kf.p00, kf.p01, kf.p10, kf.p11, kf.q, kf.r];
        for (o, h) in ours.iter().zip(hw.iter()) {
            assert_eq!(o.to_bits(), h.to_bits(), "step {step}");
        }
    }
}

#[test]
fn a_step_back_in_time_changes_nothing() {
    for dt in [0.0, -0.0, -1.0, f64::NEG_INFINITY] {
        let mut kf = filter(1.0, 2.0, 4.0, 900.0);
        kf.predict(d(dt));
        assert_eq!((f(kf.x), f(kf.v), f(kf.p00), f(kf.p11)), (1.0, 2.0, 900.0, 250_000.0));
    }
}

#[test]
fn an_update_moves_half_way_between_equals() {
    // Position known to 900, measured to 900: the gain is one half.
    let mut kf = filter(0.0, 0.0, 4.0, 900.0);
    let innov = kf.update(d(100.0));
    assert_eq!((f(innov.y), f(innov.s)), (100.0, 1800.0));
    assert_eq!((f(kf.x), f(kf.p00)), (50.0, 450.0));
    assert_eq!(f(kf.pos_sigma()), 450f64.sqrt());
    assert_eq!(f(kf.vel_sigma()), 500.0);
}

#[test]
fn measuring_never_widens_an_uncertainty() {
    let mut kf = filter(0.0, 0.0, 4.0, 900.0);
    for step in 0..10 {
        kf.predict(d(2.0));
        let (pos, vel) = (f(kf.pos_sigma()), f(kf.vel_sigma()));
        kf.update(d(3.0 * step as f64));
        assert!(f(kf.pos_sigma()) <= pos && f(kf.vel_sigma()) <= vel);
        // And the filter stays well posed.
        for p in [kf.p00, kf.p01, kf.p10, kf.p11] {
            assert!(f(p) >= 0.0 && f(p).is_finite());
        }
    }
}

#[test]
fn coasting_longer_is_wider() {
    let mut kf = filter(0.0, 0.0, 4.0, 900.0);
    kf.predict(d(1.0));
    kf.update(d(10.0));
    let mut held = (f(kf.pos_sigma()), f(kf.vel_sigma()));
    for dt in [0.001, 0.1, 1.0, 1.5, 30.0, 600.0] {
        let mut k = kf;
        k.predict(d(dt));
        let wider = (f(k.pos_sigma()), f(k.vel_sigma()));
        assert!(held.0 <= wider.0 && held.1 <= wider.1);
        held = wider;
    }
}

#[test]
fn innovations_are_normalised_by_their_variance() {
    let innov = Innovation { y: d(-6.0), s: d(4.0) };
    assert_eq!(f(innov.nis()), 9.0);
    assert_eq!(f(innov.sigma()), 3.0);
}

#[test]
fn a_negative_variance_reads_as_certainty() {
    let mut kf = filter(0.0, 0.0, 4.0, 900.0);
    kf.p00 = d(-1.0);
    kf.p11 = d(f64::NAN);
    assert_eq!((f(kf.pos_sigma()), f(kf.vel_sigma())), (0.0, 0.0));
}

#[test]
fn the_velocity_prior_is_loose() {
    assert_eq!(f64::from_bits(LOOSE_PRIOR), 500.0 * 500.0);
}

/// A filter that has seen a few measurements.
fn seasoned() -> Kf1D {
    let mut kf = filter(0.0, 150.0, 4.0, 900.0);
    for step in 1..6 {
        kf.predict(d(2.0));
        kf.update(d(310.0 * step as f64));
    }
    kf
}

fn close(a: Kf1D, b: Kf1D) {
    for (x, y) in [(a.x, b.x), (a.v, b.v), (a.p00, b.p00), (a.p10, b.p10), (a.p11, b.p11)] {
        assert!((f(x) - f(y)).abs() <= 1e-9 * f(x).abs().max(1.0), "{} {}", f(x), f(y));
    }
}

#[test]
fn two_steps_make_one_but_for_rounding() {
    let (mut two, mut one) = (seasoned(), seasoned());
    two.predict(d(1.25));
    two.predict(d(3.5));
    one.predict(d(4.75));
    close(one, two);
}

#[test]
fn two_measurements_commute_but_for_rounding() {
    let (mut a, mut b) = (seasoned(), seasoned());
    a.update(d(1500.0));
    a.update(d(1700.0));
    b.update(d(1700.0));
    b.update(d(1500.0));
    close(a, b);
}

#[test]
fn a_measurement_is_weighed_against_the_estimate() {
    for z in [1000.0, 2500.0] {
        let mut kf = seasoned();
        let (x, p, r) = (f(kf.x), f(kf.p00), f(kf.r));
        kf.update(d(z));
        assert!(f(kf.x) > x.min(z) && f(kf.x) < x.max(z));
        assert!((f(kf.p00) - p * r / (p + r)).abs() < 1e-9 * p);
    }
}

#[test]
fn a_measurement_variance_lost_in_rounding_can_spoil_a_filter() {
    // The variance of velocity comes out a little below nought.
    let mut kf = filter(0.0, 0.0, 0.0, 1e-20);
    kf.predict(d(75.0));
    kf.update(d(0.0));
    assert!(f(kf.p11) < 0.0);
    assert_eq!(f(kf.vel_sigma()), 0.0);
}
