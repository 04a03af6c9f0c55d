use aether::clock::{Duration, Instant};
use aether::conjunction::pair_cpa;
use aether::double::Double;
use aether::ffi::{
    aether_cpa, cpa, AetherCpa, AetherState, AETHER_ERR_NAN, AETHER_ERR_NULL, AETHER_OK,
};
use aether::geo::{Enu, Geodetic, SinCos};
use aether::ingest::{Contact, Trig};
use aether::track::{Track, TrackView};

fn d(x: f64) -> Double {
    Double::from_bits(x.to_bits())
}

fn f(x: Double) -> f64 {
    f64::from_bits(x.to_bits())
}

fn state(e: f64, n: f64, u: f64, ve: f64, vn: f64, vu: f64) -> AetherState {
    AetherState { e: d(e), n: d(n), u: d(u), ve: d(ve), vn: d(vn), vu: d(vu) }
}

#[test]
fn head_on_pair_closes_at_the_midpoint() {
    // 20 km apart on the north axis, 100 m/s each toward the other.
    let a = state(0.0, 10_000.0, 0.0, 0.0, -100.0, 0.0);
    let b = state(0.0, -10_000.0, 0.0, 0.0, 100.0, 0.0);
    let r = cpa(&a, &b, d(300.0)).unwrap();
    assert!((f(r.t_cpa) - 100.0).abs() < 1e-6, "t_cpa {}", f(r.t_cpa));
    assert!(f(r.horiz_m) < 1e-6, "should pass through zero, got {}", f(r.horiz_m));
    assert!((f(r.closing_ms) - 200.0).abs() < 1e-6);
}

#[test]
fn a_past_approach_is_clamped_to_now() {
    // Already separating: the mathematical minimum is in the past.
    let a = state(0.0, 100.0, 0.0, 0.0, 100.0, 0.0);
    let b = state(0.0, -100.0, 0.0, 0.0, -100.0, 0.0);
    let r = cpa(&a, &b, d(300.0)).unwrap();
    assert_eq!(f(r.t_cpa), 0.0);
    assert!((f(r.horiz_m) - 200.0).abs() < 1e-6);
}

#[test]
fn co_velocity_pair_never_converges() {
    let a = state(0.0, 0.0, 0.0, 250.0, 0.0, 0.0);
    let b = state(5_000.0, 0.0, 0.0, 250.0, 0.0, 0.0);
    let r = cpa(&a, &b, d(300.0)).unwrap();
    assert_eq!(f(r.t_cpa), 0.0);
    assert!((f(r.horiz_m) - 5_000.0).abs() < 1e-6);
    assert_eq!(f(r.closing_ms), 0.0);
}

#[test]
fn vertical_separation_is_reported_separately() {
    let a = state(0.0, 10_000.0, 3_000.0, 0.0, -100.0, 0.0);
    let b = state(0.0, -10_000.0, 3_400.0, 0.0, 100.0, 0.0);
    let r = cpa(&a, &b, d(300.0)).unwrap();
    assert!(f(r.horiz_m) < 1e-6);
    assert!((f(r.vert_m) - 400.0).abs() < 1e-6);
}

#[test]
fn null_pointers_are_reported_not_dereferenced() {
    let s = state(0.0, 0.0, 0.0, 0.0, 0.0, 0.0);
    let mut out = AetherCpa::default();
    assert_eq!(aether_cpa(None, Some(&s), d(60.0), Some(&mut out)), AETHER_ERR_NULL);
    assert_eq!(aether_cpa(Some(&s), None, d(60.0), Some(&mut out)), AETHER_ERR_NULL);
    assert_eq!(aether_cpa(Some(&s), Some(&s), d(60.0), None), AETHER_ERR_NULL);
}

#[test]
fn nan_input_is_rejected_rather_than_propagated() {
    let good = state(0.0, 0.0, 0.0, 0.0, 0.0, 0.0);
    let bad = state(f64::NAN, 0.0, 0.0, 0.0, 0.0, 0.0);
    let mut out = AetherCpa::default();
    assert_eq!(aether_cpa(Some(&good), Some(&bad), d(60.0), Some(&mut out)), AETHER_ERR_NAN);
    assert_eq!(aether_cpa(Some(&good), Some(&good), d(f64::NAN), Some(&mut out)), AETHER_ERR_NAN);
    // out must be untouched on the error path.
    assert_eq!(f(out.t_cpa), 0.0);
}

#[test]
fn ffi_call_succeeds_through_the_real_entry_point() {
    let a = state(0.0, 10_000.0, 0.0, 0.0, -100.0, 0.0);
    let b = state(0.0, -10_000.0, 0.0, 0.0, 100.0, 0.0);
    let mut out = AetherCpa::default();
    let rc = aether_cpa(Some(&a), Some(&b), d(300.0), Some(&mut out));
    assert_eq!(rc, AETHER_OK);
    assert!((f(out.t_cpa) - 100.0).abs() < 1e-6);
}

#[test]
fn an_answer_is_left_alone_on_every_error() {
    let s = state(1.0, 2.0, 3.0, 4.0, 5.0, 6.0);
    let far = state(f64::MAX, 2.0, 3.0, 4.0, 5.0, 6.0);
    let farther = state(-f64::MAX, 2.0, 3.0, 4.0, 5.0, 6.0);
    let held = AetherCpa { t_cpa: d(7.0), horiz_m: d(8.0), vert_m: d(9.0), closing_ms: d(10.0) };
    let mut out = held;
    let codes = [
        aether_cpa(None, None, d(60.0), Some(&mut out)),
        aether_cpa(Some(&s), Some(&s), d(-1.0), Some(&mut out)),
        aether_cpa(Some(&s), Some(&s), d(f64::INFINITY), Some(&mut out)),
        // Each state is finite, their difference is not.
        aether_cpa(Some(&far), Some(&farther), d(60.0), Some(&mut out)),
    ];
    assert_eq!(codes, [AETHER_ERR_NULL, AETHER_ERR_NAN, AETHER_ERR_NAN, AETHER_ERR_NAN]);
    assert_eq!((f(out.t_cpa), f(out.horiz_m)), (7.0, 8.0));
    assert_eq!((f(out.vert_m), f(out.closing_ms)), (9.0, 10.0));
    // A horizon of nought is a horizon.
    assert_eq!(aether_cpa(Some(&s), Some(&s), d(-0.0), Some(&mut out)), AETHER_OK);
    assert_eq!(f(out.horiz_m), 0.0);
}

#[test]
fn the_codes_are_those_of_the_header() {
    assert_eq!((AETHER_OK, AETHER_ERR_NULL, AETHER_ERR_NAN), (0, -1, -2));
}

#[test]
fn the_screen_and_the_boundary_agree() {
    let zero = SinCos { sin: d(0.0), cos: d(1.0) };
    let c = Contact {
        id: "a".into(),
        label: "a".into(),
        kind: String::new(),
        squawk: String::new(),
        emergency: false,
        on_ground: false,
        geo: Geodetic { lat_deg: d(0.0), lon_deg: d(0.0), alt_m: d(0.0) },
        gs_kt: None,
        track_deg: None,
        vrate_fpm: None,
        age_s: d(0.0),
        source: "TEST",
        trig: Trig { lat: zero, lon: zero, track: zero },
    };
    let t = Track::new(&c, Enu::default(), Instant::at(Duration::zero()), d(4.0), d(900.0));
    let view = |s: &AetherState| TrackView {
        pos: Enu { e: s.e, n: s.n, u: s.u },
        vel: Enu { e: s.ve, n: s.vn, u: s.vu },
        pos_sigma: d(1.0),
        coast_s: d(0.0),
    };
    let a = state(100.3, 10_000.1, 50.0, 1.5, -100.2, 0.25);
    let b = state(-30.7, -10_000.9, 20.0, 0.5, 100.7, -0.75);
    let alert = pair_cpa(&t, view(&a), &t, view(&b), d(300.0), d(9260.0), d(305.0)).unwrap();
    let r = cpa(&a, &b, d(300.0)).unwrap();
    assert_eq!((alert.t_cpa, alert.horiz_m), (r.t_cpa, r.horiz_m));
    assert_eq!((alert.vert_m, alert.closing_ms), (r.vert_m, r.closing_ms));
}

#[test]
fn the_order_of_two_states_does_not_matter() {
    let a = state(100.3, 10_000.1, 50.0, 1.5, -100.2, 0.25);
    let b = state(-30.7, -10_000.9, 20.0, 0.5, 100.7, -0.75);
    for horizon in [0.0, 10.0, 300.0] {
        let (r, s) = (cpa(&a, &b, d(horizon)).unwrap(), cpa(&b, &a, d(horizon)).unwrap());
        assert_eq!((r.t_cpa, r.horiz_m), (s.t_cpa, s.horiz_m));
        assert_eq!((r.vert_m, r.closing_ms), (s.vert_m, s.closing_ms));
    }
}
