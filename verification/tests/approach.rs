use aether::approach::{approach_time, is_inside, moment_inside};
use aether::conjunction::Minima;
use aether::double::Double;
use aether::geo::Enu;

fn d(x: f64) -> Double {
    Double::from_bits(x.to_bits())
}

fn f(x: Double) -> f64 {
    f64::from_bits(x.to_bits())
}

fn enu(e: f64, n: f64, u: f64) -> Enu {
    Enu { e: d(e), n: d(n), u: d(u) }
}

fn minima(horizon: f64) -> Minima {
    Minima { horizon_s: d(horizon), min_horiz_m: d(9260.0), min_vert_m: d(305.0) }
}

#[test]
fn the_time_of_approach_minimises_separation() {
    let cases = [
        ([3_000.0, -8_000.0, 200.0], [-100.0, 80.0, -1.0]),
        ([20_000.0, 1_000.0, -500.0], [-230.0, 12.0, 3.0]),
    ];
    for (p, v) in cases {
        let t = f(approach_time(enu(p[0], p[1], p[2]), enu(v[0], v[1], v[2]), d(300.0)));
        let apart = |t: f64| (0..3).map(|i| (p[i] + v[i] * t).powi(2)).sum::<f64>();
        for step in [0.001, 1.0, 10.0] {
            assert!(apart(t) < apart(t - step) && apart(t) < apart(t + step));
        }
    }
}

#[test]
fn the_time_of_approach_stays_between_now_and_the_horizon() {
    let (dp, dv) = (enu(10_000.0, 0.0, 0.0), enu(-100.0, 0.0, 0.0));
    assert_eq!(f(approach_time(dp, dv, d(300.0))), 100.0);
    assert_eq!(f(approach_time(dp, dv, d(60.0))), 60.0);
    assert_eq!(f(approach_time(dp, enu(100.0, 0.0, 0.0), d(60.0))), 0.0);
    assert_eq!(f(approach_time(dp, enu(0.0, 1e-5, 0.0), d(60.0))), 0.0, "as good as parallel");
    assert_eq!(f(approach_time(dp, dv, d(-1.0))), 0.0);
    assert_eq!(f(approach_time(dp, dv, d(f64::NAN))), 0.0);
}

#[test]
fn the_minima_themselves_are_outside() {
    let m = minima(300.0);
    assert!(is_inside(enu(9259.0, 0.0, -304.0), &m));
    assert!(!is_inside(enu(9260.0, 0.0, 0.0), &m));
    assert!(!is_inside(enu(0.0, 0.0, 305.0), &m));
    assert!(!is_inside(enu(f64::NAN, 0.0, 0.0), &m));
}

#[test]
fn a_moment_is_found_exactly_where_there_is_one() {
    // Straight down through the level of another, 5 km to the side.
    let (dp, dv) = (enu(5_000.0, 0.0, 2_305.0), enu(30.0, 0.0, -10.0));
    // Vertically inside after 200 s; by then 11 km to the side.
    assert!(moment_inside(dp, dv, &minima(300.0)).is_none());
    let slower = enu(10.0, 0.0, -10.0);
    let t = f(moment_inside(dp, slower, &minima(300.0)).unwrap());
    assert!(t > 200.0 && t < 200.000_001, "t was {t}");
    assert!(moment_inside(dp, slower, &minima(200.0)).is_none(), "not by then");
    assert!(moment_inside(dp, slower, &minima(f64::INFINITY)).is_some());
}

#[test]
fn the_first_moment_inside_is_the_first_double() {
    let m = minima(300.0);
    let (dp, dv) = (enu(9_500.0, 0.0, 0.0), enu(-40.0, 0.0, -30.0));
    let t = moment_inside(dp, dv, &m).unwrap();
    let before = Double::from_bits(t.to_bits() - 1);
    assert!(is_inside(dp + dv * t, &m));
    assert!(!is_inside(dp + dv * before, &m));
}
