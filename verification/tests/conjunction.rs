use aether::approach::PARALLEL;
use aether::clock::{Duration, Instant};
use aether::conjunction::{pair_cpa, screen, Conjunction};
use aether::double::Double;
use aether::geo::{Enu, Frame, Geodetic, SinCos};
use aether::ingest::{Contact, Trig};
use aether::render::THOUSAND;
use aether::track::{Track, TrackStore, TrackView};

fn d(x: f64) -> Double {
    Double::from_bits(x.to_bits())
}

fn f(x: Double) -> f64 {
    f64::from_bits(x.to_bits())
}

fn turn(rad: Double) -> SinCos {
    let (sin, cos) = f(rad).sin_cos();
    SinCos { sin: d(sin), cos: d(cos) }
}

fn frame() -> Frame {
    let site = Geodetic { lat_deg: d(37.9838), lon_deg: d(23.7275), alt_m: d(0.0) };
    let (lat, lon) = site.angles();
    Frame::new(site, turn(lat), turn(lon))
}

fn store() -> TrackStore {
    TrackStore::new(d(4.0), d(900.0), d(5.0))
}

fn at(secs: u64) -> Instant {
    Instant::at(Duration::from_secs(1000 + secs))
}

fn plot(id: &str, lat: f64, lon: f64, alt_m: f64) -> Contact {
    let geo = Geodetic { lat_deg: d(lat), lon_deg: d(lon), alt_m: d(alt_m) };
    let (lat, lon) = geo.angles();
    Contact {
        id: id.into(),
        label: id.into(),
        kind: "TEST".into(),
        squawk: String::new(),
        emergency: false,
        on_ground: false,
        geo,
        gs_kt: None,
        track_deg: None,
        vrate_fpm: None,
        age_s: d(0.0),
        source: "TEST",
        trig: Trig { lat: turn(lat), lon: turn(lon), track: turn(d(0.0)) },
    }
}

fn screened(store: &TrackStore, now: Instant) -> Vec<Conjunction> {
    screen(store, now, d(300.0), d(9260.0), d(305.0))
}

/// Two aircraft closing head-on at the same altitude, twelve steps of one second.
/// `south_reports` is how many of those steps the southern aircraft is heard for, so a
/// test can leave one track coasting. Returns the store and the instant to screen it at.
fn head_on(alt_a: f64, alt_b: f64, south_reports: u64) -> (TrackStore, Instant) {
    let (mut store, fr) = (store(), frame());
    for step in 0..12 {
        let s = step as f64;
        let mut batch = vec![plot("north", 38.20 - 0.0018 * s, 23.7275, alt_a)];
        if step < south_reports {
            batch.push(plot("south", 37.80 + 0.0018 * s, 23.7275, alt_b));
        }
        store.ingest(&batch, &fr, at(step));
    }
    (store, at(11))
}

#[test]
fn detects_a_head_on_conflict() {
    let (store, now) = head_on(10_000.0, 10_000.0, 12);
    let alerts = screened(&store, now);
    assert_eq!(alerts.len(), 1, "expected exactly one conflicting pair");
    let c = &alerts[0];
    assert!(f(c.t_cpa) > 0.0 && f(c.t_cpa) < 300.0, "t_cpa was {}", f(c.t_cpa));
    assert!(f(c.horiz_m) < 9260.0);
    assert!(f(c.closing_ms) > 300.0, "closing speed was {}", f(c.closing_ms));
}

#[test]
fn vertical_separation_clears_the_same_geometry() {
    // Identical horizontal conflict, but 2000 ft apart: legal, and not an alert.
    let (store, now) = head_on(10_000.0, 10_610.0, 12);
    assert!(screened(&store, now).is_empty());
}

#[test]
fn tracks_heard_at_different_times_are_compared_at_one_instant() {
    // The southern aircraft goes quiet after 6 s, so at screening time the two filters
    // are valid for instants 6 s apart. The screen must still find the conflict, and must
    // widen the pair's uncertainty to admit that half of it is six seconds of
    // extrapolation rather than evidence.
    let (fresh, at_fresh) = head_on(10_000.0, 10_000.0, 12);
    let (coasting, at_coast) = head_on(10_000.0, 10_000.0, 6);

    let a = screened(&fresh, at_fresh);
    let b = screened(&coasting, at_coast);

    assert_eq!(b.len(), 1, "a coasting track must still be screened");
    assert!(
        f(b[0].sigma_m) > f(a[0].sigma_m) * 1.5,
        "coasting must widen the pair uncertainty: {} vs {}",
        f(a[0].sigma_m),
        f(b[0].sigma_m)
    );
}

#[test]
fn parallel_tracks_do_not_alert() {
    let (mut store, fr) = (store(), frame());
    for step in 0..12 {
        let s = step as f64;
        store.ingest(
            &[
                plot("left", 38.0 + 0.0018 * s, 23.60, 10_000.0),
                plot("right", 38.0 + 0.0018 * s, 23.90, 10_000.0),
            ],
            &fr,
            at(step),
        );
    }
    assert!(screen(&store, at(11), d(300.0), d(9260.0), d(305.0)).is_empty());
}

/// Two tracks moving apart, `deg_apart` degrees of latitude between them at t0. Returns
/// the store and the instant to screen it at.
fn receding(deg_apart: f64) -> (TrackStore, Instant) {
    let (mut store, fr) = (store(), frame());
    let half = deg_apart / 2.0;
    for step in 0..12 {
        let s = step as f64;
        store.ingest(
            &[
                plot("up", 37.9838 + half + 0.0018 * s, 23.7275, 10_000.0),
                plot("down", 37.9838 - half - 0.0018 * s, 23.7275, 10_000.0),
            ],
            &fr,
            at(step),
        );
    }
    (store, at(11))
}

#[test]
fn a_receding_pair_is_not_a_warning() {
    // ~22 km apart and opening. The quadratic minimum is in the past, and clamping to
    // t=0 must not resurrect it as a future conflict.
    let (store, now) = receding(0.20);
    let alerts = screened(&store, now);
    assert!(alerts.is_empty(), "separating traffic outside the minima must be quiet");
}

#[test]
fn a_current_violation_alerts_even_while_separating() {
    // Deliberate, not incidental: 5 NM at the same level is a loss of separation now.
    // That it is opening rather than closing does not un-lose it, and an operator still
    // has to see it. t_cpa reads 0 because now is the worst moment.
    let (store, now) = receding(0.01);
    let alerts = screened(&store, now);
    assert_eq!(alerts.len(), 1);
    assert_eq!(f(alerts[0].t_cpa), 0.0, "the closest approach is the present");
    assert!(f(alerts[0].horiz_m) < 9260.0);
}

#[test]
fn unfirm_tracks_are_excluded() {
    let (mut store, fr) = (store(), frame());
    store.ingest(
        &[plot("a", 38.0, 23.7275, 10_000.0), plot("b", 38.001, 23.7275, 10_000.0)],
        &fr,
        at(0),
    );
    assert!(screened(&store, at(0)).is_empty());
}

fn track(id: &str) -> Track {
    let c = plot(id, 38.0, 23.7275, 10_000.0);
    Track::new(&c, Enu::default(), at(0), d(4.0), d(900.0))
}

fn view(pos: [f64; 3], vel: [f64; 3], sigma: f64) -> TrackView {
    TrackView {
        pos: Enu { e: d(pos[0]), n: d(pos[1]), u: d(pos[2]) },
        vel: Enu { e: d(vel[0]), n: d(vel[1]), u: d(vel[2]) },
        pos_sigma: d(sigma),
        coast_s: d(0.0),
    }
}

fn pair(av: TrackView, bv: TrackView) -> Option<Conjunction> {
    pair_cpa(&track("a"), av, &track("b"), bv, d(300.0), d(9260.0), d(305.0))
}

#[test]
fn a_pair_meets_when_and_where_the_closed_form_says() {
    let av = view([0.0, 10_000.0, 100.0], [0.0, -100.0, 0.0], 30.0);
    let bv = view([0.0, -10_000.0, 0.0], [0.0, 100.0, 0.0], 40.0);
    let c = pair(av, bv).unwrap();
    assert_eq!(f(c.t_cpa), 100.0);
    assert_eq!((f(c.horiz_m), f(c.vert_m)), (0.0, 100.0));
    assert_eq!((f(c.closing_ms), f(c.sigma_m)), (200.0, 50.0));
    assert_eq!((c.a.as_str(), c.b.as_str()), ("a", "b"));
    assert_eq!((c.label_a.as_str(), c.label_b.as_str()), ("a", "b"));
}

#[test]
fn the_order_of_a_pair_does_not_matter() {
    let av = view([120.5, 10_000.0, 100.0], [3.0, -100.0, 0.5], 30.0);
    let bv = view([0.0, -10_000.0, 0.0], [0.0, 100.0, 0.0], 40.0);
    let (c, e) = (pair(av, bv).unwrap(), pair(bv, av).unwrap());
    assert_eq!(c.t_cpa, e.t_cpa);
    assert_eq!(c.horiz_m, e.horiz_m);
    assert_eq!(c.vert_m, e.vert_m);
    assert_eq!(c.closing_ms, e.closing_ms);
    assert_eq!(c.sigma_m, e.sigma_m);
}

#[test]
fn a_pair_that_keeps_its_distance_is_judged_now() {
    let av = view([0.0, 0.0, 0.0], [250.0, 0.0, 0.0], 10.0);
    let near = view([5_000.0, 0.0, 200.0], [250.0, 0.0, 0.0], 10.0);
    let c = pair(av, near).unwrap();
    assert_eq!((f(c.t_cpa), f(c.horiz_m), f(c.vert_m)), (0.0, 5_000.0, 200.0));
    let above = view([5_000.0, 0.0, 305.0], [250.0, 0.0, 0.0], 10.0);
    assert!(pair(av, above).is_none(), "the minimum itself is legal");
}

#[test]
fn a_pair_inside_both_minima_alerts_whatever_the_slant_range() {
    // 9264 m apart along the slant and not closing, but inside both minima.
    let av = view([9_259.0, 0.0, 300.0], [250.0, 0.0, 0.0], 30.0);
    let bv = view([0.0, 0.0, 0.0], [250.0, 0.0, 0.0], 40.0);
    let c = pair(av, bv).unwrap();
    assert_eq!((f(c.t_cpa), f(c.horiz_m), f(c.vert_m)), (0.0, 9_259.0, 300.0));
    assert_eq!((f(c.sigma_m), f(c.closing_ms)), (50.0, 0.0));
}

#[test]
fn a_pair_inside_now_alerts_though_its_closest_approach_is_outside() {
    // Closest after 144 s, 4320 m below by then; but inside both minima now.
    let av = view([9_000.0, 0.0, 0.0], [-40.0, 0.0, -30.0], 10.0);
    let bv = view([0.0, 0.0, 0.0], [0.0, 0.0, 0.0], 10.0);
    let c = pair(av, bv).unwrap();
    assert_eq!((f(c.t_cpa), f(c.horiz_m), f(c.vert_m)), (0.0, 9_000.0, 0.0));
    assert_eq!(f(c.closing_ms), 50.0);
}

#[test]
fn a_pair_that_passes_through_the_minima_alerts_at_the_first_moment_inside() {
    // Horizontally inside from 6 s on, vertically until a little after 10 s.
    let bv = view([0.0, 0.0, 0.0], [0.0, 0.0, 0.0], 10.0);
    let av = view([9_500.0, 0.0, 0.0], [-40.0, 0.0, -30.0], 10.0);
    let c = pair(av, bv).unwrap();
    assert!(f(c.t_cpa) > 6.0 && f(c.t_cpa) < 6.000_001, "t was {}", f(c.t_cpa));
    assert!(f(c.horiz_m) < 9_260.0 && f(c.vert_m) < 305.0);
    let other = pair(bv, av).unwrap();
    assert_eq!((other.t_cpa, other.horiz_m), (c.t_cpa, c.horiz_m));
    // An oblique path, with the same outcome: the moment before is outside.
    let av = view([7_000.0, 7_000.0, 0.0], [-30.0, -29.0, -10.0], 10.0);
    let c = pair(av, bv).unwrap();
    let apart = |t: f64| (7_000.0 - 30.0 * t).hypot(7_000.0 - 29.0 * t);
    assert!(apart(f(c.t_cpa)) < 9_260.0 && apart(f(c.t_cpa) - 1e-9) >= 9_260.0);
    // Horizontally inside after 11 s, when it is already too far below.
    let av = view([9_700.0, 0.0, 0.0], [-40.0, 0.0, -30.0], 10.0);
    assert!(pair(av, bv).is_none());
}

#[test]
fn a_pair_that_grazes_the_minima_does_not_alert() {
    let bv = view([0.0, 0.0, 0.0], [0.0, 0.0, 0.0], 10.0);
    let av = view([-10_000.0, 9_260.0, 0.0], [200.0, 0.0, 0.0], 10.0);
    assert!(pair(av, bv).is_none());
    // A metre outside, on an oblique path.
    let (off, back) = (9_261.0 / 2f64.sqrt(), 10_000.0 / 2f64.sqrt());
    let av = view([off - back, off + back, 0.0], [150.0, -150.0, 0.0], 10.0);
    assert!(pair(av, bv).is_none());
}

#[test]
fn a_pair_without_numbers_does_not_alert() {
    let bv = view([0.0, 0.0, 0.0], [0.0, 0.0, 0.0], 10.0);
    for bad in [f64::NAN, f64::INFINITY, f64::NEG_INFINITY] {
        assert!(pair(view([bad, 0.0, 0.0], [0.0, 0.0, 0.0], 10.0), bv).is_none());
        assert!(pair(view([0.0, 0.0, 0.0], [0.0, 0.0, bad], 10.0), bv).is_none());
    }
}

#[test]
fn a_horizon_that_makes_no_sense_leaves_the_present() {
    let near = view([5_000.0, 0.0, 0.0], [-100.0, 0.0, 0.0], 10.0);
    let far = view([20_000.0, 0.0, 0.0], [-100.0, 0.0, 0.0], 10.0);
    let bv = view([0.0, 0.0, 0.0], [0.0, 0.0, 0.0], 10.0);
    let (a, b) = (track("a"), track("b"));
    for horizon in [-1.0, f64::NAN, 0.0] {
        let held = |av| pair_cpa(&a, av, &b, bv, d(horizon), d(9260.0), d(305.0));
        assert_eq!(held(near).map(|c| (f(c.t_cpa), f(c.horiz_m))), Some((0.0, 5_000.0)));
        assert!(held(far).is_none());
    }
}

#[test]
fn an_approach_beyond_the_horizon_is_not_an_alert() {
    let av = view([0.0, 40_000.0, 0.0], [0.0, -100.0, 0.0], 10.0);
    let bv = view([0.0, -40_000.0, 0.0], [0.0, 100.0, 0.0], 10.0);
    // 400 s away; at the 300 s horizon 20 km still lie between them.
    assert!(pair(av, bv).is_none());
}

#[test]
fn alerts_are_listed_by_severity() {
    let (mut store, fr) = (store(), frame());
    for step in 0..12 {
        let s = step as f64;
        store.ingest(
            &[
                plot("far_n", 38.30 - 0.0018 * s, 23.0, 10_000.0),
                plot("far_s", 37.80 + 0.0018 * s, 23.0, 10_000.0),
                plot("near_n", 38.10 - 0.0018 * s, 24.5, 8_000.0),
                plot("near_s", 37.90 + 0.0018 * s, 24.5, 8_000.0),
                plot("now_a", 36.0, 23.7, 6_000.0),
                plot("now_b", 36.01, 23.7, 6_000.0),
            ],
            &fr,
            at(step),
        );
    }
    let alerts = screened(&store, at(11));
    let ids: Vec<&str> = alerts.iter().map(|c| c.a.as_str()).collect();
    assert_eq!(ids, ["now_a", "near_n", "far_n"]);
    for w in alerts.windows(2) {
        assert!(f(w[0].t_cpa) < f(w[1].t_cpa));
    }
}

fn alert(t_cpa: f64, horiz_m: f64) -> Conjunction {
    Conjunction {
        a: "a".into(),
        b: "b".into(),
        label_a: "a".into(),
        label_b: "b".into(),
        t_cpa: d(t_cpa),
        horiz_m: d(horiz_m),
        vert_m: d(0.0),
        sigma_m: d(0.0),
        closing_ms: d(0.0),
    }
}

#[test]
fn soonest_comes_first_and_then_tightest() {
    assert!(alert(0.0, 9_000.0).rank() < alert(5.0, 0.0).rank());
    assert!(alert(5.0, 0.0).rank() < alert(5.0, 1.0).rank());
    assert!(alert(5.0, 9_000.0).rank() < alert(5.000_000_1, 0.0).rank());
    assert_eq!(alert(-0.0, 3.0).rank(), alert(0.0, 3.0).rank());
}

#[test]
fn firm_tracks_on_the_ground_are_screened() {
    let (mut store, fr) = (store(), frame());
    for step in 0..6 {
        let mut b = plot("b", 38.001, 23.7275, 0.0);
        b.on_ground = true;
        store.ingest(&[plot("a", 38.0, 23.7275, 0.0), b], &fr, at(step));
    }
    let alerts = screened(&store, at(6));
    assert_eq!(alerts.len(), 1);
    assert_eq!((alerts[0].a.as_str(), alerts[0].b.as_str()), ("a", "b"));
}

#[test]
fn the_screening_constants_are_what_they_say() {
    assert_eq!(f64::from_bits(PARALLEL), 1e-9);
    assert_eq!(f64::from_bits(THOUSAND), 1000.0);
}
