use aether::clock::{Duration, Instant};
use aether::double::Double;
use aether::geo::{Frame, Geodetic, SinCos};
use aether::ingest::{Contact, Trig};
use aether::track::{IngestReport, Outcome, Track, TrackStore, FIRM_AFTER};

fn d(x: f64) -> Double {
    Double::from_bits(x.to_bits())
}

fn f(x: Double) -> f64 {
    f64::from_bits(x.to_bits())
}

fn turn(rad: Double) -> SinCos {
    let (sin, cos) = f(rad).sin_cos();
    SinCos { sin: d(sin), cos: d(cos) }
}

fn frame() -> Frame {
    let site = Geodetic { lat_deg: d(37.9838), lon_deg: d(23.7275), alt_m: d(0.0) };
    let (lat, lon) = site.angles();
    Frame::new(site, turn(lat), turn(lon))
}

fn store() -> TrackStore {
    TrackStore::new(d(4.0), d(900.0), d(5.0))
}

/// A moment with a past: the clock has been running for a thousand seconds.
fn start() -> Instant {
    Instant::at(Duration::from_secs(1000))
}

fn later(t: Instant, secs: u64) -> Instant {
    t.after(Duration::from_secs(secs))
}

fn contact(id: &str, lat: f64, lon: f64, alt_m: f64) -> Contact {
    let geo = Geodetic { lat_deg: d(lat), lon_deg: d(lon), alt_m: d(alt_m) };
    let (lat, lon) = geo.angles();
    Contact {
        id: id.into(),
        label: id.into(),
        kind: "TEST".into(),
        squawk: String::new(),
        emergency: false,
        on_ground: false,
        geo,
        gs_kt: Some(d(400.0)),
        track_deg: Some(d(0.0)),
        vrate_fpm: Some(d(0.0)),
        age_s: d(0.0),
        source: "TEST",
        trig: Trig { lat: turn(lat), lon: turn(lon), track: turn(d(0.0)) },
    }
}

/// Same contact, but the feed says the position was already `age` seconds old.
fn aged(id: &str, lat: f64, lon: f64, alt_m: f64, age: f64) -> Contact {
    Contact { age_s: d(age), ..contact(id, lat, lon, alt_m) }
}

fn heading(t: &Track) -> f64 {
    let v = t.velocity();
    f(t.heading_deg(d(f(v.e).atan2(f(v.n)))))
}

#[test]
fn same_id_updates_rather_than_duplicates() {
    let (mut store, fr, now) = (store(), frame(), start());
    store.ingest(&[contact("aaa", 38.0, 23.7, 10_000.0)], &fr, now);
    store.ingest(&[contact("aaa", 38.01, 23.7, 10_000.0)], &fr, later(now, 1));
    assert_eq!(store.len(), 1);
    assert_eq!(store.get("aaa").unwrap().updates, 2);
}

#[test]
fn tracks_a_northbound_target_and_recovers_its_velocity() {
    let (mut store, fr, start) = (store(), frame(), start());
    // ~0.0018 deg of latitude per second is about 200 m/s northbound.
    for step in 0..25 {
        let lat = 38.0 + 0.0018 * step as f64;
        store.ingest(&[contact("bbb", lat, 23.7, 10_000.0)], &fr, later(start, step));
    }
    let t = store.get("bbb").unwrap();
    assert!(t.is_firm());
    assert!((f(t.velocity().n) - 200.0).abs() < 25.0, "vn was {}", f(t.velocity().n));
    assert!(heading(t) < 5.0 || heading(t) > 355.0, "hdg {}", heading(t));
}

#[test]
fn a_teleporting_plot_is_gated_out() {
    let (mut store, fr, start) = (store(), frame(), start());
    for step in 0..10 {
        store.ingest(&[contact("ccc", 38.0, 23.7, 10_000.0)], &fr, later(start, step));
    }
    let held = store.get("ccc").unwrap().position();
    // Same aircraft, suddenly 600 km away one second later. Physically impossible.
    let report = store.ingest(&[contact("ccc", 43.4, 23.7, 10_000.0)], &fr, later(start, 11));
    assert_eq!(report.gated, 1);
    let after = store.get("ccc").unwrap();
    assert_eq!(after.rejected, 1);
    assert!(f((after.position() - held).norm()) < 5_000.0, "the jump was absorbed");
}

#[test]
fn stale_tracks_are_dropped() {
    let (mut store, fr, now) = (store(), frame(), start());
    store.ingest(&[contact("ddd", 38.0, 23.7, 10_000.0)], &fr, now);
    assert_eq!(store.prune(later(now, 10), Duration::from_secs(45)), 0);
    assert_eq!(store.prune(later(now, 60), Duration::from_secs(45)), 1);
    assert!(store.is_empty());
    assert_eq!(store.total_dropped, 1);
}

#[test]
fn coasting_widens_uncertainty_but_keeps_the_track() {
    let (mut store, fr, start) = (store(), frame(), start());
    for step in 0..10 {
        let lat = 38.0 + 0.0018 * step as f64;
        store.ingest(&[contact("eee", lat, 23.7, 10_000.0)], &fr, later(start, step));
    }
    let t = store.get("eee").unwrap();
    let tight = f(t.pos_sigma());
    let loose = f(t.view_at(later(start, 40)).pos_sigma);
    assert!(loose > tight * 2.0, "sigma {tight} -> {loose}");
}

#[test]
fn viewing_a_track_never_advances_its_filter() {
    // The picture must be a reader. If drawing the screen moves the filter, the next
    // measurement is compared against a state from the future and gated for being honest.
    let (mut store, fr, start) = (store(), frame(), start());
    store.ingest(&[contact("aaa", 38.0, 23.7, 10_000.0)], &fr, start);

    let before = store.get("aaa").unwrap().position();
    for step in 1..=30 {
        let _ = store.get("aaa").unwrap().view_at(later(start, step));
    }
    let after = store.get("aaa").unwrap();
    assert_eq!(after.position(), before, "a view mutated the filter");
    assert_eq!(f(after.filter_age_at(start)), 0.0, "validity time moved");
}

/// Reports landing on a fixed poll cadence, each carrying its own age, with that age
/// jittering from poll to poll. Yields `(arrival_s, age_s, observed_at_s)`.
///
/// The jitter is the point. A *constant* lag is invisible to a constant-velocity filter —
/// it simply tracks a target that is uniformly a little behind, and the innovations stay
/// small. It is the variation in age that makes an evenly-moving aircraft appear to
/// lurch, and that is what a gate is obliged to reject.
fn jittered_timeline() -> Vec<(u64, f64, f64)> {
    (0..30)
        .map(|step| {
            let arrival = 4 * step + 4;
            let age = if step % 2 == 0 { 0.5 } else { 3.5 };
            (arrival, age, arrival as f64 - age)
        })
        .collect()
}

/// 200 m/s northbound from the frame origin at `t` seconds.
fn northbound_lat(t: f64) -> f64 {
    38.0 + 0.0018 * t
}

#[test]
fn a_jittered_plot_is_placed_at_the_moment_it_describes() {
    let (mut store, fr, start) = (store(), frame(), start());
    for (arrival, age, obs_t) in jittered_timeline() {
        store.ingest(
            &[aged("bbb", northbound_lat(obs_t), 23.7, 10_000.0, age)],
            &fr,
            later(start, arrival),
        );
    }
    let t = store.get("bbb").unwrap();
    assert_eq!(t.superseded, 0, "correctly aged plots must not be superseded");
    assert_eq!(t.rejected, 0, "correctly aged plots must not be gated");
    assert!((f(t.velocity().n) - 200.0).abs() < 25.0, "vn was {}", f(t.velocity().n));
}

#[test]
fn discarding_the_reported_age_gates_those_same_good_plots() {
    // Same aircraft, same arrivals, same true positions — but every plot claims to be
    // fresh. The filter then watches a steadily-flying aircraft lurch back and forth and
    // correctly refuses to believe it.
    let (mut store, fr, start) = (store(), frame(), start());
    for (arrival, _age, obs_t) in jittered_timeline() {
        store.ingest(
            &[contact("ccc", northbound_lat(obs_t), 23.7, 10_000.0)],
            &fr,
            later(start, arrival),
        );
    }
    assert!(
        store.get("ccc").unwrap().rejected > 0,
        "mis-timed plots should be gated — if this stops holding, gating is loose"
    );
}

#[test]
fn a_re_served_snapshot_is_superseded_not_reapplied() {
    // The feed hands back the same underlying observation on the next poll: arrival and
    // reported age have both advanced by 2 s, so it describes the same instant.
    let (mut store, fr, start) = (store(), frame(), start());
    store.ingest(&[aged("ddd", 38.0, 23.7, 10_000.0, 0.5)], &fr, later(start, 1));
    let report = store.ingest(&[aged("ddd", 38.0, 23.7, 10_000.0, 2.5)], &fr, later(start, 3));
    assert_eq!(report.superseded, 1);
    let t = store.get("ddd").unwrap();
    assert_eq!(t.updates, 1, "a duplicate must not shrink the covariance twice");
    assert_eq!(t.superseded, 1);
    assert_eq!(store.total_superseded, 1);
}

#[test]
fn an_out_of_order_plot_is_superseded_not_retrodicted() {
    let (mut store, fr, start) = (store(), frame(), start());
    store.ingest(&[contact("eee", 38.0, 23.7, 10_000.0)], &fr, start);
    // Arrives later but describes a moment 10 s before the one already held.
    let report = store.ingest(&[aged("eee", 38.02, 23.7, 10_000.0, 12.0)], &fr, later(start, 2));
    assert_eq!(report.superseded, 1);
    assert_eq!(store.get("eee").unwrap().updates, 1);
}

#[test]
fn a_gated_plot_still_coasts_the_track() {
    // Rejecting a measurement is not rejecting the passage of time.
    let (mut store, fr, start) = (store(), frame(), start());
    for step in 0..10 {
        let lat = 38.0 + 0.0018 * step as f64;
        store.ingest(&[contact("fff", lat, 23.7, 10_000.0)], &fr, later(start, step));
    }
    let report = store.ingest(&[contact("fff", 43.4, 23.7, 10_000.0)], &fr, later(start, 11));
    assert_eq!(report.gated, 1);
    let t = store.get("fff").unwrap();
    assert_eq!(t.rejected, 1);
    assert_eq!(
        f(t.filter_age_at(later(start, 11))),
        0.0,
        "the gated plot should still have advanced the validity time to its own moment"
    );
}

#[test]
fn staleness_counts_from_observation_not_arrival() {
    let (mut store, fr, start) = (store(), frame(), start());
    store.ingest(&[aged("ggg", 38.0, 23.7, 10_000.0, 6.0)], &fr, start);
    let t = store.get("ggg").unwrap();
    // Arrived just now, but the position inside it was already six seconds old.
    assert!((f(t.staleness(start)) - 6.0).abs() < 1e-9, "{}", f(t.staleness(start)));
    // And it therefore ages out of a 45 s window six seconds sooner.
    assert_eq!(store.prune(later(start, 40), Duration::from_secs(45)), 1);
}

#[test]
fn every_contact_of_a_batch_is_counted_once() {
    let (mut store, fr, start) = (store(), frame(), start());
    for step in 0..6 {
        store.ingest(&[contact("one", 38.0, 23.7, 10_000.0)], &fr, later(start, step));
    }
    let report = store.ingest(
        &[
            contact("two", 38.0, 24.0, 9_000.0),
            contact("one", 38.0, 23.7, 10_000.0),
            contact("one", 38.0, 23.7, 10_000.0),
            contact("two", 38.0, 24.0, 9_000.0),
        ],
        &fr,
        later(start, 6),
    );
    assert_eq!(report, IngestReport { initiated: 1, updated: 1, gated: 0, superseded: 2 });
    let gated = store.ingest(&[contact("one", 43.4, 23.7, 10_000.0)], &fr, later(start, 7));
    assert_eq!(gated, IngestReport { initiated: 0, updated: 0, gated: 1, superseded: 0 });
    assert_eq!(store.total_initiated, 2);
    assert_eq!(store.total_gated, 1);
    assert_eq!(store.total_superseded, 2);
    assert_eq!(store.len(), 2);
}

#[test]
fn a_track_is_firm_after_four_reports() {
    let (mut store, fr, start) = (store(), frame(), start());
    for step in 0..FIRM_AFTER {
        assert!(store.get("aaa").map_or(true, |t| !t.is_firm()));
        store.ingest(&[contact("aaa", 38.0, 23.7, 10_000.0)], &fr, later(start, step));
    }
    assert_eq!(FIRM_AFTER, 4);
    assert!(store.get("aaa").unwrap().is_firm());
}

#[test]
fn a_track_that_is_not_firm_believes_a_jump() {
    let (mut store, fr, start) = (store(), frame(), start());
    store.ingest(&[contact("aaa", 38.0, 23.7, 10_000.0)], &fr, start);
    let report = store.ingest(&[contact("aaa", 43.4, 23.7, 10_000.0)], &fr, later(start, 1));
    assert_eq!(report.updated, 1);
}

#[test]
fn the_first_plot_seeds_the_velocity_from_the_report() {
    let (mut store, fr, start) = (store(), frame(), start());
    let mut c = contact("aaa", 38.0, 23.7, 10_000.0);
    c.gs_kt = Some(d(400.0));
    c.track_deg = Some(d(90.0));
    c.trig.track = turn(d(90f64.to_radians()));
    c.vrate_fpm = Some(d(-1200.0));
    let plain = Contact { track_deg: None, vrate_fpm: None, ..contact("bbb", 38.0, 23.7, 0.0) };
    store.ingest(&[c, plain], &fr, start);

    let t = store.get("aaa").unwrap();
    assert_eq!(f(t.velocity().e), 400.0 * 0.514_444_4 * 90f64.to_radians().sin());
    assert_eq!(f(t.velocity().n), 400.0 * 0.514_444_4 * 90f64.to_radians().cos());
    assert_eq!(f(t.vrate_fpm()), -1200.0);
    assert!((f(t.speed_kt()) - 400.0).abs() < 1e-9);
    assert!((heading(t) - 90.0).abs() < 1e-9);

    // A ground speed without a direction says nothing about the velocity.
    let v = store.get("bbb").unwrap().velocity();
    assert_eq!((f(v.e), f(v.n), f(v.u)), (0.0, 0.0, 0.0));
}

#[test]
fn an_accepted_plot_refreshes_what_is_displayed() {
    let (mut store, fr, start) = (store(), frame(), start());
    store.ingest(&[contact("aaa", 38.0, 23.7, 10_000.0)], &fr, start);
    let mut c = contact("aaa", 38.0, 23.7, 10_000.0);
    c.label = "NEW".into();
    c.kind = String::new();
    c.squawk = "7700".into();
    c.emergency = true;
    c.on_ground = true;
    store.ingest(&[c], &fr, later(start, 1));
    let t = store.get("aaa").unwrap();
    assert_eq!((t.label.as_str(), t.kind.as_str(), t.squawk.as_str()), ("NEW", "TEST", "7700"));
    assert!(t.emergency && t.on_ground);
    assert_eq!(f(t.staleness(later(start, 1))), 0.0);
}

#[test]
fn a_gated_plot_does_not_keep_a_track_alive() {
    let (mut store, fr, start) = (store(), frame(), start());
    for step in 0..10 {
        store.ingest(&[contact("aaa", 38.0, 23.7, 10_000.0)], &fr, later(start, step));
    }
    store.ingest(&[contact("aaa", 43.4, 23.7, 10_000.0)], &fr, later(start, 30));
    assert_eq!(f(store.get("aaa").unwrap().staleness(later(start, 40))), 31.0);
    assert_eq!(store.prune(later(start, 40), Duration::from_secs(31)), 0, "not older than that");
    assert_eq!(store.prune(later(start, 40), Duration::from_secs(30)), 1);
}

#[test]
fn a_track_goes_when_its_evidence_is_older_than_the_timeout() {
    let (mut store, fr, start) = (store(), frame(), start());
    store.ingest(&[contact("aaa", 38.0, 23.7, 10_000.0)], &fr, start);
    assert_eq!(store.prune(later(start, 45), Duration::from_secs(45)), 0);
    assert_eq!(store.prune(later(start, 46), Duration::from_secs(45)), 1);
}

#[test]
fn a_plot_leaves_the_other_tracks_alone() {
    let (mut store, fr, start) = (store(), frame(), start());
    store.ingest(
        &[contact("aaa", 38.0, 23.7, 10_000.0), contact("bbb", 39.0, 23.7, 9_000.0)],
        &fr,
        start,
    );
    let held = store.get("bbb").unwrap().clone();
    store.ingest(&[contact("aaa", 38.01, 23.7, 10_000.0)], &fr, later(start, 1));
    let b = store.get("bbb").unwrap();
    assert_eq!((b.updates, b.superseded, b.rejected), (1, 0, 0));
    assert_eq!(b.position(), held.position());
    assert!(store.get("zzz").is_none());
    let ids: Vec<&str> = store.iter().iter().map(|t| t.id.as_str()).collect();
    assert_eq!(ids, ["aaa", "bbb"]);
}

#[test]
fn the_outcome_of_a_plot_is_reported() {
    let (fr, start) = (frame(), start());
    let c = contact("aaa", 38.0, 23.7, 10_000.0);
    let pos = fr.to_enu(c.geo, c.trig.lat, c.trig.lon);
    let mut t = Track::new(&c, pos, start, d(4.0), d(900.0));
    assert_eq!(t.update(&c, pos, start, d(5.0)), Outcome::Superseded);
    assert_eq!(t.update(&c, pos, later(start, 1), d(5.0)), Outcome::Updated);
    assert_eq!((t.updates, t.superseded), (2, 1));
}

#[test]
fn a_re_served_snapshot_is_superseded_to_the_nanosecond() {
    // 0.1 s old, and 0.2 s later reported as 0.3 s old: the same moment, although the
    // doubles do not add up.
    let (mut store, fr, start) = (store(), frame(), start());
    store.ingest(&[aged("aaa", 38.0, 23.7, 10_000.0, 0.1)], &fr, start);
    let again = start.after(Duration::from_millis(200));
    let report = store.ingest(&[aged("aaa", 38.0, 23.7, 10_000.0, 0.3)], &fr, again);
    assert_eq!(report.superseded, 1);
    assert_eq!(f(store.get("aaa").unwrap().filter_age_at(again)), 0.3);
    // A nanosecond on is another moment.
    let next = start.after(Duration::new(0, 200_000_001));
    let report = store.ingest(&[aged("aaa", 38.0, 23.7, 10_000.0, 0.3)], &fr, next);
    assert_eq!(report.updated, 1);
}

#[test]
fn a_batch_that_arrived_earlier_is_judged_by_what_it_describes() {
    let (mut store, fr, start) = (store(), frame(), start());
    store.ingest(&[aged("aaa", 38.0, 23.7, 10_000.0, 5.0)], &fr, later(start, 8));
    // Describes a moment four seconds before the one held.
    let report = store.ingest(&[aged("aaa", 38.0, 23.7, 10_000.0, 1.0)], &fr, start);
    assert_eq!(report.superseded, 1);
    // Arrived earlier too, but describes a moment one second later.
    let report = store.ingest(&[aged("aaa", 38.0, 23.7, 10_000.0, 1.0)], &fr, later(start, 5));
    assert_eq!(report.updated, 1);
    assert_eq!(f(store.get("aaa").unwrap().filter_age_at(later(start, 5))), 1.0);
}

#[test]
fn a_view_carries_the_estimate_forward() {
    let (mut store, fr, start) = (store(), frame(), start());
    for step in 0..6 {
        let lat = northbound_lat(step as f64);
        store.ingest(&[aged("aaa", lat, 23.7, 10_000.0, 0.5)], &fr, later(start, step));
    }
    let t = store.get("aaa").unwrap();
    let (p, v) = (t.position(), t.velocity());
    let view = t.view_at(later(start, 9));
    assert_eq!(f(view.coast_s), 4.5);
    assert_eq!(view.vel, v);
    assert_eq!(f(view.pos.n), f(p.n) + f(v.n) * 4.5);
    // Before the arrival of its batch no time counts as gone by but the age.
    assert_eq!(f(t.view_at(later(start, 1)).coast_s), 0.5);
    assert_eq!(f(t.view_at(later(start, 1)).pos.n), f(p.n) + f(v.n) * 0.5);
    let mut sigma = f(t.pos_sigma());
    for step in 5..60 {
        let wider = f(t.view_at(later(start, step)).pos_sigma);
        assert!(wider >= sigma, "sigma {sigma} -> {wider}");
        sigma = wider;
    }
}

#[test]
fn a_heading_is_of_the_velocity() {
    let (mut store, fr, start) = (store(), frame(), start());
    store.ingest(&[contact("aaa", 38.0, 23.7, 10_000.0)], &fr, start);
    let t = store.get("aaa").unwrap();
    assert_eq!(t.heading_parts(), (t.velocity().e, t.velocity().n));
}

#[test]
fn ages_finer_than_a_nanosecond_count() {
    // Two thirds of a nanosecond old, a nanosecond on: a later moment, by a third.
    let (fr, start) = (frame(), start());
    let age = 1.5 / 2f64.powi(31);
    let next = start.after(Duration::new(0, 1));
    let first = contact("aaa", 38.0, 23.7, 10_000.0);
    let pos = fr.to_enu(first.geo, first.trig.lat, first.trig.lon);
    let fine = aged("aaa", 38.0, 23.7, 10_000.0, age);
    let mut t = Track::new(&first, pos, start, d(4.0), d(900.0));
    assert_eq!(t.update(&fine, pos, next, d(5.0)), Outcome::Updated);
    assert_eq!(f(t.filter_age_at(next)), age);
    assert_eq!(f(t.staleness(next)), age);

    let mut firm = Track::new(&first, pos, start, d(4.0), d(900.0));
    firm.updates = FIRM_AFTER;
    let jump = fr.to_enu(first.geo, turn(d(0.7)), first.trig.lon);
    assert_eq!(firm.update(&fine, jump, next, d(5.0)), Outcome::Gated);
    assert_eq!(f(firm.filter_age_at(next)), age);
    assert_eq!(f(firm.staleness(next)), 1e-9);
}

#[test]
fn ages_beyond_all_reason_are_compared_as_they_are() {
    let (mut store, fr, start) = (store(), frame(), start());
    store.ingest(&[aged("aaa", 38.0, 23.7, 10_000.0, 1e300)], &fr, start);
    assert_eq!(f(store.get("aaa").unwrap().filter_age_at(start)), 1e300);
    let report = store.ingest(&[aged("aaa", 38.0, 23.7, 10_000.0, 1e200)], &fr, start);
    assert_eq!(report.superseded, 0);
    let report = store.ingest(&[aged("aaa", 38.0, 23.7, 10_000.0, 1e250)], &fr, start);
    assert_eq!(report.superseded, 1);
}

#[test]
fn nothing_ages_before_its_batch_arrived() {
    // A cycle may read its clock before it drains a batch that lands in the meantime.
    let (mut store, fr, start) = (store(), frame(), start());
    store.ingest(&[contact("aaa", 38.0, 23.7, 10_000.0)], &fr, later(start, 1));
    store.ingest(&[aged("bbb", 38.0, 23.7, 10_000.0, -0.0)], &fr, later(start, 1));
    for id in ["aaa", "bbb"] {
        let t = store.get(id).unwrap();
        assert_eq!(t.staleness(start).to_bits(), 0f64.to_bits());
        assert_eq!(f(t.filter_age_at(start)), 0.0);
        assert_eq!(f(t.view_at(start).coast_s), 0.0);
        assert_eq!(t.view_at(start).pos, t.position());
    }
}

fn five() -> Vec<Contact> {
    vec![
        contact("one", 38.0, 23.7, 10_000.0),
        aged("two", 38.1, 23.7, 9_000.0, 1.0),
        contact("three", 44.0, 23.7, 10_000.0),
        aged("four", 38.0, 24.7, 8_000.0, 9.0),
        contact("five", 38.5, 23.7, 10_000.0),
    ]
}

/// Firm tracks of the first four, heard for seven seconds.
fn seasoned() -> TrackStore {
    let (mut store, fr, start) = (store(), frame(), start());
    for step in 0..8 {
        let mut batch = five();
        batch.truncate(4);
        batch[2] = contact("three", 38.0, 23.7, 10_000.0);
        batch[3] = contact("four", 38.0, 24.7, 8_000.0);
        store.ingest(&batch, &fr, later(start, step));
    }
    store
}

fn same_tracks(a: &TrackStore, b: &TrackStore) {
    assert_eq!(a.len(), b.len());
    for t in a.iter() {
        let u = b.get(&t.id).expect("the same identities");
        assert_eq!((t.updates, t.rejected, t.superseded), (u.updates, u.rejected, u.superseded));
        assert_eq!((t.position(), t.velocity()), (u.position(), u.velocity()));
        assert_eq!((t.pos_sigma(), t.valid_age), (u.pos_sigma(), u.valid_age));
    }
    assert_eq!(
        (a.total_initiated, a.total_gated, a.total_superseded),
        (b.total_initiated, b.total_gated, b.total_superseded)
    );
}

#[test]
fn a_batch_may_be_cut_anywhere() {
    let (fr, at) = (frame(), later(start(), 8));
    let mut whole = seasoned();
    let report = whole.ingest(&five(), &fr, at);
    assert_eq!(report, IngestReport { initiated: 1, updated: 2, gated: 1, superseded: 1 });
    for cut in 0..=5 {
        let mut store = seasoned();
        let p = store.ingest(&five()[..cut], &fr, at);
        let q = store.ingest(&five()[cut..], &fr, at);
        same_tracks(&whole, &store);
        assert_eq!(p.initiated + q.initiated, report.initiated);
        assert_eq!(p.updated + q.updated, report.updated);
        assert_eq!(p.gated + q.gated, report.gated);
        assert_eq!(p.superseded + q.superseded, report.superseded);
    }
}

#[test]
fn the_order_of_different_contacts_does_not_matter() {
    let (fr, at) = (frame(), later(start(), 8));
    let mut whole = seasoned();
    let report = whole.ingest(&five(), &fr, at);
    for shift in 1..5 {
        let mut contacts = five();
        contacts.rotate_left(shift);
        contacts.swap(0, 3);
        let mut store = seasoned();
        assert_eq!(store.ingest(&contacts, &fr, at), report);
        same_tracks(&whole, &store);
    }
}

#[test]
fn tracks_of_a_sensible_store_stay_well_posed() {
    let store = seasoned();
    for t in store.iter() {
        for k in [t.filt.e, t.filt.n, t.filt.u] {
            for p in [k.p00, k.p01, k.p10, k.p11] {
                assert!(f(p) >= 0.0 && f(p).is_finite());
            }
        }
    }
}
