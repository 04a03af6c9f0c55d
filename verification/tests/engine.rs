use aether::clock::{Duration, Instant};
use aether::config::Config;
use aether::double::Double;
use aether::engine::{Drained, Engine};
use aether::geo::{Geodetic, SinCos};
use aether::ingest::{Batch, Contact, SensorHealth, Trig};

fn d(x: f64) -> Double {
    Double::from_bits(x.to_bits())
}

fn f(x: Double) -> f64 {
    f64::from_bits(x.to_bits())
}

fn turn(rad: Double) -> SinCos {
    let (sin, cos) = f(rad).sin_cos();
    SinCos { sin: d(sin), cos: d(cos) }
}

fn config(horizon: f64) -> Config {
    Config::load(&format!(
        "SITE_LAT=37.9838\nSITE_LON=23.7275\nSITE_ALT_M=0.0\nADSB_URL=u\nADSB_RADIUS_NM=250\n\
         MAX_BODY_BYTES=1000\nPOLL_MS=2000\nCYCLE_MS=500\nTRACK_TIMEOUT_S=45\n\
         HORIZON_S={horizon}\nMIN_HORIZ_M=9260\nMIN_VERT_M=305\nPROCESS_NOISE=4.0\n\
         MEAS_VAR=900\nGATE_SIGMA=5\nDISPLAY_ROWS=20\n"
    ))
    .expect("complete")
}

fn engine(horizon: f64) -> Engine {
    let cfg = config(horizon);
    let site = Geodetic { lat_deg: cfg.site_lat, lon_deg: cfg.site_lon, alt_m: cfg.site_alt_m };
    let (lat, lon) = site.angles();
    Engine::new(&cfg, turn(lat), turn(lon))
}

fn plot(id: &str, lat: f64) -> Contact {
    let geo = Geodetic { lat_deg: d(lat), lon_deg: d(23.7275), alt_m: d(10_000.0) };
    let (a, b) = geo.angles();
    Contact {
        id: id.into(),
        label: id.into(),
        kind: String::new(),
        squawk: String::new(),
        emergency: false,
        on_ground: false,
        geo,
        gs_kt: None,
        track_deg: None,
        vrate_fpm: None,
        age_s: d(0.0),
        source: "TEST",
        trig: Trig { lat: turn(a), lon: turn(b), track: turn(d(0.0)) },
    }
}

fn at(secs: u64) -> Instant {
    Instant::at(Duration::from_secs(secs))
}

fn batch(step: u64, polls: u64) -> Batch {
    let s = step as f64;
    Batch {
        received: at(step),
        contacts: vec![plot("north", 38.2 - 0.0018 * s), plot("south", 37.8 + 0.0018 * s)],
        health: SensorHealth { polls, ..SensorHealth::default() },
    }
}

#[test]
fn a_cycle_folds_ages_screens_and_records() {
    let mut e = engine(300.0);
    let mut seen = Drained::default();
    for step in 0..12 {
        e.absorb(&batch(step, step + 1), &mut seen);
    }
    assert_eq!(seen, Drained { plots: 24, polls: 12 });
    assert_eq!(e.health.polls, 12, "the latest snapshot wins");
    assert_eq!((e.store.len(), e.store.total_initiated), (2, 2));
    assert_eq!(e.age(at(11)), 0);
    let alerts = e.screen(at(11));
    assert_eq!(alerts.len(), 1);
    e.close(Duration::new(0, 1_236_000), seen);
    assert_eq!((e.cycles.count, e.cycles.contacts_in, e.cycles.polls_seen), (1, 24, 12));

    assert_eq!(e.age(at(56)), 0, "45 seconds are the configured timeout");
    assert_eq!(e.age(at(57)), 2);
    assert!(e.screen(at(57)).is_empty());
    assert_eq!(e.store.total_dropped, 2);
    assert_eq!(
        e.summary(),
        "\naether: 1 cycles, 24 plots, 2 tracks initiated, 2 dropped, 0 gated, 0 superseded, \
         worst cycle 1.24 ms\naether: sensor 12 polls, 0 http errors, 0 oversized, 0 decode \
         errors\n"
    );
}

#[test]
fn an_engine_takes_its_settings_from_the_configuration() {
    let e = engine(300.0);
    assert_eq!(e.timeout, Duration::from_secs(45));
    assert_eq!((f(e.minima.min_horiz_m), f(e.minima.min_vert_m)), (9260.0, 305.0));
    assert_eq!((f(e.store.tuning.q), f(e.store.tuning.r)), (4.0, 900.0));
    assert_eq!(f(e.store.tuning.gate_sigma), 5.0);
    assert_eq!(f(e.frame.site.lat_deg), 37.9838);
    assert!(e.store.is_empty());
}

#[test]
fn a_horizon_that_makes_no_sense_leaves_the_present_to_screen() {
    for horizon in [-1.0, f64::NAN] {
        let mut e = engine(horizon);
        let mut seen = Drained::default();
        for step in 0..12 {
            let s = step as f64;
            // Five kilometres apart and closing.
            let b = Batch {
                contacts: vec![plot("a", 38.0 + 0.0009 * s), plot("b", 38.04 - 0.0009 * s)],
                ..batch(step, step)
            };
            e.absorb(&b, &mut seen);
        }
        let alerts = e.screen(at(11));
        assert_eq!(alerts.len(), 1);
        assert_eq!(f(alerts[0].t_cpa), 0.0);
    }
}
