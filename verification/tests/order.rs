use aether::clock::{Duration, Instant};
use aether::conjunction::screen;
use aether::double::Double;
use aether::geo::{Enu, Geodetic, SinCos};
use aether::ingest::{Contact, Trig};
use aether::track::{Track, TrackStore};

fn d(x: f64) -> Double {
    Double::from_bits(x.to_bits())
}

/// A firm track standing at `e` metres east of the site.
fn standing(id: &str, e: f64, now: Instant) -> Track {
    let zero = SinCos { sin: d(0.0), cos: d(1.0) };
    let c = Contact {
        id: id.into(),
        label: id.into(),
        kind: String::new(),
        squawk: String::new(),
        emergency: false,
        on_ground: false,
        geo: Geodetic { lat_deg: d(0.0), lon_deg: d(0.0), alt_m: d(0.0) },
        gs_kt: None,
        track_deg: None,
        vrate_fpm: None,
        age_s: d(0.0),
        source: "TEST",
        trig: Trig { lat: zero, lon: zero, track: zero },
    };
    let mut t = Track::new(&c, Enu { e: d(e), n: d(0.0), u: d(0.0) }, now, d(4.0), d(900.0));
    t.updates = 4;
    t
}

#[test]
fn alike_conjunctions_keep_the_order_of_their_pairs() {
    let now = Instant::at(Duration::from_secs(1));
    let mut store = TrackStore::new(d(4.0), d(900.0), d(5.0));
    // a-b and c-d are equally severe; b-c is far apart.
    for (id, e) in [("a", 0.0), ("b", 100.0), ("c", 50_000.0), ("d", 50_100.0), ("e", 50_101.0)] {
        store.tracks.push(standing(id, e, now));
    }
    let alerts = screen(&store, now, d(300.0), d(9260.0), d(305.0));
    let pairs: Vec<(&str, &str)> = alerts.iter().map(|c| (c.a.as_str(), c.b.as_str())).collect();
    assert_eq!(pairs, [("d", "e"), ("a", "b"), ("c", "d"), ("c", "e")]);
}
