use aether::clock::{Duration, Instant};
use aether::conjunction::Conjunction;
use aether::double::Double;
use aether::geo::{Enu, Frame, Geodetic, SinCos};
use aether::ingest::{Contact, SensorHealth, Trig};
use aether::render::{draw, truncate, Angles, Cycles, MINUTE};
use aether::track::TrackStore;

fn d(x: f64) -> Double {
    Double::from_bits(x.to_bits())
}

fn f(x: Double) -> f64 {
    f64::from_bits(x.to_bits())
}

fn turn(rad: Double) -> SinCos {
    let (sin, cos) = f(rad).sin_cos();
    SinCos { sin: d(sin), cos: d(cos) }
}

fn frame() -> Frame {
    let site = Geodetic { lat_deg: d(37.9838), lon_deg: d(23.7275), alt_m: d(0.0) };
    let (lat, lon) = site.angles();
    Frame::new(site, turn(lat), turn(lon))
}

#[test]
fn truncate_is_char_safe() {
    assert_eq!(truncate("ABCDEFGHIJ", 4), "ABCD");
    assert_eq!(truncate("AB", 4), "AB");
    // Must not split a multi-byte character.
    assert_eq!(truncate("ΑΘΗΝΑ", 3), "ΑΘΗ");
}

#[test]
fn mean_of_no_cycles_is_zero() {
    assert_eq!(Cycles::default().mean(), Duration::zero());
}

#[test]
fn worst_case_is_retained() {
    let mut c = Cycles::default();
    c.record(Duration::from_millis(1), 10, 1);
    c.record(Duration::from_millis(9), 10, 1);
    c.record(Duration::from_millis(2), 10, 1);
    assert_eq!(c.worst, Duration::from_millis(9));
    assert_eq!(c.contacts_in, 30);
}

#[test]
fn the_mean_is_to_the_nanosecond() {
    let mut c = Cycles::default();
    c.record(Duration::from_millis(1), 0, 1);
    c.record(Duration::from_millis(9), 0, 2);
    c.record(Duration::from_millis(3), 5, 0);
    assert_eq!(c.mean(), Duration::new(0, 4_333_333));
    assert_eq!((c.count, c.last, c.polls_seen), (3, Duration::from_millis(3), 3));
    assert_eq!(c.total, Duration::from_millis(13));
    assert_eq!(c.worst.max(c.mean()), c.worst, "the worst bounds the mean");
}

#[test]
fn the_mean_divides_by_the_whole_count() {
    let mut c = Cycles::default();
    c.count = 1 << 32;
    c.total = Duration::from_secs(3 << 32);
    assert_eq!(c.mean(), Duration::from_secs(3));
    c.count = (1 << 32) + 1;
    assert_eq!(c.mean(), Duration::new(2, 999_999_999));
}

fn at(secs: u64) -> Instant {
    Instant::at(Duration::from_secs(secs))
}

fn contact(id: &str, label: &str, kind: &str, lat: f64, lon: f64, alt_m: f64) -> Contact {
    let geo = Geodetic { lat_deg: d(lat), lon_deg: d(lon), alt_m: d(alt_m) };
    let (lat, lon) = geo.angles();
    Contact {
        id: id.into(),
        label: label.into(),
        kind: kind.into(),
        squawk: String::new(),
        emergency: false,
        on_ground: false,
        geo,
        gs_kt: Some(d(400.0)),
        track_deg: Some(d(90.0)),
        vrate_fpm: Some(d(-600.0)),
        age_s: d(1.0),
        source: "TEST",
        trig: Trig { lat: turn(lat), lon: turn(lon), track: turn(d(90f64.to_radians())) },
    }
}

fn angles(store: &TrackStore, now: Instant) -> Vec<Angles> {
    store
        .iter()
        .iter()
        .map(|t| {
            let (p, v) = (t.view_at(now).pos, t.velocity());
            Angles {
                bearing: d(f(p.e).atan2(f(p.n))),
                heading: d(f(v.e).atan2(f(v.n))),
                lat: latitude(p),
            }
        })
        .collect()
}

fn latitude(p: Enu) -> SinCos {
    let q = frame().from_enu(p);
    let angle = |(y, x): (Double, Double)| d(f(y).atan2(f(x)));
    let theta = turn(angle(aether::geo::parametric_latitude(q)));
    turn(angle(aether::geo::geodetic_latitude(q, theta)))
}

const HEAD: &str =
    "ID        CALLSIGN  TYPE    RNG km    BRG  ALT ft GS kt     HDG  V fpm     ±m   AGE";

#[test]
fn an_empty_sky_is_drawn_as_such() {
    let store = TrackStore::new(d(4.0), d(900.0), d(5.0));
    let s = draw(
        &store,
        &[],
        &Cycles::default(),
        &SensorHealth::default(),
        &frame(),
        20,
        at(3723),
        &[],
    );
    let expected = [
        "\x1b[2J\x1b[H\x1b[1mAETHER\x1b[0m  air picture   up 01:02:03   cycle 0\n",
        "\x1b[2mtracks 0    initiated 0     dropped 0     gated 0    superseded 0     ",
        "plots 0       cycle last 0.00ms mean 0.00ms worst 0.00ms\x1b[0m\n",
        "\x1b[2msensor  polls 0      http-err 0    oversized 0    decode-err 0   \x1b[0m\n",
        "\n\x1b[1m",
        HEAD,
        "\x1b[0m\n",
        "\n\x1b[2mconjunction screen clear\x1b[0m\n",
        "\n\x1b[36m\x1b[2mctrl-c to stop\x1b[0m\n",
    ];
    assert_eq!(s, expected.concat());
}

#[test]
fn tracks_are_listed_nearest_first() {
    let mut store = TrackStore::new(d(4.0), d(900.0), d(5.0));
    let fr = frame();
    let mut alarm = contact("cccccc", "MAYDAYMAYDAY", "B738MAX", 38.5, 23.7275, 10_000.0);
    alarm.emergency = true;
    store.ingest(
        &[
            contact("aaaaaa", "FAR1", "A320", 39.5, 23.7275, 10_000.0),
            alarm,
            contact("bbbbbb", "NEAR", "C172", 38.0, 23.7275, 1_000.0),
        ],
        &fr,
        at(0),
    );
    let now = at(1);
    let health = SensorHealth {
        polls: 12,
        http_errors: 1,
        oversized_responses: 0,
        decode_errors: 2,
    };
    let mut cyc = Cycles::default();
    cyc.record(Duration::new(0, 1_234_567), 3, 1);
    let s = draw(&store, &[], &cyc, &health, &fr, 2, now, &angles(&store, now));

    let rows: Vec<&str> = s.lines().filter(|l| l.contains("°")).collect();
    assert_eq!(rows.len(), 2, "no more rows than asked for");
    let row = |id: &str, flag: &str| {
        let t = store.get(id).unwrap();
        let v = t.view_at(now);
        let p = v.pos;
        let n = |x: Double| f(x);
        let alt = n(fr.from_enu(p).altitude_at(latitude(p))) / 0.3048;
        let mut brg = n(p.e).atan2(n(p.n)).to_degrees();
        if brg < 0.0 {
            brg += 360.0;
        }
        format!(
            "{flag}{:<9} {:<9} {:<6} {:>7.1} {:>5.0}° {:>7.0} {:>5.0} {:>6.0}° {:>6.0} {:>6.0} {:>4.0}s\x1b[0m",
            t.id,
            truncate(&t.label, 9),
            truncate(&t.kind, 6),
            n(p.horiz()) / 1000.0,
            brg,
            alt,
            400.0,
            90.0,
            -600.0,
            n(v.pos_sigma),
            2.0,
        )
    };
    assert_eq!(rows[0], row("bbbbbb", "\x1b[2m"));
    assert_eq!(rows[1], row("cccccc", "\x1b[31m"));
    assert!(s.contains("\x1b[2m   ... 1 more\x1b[0m\n"));
    assert!(s.contains("\x1b[33msensor  polls 12     http-err 1    oversized 0    decode-err 2   "));
    assert!(s.contains("cycle last 1.23ms mean 1.23ms worst 1.23ms"));
    assert!(s.contains("tracks 3    initiated 3     "));
}

fn alert(t_cpa: f64, a: &str, b: &str) -> Conjunction {
    Conjunction {
        a: a.into(),
        b: b.into(),
        label_a: a.into(),
        label_b: b.into(),
        t_cpa: d(t_cpa),
        horiz_m: d(1_234.0),
        vert_m: d(150.4),
        sigma_m: d(62.5),
        closing_ms: d(200.0),
    }
}

#[test]
fn conjunctions_are_listed_with_the_imminent_in_red() {
    let store = TrackStore::new(d(4.0), d(900.0), d(5.0));
    let mut alerts: Vec<Conjunction> =
        (0..7).map(|i| alert(59.0 + i as f64, "LONGCALLSIGN", &format!("B{i}"))).collect();
    alerts[2].sigma_m = d(0.5);
    let (cyc, health) = (Cycles::default(), SensorHealth::default());
    let s = draw(&store, &alerts, &cyc, &health, &frame(), 20, at(0), &[]);
    assert!(s.contains("\x1b[1m\x1b[33mCONJUNCTION SCREEN — 7 pair(s)\x1b[0m\n"));
    let lines: Vec<&str> = s.lines().filter(|l| l.contains(" <-> ")).collect();
    assert_eq!(lines.len(), 6, "the list is cut short");
    assert_eq!(
        lines[0],
        "\x1b[31m  T- 59s  LONGCALLS <-> B0         horiz  1.23 km  vert  150 m  \
         closing 389 kt  ±62 m\x1b[0m"
    );
    assert!(lines[1].starts_with("\x1b[33m  T- 60s  "), "a minute is no longer imminent");
    assert!(lines[2].ends_with("±0 m\x1b[0m"));
    assert_eq!(f64::from_bits(MINUTE), 60.0);
}
