use aether::clock::{Duration, Instant};
use aether::double::Double;
use aether::geo::{to_radians, SinCos};
use aether::ingest::adsb::{
    accumulate, check_declared_length, check_status, decode, decode_all, sanitise_age, AdsbSensor, Aircraft,
    Body, Reading, BODY_PREALLOC, MAX_LAT_DEG, MAX_LON_DEG, MAX_REPORTED_AGE_S,
};
use aether::ingest::{Contact, IngestError, SensorHealth, Trig};
use serde_json::Value;

fn d(x: f64) -> Double {
    Double::from_bits(x.to_bits())
}

fn f(x: Double) -> f64 {
    f64::from_bits(x.to_bits())
}

fn turn(deg: Option<Double>) -> SinCos {
    let (sin, cos) = deg.map_or(0.0, |v| f(to_radians(v))).sin_cos();
    SinCos { sin: d(sin), cos: d(cos) }
}

fn text(v: &Value, key: &str) -> Option<String> {
    v.get(key).and_then(Value::as_str).map(str::to_string)
}

fn number(v: &Value, key: &str) -> Option<Double> {
    v.get(key).and_then(Value::as_f64).map(d)
}

fn record(v: &Value) -> (Aircraft, Trig) {
    let a = Aircraft {
        hex: text(v, "hex"),
        flight: text(v, "flight"),
        kind: text(v, "type"),
        t: text(v, "t"),
        lat: number(v, "lat"),
        lon: number(v, "lon"),
        alt_baro: v.get("alt_baro").map(|alt| match alt {
            Value::Number(n) => Reading::Number(n.as_f64().map(d)),
            Value::String(s) => Reading::Text(s.clone()),
            _ => Reading::Other,
        }),
        alt_geom: number(v, "alt_geom"),
        gs: number(v, "gs"),
        track: number(v, "track"),
        baro_rate: number(v, "baro_rate"),
        geom_rate: number(v, "geom_rate"),
        squawk: text(v, "squawk"),
        emergency: text(v, "emergency"),
        seen_pos: number(v, "seen_pos"),
    };
    let trig = Trig { lat: turn(a.lat), lon: turn(a.lon), track: turn(a.track) };
    (a, trig)
}

fn contacts(body: &Value) -> Vec<Contact> {
    let records: Vec<(Aircraft, Trig)> = match body.get("ac") {
        Some(Value::Array(list)) => list.iter().map(record).collect(),
        _ => Vec::new(),
    };
    decode_all(&records)
}

fn parse(json: &str) -> Vec<Contact> {
    let body: Value = serde_json::from_str(json).expect("fixture should parse");
    contacts(&body)
}

#[test]
fn decodes_a_normal_report() {
    let c = parse(
        r#"{"ac":[{"hex":"3cc82c","flight":"VJH357  ","t":"C56X","alt_baro":41000,
                   "gs":464.7,"track":117.56,"baro_rate":0,"squawk":"3714",
                   "emergency":"none","lat":39.365753,"lon":18.74184,"seen_pos":0.451}]}"#,
    );
    assert_eq!(c.len(), 1);
    assert_eq!(c[0].id, "3cc82c");
    assert_eq!(c[0].label, "VJH357");
    assert!(!c[0].emergency);
    assert!((f(c[0].geo.alt_m) - 12_496.8).abs() < 1.0, "alt was {}", f(c[0].geo.alt_m));
}

#[test]
fn drops_records_without_a_position() {
    let c = parse(r#"{"ac":[{"hex":"abc123","flight":"TEST","alt_baro":10000}]}"#);
    assert!(c.is_empty(), "a contact with no position is not a contact");
}

#[test]
fn handles_ground_altitude_string() {
    let c = parse(r#"{"ac":[{"hex":"deadbe","alt_baro":"ground","lat":37.9,"lon":23.7}]}"#);
    assert_eq!(c.len(), 1);
    assert!(c[0].on_ground);
    assert_eq!(f(c[0].geo.alt_m), 0.0);
}

#[test]
fn flags_emergency_squawks() {
    let c = parse(
        r#"{"ac":[{"hex":"aaa111","squawk":"7700","lat":37.9,"lon":23.7,"alt_baro":30000}]}"#,
    );
    assert!(c[0].emergency);
}

#[test]
fn rejects_out_of_range_coordinates() {
    let c = parse(r#"{"ac":[{"hex":"bad001","lat":991.0,"lon":23.7,"alt_baro":30000}]}"#);
    assert!(c.is_empty());
}

#[test]
fn reported_age_is_sanitised_before_it_can_reach_the_clock() {
    assert_eq!(f(sanitise_age(Some(d(2.5)))), 2.5);
    assert_eq!(f(sanitise_age(None)), 0.0);
    assert_eq!(f(sanitise_age(Some(d(-3.0)))), 0.0);
    assert_eq!(f(sanitise_age(Some(d(f64::NAN)))), 0.0, "NaN must not reach a time step");
    assert_eq!(f(sanitise_age(Some(d(f64::INFINITY)))), 0.0);
    assert_eq!(f(sanitise_age(Some(d(1.0e9)))), f64::from_bits(MAX_REPORTED_AGE_S));
}

#[test]
fn an_empty_feed_is_not_an_error() {
    assert!(parse(r#"{"ac":[]}"#).is_empty());
    assert!(parse(r#"{}"#).is_empty());
}

const LIMIT: usize = 4096;

#[test]
fn a_body_under_the_limit_is_accepted_and_decoded() {
    let body = br#"{"ac":[{"hex":"3cc82c","flight":"VJH357","alt_baro":41000,
                          "lat":39.36,"lon":18.74,"seen_pos":0.4}]}"#;
    let mut buf = Vec::new();
    assert!(accumulate(&mut buf, body, LIMIT).is_ok());
    assert_eq!(buf.len(), body.len());

    let parsed: Value = serde_json::from_slice(&buf).expect("should parse");
    let contacts = contacts(&parsed);
    assert_eq!(contacts.len(), 1);
    assert_eq!(contacts[0].id, "3cc82c");
}

#[test]
fn a_declared_length_over_the_limit_is_rejected_before_the_body_is_touched() {
    assert_eq!(
        check_declared_length(Some(LIMIT as u64 + 1), LIMIT),
        Err(IngestError::Oversized { limit: LIMIT, seen: LIMIT + 1 })
    );
    assert!(check_declared_length(Some(LIMIT as u64), LIMIT).is_ok());
    // Absent is the case that matters: it must fall through to the real control rather
    // than being treated as permission.
    assert!(check_declared_length(None, LIMIT).is_ok());
}

#[test]
fn a_body_of_unknown_length_is_bounded_while_it_is_read() {
    // What a chunked or connection-delimited response looks like: no declared length,
    // arriving a kilobyte at a time, never stopping.
    let chunk = vec![b'x'; 1024];
    let mut buf = Vec::new();
    let mut chunks_taken = 0;
    let err = loop {
        match accumulate(&mut buf, &chunk, LIMIT) {
            Ok(()) => chunks_taken += 1,
            Err(e) => break e,
        }
        assert!(chunks_taken < 100, "the accumulator never refused");
    };
    assert_eq!(err, IngestError::Oversized { limit: LIMIT, seen: LIMIT + 1024 });
    assert_eq!(chunks_taken, 4, "should stop on the chunk that would overflow");
}

#[test]
fn the_accumulator_never_exceeds_the_bound() {
    // The buffer is bounded at every instant, not merely checked after the fact.
    for chunk_size in [1usize, 7, 512, 4095, 4096, 4097, 65_536] {
        let chunk = vec![b'x'; chunk_size];
        let mut buf = Vec::new();
        for _ in 0..64 {
            let _ = accumulate(&mut buf, &chunk, LIMIT);
            assert!(
                buf.len() <= LIMIT,
                "buffer reached {} with chunk size {chunk_size}",
                buf.len()
            );
        }
    }
}

#[test]
fn a_single_oversized_chunk_is_refused_outright() {
    let mut buf = Vec::new();
    let huge = vec![b'x'; LIMIT * 4];
    assert!(accumulate(&mut buf, &huge, LIMIT).is_err());
    assert!(buf.is_empty(), "nothing should have been copied");
}

#[test]
fn health_counts_each_failure_kind_separately() {
    let mut h = SensorHealth::default();
    h.record(&IngestError::Http("refused".into()));
    h.record(&IngestError::Oversized { limit: 10, seen: 11 });
    h.record(&IngestError::Decode("bad json".into()));
    h.record(&IngestError::Oversized { limit: 10, seen: 99 });
    assert_eq!(h.http_errors, 1);
    assert_eq!(h.oversized_responses, 2);
    assert_eq!(h.decode_errors, 1);
    assert_eq!(h.faults(), 4);
}

#[test]
fn an_address_is_trimmed_and_lowered() {
    let c = parse(r#"{"ac":[{"hex":" 3CC8É ","lat":37.9,"lon":23.7,"alt_geom":100}]}"#);
    // Only the letters A to Z have a small form here.
    assert_eq!(c[0].id, "3cc8\u{c9}");
    assert_eq!(c[0].label, c[0].id, "an address stands in for a missing call sign");
    let blank = parse(r#"{"ac":[{"hex":"  ","lat":37.9,"lon":23.7,"alt_geom":100}]}"#);
    assert!(blank.is_empty());
    let none = parse(r#"{"ac":[{"lat":37.9,"lon":23.7,"alt_geom":100}]}"#);
    assert!(none.is_empty());
}

#[test]
fn altitude_falls_back_to_geometric() {
    let json = r#"{"ac":[
        {"hex":"a","lat":1.0,"lon":2.0,"alt_baro":1000,"alt_geom":2000},
        {"hex":"b","lat":1.0,"lon":2.0,"alt_geom":2000},
        {"hex":"c","lat":1.0,"lon":2.0,"alt_baro":"GROUND","alt_geom":2000},
        {"hex":"d","lat":1.0,"lon":2.0,"alt_baro":"n/a","alt_geom":2000},
        {"hex":"e","lat":1.0,"lon":2.0,"alt_baro":[],"alt_geom":2000},
        {"hex":"f","lat":1.0,"lon":2.0,"alt_baro":"n/a"}]}"#;
    let c = parse(json);
    let seen: Vec<(&str, f64, bool)> =
        c.iter().map(|c| (c.id.as_str(), f(c.geo.alt_m), c.on_ground)).collect();
    let (one, two) = (1000.0 * 0.3048, 2000.0 * 0.3048);
    assert_eq!(
        seen,
        [
            ("a", one, false),
            ("b", two, false),
            ("c", 0.0, true),
            ("d", two, false),
            ("e", two, false),
        ]
    );
}

#[test]
fn a_barometric_number_that_cannot_be_held_drops_the_record() {
    let (mut a, trig) = record(&serde_json::from_str(r#"{"hex":"a","lat":1.0,"lon":2.0}"#).unwrap());
    a.alt_baro = Some(Reading::Number(None));
    a.alt_geom = Some(d(100.0));
    assert!(decode(&a, trig).is_none());
}

#[test]
fn an_altitude_that_is_no_number_drops_the_record() {
    let (mut a, trig) = record(&serde_json::from_str(r#"{"hex":"a","lat":1.0,"lon":2.0}"#).unwrap());
    for bad in [f64::NAN, f64::INFINITY, f64::NEG_INFINITY] {
        a.alt_baro = Some(Reading::Number(Some(d(bad))));
        a.alt_geom = Some(d(100.0));
        assert!(decode(&a, trig).is_none());
        a.alt_baro = None;
        a.alt_geom = Some(d(bad));
        assert!(decode(&a, trig).is_none());
    }
}

#[test]
fn only_a_success_is_a_success() {
    for code in [200, 204, 299] {
        assert_eq!(check_status(code), Ok(()));
    }
    for code in [0, 199, 300, 304, 404, 503, u16::MAX] {
        assert_eq!(check_status(code), Err(IngestError::Http(format!("status {code}"))));
    }
}

#[test]
fn the_angles_of_a_record_are_in_radians() {
    let (a, _) = record(&serde_json::from_str(r#"{"hex":"a","lat":90,"lon":-180}"#).unwrap());
    let (lat, lon, track) = a.angles();
    assert_eq!((f(lat), f(lon), f(track)), (90f64.to_radians(), -180f64.to_radians(), 0.0));
}

#[test]
fn unusable_numbers_are_left_out_of_a_contact() {
    let (mut a, trig) = record(
        &serde_json::from_str(r#"{"hex":"a","lat":90.0,"lon":-180.0,"alt_geom":0}"#).unwrap(),
    );
    a.gs = Some(d(-1.0));
    a.track = Some(d(f64::NAN));
    a.baro_rate = Some(d(f64::INFINITY));
    a.geom_rate = Some(d(64.0));
    let c = decode(&a, trig).unwrap();
    assert!(c.gs_kt.is_none() && c.track_deg.is_none() && c.vrate_fpm.is_none());
    a.gs = Some(d(0.0));
    a.track = Some(d(359.0));
    a.baro_rate = None;
    let c = decode(&a, trig).unwrap();
    assert_eq!(c.gs_kt.map(f), Some(0.0));
    assert_eq!(c.track_deg.map(f), Some(359.0));
    assert_eq!(c.vrate_fpm.map(f), Some(64.0));
    a.lat = Some(d(f64::NAN));
    assert!(decode(&a, trig).is_none());
    a.lat = Some(d(-90.5));
    assert!(decode(&a, trig).is_none());
    a.lat = Some(d(90.0));
    a.lon = Some(d(180.1));
    assert!(decode(&a, trig).is_none());
}

#[test]
fn an_emergency_is_declared_or_squawked() {
    let flagged = |extra: &str| {
        let json = r#"{"ac":[{"hex":"a","lat":1.0,"lon":2.0,"alt_geom":0"#.to_string();
        parse(&(json + extra + "}]}"))[0].emergency
    };
    assert!(flagged(r#","squawk":"7500""#));
    assert!(flagged(r#","squawk":"7600""#));
    assert!(flagged(r#","emergency":"general""#));
    assert!(!flagged(r#","squawk":"7701""#));
    assert!(!flagged(r#","emergency":"none""#));
    assert!(!flagged(r#","emergency":"""#));
    assert!(!flagged(""));
}

#[test]
fn the_type_of_an_aircraft_comes_before_the_type_of_the_report() {
    let json = r#"{"ac":[
        {"hex":"a","lat":1.0,"lon":2.0,"alt_geom":0,"t":"C56X","type":"adsb_icao"},
        {"hex":"b","lat":1.0,"lon":2.0,"alt_geom":0,"type":"adsb_icao"},
        {"hex":"c","lat":1.0,"lon":2.0,"alt_geom":0}]}"#;
    let kinds: Vec<String> = parse(json).iter().map(|c| c.kind.clone()).collect();
    assert_eq!(kinds, ["C56X", "adsb_icao", ""]);
    assert_eq!(parse(json)[0].source, "ADS-B");
}

#[test]
fn failures_say_what_happened() {
    assert_eq!(IngestError::Http("refused".into()).message(), "http: refused");
    assert_eq!(IngestError::Decode("eof".into()).message(), "decode: eof");
    assert_eq!(
        IngestError::Oversized { limit: 4096, seen: 5120 }.message(),
        "response body exceeded 4096 bytes (reached 5120)"
    );
}

#[test]
fn a_body_is_read_up_to_its_limit() {
    assert!(matches!(
        Body::open(Some(11), 10),
        Err(IngestError::Oversized { limit: 10, seen: 11 })
    ));
    let mut body = Body::open(None, 10).expect("no length is no objection");
    assert!(body.feed(b"0123456").is_ok());
    assert_eq!(body.feed(b"7890"), Err(IngestError::Oversized { limit: 10, seen: 11 }));
    assert!(body.feed(b"789").is_ok());
    assert_eq!(body.into_bytes(), b"0123456789");
}

fn moment(secs: u64) -> Instant {
    Instant::at(Duration::from_secs(secs))
}

#[test]
fn a_failed_poll_still_makes_a_batch() {
    let mut sensor = AdsbSensor::new("http://feed/".into(), Duration::from_millis(2000), LIMIT);
    sensor.begin_poll();
    let failed = IngestError::Oversized { limit: LIMIT, seen: LIMIT + 1 };
    let batch = sensor.finish_poll(Err(failed), moment(5));
    assert!(batch.contacts.is_empty(), "a refused response must not fabricate contacts");
    assert_eq!(batch.received, moment(5));
    assert_eq!((batch.health.polls, batch.health.oversized_responses), (1, 1));

    sensor.begin_poll();
    let heard = parse(r#"{"ac":[{"hex":"a","lat":1.0,"lon":2.0,"alt_geom":0}]}"#);
    let batch = sensor.finish_poll(Ok((moment(7), heard)), moment(9));
    assert_eq!((batch.contacts.len(), batch.received), (1, moment(7)));
    assert_eq!((batch.health.polls, batch.health.faults()), (2, 1));
    assert_eq!((sensor.endpoint.as_str(), sensor.max_body), ("http://feed/", LIMIT));
}

#[test]
fn over_many_polls_faults_are_failed_polls() {
    let mut sensor = AdsbSensor::new("http://feed/".into(), Duration::from_millis(2000), LIMIT);
    let mut failed = 0;
    for k in 1..=30u64 {
        sensor.begin_poll();
        let outcome = match k % 5 {
            0 => Err(IngestError::Http("refused".into())),
            1 => Err(IngestError::Decode("eof".into())),
            2 => Err(IngestError::Oversized { limit: LIMIT, seen: LIMIT + 1 }),
            _ => Ok((moment(k), Vec::new())),
        };
        failed += outcome.is_err() as u64;
        let health = sensor.finish_poll(outcome, moment(k)).health;
        assert_eq!((health.polls, health.faults()), (k, failed));
        assert!(health.faults() <= health.polls);
    }
    assert_eq!(failed, 18);
}

#[test]
fn the_limits_are_what_they_say() {
    assert_eq!(f64::from_bits(MAX_REPORTED_AGE_S), 60.0);
    assert_eq!(f64::from_bits(MAX_LAT_DEG), 90.0);
    assert_eq!(f64::from_bits(MAX_LON_DEG), 180.0);
    assert_eq!(BODY_PREALLOC, 64 * 1024);
}
