use aether::double::Double;
use aether::geo::{
    compass_deg, from_ecef, geodetic_latitude, parametric_latitude, to_degrees, to_ecef,
    to_radians, Ecef, Enu, Frame, Geodetic, SinCos, DEG_PER_RAD, FPM_TO_MS, FT_TO_M, FULL_TURN,
    KT_TO_MS, MS_TO_KT, POLAR, RAD_PER_DEG, WGS84_A, WGS84_B, WGS84_E2, WGS84_EP2, WGS84_F,
};

fn d(x: f64) -> Double {
    Double::from_bits(x.to_bits())
}

fn f(x: Double) -> f64 {
    f64::from_bits(x.to_bits())
}

fn turn(rad: Double) -> SinCos {
    let (sin, cos) = f(rad).sin_cos();
    SinCos { sin: d(sin), cos: d(cos) }
}

fn place(lat_deg: f64, lon_deg: f64, alt_m: f64) -> Geodetic {
    Geodetic { lat_deg: d(lat_deg), lon_deg: d(lon_deg), alt_m: d(alt_m) }
}

fn enu(frame: &Frame, p: Geodetic) -> Enu {
    let (lat, lon) = p.angles();
    frame.to_enu(p, turn(lat), turn(lon))
}

fn angle((y, x): (Double, Double)) -> Double {
    d(f(y).atan2(f(x)))
}

fn geodetic(q: Ecef) -> Geodetic {
    let theta = turn(angle(parametric_latitude(q)));
    let lat = angle(geodetic_latitude(q, theta));
    from_ecef(q, lat, turn(lat), angle((q.y, q.x)))
}

fn back(frame: &Frame, p: Enu) -> Geodetic {
    let q = frame.from_enu(p);
    let theta = turn(angle(parametric_latitude(q)));
    let lat = angle(geodetic_latitude(q, theta));
    frame.to_geodetic(p, lat, turn(lat), angle((q.y, q.x)))
}

fn athens() -> Frame {
    let site = place(37.9838, 23.7275, 0.0);
    let (lat, lon) = site.angles();
    Frame::new(site, turn(lat), turn(lon))
}

#[test]
fn origin_maps_to_zero() {
    let frame = athens();
    let p = enu(&frame, frame.site);
    assert!(f(p.norm()) < 1e-6, "origin should be the ENU zero, got {p:?}");
}

#[test]
fn one_degree_north_is_about_111km() {
    let p = enu(&athens(), place(38.9838, 23.7275, 0.0));
    assert!(f(p.n) > 110_000.0 && f(p.n) < 112_000.0, "northing was {}", f(p.n));
    assert!(f(p.e).abs() < 1.0, "easting should be ~0, was {}", f(p.e));
}

#[test]
fn easting_is_shorter_than_northing_at_this_latitude() {
    // The whole reason we leave degrees at the sensor boundary.
    let frame = athens();
    let north = f(enu(&frame, place(38.9838, 23.7275, 0.0)).n);
    let east = f(enu(&frame, place(37.9838, 24.7275, 0.0)).e);
    assert!(east < north * 0.85, "east {east} vs north {north}");
}

#[test]
fn altitude_becomes_up() {
    let p = enu(&athens(), place(37.9838, 23.7275, 10_000.0));
    assert!((f(p.u) - 10_000.0).abs() < 1.0, "up was {}", f(p.u));
}

#[test]
fn enu_round_trips_back_to_geodetic() {
    let frame = athens();
    for (lat, lon, alt) in [
        (37.9838, 23.7275, 0.0),
        (38.5, 24.1, 11_000.0),
        (41.0, 20.0, 12_496.8),
        (34.2, 27.9, 300.0),
    ] {
        let g = back(&frame, enu(&frame, place(lat, lon, alt)));
        assert!((f(g.lat_deg) - lat).abs() < 1e-9, "lat {lat} -> {}", f(g.lat_deg));
        assert!((f(g.lon_deg) - lon).abs() < 1e-9, "lon {lon} -> {}", f(g.lon_deg));
        assert!((f(g.alt_m) - alt).abs() < 1e-3, "alt {alt} -> {}", f(g.alt_m));
    }
}

#[test]
fn up_is_not_altitude_at_long_range() {
    // An aircraft at the edge of the configured 250 NM picture, cruising at 36,089 ft,
    // sits about 19,000 ft *below* the Athens tangent plane.
    let frame = athens();
    let truth_m = 11_000.0;
    let p = enu(&frame, place(37.9838 + 4.16, 23.7275, truth_m));

    assert!(f(p.horiz()) > 460_000.0, "range was {}", f(p.horiz()) / 1000.0);
    assert!(
        f(p.u) < -5_000.0,
        "the tangent-plane height should be far below zero here, was {}",
        f(p.u)
    );
    let alt = f(back(&frame, p).alt_m);
    assert!((alt - truth_m).abs() < 0.01, "the inverse must recover true altitude, got {alt}");
}

#[test]
fn curvature_error_cancels_between_a_nearby_pair() {
    // The tangent-plane droop is common-mode for two aircraft near each other, so their
    // ENU vertical *separation* is right even where their heights are badly wrong.
    let frame = athens();
    let (lat, lon) = (37.9838 + 4.16, 23.7275);
    let lower = enu(&frame, place(lat, lon, 11_000.0));
    let upper = enu(&frame, place(lat, lon + 0.114, 11_305.0));

    assert!(f(lower.u) < -5_000.0, "both should be far below the plane");
    let enu_separation = f(upper.u) - f(lower.u);
    assert!(
        (enu_separation - 305.0).abs() < 10.0,
        "pair separation drifted to {enu_separation} m; the screening frame is no \
         longer safe to use unconverted"
    );
}

#[test]
fn bearing_is_compass_convention() {
    let east = Enu { e: d(1000.0), n: d(0.0), u: d(0.0) };
    let north = Enu { e: d(0.0), n: d(1000.0), u: d(0.0) };
    assert!((f(east.bearing_deg(angle((east.e, east.n)))) - 90.0).abs() < 1e-9);
    assert!(f(north.bearing_deg(angle((north.e, north.n)))).abs() < 1e-9);
}

#[test]
fn a_bearing_to_the_west_is_positive() {
    let west = Enu { e: d(-1000.0), n: d(0.0), u: d(0.0) };
    let deg = f(west.bearing_deg(angle((west.e, west.n))));
    assert_eq!(deg, 270.0);
    assert_eq!(f(compass_deg(d(-std::f64::consts::FRAC_PI_2))), 270.0);
}

#[test]
fn the_constants_are_those_of_the_ellipsoid() {
    let (a, flat) = (6_378_137.0f64, 1.0f64 / 298.257223563);
    let b = a * (1.0 - flat);
    assert_eq!(f64::from_bits(WGS84_A), a);
    assert_eq!(f64::from_bits(WGS84_F), flat);
    assert_eq!(f64::from_bits(WGS84_E2), flat * (2.0 - flat));
    assert_eq!(f64::from_bits(WGS84_B), b);
    assert_eq!(f64::from_bits(WGS84_EP2), (a * a - b * b) / (b * b));
    assert_eq!(f64::from_bits(FT_TO_M), 0.3048);
    assert_eq!(f64::from_bits(KT_TO_MS), 0.514_444_4);
    assert_eq!(f64::from_bits(MS_TO_KT), 1.0 / 0.514_444_4);
    assert_eq!(f64::from_bits(FPM_TO_MS), 0.3048 / 60.0);
    assert_eq!(f64::from_bits(RAD_PER_DEG), std::f64::consts::PI / 180.0);
    assert_eq!(f64::from_bits(DEG_PER_RAD), 180.0 / std::f64::consts::PI);
    assert_eq!(f64::from_bits(FULL_TURN), 360.0);
    assert_eq!(f64::from_bits(POLAR), 1e-10);
}

#[test]
fn degrees_and_radians_are_those_of_the_platform() {
    for x in [0.0, 1.0, -90.0, 37.9838, 180.0, 359.5] {
        assert_eq!(f(to_radians(d(x))), x.to_radians());
        assert_eq!(f(to_degrees(d(x))), x.to_degrees());
    }
}

#[test]
fn a_point_on_the_equator_is_one_radius_out() {
    let p = place(0.0, 0.0, 0.0);
    let (lat, lon) = p.angles();
    let q = to_ecef(p, turn(lat), turn(lon));
    assert_eq!((f(q.x), f(q.y), f(q.z)), (6_378_137.0, 0.0, 0.0));
    assert_eq!(f(geodetic(q).alt_m), 0.0);
}

#[test]
fn the_altitude_over_a_pole_comes_from_the_axis() {
    // Radius over cosine is useless here: the cosine is all but zero.
    let b = f64::from_bits(WGS84_B);
    let q = Ecef { x: d(0.0), y: d(0.0), z: d(b + 1000.0) };
    let g = geodetic(q);
    assert_eq!(f(g.lat_deg), 90.0);
    assert!((f(g.alt_m) - 1000.0).abs() < 1e-6, "alt was {}", f(g.alt_m));
}

#[test]
fn vectors_add_subtract_and_scale() {
    let a = Enu { e: d(1.0), n: d(2.0), u: d(3.0) };
    let b = Enu { e: d(10.0), n: d(20.0), u: d(30.0) };
    let s = a + b * d(2.0) - a;
    assert_eq!((f(s.e), f(s.n), f(s.u)), (20.0, 40.0, 60.0));
    assert_eq!(f(a.inner(b)), 140.0);
    let v = Enu { e: d(2.0), n: d(3.0), u: d(6.0) };
    assert_eq!(f(v.norm()), 7.0);
    assert_eq!(f(Enu { e: d(3.0), n: d(4.0), u: d(9.0) }.horiz()), 5.0);
    assert_eq!(f(Enu::default().norm()), 0.0);
}

#[test]
fn the_parts_of_an_angle_are_handed_out() {
    let p = Enu { e: d(3.0), n: d(4.0), u: d(5.0) };
    assert_eq!(p.bearing_parts(), (d(3.0), d(4.0)));
    let q = Ecef { x: d(1.0), y: d(2.0), z: d(3.0) };
    assert_eq!(q.longitude_parts(), (d(2.0), d(1.0)));
}

/// A frame at these coordinates, and the same place so much higher.
fn frame_at(lat: f64, lon: f64, alt: f64) -> (Frame, SinCos, SinCos) {
    let site = Geodetic { lat_deg: d(lat), lon_deg: d(lon), alt_m: d(alt) };
    let (a, b) = site.angles();
    (Frame::new(site, turn(a), turn(b)), turn(a), turn(b))
}

#[test]
fn distances_do_not_depend_on_the_frame() {
    let (athens, a, b) = frame_at(37.9838, 23.7275, 0.0);
    let (south, c, e) = frame_at(-34.5, 151.2, 40.0);
    let place = |fr: &Frame, lat: SinCos, lon: SinCos, alt: f64| {
        fr.to_enu(Geodetic { lat_deg: d(0.0), lon_deg: d(0.0), alt_m: d(alt) }, lat, lon)
    };
    let apart = |fr: &Frame| f((place(fr, a, b, 11_000.0) - place(fr, c, e, 300.0)).norm());
    assert!((apart(&athens) - apart(&south)).abs() < 1e-3);
    // And the way back from a frame is the inverse of the way in.
    let q = to_ecef(Geodetic { lat_deg: d(0.0), lon_deg: d(0.0), alt_m: d(300.0) }, c, e);
    let back = athens.from_enu(place(&athens, c, e, 300.0));
    for (x, y) in [(q.x, back.x), (q.y, back.y), (q.z, back.z)] {
        assert!((f(x) - f(y)).abs() < 1e-6);
    }
}

#[test]
fn what_is_over_the_site_is_up() {
    let (fr, lat, lon) = frame_at(37.9838, 23.7275, 120.0);
    let p = fr.to_enu(Geodetic { lat_deg: d(0.0), lon_deg: d(0.0), alt_m: d(5_120.0) }, lat, lon);
    assert!(f(p.e).abs() < 1e-3 && f(p.n).abs() < 1e-3);
    assert!((f(p.u) - 5_000.0).abs() < 1e-3);
}
