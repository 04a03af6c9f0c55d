use aether::config::{get, parse, parse_whole, Config, ConfigError, Env};
use aether::double::Double;

fn d(x: f64) -> Double {
    Double::from_bits(x.to_bits())
}

const SETTINGS: &str = "
# the observer
SITE_LAT=37.9838
SITE_LON = 23.7275
SITE_ALT_M=0.0
ADSB_URL=\"https://feed/{lat}/{lon}/{dist}?again={lat}\"
ADSB_RADIUS_NM=+250
MAX_BODY_BYTES=8388608
POLL_MS='2000'
CYCLE_MS=500
TRACK_TIMEOUT_S=45\r
HORIZON_S=300
MIN_HORIZ_M=9260
MIN_VERT_M=305
PROCESS_NOISE=4.0
MEAS_VAR=900
GATE_SIGMA=5
not an assignment
DISPLAY_ROWS=20
DISPLAY_ROWS=24
";

fn load(raw: &str) -> Result<Config, ConfigError> {
    Config::load(raw)
}

#[test]
fn settings_are_read_into_their_types() {
    let c = load(SETTINGS).expect("the settings are complete");
    assert_eq!(c.site_lat, d(37.9838));
    assert_eq!(c.site_lon, d(23.7275));
    assert_eq!(c.site_alt_m, d(0.0));
    assert_eq!(c.adsb_url, "https://feed/{lat}/{lon}/{dist}?again={lat}");
    assert_eq!(c.adsb_radius_nm, 250);
    assert_eq!(c.max_body_bytes, 8_388_608);
    assert_eq!((c.poll_ms, c.cycle_ms, c.track_timeout_s), (2000, 500, 45));
    assert_eq!((c.horizon_s, c.min_horiz_m), (d(300.0), d(9260.0)));
    assert_eq!((c.min_vert_m, c.process_noise), (d(305.0), d(4.0)));
    assert_eq!((c.meas_var, c.gate_sigma), (d(900.0), d(5.0)));
    assert_eq!(c.display_rows, 24, "the last assignment holds");
}

#[test]
fn the_feed_template_is_expanded_against_the_site() {
    let c = load(SETTINGS).expect("the settings are complete");
    assert_eq!(c.adsb_endpoint(), "https://feed/37.9838/23.7275/250?again=37.9838");
}

fn without(key: &str) -> String {
    SETTINGS.lines().filter(|l| !l.starts_with(key)).collect::<Vec<_>>().join("\n")
}

#[test]
fn a_missing_setting_is_named() {
    for key in ["SITE_LAT", "ADSB_RADIUS_NM", "POLL_MS", "GATE_SIGMA", "DISPLAY_ROWS"] {
        let e = load(&without(key)).expect_err("a setting is missing");
        assert_eq!(e, ConfigError::Missing(key.to_string()));
        assert_eq!(e.message(), format!("{key} missing from .env"));
    }
    let e = load(&without("ADSB_URL")).expect_err("the feed is missing");
    assert_eq!(e, ConfigError::MissingUrl);
    assert_eq!(e.message(), "ADSB_URL missing");
}

#[test]
fn an_unreadable_setting_is_named_with_its_text() {
    let cases = [
        ("SITE_LAT", "north", "f64"),
        ("ADSB_RADIUS_NM", "4294967296", "u32"),
        ("MAX_BODY_BYTES", "-1", "usize"),
        ("POLL_MS", "18446744073709551616", "u64"),
        ("DISPLAY_ROWS", "", "usize"),
    ];
    for (key, raw, kind) in cases {
        let e = load(&format!("{SETTINGS}\n{key}={raw}")).expect_err("a setting is unreadable");
        assert_eq!(e.message(), format!("{key}={raw} is not a valid {kind}"));
    }
}

#[test]
fn the_first_fault_is_the_one_reported() {
    let e = load("").expect_err("nothing is set");
    assert_eq!(e, ConfigError::Missing("SITE_LAT".to_string()));
    let e = load("SITE_LAT=1\nSITE_LON=2\nSITE_ALT_M=x\n").expect_err("much is missing");
    let invalid = ConfigError::Invalid { key: "SITE_ALT_M".into(), raw: "x".into(), kind: "f64" };
    assert_eq!(e, invalid);
    let e = load("SITE_LAT=1\nSITE_LON=2\nSITE_ALT_M=3").expect_err("the feed is missing");
    assert_eq!(e, ConfigError::MissingUrl);
}

#[test]
fn lines_are_trimmed_and_values_unquoted() {
    let env = parse("  A = 1 \n#B=2\n=empty key\nC=\" 'x' \"\nD=a=b\nE='\"y\"'\nF\n\n\u{2003}G\u{a0}=z");
    assert_eq!(env.get("A"), Some("1"));
    assert_eq!(env.get("B"), None);
    assert_eq!(env.get(""), Some("empty key"));
    assert_eq!(env.get("C"), Some(" 'x' "), "quotes inside the double quotes stay");
    assert_eq!(env.get("D"), Some("a=b"));
    assert_eq!(env.get("E"), Some("\"y\""), "double quotes are looked for first");
    assert_eq!(env.get("F"), None);
    assert_eq!(env.get("G"), Some("z"));
    assert_eq!(Env::new().get("A"), None);
}

#[test]
fn a_later_assignment_replaces_an_earlier_one() {
    let env = parse("A=1\nB=2\nA=3\n");
    assert_eq!((env.get("A"), env.get("B")), (Some("3"), Some("2")));
}

#[test]
fn whole_numbers_are_read_within_their_range() {
    for raw in ["0", "7", "007", "+12", "255", "256", "", "+", "-1", "1x", " 1", "++1", "1_000"] {
        assert_eq!(parse_whole(raw, 255), raw.parse::<u8>().ok().map(u64::from), "{raw:?}");
    }
    let max = u64::MAX.to_string();
    assert_eq!(parse_whole(&max, u64::MAX), Some(u64::MAX));
    assert_eq!(parse_whole("18446744073709551616", u64::MAX), None);
    assert_eq!(parse_whole("99999999999999999999999", u64::MAX), None);
    let reals = parse("X=-0.25\nY=1e3\nZ=x");
    assert_eq!(get::<Double>(&reals, "X"), Ok(d(-0.25)));
    assert_eq!(get::<Double>(&reals, "Y"), Ok(d(1000.0)));
    assert!(get::<Double>(&reals, "Z").is_err());
    let env = parse("N=4294967295\nM=4294967296");
    assert_eq!(get::<u32>(&env, "N"), Ok(u32::MAX));
    assert!(get::<u32>(&env, "M").is_err());
    assert_eq!(get::<u64>(&env, "M"), Ok(4_294_967_296));
    assert_eq!(get::<usize>(&env, "N"), Ok(4_294_967_295));
}
