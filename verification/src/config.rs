//! Runtime configuration: assignments, one per line, read into typed settings.
//!
//! No config crate: the parser is short, it has no transitive dependencies, and on an
//! edge target every dependency is something you have to justify to a certifier.
use crate::double::reading;
use crate::double::reading::parse_real;
use crate::double::Double;
use crate::text;
use crate::text::find;
use vstd::prelude::*;

verus! {

/// The lines of a text.
pub open spec fn lines(s: Seq<char>) -> Seq<Seq<char>>
    decreases s.len(),
{
    let n = text::first(s, '\n') as int;
    if n < s.len() {
        seq![s.take(n)] + lines(s.skip(n + 1))
    } else {
        seq![s]
    }
}

/// The assignment on a line: a key, an equals sign and a value. Blank lines and those that
/// start with `#` hold none; quotes around the value are no part of it.
pub open spec fn assignment(line: Seq<char>) -> Option<(Seq<char>, Seq<char>)> {
    let s = text::trimmed(line);
    let n = text::first(s, '=') as int;
    if s.len() == 0 || s[0] == '#' || n >= s.len() {
        None
    } else {
        let value = text::trimmed(s.skip(n + 1));
        Some(
            (text::trimmed(s.take(n)), text::stripped(text::stripped(value, '"'), '\'')),
        )
    }
}

/// What the lines assign, a later one before an earlier.
pub open spec fn assigned(lines: Seq<Seq<char>>) -> Map<Seq<char>, Seq<char>>
    decreases lines.len(),
{
    if lines.len() == 0 {
        Map::empty()
    } else {
        let before = assigned(lines.drop_last());
        match assignment(lines.last()) {
            Some((key, value)) => before.insert(key, value),
            None => before,
        }
    }
}

/// Settings by name.
#[derive(Debug)]
pub struct Env {
    /// In the order of assignment: of two with one key the later holds.
    entries: Vec<(String, String)>,
}

pub open spec fn contents(entries: Seq<(String, String)>) -> Map<Seq<char>, Seq<char>>
    decreases entries.len(),
{
    if entries.len() == 0 {
        Map::empty()
    } else {
        contents(entries.drop_last()).insert(entries.last().0@, entries.last().1@)
    }
}

impl View for Env {
    type V = Map<Seq<char>, Seq<char>>;

    closed spec fn view(&self) -> Map<Seq<char>, Seq<char>> {
        contents(self.entries@)
    }
}

impl Env {
    /// No settings.
    pub fn new() -> (env: Env)
        ensures
            env@ == Map::<Seq<char>, Seq<char>>::empty(),
    {
        Env { entries: Vec::new() }
    }

    /// Take up the assignment on a line, if it holds one.
    fn take_up(&mut self, line: &str)
        ensures
            final(self)@ == (match assignment(line@) {
                Some((key, value)) => old(self)@.insert(key, value),
                None => old(self)@,
            }),
    {
        let s = text::characters(text::trim(line).as_str());
        if s.len() == 0 || s[0] == '#' {
            return;
        }
        let n: usize = find(&s, 0, '=');
        assert(s@.skip(0) =~= s@);
        if n >= s.len() {
            return;
        }
        let key = text::trim(text::part(&s, 0, n).as_str());
        let value = text::trim(text::part(&s, n + 1, s.len()).as_str());
        let value = text::strip(text::strip(value.as_str(), '"').as_str(), '\'');
        assert(s@.subrange(0, n as int) =~= s@.take(n as int));
        assert(s@.subrange(n + 1, s@.len() as int) =~= s@.skip(n + 1));
        let ghost before = self.entries@;
        self.entries.push((key, value));
        assert(self.entries@.drop_last() =~= before);
    }

    /// What was last assigned to the key.
    pub fn get(&self, key: &str) -> (r: Option<&str>)
        ensures
            match r {
                Some(value) => self@.contains_key(key@) && value@ == self@[key@],
                None => !self@.contains_key(key@),
            },
    {
        let mut i: usize = self.entries.len();
        let ghost all = self.entries@;
        assert(all.take(all.len() as int) =~= all);
        while i > 0
            invariant
                i <= all.len(),
                all == self.entries@,
                contents(all.take(i as int)).contains_key(key@) == self@.contains_key(key@),
                self@.contains_key(key@) ==> contents(all.take(i as int))[key@] == self@[key@],
            decreases i,
        {
            assert(all.take(i as int).drop_last() =~= all.take(i - 1));
            i = i - 1;
            if text::same(self.entries[i].0.as_str(), key) {
                return Some(self.entries[i].1.as_str());
            }
        }
        None
    }
}

/// The assignments in a text.
pub fn parse(raw: &str) -> (env: Env)
    ensures
        env@ == assigned(lines(raw@)),
{
    let s = text::characters(raw);
    let mut env = Env::new();
    let mut from: usize = 0;
    let ghost mut done: Seq<Seq<char>> = Seq::empty();
    assert(s@.skip(0) =~= s@);
    assert(done + lines(s@) =~= lines(s@));
    loop
        invariant
            from <= s@.len(),
            s@ == raw@,
            lines(raw@) == done + lines(s@.skip(from as int)),
            env@ == assigned(done),
        decreases s@.len() - from,
    {
        let to: usize = find(&s, from, '\n');
        let line = text::part(&s, from, to);
        env.take_up(line.as_str());
        proof {
            let rest = s@.skip(from as int);
            assert(s@.subrange(from as int, to as int) =~= rest.take(to - from));
            let next = done.push(line@);
            assert(next.drop_last() =~= done);
            if to < s@.len() {
                assert(rest.skip(to - from + 1) =~= s@.skip(to + 1));
                assert(done + (seq![line@] + lines(s@.skip(to + 1))) =~= next + lines(
                    s@.skip(to + 1),
                ));
            } else {
                assert(rest.take(to - from) =~= rest);
                assert(done + seq![line@] =~= next);
            }
            done = next;
        }
        if to >= s.len() {
            return env;
        }
        from = to + 1;
    }
}

/// The text behind a plus sign, or all of it where there is none.
pub open spec fn unsigned(s: Seq<char>) -> Seq<char> {
    if s.len() > 0 && s[0] == '+' {
        s.skip(1)
    } else {
        s
    }
}

/// The whole number that a text writes: digits, with or without a plus sign.
pub open spec fn whole_number(s: Seq<char>) -> Option<nat> {
    let digits = unsigned(s);
    if digits.len() > 0 && forall|i: int|
        0 <= i < digits.len() ==> text::is_digit(#[trigger] digits[i]) {
        Some(text::digits_value(digits))
    } else {
        None
    }
}

proof fn lemma_digits_grow(s: Seq<char>, n: int)
    requires
        0 <= n <= s.len(),
    ensures
        text::digits_value(s.take(n)) <= text::digits_value(s),
    decreases s.len() - n,
{
    if n < s.len() {
        lemma_digits_grow(s.drop_last(), n);
        assert(s.drop_last().take(n) =~= s.take(n));
    } else {
        assert(s.take(n) =~= s);
    }
}

/// The whole number that a text writes, if it is at most `max`.
pub fn parse_whole(s: &str, max: u64) -> (r: Option<u64>)
    ensures
        match r {
            Some(n) => whole_number(s@) == Some(n as nat) && n <= max,
            None => match whole_number(s@) {
                Some(n) => n > max,
                None => true,
            },
        },
{
    let v = text::characters(s);
    let n: usize = v.len();
    let from: usize = if n > 0 && v[0] == '+' {
        1
    } else {
        0
    };
    if from == n {
        return None;
    }
    let ghost digits = unsigned(s@);
    assert(digits =~= v@.skip(from as int));
    assert(digits.take(0) =~= Seq::empty());
    let mut value: u64 = 0;
    for i in from..n
        invariant
            n == v@.len(),
            from < n,
            digits == v@.skip(from as int),
            digits == unsigned(s@),
            value <= max,
            value == text::digits_value(digits.take(i - from)),
            forall|k: int| 0 <= k < i - from ==> text::is_digit(#[trigger] digits[k]),
    {
        let c = v[i];
        assert(digits[i - from] == c);
        if !('0' <= c && c <= '9') {
            return None;
        }
        let d: u64 = (c as u8 - 48) as u64;
        proof {
            assert(digits.take(i - from + 1).drop_last() =~= digits.take(i - from));
            lemma_digits_grow(digits, i - from + 1);
        }
        if d > max || value > (max - d) / 10 {
            return None;
        }
        value = value * 10 + d;
    }
    assert(digits.take(n - from) =~= digits);
    Some(value)
}

/// The last assignment of a key is the one that holds.
pub proof fn law_last_assignment_holds(
    before: Seq<Seq<char>>,
    line: Seq<char>,
    after: Seq<Seq<char>>,
    key: Seq<char>,
    value: Seq<char>,
)
    requires
        assignment(line) == Some((key, value)),
        forall|i: int|
            0 <= i < after.len() ==> match assignment(#[trigger] after[i]) {
                Some((other, _)) => other != key,
                None => true,
            },
    ensures
        assigned(before.push(line) + after).contains_key(key),
        assigned(before.push(line) + after)[key] == value,
    decreases after.len(),
{
    let all = before.push(line) + after;
    if after.len() == 0 {
        assert(all =~= before.push(line));
        assert(all.drop_last() =~= before);
    } else {
        law_last_assignment_holds(before, line, after.drop_last(), key, value);
        assert(all.drop_last() =~= before.push(line) + after.drop_last());
        assert(all.last() == after[after.len() - 1]);
    }
}

/// A type that a setting can have.
pub trait Setting: Sized {
    /// The value that a text writes.
    spec fn reading(raw: Seq<char>) -> Option<Self>;

    spec fn title() -> Seq<char>;

    fn read(raw: &str) -> (r: Option<Self>)
        ensures
            r == Self::reading(raw@),
    ;

    fn name() -> (r: &'static str)
        ensures
            r@ == Self::title(),
    ;
}

impl Setting for u32 {
    open spec fn reading(raw: Seq<char>) -> Option<u32> {
        match whole_number(raw) {
            Some(n) if n <= u32::MAX => Some(n as u32),
            _ => None,
        }
    }

    open spec fn title() -> Seq<char> {
        "u32"@
    }

    fn read(raw: &str) -> (r: Option<u32>) {
        match parse_whole(raw, u32::MAX as u64) {
            Some(n) => Some(n as u32),
            None => None,
        }
    }

    fn name() -> (r: &'static str) {
        "u32"
    }
}

impl Setting for u64 {
    open spec fn reading(raw: Seq<char>) -> Option<u64> {
        match whole_number(raw) {
            Some(n) if n <= u64::MAX => Some(n as u64),
            _ => None,
        }
    }

    open spec fn title() -> Seq<char> {
        "u64"@
    }

    fn read(raw: &str) -> (r: Option<u64>) {
        match parse_whole(raw, u64::MAX) {
            Some(n) => Some(n),
            None => None,
        }
    }

    fn name() -> (r: &'static str) {
        "u64"
    }
}

impl Setting for usize {
    open spec fn reading(raw: Seq<char>) -> Option<usize> {
        match whole_number(raw) {
            Some(n) if n <= usize::MAX => Some(n as usize),
            _ => None,
        }
    }

    open spec fn title() -> Seq<char> {
        "usize"@
    }

    fn read(raw: &str) -> (r: Option<usize>) {
        match parse_whole(raw, usize::MAX as u64) {
            Some(n) => Some(n as usize),
            None => None,
        }
    }

    fn name() -> (r: &'static str) {
        "usize"
    }
}

impl Setting for Double {
    open spec fn reading(raw: Seq<char>) -> Option<Double> {
        reading::real_number(raw)
    }

    open spec fn title() -> Seq<char> {
        "f64"@
    }

    fn read(raw: &str) -> (r: Option<Double>) {
        parse_real(raw)
    }

    fn name() -> (r: &'static str) {
        "f64"
    }
}

/// Why a configuration cannot be used.
#[derive(Debug, Clone, PartialEq, Eq)]
pub enum ConfigError {
    /// The key is not assigned.
    Missing(String),
    /// The address of the feed is not assigned.
    MissingUrl,
    /// The text assigned to the key does not write a value of the type.
    Invalid { key: String, raw: String, kind: &'static str },
}

/// What is wrong with a configuration.
pub enum Fault {
    Missing(Seq<char>),
    MissingUrl,
    Invalid(Seq<char>, Seq<char>, Seq<char>),
}

impl View for ConfigError {
    type V = Fault;

    open spec fn view(&self) -> Fault {
        match self {
            ConfigError::Missing(key) => Fault::Missing(key@),
            ConfigError::MissingUrl => Fault::MissingUrl,
            ConfigError::Invalid { key, raw, kind } => Fault::Invalid(key@, raw@, kind@),
        }
    }
}

impl Fault {
    pub open spec fn text(self) -> Seq<char> {
        match self {
            Fault::Missing(key) => key + " missing from .env"@,
            Fault::MissingUrl => "ADSB_URL missing"@,
            Fault::Invalid(key, raw, kind) => key + "="@ + raw + " is not a valid "@ + kind,
        }
    }
}

impl ConfigError {
    /// What is wrong, in words.
    pub fn message(&self) -> (r: String)
        ensures
            r@ == self@.text(),
    {
        let mut out = String::new();
        match self {
            ConfigError::Missing(key) => {
                out.append(key.as_str());
                out.append(" missing from .env");
            },
            ConfigError::MissingUrl => {
                out.append("ADSB_URL missing");
            },
            ConfigError::Invalid { key, raw, kind } => {
                out.append(key.as_str());
                out.append("=");
                out.append(raw.as_str());
                out.append(" is not a valid ");
                out.append(kind);
            },
        }
        assert(out@ =~= self@.text());
        out
    }
}

/// The value of a setting, if it is assigned and its text writes one.
pub open spec fn setting<T: Setting>(env: Map<Seq<char>, Seq<char>>, key: Seq<char>) -> Option<T> {
    if env.contains_key(key) {
        T::reading(env[key])
    } else {
        None
    }
}

/// What is wrong with a setting.
pub open spec fn fault<T: Setting>(env: Map<Seq<char>, Seq<char>>, key: Seq<char>) -> Option<
    Fault,
> {
    if !env.contains_key(key) {
        Some(Fault::Missing(key))
    } else if T::reading(env[key]) is None {
        Some(Fault::Invalid(key, env[key], T::title()))
    } else {
        None
    }
}

/// The value of a setting.
pub fn get<T: Setting>(env: &Env, key: &str) -> (r: Result<T, ConfigError>)
    ensures
        match r {
            Ok(v) => setting::<T>(env@, key@) == Some(v) && fault::<T>(env@, key@) is None,
            Err(e) => fault::<T>(env@, key@) == Some(e@),
        },
{
    match env.get(key) {
        Some(raw) => match T::read(raw) {
            Some(v) => Ok(v),
            None => Err(
                ConfigError::Invalid {
                    key: key.to_string(),
                    raw: raw.to_string(),
                    kind: T::name(),
                },
            ),
        },
        None => Err(ConfigError::Missing(key.to_string())),
    }
}

pub open spec fn url_fault(env: Map<Seq<char>, Seq<char>>) -> Option<Fault> {
    if env.contains_key("ADSB_URL"@) {
        None
    } else {
        Some(Fault::MissingUrl)
    }
}

fn url(env: &Env) -> (r: Result<String, ConfigError>)
    ensures
        match r {
            Ok(v) => env@.contains_key("ADSB_URL"@) && v@ == env@["ADSB_URL"@],
            Err(e) => url_fault(env@) == Some(e@),
        },
{
    match env.get("ADSB_URL") {
        Some(raw) => Ok(raw.to_string()),
        None => Err(ConfigError::MissingUrl),
    }
}

#[derive(Debug, Clone)]
pub struct Config {
    pub site_lat: Double,
    pub site_lon: Double,
    pub site_alt_m: Double,
    pub adsb_url: String,
    pub adsb_radius_nm: u32,
    /// Hard ceiling on one response body, in bytes.
    pub max_body_bytes: usize,
    pub poll_ms: u64,
    pub cycle_ms: u64,
    pub track_timeout_s: u64,
    pub horizon_s: Double,
    pub min_horiz_m: Double,
    pub min_vert_m: Double,
    pub process_noise: Double,
    pub meas_var: Double,
    pub gate_sigma: Double,
    pub display_rows: usize,
}

/// The first of two faults, if there is one.
pub open spec fn either(a: Option<Fault>, b: Option<Fault>) -> Option<Fault> {
    if a is Some {
        a
    } else {
        b
    }
}

/// What is wrong with the first setting that cannot be read, in the order in which they
/// are.
pub open spec fn first_fault(env: Map<Seq<char>, Seq<char>>) -> Option<Fault> {
    let f = fault::<Double>(env, "SITE_LAT"@);
    let f = either(f, fault::<Double>(env, "SITE_LON"@));
    let f = either(f, fault::<Double>(env, "SITE_ALT_M"@));
    let f = either(f, url_fault(env));
    let f = either(f, fault::<u32>(env, "ADSB_RADIUS_NM"@));
    let f = either(f, fault::<usize>(env, "MAX_BODY_BYTES"@));
    let f = either(f, fault::<u64>(env, "POLL_MS"@));
    let f = either(f, fault::<u64>(env, "CYCLE_MS"@));
    let f = either(f, fault::<u64>(env, "TRACK_TIMEOUT_S"@));
    let f = either(f, fault::<Double>(env, "HORIZON_S"@));
    let f = either(f, fault::<Double>(env, "MIN_HORIZ_M"@));
    let f = either(f, fault::<Double>(env, "MIN_VERT_M"@));
    let f = either(f, fault::<Double>(env, "PROCESS_NOISE"@));
    let f = either(f, fault::<Double>(env, "MEAS_VAR"@));
    let f = either(f, fault::<Double>(env, "GATE_SIGMA"@));
    either(f, fault::<usize>(env, "DISPLAY_ROWS"@))
}

impl Config {
    /// Each setting has the value that is assigned to it.
    pub open spec fn holds(self, env: Map<Seq<char>, Seq<char>>) -> bool {
        &&& setting::<Double>(env, "SITE_LAT"@) == Some(self.site_lat)
        &&& setting::<Double>(env, "SITE_LON"@) == Some(self.site_lon)
        &&& setting::<Double>(env, "SITE_ALT_M"@) == Some(self.site_alt_m)
        &&& env.contains_key("ADSB_URL"@) && self.adsb_url@ == env["ADSB_URL"@]
        &&& setting::<u32>(env, "ADSB_RADIUS_NM"@) == Some(self.adsb_radius_nm)
        &&& setting::<usize>(env, "MAX_BODY_BYTES"@) == Some(self.max_body_bytes)
        &&& setting::<u64>(env, "POLL_MS"@) == Some(self.poll_ms)
        &&& setting::<u64>(env, "CYCLE_MS"@) == Some(self.cycle_ms)
        &&& setting::<u64>(env, "TRACK_TIMEOUT_S"@) == Some(self.track_timeout_s)
        &&& setting::<Double>(env, "HORIZON_S"@) == Some(self.horizon_s)
        &&& setting::<Double>(env, "MIN_HORIZ_M"@) == Some(self.min_horiz_m)
        &&& setting::<Double>(env, "MIN_VERT_M"@) == Some(self.min_vert_m)
        &&& setting::<Double>(env, "PROCESS_NOISE"@) == Some(self.process_noise)
        &&& setting::<Double>(env, "MEAS_VAR"@) == Some(self.meas_var)
        &&& setting::<Double>(env, "GATE_SIGMA"@) == Some(self.gate_sigma)
        &&& setting::<usize>(env, "DISPLAY_ROWS"@) == Some(self.display_rows)
    }

    /// The settings that a text assigns, or what is wrong with the first that cannot be
    /// read.
    pub fn load(raw: &str) -> (r: Result<Config, ConfigError>)
        ensures
            ({
                let env = assigned(lines(raw@));
                match r {
                    Ok(c) => c.holds(env) && first_fault(env) is None,
                    Err(e) => first_fault(env) == Some(e@),
                }
            }),
    {
        let env = parse(raw);
        let site_lat = match get::<Double>(&env, "SITE_LAT") {
            Ok(v) => v,
            Err(e) => return Err(e),
        };
        let site_lon = match get::<Double>(&env, "SITE_LON") {
            Ok(v) => v,
            Err(e) => return Err(e),
        };
        let site_alt_m = match get::<Double>(&env, "SITE_ALT_M") {
            Ok(v) => v,
            Err(e) => return Err(e),
        };
        let adsb_url = match url(&env) {
            Ok(v) => v,
            Err(e) => return Err(e),
        };
        let adsb_radius_nm = match get::<u32>(&env, "ADSB_RADIUS_NM") {
            Ok(v) => v,
            Err(e) => return Err(e),
        };
        let max_body_bytes = match get::<usize>(&env, "MAX_BODY_BYTES") {
            Ok(v) => v,
            Err(e) => return Err(e),
        };
        let poll_ms = match get::<u64>(&env, "POLL_MS") {
            Ok(v) => v,
            Err(e) => return Err(e),
        };
        let cycle_ms = match get::<u64>(&env, "CYCLE_MS") {
            Ok(v) => v,
            Err(e) => return Err(e),
        };
        let track_timeout_s = match get::<u64>(&env, "TRACK_TIMEOUT_S") {
            Ok(v) => v,
            Err(e) => return Err(e),
        };
        let horizon_s = match get::<Double>(&env, "HORIZON_S") {
            Ok(v) => v,
            Err(e) => return Err(e),
        };
        let min_horiz_m = match get::<Double>(&env, "MIN_HORIZ_M") {
            Ok(v) => v,
            Err(e) => return Err(e),
        };
        let min_vert_m = match get::<Double>(&env, "MIN_VERT_M") {
            Ok(v) => v,
            Err(e) => return Err(e),
        };
        let process_noise = match get::<Double>(&env, "PROCESS_NOISE") {
            Ok(v) => v,
            Err(e) => return Err(e),
        };
        let meas_var = match get::<Double>(&env, "MEAS_VAR") {
            Ok(v) => v,
            Err(e) => return Err(e),
        };
        let gate_sigma = match get::<Double>(&env, "GATE_SIGMA") {
            Ok(v) => v,
            Err(e) => return Err(e),
        };
        let display_rows = match get::<usize>(&env, "DISPLAY_ROWS") {
            Ok(v) => v,
            Err(e) => return Err(e),
        };
        Ok(
            Config {
                site_lat,
                site_lon,
                site_alt_m,
                adsb_url,
                adsb_radius_nm,
                max_body_bytes,
                poll_ms,
                cycle_ms,
                track_timeout_s,
                horizon_s,
                min_horiz_m,
                min_vert_m,
                process_noise,
                meas_var,
                gate_sigma,
                display_rows,
            },
        )
    }

    /// Expand the feed template against the configured site.
    pub fn adsb_endpoint(&self) -> (r: String)
        ensures
            r@ == text::replaced(
                text::replaced(
                    text::replaced(self.adsb_url@, "{lat}"@, self.site_lat.fixed(4)),
                    "{lon}"@,
                    self.site_lon.fixed(4),
                ),
                "{dist}"@,
                text::decimal(self.adsb_radius_nm as nat),
            ),
    {
        proof {
            reveal_strlit("{lat}");
            reveal_strlit("{lon}");
            reveal_strlit("{dist}");
        }
        let lat = self.site_lat.to_fixed(4);
        let lon = self.site_lon.to_fixed(4);
        let dist = text::number(self.adsb_radius_nm as u128);
        let url = text::replace(self.adsb_url.as_str(), "{lat}", lat.as_str());
        let url = text::replace(url.as_str(), "{lon}", lon.as_str());
        text::replace(url.as_str(), "{dist}", dist.as_str())
    }
}

} // verus!
