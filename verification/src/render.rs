//! Operator picture and cycle telemetry.
//!
//! The whole frame is composed into one buffer, to be written with a single call.
//! Printing field by field is how a display task ends up owning the frame time of the
//! process it is supposed to be observing.
use crate::clock;
use crate::clock::{Duration, Instant, SPAN_LIMIT};
use crate::conjunction::Conjunction;
use crate::double::Double;
use crate::geo;
use crate::geo::{Frame, SinCos, FPM_TO_MS, FT_TO_M, MS_TO_KT};
use crate::ingest::SensorHealth;
use crate::order;
use crate::text;
use crate::text::{fill_left, number, pad_left, pad_right};
use crate::track::{Track, TrackStore};
use vstd::prelude::*;

verus! {

/// Rolling cycle telemetry. A system that cannot report its own timing cannot be
/// trusted to hold a deadline.
#[derive(Clone, Copy, Debug)]
pub struct Cycles {
    pub started: Instant,
    pub count: u64,
    pub last: Duration,
    pub worst: Duration,
    /// The time that all cycles took together.
    pub total: Duration,
    pub contacts_in: u64,
    pub polls_seen: u64,
}

impl Default for Cycles {
    /// No cycles, since the start of the clock.
    fn default() -> (r: Cycles)
        ensures
            r.started@ == 0,
            r.count == 0,
            r.last@ == 0,
            r.worst@ == 0,
            r.total@ == 0,
            r.contacts_in == 0,
            r.polls_seen == 0,
    {
        Cycles {
            started: Instant::at(Duration::zero()),
            count: 0,
            last: Duration::zero(),
            worst: Duration::zero(),
            total: Duration::zero(),
            contacts_in: 0,
            polls_seen: 0,
        }
    }
}

impl Cycles {
    /// The telemetry is of cycles that took no longer than the worst of them.
    pub open spec fn valid(self) -> bool {
        self.last@ <= self.worst@ && self.total@ <= self.count * self.worst@
    }

    /// The mean time of a cycle, in nanoseconds.
    pub open spec fn average(self) -> nat {
        if self.count == 0 {
            0
        } else {
            self.total@ / (self.count as nat)
        }
    }

    pub fn record(&mut self, elapsed: Duration, contacts: usize, polls: usize)
        requires
            old(self).count < u64::MAX,
            old(self).total@ + elapsed@ < SPAN_LIMIT,
            old(self).contacts_in + contacts <= u64::MAX,
            old(self).polls_seen + polls <= u64::MAX,
        ensures
            final(self).started == old(self).started,
            final(self).count == old(self).count + 1,
            final(self).last == elapsed,
            final(self).worst@ == (if old(self).worst@ < elapsed@ {
                elapsed@
            } else {
                old(self).worst@
            }),
            final(self).total@ == old(self).total@ + elapsed@,
            final(self).contacts_in == old(self).contacts_in + contacts,
            final(self).polls_seen == old(self).polls_seen + polls,
            old(self).valid() ==> final(self).valid(),
    {
        self.count = self.count + 1;
        self.last = elapsed;
        self.worst = self.worst.max(elapsed);
        self.total = self.total.plus(elapsed);
        self.contacts_in = self.contacts_in + contacts as u64;
        self.polls_seen = self.polls_seen + polls as u64;
        proof {
            let (n, a, b) = (old(self).count as nat, old(self).worst@, self.worst@);
            assert(n * a + b <= (n + 1) * b) by (nonlinear_arith)
                requires
                    a <= b,
            ;
        }
    }

    pub fn mean(&self) -> (r: Duration)
        ensures
            r@ == self.average(),
    {
        if self.count == 0 {
            Duration::zero()
        } else {
            self.total.split(self.count)
        }
    }
}

/// The mean never exceeds the worst case, nor does the last cycle.
pub proof fn law_worst_bounds_the_rest(cycles: Cycles)
    requires
        cycles.valid(),
    ensures
        cycles.last@ <= cycles.worst@,
        cycles.average() <= cycles.worst@,
{
    if cycles.count > 0 {
        let (t, n, w) = (cycles.total@, cycles.count as nat, cycles.worst@);
        assert(t / n <= w) by (nonlinear_arith)
            requires
                t <= n * w,
                n > 0,
        ;
    }
}

/// The bits of 1000.
pub const THOUSAND: u64 = 0x408f_4000_0000_0000;

pub const CLEAR: &'static str = "\x1b[2J\x1b[H";

pub const DIM: &'static str = "\x1b[2m";

pub const BOLD: &'static str = "\x1b[1m";

pub const RED: &'static str = "\x1b[31m";

pub const YELLOW: &'static str = "\x1b[33m";

pub const CYAN: &'static str = "\x1b[36m";

pub const RESET: &'static str = "\x1b[0m";

/// The first `n` characters of a text, or all of it where it is no longer.
pub open spec fn prefix(s: Seq<char>, n: nat) -> Seq<char> {
    if n < s.len() {
        s.take(n as int)
    } else {
        s
    }
}

/// The first `n` characters of a text, or all of it where it is no longer.
pub fn truncate(s: &str, n: usize) -> (r: String)
    ensures
        r@ == prefix(s@, n as nat),
{
    let v = text::characters(s);
    if n < v.len() {
        text::part(&v, 0, n)
    } else {
        assert(v@.subrange(0, v@.len() as int) =~= v@);
        text::part(&v, 0, v.len())
    }
}

/// The heading of the table.
pub const COLUMNS: &'static str = "ID        CALLSIGN  TYPE    RNG km    BRG  ALT ft GS kt     HDG  V fpm     ±m   AGE";

/// A time in milliseconds.
pub open spec fn millis(nanos: nat) -> Double {
    clock::seconds(nanos as int).times(Double { bits: THOUSAND })
}

pub fn to_millis(d: Duration) -> (r: Double)
    ensures
        r == millis(d@),
{
    d.as_seconds() * Double { bits: THOUSAND }
}

/// How long the process is up, and its cycles.
pub open spec fn headline_text(now: nat, cyc: Cycles) -> Seq<char> {
    let up = clock::elapsed(cyc.started@, now) / (clock::NANOS_PER_SEC as nat);
    BOLD@ + "AETHER"@ + RESET@ + "  air picture   up "@
        + text::filled(text::decimal(up / 3600), 2, '0') + ":"@
        + text::filled(text::decimal((up / 60) % 60), 2, '0') + ":"@
        + text::filled(text::decimal(up % 60), 2, '0') + "   cycle "@
        + text::decimal(cyc.count as nat) + "\n"@
}

fn headline(now: Instant, cyc: &Cycles) -> (s: String)
    ensures
        s@ == headline_text(now@, *cyc),
{
    let up: u64 = now.saturating_duration_since(cyc.started).as_secs();
    let mut s = BOLD.to_string();
    s.append("AETHER");
    s.append(RESET);
    s.append("  air picture   up ");
    s.append(fill_left(number((up / 3600) as u128).as_str(), 2, '0').as_str());
    s.append(":");
    s.append(fill_left(number(((up / 60) % 60) as u128).as_str(), 2, '0').as_str());
    s.append(":");
    s.append(fill_left(number((up % 60) as u128).as_str(), 2, '0').as_str());
    s.append("   cycle ");
    s.append(number(cyc.count as u128).as_str());
    s.append("\n");
    s
}

/// The counters of the tracker, and how long its cycles take.
pub open spec fn counters_text(store: TrackStore, cyc: Cycles) -> Seq<char> {
    DIM@ + "tracks "@ + text::left_aligned(text::decimal(store.tracks@.len()), 4) + " initiated "@
        + text::left_aligned(text::decimal(store.total_initiated as nat), 5) + " dropped "@
        + text::left_aligned(text::decimal(store.total_dropped as nat), 5) + " gated "@
        + text::left_aligned(text::decimal(store.total_gated as nat), 4) + " superseded "@
        + text::left_aligned(text::decimal(store.total_superseded as nat), 5) + " plots "@
        + text::left_aligned(text::decimal(cyc.contacts_in as nat), 7) + " cycle last "@
        + millis(cyc.last@).fixed(2) + "ms mean "@ + millis(cyc.average()).fixed(2) + "ms worst "@
        + millis(cyc.worst@).fixed(2) + "ms"@ + RESET@ + "\n"@
}

fn counters(store: &TrackStore, cyc: &Cycles) -> (s: String)
    ensures
        s@ == counters_text(*store, *cyc),
{
    let mut s = DIM.to_string();
    s.append("tracks ");
    s.append(pad_right(number(store.len() as u128).as_str(), 4).as_str());
    s.append(" initiated ");
    s.append(pad_right(number(store.total_initiated as u128).as_str(), 5).as_str());
    s.append(" dropped ");
    s.append(pad_right(number(store.total_dropped as u128).as_str(), 5).as_str());
    s.append(" gated ");
    s.append(pad_right(number(store.total_gated as u128).as_str(), 4).as_str());
    s.append(" superseded ");
    s.append(pad_right(number(store.total_superseded as u128).as_str(), 5).as_str());
    s.append(" plots ");
    s.append(pad_right(number(cyc.contacts_in as u128).as_str(), 7).as_str());
    s.append(" cycle last ");
    s.append(to_millis(cyc.last).to_fixed(2).as_str());
    s.append("ms mean ");
    s.append(to_millis(cyc.mean()).to_fixed(2).as_str());
    s.append("ms worst ");
    s.append(to_millis(cyc.worst).to_fixed(2).as_str());
    s.append("ms");
    s.append(RESET);
    s.append("\n");
    s
}

/// What the sensor went through.
///
/// Sensor health is stated separately from the tracker's counters, because an empty
/// picture caused by an empty sky and an empty picture caused by a sensor that has
/// stopped answering look identical everywhere else on the screen.
pub open spec fn sensor_text(health: SensorHealth) -> Seq<char> {
    let colour = if health.failed() > 0 {
        YELLOW@
    } else {
        DIM@
    };
    colour + "sensor  polls "@ + text::left_aligned(text::decimal(health.polls as nat), 6)
        + " http-err "@ + text::left_aligned(text::decimal(health.http_errors as nat), 4)
        + " oversized "@ + text::left_aligned(text::decimal(health.oversized_responses as nat), 4)
        + " decode-err "@ + text::left_aligned(text::decimal(health.decode_errors as nat), 4)
        + RESET@ + "\n"@
}

fn sensor(health: &SensorHealth) -> (s: String)
    requires
        health.failed() <= u64::MAX,
    ensures
        s@ == sensor_text(*health),
{
    let colour = if health.faults() > 0 {
        YELLOW
    } else {
        DIM
    };
    let mut s = colour.to_string();
    s.append("sensor  polls ");
    s.append(pad_right(number(health.polls as u128).as_str(), 6).as_str());
    s.append(" http-err ");
    s.append(pad_right(number(health.http_errors as u128).as_str(), 4).as_str());
    s.append(" oversized ");
    s.append(pad_right(number(health.oversized_responses as u128).as_str(), 4).as_str());
    s.append(" decode-err ");
    s.append(pad_right(number(health.decode_errors as u128).as_str(), 4).as_str());
    s.append(RESET);
    s.append("\n");
    s
}

/// The angles that the picture shows of a track, as the mathematics library of the
/// platform gave them.
#[derive(Clone, Copy, Debug)]
pub struct Angles {
    /// The arctangent of the east over the north position in the view, in radians.
    pub bearing: Double,
    /// The arctangent of the east over the north velocity, in radians.
    pub heading: Double,
    /// The sine and cosine of the geodetic latitude of the position in the view.
    pub lat: SinCos,
}

/// How a track is set off: in red where it is an emergency, dim where it is not firm.
pub open spec fn flag(t: Track) -> Seq<char> {
    if t.emergency {
        RED@
    } else if !t.firm() {
        DIM@
    } else {
        ""@
    }
}

/// One track, extrapolated to the instant of the picture.
#[verifier::opaque]
pub open spec fn row_text(t: Track, angles: Angles, frame: Frame, now: nat) -> Seq<char> {
    let v = t.viewed(now);
    let p = v.pos;
    let altitude = frame.unrotated(p).altitude(angles.lat);
    flag(t) + text::left_aligned(t.id@, 9) + " "@ + text::left_aligned(prefix(t.label@, 9), 9)
        + " "@ + text::left_aligned(prefix(t.kind@, 6), 6) + " "@
        + text::right_aligned(p.e.distance(p.n).over(Double { bits: THOUSAND }).fixed(1), 7)
        + " "@ + text::right_aligned(geo::compass(angles.bearing).fixed(0), 5) + "° "@
        + text::right_aligned(altitude.over(Double { bits: FT_TO_M }).fixed(0), 7) + " "@
        + text::right_aligned(t.ground_speed().fixed(0), 5) + " "@
        + text::right_aligned(geo::compass(angles.heading).fixed(0), 6) + "° "@
        + text::right_aligned(t.filt.u.v.over(Double { bits: FPM_TO_MS }).fixed(0), 6) + " "@
        + text::right_aligned(v.pos_sigma.fixed(0), 6) + " "@
        + text::right_aligned(t.evidence_age(now).fixed(0), 4) + "s"@ + RESET@ + "\n"@
}

fn row(t: &Track, angles: &Angles, frame: &Frame, now: Instant) -> (s: String)
    ensures
        s@ == row_text(*t, *angles, *frame, now@),
{
    proof {
        reveal(row_text);
    }
    let v = t.view_at(now);
    let p = v.pos;
    // True altitude above the ellipsoid, not the ENU "Up" axis. The two agree near the
    // origin and diverge as the square of the range.
    let altitude = frame.from_enu(p).altitude_at(angles.lat);
    let flag = if t.emergency {
        RED
    } else if !t.is_firm() {
        DIM
    } else {
        ""
    };
    let mut s = flag.to_string();
    s.append(pad_right(t.id.as_str(), 9).as_str());
    s.append(" ");
    s.append(pad_right(truncate(t.label.as_str(), 9).as_str(), 9).as_str());
    s.append(" ");
    s.append(pad_right(truncate(t.kind.as_str(), 6).as_str(), 6).as_str());
    s.append(" ");
    s.append(pad_left((p.horiz() / Double { bits: THOUSAND }).to_fixed(1).as_str(), 7).as_str());
    s.append(" ");
    s.append(pad_left(p.bearing_deg(angles.bearing).to_fixed(0).as_str(), 5).as_str());
    s.append("° ");
    s.append(pad_left((altitude / Double { bits: FT_TO_M }).to_fixed(0).as_str(), 7).as_str());
    s.append(" ");
    s.append(pad_left(t.speed_kt().to_fixed(0).as_str(), 5).as_str());
    s.append(" ");
    s.append(pad_left(t.heading_deg(angles.heading).to_fixed(0).as_str(), 6).as_str());
    s.append("° ");
    s.append(pad_left(t.vrate_fpm().to_fixed(0).as_str(), 6).as_str());
    s.append(" ");
    s.append(pad_left(v.pos_sigma.to_fixed(0).as_str(), 6).as_str());
    s.append(" ");
    s.append(pad_left(t.staleness(now).to_fixed(0).as_str(), 4).as_str());
    s.append("s");
    s.append(RESET);
    s.append("\n");
    s
}

/// The bits of 60, in seconds.
pub const MINUTE: u64 = 0x404e_0000_0000_0000;

/// The most conjunctions that are listed.
pub const MAX_ALERTS: usize = 6;

/// One conjunction, in red where it is less than a minute away.
#[verifier::opaque]
pub open spec fn alert_text(c: Conjunction) -> Seq<char> {
    let colour = if c.t_cpa.below(Double { bits: MINUTE }) {
        RED@
    } else {
        YELLOW@
    };
    colour + "  T-"@ + text::right_aligned(c.t_cpa.fixed(0), 3) + "s  "@
        + text::left_aligned(prefix(c.label_a@, 9), 9) + " <-> "@
        + text::left_aligned(prefix(c.label_b@, 9), 9) + "  horiz "@
        + text::right_aligned(c.horiz_m.over(Double { bits: THOUSAND }).fixed(2), 5)
        + " km  vert "@ + text::right_aligned(c.vert_m.fixed(0), 4) + " m  closing "@
        + text::right_aligned(c.closing_ms.times(Double { bits: MS_TO_KT }).fixed(0), 3)
        + " kt  ±"@ + c.sigma_m.fixed(0) + " m"@ + RESET@ + "\n"@
}

fn alert(c: &Conjunction) -> (s: String)
    ensures
        s@ == alert_text(*c),
{
    proof {
        reveal(alert_text);
    }
    let colour = if c.t_cpa < (Double { bits: MINUTE }) {
        RED
    } else {
        YELLOW
    };
    let mut s = colour.to_string();
    s.append("  T-");
    s.append(pad_left(c.t_cpa.to_fixed(0).as_str(), 3).as_str());
    s.append("s  ");
    s.append(pad_right(truncate(c.label_a.as_str(), 9).as_str(), 9).as_str());
    s.append(" <-> ");
    s.append(pad_right(truncate(c.label_b.as_str(), 9).as_str(), 9).as_str());
    s.append("  horiz ");
    s.append(pad_left((c.horiz_m / Double { bits: THOUSAND }).to_fixed(2).as_str(), 5).as_str());
    s.append(" km  vert ");
    s.append(pad_left(c.vert_m.to_fixed(0).as_str(), 4).as_str());
    s.append(" m  closing ");
    s.append(pad_left((c.closing_ms * Double { bits: MS_TO_KT }).to_fixed(0).as_str(), 3).as_str());
    s.append(" kt  ±");
    s.append(c.sigma_m.to_fixed(0).as_str());
    s.append(" m");
    s.append(RESET);
    s.append("\n");
    s
}

/// The places of the tracks in the store.
pub open spec fn places(n: nat) -> Seq<usize> {
    Seq::new(n, |i: int| i as usize)
}

/// Distance from the site, as a position in the total order of the numbers.
pub open spec fn by_range(tracks: Seq<Track>, now: nat) -> spec_fn(usize) -> int {
    |i: usize| range_at(tracks[i as int], now).rank()
}

/// Distance of a track from the site at `now`.
pub open spec fn range_at(t: Track, now: nat) -> Double {
    let p = t.viewed(now).pos;
    p.e.distance(p.n)
}

/// The places of the tracks, the nearest first; of two equally near, the earlier one.
pub open spec fn nearest_first(tracks: Seq<Track>, now: nat) -> Seq<usize> {
    choose|list: Seq<usize>|
        order::sorted(list, places(tracks.len()), by_range(tracks, now))
}

/// The first `n` of the listed tracks, one line each.
pub open spec fn table_text(
    tracks: Seq<Track>,
    angles: Seq<Angles>,
    list: Seq<usize>,
    n: nat,
    frame: Frame,
    now: nat,
) -> Seq<char>
    decreases n,
{
    if n == 0 {
        Seq::empty()
    } else {
        let i = list[n - 1] as int;
        table_text(tracks, angles, list, (n - 1) as nat, frame, now) + row_text(
            tracks[i],
            angles[i],
            frame,
            now,
        )
    }
}

/// How many tracks are not listed, if any.
pub open spec fn more_text(tracks: nat, rows: nat) -> Seq<char> {
    if tracks > rows {
        DIM@ + "   ... "@ + text::decimal((tracks - rows) as nat) + " more"@ + RESET@ + "\n"@
    } else {
        ""@
    }
}

/// The first `n` conjunctions, one line each.
pub open spec fn alerts_text(alerts: Seq<Conjunction>, n: nat) -> Seq<char>
    decreases n,
{
    if n == 0 {
        Seq::empty()
    } else {
        alerts_text(alerts, (n - 1) as nat) + alert_text(alerts[n - 1])
    }
}

/// What the screen found.
pub open spec fn screen_text(alerts: Seq<Conjunction>) -> Seq<char> {
    if alerts.len() == 0 {
        DIM@ + "conjunction screen clear"@ + RESET@ + "\n"@
    } else {
        BOLD@ + YELLOW@ + "CONJUNCTION SCREEN — "@ + text::decimal(alerts.len()) + " pair(s)"@
            + RESET@ + "\n"@ + alerts_text(alerts, fewer(alerts.len(), MAX_ALERTS as nat))
    }
}

pub open spec fn fewer(a: nat, b: nat) -> nat {
    if a < b {
        a
    } else {
        b
    }
}

/// The whole picture.
pub open spec fn picture(
    store: TrackStore,
    alerts: Seq<Conjunction>,
    cyc: Cycles,
    health: SensorHealth,
    frame: Frame,
    rows: nat,
    now: nat,
    angles: Seq<Angles>,
) -> Seq<char> {
    let tracks = store.tracks@;
    let list = nearest_first(tracks, now);
    CLEAR@ + headline_text(now, cyc) + counters_text(store, cyc) + sensor_text(health) + "\n"@
        + BOLD@ + COLUMNS@ + RESET@ + "\n"@ + table_text(
        tracks,
        angles,
        list,
        fewer(tracks.len(), rows),
        frame,
        now,
    ) + more_text(tracks.len(), rows) + "\n"@ + screen_text(alerts) + "\n"@ + CYAN@ + DIM@
        + "ctrl-c to stop"@ + RESET@ + "\n"@
}

/// The places of the tracks, the nearest first.
fn rank_tracks(store: &TrackStore, now: Instant) -> (list: Vec<usize>)
    ensures
        list@ == nearest_first(store.tracks@, now@),
        list@.len() == store.tracks@.len(),
        forall|i: int| 0 <= i < list@.len() ==> #[trigger] list@[i] < store.tracks@.len(),
{
    let ghost tracks = store.tracks@;
    let ghost key = by_range(tracks, now@);
    let mut list: Vec<usize> = Vec::new();
    let mut ranges: Vec<Double> = Vec::new();
    assert(list@ =~= places(0));
    for i in 0..store.tracks.len()
        invariant
            tracks == store.tracks@,
            key == by_range(tracks, now@),
            list@.len() == i,
            ranges@.len() == i,
            forall|k: int| 0 <= k < i ==> #[trigger] ranges@[k] == range_at(tracks[k], now@),
            forall|k: int| 0 <= k < i ==> #[trigger] list@[k] < i,
            order::sorted(list@, places(i as nat), key),
    {
        let range = store.tracks[i].view_at(now).pos.horiz();
        let mut at: usize = list.len();
        while at > 0 && !ranges[list[at - 1]].ranks_up_to(range)
            invariant
                i < tracks.len(),
                at <= list@.len() == i,
                ranges@.len() == i,
                range == range_at(tracks[i as int], now@),
                key == by_range(tracks, now@),
                forall|k: int| 0 <= k < i ==> #[trigger] ranges@[k] == range_at(tracks[k], now@),
                forall|k: int| 0 <= k < i ==> #[trigger] list@[k] < i,
                at < list@.len() ==> key(i) < key(list@[at as int]),
            decreases at,
        {
            at = at - 1;
        }
        proof {
            if at > 0 {
                let k = list@[at - 1];
                assert(ranges@[k as int] == range_at(tracks[k as int], now@));
                assert(key(k) <= key(i));
            }
            order::lemma_insert(list@, places(i as nat), key, i, at as int);
            assert(places(i as nat).push(i) =~= places((i + 1) as nat));
        }
        list.insert(at, i);
        ranges.push(range);
    }
    proof {
        let chosen = nearest_first(tracks, now@);
        order::law_one_order(list@, chosen, places(tracks.len()), key);
    }
    list
}

/// What the screen found.
fn screen_lines(alerts: &[Conjunction]) -> (s: String)
    ensures
        s@ == screen_text(alerts@),
{
    let n: usize = alerts.len();
    if n == 0 {
        let mut s = DIM.to_string();
        s.append("conjunction screen clear");
        s.append(RESET);
        s.append("\n");
        return s;
    }
    let mut lines = String::new();
    assert(lines@ =~= alerts_text(alerts@, 0));
    let shown: usize = if n < MAX_ALERTS {
        n
    } else {
        MAX_ALERTS
    };
    for i in 0..shown
        invariant
            shown <= n == alerts@.len(),
            lines@ == alerts_text(alerts@, i as nat),
    {
        lines.append(alert(&alerts[i]).as_str());
    }
    let mut s = BOLD.to_string();
    s.append(YELLOW);
    s.append("CONJUNCTION SCREEN — ");
    s.append(number(n as u128).as_str());
    s.append(" pair(s)");
    s.append(RESET);
    s.append("\n");
    s.append(lines.as_str());
    s
}

/// How many tracks are not listed, if any.
fn more(tracks: usize, rows: usize) -> (s: String)
    ensures
        s@ == more_text(tracks as nat, rows as nat),
{
    if tracks > rows {
        let mut s = DIM.to_string();
        s.append("   ... ");
        s.append(number((tracks - rows) as u128).as_str());
        s.append(" more");
        s.append(RESET);
        s.append("\n");
        s
    } else {
        "".to_string()
    }
}

/// The operator picture at `now`. `angles` are those of the tracks, in the order of the
/// store.
pub fn draw(
    store: &TrackStore,
    alerts: &[Conjunction],
    cyc: &Cycles,
    health: &SensorHealth,
    frame: &Frame,
    rows: usize,
    now: Instant,
    angles: &[Angles],
) -> (s: String)
    requires
        angles@.len() == store.tracks@.len(),
        health.failed() <= u64::MAX,
    ensures
        s@ == picture(*store, alerts@, *cyc, *health, *frame, rows as nat, now@, angles@),
{
    // Every track extrapolated to the same instant. These are views: drawing the
    // picture must not advance anybody's filter.
    let list = rank_tracks(store, now);
    let n: usize = store.len();
    let shown: usize = if n < rows {
        n
    } else {
        rows
    };
    let mut table = String::new();
    assert(table@ =~= Seq::empty());
    for i in 0..shown
        invariant
            shown <= n == store.tracks@.len() == list@.len() == angles@.len(),
            forall|k: int| 0 <= k < n ==> #[trigger] list@[k] < n,
            table@ == table_text(store.tracks@, angles@, list@, i as nat, *frame, now@),
    {
        let k: usize = list[i];
        table.append(row(&store.tracks[k], &angles[k], frame, now).as_str());
    }

    let mut s = CLEAR.to_string();
    s.append(headline(now, cyc).as_str());
    s.append(counters(store, cyc).as_str());
    s.append(sensor(health).as_str());
    s.append("\n");
    s.append(BOLD);
    s.append(COLUMNS);
    s.append(RESET);
    s.append("\n");
    s.append(table.as_str());
    s.append(more(n, rows).as_str());
    s.append("\n");
    s.append(screen_lines(alerts).as_str());
    s.append("\n");
    s.append(CYAN);
    s.append(DIM);
    s.append("ctrl-c to stop");
    s.append(RESET);
    s.append("\n");
    s
}

} // verus!
