//! Track store: association, state estimation, ageing.
//!
//! A contact is a plot; a track is a hypothesis about an object that persists across
//! plots. ADS-B hands over a unique ICAO address, so association is by identity rather
//! than nearest-neighbour gating. The interesting work is what happens after: placing
//! each measurement at the moment it describes, rejecting reports that cannot be true,
//! and dropping tracks whose evidence has gone stale.
//!
//! # Temporal invariant
//!
//! A filter's state is valid for one instant and one only. Here that instant is the
//! observation `valid_age` seconds before the batch that arrived at `valid_rx`, and it
//! is deliberately **never materialised** — only differences of it are ever computed.
//! Both terms are things that really happened: an arrival the process witnessed, and an
//! age the sensor reported. Nothing subtracts a duration from an `Instant`, so nothing
//! can underflow, and no clock the process does not own is ever trusted.
//!
//! The validity time advances in exactly one place: `Track::update`, when a measurement
//! describes a moment later than the one the filter already holds. The operator picture
//! and the conjunction screen do **not** advance it — they take a `TrackView`, which
//! extrapolates a copy. That separation is what makes it safe to place a measurement in
//! its own past relative to the display: the display never wrote to the filter.
use crate::clock;
use crate::clock::{Duration, Instant, SPAN_LIMIT};
use crate::double::facts;
use crate::double::{Double, THREE, ZERO};
use crate::geo;
use crate::geo::{compass_deg, Enu, Frame, Geodetic, FPM_TO_MS, KT_TO_MS, MS_TO_KT};
use crate::ingest::adsb::MAX_REPORTED_AGE_S;
use crate::ingest::Contact;
use crate::kalman;
use crate::kalman::{Innovation, Kf1D};
use crate::laws::tracks;
use crate::text;
use vstd::arithmetic::power2::*;
use vstd::prelude::*;

verus! {

/// The number of agreeing reports that make a track firm.
pub const FIRM_AFTER: u64 = 4;

/// East / North / Up estimators.
#[derive(Clone, Copy, Debug)]
pub struct Axes {
    pub e: Kf1D,
    pub n: Kf1D,
    pub u: Kf1D,
}

#[derive(Clone, Debug)]
pub struct Track {
    pub id: String,
    pub label: String,
    pub kind: String,
    pub squawk: String,
    pub emergency: bool,
    pub on_ground: bool,
    pub source: &'static str,
    pub geo: Geodetic,
    pub filt: Axes,
    /// The filter is valid for the observation made `valid_age` seconds before the
    /// batch that arrived at `valid_rx`. See the module-level temporal invariant.
    pub valid_rx: Instant,
    pub valid_age: Double,
    /// The same pair for the last *accepted* measurement. A plot that coasts the filter
    /// forward but is then refused moves `valid_*` and leaves these alone, so
    /// ageing and the staleness column keep meaning "evidence", not "traffic".
    pub accept_rx: Instant,
    pub accept_age: Double,
    pub first_seen: Instant,
    pub updates: u64,
    /// Plots refused by the innovation gate.
    pub rejected: u64,
    /// Plots describing a moment the filter had already passed: re-served snapshots and
    /// out-of-order reports.
    pub superseded: u64,
    /// Normalised innovation squared of the last accepted update.
    pub last_nis: Double,
}

/// A track's estimate extrapolated to some instant, without disturbing the track.
///
/// Everything that wants to know where an aircraft is *now* takes one of these. The
/// filter itself stays parked at the moment it was last given evidence for.
#[derive(Clone, Copy, Debug)]
pub struct TrackView {
    pub pos: Enu,
    pub vel: Enu,
    pub pos_sigma: Double,
    /// Seconds of coast between the filter's validity time and the viewed instant.
    pub coast_s: Double,
}

/// What became of one plot.
#[derive(Clone, Copy, Debug, PartialEq, Eq, Structural)]
pub enum Outcome {
    Initiated,
    Updated,
    /// Refused by the innovation gate.
    Gated,
    /// Describes a moment the filter had already passed.
    Superseded,
}

impl Axes {
    pub open spec fn predicted(self, dt: Double) -> Axes {
        Axes {
            e: self.e.predicted(dt),
            n: self.n.predicted(dt),
            u: self.u.predicted(dt),
        }
    }

    pub open spec fn updated(self, pos: Enu) -> Axes {
        Axes {
            e: self.e.updated(pos.e),
            n: self.n.updated(pos.n),
            u: self.u.updated(pos.u),
        }
    }

    /// All three axes are well posed.
    pub open spec fn well_posed(self) -> bool {
        self.e.well_posed() && self.n.well_posed() && self.u.well_posed()
    }

    pub open spec fn pos(self) -> Enu {
        Enu { e: self.e.x, n: self.n.x, u: self.u.x }
    }

    pub open spec fn vel(self) -> Enu {
        Enu { e: self.e.v, n: self.n.v, u: self.u.v }
    }

    /// Worst per-axis one-sigma position uncertainty, metres.
    pub open spec fn worst_sigma(self) -> Double {
        (Double { bits: ZERO }).larger(self.e.position_sigma()).larger(
            self.n.position_sigma(),
        ).larger(self.u.position_sigma())
    }

    /// The innovations of a position on the three axes.
    pub open spec fn innovations(self, pos: Enu) -> (Innovation, Innovation, Innovation) {
        (self.e.innovation_of(pos.e), self.n.innovation_of(pos.n), self.u.innovation_of(pos.u))
    }

    /// On some axis the position is more than `gate` sigma from the prediction.
    pub open spec fn implausible(self, pos: Enu, gate: Double) -> bool {
        let (e, n, u) = self.innovations(pos);
        gate.below(e.deviation()) || gate.below(n.deviation()) || gate.below(u.deviation())
    }

    /// The mean normalised innovation squared of a position.
    pub open spec fn mean_nis(self, pos: Enu) -> Double {
        let (e, n, u) = self.innovations(pos);
        e.squared().plus(n.squared()).plus(u.squared()).over(Double { bits: THREE })
    }

    fn predict(&mut self, dt: Double)
        ensures
            *final(self) == old(self).predicted(dt),
    {
        self.e.predict(dt);
        self.n.predict(dt);
        self.u.predict(dt);
    }

    fn sigma(&self) -> (r: Double)
        ensures
            r == self.worst_sigma(),
    {
        let zero = Double { bits: ZERO };
        zero.max(self.e.pos_sigma()).max(self.n.pos_sigma()).max(self.u.pos_sigma())
    }
}

impl Track {
    /// Seconds from the observation the filter is valid for to the moment `t`. Before the
    /// arrival of its batch no time counts as gone by.
    pub open spec fn filter_age(self, t: nat) -> Double {
        clock::aged(self.valid_age, clock::elapsed(self.valid_rx@, t) as int)
    }

    /// Seconds from the last accepted observation to the moment `t`.
    pub open spec fn evidence_age(self, t: nat) -> Double {
        clock::aged(self.accept_age, clock::elapsed(self.accept_rx@, t) as int)
    }

    /// The velocity that a contact reports, or none.
    pub open spec fn reported_velocity(c: Contact) -> Enu {
        let zero = Double { bits: ZERO };
        let vertical = match c.vrate_fpm {
            Some(rate) => rate,
            None => zero,
        };
        let u = vertical.times(Double { bits: FPM_TO_MS });
        match (c.gs_kt, c.track_deg) {
            (Some(gs), Some(_)) => {
                let speed = gs.times(Double { bits: KT_TO_MS });
                Enu { e: speed.times(c.trig.track.sin), n: speed.times(c.trig.track.cos), u }
            },
            _ => Enu { e: zero, n: zero, u },
        }
    }

    /// The track that a first plot makes.
    pub open spec fn initiated(
        c: Contact,
        pos: Enu,
        received: Instant,
        q: Double,
        r: Double,
    ) -> Track {
        let v = Track::reported_velocity(c);
        Track {
            id: c.id,
            label: c.label,
            kind: c.kind,
            squawk: c.squawk,
            emergency: c.emergency,
            on_ground: c.on_ground,
            source: c.source,
            geo: c.geo,
            filt: Axes {
                e: Kf1D::initial(pos.e, v.e, q, r),
                n: Kf1D::initial(pos.n, v.n, q, r),
                u: Kf1D::initial(pos.u, v.u, q, r),
            },
            valid_rx: received,
            valid_age: c.age_s,
            accept_rx: received,
            accept_age: c.age_s,
            first_seen: received,
            updates: 1,
            rejected: 0,
            superseded: 0,
            last_nis: Double { bits: ZERO },
        }
    }

    pub open spec fn firm(self) -> bool {
        self.updates >= FIRM_AFTER
    }

    /// Seconds from the observation the filter holds to the one this plot describes: the
    /// difference of the arrivals, whichever came first, plus the age held, less the age
    /// reported.
    pub open spec fn time_step(self, c: Contact, received: Instant) -> Double {
        clock::aged(self.valid_age, received@ - self.valid_rx@).minus(c.age_s)
    }

    /// The track taken forward to the moment that this plot describes.
    pub open spec fn coasted(self, c: Contact, received: Instant) -> Track {
        Track {
            filt: self.filt.predicted(self.time_step(c, received)),
            valid_rx: received,
            valid_age: c.age_s,
            ..self
        }
    }

    /// What becomes of a plot.
    pub open spec fn verdict(
        self,
        c: Contact,
        pos: Enu,
        received: Instant,
        gate: Double,
    ) -> Outcome {
        if self.time_step(c, received).at_most(Double { bits: ZERO }) {
            Outcome::Superseded
        } else if self.firm() && self.coasted(c, received).filt.implausible(pos, gate) {
            Outcome::Gated
        } else {
            Outcome::Updated
        }
    }

    /// What a plot makes of the track.
    pub open spec fn absorbed(self, c: Contact, pos: Enu, received: Instant, gate: Double) -> Track {
        let held = self.coasted(c, received);
        match self.verdict(c, pos, received, gate) {
            Outcome::Superseded => Track { superseded: (self.superseded + 1) as u64, ..self },
            Outcome::Gated => Track { rejected: (self.rejected + 1) as u64, ..held },
            _ => Track {
                filt: held.filt.updated(pos),
                last_nis: held.filt.mean_nis(pos),
                updates: (self.updates + 1) as u64,
                accept_rx: received,
                accept_age: c.age_s,
                geo: c.geo,
                label: c.label,
                squawk: c.squawk,
                emergency: c.emergency,
                on_ground: c.on_ground,
                kind: if c.kind@.len() > 0 {
                    c.kind
                } else {
                    self.kind
                },
                ..held
            },
        }
    }

    /// Ground speed, knots.
    pub open spec fn ground_speed(self) -> Double {
        self.filt.e.v.distance(self.filt.n.v).times(Double { bits: MS_TO_KT })
    }

    /// None of the counters runs out over this many plots.
    pub open spec fn has_room(self, plots: nat) -> bool {
        self.updates + plots <= u64::MAX && self.rejected + plots <= u64::MAX && self.superseded
            + plots <= u64::MAX
    }

    /// The estimate extrapolated to the moment `t`.
    pub open spec fn viewed(self, t: nat) -> TrackView {
        let coast_s = self.filter_age(t);
        let f = if (Double { bits: ZERO }).below(coast_s) {
            self.filt.predicted(coast_s)
        } else {
            self.filt
        };
        TrackView { pos: f.pos(), vel: f.vel(), pos_sigma: f.worst_sigma(), coast_s }
    }

    pub fn new(c: &Contact, pos: Enu, received: Instant, q: Double, r: Double) -> (t: Track)
        ensures
            t == Track::initiated(*c, pos, received, q, r),
    {
        // Seed velocity from the reported heading and ground speed when present. It is
        // only a prior: the covariance is loose enough that two updates overrule it.
        let zero = Double { bits: ZERO };
        let (ve, vn) = match (c.gs_kt, c.track_deg) {
            (Some(gs), Some(_)) => {
                let speed = gs * Double { bits: KT_TO_MS };
                (speed * c.trig.track.sin, speed * c.trig.track.cos)
            },
            _ => (zero, zero),
        };
        let vertical = match c.vrate_fpm {
            Some(rate) => rate,
            None => zero,
        };
        let vu = vertical * Double { bits: FPM_TO_MS };

        Track {
            id: c.id.clone(),
            label: c.label.clone(),
            kind: c.kind.clone(),
            squawk: c.squawk.clone(),
            emergency: c.emergency,
            on_ground: c.on_ground,
            source: c.source,
            geo: c.geo,
            filt: Axes {
                e: Kf1D::new(pos.e, ve, q, r),
                n: Kf1D::new(pos.n, vn, q, r),
                u: Kf1D::new(pos.u, vu, q, r),
            },
            // The track is initiated at the moment its first plot describes, expressed
            // as the arrival plus the age the sensor reported.
            valid_rx: received,
            valid_age: c.age_s,
            accept_rx: received,
            accept_age: c.age_s,
            first_seen: received,
            updates: 1,
            rejected: 0,
            superseded: 0,
            last_nis: zero,
        }
    }

    /// Seconds of coast between the observation the filter is valid for and `t`.
    ///
    /// This is the single expression the whole temporal design rests on. It is the sum
    /// of an elapsed duration between two witnessed instants and a reported age, so it
    /// is non-negative for any `t`, and it never reconstructs an absolute observation time.
    pub fn filter_age_at(&self, t: Instant) -> (r: Double)
        ensures
            r == self.filter_age(t@),
    {
        let span: i128 = t.nanos_since(self.valid_rx);
        clock::age_after(
            self.valid_age,
            if span > 0 {
                span
            } else {
                0
            },
        )
    }

    /// The estimate extrapolated to `t`, leaving the filter untouched.
    pub fn view_at(&self, t: Instant) -> (r: TrackView)
        ensures
            r == self.viewed(t@),
    {
        let coast_s = self.filter_age_at(t);
        let mut f = self.filt;
        if coast_s > (Double { bits: ZERO }) {
            f.predict(coast_s);
        }
        TrackView {
            pos: Enu { e: f.e.x, n: f.n.x, u: f.u.x },
            vel: Enu { e: f.e.v, n: f.n.v, u: f.u.v },
            pos_sigma: f.sigma(),
            coast_s,
        }
    }

    /// The estimate at the moment the filter is actually valid for, unextrapolated.
    pub fn position(&self) -> (r: Enu)
        ensures
            r == self.filt.pos(),
    {
        Enu { e: self.filt.e.x, n: self.filt.n.x, u: self.filt.u.x }
    }

    pub fn velocity(&self) -> (r: Enu)
        ensures
            r == self.filt.vel(),
    {
        Enu { e: self.filt.e.v, n: self.filt.n.v, u: self.filt.u.v }
    }

    /// Ground speed from the estimator, knots.
    pub fn speed_kt(&self) -> (r: Double)
        ensures
            r == self.ground_speed(),
    {
        self.velocity().horiz() * Double { bits: MS_TO_KT }
    }

    /// The two numbers whose arctangent, the first over the second, is the heading: the
    /// east and the north velocity.
    pub fn heading_parts(&self) -> (r: (Double, Double))
        ensures
            r == (self.filt.e.v, self.filt.n.v),
    {
        (self.filt.e.v, self.filt.n.v)
    }

    /// Estimated heading over the ground, degrees true. `angle` is the arctangent of the
    /// east over the north velocity, in radians.
    pub fn heading_deg(&self, angle: Double) -> (r: Double)
        ensures
            r == geo::compass(angle),
    {
        compass_deg(angle)
    }

    /// Vertical rate, feet per minute.
    pub fn vrate_fpm(&self) -> (r: Double)
        ensures
            r == self.filt.u.v.over(Double { bits: FPM_TO_MS }),
    {
        self.filt.u.v / Double { bits: FPM_TO_MS }
    }

    /// Worst per-axis one-sigma position uncertainty, metres.
    pub fn pos_sigma(&self) -> (r: Double)
        ensures
            r == self.filt.worst_sigma(),
    {
        self.filt.sigma()
    }

    /// Seconds since the last accepted measurement was *observed* — not since it was
    /// received. A feed that hands us a six-second-old position has given us a
    /// six-second-old track, and the ageing logic should say so.
    pub fn staleness(&self, now: Instant) -> (r: Double)
        ensures
            r == self.evidence_age(now@),
    {
        let span: i128 = now.nanos_since(self.accept_rx);
        clock::age_after(
            self.accept_age,
            if span > 0 {
                span
            } else {
                0
            },
        )
    }

    /// A track is firm once enough reports have agreed with it. Only firm tracks are
    /// screened for conjunctions: a two-plot track has a velocity that is mostly prior.
    pub fn is_firm(&self) -> (r: bool)
        ensures
            r == self.firm(),
    {
        self.updates >= FIRM_AFTER
    }

    pub fn update(&mut self, c: &Contact, pos: Enu, received: Instant, gate_sigma: Double) -> (r:
        Outcome)
        requires
            old(self).has_room(1),
        ensures
            r == old(self).verdict(*c, pos, received, gate_sigma),
            *final(self) == old(self).absorbed(*c, pos, received, gate_sigma),
            tracks::judged(*old(self), *c, pos, received, gate_sigma, r),
            r == Outcome::Updated ==> tracks::drawn(*old(self), *c, pos, received, *final(self)),
    {
        proof {
            tracks::law_which_plots_are_taken_in(*self, *c, pos, received, gate_sigma);
            if self.verdict(*c, pos, received, gate_sigma) == Outcome::Updated {
                tracks::law_accepted_plots_move_every_axis(*self, *c, pos, received, gate_sigma);
            }
        }
        // Elapsed time between the observation the filter holds and the observation
        // this plot describes.
        let dt = clock::age_after(self.valid_age, received.nanos_since(self.valid_rx)) - c.age_s;

        if dt <= (Double { bits: ZERO }) {
            // The plot describes a moment at or before the one the filter already
            // holds. Because the validity time is advanced only by measurements, this
            // is a real property of the data — a re-served snapshot or an out-of-order
            // report — and not an artefact of the display clock.
            //
            // These are dropped. Folding a late measurement back into a filter that has
            // moved past it is retrodiction, and pretending to do it by applying it at
            // the wrong time would be worse than admitting we do not.
            self.superseded = self.superseded + 1;
            return Outcome::Superseded;
        }

        // Coasting to the measurement's own moment is correct whether or not the
        // measurement survives gating, so the validity time moves first and stays
        // moved. A gated plot leaves a coasted track, which is what it should leave.
        self.filt.predict(dt);
        self.valid_rx = received;
        self.valid_age = c.age_s;

        // Gate on all three axes before touching any of them: a partially applied
        // update on a bad plot is worse than a rejected one.
        let e = self.filt.e.innovation(pos.e);
        let n = self.filt.n.innovation(pos.n);
        let u = self.filt.u.innovation(pos.u);
        if self.is_firm() && (e.sigma() > gate_sigma || n.sigma() > gate_sigma || u.sigma()
            > gate_sigma) {
            self.rejected = self.rejected + 1;
            return Outcome::Gated;
        }

        self.filt.e.update(pos.e);
        self.filt.n.update(pos.n);
        self.filt.u.update(pos.u);

        self.last_nis = (e.nis() + n.nis() + u.nis()) / Double { bits: THREE };
        self.updates = self.updates + 1;
        self.accept_rx = received;
        self.accept_age = c.age_s;
        self.geo = c.geo;
        self.label = c.label.clone();
        self.squawk = c.squawk.clone();
        self.emergency = c.emergency;
        self.on_ground = c.on_ground;
        if !c.kind.as_str().is_empty() {
            self.kind = c.kind.clone();
        }
        Outcome::Updated
    }
}

#[derive(Debug, Clone, Copy, PartialEq, Eq, Structural)]
pub struct IngestReport {
    pub initiated: usize,
    pub updated: usize,
    pub gated: usize,
    pub superseded: usize,
}

impl Default for IngestReport {
    fn default() -> (r: IngestReport)
        ensures
            r == (IngestReport { initiated: 0, updated: 0, gated: 0, superseded: 0 }),
    {
        IngestReport { initiated: 0, updated: 0, gated: 0, superseded: 0 }
    }
}

/// The place of the track with this identity, or the number of tracks if there is none.
pub open spec fn place(tracks: Seq<Track>, id: Seq<char>) -> nat
    decreases tracks.len(),
{
    if tracks.len() == 0 || tracks[0].id@ == id {
        0
    } else {
        1 + place(tracks.skip(1), id)
    }
}

/// No two tracks have the same identity.
pub open spec fn distinct(tracks: Seq<Track>) -> bool {
    forall|i: int, j: int|
        0 <= i < j < tracks.len() ==> (#[trigger] tracks[i]).id@ != (#[trigger] tracks[j]).id@
}

/// What the store brings to every plot.
#[derive(Clone, Copy, Debug)]
pub struct Tuning {
    /// Process noise.
    pub q: Double,
    /// Measurement variance.
    pub r: Double,
    pub gate_sigma: Double,
}

/// The position of a contact in the frame.
pub open spec fn plot(c: Contact, frame: Frame) -> Enu {
    frame.rotated(geo::Ecef::of(c.geo.alt_m, c.trig.lat, c.trig.lon))
}

/// What becomes of one contact.
#[verifier::opaque]
pub open spec fn outcome(
    tracks: Seq<Track>,
    c: Contact,
    tuning: Tuning,
    frame: Frame,
    received: Instant,
) -> Outcome {
    let i = place(tracks, c.id@);
    if i < tracks.len() {
        tracks[i as int].verdict(c, plot(c, frame), received, tuning.gate_sigma)
    } else {
        Outcome::Initiated
    }
}

/// What one contact makes of the tracks: it is folded into the track with its identity,
/// or makes a new one.
#[verifier::opaque]
pub open spec fn associated(
    tracks: Seq<Track>,
    c: Contact,
    tuning: Tuning,
    frame: Frame,
    received: Instant,
) -> Seq<Track> {
    let i = place(tracks, c.id@);
    let pos = plot(c, frame);
    if i < tracks.len() {
        tracks.update(
            i as int,
            tracks[i as int].absorbed(c, pos, received, tuning.gate_sigma),
        )
    } else {
        tracks.push(Track::initiated(c, pos, received, tuning.q, tuning.r))
    }
}

/// What a batch makes of the tracks, one contact after the other.
pub open spec fn folded(
    tracks: Seq<Track>,
    contacts: Seq<Contact>,
    tuning: Tuning,
    frame: Frame,
    received: Instant,
) -> Seq<Track>
    decreases contacts.len(),
{
    if contacts.len() == 0 {
        tracks
    } else {
        associated(
            folded(tracks, contacts.drop_last(), tuning, frame, received),
            contacts.last(),
            tuning,
            frame,
            received,
        )
    }
}

/// How many contacts of a batch come to this.
pub open spec fn tally(
    tracks: Seq<Track>,
    contacts: Seq<Contact>,
    tuning: Tuning,
    frame: Frame,
    received: Instant,
    what: Outcome,
) -> nat
    decreases contacts.len(),
{
    if contacts.len() == 0 {
        0
    } else {
        let before = folded(tracks, contacts.drop_last(), tuning, frame, received);
        tally(tracks, contacts.drop_last(), tuning, frame, received, what) + if outcome(
            before,
            contacts.last(),
            tuning,
            frame,
            received,
        ) == what {
            1nat
        } else {
            0
        }
    }
}

/// Tracks whose last accepted observation is no older than `limit` seconds.
pub open spec fn fresh(now: nat, limit: Double) -> spec_fn(Track) -> bool {
    |t: Track| t.evidence_age(now).at_most(limit)
}

#[derive(Debug)]
pub struct TrackStore {
    /// In the order in which they were initiated.
    pub tracks: Vec<Track>,
    pub tuning: Tuning,
    pub total_initiated: u64,
    pub total_dropped: u64,
    pub total_gated: u64,
    pub total_superseded: u64,
}

pub proof fn lemma_place(tracks: Seq<Track>, id: Seq<char>, n: int)
    requires
        0 <= n <= tracks.len(),
        forall|i: int| 0 <= i < n ==> (#[trigger] tracks[i]).id@ != id,
        n < tracks.len() ==> tracks[n].id@ == id,
    ensures
        place(tracks, id) == n,
    decreases n,
{
    if n > 0 {
        assert(tracks[0].id@ != id);
        assert forall|i: int| 0 <= i < n - 1 implies (#[trigger] tracks.skip(1)[i]).id@ != id by {
            assert(tracks[i + 1].id@ != id);
        }
        lemma_place(tracks.skip(1), id, n - 1);
    }
}

pub proof fn lemma_place_found(tracks: Seq<Track>, id: Seq<char>)
    ensures
        place(tracks, id) <= tracks.len(),
        place(tracks, id) < tracks.len() ==> tracks[place(tracks, id) as int].id@ == id,
        forall|i: int| 0 <= i < place(tracks, id) ==> (#[trigger] tracks[i]).id@ != id,
    decreases tracks.len(),
{
    if tracks.len() > 0 && tracks[0].id@ != id {
        lemma_place_found(tracks.skip(1), id);
        let n = place(tracks, id);
        assert forall|i: int| 0 <= i < n implies (#[trigger] tracks[i]).id@ != id by {
            if i > 0 {
                assert(tracks.skip(1)[i - 1].id@ != id);
            }
        }
    }
}

/// One track per identity: folding in a contact keeps the identities distinct.
pub proof fn law_one_track_per_identity(
    tracks: Seq<Track>,
    c: Contact,
    tuning: Tuning,
    frame: Frame,
    received: Instant,
)
    requires
        distinct(tracks),
    ensures
        distinct(associated(tracks, c, tuning, frame, received)),
{
    reveal(associated);
    lemma_place_found(tracks, c.id@);
}

proof fn lemma_still_distinct(tracks: Seq<Track>, keep: spec_fn(Track) -> bool)
    requires
        distinct(tracks),
    ensures
        distinct(tracks.filter(keep)),
        forall|i: int|
            0 <= i < tracks.filter(keep).len() ==> tracks.contains(
                #[trigger] tracks.filter(keep)[i],
            ),
    decreases tracks.len(),
{
    reveal(Seq::filter);
    if tracks.len() > 0 {
        let (rest, last) = (tracks.drop_last(), tracks.last());
        lemma_still_distinct(rest, keep);
        let (old, new) = (rest.filter(keep), tracks.filter(keep));
        assert forall|i: int| 0 <= i < old.len() implies tracks.contains(#[trigger] old[i])
            && old[i].id@ != last.id@ by {
            let j = choose|j: int| 0 <= j < rest.len() && rest[j] == old[i];
            assert(tracks[j] == old[i]);
        }
        assert(tracks[tracks.len() - 1] == last);
        assert forall|i: int| 0 <= i < new.len() implies tracks.contains(#[trigger] new[i]) by {
            if i < old.len() {
                assert(new[i] == old[i]);
            }
        }
        assert forall|i: int, j: int| 0 <= i < j < new.len() implies (#[trigger] new[i]).id@ != (
        #[trigger] new[j]).id@ by {
            assert(new[i] == old[i]);
            if j < old.len() {
                assert(new[j] == old[j]);
            }
        }
    }
}

/// A plot uses up room for one.
proof fn lemma_room(
    tracks: Seq<Track>,
    c: Contact,
    tuning: Tuning,
    frame: Frame,
    received: Instant,
    plots: nat,
)
    requires
        1 <= plots <= u64::MAX,
        forall|i: int| 0 <= i < tracks.len() ==> (#[trigger] tracks[i]).has_room(plots),
    ensures
        forall|i: int|
            0 <= i < associated(tracks, c, tuning, frame, received).len() ==> (
            #[trigger] associated(tracks, c, tuning, frame, received)[i]).has_room(
                (plots - 1) as nat,
            ),
{
    reveal(associated);
}

/// The time since an observation is never negative, and at the arrival of its batch it is
/// the age reported.
pub proof fn law_ages_count_from_the_report(track: Track, t: nat)
    ensures
        track.valid_age.finite() ==> {
            &&& track.filter_age(track.valid_rx@).value() == track.valid_age.value()
            &&& track.valid_age != Double::pack(true, 0) ==> track.filter_age(track.valid_rx@)
                == track.valid_age
            &&& (Double { bits: ZERO }).at_most(track.valid_age) ==> (Double {
                bits: ZERO,
            }).at_most(track.filter_age(t))
        },
        track.accept_age.finite() ==> {
            &&& track.evidence_age(track.accept_rx@).value() == track.accept_age.value()
            &&& track.accept_age != Double::pack(true, 0) ==> track.evidence_age(track.accept_rx@)
                == track.accept_age
            &&& (Double { bits: ZERO }).at_most(track.accept_age) ==> (Double {
                bits: ZERO,
            }).at_most(track.evidence_age(t))
        },
{
    facts::lemma_units_order(0, 0);
    if track.valid_age.finite() {
        clock::lemma_aged_by_nothing(track.valid_age);
        clock::lemma_aged_order(track.valid_age, 0, clock::elapsed(track.valid_rx@, t) as int);
    }
    if track.accept_age.finite() {
        clock::lemma_aged_by_nothing(track.accept_age);
        clock::lemma_aged_order(track.accept_age, 0, clock::elapsed(track.accept_rx@, t) as int);
    }
}

/// From the arrival that it holds on, the step to a plot is the age of the filter less that
/// of the plot; and the plot is superseded exactly if it is at least as old as the filter.
pub proof fn law_late_plots_are_superseded(
    track: Track,
    c: Contact,
    pos: Enu,
    received: Instant,
    gate: Double,
)
    requires
        track.valid_rx@ <= received@,
    ensures
        track.time_step(c, received) == track.filter_age(received@).minus(c.age_s),
        track.verdict(c, pos, received, gate) == Outcome::Superseded <==> track.filter_age(
            received@,
        ).minus(c.age_s).at_most(Double { bits: ZERO }),
        track.filter_age(received@).finite() && c.age_s.finite() ==> (track.verdict(
            c,
            pos,
            received,
            gate,
        ) == Outcome::Superseded <==> track.filter_age(received@).at_most(c.age_s)),
{
    facts::lemma_units_order(0, 0);
    if track.filter_age(received@).finite() && c.age_s.finite() {
        facts::lemma_minus_sign(track.filter_age(received@), c.age_s);
    }
}

/// A snapshot served again, whose age has grown by the time that went by, lands on a step
/// of zero and is superseded. This is of ages reported to the nanosecond or more coarsely,
/// up to thirteen days.
pub proof fn law_snapshots_served_again_are_superseded(
    track: Track,
    c: Contact,
    pos: Enu,
    received: Instant,
    gate: Double,
    age: nat,
)
    requires
        track.valid_rx@ <= received@,
        age + (received@ - track.valid_rx@) <= clock::EXACT_LIMIT,
        track.valid_age == clock::seconds(age as int),
        c.age_s == clock::seconds(age + (received@ - track.valid_rx@)),
    ensures
        track.time_step(c, received).value() == 0,
        track.verdict(c, pos, received, gate) == Outcome::Superseded,
{
    clock::lemma_nanos_read_back(age);
    facts::lemma_units_order(0, 0);
    let n = age + (received@ - track.valid_rx@);
    assert(clock::aged(track.valid_age, received@ - track.valid_rx@) == c.age_s);
    lemma2_to64();
    lemma2_to64_rest();
    facts::lemma_quotient_below(false, n as nat, clock::NANOS_PER_SEC as nat, 63);
    facts::lemma_minus_sign(c.age_s, c.age_s);
}

/// A superseded plot leaves the estimate, its moment and the evidence for it alone.
pub proof fn law_superseded_plots_change_nothing(
    track: Track,
    c: Contact,
    pos: Enu,
    received: Instant,
    gate: Double,
)
    requires
        track.has_room(1),
        track.verdict(c, pos, received, gate) == Outcome::Superseded,
    ensures
        ({
            let after = track.absorbed(c, pos, received, gate);
            &&& after.superseded == track.superseded + 1
            &&& after == (Track { superseded: after.superseded, ..track })
        }),
{
}

/// A gated plot still coasts the track, all three axes of it to the moment that the plot
/// describes, and applies the measurement to none of them. The evidence stays what it
/// was, and goes on ageing.
pub proof fn law_gated_plots_coast(
    track: Track,
    c: Contact,
    pos: Enu,
    received: Instant,
    gate: Double,
)
    requires
        track.has_room(1),
        track.verdict(c, pos, received, gate) == Outcome::Gated,
    ensures
        ({
            let after = track.absorbed(c, pos, received, gate);
            &&& after.rejected == track.rejected + 1
            &&& after.filt == track.filt.predicted(track.time_step(c, received))
            &&& after.valid_rx == received && after.valid_age == c.age_s
            &&& after == (Track {
                rejected: after.rejected,
                filt: after.filt,
                valid_rx: received,
                valid_age: c.age_s,
                ..track
            })
            &&& forall|t: nat| #[trigger] after.evidence_age(t) == track.evidence_age(t)
        }),
{
}

/// An accepted plot is evidence: one more report that agrees, observed when the plot says.
/// Whatever becomes of a plot, the track keeps its identity.
pub proof fn law_accepted_plots_are_evidence(
    track: Track,
    c: Contact,
    pos: Enu,
    received: Instant,
    gate: Double,
)
    requires
        track.has_room(1),
    ensures
        ({
            let after = track.absorbed(c, pos, received, gate);
            &&& after.id == track.id && after.first_seen == track.first_seen
            &&& match track.verdict(c, pos, received, gate) {
                Outcome::Updated => {
                    &&& after.updates == track.updates + 1
                    &&& after.accept_rx == received && after.accept_age == c.age_s
                },
                _ => {
                    &&& after.updates == track.updates
                    &&& after.accept_rx == track.accept_rx
                    &&& after.accept_age == track.accept_age
                },
            }
        }),
{
}

/// Only a firm track refuses a plot.
pub proof fn law_only_firm_tracks_gate(
    track: Track,
    c: Contact,
    pos: Enu,
    received: Instant,
    gate: Double,
)
    requires
        !track.firm(),
    ensures
        track.verdict(c, pos, received, gate) != Outcome::Gated,
{
}

/// Once a plot is taken in, or refused as implausible, the filter is valid for the moment
/// that the plot describes: at its arrival it is as old as the plot, and less old than it
/// was. Taken in, the plot is evidence just as old.
pub proof fn law_filter_is_where_the_plot_is(
    track: Track,
    c: Contact,
    pos: Enu,
    received: Instant,
    gate: Double,
)
    requires
        c.age_s.finite(),
        track.verdict(c, pos, received, gate) != Outcome::Superseded,
    ensures
        ({
            let after = track.absorbed(c, pos, received, gate);
            let held = clock::aged(track.valid_age, received@ - track.valid_rx@);
            &&& after.filter_age(received@).value() == c.age_s.value()
            &&& c.age_s != Double::pack(true, 0) ==> after.filter_age(received@) == c.age_s
            &&& held.finite() ==> after.filter_age(received@).below(held)
            &&& track.verdict(c, pos, received, gate) == Outcome::Updated
                ==> after.evidence_age(received@) == after.filter_age(received@)
        }),
{
    facts::lemma_units_order(0, 0);
    clock::lemma_aged_by_nothing(c.age_s);
    let held = clock::aged(track.valid_age, received@ - track.valid_rx@);
    if held.finite() {
        facts::lemma_minus_sign(held, c.age_s);
    }
}

/// A view is the estimate carried forward: the same velocity, and the position moved along
/// it for the time since the observation that the filter is valid for.
pub proof fn law_a_view_is_the_estimate_carried_forward(track: Track, t: nat)
    ensures
        ({
            let (d, v) = (track.filter_age(t), track.viewed(t));
            &&& v.coast_s == d
            &&& v.vel == track.filt.vel()
            &&& (Double { bits: ZERO }).below(d) ==> v.pos == track.filt.pos().plus(
                track.filt.vel().scaled(d),
            )
            &&& d.at_most(Double { bits: ZERO }) ==> v.pos == track.filt.pos() && v.pos_sigma
                == track.filt.worst_sigma()
        }),
{
}

/// The cube of the time since an observation is a number, for every instant and every age
/// that a report is credited with.
pub proof fn law_times_are_short(track: Track, t: nat)
    requires
        t < SPAN_LIMIT,
        (Double { bits: ZERO }).at_most(track.valid_age),
        track.valid_age.at_most(Double { bits: MAX_REPORTED_AGE_S }),
    ensures
        ({
            let dt = track.filter_age(t);
            dt.times(dt).times(dt).finite()
        }),
{
    let (age, span) = (track.valid_age, clock::elapsed(track.valid_rx@, t) as int);
    let dt = track.filter_age(t);
    let d = clock::NANOS_PER_SEC as nat;
    facts::lemma_units_order(0, 0);
    facts::lemma_units_order(age.magnitude(), MAX_REPORTED_AGE_S as nat);
    facts::lemma_units_order(age.magnitude(), 0);
    assert(age.finite());
    lemma2_to64();
    lemma2_to64_rest();
    lemma_pow2_adds(64, 32);
    if clock::seconds(clock::nanos(age)) == age {
        let n = (span + clock::nanos(age)) as nat;
        clock::lemma_nanos_sign(age);
        assert(n <= pow2(96));
        facts::lemma_quotient_below(false, n, d, 96);
    } else {
        lemma_pow2_adds(64, 31);
        facts::lemma_quotient_below(false, span as nat, d, 95);
        clock::lemma_seconds_order(0, span);
        facts::lemma_power(95);
        facts::lemma_units_order(MAX_REPORTED_AGE_S as nat, (1023 + 95) * 0x10_0000_0000_0000);
        facts::lemma_sum_below(clock::seconds(span), age, 95);
    }
    facts::lemma_times_below(dt, dt, 96, 96);
    facts::lemma_times_below(dt.times(dt), dt, 192, 96);
}

proof fn lemma_worst_order(f: Axes, g: Axes)
    requires
        f.e.position_sigma().at_most(g.e.position_sigma()),
        f.n.position_sigma().at_most(g.n.position_sigma()),
        f.u.position_sigma().at_most(g.u.position_sigma()),
    ensures
        f.worst_sigma().at_most(g.worst_sigma()),
{
    facts::lemma_units_order(0, 0);
}

/// Extrapolating a track never makes it look more certain than it is, and the farther it is
/// taken the less certain it looks.
pub proof fn law_views_widen_with_time(track: Track, t: nat, later: nat)
    requires
        track.filt.well_posed(),
        (Double { bits: ZERO }).at_most(track.valid_age),
        track.valid_age.finite(),
        t <= later,
        ({
            let dt = track.filter_age(later);
            dt.times(dt).times(dt).finite()
        }),
    ensures
        track.filt.worst_sigma().at_most(track.viewed(t).pos_sigma),
        track.viewed(t).pos_sigma.at_most(track.viewed(later).pos_sigma),
{
    let (dt, dt2) = (track.filter_age(t), track.filter_age(later));
    let zero = Double { bits: ZERO };
    let f = track.filt;
    facts::lemma_units_order(0, 0);
    clock::lemma_aged_order(
        track.valid_age,
        clock::elapsed(track.valid_rx@, t) as int,
        clock::elapsed(track.valid_rx@, later) as int,
    );
    facts::lemma_root_order(f.e.p00.larger(zero), f.e.p00.larger(zero));
    facts::lemma_root_order(f.n.p00.larger(zero), f.n.p00.larger(zero));
    facts::lemma_root_order(f.u.p00.larger(zero), f.u.p00.larger(zero));
    lemma_worst_order(f, f);
    if zero.below(dt2) {
        kalman::law_coasting_never_narrows(f.e, dt2);
        kalman::law_coasting_never_narrows(f.n, dt2);
        kalman::law_coasting_never_narrows(f.u, dt2);
        lemma_worst_order(f, f.predicted(dt2));
    }
    if zero.below(dt) {
        kalman::law_coasting_longer_is_wider(f.e, dt, dt2);
        kalman::law_coasting_longer_is_wider(f.n, dt, dt2);
        kalman::law_coasting_longer_is_wider(f.u, dt, dt2);
        lemma_worst_order(f.predicted(dt), f.predicted(dt2));
        facts::lemma_cube_order(dt, dt2);
        kalman::law_coasting_never_narrows(f.e, dt);
        kalman::law_coasting_never_narrows(f.n, dt);
        kalman::law_coasting_never_narrows(f.u, dt);
        lemma_worst_order(f, f.predicted(dt));
    }
}

/// A first plot makes a well-posed filter.
pub proof fn law_tracks_start_well_posed(c: Contact, pos: Enu, received: Instant, q: Double, r: Double)
    requires
        (Double { bits: ZERO }).at_most(q) && q.finite(),
        (Double { bits: ZERO }).at_most(r) && r.finite(),
    ensures
        Track::initiated(c, pos, received, q, r).filt.well_posed(),
{
    let v = Track::reported_velocity(c);
    kalman::law_starts_well_posed(pos.e, v.e, q, r);
    kalman::law_starts_well_posed(pos.n, v.n, q, r);
    kalman::law_starts_well_posed(pos.u, v.u, q, r);
}

impl Axes {
    /// On all axes the measurement variance is positive.
    pub open spec fn noisy(self) -> bool {
        let zero = Double { bits: ZERO };
        zero.below(self.e.r) && zero.below(self.n.r) && zero.below(self.u.r)
    }

    pub open spec fn finite_covariance(self) -> bool {
        self.e.finite_covariance() && self.n.finite_covariance() && self.u.finite_covariance()
    }

    /// A measurement takes off no axis more than is there.
    pub open spec fn takes_no_more(self, pos: Enu) -> bool {
        self.e.takes_no_more(pos.e) && self.n.takes_no_more(pos.n) && self.u.takes_no_more(pos.u)
    }
}

impl Track {
    /// Rounding spoils nothing when this plot is folded in: coasting to it leaves the
    /// covariances finite and, if it is accepted, it takes off them no more than is there.
    pub open spec fn spared_by(self, c: Contact, pos: Enu, received: Instant, gate: Double) -> bool {
        let held = self.coasted(c, received).filt;
        match self.verdict(c, pos, received, gate) {
            Outcome::Superseded => true,
            Outcome::Gated => held.finite_covariance(),
            _ => held.finite_covariance() && held.takes_no_more(pos),
        }
    }
}

/// A plot leaves a well-posed track well posed, whatever becomes of it.
pub proof fn law_plots_keep_tracks_well_posed(
    track: Track,
    c: Contact,
    pos: Enu,
    received: Instant,
    gate: Double,
)
    requires
        track.filt.well_posed(),
        track.filt.noisy(),
        track.spared_by(c, pos, received, gate),
    ensures
        track.absorbed(c, pos, received, gate).filt.well_posed(),
        track.absorbed(c, pos, received, gate).filt.noisy(),
{
    let dt = track.time_step(c, received);
    let f = track.filt;
    let held = f.predicted(dt);
    if track.verdict(c, pos, received, gate) != Outcome::Superseded {
        kalman::law_coasting_keeps_well_posed(f.e, dt);
        kalman::law_coasting_keeps_well_posed(f.n, dt);
        kalman::law_coasting_keeps_well_posed(f.u, dt);
        if track.verdict(c, pos, received, gate) == Outcome::Updated {
            kalman::lemma_noisy(held.e, pos.e);
            kalman::lemma_noisy(held.n, pos.n);
            kalman::lemma_noisy(held.u, pos.u);
            kalman::law_measuring_keeps_well_posed(held.e, pos.e);
            kalman::law_measuring_keeps_well_posed(held.n, pos.n);
            kalman::law_measuring_keeps_well_posed(held.u, pos.u);
        }
    }
}

/// All tracks have well-posed filters with a positive measurement variance.
pub open spec fn all_well_posed(tracks: Seq<Track>) -> bool {
    forall|i: int|
        0 <= i < tracks.len() ==> (#[trigger] tracks[i]).filt.well_posed()
            && tracks[i].filt.noisy()
}

/// A store whose process noise is finite and not negative, and whose measurement variance is
/// finite and positive, holds well-posed tracks: a contact makes one or leaves them so,
/// where rounding spoils nothing.
pub proof fn law_contacts_keep_tracks_well_posed(
    tracks: Seq<Track>,
    c: Contact,
    tuning: Tuning,
    frame: Frame,
    received: Instant,
)
    requires
        all_well_posed(tracks),
        (Double { bits: ZERO }).at_most(tuning.q) && tuning.q.finite(),
        (Double { bits: ZERO }).below(tuning.r) && tuning.r.finite(),
        ({
            let i = place(tracks, c.id@);
            i < tracks.len() ==> tracks[i as int].spared_by(
                c,
                plot(c, frame),
                received,
                tuning.gate_sigma,
            )
        }),
    ensures
        all_well_posed(associated(tracks, c, tuning, frame, received)),
{
    reveal(associated);
    let (i, pos) = (place(tracks, c.id@), plot(c, frame));
    if i < tracks.len() {
        law_plots_keep_tracks_well_posed(tracks[i as int], c, pos, received, tuning.gate_sigma);
    } else {
        law_tracks_start_well_posed(c, pos, received, tuning.q, tuning.r);
    }
}

/// A plot touches no track but the one with its identity.
pub proof fn law_other_tracks_are_left_alone(
    tracks: Seq<Track>,
    c: Contact,
    tuning: Tuning,
    frame: Frame,
    received: Instant,
)
    ensures
        ({
            let after = associated(tracks, c, tuning, frame, received);
            &&& tracks.len() <= after.len() <= tracks.len() + 1
            &&& forall|i: int|
                0 <= i < tracks.len() && (#[trigger] tracks[i]).id@ != c.id@ ==> after[i]
                    == tracks[i]
        }),
{
    reveal(associated);
    lemma_place_found(tracks, c.id@);
}

/// Every contact of a batch comes to exactly one thing.
pub proof fn law_every_contact_is_counted(
    tracks: Seq<Track>,
    contacts: Seq<Contact>,
    tuning: Tuning,
    frame: Frame,
    received: Instant,
)
    ensures
        tally(tracks, contacts, tuning, frame, received, Outcome::Initiated) + tally(
            tracks,
            contacts,
            tuning,
            frame,
            received,
            Outcome::Updated,
        ) + tally(tracks, contacts, tuning, frame, received, Outcome::Gated) + tally(
            tracks,
            contacts,
            tuning,
            frame,
            received,
            Outcome::Superseded,
        ) == contacts.len(),
    decreases contacts.len(),
{
    if contacts.len() > 0 {
        law_every_contact_is_counted(tracks, contacts.drop_last(), tuning, frame, received);
    }
}

impl TrackStore {
    /// No two tracks have the same identity.
    pub open spec fn valid(self) -> bool {
        distinct(self.tracks@)
    }

    pub fn new(process_noise: Double, meas_var: Double, gate_sigma: Double) -> (s: TrackStore)
        ensures
            s.valid(),
            s.tracks@.len() == 0,
            s.tuning == (Tuning { q: process_noise, r: meas_var, gate_sigma }),
            s.total_initiated == 0,
            s.total_dropped == 0,
            s.total_gated == 0,
            s.total_superseded == 0,
    {
        TrackStore {
            tracks: Vec::new(),
            tuning: Tuning { q: process_noise, r: meas_var, gate_sigma },
            total_initiated: 0,
            total_dropped: 0,
            total_gated: 0,
            total_superseded: 0,
        }
    }

    pub fn len(&self) -> (r: usize)
        ensures
            r == self.tracks@.len(),
    {
        self.tracks.len()
    }

    pub fn is_empty(&self) -> (r: bool)
        ensures
            r == (self.tracks@.len() == 0),
    {
        self.tracks.len() == 0
    }

    /// The tracks, one after the other.
    pub fn iter(&self) -> (r: &Vec<Track>)
        ensures
            r@ == self.tracks@,
    {
        &self.tracks
    }

    fn find(&self, id: &str) -> (r: usize)
        ensures
            r == place(self.tracks@, id@),
            r <= self.tracks@.len(),
    {
        let n: usize = self.tracks.len();
        let mut i: usize = 0;
        while i < n && !text::same(self.tracks[i].id.as_str(), id)
            invariant
                i <= n == self.tracks@.len(),
                forall|j: int| 0 <= j < i ==> (#[trigger] self.tracks@[j]).id@ != id@,
            decreases n - i,
        {
            i = i + 1;
        }
        proof {
            lemma_place(self.tracks@, id@, i as int);
        }
        i
    }

    pub fn get(&self, id: &str) -> (r: Option<&Track>)
        ensures
            match r {
                Some(t) => place(self.tracks@, id@) < self.tracks@.len() && *t
                    == self.tracks@[place(self.tracks@, id@) as int] && t.id@ == id@,
                None => forall|i: int|
                    0 <= i < self.tracks@.len() ==> (#[trigger] self.tracks@[i]).id@ != id@,
            },
    {
        let i: usize = self.find(id);
        proof {
            lemma_place_found(self.tracks@, id@);
        }
        if i < self.tracks.len() {
            Some(&self.tracks[i])
        } else {
            None
        }
    }

    /// No counter runs out over this many plots.
    pub open spec fn has_room(self, plots: nat) -> bool {
        &&& self.total_initiated + plots <= u64::MAX
        &&& self.total_gated + plots <= u64::MAX
        &&& self.total_superseded + plots <= u64::MAX
        &&& forall|i: int|
            0 <= i < self.tracks@.len() ==> (#[trigger] self.tracks@[i]).has_room(plots)
    }

    /// Fold one contact in.
    fn associate(&mut self, c: &Contact, frame: &Frame, received: Instant) -> (r: Outcome)
        requires
            old(self).valid(),
            forall|i: int|
                0 <= i < old(self).tracks@.len() ==> (#[trigger] old(self).tracks@[i]).has_room(1),
        ensures
            r == outcome(old(self).tracks@, *c, old(self).tuning, *frame, received),
            final(self).tracks@ == associated(
                old(self).tracks@,
                *c,
                old(self).tuning,
                *frame,
                received,
            ),
            final(self).valid(),
            final(self).tuning == old(self).tuning,
            final(self).total_initiated == old(self).total_initiated,
            final(self).total_dropped == old(self).total_dropped,
            final(self).total_gated == old(self).total_gated,
            final(self).total_superseded == old(self).total_superseded,
    {
        let pos = frame.to_enu(c.geo, c.trig.lat, c.trig.lon);
        let i: usize = self.find(c.id.as_str());
        proof {
            law_one_track_per_identity(self.tracks@, *c, self.tuning, *frame, received);
            reveal(outcome);
            reveal(associated);
        }
        if i < self.tracks.len() {
            let gate = self.tuning.gate_sigma;
            self.tracks[i].update(c, pos, received, gate)
        } else {
            let track = Track::new(c, pos, received, self.tuning.q, self.tuning.r);
            self.tracks.push(track);
            Outcome::Initiated
        }
    }

    /// Fold one batch in. `received` is when the batch landed; each contact carries how
    /// old it already was at that moment.
    pub fn ingest(&mut self, contacts: &[Contact], frame: &Frame, received: Instant) -> (r:
        IngestReport)
        requires
            old(self).valid(),
            old(self).has_room(contacts@.len()),
        ensures
            final(self).valid(),
            final(self).tracks@ == folded(
                old(self).tracks@,
                contacts@,
                old(self).tuning,
                *frame,
                received,
            ),
            final(self).tuning == old(self).tuning,
            ({
                let count = |what: Outcome|
                    tally(old(self).tracks@, contacts@, old(self).tuning, *frame, received, what);
                &&& r.initiated == count(Outcome::Initiated)
                &&& r.updated == count(Outcome::Updated)
                &&& r.gated == count(Outcome::Gated)
                &&& r.superseded == count(Outcome::Superseded)
                &&& final(self).total_initiated == old(self).total_initiated + r.initiated
                &&& final(self).total_gated == old(self).total_gated + r.gated
                &&& final(self).total_superseded == old(self).total_superseded + r.superseded
            }),
            final(self).total_dropped == old(self).total_dropped,
    {
        let mut report = IngestReport::default();
        let ghost (tracks, tuning, all) = (self.tracks@, self.tuning, contacts@);
        for k in 0..contacts.len()
            invariant
                all == contacts@,
                self.valid(),
                self.tuning == tuning,
                tracks == old(self).tracks@,
                tuning == old(self).tuning,
                old(self).has_room(all.len()),
                self.tracks@ == folded(tracks, all.take(k as int), tuning, *frame, received),
                report.initiated == tally(
                    tracks,
                    all.take(k as int),
                    tuning,
                    *frame,
                    received,
                    Outcome::Initiated,
                ),
                report.updated == tally(
                    tracks,
                    all.take(k as int),
                    tuning,
                    *frame,
                    received,
                    Outcome::Updated,
                ),
                report.gated == tally(
                    tracks,
                    all.take(k as int),
                    tuning,
                    *frame,
                    received,
                    Outcome::Gated,
                ),
                report.superseded == tally(
                    tracks,
                    all.take(k as int),
                    tuning,
                    *frame,
                    received,
                    Outcome::Superseded,
                ),
                report.initiated <= k,
                report.updated <= k,
                report.gated <= k,
                report.superseded <= k,
                self.total_initiated == old(self).total_initiated + report.initiated,
                self.total_gated == old(self).total_gated + report.gated,
                self.total_superseded == old(self).total_superseded + report.superseded,
                self.total_dropped == old(self).total_dropped,
                forall|i: int|
                    0 <= i < self.tracks@.len() ==> (#[trigger] self.tracks@[i]).has_room(
                        (all.len() - k) as nat,
                    ),
        {
            proof {
                assert(all.take(k + 1).drop_last() =~= all.take(k as int));
                lemma_room(
                    self.tracks@,
                    all[k as int],
                    tuning,
                    *frame,
                    received,
                    (all.len() - k) as nat,
                );
            }
            match self.associate(&contacts[k], frame, received) {
                Outcome::Initiated => {
                    report.initiated = report.initiated + 1;
                    self.total_initiated = self.total_initiated + 1;
                },
                Outcome::Updated => {
                    report.updated = report.updated + 1;
                },
                Outcome::Gated => {
                    report.gated = report.gated + 1;
                    self.total_gated = self.total_gated + 1;
                },
                Outcome::Superseded => {
                    report.superseded = report.superseded + 1;
                    self.total_superseded = self.total_superseded + 1;
                },
            }
        }
        assert(all.take(all.len() as int) =~= all);
        report
    }

    /// Drop tracks whose last accepted *observation* is older than `timeout`. Returns
    /// how many went.
    pub fn prune(&mut self, now: Instant, timeout: Duration) -> (r: usize)
        requires
            old(self).valid(),
            old(self).total_dropped + old(self).tracks@.len() <= u64::MAX,
        ensures
            final(self).valid(),
            final(self).tracks@ == old(self).tracks@.filter(
                fresh(now@, clock::seconds(timeout@ as int)),
            ),
            tracks::aged_out(old(self).tracks@, now@, timeout@, final(self).tracks@),
            r == old(self).tracks@.len() - final(self).tracks@.len(),
            final(self).total_dropped == old(self).total_dropped + r,
            final(self).tuning == old(self).tuning,
            final(self).total_initiated == old(self).total_initiated,
            final(self).total_gated == old(self).total_gated,
            final(self).total_superseded == old(self).total_superseded,
    {
        let limit = timeout.as_seconds();
        let before: usize = self.tracks.len();
        let ghost tracks = self.tracks@;
        let mut all: Vec<Track> = Vec::new();
        std::mem::swap(&mut all, &mut self.tracks);
        let mut kept: Vec<Track> = Vec::new();
        for t in it: all
            invariant
                it.seq() == tracks,
                limit == clock::seconds(timeout@ as int),
                kept@ == tracks.take(it.index()).filter(fresh(now@, limit)),
                kept@.len() <= it.index(),
        {
            proof {
                reveal(Seq::filter);
                assert(tracks.take(it.index() + 1).drop_last() =~= tracks.take(it.index()));
            }
            if t.staleness(now) <= limit {
                kept.push(t);
            }
        }
        proof {
            assert(tracks.take(tracks.len() as int) =~= tracks);
            lemma_still_distinct(tracks, fresh(now@, limit));
            tracks::law_ageing_leaves_the_right_tracks(tracks, now@, timeout@);
        }
        self.tracks = kept;
        let dropped: usize = before - self.tracks.len();
        self.total_dropped = self.total_dropped + dropped as u64;
        dropped
    }
}

} // verus!
