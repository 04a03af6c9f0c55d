//! Tracks and plots, axis by axis and field by field.
use crate::batches;
use crate::clock;
use crate::clock::Instant;
use crate::double::facts;
use crate::double::facts::size;
use crate::double::{Double, THREE, ZERO};
use crate::geo;
use crate::geo::{Enu, Frame, FPM_TO_MS, KT_TO_MS, MS_TO_KT};
use crate::ingest::Contact;
use crate::kalman::Kf1D;
use crate::laws::estimator;
use crate::laws::listing;
use crate::track;
use crate::track::{Outcome, Track, Tuning};
use vstd::arithmetic::power2::*;
use vstd::prelude::*;

verus! {

/// An age and the time that went by add up, but for a few parts in 2^53: seconds times
/// 10^9, in units of doubles.
pub proof fn law_ages_add_up(age: Double, span: int)
    requires
        age.finite(),
        clock::aged(age, span).finite(),
    ensures
        size(
            clock::aged(age, span).value() * 1_000_000_000 - (age.value() * 1_000_000_000 + span
                * pow2(1074)),
        ) * 0x20_0000_0000_0000 <= 8 * (size(age.value() * 1_000_000_000) + size(
            span * pow2(1074),
        )) + 8 * (1_000_000_000 * 0x10_0000_0000_0000),
{
    let o = pow2(1074) as int;
    lemma_pow2_pos(1074);
    let d = 1_000_000_000int;
    let r = clock::aged(age, span);
    let n = clock::nanos(age);
    if clock::seconds(n) == age {
        lemma_seconds_error(n);
        lemma_seconds_error(span + n);
        assert((span + n) * o == span * o + n * o) by (nonlinear_arith);
    } else {
        let s = clock::seconds(span);
        assert(s.finite());
        lemma_seconds_error(span);
        facts::lemma_plus_error(s, age);
    }
}

/// Nanoseconds in seconds are off by one part in 2^53, or half a unit.
proof fn lemma_seconds_error(n: int)
    requires
        clock::seconds(n).finite(),
    ensures
        size(clock::seconds(n).value() * 1_000_000_000 - n * pow2(1074)) * 0x20_0000_0000_0000
            <= size(n * pow2(1074)) + 1_000_000_000 * 0x10_0000_0000_0000,
{
    let o = pow2(1074);
    lemma_pow2_pos(1074);
    let d = 1_000_000_000nat;
    let k = size(n) as nat;
    facts::lemma_rounded_to_nearest(n < 0, k * o, d);
    facts::lemma_rounding_error(k * o, d, clock::seconds(n).magnitude());
    assert(n * o == k * o || n * o == -((k * o) as int)) by (nonlinear_arith)
        requires
            n == k || n == -(k as int),
    ;
    assert(n >= 0 ==> n * o >= 0) by (nonlinear_arith)
        requires
            o > 0,
    ;
    assert(n < 0 ==> n * o == -((k * o) as int)) by (nonlinear_arith)
        requires
            n < 0 ==> n == -(k as int),
    ;
    assert(n >= 0 ==> n * o == k * o) by (nonlinear_arith)
        requires
            n >= 0 ==> n == k,
    ;
}

/// The time since an observation counts from the arrival of its batch, and is the age
/// reported before that.
pub proof fn law_time_counts_from_the_arrival(track: Track, t: nat)
    ensures
        track.valid_rx@ <= t ==> track.filter_age(t) == clock::aged(
            track.valid_age,
            t - track.valid_rx@,
        ),
        t < track.valid_rx@ ==> track.filter_age(t) == clock::aged(track.valid_age, 0),
        track.accept_rx@ <= t ==> track.evidence_age(t) == clock::aged(
            track.accept_age,
            t - track.accept_rx@,
        ),
        t < track.accept_rx@ ==> track.evidence_age(t) == clock::aged(track.accept_age, 0),
{
}

/// A coordinate is more than `gate` sigma from what the axis predicts.
pub open spec fn far_off(axis: Kf1D, z: Double, gate: Double) -> bool {
    gate.below(z.minus(axis.x).absolute().over(axis.p00.plus(axis.r).root()))
}

/// The step from the observation that a filter holds to that of a plot.
pub open spec fn step(track: Track, c: Contact, received: Instant) -> Double {
    clock::aged(track.valid_age, received@ - track.valid_rx@).minus(c.age_s)
}

/// A plot is superseded if it describes no later moment than the filter holds. Any other is
/// refused exactly if the track has four reports or more and the plot is too far off on one
/// of the axes, east, north or up, at the moment that it describes. All others are taken in.
pub open spec fn judged(
    track: Track,
    c: Contact,
    pos: Enu,
    received: Instant,
    gate: Double,
    what: Outcome,
) -> bool {
    let dt = step(track, c, received);
    let late = dt.at_most(Double { bits: ZERO });
    let odd = far_off(track.filt.e.predicted(dt), pos.e, gate) || far_off(
        track.filt.n.predicted(dt),
        pos.n,
        gate,
    ) || far_off(track.filt.u.predicted(dt), pos.u, gate);
    &&& what == Outcome::Superseded <==> late
    &&& what == Outcome::Gated <==> !late && track.updates >= 4 && odd
    &&& what == Outcome::Updated <==> !late && !(track.updates >= 4 && odd)
}

/// Every plot is superseded, refused or taken in as it should be.
pub proof fn law_which_plots_are_taken_in(
    track: Track,
    c: Contact,
    pos: Enu,
    received: Instant,
    gate: Double,
)
    ensures
        judged(track, c, pos, received, gate, track.verdict(c, pos, received, gate)),
{
}

/// A track is firm with four reports, whatever else it is.
pub proof fn law_four_reports_make_a_track_firm(track: Track)
    ensures
        track.firm() <==> track.updates >= 4,
{
}

/// An axis has taken in a measurement: it was taken to the moment of it, drawn towards it and
/// is no less certain.
pub open spec fn took_in(was: Kf1D, dt: Double, z: Double, is: Kf1D) -> bool {
    let held = was.predicted(dt);
    let y = z.minus(held.x);
    &&& estimator::between(held.x, is.x, held.x.plus(y))
    // A gain of one half or more.
    &&& (Double { bits: 0x3fe0_0000_0000_0000 }).at_most(held.p00.over(held.p00.plus(held.r)))
        ==> estimator::between(
        held.x.plus(y.over(Double { bits: 0x4000_0000_0000_0000 })),
        is.x,
        held.x.plus(y),
    )
    &&& is.v == held.v.plus(held.p10.over(held.p00.plus(held.r)).times(y))
    &&& is.p00.at_most(held.p00)
}

/// The axis can be computed with: its covariances and its position are numbers, and so is
/// its difference to the measurement.
pub open spec fn regular(was: Kf1D, dt: Double, z: Double) -> bool {
    let held = was.predicted(dt);
    &&& held.well_posed()
    &&& (Double { bits: ZERO }).below(held.p00.plus(held.r))
    &&& held.x.finite()
    &&& z.minus(held.x).finite()
}

/// A plot is taken in on each of the three axes: east by its east, north by its north, up by
/// its up.
pub open spec fn drawn(was: Track, c: Contact, pos: Enu, received: Instant, is: Track) -> bool {
    let dt = step(was, c, received);
    &&& regular(was.filt.e, dt, pos.e) ==> took_in(was.filt.e, dt, pos.e, is.filt.e)
    &&& regular(was.filt.n, dt, pos.n) ==> took_in(was.filt.n, dt, pos.n, is.filt.n)
    &&& regular(was.filt.u, dt, pos.u) ==> took_in(was.filt.u, dt, pos.u, is.filt.u)
    &&& is.filt.e == was.filt.e.predicted(dt).updated(pos.e)
    &&& is.filt.n == was.filt.n.predicted(dt).updated(pos.n)
    &&& is.filt.u == was.filt.u.predicted(dt).updated(pos.u)
}

/// Accepted plots are taken in on every axis.
pub proof fn law_accepted_plots_move_every_axis(
    track: Track,
    c: Contact,
    pos: Enu,
    received: Instant,
    gate: Double,
)
    requires
        track.verdict(c, pos, received, gate) == Outcome::Updated,
    ensures
        drawn(track, c, pos, received, track.absorbed(c, pos, received, gate)),
{
    let was = track.filt;
    let dt = step(track, c, received);
    assert(Double { bits: crate::double::TWO } == (Double { bits: 0x4000_0000_0000_0000 }));
    if regular(was.e, dt, pos.e) {
        lemma_took_in(was.e, dt, pos.e);
    }
    if regular(was.n, dt, pos.n) {
        lemma_took_in(was.n, dt, pos.n);
    }
    if regular(was.u, dt, pos.u) {
        lemma_took_in(was.u, dt, pos.u);
    }
}

proof fn lemma_took_in(was: Kf1D, dt: Double, z: Double)
    requires
        regular(was, dt, z),
    ensures
        took_in(was, dt, z, was.predicted(dt).updated(z)),
{
    let held = was.predicted(dt);
    estimator::law_a_measurement_draws_the_estimate(held, z);
    crate::kalman::law_measuring_never_widens(held, z);
}

/// What an accepted plot says is what the track shows from then on. What it does not say,
/// the track keeps.
pub proof fn law_accepted_plots_are_shown(
    track: Track,
    c: Contact,
    pos: Enu,
    received: Instant,
    gate: Double,
)
    requires
        track.has_room(1),
        track.verdict(c, pos, received, gate) == Outcome::Updated,
    ensures
        ({
            let is = track.absorbed(c, pos, received, gate);
            &&& is.label == c.label && is.squawk == c.squawk
            &&& is.emergency == c.emergency && is.on_ground == c.on_ground
            &&& is.geo == c.geo
            &&& is.kind == if c.kind@.len() > 0 {
                c.kind
            } else {
                track.kind
            }
            &&& is.valid_rx == received && is.accept_rx == received
            &&& is.valid_age == c.age_s && is.accept_age == c.age_s
            &&& is.updates == track.updates + 1
            &&& is.rejected == track.rejected && is.superseded == track.superseded
            &&& is.id == track.id && is.source == track.source
            &&& is.first_seen == track.first_seen
        }),
{
}

/// A refused plot takes the three axes to its moment and is taken in on none of them.
pub proof fn law_refused_plots_coast_every_axis(
    track: Track,
    c: Contact,
    pos: Enu,
    received: Instant,
    gate: Double,
)
    requires
        track.has_room(1),
        track.verdict(c, pos, received, gate) == Outcome::Gated,
    ensures
        ({
            let is = track.absorbed(c, pos, received, gate);
            let dt = step(track, c, received);
            &&& is.filt.e == track.filt.e.predicted(dt)
            &&& is.filt.n == track.filt.n.predicted(dt)
            &&& is.filt.u == track.filt.u.predicted(dt)
            &&& is.valid_rx == received && is.valid_age == c.age_s
            &&& is.accept_rx == track.accept_rx && is.accept_age == track.accept_age
            &&& is.rejected == track.rejected + 1
            &&& is.updates == track.updates && is.superseded == track.superseded
            &&& is.geo == track.geo && is.label == track.label && is.last_nis == track.last_nis
        }),
{
}

/// The square of an innovation over its variance, on one axis.
pub open spec fn surprise(axis: Kf1D, z: Double) -> Double {
    let y = z.minus(axis.x);
    y.times(y).over(axis.p00.plus(axis.r))
}

/// The surprise that an accepted plot leaves on record is of all three axes: it is at least a
/// third of each, and at most what three of the largest come to.
pub proof fn law_surprise_is_of_all_axes(
    track: Track,
    c: Contact,
    pos: Enu,
    received: Instant,
    gate: Double,
    most: Double,
)
    requires
        track.verdict(c, pos, received, gate) == Outcome::Updated,
        ({
            let dt = step(track, c, received);
            let (e, n, u) = (
                surprise(track.filt.e.predicted(dt), pos.e),
                surprise(track.filt.n.predicted(dt), pos.n),
                surprise(track.filt.u.predicted(dt), pos.u),
            );
            let zero = Double { bits: ZERO };
            &&& zero.at_most(e) && zero.at_most(n) && zero.at_most(u)
            &&& e.at_most(most) && n.at_most(most) && u.at_most(most)
        }),
    ensures
        ({
            let dt = step(track, c, received);
            let three = Double { bits: 0x4008_0000_0000_0000 };
            let nis = track.absorbed(c, pos, received, gate).last_nis;
            &&& surprise(track.filt.e.predicted(dt), pos.e).over(three).at_most(nis)
            &&& surprise(track.filt.n.predicted(dt), pos.n).over(three).at_most(nis)
            &&& surprise(track.filt.u.predicted(dt), pos.u).over(three).at_most(nis)
            &&& nis.at_most(most.plus(most).plus(most).over(three))
        }),
{
    let dt = step(track, c, received);
    let three = Double { bits: THREE };
    let (e, n, u) = (
        surprise(track.filt.e.predicted(dt), pos.e),
        surprise(track.filt.n.predicted(dt), pos.n),
        surprise(track.filt.u.predicted(dt), pos.u),
    );
    facts::lemma_units_order(0, 0);
    facts::lemma_units_order(THREE as nat, 0);
    facts::lemma_plus_grows(e, n);
    facts::lemma_plus_grows(e.plus(n), u);
    let sum = e.plus(n).plus(u);
    facts::lemma_over_order(e, sum, three);
    facts::lemma_over_order(n, sum, three);
    facts::lemma_over_order(u, sum, three);
    facts::lemma_sum_order(e, n, most, most);
    facts::lemma_sum_order(e.plus(n), u, most.plus(most), most);
    facts::lemma_over_order(sum, most.plus(most).plus(most), three);
    assert(track.absorbed(c, pos, received, gate).last_nis == sum.over(three));
}

/// A view shows every axis where it is after the time since the observation, at the velocity
/// that it has; or where it is, if no time has passed.
pub proof fn law_views_show_every_axis(track: Track, t: nat)
    ensures
        ({
            let (d, v, f) = (track.filter_age(t), track.viewed(t), track.filt);
            &&& v.coast_s == d
            &&& v.vel.e == f.e.v && v.vel.n == f.n.v && v.vel.u == f.u.v
            &&& (Double { bits: ZERO }).below(d) ==> {
                &&& v.pos.e == f.e.x.plus(f.e.v.times(d))
                &&& v.pos.n == f.n.x.plus(f.n.v.times(d))
                &&& v.pos.u == f.u.x.plus(f.u.v.times(d))
            }
            &&& d.at_most(Double { bits: ZERO }) ==> {
                &&& v.pos.e == f.e.x && v.pos.n == f.n.x && v.pos.u == f.u.x
            }
        }),
{
}

/// The root of a variance, or of nought where it is negative.
pub open spec fn sigma(variance: Double) -> Double {
    variance.larger(Double { bits: ZERO }).root()
}

/// The uncertainty of a view is that of its worst axis: no axis has more, and one has it.
pub proof fn law_views_show_the_worst_axis(track: Track, t: nat)
    requires
        track.filt.well_posed(),
        ({
            let d = track.filter_age(t);
            (Double { bits: ZERO }).below(d) && d.times(d).times(d).finite()
        }),
    ensures
        ({
            let (d, v, f) = (track.filter_age(t), track.viewed(t), track.filt);
            let (e, n, u) = (
                sigma(f.e.predicted(d).p00),
                sigma(f.n.predicted(d).p00),
                sigma(f.u.predicted(d).p00),
            );
            &&& e.at_most(v.pos_sigma) && n.at_most(v.pos_sigma) && u.at_most(v.pos_sigma)
            &&& v.pos_sigma.value() == e.value() || v.pos_sigma.value() == n.value()
                || v.pos_sigma.value() == u.value()
        }),
{
    let (d, f) = (track.filter_age(t), track.filt);
    facts::lemma_units_order(0, 0);
    lemma_sigma(f.e, d);
    lemma_sigma(f.n, d);
    lemma_sigma(f.u, d);
}

proof fn lemma_sigma(k: Kf1D, d: Double)
    requires
        k.well_posed(),
        (Double { bits: ZERO }).below(d),
        d.times(d).times(d).finite(),
    ensures
        !sigma(k.predicted(d).p00).nan(),
        sigma(k.predicted(d).p00).value() >= 0,
        k.predicted(d).position_sigma() == sigma(k.predicted(d).p00),
{
    crate::kalman::law_coasting_never_narrows(k, d);
    let p = k.predicted(d).p00.larger(Double { bits: ZERO });
    facts::lemma_units_order(0, 0);
    facts::lemma_root_order(p, p);
}

/// A first plot makes a track where the plot is, with the speed reported along the track
/// reported: to the east by its sine, to the north by its cosine. Without both there is no
/// horizontal velocity.
pub proof fn law_first_plots_make_tracks(
    c: Contact,
    pos: Enu,
    received: Instant,
    q: Double,
    r: Double,
)
    ensures
        ({
            let t = Track::initiated(c, pos, received, q, r);
            let (f, zero) = (t.filt, Double { bits: ZERO });
            &&& t.id == c.id && t.label == c.label && t.kind == c.kind && t.squawk == c.squawk
            &&& t.emergency == c.emergency && t.on_ground == c.on_ground
            &&& t.source == c.source && t.geo == c.geo
            &&& t.valid_rx == received && t.accept_rx == received && t.first_seen == received
            &&& t.valid_age == c.age_s && t.accept_age == c.age_s
            &&& t.updates == 1 && t.rejected == 0 && t.superseded == 0
            &&& f.e.x == pos.e && f.n.x == pos.n && f.u.x == pos.u
            &&& f.e.p00 == r && f.n.p00 == r && f.u.p00 == r
            &&& f.e.q == q && f.n.q == q && f.u.q == q
            &&& match (c.gs_kt, c.track_deg) {
                (Some(gs), Some(_)) => {
                    let speed = gs.times(Double { bits: KT_TO_MS });
                    &&& f.e.v == speed.times(c.trig.track.sin)
                    &&& f.n.v == speed.times(c.trig.track.cos)
                },
                _ => f.e.v == zero && f.n.v == zero,
            }
            &&& c.vrate_fpm matches Some(rate) ==> f.u.v == rate.times(Double { bits: FPM_TO_MS })
            &&& c.vrate_fpm is None ==> f.u.v.value() == 0
        }),
{
    facts::lemma_units_order(0, 0);
    facts::lemma_times_zero(Double { bits: FPM_TO_MS }, Double { bits: ZERO });
}

/// Turning the reported track round turns the first velocity round; the vertical rate stays.
pub proof fn law_first_velocities_follow_the_track(
    c: Contact,
    d: Contact,
    pos: Enu,
    received: Instant,
    q: Double,
    r: Double,
)
    requires
        c.gs_kt is Some && c.gs_kt == d.gs_kt,
        c.track_deg is Some && d.track_deg is Some,
        c.vrate_fpm == d.vrate_fpm,
        d.trig.track.sin.mirrors(c.trig.track.sin),
        d.trig.track.cos.mirrors(c.trig.track.cos),
    ensures
        ({
            let (f, g) = (
                Track::initiated(c, pos, received, q, r).filt,
                Track::initiated(d, pos, received, q, r).filt,
            );
            g.e.v.mirrors(f.e.v) && g.n.v.mirrors(f.n.v) && g.u.v == f.u.v
        }),
{
    let speed = c.gs_kt->0.times(Double { bits: KT_TO_MS });
    facts::lemma_scale_mirrors(d.trig.track.sin, speed, c.trig.track.sin, speed);
    facts::lemma_scale_mirrors(d.trig.track.cos, speed, c.trig.track.cos, speed);
    facts::lemma_times_commutes(speed, c.trig.track.sin);
    facts::lemma_times_commutes(speed, c.trig.track.cos);
    facts::lemma_times_commutes(speed, d.trig.track.sin);
    facts::lemma_times_commutes(speed, d.trig.track.cos);
}

/// The speed over the ground is no less than that to either side, in knots, and does not
/// depend on which way the track goes.
pub proof fn law_ground_speed_is_of_both_sides(track: Track, other: Track)
    requires
        !track.filt.e.v.nan(),
        !track.filt.n.v.nan(),
        other.filt.e.v.magnitude() == track.filt.e.v.magnitude(),
        other.filt.n.v.magnitude() == track.filt.n.v.magnitude(),
    ensures
        track.ground_speed() == track.filt.e.v.distance(track.filt.n.v).times(
            Double { bits: MS_TO_KT },
        ),
        other.ground_speed() == track.ground_speed(),
{
}

/// A plot is placed where its coordinates say, by the sines and cosines that go with them.
pub proof fn law_plots_are_placed_by_their_coordinates(c: Contact, frame: Frame)
    ensures
        track::plot(c, frame) == frame.rotated(
            geo::Ecef::of(c.geo.alt_m, c.trig.lat, c.trig.lon),
        ),
{
}

/// After a contact the track of its identity is what it was, with the contact folded in; or
/// the track that the contact starts. Every other identity has the track that it had.
pub proof fn law_a_contact_reaches_its_track(
    tracks: Seq<Track>,
    c: Contact,
    tuning: Tuning,
    frame: Frame,
    received: Instant,
    id: Seq<char>,
)
    ensures
        ({
            let after = track::associated(tracks, c, tuning, frame, received);
            let pos = frame.rotated(geo::Ecef::of(c.geo.alt_m, c.trig.lat, c.trig.lon));
            &&& id != c.id@ ==> batches::held(after, id) == batches::held(tracks, id)
            &&& match batches::held(tracks, c.id@) {
                Some(t) => {
                    &&& after.len() == tracks.len()
                    &&& batches::held(after, c.id@) == Some(
                        t.absorbed(c, pos, received, tuning.gate_sigma),
                    )
                    &&& track::outcome(tracks, c, tuning, frame, received) == t.verdict(
                        c,
                        pos,
                        received,
                        tuning.gate_sigma,
                    )
                },
                None => {
                    &&& after == tracks.push(
                        Track::initiated(c, pos, received, tuning.q, tuning.r),
                    )
                    &&& track::outcome(tracks, c, tuning, frame, received) == Outcome::Initiated
                },
            }
        }),
{
    batches::lemma_one_contact(tracks, c, tuning, frame, received, id);
    batches::lemma_one_contact(tracks, c, tuning, frame, received, c.id@);
    reveal(track::associated);
    reveal(track::outcome);
}

/// The track held under an identity has that identity, and none is held exactly if no track
/// has it.
pub proof fn law_tracks_are_held_by_identity(tracks: Seq<Track>, id: Seq<char>)
    ensures
        match batches::held(tracks, id) {
            Some(t) => t.id@ == id && tracks.contains(t),
            None => forall|i: int| 0 <= i < tracks.len() ==> (#[trigger] tracks[i]).id@ != id,
        },
{
    track::lemma_place_found(tracks, id);
}

/// Ageing keeps exactly the tracks whose last accepted observation is no older than the
/// timeout, whatever else they are, in the order that they had.
pub proof fn law_ageing_goes_by_the_evidence(
    tracks: Seq<Track>,
    now: nat,
    timeout: nat,
    t: Track,
)
    ensures
        ({
            let kept = tracks.filter(track::fresh(now, clock::seconds(timeout as int)));
            kept.contains(t) <==> tracks.contains(t) && t.evidence_age(now).at_most(
                clock::seconds(timeout as int),
            )
        }),
{
    let keep = track::fresh(now, clock::seconds(timeout as int));
    let kept = tracks.filter(keep);
    if kept.contains(t) {
        let p = choose|p: int| 0 <= p < kept.len() && kept[p] == t;
        let i = listing::lemma_was(tracks, keep, p);
        assert(tracks[i] == t);
    }
    if tracks.contains(t) && t.evidence_age(now).at_most(clock::seconds(timeout as int)) {
        let i = choose|i: int| 0 <= i < tracks.len() && tracks[i] == t;
        assert(keep(tracks[i]));
        let p = listing::lemma_kept(tracks, keep, i);
        assert(kept[p] == t);
    }
}

/// The tracks that are left are those whose last accepted observation is no older than the
/// timeout.
pub open spec fn aged_out(was: Seq<Track>, now: nat, timeout: nat, is: Seq<Track>) -> bool {
    forall|t: Track|
        #[trigger] is.contains(t) <==> was.contains(t) && t.evidence_age(now).at_most(
            clock::seconds(timeout as int),
        )
}

/// Ageing leaves the right tracks.
pub proof fn law_ageing_leaves_the_right_tracks(tracks: Seq<Track>, now: nat, timeout: nat)
    ensures
        aged_out(
            tracks,
            now,
            timeout,
            tracks.filter(track::fresh(now, clock::seconds(timeout as int))),
        ),
{
    let kept = tracks.filter(track::fresh(now, clock::seconds(timeout as int)));
    assert forall|t: Track|
        #[trigger] kept.contains(t) <==> tracks.contains(t) && t.evidence_age(now).at_most(
            clock::seconds(timeout as int),
        ) by {
        law_ageing_goes_by_the_evidence(tracks, now, timeout, t);
    }
}

/// A batch without repeated identities reaches all of its tracks: each contact is folded into
/// the track of its identity, or starts one, and the tracks of all other identities stay.
pub proof fn law_a_batch_reaches_its_tracks(
    tracks: Seq<Track>,
    contacts: Seq<Contact>,
    tuning: Tuning,
    frame: Frame,
    received: Instant,
    id: Seq<char>,
    i: int,
)
    requires
        batches::distinct(contacts),
        0 <= i < contacts.len(),
    ensures
        ({
            let after = track::folded(tracks, contacts, tuning, frame, received);
            let c = contacts[i];
            let pos = frame.rotated(geo::Ecef::of(c.geo.alt_m, c.trig.lat, c.trig.lon));
            &&& batches::held(after, c.id@) == Some(
                match batches::held(tracks, c.id@) {
                    Some(t) => t.absorbed(c, pos, received, tuning.gate_sigma),
                    None => Track::initiated(c, pos, received, tuning.q, tuning.r),
                },
            )
            &&& (forall|j: int| 0 <= j < contacts.len() ==> (#[trigger] contacts[j]).id@ != id)
                ==> batches::held(after, id) == batches::held(tracks, id)
        }),
{
    batches::lemma_apart(tracks, contacts, tuning, frame, received, Outcome::Updated);
}

} // verus!
