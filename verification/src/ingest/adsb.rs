//! ADS-B sensor adapter.
//!
//! ADS-B is a cooperative surveillance broadcast: every transponder-equipped aircraft
//! reports its own identity, position, altitude and velocity roughly once a second.
//! It is the cleanest public stand-in for a real air-picture feed, and it has all the
//! properties that make live telemetry awkward: fields go missing, altitude is
//! sometimes the string "ground", positions are stale by an unknown amount, and the
//! producer will occasionally hand you a malformed record. The adapter absorbs all of
//! that so the tracker never sees a partial contact.
use super::{Batch, Contact, IngestError, SensorHealth, Trig};
use crate::clock::{Duration, Instant};
use crate::double::{Double, ZERO};
use crate::geo;
use crate::geo::{to_radians, Geodetic, FT_TO_M};
use crate::text;
use vstd::prelude::*;

verus! {

/// Initial body buffer. Deliberately not the configured limit: reserving the ceiling on
/// every poll would allocate the very memory the ceiling exists to protect.
pub const BODY_PREALLOC: usize = 65_536;

/// The bits of 60: ceiling on the age a single report is allowed to claim. Anything
/// beyond this is a decode artefact rather than a very patient aircraft, and letting it
/// through would hand the tracker an enormous negative time step to reason about.
pub const MAX_REPORTED_AGE_S: u64 = 0x404e_0000_0000_0000;

/// The bits of 90 and of 180.
pub const MAX_LAT_DEG: u64 = 0x4056_8000_0000_0000;

pub const MAX_LON_DEG: u64 = 0x4066_8000_0000_0000;

/// The objection to a response of this status, if it is not one of success.
pub open spec fn objection(code: u16) -> Seq<char> {
    "status "@ + text::decimal(code as nat)
}

/// Refuse a response whose status is not one of success.
pub fn check_status(code: u16) -> (r: Result<(), IngestError>)
    ensures
        match r {
            Ok(_) => 200 <= code <= 299,
            Err(IngestError::Http(e)) => !(200 <= code <= 299) && e@ == objection(code),
            _ => false,
        },
{
    if 200 <= code && code <= 299 {
        return Ok(());
    }
    let mut e = "status ".to_string();
    e.append(text::number(code as u128).as_str());
    Err(IngestError::Http(e))
}

/// The objection to a declared length, if there is one.
pub open spec fn declaration(declared: Option<u64>, limit: usize) -> Option<IngestError> {
    match declared {
        Some(len) if len > limit => Some(
            IngestError::Oversized {
                limit,
                seen: saturated(len as nat),
            },
        ),
        _ => None,
    }
}

/// Cheap pre-check on the declared length.
///
/// Advisory only, and never the control: `Content-Length` is optional, and a server that
/// wants to flood us can simply omit it or understate it. It buys an early rejection in
/// the honest case, which is the common one.
pub fn check_declared_length(declared: Option<u64>, limit: usize) -> (r: Result<(), IngestError>)
    ensures
        match declaration(declared, limit) {
            Some(e) => r == Err::<(), IngestError>(e),
            None => r is Ok,
        },
{
    match declared {
        Some(len) => if len > limit as u64 {
            Err(
                IngestError::Oversized {
                    limit,
                    seen: if len > usize::MAX as u64 {
                        usize::MAX
                    } else {
                        len as usize
                    },
                },
            )
        } else {
            Ok(())
        },
        None => Ok(()),
    }
}

/// The buffer with one more chunk, or the size that it would have had.
pub open spec fn joined(buf: Seq<u8>, chunk: Seq<u8>, limit: nat) -> Result<Seq<u8>, nat> {
    if buf.len() + chunk.len() > limit {
        Err(buf.len() + chunk.len())
    } else {
        Ok(buf + chunk)
    }
}

/// A size as far as a `usize` holds it.
pub open spec fn saturated(n: nat) -> usize {
    if n > usize::MAX {
        usize::MAX
    } else {
        n as usize
    }
}

/// Append one chunk, refusing to let the buffer pass `limit`.
///
/// The size is checked *before* the copy, so the buffer never momentarily holds more
/// than the limit. The bound is on what gets allocated, not on what is noticed
/// afterwards. A size that no `usize` holds is reported as the largest.
pub fn accumulate(buf: &mut Vec<u8>, chunk: &[u8], limit: usize) -> (r: Result<(), IngestError>)
    ensures
        match joined(old(buf)@, chunk@, limit as nat) {
            Ok(all) => r is Ok && final(buf)@ == all,
            Err(seen) => {
                &&& r == Err::<(), IngestError>(
                    IngestError::Oversized { limit, seen: saturated(seen) },
                )
                &&& final(buf)@ == old(buf)@
            },
        },
{
    let seen: usize = match buf.len().checked_add(chunk.len()) {
        Some(n) => n,
        None => {
            return Err(IngestError::Oversized { limit, seen: usize::MAX });
        },
    };
    if seen > limit {
        return Err(IngestError::Oversized { limit, seen });
    }
    buf.extend_from_slice(chunk);
    assert(buf@ =~= old(buf)@ + chunk@);
    Ok(())
}

/// A body read chunk by chunk, abandoned the moment it passes `limit`; then the size
/// that it would have had.
pub open spec fn body(chunks: Seq<Seq<u8>>, limit: nat) -> Result<Seq<u8>, nat>
    decreases chunks.len(),
{
    if chunks.len() == 0 {
        Ok(Seq::empty())
    } else {
        match body(chunks.drop_last(), limit) {
            Ok(buf) => joined(buf, chunks.last(), limit),
            Err(seen) => Err(seen),
        }
    }
}

/// A body is read whole if it is within the limit, whatever the chunks it comes in, and
/// is never held beyond the limit; a larger one is refused.
pub proof fn law_body_is_bounded(chunks: Seq<Seq<u8>>, limit: nat)
    ensures
        chunks.flatten().len() <= limit ==> body(chunks, limit) == Ok::<Seq<u8>, nat>(
            chunks.flatten(),
        ),
        chunks.flatten().len() > limit ==> body(chunks, limit) is Err,
        body(chunks, limit) matches Ok(buf) ==> buf.len() <= limit,
        body(chunks, limit) matches Err(seen) ==> seen > limit,
    decreases chunks.len(),
{
    if chunks.len() == 0 {
        assert(chunks.flatten() =~= Seq::<u8>::empty());
    } else {
        let (rest, last) = (chunks.drop_last(), chunks.last());
        law_body_is_bounded(rest, limit);
        assert(chunks =~= rest.push(last));
        rest.lemma_flatten_push(last);
    }
}

/// A barometric altitude as it stands on the wire: feet, or the string "ground".
#[derive(Debug, Clone)]
pub enum Reading {
    /// A number, as far as it can be held.
    Number(Option<Double>),
    Text(String),
    Other,
}

/// One record of the feed.
#[derive(Debug, Clone)]
pub struct Aircraft {
    pub hex: Option<String>,
    pub flight: Option<String>,
    /// The field `type`: how the report was received.
    pub kind: Option<String>,
    /// The field `t`: the aircraft type.
    pub t: Option<String>,
    pub lat: Option<Double>,
    pub lon: Option<Double>,
    pub alt_baro: Option<Reading>,
    pub alt_geom: Option<Double>,
    pub gs: Option<Double>,
    pub track: Option<Double>,
    pub baro_rate: Option<Double>,
    pub geom_rate: Option<Double>,
    pub squawk: Option<String>,
    pub emergency: Option<String>,
    pub seen_pos: Option<Double>,
}

/// The angle of a field in radians, or none.
pub open spec fn angle_of(deg: Option<Double>) -> Double {
    match deg {
        Some(v) => geo::radians(v),
        None => Double { bits: ZERO },
    }
}

fn to_angle(deg: Option<Double>) -> (r: Double)
    ensures
        r == angle_of(deg),
{
    match deg {
        Some(v) => to_radians(v),
        None => Double { bits: ZERO },
    }
}

impl Aircraft {
    /// The latitude, the longitude and the track in radians: the angles to take sines and
    /// cosines of. A field that is absent counts as zero; no contact comes of it, or the
    /// track is not read.
    pub fn angles(&self) -> (r: (Double, Double, Double))
        ensures
            r == (angle_of(self.lat), angle_of(self.lon), angle_of(self.track)),
    {
        (to_angle(self.lat), to_angle(self.lon), to_angle(self.track))
    }
}

/// The age that a report is credited with.
pub open spec fn credited_age(raw: Option<Double>) -> Double {
    match raw {
        Some(v) if v.finite() => v.held(
            Double { bits: ZERO },
            Double { bits: MAX_REPORTED_AGE_S },
        ),
        _ => Double { bits: ZERO },
    }
}

/// The reported age of a position, reduced to something the tracker can do arithmetic
/// with. Every time step in the estimator is derived from this number, so a NaN here
/// would silently poison a filter rather than fail loudly.
///
/// Absent, non-finite, or negative ages are treated as fresh — the innovation gate is
/// the thing that catches a lying sensor, and it can only do that if the arithmetic in
/// front of it stays finite.
pub fn sanitise_age(raw: Option<Double>) -> (r: Double)
    ensures
        r == credited_age(raw),
{
    match raw {
        Some(v) => if v.is_finite() {
            v.clamp(Double { bits: ZERO }, Double { bits: MAX_REPORTED_AGE_S })
        } else {
            Double { bits: ZERO }
        },
        None => Double { bits: ZERO },
    }
}

/// An age that a report is credited with is a number from nought to the ceiling.
pub proof fn law_age_is_usable(raw: Option<Double>)
    ensures
        credited_age(raw).finite(),
        (Double { bits: ZERO }).at_most(credited_age(raw)),
        credited_age(raw).at_most(Double { bits: MAX_REPORTED_AGE_S }),
{
}

/// Feet to metres.
pub open spec fn metres(feet: Double) -> Double {
    feet.times(Double { bits: FT_TO_M })
}

/// The altitude in metres, and whether the aircraft is on the ground.
pub open spec fn height(a: Aircraft) -> Option<(Double, bool)> {
    match a.alt_baro {
        Some(Reading::Number(Some(ft))) => Some((metres(ft), false)),
        Some(Reading::Number(None)) => None,
        Some(Reading::Text(s)) if text::lowered(s@) == text::lowered("ground"@) => Some(
            (Double { bits: ZERO }, true),
        ),
        _ => match a.alt_geom {
            Some(ft) => Some((metres(ft), false)),
            None => None,
        },
    }
}

/// Barometric altitude preferred, geometric as fallback, "ground" as the surface.
pub fn altitude(a: &Aircraft) -> (r: Option<(Double, bool)>)
    ensures
        r == height(*a),
{
    match &a.alt_baro {
        Some(Reading::Number(n)) => {
            return match n {
                Some(ft) => Some((*ft * Double { bits: FT_TO_M }, false)),
                None => None,
            };
        },
        Some(Reading::Text(s)) => {
            let lowered = text::to_ascii_lowercase(s.as_str());
            if text::same(lowered.as_str(), text::to_ascii_lowercase("ground").as_str()) {
                return Some((Double { bits: ZERO }, true));
            }
        },
        _ => {},
    }
    match a.alt_geom {
        Some(ft) => Some((ft * Double { bits: FT_TO_M }, false)),
        None => None,
    }
}

/// The address of a record: without white space, in small letters.
pub open spec fn address(a: Aircraft) -> Seq<char> {
    match a.hex {
        Some(hex) => text::lowered(text::trimmed(hex@)),
        None => Seq::empty(),
    }
}

/// A coordinate is a number and within its range.
pub open spec fn in_range(v: Double, limit: Double) -> bool {
    v.finite() && !limit.below(v.absolute())
}

/// The record has an identity, a position and an altitude, all of them numbers where they
/// should be.
pub open spec fn is_contact(a: Aircraft) -> bool {
    &&& address(a).len() > 0
    &&& a.lat matches Some(lat) && in_range(lat, Double { bits: MAX_LAT_DEG })
    &&& a.lon matches Some(lon) && in_range(lon, Double { bits: MAX_LON_DEG })
    &&& height(a) matches Some(h) && h.0.finite()
}

/// The call sign, or the address where there is none.
pub open spec fn call_sign(a: Aircraft) -> Seq<char> {
    match a.flight {
        Some(flight) if text::trimmed(flight@).len() > 0 => text::trimmed(flight@),
        _ => address(a),
    }
}

pub open spec fn or_empty(s: Option<String>) -> Seq<char> {
    match s {
        Some(s) => s@,
        None => Seq::empty(),
    }
}

/// 7500 hijack, 7600 radio failure, 7700 general emergency; or any emergency declared.
pub open spec fn in_emergency(a: Aircraft) -> bool {
    ||| a.emergency matches Some(e) && e@.len() > 0 && e@ != "none"@
    ||| a.squawk matches Some(s) && (s@ == "7500"@ || s@ == "7600"@ || s@ == "7700"@)
}

/// The value, if it is a number.
pub open spec fn if_finite(v: Option<Double>) -> Option<Double> {
    match v {
        Some(x) if x.finite() => v,
        _ => None,
    }
}

/// The value, if it is a number and not negative.
pub open spec fn if_speed(v: Option<Double>) -> Option<Double> {
    match v {
        Some(x) if x.finite() && (Double { bits: ZERO }).at_most(x) => v,
        _ => None,
    }
}

/// `c` is the contact that the record `a` describes.
pub open spec fn describes(a: Aircraft, trig: Trig, c: Contact) -> bool {
    &&& c.id@ == address(a)
    &&& c.label@ == call_sign(a)
    &&& c.kind@ == (if a.t is Some {
        or_empty(a.t)
    } else {
        or_empty(a.kind)
    })
    &&& c.squawk@ == or_empty(a.squawk)
    &&& c.emergency == in_emergency(a)
    &&& height(a) == Some((c.geo.alt_m, c.on_ground))
    &&& a.lat == Some(c.geo.lat_deg)
    &&& a.lon == Some(c.geo.lon_deg)
    &&& c.gs_kt == if_speed(a.gs)
    &&& c.track_deg == if_finite(a.track)
    &&& c.vrate_fpm == if_finite(
        if a.baro_rate is Some {
            a.baro_rate
        } else {
            a.geom_rate
        },
    )
    &&& c.age_s == credited_age(a.seen_pos)
    &&& c.source@ == "ADS-B"@
    &&& c.trig == trig
}

fn text_or_empty(s: &Option<String>) -> (r: String)
    ensures
        r@ == or_empty(*s),
{
    match s {
        Some(s) => s.clone(),
        None => String::new(),
    }
}

fn finite_only(v: Option<Double>) -> (r: Option<Double>)
    ensures
        r == if_finite(v),
{
    match v {
        Some(x) => if x.is_finite() {
            v
        } else {
            None
        },
        None => None,
    }
}

fn speed_only(v: Option<Double>) -> (r: Option<Double>)
    ensures
        r == if_speed(v),
{
    match v {
        Some(x) => if x.is_finite() && x >= (Double { bits: ZERO }) {
            v
        } else {
            None
        },
        None => None,
    }
}

fn within(v: Double, limit: Double) -> (r: bool)
    ensures
        r == in_range(v, limit),
{
    v.is_finite() && !(v.abs() > limit)
}

fn declares_emergency(a: &Aircraft) -> (r: bool)
    ensures
        r == in_emergency(*a),
{
    let declared: bool = match &a.emergency {
        Some(e) => !e.as_str().is_empty() && !text::same(e.as_str(), "none"),
        None => false,
    };
    let squawked: bool = match &a.squawk {
        Some(s) => text::same(s.as_str(), "7500") || text::same(s.as_str(), "7600") || text::same(
            s.as_str(),
            "7700",
        ),
        None => false,
    };
    declared || squawked
}

/// Turn one wire record into a contact, or discard it. A record without an identity or
/// a position is not a degraded contact, it is not a contact.
pub fn decode(a: &Aircraft, trig: Trig) -> (r: Option<Contact>)
    ensures
        r is Some <==> is_contact(*a),
        r matches Some(c) ==> describes(*a, trig, c),
{
    let id = match &a.hex {
        Some(hex) => text::to_ascii_lowercase(text::trim(hex.as_str()).as_str()),
        None => return None,
    };
    if id.as_str().is_empty() {
        return None;
    }
    let (lat, lon) = match (a.lat, a.lon) {
        (Some(lat), Some(lon)) => (lat, lon),
        _ => return None,
    };
    if !within(lat, Double { bits: MAX_LAT_DEG }) || !within(lon, Double { bits: MAX_LON_DEG }) {
        return None;
    }
    let (alt_m, on_ground) = match altitude(a) {
        Some(h) => h,
        None => return None,
    };
    if !alt_m.is_finite() {
        return None;
    }
    let label = match &a.flight {
        Some(flight) => {
            let name = text::trim(flight.as_str());
            if name.as_str().is_empty() {
                id.clone()
            } else {
                name
            }
        },
        None => id.clone(),
    };
    let kind = match &a.t {
        Some(t) => t.clone(),
        None => text_or_empty(&a.kind),
    };
    let rate = match a.baro_rate {
        Some(v) => Some(v),
        None => a.geom_rate,
    };
    Some(
        Contact {
            id,
            label,
            kind,
            squawk: text_or_empty(&a.squawk),
            emergency: declares_emergency(a),
            on_ground,
            geo: Geodetic { lat_deg: lat, lon_deg: lon, alt_m },
            gs_kt: speed_only(a.gs),
            track_deg: finite_only(a.track),
            vrate_fpm: finite_only(rate),
            age_s: sanitise_age(a.seen_pos),
            source: "ADS-B",
            trig,
        },
    )
}

/// A contact has an identity and a position, and none of its numbers can poison a filter.
pub proof fn law_contacts_are_sound(a: Aircraft, trig: Trig, c: Contact)
    requires
        is_contact(a),
        describes(a, trig, c),
    ensures
        c.id@.len() > 0,
        c.label@.len() > 0,
        in_range(c.geo.lat_deg, Double { bits: MAX_LAT_DEG }),
        in_range(c.geo.lon_deg, Double { bits: MAX_LON_DEG }),
        c.geo.alt_m.finite(),
        c.age_s.finite(),
        (Double { bits: ZERO }).at_most(c.age_s),
        c.age_s.at_most(Double { bits: MAX_REPORTED_AGE_S }),
        c.gs_kt matches Some(v) ==> v.finite() && (Double { bits: ZERO }).at_most(v),
        c.track_deg matches Some(v) ==> v.finite(),
        c.vrate_fpm matches Some(v) ==> v.finite(),
        c.on_ground ==> c.geo.alt_m == (Double { bits: ZERO }),
{
    law_age_is_usable(a.seen_pos);
}

/// The records that are contacts, in the order of the feed.
pub open spec fn contact_records(records: Seq<(Aircraft, Trig)>) -> Seq<(Aircraft, Trig)> {
    records.filter(|r: (Aircraft, Trig)| is_contact(r.0))
}

/// The contacts among the records of one response.
pub fn decode_all(records: &Vec<(Aircraft, Trig)>) -> (r: Vec<Contact>)
    ensures
        r@.len() == contact_records(records@).len(),
        forall|i: int|
            0 <= i < r@.len() ==> describes(
                contact_records(records@)[i].0,
                contact_records(records@)[i].1,
                #[trigger] r@[i],
            ),
{
    let mut out: Vec<Contact> = Vec::new();
    for i in 0..records.len()
        invariant
            out@.len() == contact_records(records@.take(i as int)).len(),
            forall|j: int|
                0 <= j < out@.len() ==> describes(
                    contact_records(records@.take(i as int))[j].0,
                    contact_records(records@.take(i as int))[j].1,
                    #[trigger] out@[j],
                ),
    {
        proof {
            reveal(Seq::filter);
            assert(records@.take(i + 1).drop_last() =~= records@.take(i as int));
        }
        let (a, trig) = &records[i];
        match decode(a, *trig) {
            Some(c) => {
                out.push(c);
            },
            None => {},
        }
    }
    assert(records@.take(records@.len() as int) =~= records@);
    out
}

/// A response body while it is read. It never holds more than its limit.
#[derive(Debug)]
pub struct Body {
    buf: Vec<u8>,
    limit: usize,
}

impl View for Body {
    type V = Seq<u8>;

    closed spec fn view(&self) -> Seq<u8> {
        self.buf@
    }
}

impl Body {
    #[verifier::type_invariant]
    spec fn bounded(self) -> bool {
        self.buf@.len() <= self.limit
    }

    pub closed spec fn ceiling(self) -> usize {
        self.limit
    }

    /// Start on a body of which this length was declared.
    pub fn open(declared: Option<u64>, limit: usize) -> (r: Result<Body, IngestError>)
        ensures
            match declaration(declared, limit) {
                Some(e) => r == Err::<Body, IngestError>(e),
                None => r matches Ok(b) && b@.len() == 0 && b.ceiling() == limit,
            },
    {
        match check_declared_length(declared, limit) {
            Err(e) => Err(e),
            Ok(()) => {
                let room: usize = if BODY_PREALLOC < limit {
                    BODY_PREALLOC
                } else {
                    limit
                };
                Ok(Body { buf: Vec::with_capacity(room), limit })
            },
        }
    }

    /// Take in the next chunk, or refuse it and keep what was read.
    pub fn feed(&mut self, chunk: &[u8]) -> (r: Result<(), IngestError>)
        ensures
            final(self).ceiling() == old(self).ceiling(),
            match joined(old(self)@, chunk@, old(self).ceiling() as nat) {
                Ok(all) => r is Ok && final(self)@ == all,
                Err(seen) => {
                    &&& r == Err::<(), IngestError>(
                        IngestError::Oversized {
                            limit: old(self).ceiling(),
                            seen: saturated(seen),
                        },
                    )
                    &&& final(self)@ == old(self)@
                },
            },
    {
        proof {
            use_type_invariant(&*self);
        }
        let mut buf: Vec<u8> = Vec::new();
        std::mem::swap(&mut buf, &mut self.buf);
        let r = accumulate(&mut buf, chunk, self.limit);
        self.buf = buf;
        r
    }

    /// The body, of no more bytes than the limit.
    pub fn into_bytes(self) -> (r: Vec<u8>)
        ensures
            r@ == self@,
            r@.len() <= self.ceiling(),
    {
        proof {
            use_type_invariant(&self);
        }
        self.buf
    }
}

/// The sensor's own state: where it polls, how often, and how that has gone.
#[derive(Debug)]
pub struct AdsbSensor {
    pub endpoint: String,
    pub period: Duration,
    /// Hard ceiling on one response body, in bytes.
    pub max_body: usize,
    /// Owned by the sensor task alone. It leaves only by being copied onto an outgoing
    /// batch.
    pub health: SensorHealth,
}

impl AdsbSensor {
    pub fn new(endpoint: String, period: Duration, max_body: usize) -> (r: AdsbSensor)
        ensures
            r.endpoint == endpoint,
            r.period == period,
            r.max_body == max_body,
            r.health == (SensorHealth {
                polls: 0,
                http_errors: 0,
                oversized_responses: 0,
                decode_errors: 0,
            }),
    {
        AdsbSensor { endpoint, period, max_body, health: SensorHealth::default() }
    }

    /// One more poll is attempted.
    pub fn begin_poll(&mut self)
        requires
            old(self).health.polls < u64::MAX,
        ensures
            *final(self) == (AdsbSensor { health: old(self).health.attempted(), ..*old(self) }),
            old(self).health.failed() <= old(self).health.polls ==> final(self).health.failed()
                < final(self).health.polls,
    {
        self.health.polls = self.health.polls + 1;
    }

    /// The batch that a poll makes, at `now`. Either outcome produces one. A failed poll
    /// sends no contacts, which is not the same statement as "the sky is empty" — the
    /// health snapshot riding alongside is what tells the two apart.
    pub fn finish_poll(
        &mut self,
        outcome: Result<(Instant, Vec<Contact>), IngestError>,
        now: Instant,
    ) -> (r: Batch)
        requires
            outcome matches Err(e) ==> old(self).health.can_count(e),
        ensures
            match outcome {
                Ok((received, contacts)) => {
                    &&& *final(self) == *old(self)
                    &&& r == (Batch { received, contacts, health: old(self).health })
                },
                Err(e) => {
                    let health = old(self).health.counted(e);
                    &&& *final(self) == (AdsbSensor { health, ..*old(self) })
                    &&& r.received == now
                    &&& r.contacts@.len() == 0
                    &&& r.health == health
                },
            },
            old(self).health.failed() < old(self).health.polls ==> final(self).health.failed()
                <= final(self).health.polls,
    {
        match outcome {
            Ok((received, contacts)) => Batch { received, contacts, health: self.health },
            Err(e) => {
                self.health.record(&e);
                Batch { received: now, contacts: Vec::new(), health: self.health }
            },
        }
    }
}

} // verus!
