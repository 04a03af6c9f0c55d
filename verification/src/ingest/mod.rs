//! Sensor adapters.
//!
//! Every adapter converts whatever wire format it speaks into `Contact` and hands over
//! batches. Nothing downstream knows whether a contact arrived from an ADS-B feed, a
//! radar extractor or a TLE catalogue, so adding a sensor is adding one file here.
use crate::clock::Instant;
use crate::double::Double;
use crate::geo::{Geodetic, SinCos};
use crate::text;
use vstd::prelude::*;

pub mod adsb;

verus! {

/// One poll's worth of contacts, carrying the instant the data actually landed.
///
/// The arrival instant belongs to the batch rather than to each contact because it is a
/// property of the transfer, not of the observation. Each contact then says how old it
/// already was at that moment (`age_s`), and the tracker works entirely in differences
/// of the two — see `Track::filter_age_at`.
///
/// A failed poll still produces a batch, with no contacts and an updated `health`. An
/// empty batch is not an observation of an empty sky — `health` is what distinguishes
/// the two.
#[derive(Debug)]
pub struct Batch {
    pub received: Instant,
    pub contacts: Vec<Contact>,
    pub health: SensorHealth,
}

/// Cumulative outcome counters for one sensor adapter.
///
/// Owned by the sensor task and copied onto every batch it emits.
#[derive(Debug, Clone, Copy, PartialEq, Eq, Structural)]
pub struct SensorHealth {
    /// Polls attempted.
    pub polls: u64,
    /// Transport failures and non-success statuses.
    pub http_errors: u64,
    /// Responses refused for exceeding the configured body limit.
    pub oversized_responses: u64,
    /// Bodies that arrived within the limit but were not the JSON we expect.
    pub decode_errors: u64,
}

/// Why one poll produced nothing usable.
///
/// Typed rather than a string so the sensor can count the kinds separately: a feed that
/// is unreachable, a feed that is flooding us, and a feed that has changed its schema
/// are three different problems with three different responses.
#[derive(Debug, Clone, PartialEq, Eq)]
pub enum IngestError {
    /// Transport failure, or a non-success status from the feed.
    Http(String),
    /// The response exceeded the configured body limit and was abandoned.
    Oversized { limit: usize, seen: usize },
    /// The body arrived intact but did not parse.
    Decode(String),
}

impl Default for SensorHealth {
    fn default() -> (r: SensorHealth)
        ensures
            r == (SensorHealth {
                polls: 0,
                http_errors: 0,
                oversized_responses: 0,
                decode_errors: 0,
            }),
    {
        SensorHealth { polls: 0, http_errors: 0, oversized_responses: 0, decode_errors: 0 }
    }
}

impl SensorHealth {
    /// Total failed polls.
    pub open spec fn failed(self) -> nat {
        (self.http_errors + self.oversized_responses + self.decode_errors) as nat
    }

    /// The counters with one more failure of the kind of `err`.
    pub open spec fn counted(self, err: IngestError) -> SensorHealth {
        match err {
            IngestError::Http(_) => SensorHealth {
                http_errors: (self.http_errors + 1) as u64,
                ..self
            },
            IngestError::Oversized { .. } => SensorHealth {
                oversized_responses: (self.oversized_responses + 1) as u64,
                ..self
            },
            IngestError::Decode(_) => SensorHealth {
                decode_errors: (self.decode_errors + 1) as u64,
                ..self
            },
        }
    }

    /// The counters with one more poll attempted.
    pub open spec fn attempted(self) -> SensorHealth {
        SensorHealth { polls: (self.polls + 1) as u64, ..self }
    }

    /// The counters after one whole poll, and what went wrong with it if anything did.
    pub open spec fn polled(self, failure: Option<IngestError>) -> SensorHealth {
        match failure {
            Some(err) => self.attempted().counted(err),
            None => self.attempted(),
        }
    }

    /// Total failed polls.
    pub fn faults(&self) -> (r: u64)
        requires
            self.failed() <= u64::MAX,
        ensures
            r == self.failed(),
    {
        self.http_errors + self.oversized_responses + self.decode_errors
    }

    /// The counter of this kind of failure has not run out.
    pub open spec fn can_count(self, err: IngestError) -> bool {
        match err {
            IngestError::Http(_) => self.http_errors < u64::MAX,
            IngestError::Oversized { .. } => self.oversized_responses < u64::MAX,
            IngestError::Decode(_) => self.decode_errors < u64::MAX,
        }
    }

    pub fn record(&mut self, err: &IngestError)
        requires
            old(self).can_count(*err),
        ensures
            *final(self) == old(self).counted(*err),
    {
        match err {
            IngestError::Http(_) => {
                self.http_errors = self.http_errors + 1;
            },
            IngestError::Oversized { .. } => {
                self.oversized_responses = self.oversized_responses + 1;
            },
            IngestError::Decode(_) => {
                self.decode_errors = self.decode_errors + 1;
            },
        }
    }
}

/// Every failure is counted once, whatever its kind, and never as a poll.
pub proof fn law_one_failure_one_fault(health: SensorHealth, err: IngestError)
    requires
        health.can_count(err),
    ensures
        health.counted(err).failed() == health.failed() + 1,
        health.counted(err).polls == health.polls,
{
}

/// The counters after a run of polls.
pub open spec fn after_polls(health: SensorHealth, failures: Seq<Option<IngestError>>) -> SensorHealth
    decreases failures.len(),
{
    if failures.len() == 0 {
        health
    } else {
        after_polls(health, failures.drop_last()).polled(failures.last())
    }
}

/// How many polls of a run failed.
pub open spec fn failed_polls(failures: Seq<Option<IngestError>>) -> nat {
    failures.filter(|f: Option<IngestError>| f is Some).len()
}

/// A sensor that has not failed more often than it polled has not after another poll,
/// whatever becomes of that; and no counter of failures runs out before that of the polls.
pub proof fn law_faults_are_failed_polls(health: SensorHealth, failure: Option<IngestError>)
    requires
        health.failed() <= health.polls < u64::MAX,
    ensures
        ({
            let after = health.polled(failure);
            &&& after.polls == health.polls + 1
            &&& after.failed() == health.failed() + if failure is Some {
                1int
            } else {
                0
            }
            &&& after.failed() <= after.polls
        }),
        failure matches Some(err) ==> health.attempted().can_count(err),
{
}

/// Over a run of polls of a new sensor, every poll is counted and every fault is a failed
/// poll, so that there are never more faults than polls.
pub proof fn law_every_poll_is_counted(failures: Seq<Option<IngestError>>)
    requires
        failures.len() <= u64::MAX,
    ensures
        ({
            let new = SensorHealth {
                polls: 0,
                http_errors: 0,
                oversized_responses: 0,
                decode_errors: 0,
            };
            let after = after_polls(new, failures);
            &&& after.polls == failures.len()
            &&& after.failed() == failed_polls(failures)
            &&& after.failed() <= after.polls
        }),
    decreases failures.len(),
{
    reveal(Seq::filter);
    if failures.len() > 0 {
        let new = SensorHealth {
            polls: 0,
            http_errors: 0,
            oversized_responses: 0,
            decode_errors: 0,
        };
        let rest = failures.drop_last();
        law_every_poll_is_counted(rest);
        law_faults_are_failed_polls(after_polls(new, rest), failures.last());
    }
}

impl IngestError {
    pub open spec fn text(self) -> Seq<char> {
        match self {
            IngestError::Http(e) => "http: "@ + e@,
            IngestError::Oversized { limit, seen } => "response body exceeded "@ + text::decimal(
                limit as nat,
            ) + " bytes (reached "@ + text::decimal(seen as nat) + ")"@,
            IngestError::Decode(e) => "decode: "@ + e@,
        }
    }

    /// What happened, in words.
    pub fn message(&self) -> (r: String)
        ensures
            r@ == self.text(),
    {
        let mut out = String::new();
        match self {
            IngestError::Http(e) => {
                out.append("http: ");
                out.append(e.as_str());
            },
            IngestError::Oversized { limit, seen } => {
                out.append("response body exceeded ");
                out.append(text::number(*limit as u128).as_str());
                out.append(" bytes (reached ");
                out.append(text::number(*seen as u128).as_str());
                out.append(")");
            },
            IngestError::Decode(e) => {
                out.append("decode: ");
                out.append(e.as_str());
            },
        }
        assert(out@ =~= self.text());
        out
    }
}

/// The sines and cosines of a contact's angles, as the mathematics library of the
/// platform gave them. `track` is read only where the contact reports a track.
#[derive(Clone, Copy, Debug)]
pub struct Trig {
    pub lat: SinCos,
    pub lon: SinCos,
    pub track: SinCos,
}

/// One plot from one sensor at one instant, before association.
#[derive(Clone, Debug)]
pub struct Contact {
    /// Sensor-scoped identity used for association. ICAO 24-bit address for ADS-B.
    pub id: String,
    pub label: String,
    pub kind: String,
    pub squawk: String,
    pub emergency: bool,
    pub on_ground: bool,
    pub geo: Geodetic,
    /// Reported ground speed, knots. Reported, not estimated: the filter owns velocity.
    pub gs_kt: Option<Double>,
    pub track_deg: Option<Double>,
    pub vrate_fpm: Option<Double>,
    /// How many seconds old this position already was when the batch arrived, as
    /// reported by the sensor itself. Not a derived quantity and not an arrival time:
    /// keeping it relative is what lets the tracker avoid reconstructing an absolute
    /// observation instant.
    pub age_s: Double,
    pub source: &'static str,
    pub trig: Trig,
}

} // verus!
