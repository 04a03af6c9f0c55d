//! The tracker task, one cycle at a time.
//!
//! The process around it drains the channel, reads the clock and owns the screen. What a
//! cycle makes of a batch, and in which order it ages, screens and records, is here.
use crate::clock;
use crate::clock::{Duration, Instant, SPAN_LIMIT};
use crate::config::Config;
use crate::conjunction;
use crate::conjunction::{screen, Conjunction, Minima};
use crate::geo::{Frame, Geodetic, SinCos};
use crate::ingest::{Batch, SensorHealth};
use crate::laws::screening;
use crate::laws::tracks;
use crate::order;
use crate::render;
use crate::render::{to_millis, Cycles};
use crate::text;
use crate::text::number;
use crate::track;
use crate::track::TrackStore;
use vstd::prelude::*;

verus! {

/// Everything that the tracker task owns.
#[derive(Debug)]
pub struct Engine {
    pub store: TrackStore,
    pub cycles: Cycles,
    /// As the newest batch reported it.
    pub health: SensorHealth,
    pub frame: Frame,
    pub timeout: Duration,
    pub minima: Minima,
}

/// What one cycle has drained from the sensor.
#[derive(Debug, Clone, Copy, PartialEq, Eq, Structural)]
pub struct Drained {
    pub plots: usize,
    pub polls: usize,
}

impl Default for Drained {
    fn default() -> (r: Drained)
        ensures
            r == (Drained { plots: 0, polls: 0 }),
    {
        Drained { plots: 0, polls: 0 }
    }
}

impl Engine {
    /// No two tracks have the same identity, and no cycle took longer than the worst.
    pub open spec fn valid(self) -> bool {
        self.store.valid() && self.cycles.valid()
    }

    /// An engine with no tracks at the configured site, given the sines and cosines of
    /// the latitude and longitude.
    pub fn new(cfg: &Config, lat: SinCos, lon: SinCos) -> (e: Engine)
        ensures
            e.valid(),
            e.store.tracks@.len() == 0,
            e.store.tuning == (track::Tuning {
                q: cfg.process_noise,
                r: cfg.meas_var,
                gate_sigma: cfg.gate_sigma,
            }),
            e.store.total_initiated == 0,
            e.store.total_dropped == 0,
            e.store.total_gated == 0,
            e.store.total_superseded == 0,
            e.cycles.started@ == 0,
            e.cycles.count == 0,
            e.cycles.contacts_in == 0,
            e.cycles.polls_seen == 0,
            e.cycles.last@ == 0,
            e.cycles.worst@ == 0,
            e.cycles.total@ == 0,
            e.health == (SensorHealth {
                polls: 0,
                http_errors: 0,
                oversized_responses: 0,
                decode_errors: 0,
            }),
            ({
                let site = Geodetic {
                    lat_deg: cfg.site_lat,
                    lon_deg: cfg.site_lon,
                    alt_m: cfg.site_alt_m,
                };
                &&& e.frame.site == site
                &&& e.frame.lat == lat
                &&& e.frame.lon == lon
                &&& e.frame.origin == crate::geo::Ecef::of(site.alt_m, lat, lon)
            }),
            e.timeout@ == cfg.track_timeout_s as nat * clock::NANOS_PER_SEC as nat,
            e.minima == (Minima {
                horizon_s: cfg.horizon_s,
                min_horiz_m: cfg.min_horiz_m,
                min_vert_m: cfg.min_vert_m,
            }),
    {
        let site = Geodetic {
            lat_deg: cfg.site_lat,
            lon_deg: cfg.site_lon,
            alt_m: cfg.site_alt_m,
        };
        Engine {
            store: TrackStore::new(cfg.process_noise, cfg.meas_var, cfg.gate_sigma),
            cycles: Cycles::default(),
            health: SensorHealth::default(),
            frame: Frame::new(site, lat, lon),
            timeout: Duration::from_secs(cfg.track_timeout_s),
            minima: Minima {
                horizon_s: cfg.horizon_s,
                min_horiz_m: cfg.min_horiz_m,
                min_vert_m: cfg.min_vert_m,
            },
        }
    }

    /// Fold in one batch. Latest snapshot wins: the health counters are cumulative, so
    /// the newest batch already contains everything the earlier ones reported. The batch
    /// carries its own arrival instant; the cycle clock is not a measurement timestamp.
    pub fn absorb(&mut self, batch: &Batch, seen: &mut Drained)
        requires
            old(self).valid(),
            old(self).store.has_room(batch.contacts@.len()),
            old(seen).plots + batch.contacts@.len() <= usize::MAX,
            old(seen).polls < usize::MAX,
        ensures
            final(self).valid(),
            final(self).store.tracks@ == track::folded(
                old(self).store.tracks@,
                batch.contacts@,
                old(self).store.tuning,
                old(self).frame,
                batch.received,
            ),
            final(self).health == batch.health,
            final(self).cycles == old(self).cycles,
            final(self).frame == old(self).frame,
            final(self).timeout == old(self).timeout,
            final(self).minima == old(self).minima,
            final(self).store.tuning == old(self).store.tuning,
            final(self).store.total_dropped == old(self).store.total_dropped,
            ({
                let count = |what: track::Outcome|
                    track::tally(
                        old(self).store.tracks@,
                        batch.contacts@,
                        old(self).store.tuning,
                        old(self).frame,
                        batch.received,
                        what,
                    );
                let (was, is) = (old(self).store, final(self).store);
                &&& is.total_initiated == was.total_initiated + count(track::Outcome::Initiated)
                &&& is.total_gated == was.total_gated + count(track::Outcome::Gated)
                &&& is.total_superseded == was.total_superseded + count(
                    track::Outcome::Superseded,
                )
            }),
            final(seen).plots == old(seen).plots + batch.contacts@.len(),
            final(seen).polls == old(seen).polls + 1,
    {
        seen.plots = seen.plots + batch.contacts.len();
        seen.polls = seen.polls + 1;
        self.health = batch.health;
        let frame = self.frame;
        let _ = self.store.ingest(batch.contacts.as_slice(), &frame, batch.received);
    }

    /// Drop the tracks whose evidence has gone stale by `now`. Returns how many went.
    pub fn age(&mut self, now: Instant) -> (r: usize)
        requires
            old(self).valid(),
            old(self).store.total_dropped + old(self).store.tracks@.len() <= u64::MAX,
        ensures
            final(self).valid(),
            final(self).store.tracks@ == old(self).store.tracks@.filter(
                track::fresh(now@, clock::seconds(old(self).timeout@ as int)),
            ),
            tracks::aged_out(
                old(self).store.tracks@,
                now@,
                old(self).timeout@,
                final(self).store.tracks@,
            ),
            r == old(self).store.tracks@.len() - final(self).store.tracks@.len(),
            final(self).store.total_dropped == old(self).store.total_dropped + r,
            final(self).store.tuning == old(self).store.tuning,
            final(self).store.total_initiated == old(self).store.total_initiated,
            final(self).store.total_gated == old(self).store.total_gated,
            final(self).store.total_superseded == old(self).store.total_superseded,
            final(self).health == old(self).health,
            final(self).cycles == old(self).cycles,
            final(self).frame == old(self).frame,
            final(self).timeout == old(self).timeout,
            final(self).minima == old(self).minima,
    {
        let timeout = self.timeout;
        self.store.prune(now, timeout)
    }

    /// The conjunctions at `now`, ordered by severity.
    pub fn screen(&self, now: Instant) -> (r: Vec<Conjunction>)
        ensures
            ({
                let firm = self.store.tracks@.filter(conjunction::is_firm());
                order::sorted(
                    r@,
                    conjunction::conjunctions(firm, firm.len(), now@, self.minima),
                    conjunction::by_severity(),
                )
            }),
            screening::complete(self.store.tracks@, now@, self.minima, r@),
            screening::sound(self.store.tracks@, now@, self.minima, r@),
            screening::soonest_first(r@),
    {
        let m = self.minima;
        screen(&self.store, now, m.horizon_s, m.min_horiz_m, m.min_vert_m)
    }

    /// Record a cycle that took `elapsed`.
    pub fn close(&mut self, elapsed: Duration, seen: Drained)
        requires
            old(self).valid(),
            old(self).cycles.count < u64::MAX,
            old(self).cycles.total@ + elapsed@ < SPAN_LIMIT,
            old(self).cycles.contacts_in + seen.plots <= u64::MAX,
            old(self).cycles.polls_seen + seen.polls <= u64::MAX,
        ensures
            final(self).valid(),
            final(self).cycles.started == old(self).cycles.started,
            final(self).cycles.count == old(self).cycles.count + 1,
            final(self).cycles.last == elapsed,
            final(self).cycles.worst@ == (if old(self).cycles.worst@ < elapsed@ {
                elapsed@
            } else {
                old(self).cycles.worst@
            }),
            final(self).cycles.total@ == old(self).cycles.total@ + elapsed@,
            final(self).cycles.contacts_in == old(self).cycles.contacts_in + seen.plots,
            final(self).cycles.polls_seen == old(self).cycles.polls_seen + seen.polls,
            final(self).store == old(self).store,
            final(self).health == old(self).health,
            final(self).frame == old(self).frame,
            final(self).timeout == old(self).timeout,
            final(self).minima == old(self).minima,
    {
        self.cycles.record(elapsed, seen.plots, seen.polls);
    }

    /// The session in two lines.
    pub open spec fn summary_text(self) -> Seq<char> {
        let (store, cycles, health) = (self.store, self.cycles, self.health);
        "\naether: "@ + text::decimal(cycles.count as nat) + " cycles, "@ + text::decimal(
            cycles.contacts_in as nat,
        ) + " plots, "@ + text::decimal(store.total_initiated as nat) + " tracks initiated, "@
            + text::decimal(store.total_dropped as nat) + " dropped, "@ + text::decimal(
            store.total_gated as nat,
        ) + " gated, "@ + text::decimal(store.total_superseded as nat)
            + " superseded, worst cycle "@ + render::millis(cycles.worst@).fixed(2)
            + " ms\naether: sensor "@ + text::decimal(health.polls as nat) + " polls, "@
            + text::decimal(health.http_errors as nat) + " http errors, "@ + text::decimal(
            health.oversized_responses as nat,
        ) + " oversized, "@ + text::decimal(health.decode_errors as nat) + " decode errors\n"@
    }

    /// The session in two lines.
    pub fn summary(&self) -> (s: String)
        ensures
            s@ == self.summary_text(),
    {
        let mut s = "\naether: ".to_string();
        s.append(number(self.cycles.count as u128).as_str());
        s.append(" cycles, ");
        s.append(number(self.cycles.contacts_in as u128).as_str());
        s.append(" plots, ");
        s.append(number(self.store.total_initiated as u128).as_str());
        s.append(" tracks initiated, ");
        s.append(number(self.store.total_dropped as u128).as_str());
        s.append(" dropped, ");
        s.append(number(self.store.total_gated as u128).as_str());
        s.append(" gated, ");
        s.append(number(self.store.total_superseded as u128).as_str());
        s.append(" superseded, worst cycle ");
        s.append(to_millis(self.cycles.worst).to_fixed(2).as_str());
        s.append(" ms\naether: sensor ");
        s.append(number(self.health.polls as u128).as_str());
        s.append(" polls, ");
        s.append(number(self.health.http_errors as u128).as_str());
        s.append(" http errors, ");
        s.append(number(self.health.oversized_responses as u128).as_str());
        s.append(" oversized, ");
        s.append(number(self.health.decode_errors as u128).as_str());
        s.append(" decode errors\n");
        s
    }
}

} // verus!
