//! The operator picture: what is listed, in which order, and how it is set off.
use crate::clock;
use crate::conjunction::Conjunction;
use crate::double::facts;
use crate::double::rounding;
use crate::double::Double;
use crate::geo;
use crate::geo::Frame;
use crate::ingest::SensorHealth;
use crate::laws::closeness;
use crate::order;
use crate::render;
use crate::render::{Angles, Cycles, MINUTE};
use crate::text;
use crate::track::{Track, TrackStore};
use vstd::arithmetic::power2::*;
use vstd::prelude::*;

verus! {

/// Behind which item another one goes in.
proof fn lemma_position<T>(s: Seq<T>, key: spec_fn(T) -> int, t: T, end: int) -> (at: int)
    requires
        0 <= end <= s.len(),
        end < s.len() ==> key(t) < key(s[end]),
    ensures
        0 <= at <= s.len(),
        at > 0 ==> key(s[at - 1]) <= key(t),
        at < s.len() ==> key(t) < key(s[at]),
    decreases end,
{
    if end > 0 && key(t) < key(s[end - 1]) {
        lemma_position(s, key, t, end - 1)
    } else {
        end
    }
}

/// Every list can be put in order.
proof fn lemma_sortable<T>(all: Seq<T>, key: spec_fn(T) -> int) -> (s: Seq<T>)
    ensures
        order::sorted(s, all, key),
    decreases all.len(),
{
    if all.len() == 0 {
        all
    } else {
        let rest = lemma_sortable(all.drop_last(), key);
        let t = all.last();
        let at = lemma_position(rest, key, t, rest.len() as int);
        order::lemma_insert(rest, all.drop_last(), key, t, at);
        assert(all.drop_last().push(t) =~= all);
        rest.insert(at, t)
    }
}

/// How far a track is from the site at `now`, level with the ground.
pub open spec fn range(t: Track, now: nat) -> Double {
    t.viewed(now).pos.e.distance(t.viewed(now).pos.n)
}

/// The tracks are listed with the nearest first, and each of them once.
pub proof fn law_the_nearest_are_listed_first(tracks: Seq<Track>, now: nat)
    requires
        tracks.len() <= usize::MAX,
    ensures
        ({
            let list = render::nearest_first(tracks, now);
            &&& list.len() == tracks.len()
            &&& forall|k: int| 0 <= k < list.len() ==> (#[trigger] list[k]) < tracks.len()
            &&& forall|i: usize| i < tracks.len() ==> #[trigger] list.contains(i)
            &&& forall|k: int, l: int|
                0 <= k < l < list.len() ==> is_nearer(
                    range(tracks[(#[trigger] list[k]) as int], now),
                    range(tracks[(#[trigger] list[l]) as int], now),
                )
        }),
{
    let all = render::places(tracks.len());
    let key = render::by_range(tracks, now);
    let made = lemma_sortable(all, key);
    let list = render::nearest_first(tracks, now);
    assert(order::sorted(list, all, key));
    assert forall|i: usize| i < tracks.len() implies #[trigger] list.contains(i) by {
        assert(all[i as int] == i);
        order::lemma_same_items(list, all, key, i);
    }
    assert forall|k: int| 0 <= k < list.len() implies (#[trigger] list[k]) < tracks.len() by {
        order::lemma_same_items(list, all, key, list[k]);
        assert(list.contains(list[k]));
        let i = choose|i: int| 0 <= i < all.len() && all[i] == list[k];
    }
    assert forall|k: int, l: int| 0 <= k < l < list.len() implies is_nearer(
        range(tracks[(#[trigger] list[k]) as int], now),
        range(tracks[(#[trigger] list[l]) as int], now),
    ) by {
        assert(key(list[k]) <= key(list[l]));
        let (a, b) = (tracks[list[k] as int], tracks[list[l] as int]);
        lemma_ranges(range(a, now), range(b, now), a, b, now);
    }
}

/// The distance is no larger, or the other is no number.
pub open spec fn is_nearer(a: Double, b: Double) -> bool {
    b.nan() || a.at_most(b)
}

proof fn lemma_ranges(a: Double, b: Double, t: Track, u: Track, now: nat)
    requires
        a == range(t, now),
        b == range(u, now),
        a.rank() <= b.rank(),
    ensures
        is_nearer(a, b),
{
    let (p, q) = (t.viewed(now).pos, u.viewed(now).pos);
    lemma_not_negative(p.e, p.n);
    lemma_not_negative(q.e, q.n);
    facts::lemma_units_order(a.magnitude(), b.magnitude());
}

proof fn lemma_not_negative(x: Double, y: Double)
    ensures
        !x.distance(y).negative(),
{
    let (a, b) = (rounding::units(x.magnitude()), rounding::units(y.magnitude()));
    facts::lemma_root_to_nearest(a * a + b * b);
}

/// So many tracks are listed, each on a line of its own behind those that are nearer.
pub proof fn law_one_line_each(
    tracks: Seq<Track>,
    angles: Seq<Angles>,
    frame: Frame,
    now: nat,
    n: nat,
)
    ensures
        ({
            let list = render::nearest_first(tracks, now);
            let i = list[n as int] as int;
            &&& render::table_text(tracks, angles, list, 0, frame, now).len() == 0
            &&& render::table_text(tracks, angles, list, n + 1, frame, now)
                == render::table_text(tracks, angles, list, n, frame, now) + render::row_text(
                tracks[i],
                angles[i],
                frame,
                now,
            )
        }),
{
}

/// An emergency is set off in red, whatever else; a track with fewer than four reports is
/// dim; and all others are plain.
pub proof fn law_how_tracks_are_set_off(t: Track)
    ensures
        t.emergency ==> render::flag(t) == seq!['\x1b', '[', '3', '1', 'm'],
        !t.emergency && t.updates < 4 ==> render::flag(t) == seq!['\x1b', '[', '2', 'm'],
        !t.emergency && t.updates >= 4 ==> render::flag(t).len() == 0,
{
    reveal_strlit("\x1b[31m");
    reveal_strlit("\x1b[2m");
    reveal_strlit("");
    assert("\x1b[31m"@ =~= seq!['\x1b', '[', '3', '1', 'm']);
    assert("\x1b[2m"@ =~= seq!['\x1b', '[', '2', 'm']);
}

/// A minute is 60 seconds.
pub proof fn law_a_minute()
    ensures
        (Double { bits: MINUTE }).value() == 60 * closeness::whole(),
{
    lemma2_to64();
    lemma2_to64_rest();
    lemma_pow2_adds(47, 1027);
    rounding::lemma_units_at(1027, 0x1e_0000_0000_0000);
    let c = pow2(1027);
    assert(0x1e_0000_0000_0000 * c == 60 * (0x8000_0000_0000 * c));
    let z = Double { bits: MINUTE };
    assert(z.magnitude() == MINUTE && !z.negative());
}

/// A conjunction begins in red if it is less than 60 seconds away, and in yellow if not.
pub proof fn law_how_alerts_are_set_off(c: Conjunction)
    requires
        !c.t_cpa.nan(),
    ensures
        ({
            let s = render::alert_text(c);
            s.len() > 5 && s.take(5) == seq![
                '\x1b',
                '[',
                '3',
                if c.t_cpa.value() < 60 * closeness::whole() {
                    '1'
                } else {
                    '3'
                },
                'm',
            ]
        }),
{
    law_a_minute();
    reveal(render::alert_text);
    reveal_strlit("\x1b[31m");
    reveal_strlit("\x1b[33m");
    reveal_strlit("  T-");
    let s = render::alert_text(c);
    let late = c.t_cpa.value() < 60 * closeness::whole();
    assert(c.t_cpa.below(Double { bits: MINUTE }) == late);
    assert(s.take(5) =~= seq!['\x1b', '[', '3', if late { '1' } else { '3' }, 'm']);
}

/// Six alerts are listed, or all of them where there are no more; and none where there is
/// none.
pub proof fn law_six_alerts_are_listed(alerts: Seq<Conjunction>)
    ensures
        ({
            let n = render::fewer(alerts.len(), render::MAX_ALERTS as nat);
            &&& n <= 6 && n <= alerts.len() && (n == 6 || n == alerts.len())
        }),
{
}

/// What is not listed is counted: rows and the rest make all tracks.
pub proof fn law_rows_and_the_rest(tracks: nat, rows: nat)
    ensures
        render::fewer(tracks, rows) + (if tracks > rows {
            tracks - rows
        } else {
            0
        }) == tracks,
        tracks <= rows ==> render::more_text(tracks, rows).len() == 0,
{
    reveal_strlit("");
}

/// The mean of the cycles is the whole number of nanoseconds that their number goes into the
/// total.
pub proof fn law_the_mean_cycle(cycles: Cycles)
    requires
        cycles.count > 0,
    ensures
        cycles.average() * cycles.count <= cycles.total@,
        cycles.total@ < (cycles.average() + 1) * cycles.count,
{
    let (t, n) = (cycles.total@ as int, cycles.count as int);
    vstd::arithmetic::div_mod::lemma_fundamental_div_mod(t, n);
    let q = t / n;
    assert(q * n == n * q && (q + 1) * n == n * q + n) by (nonlinear_arith);
}

/// The first characters of a text, at most so many.
pub proof fn law_texts_are_cut(s: Seq<char>, n: nat)
    ensures
        render::prefix(s, n).len() == (if n < s.len() {
            n
        } else {
            s.len()
        }),
        forall|i: int| 0 <= i < render::prefix(s, n).len() ==> #[trigger] render::prefix(s, n)[i] == s[i],
{
}

/// A row says who the track is, how far away it is in kilometres and in which direction, how
/// high above the ellipsoid in feet, how fast over the ground in knots and in which
/// direction, how it climbs in feet per minute, how uncertain it is in metres, and how old
/// its evidence is in seconds; the first three cut off at the width of their columns.
pub proof fn law_what_a_row_says(t: Track, angles: Angles, frame: Frame, now: nat)
    ensures
        ({
            let v = t.viewed(now);
            let thousand = Double { bits: 0x408f_4000_0000_0000 };
            let foot = Double { bits: 0x3fd3_81d7_dbf4_87fd };
            let foot_per_minute = Double { bits: 0x3f74_cec4_1dd1_a21f };
            let knots = Double { bits: 0x3fff_19fc_dbcd_0fc4 };
            let away = range(t, now).over(thousand);
            let high = frame.unrotated(v.pos).altitude(angles.lat).over(foot);
            let fast = t.filt.e.v.distance(t.filt.n.v).times(knots);
            let climb = t.filt.u.v.over(foot_per_minute);
            render::row_text(t, angles, frame, now) == render::flag(t) + text::left_aligned(
                t.id@,
                9,
            ) + " "@ + text::left_aligned(render::prefix(t.label@, 9), 9) + " "@
                + text::left_aligned(render::prefix(t.kind@, 6), 6) + " "@ + text::right_aligned(
                away.fixed(1),
                7,
            ) + " "@ + text::right_aligned(geo::compass(angles.bearing).fixed(0), 5) + "° "@
                + text::right_aligned(high.fixed(0), 7) + " "@ + text::right_aligned(
                fast.fixed(0),
                5,
            ) + " "@ + text::right_aligned(geo::compass(angles.heading).fixed(0), 6) + "° "@
                + text::right_aligned(climb.fixed(0), 6) + " "@ + text::right_aligned(
                v.pos_sigma.fixed(0),
                6,
            ) + " "@ + text::right_aligned(t.evidence_age(now).fixed(0), 4) + "s"@ + "\x1b[0m"@
                + "\n"@
        }),
{
    reveal(render::row_text);
}

/// An alert says when, who, how far apart in kilometres and metres, how fast in knots, and how
/// uncertain in metres.
pub proof fn law_what_an_alert_says(c: Conjunction)
    ensures
        ({
            let thousand = Double { bits: 0x408f_4000_0000_0000 };
            let knots = Double { bits: 0x3fff_19fc_dbcd_0fc4 };
            let colour = if c.t_cpa.below(Double { bits: MINUTE }) {
                "\x1b[31m"@
            } else {
                "\x1b[33m"@
            };
            render::alert_text(c) == colour + "  T-"@ + text::right_aligned(c.t_cpa.fixed(0), 3)
                + "s  "@ + text::left_aligned(render::prefix(c.label_a@, 9), 9) + " <-> "@
                + text::left_aligned(render::prefix(c.label_b@, 9), 9) + "  horiz "@
                + text::right_aligned(c.horiz_m.over(thousand).fixed(2), 5) + " km  vert "@
                + text::right_aligned(c.vert_m.fixed(0), 4) + " m  closing "@
                + text::right_aligned(c.closing_ms.times(knots).fixed(0), 3) + " kt  ±"@
                + c.sigma_m.fixed(0) + " m"@ + "\x1b[0m"@ + "\n"@
        }),
{
    reveal(render::alert_text);
}

/// The hours, minutes and seconds of a time in nanoseconds make it up, and there are less than
/// 60 minutes and 60 seconds.
pub proof fn law_time_up(started: nat, now: nat)
    requires
        started <= now,
    ensures
        ({
            let up = clock::elapsed(started, now) / 1_000_000_000;
            let (h, m, s) = (up / 3600, (up / 60) % 60, up % 60);
            &&& m < 60 && s < 60
            &&& h * 3600 + m * 60 + s == up
            &&& up * 1_000_000_000 <= now - started < (up + 1) * 1_000_000_000
        }),
{
}

/// The headline shows the hours, minutes and seconds since the start, and the cycles.
pub proof fn law_what_the_headline_says(now: nat, cycles: Cycles, h: nat, m: nat, s: nat)
    requires
        cycles.started@ <= now,
        m < 60 && s < 60,
        (h * 3600 + m * 60 + s) * 1_000_000_000 <= now - cycles.started@,
        now - cycles.started@ < (h * 3600 + m * 60 + s + 1) * 1_000_000_000,
    ensures
        render::headline_text(now, cycles) == "\x1b[1m"@ + "AETHER"@ + "\x1b[0m"@
            + "  air picture   up "@ + text::filled(text::decimal(h), 2, '0') + ":"@
            + text::filled(text::decimal(m), 2, '0') + ":"@ + text::filled(
            text::decimal(s),
            2,
            '0',
        ) + "   cycle "@ + text::decimal(cycles.count as nat) + "\n"@,
{
    law_time_up(cycles.started@, now);
    let up = clock::elapsed(cycles.started@, now) / (clock::NANOS_PER_SEC as nat);
    assert(up == h * 3600 + m * 60 + s);
    assert(up / 3600 == h && (up / 60) % 60 == m && up % 60 == s);
}

/// The counters of the tracker stand under their names, and the times of the cycles in
/// milliseconds.
pub proof fn law_what_the_counters_say(store: TrackStore, cycles: Cycles)
    ensures
        ({
            let thousand = Double { bits: 0x408f_4000_0000_0000 };
            let ms = |nanos: nat| clock::seconds(nanos as int).times(thousand).fixed(2);
            let count = |n: nat, width: nat| text::left_aligned(text::decimal(n), width);
            render::counters_text(store, cycles) == "\x1b[2m"@ + "tracks "@ + count(
                store.tracks@.len(),
                4,
            ) + " initiated "@ + count(store.total_initiated as nat, 5) + " dropped "@ + count(
                store.total_dropped as nat,
                5,
            ) + " gated "@ + count(store.total_gated as nat, 4) + " superseded "@ + count(
                store.total_superseded as nat,
                5,
            ) + " plots "@ + count(cycles.contacts_in as nat, 7) + " cycle last "@ + ms(
                cycles.last@,
            ) + "ms mean "@ + ms(cycles.average()) + "ms worst "@ + ms(cycles.worst@) + "ms"@
                + "\x1b[0m"@ + "\n"@
        }),
{
}

/// The counters of the sensor stand under their names, in yellow where anything failed.
pub proof fn law_what_the_sensor_says(health: SensorHealth)
    ensures
        ({
            let count = |n: nat, width: nat| text::left_aligned(text::decimal(n), width);
            let failed = health.http_errors > 0 || health.oversized_responses > 0
                || health.decode_errors > 0;
            render::sensor_text(health) == (if failed {
                "\x1b[33m"@
            } else {
                "\x1b[2m"@
            }) + "sensor  polls "@ + count(health.polls as nat, 6) + " http-err "@ + count(
                health.http_errors as nat,
                4,
            ) + " oversized "@ + count(health.oversized_responses as nat, 4) + " decode-err "@
                + count(health.decode_errors as nat, 4) + "\x1b[0m"@ + "\n"@
        }),
{
}

} // verus!
