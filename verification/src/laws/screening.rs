//! The screen, against the tracks of the store.
use crate::approach;
use crate::conjunction;
use crate::conjunction::{Conjunction, Minima};
use crate::double::facts;
use crate::double::{Double, ZERO};
use crate::laws::listing;
use crate::order;
use crate::track;
use crate::track::{Track, TrackView};
use vstd::prelude::*;

verus! {

/// How far apart two coordinates are after `t` seconds, at these velocities.
pub open spec fn apart(p: Double, q: Double, v: Double, w: Double, t: Double) -> Double {
    p.minus(q).plus(v.minus(w).times(t))
}

/// How far two tracks are apart after `t` seconds, level with the ground.
pub open spec fn across(a: TrackView, b: TrackView, t: Double) -> Double {
    apart(a.pos.e, b.pos.e, a.vel.e, b.vel.e, t).distance(
        apart(a.pos.n, b.pos.n, a.vel.n, b.vel.n, t),
    )
}

/// How far one track is above or below the other after `t` seconds.
pub open spec fn above(a: TrackView, b: TrackView, t: Double) -> Double {
    apart(a.pos.u, b.pos.u, a.vel.u, b.vel.u, t).absolute()
}

/// Two tracks are closer than both minima after `t` seconds.
pub open spec fn too_close(a: TrackView, b: TrackView, m: Minima, t: Double) -> bool {
    across(a, b, t).below(m.min_horiz_m) && above(a, b, t).below(m.min_vert_m)
}

/// A moment from now to the horizon.
pub open spec fn ahead(t: Double, horizon_s: Double) -> bool {
    (Double { bits: ZERO }).at_most(t) && t.at_most(horizon_s)
}

/// A pair that is closer than both minima at some moment from now to the horizon, or now,
/// alerts. An alert names the two tracks and says how far apart they are at its moment,
/// which is one from now to the horizon at which they are too close.
pub proof fn law_a_pair_alerts_when_it_is_too_close(
    a: Track,
    av: TrackView,
    b: Track,
    bv: TrackView,
    m: Minima,
    t: Double,
)
    ensures
        too_close(av, bv, m, t) && (ahead(t, m.horizon_s) || t.value() == 0)
            ==> conjunction::conjunction(a, av, b, bv, m) is Some,
        conjunction::conjunction(a, av, b, bv, m) matches Some(c) ==> {
            &&& c.a == a.id && c.b == b.id
            &&& c.label_a == a.label && c.label_b == b.label
            &&& too_close(av, bv, m, c.t_cpa)
            &&& ahead(c.t_cpa, m.horizon_s) || c.t_cpa.value() == 0
            &&& c.horiz_m == across(av, bv, c.t_cpa)
            &&& c.vert_m == above(av, bv, c.t_cpa)
        },
{
    conjunction::law_alerts_where_inside(a, av, b, bv, m);
    facts::lemma_units_order(t.magnitude(), 0);
    facts::lemma_units_order(0, 0);
    if too_close(av, bv, m, t) && (ahead(t, m.horizon_s) || t.value() == 0) {
        assert(approach::looks_at(t, m.horizon_s));
        assert(conjunction::inside_at(av, bv, m, t));
    }
}

/// A pair that is too close at its closest approach alerts of that moment; any other that
/// alerts does so of a moment before which it is at no time too close.
pub proof fn law_an_alert_is_of_the_right_moment(
    a: Track,
    av: TrackView,
    b: Track,
    bv: TrackView,
    m: Minima,
    t: Double,
)
    requires
        conjunction::conjunction(a, av, b, bv, m) is Some,
    ensures
        ({
            let c = conjunction::conjunction(a, av, b, bv, m)->0;
            let best = approach::time_of_approach(
                av.pos.minus(bv.pos),
                av.vel.minus(bv.vel),
                m.horizon_s,
            );
            &&& too_close(av, bv, m, best) ==> c.t_cpa == best
            &&& !too_close(av, bv, m, best) && too_close(av, bv, m, t) && ahead(t, m.horizon_s)
                ==> c.t_cpa.at_most(t)
        }),
{
    let (dp, dv) = conjunction::relative(av, bv);
    let best = approach::time_of_approach(dp, dv, m.horizon_s);
    assert(too_close(av, bv, m, best) == approach::inside(
        approach::position_at(dp, dv, best),
        m,
    ));
    assert(too_close(av, bv, m, t) == approach::inside(approach::position_at(dp, dv, t), m));
    if !too_close(av, bv, m, best) && approach::ever_inside(dp, dv, m) {
        approach::law_there_is_an_earliest(dp, dv, m);
    }
}

/// The list that the screen is to give.
pub open spec fn screened(tracks: Seq<Track>, now: nat, m: Minima, r: Seq<Conjunction>) -> bool {
    let firm = tracks.filter(conjunction::is_firm());
    order::sorted(
        r,
        conjunction::conjunctions(firm, firm.len(), now, m),
        conjunction::by_severity(),
    )
}

/// Of all tracks of the store, any two with four reports or more that are closer than both
/// minima at some moment from now to the horizon are in the list.
pub proof fn law_every_firm_pair_is_screened(
    tracks: Seq<Track>,
    now: nat,
    m: Minima,
    r: Seq<Conjunction>,
    i: int,
    j: int,
    t: Double,
)
    requires
        screened(tracks, now, m, r),
        0 <= i < j < tracks.len(),
        tracks[i].updates >= 4,
        tracks[j].updates >= 4,
        ahead(t, m.horizon_s) || t.value() == 0,
        too_close(tracks[i].viewed(now), tracks[j].viewed(now), m, t),
    ensures
        exists|k: int|
            0 <= k < r.len() && (#[trigger] r[k]).a == tracks[i].id && r[k].b == tracks[j].id,
{
    let keep = conjunction::is_firm();
    let firm = tracks.filter(keep);
    assert(keep(tracks[i]) && keep(tracks[j]));
    let (p, q) = listing::lemma_kept_in_order(tracks, keep, i, j);
    facts::lemma_units_order(t.magnitude(), 0);
    facts::lemma_units_order(0, 0);
    assert(approach::looks_at(t, m.horizon_s));
    assert(conjunction::inside_at(firm[p].viewed(now), firm[q].viewed(now), m, t));
    conjunction::law_no_pair_is_missed(tracks, now, m, r, p, q, t);
}

/// Everything in the list is of two tracks of the store, both with four reports or more, and
/// says of them what a pair alerts with.
pub proof fn law_alerts_are_of_firm_pairs(
    tracks: Seq<Track>,
    now: nat,
    m: Minima,
    r: Seq<Conjunction>,
    k: int,
) -> (pair: (int, int))
    requires
        screened(tracks, now, m, r),
        0 <= k < r.len(),
    ensures
        ({
            let (i, j) = pair;
            let (a, b) = (tracks[i], tracks[j]);
            &&& 0 <= i < j < tracks.len()
            &&& a.updates >= 4 && b.updates >= 4
            &&& conjunction::conjunction(a, a.viewed(now), b, b.viewed(now), m) == Some(r[k])
        }),
{
    let keep = conjunction::is_firm();
    let firm = tracks.filter(keep);
    conjunction::law_screen_is_complete(tracks, now, m, r, r[k]);
    assert(r.contains(r[k]));
    let (p, q) = choose|p: int, q: int| #[trigger] conjunction::alerts(firm, p, q, now, m, r[k]);
    assert(conjunction::alerts(firm, p, q, now, m, r[k]));
    reveal(conjunction::conjunction_at);
    let (i, j) = listing::lemma_were_in_order(tracks, keep, p, q);
    (i, j)
}

/// A pair of tracks is listed once.
pub proof fn law_a_pair_is_listed_once(
    tracks: Seq<Track>,
    now: nat,
    m: Minima,
    r: Seq<Conjunction>,
    k: int,
    l: int,
)
    requires
        screened(tracks, now, m, r),
        track::distinct(tracks),
        0 <= k < l < r.len(),
    ensures
        r[k].a@ != r[l].a@ || r[k].b@ != r[l].b@,
{
    let keep = conjunction::is_firm();
    let firm = tracks.filter(keep);
    let all = conjunction::conjunctions(firm, firm.len(), now, m);
    let key = conjunction::by_severity();
    assert forall|x: int, y: int| 0 <= x < y < firm.len() implies (#[trigger] firm[x]).id@ != (
    #[trigger] firm[y]).id@ by {
        let (i, j) = listing::lemma_were_in_order(tracks, keep, x, y);
    }
    lemma_pairs_of_all(firm, firm.len(), now, m);
    if r[k].a@ == r[l].a@ && r[k].b@ == r[l].b@ {
        order::lemma_same_items(r, all, key, r[k]);
        order::lemma_same_items(r, all, key, r[l]);
        assert(r.contains(r[k]) && r.contains(r[l]));
        let x = choose|x: int| 0 <= x < all.len() && all[x] == r[k];
        let y = choose|y: int| 0 <= y < all.len() && all[y] == r[l];
        // The same pair is the same place.
        assert(x == y) by {
            if x < y {
                assert(all[x].a@ != all[y].a@ || all[x].b@ != all[y].b@);
            }
            if y < x {
                assert(all[y].a@ != all[x].a@ || all[y].b@ != all[x].b@);
            }
        }
        let same = order::with_key(key, key(r[k]));
        assert(same(r[k]) && same(r[l]));
        let (p, q) = listing::lemma_kept_in_order(r, same, k, l);
        assert(r.filter(same) == all.filter(same));
        let (u, v) = listing::lemma_were_in_order(all, same, p, q);
        assert(all[u].a@ != all[v].a@ || all[u].b@ != all[v].b@);
    }
}

/// The list has an alert of these two identities.
pub open spec fn listed(r: Seq<Conjunction>, a: Seq<char>, b: Seq<char>) -> bool {
    exists|k: int| 0 <= k < r.len() && (#[trigger] r[k]).a@ == a && r[k].b@ == b
}

/// Any two tracks with four reports or more that are closer than both minima at some moment
/// from now to the horizon are in the list.
pub open spec fn complete(tracks: Seq<Track>, now: nat, m: Minima, r: Seq<Conjunction>) -> bool {
    forall|i: int, j: int, t: Double|
        #![trigger tracks[i], tracks[j], ahead(t, m.horizon_s)]
        0 <= i < j < tracks.len() && tracks[i].updates >= 4 && tracks[j].updates >= 4 && (ahead(
            t,
            m.horizon_s,
        ) || t.value() == 0) && too_close(tracks[i].viewed(now), tracks[j].viewed(now), m, t)
            ==> listed(r, tracks[i].id@, tracks[j].id@)
}

/// The alert is of the tracks at these two places, both with four reports or more, and of a
/// moment from now to the horizon at which they are closer than both minima.
pub open spec fn is_of(
    tracks: Seq<Track>,
    i: int,
    j: int,
    now: nat,
    m: Minima,
    c: Conjunction,
) -> bool {
    let (a, b) = (tracks[i], tracks[j]);
    let (av, bv) = (a.viewed(now), b.viewed(now));
    &&& 0 <= i < j < tracks.len()
    &&& a.updates >= 4 && b.updates >= 4
    &&& c.a == a.id && c.b == b.id && c.label_a == a.label && c.label_b == b.label
    &&& too_close(av, bv, m, c.t_cpa)
    &&& ahead(c.t_cpa, m.horizon_s) || c.t_cpa.value() == 0
    &&& c.horiz_m == across(av, bv, c.t_cpa)
    &&& c.vert_m == above(av, bv, c.t_cpa)
    &&& c.sigma_m == together(av.pos_sigma, bv.pos_sigma)
    &&& c.closing_ms == speed(
        av.vel.e.minus(bv.vel.e),
        av.vel.n.minus(bv.vel.n),
        av.vel.u.minus(bv.vel.u),
    )
}

/// The root of the sum of two squares.
pub open spec fn together(a: Double, b: Double) -> Double {
    a.times(a).plus(b.times(b)).root()
}

/// The length of a vector.
pub open spec fn speed(e: Double, n: Double, u: Double) -> Double {
    e.times(e).plus(n.times(n)).plus(u.times(u)).root()
}

/// The alert is of two tracks of the store.
pub open spec fn is_of_a_pair(tracks: Seq<Track>, now: nat, m: Minima, c: Conjunction) -> bool {
    exists|i: int, j: int| #[trigger] is_of(tracks, i, j, now, m, c)
}

/// Every alert of the list is of two tracks of the store.
pub open spec fn sound(tracks: Seq<Track>, now: nat, m: Minima, r: Seq<Conjunction>) -> bool {
    forall|k: int| 0 <= k < r.len() ==> is_of_a_pair(tracks, now, m, #[trigger] r[k])
}

/// The list begins with what is soonest, and of what is at the same time with the tightest.
pub open spec fn soonest_first(r: Seq<Conjunction>) -> bool {
    forall|k: int, l: int|
        0 <= k < l < r.len() ==> (#[trigger] r[k]).t_cpa.below((#[trigger] r[l]).t_cpa) || (
        r[k].t_cpa.value() == r[l].t_cpa.value() && r[k].horiz_m.at_most(r[l].horiz_m))
}

/// The list is complete and sound, and in order.
pub proof fn law_the_list_is_right(tracks: Seq<Track>, now: nat, m: Minima, r: Seq<Conjunction>)
    requires
        screened(tracks, now, m, r),
    ensures
        complete(tracks, now, m, r),
        sound(tracks, now, m, r),
        soonest_first(r),
{
    lemma_complete(tracks, now, m, r);
    assert forall|k: int| 0 <= k < r.len() implies is_of_a_pair(
        tracks,
        now,
        m,
        #[trigger] r[k],
    ) by {
        let (i, j) = lemma_is_of(tracks, now, m, r, k);
        assert(is_of(tracks, i, j, now, m, r[k]));
    }
    if r.len() > 0 {
        conjunction::law_screen_is_complete(tracks, now, m, r, r[0]);
    }
}

proof fn lemma_complete(tracks: Seq<Track>, now: nat, m: Minima, r: Seq<Conjunction>)
    requires
        screened(tracks, now, m, r),
    ensures
        complete(tracks, now, m, r),
{
    assert forall|i: int, j: int, t: Double|
        #![trigger tracks[i], tracks[j], ahead(t, m.horizon_s)]
        0 <= i < j < tracks.len() && tracks[i].updates >= 4 && tracks[j].updates >= 4 && (ahead(
            t,
            m.horizon_s,
        ) || t.value() == 0) && too_close(
            tracks[i].viewed(now),
            tracks[j].viewed(now),
            m,
            t,
        ) implies listed(r, tracks[i].id@, tracks[j].id@) by {
        law_every_firm_pair_is_screened(tracks, now, m, r, i, j, t);
        let k = choose|k: int|
            0 <= k < r.len() && (#[trigger] r[k]).a == tracks[i].id && r[k].b == tracks[j].id;
        assert(r[k].a@ == tracks[i].id@);
    }
}

proof fn lemma_is_of(
    tracks: Seq<Track>,
    now: nat,
    m: Minima,
    r: Seq<Conjunction>,
    k: int,
) -> (pair: (int, int))
    requires
        screened(tracks, now, m, r),
        0 <= k < r.len(),
    ensures
        is_of(tracks, pair.0, pair.1, now, m, r[k]),
{
    let (i, j) = law_alerts_are_of_firm_pairs(tracks, now, m, r, k);
    lemma_alert_fields(
        tracks[i],
        tracks[i].viewed(now),
        tracks[j],
        tracks[j].viewed(now),
        m,
        r[k],
    );
    (i, j)
}

proof fn lemma_alert_fields(
    a: Track,
    av: TrackView,
    b: Track,
    bv: TrackView,
    m: Minima,
    c: Conjunction,
)
    requires
        conjunction::conjunction(a, av, b, bv, m) == Some(c),
    ensures
        c.a == a.id && c.b == b.id && c.label_a == a.label && c.label_b == b.label,
        too_close(av, bv, m, c.t_cpa),
        ahead(c.t_cpa, m.horizon_s) || c.t_cpa.value() == 0,
        c.horiz_m == across(av, bv, c.t_cpa),
        c.vert_m == above(av, bv, c.t_cpa),
        c.sigma_m == together(av.pos_sigma, bv.pos_sigma),
        c.closing_ms == speed(
            av.vel.e.minus(bv.vel.e),
            av.vel.n.minus(bv.vel.n),
            av.vel.u.minus(bv.vel.u),
        ),
{
    law_a_pair_alerts_when_it_is_too_close(a, av, b, bv, m, c.t_cpa);
}

proof fn lemma_pairs_of_row(firm: Seq<Track>, i: int, end: int, now: nat, m: Minima)
    requires
        0 <= i,
        end <= firm.len(),
        track::distinct(firm),
    ensures
        ({
            let row = conjunction::partners(firm, i, end, now, m);
            &&& forall|x: int|
                0 <= x < row.len() ==> (#[trigger] row[x]).a@ == firm[i].id@ && exists|j: int|
                    i < j < end && (#[trigger] firm[j]).id@ == row[x].b@
            &&& forall|x: int, y: int|
                0 <= x < y < row.len() ==> (#[trigger] row[x]).b@ != (#[trigger] row[y]).b@
        }),
    decreases end,
{
    if end > i + 1 {
        lemma_pairs_of_row(firm, i, end - 1, now, m);
        reveal(conjunction::conjunction_at);
        let before = conjunction::partners(firm, i, end - 1, now, m);
        let row = conjunction::partners(firm, i, end, now, m);
        assert forall|x: int| 0 <= x < row.len() implies (#[trigger] row[x]).a@ == firm[i].id@
            && exists|j: int| i < j < end && (#[trigger] firm[j]).id@ == row[x].b@ by {
            if x < before.len() {
                assert(row[x] == before[x]);
                let j = choose|j: int| i < j < end - 1 && (#[trigger] firm[j]).id@ == before[x].b@;
                assert(firm[j].id@ == row[x].b@);
            } else {
                assert(firm[end - 1].id@ == row[x].b@);
            }
        }
        assert forall|x: int, y: int| 0 <= x < y < row.len() implies (#[trigger] row[x]).b@ != (
        #[trigger] row[y]).b@ by {
            assert(row[x] == before[x]);
            if y < before.len() {
                assert(row[y] == before[y]);
            } else {
                let j = choose|j: int| i < j < end - 1 && (#[trigger] firm[j]).id@ == before[x].b@;
                assert(firm[j].id@ != firm[end - 1].id@);
            }
        }
    }
}

/// One of the first `n` tracks has this identity.
spec fn among(firm: Seq<Track>, n: nat, id: Seq<char>) -> bool {
    exists|i: int| 0 <= i < n && (#[trigger] firm[i]).id@ == id
}

proof fn lemma_pairs_of_all(firm: Seq<Track>, n: nat, now: nat, m: Minima)
    requires
        n <= firm.len(),
        track::distinct(firm),
    ensures
        ({
            let all = conjunction::conjunctions(firm, n, now, m);
            &&& forall|x: int|
                0 <= x < all.len() ==> among(firm, n, (#[trigger] all[x]).a@)
            &&& forall|x: int, y: int|
                0 <= x < y < all.len() ==> (#[trigger] all[x]).a@ != (#[trigger] all[y]).a@
                    || all[x].b@ != all[y].b@
        }),
    decreases n,
{
    if n > 0 {
        let end = firm.len() as int;
        lemma_pairs_of_all(firm, (n - 1) as nat, now, m);
        lemma_pairs_of_row(firm, n - 1, end, now, m);
        let before = conjunction::conjunctions(firm, (n - 1) as nat, now, m);
        let row = conjunction::partners(firm, n - 1, end, now, m);
        let all = conjunction::conjunctions(firm, n, now, m);
        assert forall|x: int| 0 <= x < all.len() implies among(
            firm,
            n,
            (#[trigger] all[x]).a@,
        ) by {
            if x < before.len() {
                assert(all[x] == before[x]);
                assert(among(firm, (n - 1) as nat, before[x].a@));
                let i = choose|i: int| 0 <= i < n - 1 && (#[trigger] firm[i]).id@ == before[x].a@;
                assert(firm[i].id@ == all[x].a@);
            } else {
                assert(all[x] == row[x - before.len()]);
                assert(firm[n - 1].id@ == all[x].a@);
            }
        }
        assert forall|x: int, y: int| 0 <= x < y < all.len() implies (#[trigger] all[x]).a@ != (
        #[trigger] all[y]).a@ || all[x].b@ != all[y].b@ by {
            if y < before.len() {
                assert(all[x] == before[x] && all[y] == before[y]);
            } else {
                assert(all[y] == row[y - before.len()]);
                if x < before.len() {
                    assert(all[x] == before[x]);
                    assert(among(firm, (n - 1) as nat, before[x].a@));
                    let i = choose|i: int|
                        0 <= i < n - 1 && (#[trigger] firm[i]).id@ == before[x].a@;
                    assert(firm[i].id@ != firm[n - 1].id@);
                } else {
                    assert(all[x] == row[x - before.len()]);
                }
            }
        }
    }
}

} // verus!
