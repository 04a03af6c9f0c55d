//! Conjunction screening: closest point of approach between track pairs.
//!
//! Under a constant-velocity assumption the separation between two tracks is a
//! quadratic in time, so the closest approach has a closed form.
//! With relative position dp and relative velocity dv:
//!
//! ```text
//! t_cpa = -(dp . dv) / (dv . dv)
//! ```
//!
//! clamped to [0, horizon] because a closest approach in the past is not a warning.
//!
//! Horizontal and vertical separation are judged separately, because that is how
//! airspace is actually divided: two aircraft directly above one another are not in
//! conflict if a thousand feet stands between them. A pair that is not inside both minima
//! at its closest may still pass through them at another moment; it alerts then.
use crate::approach;
use crate::approach::{moment_inside, PARALLEL};
use crate::clock::Instant;
use crate::double::facts;
use crate::double::{Double, ZERO};
use crate::geo::Enu;
use crate::laws::screening;
use crate::order;
use crate::track::{Track, TrackStore, TrackView};
use vstd::prelude::*;

verus! {

#[derive(Clone, Debug)]
pub struct Conjunction {
    pub a: String,
    pub b: String,
    pub label_a: String,
    pub label_b: String,
    /// Seconds from now to closest approach; where the pair is not inside both minima then,
    /// to the first moment at which it is.
    pub t_cpa: Double,
    pub horiz_m: Double,
    pub vert_m: Double,
    /// Combined one-sigma position uncertainty of the pair, metres.
    pub sigma_m: Double,
    /// Closing speed at the moment of detection, m/s.
    pub closing_ms: Double,
}

/// What a pair is held against: how far ahead to look, and how close is too close.
#[derive(Clone, Copy, Debug)]
pub struct Minima {
    pub horizon_s: Double,
    pub min_horiz_m: Double,
    pub min_vert_m: Double,
}

impl Conjunction {
    /// Soonest first, then tightest: the bits of the time weigh more than any distance.
    pub open spec fn severity(self) -> int {
        self.t_cpa.signed() * 0x1_0000_0000_0000_0000 + self.horiz_m.signed()
    }

    /// Severity ordering: soonest first, then tightest.
    pub fn rank(&self) -> (r: i128)
        ensures
            r == self.severity(),
    {
        let (t, h) = (self.t_cpa.signed_bits(), self.horiz_m.signed_bits());
        t as i128 * 0x1_0000_0000_0000_0000 + h as i128
    }
}

/// The most severe conjunction is the soonest; of two at the same time, the tightest.
pub proof fn law_soonest_then_tightest(a: Conjunction, b: Conjunction)
    ensures
        a.severity() <= b.severity() <==> a.t_cpa.value() < b.t_cpa.value() || (a.t_cpa.value()
            == b.t_cpa.value() && a.horiz_m.value() <= b.horiz_m.value()),
{
    facts::lemma_signed_order(a.t_cpa, b.t_cpa);
    facts::lemma_signed_order(b.t_cpa, a.t_cpa);
    facts::lemma_signed_order(a.horiz_m, b.horiz_m);
}

/// The position and the velocity of one track as the other sees them.
pub open spec fn relative(av: TrackView, bv: TrackView) -> (Enu, Enu) {
    (av.pos.minus(bv.pos), av.vel.minus(bv.vel))
}

/// The conjunction of two tracks seen at one instant, if they come inside the minima.
pub open spec fn conjunction(
    a: Track,
    av: TrackView,
    b: Track,
    bv: TrackView,
    m: Minima,
) -> Option<Conjunction> {
    let (dp, dv) = relative(av, bv);
    match approach::moment(dp, dv, m) {
        Some(t) => {
            let at_cpa = approach::position_at(dp, dv, t);
            Some(
                Conjunction {
                    a: a.id,
                    b: b.id,
                    label_a: a.label,
                    label_b: b.label,
                    t_cpa: t,
                    horiz_m: at_cpa.e.distance(at_cpa.n),
                    vert_m: at_cpa.u.absolute(),
                    sigma_m: av.pos_sigma.times(av.pos_sigma).plus(
                        bv.pos_sigma.times(bv.pos_sigma),
                    ).root(),
                    closing_ms: dv.dot(dv).root(),
                },
            )
        },
        None => None,
    }
}

/// The pair is inside both minima at `t` seconds from now.
pub open spec fn inside_at(av: TrackView, bv: TrackView, m: Minima, t: Double) -> bool {
    let (dp, dv) = relative(av, bv);
    approach::inside(dp.plus(dv.scaled(t)), m)
}

/// Closest approach between two firm tracks, or `None` if they never come inside the
/// minima within the horizon. Where they do but not at their closest, the first moment
/// inside.
///
/// Takes views rather than tracks for the geometry, because the two filters are almost
/// never valid for the same instant — one aircraft's last report can be six seconds
/// older than another's. Comparing them where they happen to sit is how phantom
/// conflicts are born; the caller extrapolates both to one instant first.
pub fn pair_cpa(
    a: &Track,
    av: TrackView,
    b: &Track,
    bv: TrackView,
    horizon_s: Double,
    min_horiz_m: Double,
    min_vert_m: Double,
) -> (r: Option<Conjunction>)
    ensures
        r == conjunction(*a, av, *b, bv, Minima { horizon_s, min_horiz_m, min_vert_m }),
        r is None <==> forall|t: Double| #[trigger]
            approach::looks_at(t, horizon_s) ==> !inside_at(
                av,
                bv,
                Minima { horizon_s, min_horiz_m, min_vert_m },
                t,
            ),
        r matches Some(c) ==> approach::looks_at(c.t_cpa, horizon_s) && inside_at(
            av,
            bv,
            Minima { horizon_s, min_horiz_m, min_vert_m },
            c.t_cpa,
        ),
{
    let m = Minima { horizon_s, min_horiz_m, min_vert_m };
    let dp = av.pos - bv.pos;
    let dv = av.vel - bv.vel;
    proof {
        law_alerts_where_inside(*a, av, *b, bv, m);
    }
    match moment_inside(dp, dv, &m) {
        Some(t) => {
            let at_cpa = dp + dv * t;
            Some(
                Conjunction {
                    a: a.id.clone(),
                    b: b.id.clone(),
                    label_a: a.label.clone(),
                    label_b: b.label.clone(),
                    t_cpa: t,
                    horiz_m: at_cpa.horiz(),
                    vert_m: at_cpa.u.abs(),
                    // The extrapolated uncertainty, not the uncertainty at the last
                    // report: a track that has been coasting for eight seconds deserves a
                    // wider ellipse.
                    sigma_m: (av.pos_sigma * av.pos_sigma + bv.pos_sigma * bv.pos_sigma).sqrt(),
                    closing_ms: dv.norm(),
                },
            )
        },
        None => None,
    }
}

/// A pair alerts exactly if it is inside both minima at some moment from now to the
/// horizon, and an alert is of such a moment.
pub proof fn law_alerts_where_inside(a: Track, av: TrackView, b: Track, bv: TrackView, m: Minima)
    ensures
        conjunction(a, av, b, bv, m) is None <==> forall|t: Double| #[trigger]
            approach::looks_at(t, m.horizon_s) ==> !inside_at(av, bv, m, t),
        conjunction(a, av, b, bv, m) matches Some(c) ==> {
            &&& approach::looks_at(c.t_cpa, m.horizon_s)
            &&& inside_at(av, bv, m, c.t_cpa)
            &&& c.horiz_m.below(m.min_horiz_m)
            &&& c.vert_m.below(m.min_vert_m)
        },
{
    let (dp, dv) = relative(av, bv);
    approach::law_moment_is_inside(dp, dv, m);
    assert forall|t: Double| #[trigger]
        approach::looks_at(t, m.horizon_s) && conjunction(
            a,
            av,
            b,
            bv,
            m,
        ) is None implies !inside_at(av, bv, m, t) by {
        assert(approach::inside(approach::position_at(dp, dv, t), m) == inside_at(av, bv, m, t));
    }
    if approach::ever_inside(dp, dv, m) {
        let s = choose|s: Double|
            approach::looks_at(s, m.horizon_s) && #[trigger] approach::inside(
                approach::position_at(dp, dv, s),
                m,
            );
        assert(approach::looks_at(s, m.horizon_s) && inside_at(av, bv, m, s));
    }
}

/// The tracks that are screened.
pub open spec fn is_firm() -> spec_fn(Track) -> bool {
    |t: Track| t.firm()
}

/// The conjunction of two of these tracks as they stand at `now`.
#[verifier::opaque]
pub open spec fn conjunction_at(
    tracks: Seq<Track>,
    i: int,
    j: int,
    now: nat,
    m: Minima,
) -> Option<Conjunction> {
    conjunction(tracks[i], tracks[i].viewed(now), tracks[j], tracks[j].viewed(now), m)
}

/// The conjunctions of one track with those after it, up to the one at `end`.
pub open spec fn partners(tracks: Seq<Track>, i: int, end: int, now: nat, m: Minima) -> Seq<
    Conjunction,
>
    decreases end,
{
    if end <= i + 1 || end <= 0 {
        Seq::empty()
    } else {
        let before = partners(tracks, i, end - 1, now, m);
        match conjunction_at(tracks, i, end - 1, now, m) {
            Some(c) => before.push(c),
            None => before,
        }
    }
}

/// The conjunctions of the first `n` tracks with those after each of them.
pub open spec fn conjunctions(tracks: Seq<Track>, n: nat, now: nat, m: Minima) -> Seq<Conjunction>
    decreases n,
{
    if n == 0 {
        Seq::empty()
    } else {
        conjunctions(tracks, (n - 1) as nat, now, m) + partners(
            tracks,
            n - 1,
            tracks.len() as int,
            now,
            m,
        )
    }
}

/// The order of the screen.
pub open spec fn by_severity() -> spec_fn(Conjunction) -> int {
    |c: Conjunction| c.severity()
}

/// Put the list in order of severity; of two alike, the earlier comes first.
fn rank_all(all: Vec<Conjunction>) -> (out: Vec<Conjunction>)
    ensures
        order::sorted(out@, all@, by_severity()),
{
    let mut out: Vec<Conjunction> = Vec::new();
    let ghost found = all@;
    assert(found.take(0) =~= out@);
    for c in it: all
        invariant
            it.seq() == found,
            order::sorted(out@, found.take(it.index()), by_severity()),
    {
        let rank: i128 = c.rank();
        let mut at: usize = out.len();
        while at > 0 && out[at - 1].rank() > rank
            invariant
                at <= out@.len(),
                rank == c.severity(),
                at < out@.len() ==> rank < out@[at as int].severity(),
            decreases at,
        {
            at = at - 1;
        }
        proof {
            order::lemma_insert(out@, found.take(it.index()), by_severity(), c, at as int);
            assert(found.take(it.index()).push(c) =~= found.take(it.index() + 1));
        }
        out.insert(at, c);
    }
    assert(found.take(found.len() as int) =~= found);
    out
}

/// The tracks that are screened, each with its view at `now`.
///
/// Extrapolate once per track, not once per pair: with 150 tracks that is 150 views
/// instead of 22,350 redundant ones.
fn extrapolate<'a>(store: &'a TrackStore, now: Instant) -> (r: (Vec<&'a Track>, Vec<TrackView>))
    ensures
        ({
            let tracks = store.tracks@.filter(is_firm());
            &&& r.0@.len() == tracks.len()
            &&& r.1@.len() == tracks.len()
            &&& forall|i: int| 0 <= i < tracks.len() ==> *(#[trigger] r.0@[i]) == tracks[i]
            &&& forall|i: int|
                0 <= i < tracks.len() ==> #[trigger] r.1@[i] == tracks[i].viewed(now@)
        }),
{
    let ghost all = store.tracks@;
    let mut firm: Vec<&'a Track> = Vec::new();
    let mut views: Vec<TrackView> = Vec::new();
    for k in 0..store.tracks.len()
        invariant
            all == store.tracks@,
            firm@.len() == all.take(k as int).filter(is_firm()).len(),
            views@.len() == firm@.len(),
            forall|i: int|
                0 <= i < firm@.len() ==> *(#[trigger] firm@[i]) == all.take(k as int).filter(
                    is_firm(),
                )[i],
            forall|i: int|
                0 <= i < firm@.len() ==> #[trigger] views@[i] == firm@[i].viewed(now@),
    {
        proof {
            reveal(Seq::filter);
            assert(all.take(k + 1).drop_last() =~= all.take(k as int));
        }
        let t = &store.tracks[k];
        if t.is_firm() {
            firm.push(t);
            views.push(t.view_at(now));
        }
    }
    assert(all.take(all.len() as int) =~= all);
    (firm, views)
}

/// One pair of the screen: the tracks at `i` and `j`.
fn pair(
    firm: &Vec<&Track>,
    views: &Vec<TrackView>,
    i: usize,
    j: usize,
    m: &Minima,
    Ghost(tracks): Ghost<Seq<Track>>,
    Ghost(now): Ghost<nat>,
) -> (r: Option<Conjunction>)
    requires
        i < firm@.len() == views@.len(),
        j < firm@.len(),
        *firm@[i as int] == tracks[i as int],
        *firm@[j as int] == tracks[j as int],
        views@[i as int] == tracks[i as int].viewed(now),
        views@[j as int] == tracks[j as int].viewed(now),
    ensures
        r == conjunction_at(tracks, i as int, j as int, now, *m),
{
    proof {
        reveal(conjunction_at);
    }
    let (a, av) = (firm[i], views[i]);
    let (b, bv) = (firm[j], views[j]);
    pair_cpa(a, av, b, bv, m.horizon_s, m.min_horiz_m, m.min_vert_m)
}

/// Screen every firm pair in the store, as it stands at `now`. Returns the list ordered
/// by severity.
pub fn screen(
    store: &TrackStore,
    now: Instant,
    horizon_s: Double,
    min_horiz_m: Double,
    min_vert_m: Double,
) -> (r: Vec<Conjunction>)
    ensures
        ({
            let tracks = store.tracks@.filter(is_firm());
            order::sorted(
                r@,
                conjunctions(
                    tracks,
                    tracks.len(),
                    now@,
                    Minima { horizon_s, min_horiz_m, min_vert_m },
                ),
                by_severity(),
            )
        }),
        screening::complete(
            store.tracks@,
            now@,
            Minima { horizon_s, min_horiz_m, min_vert_m },
            r@,
        ),
        screening::sound(
            store.tracks@,
            now@,
            Minima { horizon_s, min_horiz_m, min_vert_m },
            r@,
        ),
        screening::soonest_first(r@),
{
    let m = Minima { horizon_s, min_horiz_m, min_vert_m };
    let ghost tracks = store.tracks@.filter(is_firm());
    let (firm, views) = extrapolate(store, now);
    let n: usize = firm.len();
    let mut out: Vec<Conjunction> = Vec::new();
    for i in 0..n
        invariant
            n == firm@.len() == views@.len() == tracks.len(),
            m == (Minima { horizon_s, min_horiz_m, min_vert_m }),
            forall|i: int|
                0 <= i < n ==> *(#[trigger] firm@[i]) == tracks[i] && views@[i]
                    == firm@[i].viewed(now@),
            out@ == conjunctions(tracks, i as nat, now@, m),
    {
        for j in (i + 1)..n
            invariant
                i < n == firm@.len() == views@.len() == tracks.len(),
                m == (Minima { horizon_s, min_horiz_m, min_vert_m }),
                forall|i: int|
                    0 <= i < n ==> *(#[trigger] firm@[i]) == tracks[i] && views@[i]
                        == firm@[i].viewed(now@),
                out@ == conjunctions(tracks, i as nat, now@, m) + partners(
                    tracks,
                    i as int,
                    j as int,
                    now@,
                    m,
                ),
        {
            assert(*firm@[i as int] == tracks[i as int] && *firm@[j as int] == tracks[j as int]);
            if let Some(c) = pair(&firm, &views, i, j, &m, Ghost(tracks), Ghost(now@)) {
                out.push(c);
            }
        }
    }
    let ranked = rank_all(out);
    proof {
        screening::law_the_list_is_right(store.tracks@, now@, m, ranked@);
    }
    ranked
}

/// A pair that is inside both minima now alerts. If it is opening, or keeps its distance,
/// the alert is of the present: a loss of separation now is still loss of separation, and a
/// closest approach in the past is not a warning.
pub proof fn law_a_pair_inside_now_alerts(
    a: Track,
    av: TrackView,
    b: Track,
    bv: TrackView,
    m: Minima,
)
    requires
        approach::inside(relative(av, bv).0, m),
        approach::finite(relative(av, bv).1),
    ensures
        ({
            let (dp, dv) = relative(av, bv);
            &&& conjunction(a, av, b, bv, m) is Some
            &&& dv.dot(dv).finite() && ((Double { bits: ZERO }).at_most(dp.dot(dv))
                || dv.dot(dv).below(Double { bits: PARALLEL })) ==> {
                let c = conjunction(a, av, b, bv, m)->0;
                &&& c.t_cpa.value() == 0
                &&& c.horiz_m == dp.e.distance(dp.n)
                &&& c.vert_m == dp.u.absolute()
            }
        }),
{
    let (dp, dv) = relative(av, bv);
    approach::law_inside_now(dp, dv, m);
    facts::lemma_units_order(0, 0);
    let t = approach::moment(dp, dv, m)->0;
    approach::law_moment_is_inside(dp, dv, m);
    if t.magnitude() == 0 {
        approach::lemma_present(dp, dv, m, t);
    }
}

/// It does not matter which track of a pair comes first: both ways round the pair alerts
/// or does not, at the same moment and the same distances.
pub proof fn law_a_pair_has_no_order(
    a: Track,
    av: TrackView,
    b: Track,
    bv: TrackView,
    m: Minima,
)
    ensures
        match (conjunction(a, av, b, bv, m), conjunction(b, bv, a, av, m)) {
            (Some(c), Some(d)) => {
                &&& c.t_cpa.like(d.t_cpa)
                &&& c.horiz_m == d.horiz_m
                &&& c.vert_m == d.vert_m
                &&& c.closing_ms.like(d.closing_ms)
                &&& c.sigma_m == d.sigma_m
            },
            (None, None) => true,
            _ => false,
        },
{
    let (dp, dv) = (av.pos.minus(bv.pos), av.vel.minus(bv.vel));
    let (dp2, dv2) = (bv.pos.minus(av.pos), bv.vel.minus(av.vel));
    approach::lemma_minus_opposed(av.pos, bv.pos);
    approach::lemma_minus_opposed(av.vel, bv.vel);
    approach::lemma_dot_opposed(dv, dv, dv2, dv2);
    facts::lemma_root_like(dv.dot(dv), dv2.dot(dv2));
    approach::law_moment_has_no_order(dp, dv, dp2, dv2, m);
    if let (Some(t), Some(t2)) = (
        approach::moment(dp, dv, m),
        approach::moment(dp2, dv2, m),
    ) {
        approach::lemma_place_has_no_order(dp, dv, dp2, dv2, t, t2);
    }
    facts::lemma_plus_commutes(
        av.pos_sigma.times(av.pos_sigma),
        bv.pos_sigma.times(bv.pos_sigma),
    );
}

proof fn lemma_partners(tracks: Seq<Track>, i: int, end: int, now: nat, m: Minima, c: Conjunction)
    requires
        0 <= i,
    ensures
        partners(tracks, i, end, now, m).contains(c) <==> exists|j: int|
            i < j < end && #[trigger] conjunction_at(tracks, i, j, now, m) == Some(c),
    decreases end,
{
    if end > i + 1 {
        let before = partners(tracks, i, end - 1, now, m);
        let all = partners(tracks, i, end, now, m);
        lemma_partners(tracks, i, end - 1, now, m, c);
        if all.contains(c) {
            let k = choose|k: int| 0 <= k < all.len() && all[k] == c;
            if k < before.len() {
                assert(before[k] == c);
                assert(before.contains(c));
            } else {
                assert(conjunction_at(tracks, i, end - 1, now, m) == Some(c));
            }
        }
        if exists|j: int|
            i < j < end && #[trigger] conjunction_at(tracks, i, j, now, m) == Some(c) {
            let j = choose|j: int|
                i < j < end && #[trigger] conjunction_at(tracks, i, j, now, m) == Some(c);
            if j == end - 1 {
                assert(all[all.len() - 1] == c);
            } else {
                assert(before.contains(c));
                let k = choose|k: int| 0 <= k < before.len() && before[k] == c;
                assert(all[k] == c);
            }
        }
    }
}

/// The pair at `i` and `j` is in conjunction `c`.
pub open spec fn alerts(
    tracks: Seq<Track>,
    i: int,
    j: int,
    now: nat,
    m: Minima,
    c: Conjunction,
) -> bool {
    0 <= i < j < tracks.len() && conjunction_at(tracks, i, j, now, m) == Some(c)
}

proof fn lemma_conjunctions(tracks: Seq<Track>, n: nat, now: nat, m: Minima, c: Conjunction)
    requires
        n <= tracks.len(),
    ensures
        conjunctions(tracks, n, now, m).contains(c) <==> exists|i: int, j: int|
            i < n && #[trigger] alerts(tracks, i, j, now, m, c),
    decreases n,
{
    if n > 0 {
        let before = conjunctions(tracks, (n - 1) as nat, now, m);
        let row = partners(tracks, n - 1, tracks.len() as int, now, m);
        let all = conjunctions(tracks, n, now, m);
        lemma_conjunctions(tracks, (n - 1) as nat, now, m, c);
        lemma_partners(tracks, n - 1, tracks.len() as int, now, m, c);
        if all.contains(c) {
            let k = choose|k: int| 0 <= k < all.len() && all[k] == c;
            if k < before.len() {
                assert(before[k] == c);
                assert(before.contains(c));
            } else {
                assert(row[k - before.len()] == c);
                assert(row.contains(c));
                let j = choose|j: int|
                    n - 1 < j < tracks.len() && #[trigger] conjunction_at(
                        tracks,
                        n - 1,
                        j,
                        now,
                        m,
                    ) == Some(c);
                assert(alerts(tracks, n - 1, j, now, m, c));
            }
        }
        if exists|i: int, j: int| i < n && #[trigger] alerts(tracks, i, j, now, m, c) {
            let (i, j) = choose|i: int, j: int|
                i < n && #[trigger] alerts(tracks, i, j, now, m, c);
            if i == n - 1 {
                assert(conjunction_at(tracks, n - 1, j, now, m) == Some(c));
                assert(row.contains(c));
                let k = choose|k: int| 0 <= k < row.len() && row[k] == c;
                assert(all[before.len() + k] == c);
            } else {
                assert(i < n - 1 && alerts(tracks, i, j, now, m, c));
                assert(before.contains(c));
                let k = choose|k: int| 0 <= k < before.len() && before[k] == c;
                assert(all[k] == c);
            }
        }
    }
}

/// The screen lists the conjunctions of pairs of firm tracks: all of them and nothing else,
/// the soonest first, and of those at the same time the tightest.
pub proof fn law_screen_is_complete(
    tracks: Seq<Track>,
    now: nat,
    m: Minima,
    r: Seq<Conjunction>,
    c: Conjunction,
)
    requires
        ({
            let firm = tracks.filter(is_firm());
            order::sorted(r, conjunctions(firm, firm.len(), now, m), by_severity())
        }),
    ensures
        ({
            let firm = tracks.filter(is_firm());
            &&& r.contains(c) <==> exists|i: int, j: int|
                #[trigger] alerts(firm, i, j, now, m, c)
            &&& forall|i: int| 0 <= i < firm.len() ==> (#[trigger] firm[i]).firm()
        }),
        forall|i: int, j: int|
            0 <= i < j < r.len() ==> (#[trigger] r[i]).t_cpa.below((#[trigger] r[j]).t_cpa) || (
            r[i].t_cpa.value() == r[j].t_cpa.value() && r[i].horiz_m.at_most(r[j].horiz_m)),
{
    broadcast use vstd::seq_lib::group_filter_ensures;

    let firm = tracks.filter(is_firm());
    lemma_listed(firm, now, m, r, c);
    assert forall|i: int| 0 <= i < firm.len() implies (#[trigger] firm[i]).firm() by {
        assert(is_firm()(firm[i]));
    }
    assert forall|i: int, j: int| 0 <= i < j < r.len() implies (#[trigger] r[i]).t_cpa.below(
        (#[trigger] r[j]).t_cpa,
    ) || (r[i].t_cpa.value() == r[j].t_cpa.value() && r[i].horiz_m.at_most(r[j].horiz_m)) by {
        assert(by_severity()(r[i]) <= by_severity()(r[j]));
        law_soonest_then_tightest(r[i], r[j]);
        lemma_listed(firm, now, m, r, r[i]);
        lemma_listed(firm, now, m, r, r[j]);
        assert(r.contains(r[i]) && r.contains(r[j]));
        lemma_alerts_are_numbers(firm, now, m, r[i]);
        lemma_alerts_are_numbers(firm, now, m, r[j]);
    }
}

/// No pair is missed: two firm tracks that are inside both minima at some moment from now
/// to the horizon are listed.
pub proof fn law_no_pair_is_missed(
    tracks: Seq<Track>,
    now: nat,
    m: Minima,
    r: Seq<Conjunction>,
    i: int,
    j: int,
    t: Double,
)
    requires
        ({
            let firm = tracks.filter(is_firm());
            &&& order::sorted(r, conjunctions(firm, firm.len(), now, m), by_severity())
            &&& 0 <= i < j < firm.len()
            &&& approach::looks_at(t, m.horizon_s)
            &&& inside_at(firm[i].viewed(now), firm[j].viewed(now), m, t)
        }),
    ensures
        ({
            let firm = tracks.filter(is_firm());
            exists|k: int|
                0 <= k < r.len() && (#[trigger] r[k]).a == firm[i].id && r[k].b == firm[j].id
        }),
{
    let firm = tracks.filter(is_firm());
    let (a, b) = (firm[i], firm[j]);
    law_alerts_where_inside(a, a.viewed(now), b, b.viewed(now), m);
    reveal(conjunction_at);
    let c = conjunction_at(firm, i, j, now, m)->0;
    assert(alerts(firm, i, j, now, m, c));
    lemma_listed(firm, now, m, r, c);
    let k = choose|k: int| 0 <= k < r.len() && r[k] == c;
    assert(r[k].a == firm[i].id);
}

proof fn lemma_listed(firm: Seq<Track>, now: nat, m: Minima, r: Seq<Conjunction>, c: Conjunction)
    requires
        order::sorted(r, conjunctions(firm, firm.len(), now, m), by_severity()),
    ensures
        r.contains(c) <==> exists|i: int, j: int| #[trigger] alerts(firm, i, j, now, m, c),
{
    let all = conjunctions(firm, firm.len(), now, m);
    lemma_conjunctions(firm, firm.len(), now, m, c);
    order::lemma_same_items(r, all, by_severity(), c);
    if r.contains(c) {
        let (i, j) = choose|i: int, j: int|
            i < firm.len() && #[trigger] alerts(firm, i, j, now, m, c);
        assert(alerts(firm, i, j, now, m, c));
    }
    if exists|i: int, j: int| #[trigger] alerts(firm, i, j, now, m, c) {
        let (i, j) = choose|i: int, j: int| #[trigger] alerts(firm, i, j, now, m, c);
        assert(i < firm.len() && alerts(firm, i, j, now, m, c));
    }
}

proof fn lemma_alerts_are_numbers(firm: Seq<Track>, now: nat, m: Minima, c: Conjunction)
    requires
        exists|i: int, j: int| #[trigger] alerts(firm, i, j, now, m, c),
    ensures
        !c.t_cpa.nan(),
        !c.horiz_m.nan(),
{
    let (i, j) = choose|i: int, j: int| #[trigger] alerts(firm, i, j, now, m, c);
    reveal(conjunction_at);
    law_alerts_where_inside(
        firm[i],
        firm[i].viewed(now),
        firm[j],
        firm[j].viewed(now),
        m,
    );
}

} // verus!
