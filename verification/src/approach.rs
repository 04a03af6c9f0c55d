//! When two constant-velocity states come inside the separation minima.
//!
//! The separation of two tracks is a quadratic in time, so the closest approach has a
//! closed form. But the minima are two, one horizontal and one vertical, and a pair may be
//! inside both at a moment that is not its closest: climbing through another's level while
//! drawing away from it, say. So where the closest approach is not inside, the window is
//! searched for the first moment that is.
use crate::conjunction::Minima;
use crate::double::facts;
use crate::double::rounding;
use crate::double::rounding::INFINITE;
use crate::double::{Double, ZERO};
use crate::geo::Enu;
use crate::laws::motion;
use vstd::prelude::*;

verus! {

/// The bits of 1e-9: a relative speed this small, squared, is none.
pub const PARALLEL: u64 = 0x3e11_2e0b_e826_d695;

/// The time of closest approach, from now to the horizon. A horizon that is negative or no
/// number leaves only the present.
pub open spec fn time_of_approach(dp: Enu, dv: Enu, horizon_s: Double) -> Double {
    let zero = Double { bits: ZERO };
    let dvv = dv.dot(dv);
    if dvv.below(Double { bits: PARALLEL }) || !zero.at_most(horizon_s) {
        zero
    } else {
        dp.dot(dv).negated().over(dvv).held(zero, horizon_s)
    }
}

/// The time of closest approach, from now to the horizon.
pub fn approach_time(dp: Enu, dv: Enu, horizon_s: Double) -> (t: Double)
    ensures
        t == time_of_approach(dp, dv, horizon_s),
        motion::computable(dp, dv, horizon_s) ==> motion::is_nearest(dp, dv, horizon_s, t.value()),
{
    proof {
        if motion::computable(dp, dv, horizon_s) {
            motion::law_time_of_approach_is_the_nearest_moment(dp, dv, horizon_s);
        }
    }
    let zero = Double { bits: ZERO };
    let dvv = dv.inner(dv);
    // Parallel tracks: separation never changes, so evaluate it now.
    if dvv < (Double { bits: PARALLEL }) || !(zero <= horizon_s) {
        zero
    } else {
        let t = dp.inner(dv).opposite() / dvv;
        t.clamp(zero, horizon_s)
    }
}

/// Where a pair that is `dp` apart and moves at `dv` stands after `t` seconds.
pub open spec fn position_at(dp: Enu, dv: Enu, t: Double) -> Enu {
    dp.plus(dv.scaled(t))
}

/// Horizontal and vertical separation are both below their minima.
pub open spec fn inside(p: Enu, m: Minima) -> bool {
    p.e.distance(p.n).below(m.min_horiz_m) && p.u.absolute().below(m.min_vert_m)
}

/// The present, and every moment up to the horizon.
pub open spec fn looks_at(t: Double, horizon_s: Double) -> bool {
    t.magnitude() == 0 || ((Double { bits: ZERO }).at_most(t) && t.at_most(horizon_s))
}

/// A moment at which the pair is inside, with none before it.
pub open spec fn earliest(dp: Enu, dv: Enu, m: Minima, t: Double) -> bool {
    &&& !t.negative()
    &&& looks_at(t, m.horizon_s)
    &&& inside(position_at(dp, dv, t), m)
    &&& forall|s: Double|
        looks_at(s, m.horizon_s) && #[trigger] inside(position_at(dp, dv, s), m) ==> t.at_most(s)
}

/// The pair is inside at some moment that is looked at.
pub open spec fn ever_inside(dp: Enu, dv: Enu, m: Minima) -> bool {
    exists|s: Double|
        looks_at(s, m.horizon_s) && #[trigger] inside(position_at(dp, dv, s), m)
}

/// The moment to report of a pair: that of its closest approach where it is inside then,
/// or else the first at which it is inside.
pub open spec fn moment(dp: Enu, dv: Enu, m: Minima) -> Option<Double> {
    let t = time_of_approach(dp, dv, m.horizon_s);
    if inside(position_at(dp, dv, t), m) {
        Some(t)
    } else if ever_inside(dp, dv, m) {
        Some(choose|t: Double| earliest(dp, dv, m, t))
    } else {
        None
    }
}

/// All components are finite.
pub open spec fn finite(p: Enu) -> bool {
    p.e.finite() && p.n.finite() && p.u.finite()
}

/// A pair that is inside is a finite distance apart, moves at a finite speed, and is there
/// after a finite time.
proof fn lemma_inside_is_finite(dp: Enu, dv: Enu, m: Minima, t: Double)
    requires
        inside(position_at(dp, dv, t), m),
    ensures
        finite(dp),
        finite(dv),
        t.finite(),
{
    let p = position_at(dp, dv, t);
    let top = INFINITE as nat;
    facts::lemma_units_order(m.min_horiz_m.magnitude(), top);
    facts::lemma_units_order(m.min_vert_m.magnitude(), top);
    facts::lemma_units_order(top, 0);
    facts::lemma_units_order(0, m.min_horiz_m.magnitude());
    facts::lemma_units_order(0, m.min_vert_m.magnitude());
    assert(Double::pack(false, top).magnitude() == INFINITE);
    assert(!p.u.infinite() && !p.u.nan());
    assert(!p.e.infinite() && !p.e.nan() && !p.n.infinite() && !p.n.nan());
    lemma_finite_motion(dp.e, dv.e, t);
    lemma_finite_motion(dp.n, dv.n, t);
    lemma_finite_motion(dp.u, dv.u, t);
}

proof fn lemma_finite_motion(a: Double, b: Double, t: Double)
    requires
        a.plus(b.times(t)).finite(),
    ensures
        a.finite(),
        b.finite(),
        t.finite(),
{
    assert(Double::pack(false, INFINITE as nat).magnitude() == INFINITE);
    assert(Double::pack(true, INFINITE as nat).magnitude() == INFINITE);
}

/// The pair is inside at the moment of these bits.
spec fn inside_at(dp: Enu, dv: Enu, m: Minima, k: nat) -> bool {
    inside(position_at(dp, dv, Double { bits: k as u64 }), m)
}

/// The last moment that is looked at, by its bits.
spec fn last_index(horizon_s: Double) -> nat {
    if !(Double { bits: ZERO }).at_most(horizon_s) {
        0
    } else if horizon_s.magnitude() < INFINITE {
        horizon_s.magnitude()
    } else {
        (INFINITE - 1) as nat
    }
}

/// It does not matter which zero the present is.
pub proof fn lemma_present(dp: Enu, dv: Enu, m: Minima, t: Double)
    requires
        finite(dp),
        finite(dv),
        t.magnitude() == 0,
    ensures
        inside(position_at(dp, dv, t), m) == inside(dp, m),
        position_at(dp, dv, t).e.magnitude() == dp.e.magnitude(),
        position_at(dp, dv, t).n.magnitude() == dp.n.magnitude(),
        position_at(dp, dv, t).u.magnitude() == dp.u.magnitude(),
{
    facts::lemma_times_zero(dv.e, t);
    facts::lemma_times_zero(dv.n, t);
    facts::lemma_times_zero(dv.u, t);
    facts::lemma_plus_zero(dp.e, dv.e.times(t));
    facts::lemma_plus_zero(dp.n, dv.n.times(t));
    facts::lemma_plus_zero(dp.u, dv.u.times(t));
}

/// The moments that are looked at, by their bits.
proof fn lemma_window(dp: Enu, dv: Enu, m: Minima, t: Double)
    requires
        finite(dp),
        finite(dv),
        t.finite(),
    ensures
        looks_at(t, m.horizon_s) ==> {
            &&& t.magnitude() <= last_index(m.horizon_s)
            &&& t.value() == rounding::units(t.magnitude())
            &&& inside(position_at(dp, dv, t), m) == inside_at(dp, dv, m, t.magnitude())
        },
        !t.negative() && t.magnitude() <= last_index(m.horizon_s) ==> looks_at(t, m.horizon_s),
{
    let zero = Double { bits: ZERO };
    let (k, h) = (t.magnitude(), m.horizon_s);
    facts::lemma_units_order(0, 0);
    facts::lemma_units_order(k, 0);
    facts::lemma_units_order(k, h.magnitude());
    facts::lemma_units_order(0, h.magnitude());
    facts::lemma_units_order(h.magnitude(), 0);
    let plain = Double { bits: k as u64 };
    if k == 0 {
        lemma_present(dp, dv, m, t);
        lemma_present(dp, dv, m, plain);
    } else if !t.negative() {
        assert(t == plain);
    }
}

/// Of the moments up to one at which the pair is inside, one is the first.
proof fn lemma_first(dp: Enu, dv: Enu, m: Minima, k: nat) -> (j: nat)
    requires
        inside_at(dp, dv, m, k),
    ensures
        j <= k,
        inside_at(dp, dv, m, j),
        forall|i: nat| i < j ==> !#[trigger] inside_at(dp, dv, m, i),
    decreases k,
{
    if exists|i: nat| i < k && #[trigger] inside_at(dp, dv, m, i) {
        let i = choose|i: nat| i < k && #[trigger] inside_at(dp, dv, m, i);
        lemma_first(dp, dv, m, i)
    } else {
        k
    }
}

/// The first moment by its bits is the earliest.
proof fn lemma_first_is_earliest(dp: Enu, dv: Enu, m: Minima, j: nat)
    requires
        finite(dp),
        finite(dv),
        j <= last_index(m.horizon_s),
        inside_at(dp, dv, m, j),
        forall|i: nat| i < j ==> !#[trigger] inside_at(dp, dv, m, i),
    ensures
        earliest(dp, dv, m, Double { bits: j as u64 }),
{
    let t = Double { bits: j as u64 };
    lemma_window(dp, dv, m, t);
    assert forall|s: Double|
        looks_at(s, m.horizon_s) && #[trigger] inside(
            position_at(dp, dv, s),
            m,
        ) implies t.at_most(s) by {
        lemma_inside_is_finite(dp, dv, m, s);
        lemma_window(dp, dv, m, s);
        assert(inside_at(dp, dv, m, s.magnitude()));
        facts::lemma_units_order(j, s.magnitude());
    }
}

/// Only one moment is the earliest.
proof fn lemma_earliest_unique(dp: Enu, dv: Enu, m: Minima, t: Double, t2: Double)
    requires
        earliest(dp, dv, m, t),
        earliest(dp, dv, m, t2),
    ensures
        t == t2,
{
    assert(inside(position_at(dp, dv, t), m) && inside(position_at(dp, dv, t2), m));
    assert(t.at_most(t2) && t2.at_most(t));
    facts::lemma_units_order(t.magnitude(), t2.magnitude());
    facts::lemma_units_order(t2.magnitude(), t.magnitude());
}

/// A pair that is ever inside is so for the first time at some moment.
pub proof fn law_there_is_an_earliest(dp: Enu, dv: Enu, m: Minima)
    requires
        ever_inside(dp, dv, m),
    ensures
        exists|t: Double| earliest(dp, dv, m, t),
{
    let s = choose|s: Double|
        looks_at(s, m.horizon_s) && #[trigger] inside(position_at(dp, dv, s), m);
    lemma_inside_is_finite(dp, dv, m, s);
    lemma_window(dp, dv, m, s);
    let j = lemma_first(dp, dv, m, s.magnitude());
    lemma_first_is_earliest(dp, dv, m, j);
}

/// A pair has a moment to report exactly if it is inside both minima at some moment from
/// now to the horizon, and the moment reported is such a one.
pub proof fn law_moment_is_inside(dp: Enu, dv: Enu, m: Minima)
    ensures
        moment(dp, dv, m) is Some <==> ever_inside(dp, dv, m),
        moment(dp, dv, m) matches Some(t) ==> looks_at(t, m.horizon_s) && inside(
            position_at(dp, dv, t),
            m,
        ),
{
    let t = time_of_approach(dp, dv, m.horizon_s);
    if inside(position_at(dp, dv, t), m) {
        lemma_inside_is_finite(dp, dv, m, t);
        assert(looks_at(t, m.horizon_s));
    } else if ever_inside(dp, dv, m) {
        law_there_is_an_earliest(dp, dv, m);
    }
}

/// The least that a coordinate between the two comes to, apart from its sign.
spec fn least(a: Double, b: Double) -> Double {
    if a.negative() != b.negative() {
        Double { bits: ZERO }
    } else if a.magnitude() <= b.magnitude() {
        a
    } else {
        b
    }
}

fn least_of(a: Double, b: Double) -> (r: Double)
    ensures
        r == least(a, b),
{
    let (x, y) = (a.abs().to_bits(), b.abs().to_bits());
    if a.is_negative() != b.is_negative() {
        Double { bits: ZERO }
    } else if x <= y {
        a
    } else {
        b
    }
}

/// One value is between two others.
spec fn between(a: Double, x: Double, b: Double) -> bool {
    &&& !a.nan() && !x.nan() && !b.nan()
    &&& a.value() <= x.value() <= b.value() || b.value() <= x.value() <= a.value()
}

proof fn lemma_least(a: Double, x: Double, b: Double)
    requires
        between(a, x, b),
    ensures
        least(a, b).magnitude() <= x.magnitude(),
{
    facts::lemma_units_order(a.magnitude(), x.magnitude());
    facts::lemma_units_order(b.magnitude(), x.magnitude());
    facts::lemma_units_order(x.magnitude(), 0);
    facts::lemma_units_order(a.magnitude(), 0);
    facts::lemma_units_order(b.magnitude(), 0);
}

/// No point of the box between two corners is inside.
spec fn hopeless(p: Enu, q: Enu, m: Minima) -> bool {
    ||| !least(p.u, q.u).absolute().below(m.min_vert_m)
    ||| !least(p.e, q.e).distance(least(p.n, q.n)).below(m.min_horiz_m)
}

proof fn lemma_hopeless(p: Enu, x: Enu, q: Enu, m: Minima)
    requires
        hopeless(p, q, m),
        between(p.e, x.e, q.e),
        between(p.n, x.n, q.n),
        between(p.u, x.u, q.u),
    ensures
        !inside(x, m),
{
    lemma_least(p.e, x.e, q.e);
    lemma_least(p.n, x.n, q.n);
    lemma_least(p.u, x.u, q.u);
    let u = least(p.u, q.u);
    facts::lemma_units_order(u.magnitude(), x.u.magnitude());
    facts::lemma_distance_order(least(p.e, q.e), least(p.n, q.n), x.e, x.n);
}

/// A pair moves along each axis one way only.
proof fn lemma_on_the_way(dp: Enu, dv: Enu, lo: nat, k: nat, hi: nat)
    requires
        finite(dp),
        finite(dv),
        lo <= k <= hi < INFINITE,
    ensures
        ({
            let (p, x, q) = (
                position_at(dp, dv, Double { bits: lo as u64 }),
                position_at(dp, dv, Double { bits: k as u64 }),
                position_at(dp, dv, Double { bits: hi as u64 }),
            );
            between(p.e, x.e, q.e) && between(p.n, x.n, q.n) && between(p.u, x.u, q.u)
        }),
{
    let (s, t, u) = (
        Double { bits: lo as u64 },
        Double { bits: k as u64 },
        Double { bits: hi as u64 },
    );
    facts::lemma_motion_order(dp.e, dv.e, s, t);
    facts::lemma_motion_order(dp.e, dv.e, t, u);
    facts::lemma_motion_order(dp.n, dv.n, s, t);
    facts::lemma_motion_order(dp.n, dv.n, t, u);
    facts::lemma_motion_order(dp.u, dv.u, s, t);
    facts::lemma_motion_order(dp.u, dv.u, t, u);
}

/// Whether a point is inside both minima.
pub fn is_inside(p: Enu, m: &Minima) -> (r: bool)
    ensures
        r == inside(p, *m),
{
    p.u.abs() < m.min_vert_m && p.horiz() < m.min_horiz_m
}

fn is_hopeless(p: Enu, q: Enu, m: &Minima) -> (r: bool)
    ensures
        r == hopeless(p, q, *m),
{
    if !(least_of(p.u, q.u).abs() < m.min_vert_m) {
        return true;
    }
    let corner = Enu { e: least_of(p.e, q.e), n: least_of(p.n, q.n), u: p.u };
    !(corner.horiz() < m.min_horiz_m)
}

/// The first moment from `lo` to `hi` at which the pair is inside, by its bits. `p` and
/// `q` are where the pair stands at the two ends.
///
/// Each coordinate moves one way only, so a stretch of time whose two ends span a box with
/// no point inside is passed over whole. What is left is halved. This is quick unless the
/// pair grazes the minima: the closer it comes without getting inside, the finer the
/// stretches.
fn search(dp: Enu, dv: Enu, m: &Minima, lo: u64, hi: u64, p: Enu, q: Enu) -> (r: Option<u64>)
    requires
        finite(dp),
        finite(dv),
        lo <= hi < INFINITE,
        p == position_at(dp, dv, Double { bits: lo }),
        q == position_at(dp, dv, Double { bits: hi }),
    ensures
        match r {
            Some(k) => {
                &&& lo <= k <= hi
                &&& inside_at(dp, dv, *m, k as nat)
                &&& forall|i: nat| lo <= i < k ==> !#[trigger] inside_at(dp, dv, *m, i)
            },
            None => forall|i: nat| lo <= i <= hi ==> !#[trigger] inside_at(dp, dv, *m, i),
        },
    decreases hi - lo,
{
    if is_inside(p, m) {
        return Some(lo);
    }
    if lo == hi {
        return None;
    }
    if is_hopeless(p, q, m) {
        proof {
            assert forall|i: nat| lo <= i <= hi implies !#[trigger] inside_at(dp, dv, *m, i) by {
                lemma_on_the_way(dp, dv, lo as nat, i, hi as nat);
                lemma_hopeless(p, position_at(dp, dv, Double { bits: i as u64 }), q, *m);
            }
        }
        return None;
    }
    let mid: u64 = lo + (hi - lo) / 2;
    let at_mid = dp + dv * Double { bits: mid };
    match search(dp, dv, m, lo, mid, p, at_mid) {
        Some(k) => Some(k),
        None => {
            let next: u64 = mid + 1;
            search(dp, dv, m, next, hi, dp + dv * Double { bits: next }, q)
        },
    }
}

fn is_finite(p: Enu) -> (r: bool)
    ensures
        r == finite(p),
{
    p.e.is_finite() && p.n.is_finite() && p.u.is_finite()
}

/// The moment to report of a pair that is `dp` apart and moves at `dv`, if it is ever
/// inside both minima from now to the horizon.
pub fn moment_inside(dp: Enu, dv: Enu, m: &Minima) -> (r: Option<Double>)
    ensures
        r == moment(dp, dv, *m),
{
    let t = approach_time(dp, dv, m.horizon_s);
    if is_inside(dp + dv * t, m) {
        return Some(t);
    }
    if !is_finite(dp) || !is_finite(dv) {
        proof {
            if ever_inside(dp, dv, *m) {
                let s = choose|s: Double|
                    looks_at(s, m.horizon_s) && #[trigger] inside(position_at(dp, dv, s), *m);
                lemma_inside_is_finite(dp, dv, *m, s);
            }
        }
        return None;
    }
    let zero = Double { bits: ZERO };
    let last: u64 = if !(zero <= m.horizon_s) {
        0
    } else {
        let h: u64 = m.horizon_s.abs().to_bits();
        if h < INFINITE {
            h
        } else {
            INFINITE - 1
        }
    };
    assert(last == last_index(m.horizon_s));
    let q = dp + dv * Double { bits: last };
    match search(dp, dv, m, 0, last, dp + dv * zero, q) {
        Some(k) => {
            let first = Double { bits: k };
            proof {
                lemma_first_is_earliest(dp, dv, *m, k as nat);
                assert(inside(position_at(dp, dv, first), *m));
                let t = choose|t: Double| earliest(dp, dv, *m, t);
                lemma_earliest_unique(dp, dv, *m, first, t);
            }
            Some(first)
        },
        None => {
            proof {
                if ever_inside(dp, dv, *m) {
                    let s = choose|s: Double|
                        looks_at(s, m.horizon_s) && #[trigger] inside(position_at(dp, dv, s), *m);
                    lemma_inside_is_finite(dp, dv, *m, s);
                    lemma_window(dp, dv, *m, s);
                    assert(inside_at(dp, dv, *m, s.magnitude()));
                }
            }
            None
        },
    }
}

/// A pair that is inside both minima now has a moment to report. It is the present if the
/// pair is opening, or keeps its distance.
pub proof fn law_inside_now(dp: Enu, dv: Enu, m: Minima)
    requires
        inside(dp, m),
        finite(dv),
    ensures
        finite(dp),
        moment(dp, dv, m) is Some,
        dv.dot(dv).finite() && ((Double { bits: ZERO }).at_most(dp.dot(dv)) || dv.dot(dv).below(
            Double { bits: PARALLEL },
        )) ==> moment(dp, dv, m)->0.magnitude() == 0,
{
    let zero = Double { bits: ZERO };
    let top = INFINITE as nat;
    facts::lemma_units_order(m.min_horiz_m.magnitude(), top);
    facts::lemma_units_order(m.min_vert_m.magnitude(), top);
    facts::lemma_units_order(0, m.min_horiz_m.magnitude());
    facts::lemma_units_order(0, m.min_vert_m.magnitude());
    assert(Double::pack(false, top).magnitude() == INFINITE);
    assert(finite(dp));
    lemma_present(dp, dv, m, zero);
    assert(looks_at(zero, m.horizon_s));
    assert(inside(position_at(dp, dv, zero), m));
    assert(ever_inside(dp, dv, m));
    law_moment_is_inside(dp, dv, m);
    let dvv = dv.dot(dv);
    if dvv.finite() && (zero.at_most(dp.dot(dv)) || dvv.below(Double { bits: PARALLEL })) {
        let back = dp.dot(dv).negated();
        facts::lemma_units_order(0, 0);
        facts::lemma_units_order(PARALLEL as nat, 0);
        if !dvv.below(Double { bits: PARALLEL }) {
            assert(back.magnitude() == dp.dot(dv).magnitude());
            assert(back.value() == -dp.dot(dv).value());
            facts::lemma_over_negative_sign(back, dvv);
        }
        let t = time_of_approach(dp, dv, m.horizon_s);
        assert(t.magnitude() == 0);
        lemma_present(dp, dv, m, t);
    }
}

/// The exact inner product of two vectors, in square units.
pub open spec fn exact_dot(a: Enu, b: Enu) -> int {
    a.e.value() * b.e.value() + a.n.value() * b.n.value() + a.u.value() * b.u.value()
}

/// The exact square of the separation after `n / d` seconds, times the square of `d`.
pub open spec fn exact_separation(dp: Enu, dv: Enu, n: int, d: int) -> int {
    let (e, n2, u) = (
        dp.e.value() * d + dv.e.value() * n,
        dp.n.value() * d + dv.n.value() * n,
        dp.u.value() * d + dv.u.value() * n,
    );
    e * e + n2 * n2 + u * u
}

/// How far `n / d` seconds are from the quotient -(dp . dv) / (dv . dv), times `d` and the
/// square of the speed.
pub open spec fn exact_offset(dp: Enu, dv: Enu, n: int, d: int) -> int {
    exact_dot(dv, dv) * n + exact_dot(dp, dv) * d
}

pub proof fn lemma_expanded(dp: Enu, dv: Enu, n: int, d: int)
    ensures
        exact_dot(dv, dv) * exact_separation(dp, dv, n, d) == exact_offset(dp, dv, n, d)
            * exact_offset(dp, dv, n, d) + (exact_dot(dp, dp) * exact_dot(dv, dv) - exact_dot(
            dp,
            dv,
        ) * exact_dot(dp, dv)) * (d * d),
{
    let (pe, pn, pu) = (dp.e.value(), dp.n.value(), dp.u.value());
    let (ve, vn, vu) = (dv.e.value(), dv.n.value(), dv.u.value());
    let (a, b, c) = (exact_dot(dp, dp), exact_dot(dp, dv), exact_dot(dv, dv));
    let f = exact_separation(dp, dv, n, d);
    lemma_square(pe, ve, n, d);
    lemma_square(pn, vn, n, d);
    lemma_square(pu, vu, n, d);
    assert(f == a * (d * d) + 2 * b * (n * d) + c * (n * n)) by (nonlinear_arith)
        requires
            a == pe * pe + pn * pn + pu * pu,
            b == pe * ve + pn * vn + pu * vu,
            c == ve * ve + vn * vn + vu * vu,
            f == ((pe * pe) * (d * d) + 2 * (pe * ve) * (n * d) + (ve * ve) * (n * n)) + ((pn * pn)
                * (d * d) + 2 * (pn * vn) * (n * d) + (vn * vn) * (n * n)) + ((pu * pu) * (d * d)
                + 2 * (pu * vu) * (n * d) + (vu * vu) * (n * n)),
    ;
    let (x, y) = (c * n, b * d);
    let o = x + y;
    assert(o * o == x * x + 2 * (x * y) + y * y) by (nonlinear_arith)
        requires
            o == x + y,
    ;
    assert(x * x == c * (c * (n * n))) by (nonlinear_arith)
        requires
            x == c * n,
    ;
    assert(2 * (x * y) == c * (2 * b * (n * d))) by (nonlinear_arith)
        requires
            x == c * n,
            y == b * d,
    ;
    assert(y * y == (b * b) * (d * d)) by (nonlinear_arith)
        requires
            y == b * d,
    ;
    assert((a * c - b * b) * (d * d) == c * (a * (d * d)) - (b * b) * (d * d)) by (nonlinear_arith);
    assert(c * f == c * (a * (d * d)) + c * (2 * b * (n * d)) + c * (c * (n * n)))
        by (nonlinear_arith)
        requires
            f == a * (d * d) + 2 * b * (n * d) + c * (n * n),
    ;
}

proof fn lemma_square(p: int, v: int, n: int, d: int)
    ensures
        (p * d + v * n) * (p * d + v * n) == (p * p) * (d * d) + 2 * (p * v) * (n * d) + (v * v)
            * (n * n),
{
    let (x, y) = (p * d, v * n);
    assert((x + y) * (x + y) == x * x + 2 * (x * y) + y * y) by (nonlinear_arith);
    assert(x * x == (p * p) * (d * d)) by (nonlinear_arith)
        requires
            x == p * d,
    ;
    assert(x * y == (p * v) * (n * d)) by (nonlinear_arith)
        requires
            x == p * d,
            y == v * n,
    ;
    assert(y * y == (v * v) * (n * n)) by (nonlinear_arith)
        requires
            y == v * n,
    ;
    assert(2 * ((p * v) * (n * d)) == 2 * (p * v) * (n * d)) by (nonlinear_arith);
}

/// In exact arithmetic the separation is least at the quotient -(dp . dv) / (dv . dv), and
/// grows with the distance from it. So of the moments from now to the horizon, the one
/// nearest to the quotient is that of closest approach.
pub proof fn law_the_quotient_minimises_separation(
    dp: Enu,
    dv: Enu,
    n: int,
    d: int,
    n2: int,
    d2: int,
)
    requires
        exact_dot(dv, dv) > 0,
        d > 0,
        d2 > 0,
        (exact_offset(dp, dv, n, d) * d2) * (exact_offset(dp, dv, n, d) * d2) <= (exact_offset(
            dp,
            dv,
            n2,
            d2,
        ) * d) * (exact_offset(dp, dv, n2, d2) * d),
    ensures
        exact_separation(dp, dv, n, d) * (d2 * d2) <= exact_separation(dp, dv, n2, d2) * (d * d),
        exact_separation(dp, dv, -exact_dot(dp, dv), exact_dot(dv, dv)) * (d * d)
            <= exact_separation(dp, dv, n, d) * (exact_dot(dv, dv) * exact_dot(dv, dv)),
{
    let c = exact_dot(dv, dv);
    lemma_nearer(dp, dv, n, d, n2, d2);
    let b = exact_dot(dp, dv);
    assert(exact_offset(dp, dv, -b, c) == 0) by {
        assert(c * (-b) + b * c == 0) by (nonlinear_arith);
    }
    let o = exact_offset(dp, dv, n, d);
    assert((0 * d) * (0 * d) <= (o * c) * (o * c)) by (nonlinear_arith);
    lemma_nearer(dp, dv, -b, c, n, d);
}

proof fn lemma_nearer(dp: Enu, dv: Enu, n: int, d: int, n2: int, d2: int)
    requires
        exact_dot(dv, dv) > 0,
        (exact_offset(dp, dv, n, d) * d2) * (exact_offset(dp, dv, n, d) * d2) <= (exact_offset(
            dp,
            dv,
            n2,
            d2,
        ) * d) * (exact_offset(dp, dv, n2, d2) * d),
    ensures
        exact_separation(dp, dv, n, d) * (d2 * d2) <= exact_separation(dp, dv, n2, d2) * (d * d),
{
    lemma_expanded(dp, dv, n, d);
    lemma_expanded(dp, dv, n2, d2);
    let c = exact_dot(dv, dv);
    let (f, f2) = (exact_separation(dp, dv, n, d), exact_separation(dp, dv, n2, d2));
    let (o, o2) = (exact_offset(dp, dv, n, d), exact_offset(dp, dv, n2, d2));
    let g = exact_dot(dp, dp) * c - exact_dot(dp, dv) * exact_dot(dp, dv);
    assert(c * (f * (d2 * d2)) == (o * d2) * (o * d2) + (g * (d * d)) * (d2 * d2))
        by (nonlinear_arith)
        requires
            c * f == o * o + g * (d * d),
    ;
    assert(c * (f2 * (d * d)) == (o2 * d) * (o2 * d) + (g * (d2 * d2)) * (d * d))
        by (nonlinear_arith)
        requires
            c * f2 == o2 * o2 + g * (d2 * d2),
    ;
    assert((g * (d * d)) * (d2 * d2) == (g * (d2 * d2)) * (d * d)) by (nonlinear_arith);
    let (x, y) = (f * (d2 * d2), f2 * (d * d));
    assert(x <= y) by (nonlinear_arith)
        requires
            c > 0,
            c * x <= c * y,
    ;
}

/// Two vectors that differ in sign only.
pub open spec fn opposed(a: Enu, b: Enu) -> bool {
    a.e.mirrors(b.e) && a.n.mirrors(b.n) && a.u.mirrors(b.u)
}

pub proof fn lemma_dot_opposed(a: Enu, b: Enu, a2: Enu, b2: Enu)
    requires
        opposed(a, a2),
        opposed(b, b2),
    ensures
        a.dot(b).like(a2.dot(b2)),
{
    facts::lemma_times_mirrors(a.e, b.e, a2.e, b2.e);
    facts::lemma_times_mirrors(a.n, b.n, a2.n, b2.n);
    facts::lemma_times_mirrors(a.u, b.u, a2.u, b2.u);
    let (x, y, z) = (a.e.times(b.e), a.n.times(b.n), a.u.times(b.u));
    let (x2, y2, z2) = (a2.e.times(b2.e), a2.n.times(b2.n), a2.u.times(b2.u));
    facts::lemma_plus_like(x, y, x2, y2);
    facts::lemma_plus_like(x.plus(y), z, x2.plus(y2), z2);
}

pub proof fn lemma_minus_opposed(a: Enu, b: Enu)
    ensures
        opposed(a.minus(b), b.minus(a)),
{
    facts::lemma_minus_mirrors(a.e, b.e);
    facts::lemma_minus_mirrors(a.n, b.n);
    facts::lemma_minus_mirrors(a.u, b.u);
}

/// Seen from the other side, the closest approach comes at the same time.
pub proof fn lemma_time_has_no_order(dp: Enu, dv: Enu, dp2: Enu, dv2: Enu, horizon_s: Double)
    requires
        opposed(dp, dp2),
        opposed(dv, dv2),
    ensures
        time_of_approach(dp, dv, horizon_s).like(time_of_approach(dp2, dv2, horizon_s)),
{
    lemma_dot_opposed(dv, dv, dv2, dv2);
    lemma_dot_opposed(dp, dv, dp2, dv2);
    let (dvv, dvv2) = (dv.dot(dv), dv2.dot(dv2));
    let (along, along2) = (dp.dot(dv), dp2.dot(dv2));
    lemma_held_like(along, dvv, along2, dvv2, horizon_s);
}

proof fn lemma_held_like(
    along: Double,
    dvv: Double,
    along2: Double,
    dvv2: Double,
    horizon_s: Double,
)
    requires
        along.like(along2),
        dvv.like(dvv2),
    ensures
        dvv.below(Double { bits: PARALLEL }) == dvv2.below(Double { bits: PARALLEL }),
        !dvv.below(Double { bits: PARALLEL }) ==> along.negated().over(dvv).held(
            Double { bits: ZERO },
            horizon_s,
        ).like(along2.negated().over(dvv2).held(Double { bits: ZERO }, horizon_s)),
{
    facts::lemma_like(dvv, dvv2);
    facts::lemma_units_order(0, 0);
    facts::lemma_units_order(PARALLEL as nat, dvv.magnitude());
    facts::lemma_units_order(dvv.magnitude(), 0);
    if !dvv.below(Double { bits: PARALLEL }) {
        let (back, back2) = (along.negated(), along2.negated());
        assert(back.like(back2));
        facts::lemma_over_like(back, dvv, back2, dvv2);
        facts::lemma_like(back.over(dvv), back2.over(dvv2));
    }
}

/// Seen from the other side, the place is the opposite one, as far away.
pub proof fn lemma_place_has_no_order(dp: Enu, dv: Enu, dp2: Enu, dv2: Enu, t: Double, t2: Double)
    requires
        opposed(dp, dp2),
        opposed(dv, dv2),
        t.like(t2),
    ensures
        ({
            let (at, at2) = (position_at(dp, dv, t), position_at(dp2, dv2, t2));
            at.e.distance(at.n) == at2.e.distance(at2.n) && at.u.absolute() == at2.u.absolute()
        }),
{
    let (path, path2) = (dv.scaled(t), dv2.scaled(t2));
    facts::lemma_scale_mirrors(dv.e, t, dv2.e, t2);
    facts::lemma_scale_mirrors(dv.n, t, dv2.n, t2);
    facts::lemma_scale_mirrors(dv.u, t, dv2.u, t2);
    facts::lemma_plus_mirrors(dp.e, path.e, dp2.e, path2.e);
    facts::lemma_plus_mirrors(dp.n, path.n, dp2.n, path2.n);
    facts::lemma_plus_mirrors(dp.u, path.u, dp2.u, path2.u);
    let (at, at2) = (dp.plus(path), dp2.plus(path2));
    facts::lemma_mirrors_magnitude(at.e, at2.e);
    facts::lemma_mirrors_magnitude(at.n, at2.n);
    facts::lemma_mirrors_magnitude(at.u, at2.u);
}

proof fn lemma_inside_has_no_order(dp: Enu, dv: Enu, dp2: Enu, dv2: Enu, m: Minima)
    requires
        opposed(dp, dp2),
        opposed(dv, dv2),
    ensures
        forall|s: Double| #[trigger]
            inside(position_at(dp, dv, s), m) == inside(position_at(dp2, dv2, s), m),
        forall|s: Double| #[trigger]
            inside(position_at(dp2, dv2, s), m) == inside(position_at(dp, dv, s), m),
{
    assert forall|s: Double| #[trigger]
        inside(position_at(dp, dv, s), m) == inside(position_at(dp2, dv2, s), m) by {
        lemma_place_has_no_order(dp, dv, dp2, dv2, s, s);
    }
    assert forall|s: Double| #[trigger]
        inside(position_at(dp2, dv2, s), m) == inside(position_at(dp, dv, s), m) by {
        lemma_place_has_no_order(dp, dv, dp2, dv2, s, s);
    }
}

/// Seen from the other side, a pair has the same moment to report.
pub proof fn law_moment_has_no_order(dp: Enu, dv: Enu, dp2: Enu, dv2: Enu, m: Minima)
    requires
        opposed(dp, dp2),
        opposed(dv, dv2),
    ensures
        match (moment(dp, dv, m), moment(dp2, dv2, m)) {
            (Some(t), Some(t2)) => t.like(t2),
            (None, None) => true,
            _ => false,
        },
{
    let t = time_of_approach(dp, dv, m.horizon_s);
    let t2 = time_of_approach(dp2, dv2, m.horizon_s);
    lemma_time_has_no_order(dp, dv, dp2, dv2, m.horizon_s);
    lemma_place_has_no_order(dp, dv, dp2, dv2, t, t2);
    lemma_inside_has_no_order(dp, dv, dp2, dv2, m);
    assert(ever_inside(dp, dv, m) == ever_inside(dp2, dv2, m));
    if !inside(position_at(dp, dv, t), m) && ever_inside(dp, dv, m) {
        law_there_is_an_earliest(dp, dv, m);
        law_there_is_an_earliest(dp2, dv2, m);
        let first = choose|t: Double| earliest(dp, dv, m, t);
        let first2 = choose|t: Double| earliest(dp2, dv2, m, t);
        assert(earliest(dp, dv, m, first) && earliest(dp2, dv2, m, first2));
        assert(earliest(dp2, dv2, m, first));
        lemma_earliest_unique(dp2, dv2, m, first, first2);
    }
}

} // verus!
