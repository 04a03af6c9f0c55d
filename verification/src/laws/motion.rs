//! The time of closest approach, against the exact geometry.
use crate::approach;
use crate::approach::{exact_dot, exact_offset, exact_separation};
use crate::double::facts;
use crate::double::facts::size;
use crate::double::{Double, ZERO};
use crate::geo::Enu;
use vstd::arithmetic::power2::*;
use vstd::prelude::*;

verus! {

/// The sizes of the three products of an inner product, together.
pub open spec fn bulk(a: Enu, b: Enu) -> int {
    size(a.e.value() * b.e.value()) + size(a.n.value() * b.n.value()) + size(
        a.u.value() * b.u.value(),
    )
}

/// A sum that is a number is of numbers.
pub proof fn lemma_finite_parts(a: Double, b: Double)
    requires
        a.plus(b).finite(),
    ensures
        a.finite(),
        b.finite(),
{
}

/// A bound on a rounding error holds in any unit.
proof fn lemma_scaled(x: int, y: int, o: int)
    requires
        o > 0,
        size(x) * 0x20_0000_0000_0000 <= size(y) + 0x10_0000_0000_0000,
    ensures
        size(x * o) * 0x20_0000_0000_0000 <= size(y * o) + o * 0x10_0000_0000_0000,
{
    assert(size(x * o) == size(x) * o) by (nonlinear_arith)
        requires
            o > 0,
    {
        assert(x < 0 ==> x * o <= 0 && -(x * o) == (-x) * o);
        assert(x >= 0 ==> x * o >= 0);
    }
    assert(size(y * o) == size(y) * o) by (nonlinear_arith)
        requires
            o > 0,
    {
        assert(y < 0 ==> y * o <= 0 && -(y * o) == (-y) * o);
        assert(y >= 0 ==> y * o >= 0);
    }
    let (a, b) = (size(x), size(y));
    assert((a * o) * 0x20_0000_0000_0000 <= b * o + o * 0x10_0000_0000_0000) by (nonlinear_arith)
        requires
            a * 0x20_0000_0000_0000 <= b + 0x10_0000_0000_0000,
            o > 0,
    ;
}

/// The inner product of two vectors is the sum of the products of their coordinates, all
/// three of them, but for a few parts in 2^53 of their sizes.
pub proof fn law_inner_products(a: Enu, b: Enu)
    requires
        approach::finite(a),
        approach::finite(b),
        a.dot(b).finite(),
    ensures
        size(a.dot(b).value() * pow2(1074) - exact_dot(a, b)) * 0x20_0000_0000_0000 <= 8 * bulk(a, b)
            + 16 * (pow2(1074) * 0x10_0000_0000_0000),
{
    let o = pow2(1074) as int;
    lemma_pow2_pos(1074);
    let (x, y, z) = (a.e.times(b.e), a.n.times(b.n), a.u.times(b.u));
    let s = x.plus(y);
    lemma_finite_parts(s, z);
    lemma_finite_parts(x, y);
    facts::lemma_times_error(a.e, b.e);
    facts::lemma_times_error(a.n, b.n);
    facts::lemma_times_error(a.u, b.u);
    facts::lemma_plus_error(x, y);
    facts::lemma_plus_error(s, z);
    let d = a.dot(b);
    lemma_scaled(s.value() - (x.value() + y.value()), x.value() + y.value(), o);
    lemma_scaled(d.value() - (s.value() + z.value()), s.value() + z.value(), o);
    let (p1, p2, p3) = (x.value() * o, y.value() * o, z.value() * o);
    let (ss, dd) = (s.value() * o, d.value() * o);
    assert((x.value() + y.value()) * o == p1 + p2) by (nonlinear_arith)
        requires
            p1 == x.value() * o,
            p2 == y.value() * o,
    ;
    assert((s.value() - (x.value() + y.value())) * o == ss - (p1 + p2)) by (nonlinear_arith)
        requires
            ss == s.value() * o,
            p1 == x.value() * o,
            p2 == y.value() * o,
    ;
    assert((s.value() + z.value()) * o == ss + p3) by (nonlinear_arith)
        requires
            ss == s.value() * o,
            p3 == z.value() * o,
    ;
    assert((d.value() - (s.value() + z.value())) * o == dd - (ss + p3)) by (nonlinear_arith)
        requires
            ss == s.value() * o,
            p3 == z.value() * o,
            dd == d.value() * o,
    ;
    let (e1, e2, e3) = (
        a.e.value() * b.e.value(),
        a.n.value() * b.n.value(),
        a.u.value() * b.u.value(),
    );
    lemma_three_terms(e1, e2, e3, p1, p2, p3, ss, dd, o * 0x10_0000_0000_0000);
}

proof fn lemma_three_terms(
    e1: int,
    e2: int,
    e3: int,
    p1: int,
    p2: int,
    p3: int,
    s: int,
    d: int,
    c: int,
)
    requires
        c >= 0,
        size(p1 - e1) * 0x20_0000_0000_0000 <= size(e1) + c,
        size(p2 - e2) * 0x20_0000_0000_0000 <= size(e2) + c,
        size(p3 - e3) * 0x20_0000_0000_0000 <= size(e3) + c,
        size(s - (p1 + p2)) * 0x20_0000_0000_0000 <= size(p1 + p2) + c,
        size(d - (s + p3)) * 0x20_0000_0000_0000 <= size(s + p3) + c,
    ensures
        size(d - (e1 + e2 + e3)) * 0x20_0000_0000_0000 <= 8 * (size(e1) + size(e2) + size(e3)) + 16
            * c,
{
    assert(size(p1 + p2) <= 2 * size(e1) + 2 * size(e2) + 2 * c);
    assert(size(s + p3) <= 3 * size(e1) + 3 * size(e2) + 2 * size(e3) + 4 * c);
    assert(size(d - (e1 + e2 + e3)) <= size(d - (s + p3)) + size(s - (p1 + p2)) + size(p1 - e1)
        + size(p2 - e2) + size(p3 - e3));
}

/// How far the time of approach may be from the exact quotient: 2^53 times the distance,
/// times the exact square of the speed.
pub open spec fn slack(dp: Enu, dv: Enu, horizon_s: Double) -> int {
    let o = pow2(1074) as int;
    let c = o * 0x10_0000_0000_0000;
    (horizon_s.value() + 0x10_0000_0000_0000) * (16 * exact_dot(dv, dv) + 32 * c) + o * (16 * bulk(
        dp,
        dv,
    ) + 32 * c)
}

/// The pair has a speed, and its closest approach can be computed without overflow.
pub open spec fn computable(dp: Enu, dv: Enu, horizon_s: Double) -> bool {
    &&& approach::finite(dp) && approach::finite(dv)
    &&& horizon_s.finite() && (Double { bits: ZERO }).at_most(horizon_s)
    &&& dp.dot(dv).finite() && dv.dot(dv).finite()
    &&& dp.dot(dv).negated().over(dv.dot(dv)).finite()
    // 1e-9 and more.
    &&& !dv.dot(dv).below(Double { bits: 0x3e11_2e0b_e826_d695 })
}

/// The moment from now to the horizon that is nearest to the exact quotient
/// -(dp . dv) / (dv . dv), but for the slack: short of the horizon it is not before the
/// quotient, and later than now it is not after it.
pub open spec fn is_nearest(dp: Enu, dv: Enu, horizon_s: Double, t: int) -> bool {
    let off = exact_offset(dp, dv, t, pow2(1074) as int);
    &&& 0 <= t <= horizon_s.value()
    &&& t < horizon_s.value() ==> off * 0x20_0000_0000_0000 >= -slack(dp, dv, horizon_s)
    &&& t > 0 ==> off * 0x20_0000_0000_0000 <= slack(dp, dv, horizon_s)
}

/// A pair that keeps its distance, to 1e-9 metres squared per second squared, is taken as it
/// is now. So is every pair without a horizon.
pub proof fn law_a_pair_that_keeps_its_distance_is_taken_now(dp: Enu, dv: Enu, horizon_s: Double)
    ensures
        dv.dot(dv).below(Double { bits: 0x3e11_2e0b_e826_d695 }) || !(Double { bits: ZERO }).at_most(
            horizon_s,
        ) ==> approach::time_of_approach(dp, dv, horizon_s).value() == 0,
{
    facts::lemma_units_order(0, 0);
}

/// The time of approach of any other pair is its quotient, if that is from now to the
/// horizon; now, if it is earlier; and the horizon, if it is later.
pub proof fn law_the_quotient_is_kept_to_the_horizon(dp: Enu, dv: Enu, horizon_s: Double)
    requires
        !dv.dot(dv).below(Double { bits: 0x3e11_2e0b_e826_d695 }),
        (Double { bits: ZERO }).at_most(horizon_s),
    ensures
        ({
            let q = dp.dot(dv).negated().over(dv.dot(dv));
            let t = approach::time_of_approach(dp, dv, horizon_s);
            &&& !q.nan() && q.value() < 0 ==> t.value() == 0
            &&& !q.nan() && 0 <= q.value() <= horizon_s.value() ==> t == q
            &&& !q.nan() && q.value() > horizon_s.value() ==> t == horizon_s
            &&& q.nan() ==> t.nan()
        }),
{
    facts::lemma_units_order(0, 0);
}

/// The time of approach is the nearest moment.
pub proof fn law_time_of_approach_is_the_nearest_moment(dp: Enu, dv: Enu, horizon_s: Double)
    requires
        computable(dp, dv, horizon_s),
    ensures
        is_nearest(dp, dv, horizon_s, approach::time_of_approach(dp, dv, horizon_s).value()),
{
    let o = pow2(1074) as int;
    lemma_pow2_pos(1074);
    facts::lemma_units_order(0, 0);
    facts::lemma_units_order(0x3e11_2e0b_e826_d695, 0);
    let (b, c) = (dp.dot(dv), dv.dot(dv));
    let back = b.negated();
    assert(back.magnitude() == b.magnitude() && back.value() == -b.value());
    law_inner_products(dp, dv);
    law_inner_products(dv, dv);
    lemma_squares(dv);
    facts::lemma_over_error(back, c);
    let bv = b.value();
    assert((-bv) * o == -(bv * o)) by (nonlinear_arith);
    let t0 = back.over(c);
    let t = approach::time_of_approach(dp, dv, horizon_s);
    assert(t == t0.held(Double { bits: ZERO }, horizon_s));
    lemma_nearest_moment(
        b.value(),
        c.value(),
        t0.value(),
        t.value(),
        horizon_s.value(),
        exact_dot(dp, dv),
        exact_dot(dv, dv),
        bulk(dp, dv),
        o,
    );
}

proof fn lemma_squares(v: Enu)
    ensures
        bulk(v, v) == exact_dot(v, v),
        exact_dot(v, v) >= 0,
{
    let (a, b, c) = (v.e.value(), v.n.value(), v.u.value());
    assert(a * a >= 0 && b * b >= 0 && c * c >= 0) by (nonlinear_arith);
}

/// `b` and `c` are the computed inner products, `q` their quotient, `t` that held between
/// nought and `h`; `bb` and `cc` are the exact ones, `m` the bulk of the first.
proof fn lemma_nearest_moment(
    b: int,
    c: int,
    q: int,
    t: int,
    h: int,
    bb: int,
    cc: int,
    m: int,
    o: int,
)
    requires
        o > 0,
        c > 0,
        cc >= 0,
        m >= 0,
        h >= 0,
        size(b * o - bb) * 0x20_0000_0000_0000 <= 8 * m + 16 * (o * 0x10_0000_0000_0000),
        size(c * o - cc) * 0x20_0000_0000_0000 <= 8 * cc + 16 * (o * 0x10_0000_0000_0000),
        size(q * c + b * o) * 0x20_0000_0000_0000 <= size(b) * o + c * 0x10_0000_0000_0000,
        b <= 0 ==> q >= 0,
        b >= 0 ==> q <= 0,
        t == if q < 0 {
            0
        } else if h < q {
            h
        } else {
            q
        },
    ensures
        ({
            let k = o * 0x10_0000_0000_0000;
            let slack = (h + 0x10_0000_0000_0000) * (16 * cc + 32 * k) + o * (16 * m + 32 * k);
            let off = cc * t + bb * o;
            &&& 0 <= t <= h
            &&& t < h ==> off * 0x20_0000_0000_0000 >= -slack
            &&& t > 0 ==> off * 0x20_0000_0000_0000 <= slack
        }),
{
    let w = 0x20_0000_0000_0000int;
    let hh = 0x10_0000_0000_0000int;
    let k = o * hh;
    let (rb, rc) = (8 * m + 16 * k, 8 * cc + 16 * k);
    let off = cc * t + bb * o;
    let co = c * o;
    // The exact products against the computed ones.
    assert((cc - co) * w <= rc && (co - cc) * w <= rc);
    assert(((cc - co) * t) * w <= rc * t && ((co - cc) * t) * w <= rc * t) by (nonlinear_arith)
        requires
            (cc - co) * w <= rc,
            (co - cc) * w <= rc,
            t >= 0,
    ;
    let bo = b * o;
    assert((bb - bo) * w <= rb && (bo - bb) * w <= rb);
    assert(((bb - bo) * o) * w <= rb * o && ((bo - bb) * o) * w <= rb * o) by (nonlinear_arith)
        requires
            (bb - bo) * w <= rb,
            (bo - bb) * w <= rb,
            o > 0,
    ;
    let near = c * t + bo;
    assert(off == (cc - co) * t + (bb - bo) * o + near * o) by (nonlinear_arith)
        requires
            off == cc * t + bb * o,
            near == c * t + bo,
            co == c * o,
    ;
    assert(co <= 2 * cc + k);
    // What the division leaves: 2^53 times it is within twice c (t + 2^52).
    let bound = 2 * (c * t) + 2 * (c * hh);
    let r = -bo;
    let qc = q * c;
    assert(c * t >= 0 && c * hh >= 0) by (nonlinear_arith)
        requires
            c > 0,
            t >= 0,
            hh >= 0,
    ;
    assert(size(b) * o == size(bo)) by (nonlinear_arith)
        requires
            bo == b * o,
            o > 0,
    {
        assert(b < 0 ==> b * o <= 0 && -(b * o) == (-b) * o);
        assert(b >= 0 ==> b * o >= 0);
    }
    assert(size(qc - r) * w <= size(bo) + c * hh);
    if t > 0 {
        assert(b < 0);
        assert(bo <= 0) by (nonlinear_arith)
            requires
                bo == b * o,
                b < 0,
                o > 0,
        ;
        assert(c * t <= qc) by (nonlinear_arith)
            requires
                qc == q * c,
                t <= q,
                c > 0,
        ;
        assert(near * w <= bound);
    }
    if t < h {
        assert(qc <= c * t) by (nonlinear_arith)
            requires
                qc == q * c,
                q <= t,
                c > 0,
        ;
        if b >= 0 {
            assert(bo >= 0) by (nonlinear_arith)
                requires
                    bo == b * o,
                    b >= 0,
                    o > 0,
            ;
        } else {
            assert(bo <= 0) by (nonlinear_arith)
                requires
                    bo == b * o,
                    b < 0,
                    o > 0,
            ;
            assert(t == q);
            assert(qc == c * t) by (nonlinear_arith)
                requires
                    qc == q * c,
                    t == q,
            ;
        }
        assert(near * w >= -bound);
    }
    assert(bound * o == (2 * co) * (t + hh)) by (nonlinear_arith)
        requires
            bound == 2 * (c * t) + 2 * (c * hh),
            co == c * o,
    ;
    assert((2 * co) * (t + hh) <= (4 * cc + 2 * k) * (t + hh)) by (nonlinear_arith)
        requires
            co <= 2 * cc + k,
            t + hh >= 0,
    ;
    assert((near * o) * w <= bound * o || near * w > bound) by (nonlinear_arith)
        requires
            o > 0,
    ;
    assert((near * o) * w >= -(bound * o) || near * w < -bound) by (nonlinear_arith)
        requires
            o > 0,
    ;
    assert((4 * cc + 2 * k) * (t + hh) + rc * t <= (16 * cc + 32 * k) * (t + hh)) by (nonlinear_arith)
        requires
            rc == 8 * cc + 16 * k,
            t >= 0,
            hh >= 0,
            cc >= 0,
            k >= 0,
    ;
    assert((16 * cc + 32 * k) * (t + hh) <= (h + hh) * (16 * cc + 32 * k)) by (nonlinear_arith)
        requires
            t <= h,
            cc >= 0,
            k >= 0,
    ;
    assert(rb * o <= o * (16 * m + 32 * k)) by (nonlinear_arith)
        requires
            rb == 8 * m + 16 * k,
            o > 0,
            m >= 0,
            k >= 0,
    ;
    assert(off * w == ((cc - co) * t) * w + ((bb - bo) * o) * w + (near * o) * w);
    let most = (4 * cc + 2 * k) * (t + hh) + rc * t + rb * o;
    assert(most <= (h + hh) * (16 * cc + 32 * k) + o * (16 * m + 32 * k));
    assert(t * rc == rc * t && ((co - cc) * t) * w == -(((cc - co) * t) * w) && ((bo - bb) * o) * w
        == -(((bb - bo) * o) * w)) by (nonlinear_arith);
    if t > 0 {
        assert((near * o) * w <= bound * o);
        assert(off * w <= most);
    }
    if t < h {
        assert((near * o) * w >= -(bound * o));
        assert(off * w >= -most);
    }
}

/// No moment from now to the horizon has an exact separation less than that at the time of
/// approach by more than the slack: the squares of the separations, times that of the
/// speed, differ by at most its square.
pub proof fn law_no_moment_is_closer(dp: Enu, dv: Enu, horizon_s: Double, x: int)
    requires
        computable(dp, dv, horizon_s),
        0 <= x <= horizon_s.value(),
    ensures
        ({
            let t = approach::time_of_approach(dp, dv, horizon_s).value();
            let o = pow2(1074) as int;
            let s = slack(dp, dv, horizon_s);
            let w = 0x20_0000_0000_0000int;
            (w * w) * (exact_dot(dv, dv) * exact_separation(dp, dv, t, o)) <= (w * w) * (exact_dot(
                dv,
                dv,
            ) * exact_separation(dp, dv, x, o)) + s * s
        }),
{
    law_time_of_approach_is_the_nearest_moment(dp, dv, horizon_s);
    let t = approach::time_of_approach(dp, dv, horizon_s).value();
    let o = pow2(1074) as int;
    let s = slack(dp, dv, horizon_s);
    let w = 0x20_0000_0000_0000int;
    approach::lemma_expanded(dp, dv, t, o);
    approach::lemma_expanded(dp, dv, x, o);
    lemma_squares(dv);
    let (a, b) = (exact_offset(dp, dv, t, o), exact_offset(dp, dv, x, o));
    let c = exact_dot(dv, dv);
    assert(t <= x ==> a <= b) by (nonlinear_arith)
        requires
            a == c * t + exact_dot(dp, dv) * o,
            b == c * x + exact_dot(dp, dv) * o,
            c >= 0,
    ;
    assert(x <= t ==> b <= a) by (nonlinear_arith)
        requires
            a == c * t + exact_dot(dp, dv) * o,
            b == c * x + exact_dot(dp, dv) * o,
            c >= 0,
    ;
    assert(size(a) <= size(b) || size(a) * w <= s);
    if size(a) <= size(b) {
        let (i, j) = (size(a), size(b));
        assert(i * i <= j * j) by (nonlinear_arith)
            requires
                0 <= i <= j,
        ;
        assert(a * a == i * i && b * b == j * j) by (nonlinear_arith)
            requires
                a == i || a == -i,
                b == j || b == -j,
        ;
        assert((w * w) * (a * a) <= (w * w) * (b * b));
        assert(s * s >= 0) by (nonlinear_arith);
    } else {
        let i = size(a);
        assert((w * w) * (a * a) <= s * s) by (nonlinear_arith)
            requires
                a == i || a == -i,
                0 <= i * w <= s,
        {
            assert((i * w) * (i * w) <= s * s);
            assert((i * w) * (i * w) == (w * w) * (i * i));
            assert(a * a == i * i);
        }
        assert(b * b >= 0) by (nonlinear_arith);
        assert((w * w) * (b * b) >= 0);
    }
    let g = (exact_dot(dp, dp) * c - exact_dot(dp, dv) * exact_dot(dp, dv)) * (o * o);
    let (l, r) = (c * exact_separation(dp, dv, t, o), c * exact_separation(dp, dv, x, o));
    assert(l == a * a + g && r == b * b + g);
}

} // verus!
